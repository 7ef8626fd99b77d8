//! Catalog-wide laws: facts that hold of every catalog the builder produces,
//! stated over the spec functions that the public operations are pinned to.

use vstd::prelude::*;
use crate::db::MimeDb;
use crate::db::assoc_find;
use crate::db::build_aliases;
use crate::db::build_support;
use crate::db::lemma_alias_entry;
use crate::db::lemma_assoc_find_none;
use crate::db::lemma_support_entry;
use crate::db::support_entries;

verus! {

/// Identification is deterministic: any two identifications of the same bytes
/// on the same catalog name the same type, because each result equals the one
/// spec value `from_u8_spec` gives for those bytes.
pub proof fn lemma_identify_deterministic(
    db: MimeDb,
    bytes: Seq<u8>,
    r1: Seq<char>,
    r2: Seq<char>,
)
    requires
        db.from_u8_spec(bytes) is Some,
        r1 == db.names_view()[db.from_u8_spec(bytes).unwrap()],
        r2 == db.names_view()[db.from_u8_spec(bytes).unwrap()],
    ensures
        r1 == r2,
{
}

/// An alias matches exactly as its canonical type does, for every byte
/// stream, provided the canonical name is not itself an alias.
pub proof fn lemma_alias_matches(
    db: MimeDb,
    alias: Seq<char>,
    canonical: Seq<char>,
    bytes: Seq<u8>,
)
    requires
        assoc_find(db.aliases_view(), alias) == Some(canonical),
        assoc_find(db.aliases_view(), canonical) is None,
    ensures
        db.match_u8_spec(alias, bytes) == db.match_u8_spec(canonical, bytes),
{
}

/// A type that no checker declared, and that no checker declared as an alias,
/// never matches any byte stream.
pub proof fn lemma_undeclared_never_matches(db: MimeDb, mime: Seq<char>, bytes: Seq<u8>)
    requires
        db.support_view() == build_support(db.checkers@),
        db.aliases_view() == build_aliases(db.checkers@),
        forall|k: int|
            0 <= k < db.checkers@.len() ==> !(#[trigger] db.checkers@[k].supported_spec()).contains(
                mime,
            ),
        forall|k: int, j: int|
            0 <= k < db.checkers@.len() && 0 <= j < db.checkers@[k].aliases_spec().len() ==> (
            #[trigger] db.checkers@[k].aliases_spec()[j]).0 != mime,
    ensures
        !db.match_u8_spec(mime, bytes),
{
    let cs = db.checkers@;
    assert forall|j: int| 0 <= j < db.aliases_view().len() implies (
    #[trigger] db.aliases_view()[j]).0 != mime by {
        lemma_alias_entry(cs, j);
        let k = choose|k: int|
            0 <= k < cs.len() && #[trigger] cs[k].aliases_spec().contains(build_aliases(cs)[j]);
        let w = choose|w: int|
            0 <= w < cs[k].aliases_spec().len() && cs[k].aliases_spec()[w] == build_aliases(cs)[j];
        assert(cs[k].aliases_spec()[w].0 != mime);
    }
    lemma_assoc_find_none(db.aliases_view(), mime);
    assert(db.canon_spec(mime) == mime);
    assert forall|j: int| 0 <= j < db.support_view().len() implies (
    #[trigger] db.support_view()[j]).0 != mime by {
        lemma_support_entry(cs, 0, j);
        let k = choose|k: int|
            0 <= k < cs.len() && #[trigger] cs[k].supported_spec().contains(
                support_entries(cs, 0)[j].0,
            ) && support_entries(cs, 0)[j].1 == 0 + k;
    }
    lemma_assoc_find_none(db.support_view(), mime);
}

/// The identified type itself matches the bytes: a walk only ever returns a
/// node whose own test succeeded.
pub proof fn lemma_identified_type_matches(db: MimeDb, bytes: Seq<u8>)
    requires
        db.from_u8_spec(bytes) is Some,
    ensures
        db.test_spec(db.from_u8_spec(bytes).unwrap(), bytes),
{
    lemma_walk_node_matched(db, db.root as int, bytes, db.names_view().len() as nat);
}

proof fn lemma_walk_node_matched(db: MimeDb, node: int, bytes: Seq<u8>, fuel: nat)
    requires
        db.walk_node_spec(node, bytes, fuel) is Some,
    ensures
        db.test_spec(db.walk_node_spec(node, bytes, fuel).unwrap(), bytes),
    decreases fuel, 1int, 0int,
{
    lemma_walk_kids_matched(db, db.kids_of(node), bytes, fuel);
}

proof fn lemma_walk_kids_matched(db: MimeDb, kids: Seq<int>, bytes: Seq<u8>, fuel: nat)
    requires
        db.walk_kids_spec(kids, bytes, fuel) is Some,
    ensures
        db.test_spec(db.walk_kids_spec(kids, bytes, fuel).unwrap(), bytes),
    decreases fuel, 0int, kids.len(),
{
    if kids.len() == 0 {
    } else if db.test_spec(kids[0], bytes) {
        if fuel == 0 {
        } else {
            match db.walk_node_spec(kids[0], bytes, (fuel - 1) as nat) {
                Some(d) => {
                    lemma_walk_node_matched(db, kids[0], bytes, (fuel - 1) as nat);
                },
                None => {},
            }
        }
    } else {
        lemma_walk_kids_matched(db, kids.drop_first(), bytes, fuel);
    }
}

/// Whether `b` can be reached from `a` in at most `k` descents, each step
/// moving to a member of the current node's child list.
pub open spec fn walk_reach(db: MimeDb, a: int, b: int, k: nat) -> bool
    decreases k,
{
    if a == b {
        true
    } else if k == 0 {
        false
    } else {
        exists|m: int| #[trigger] db.kids_of(a).contains(m) && walk_reach(db, m, b, (k - 1) as nat)
    }
}

/// Every identified type sits on a descent path from the root: the walk only
/// ever moves from a node to one of its children.
pub proof fn lemma_identified_type_reachable(db: MimeDb, bytes: Seq<u8>)
    requires
        db.from_u8_spec(bytes) is Some,
    ensures
        walk_reach(
            db,
            db.root as int,
            db.from_u8_spec(bytes).unwrap(),
            (db.names_view().len() + 1) as nat,
        ),
{
    lemma_walk_node_reaches(db, db.root as int, bytes, db.names_view().len() as nat);
}

proof fn lemma_walk_node_reaches(db: MimeDb, node: int, bytes: Seq<u8>, fuel: nat)
    requires
        db.walk_node_spec(node, bytes, fuel) is Some,
    ensures
        walk_reach(db, node, db.walk_node_spec(node, bytes, fuel).unwrap(), (fuel + 1) as nat),
    decreases fuel, 1int, 0int,
{
    lemma_walk_kids_reaches(db, node, db.kids_of(node), bytes, fuel);
}

proof fn lemma_walk_kids_reaches(db: MimeDb, node: int, kids: Seq<int>, bytes: Seq<u8>, fuel: nat)
    requires
        db.walk_kids_spec(kids, bytes, fuel) is Some,
        forall|i: int| 0 <= i < kids.len() ==> db.kids_of(node).contains(#[trigger] kids[i]),
    ensures
        walk_reach(db, node, db.walk_kids_spec(kids, bytes, fuel).unwrap(), (fuel + 1) as nat),
    decreases fuel, 0int, kids.len(),
{
    if kids.len() == 0 {
    } else if db.test_spec(kids[0], bytes) {
        let c = kids[0];
        assert(db.kids_of(node).contains(c));
        if fuel == 0 {
            assert(walk_reach(db, c, c, 0));
        } else {
            match db.walk_node_spec(c, bytes, (fuel - 1) as nat) {
                Some(d) => {
                    lemma_walk_node_reaches(db, c, bytes, (fuel - 1) as nat);
                },
                None => {
                    assert(walk_reach(db, c, c, fuel));
                },
            }
        }
    } else {
        assert forall|i: int| 0 <= i < kids.drop_first().len() implies db.kids_of(node).contains(
            #[trigger] kids.drop_first()[i],
        ) by {
            assert(kids.drop_first()[i] == kids[i + 1]);
        }
        lemma_walk_kids_reaches(db, node, kids.drop_first(), bytes, fuel);
    }
}

} // verus!
