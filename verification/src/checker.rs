//! Checkers: the components that test whether a byte stream is consistent
//! with one of the MIME types they declare.
//!
//! The checker set is closed: a rule-driven magic checker, whose rule table is
//! supplied by the caller, and a fixed base-type checker for the generic
//! fallback types. A checker also declares subclass relations, as
//! (child, parent) pairs, and alias knowledge, as (alias, canonical) pairs.

use vstd::prelude::*;
use crate::is_text;
use crate::is_text_spec;

verus! {

/// One magic rule: the input matches when the bytes at `offset` equal `value`.
pub struct MagicRule {
    pub offset: usize,
    pub value: Vec<u8>,
}

/// All magic rules for one MIME type; the type matches when any rule does.
pub struct MagicEntry {
    pub mime: String,
    pub rules: Vec<MagicRule>,
}

/// A checker driven by a table of magic rules.
pub struct MagicChecker {
    pub entries: Vec<MagicEntry>,
    /// Subclass relations, as (child, parent) pairs.
    pub subclasses: Vec<(String, String)>,
    /// Alias knowledge, as (alias, canonical) pairs.
    pub aliases: Vec<(String, String)>,
}

/// The checker for the generic fallback types. Its declarations are fixed:
/// the four sentinel types and the special inode types.
pub struct BaseChecker {}

pub enum Checker {
    Magic(MagicChecker),
    Base(BaseChecker),
}

pub open spec fn rule_matches_spec(offset: int, value: Seq<u8>, bytes: Seq<u8>) -> bool {
    &&& offset + value.len() <= bytes.len()
    &&& bytes.subrange(offset, offset + value.len() as int) == value
}

pub open spec fn entry_matches_spec(e: MagicEntry, bytes: Seq<u8>) -> bool {
    exists|i: int|
        0 <= i < e.rules@.len() && rule_matches_spec(
            e.rules@[i].offset as int,
            e.rules@[i].value@,
            bytes,
        )
}

pub open spec fn magic_matches_spec(c: MagicChecker, mime: Seq<char>, bytes: Seq<u8>) -> bool {
    exists|i: int|
        0 <= i < c.entries@.len() && c.entries@[i].mime@ == mime && entry_matches_spec(
            c.entries@[i],
            bytes,
        )
}

pub open spec fn base_matches_spec(mime: Seq<char>, bytes: Seq<u8>) -> bool {
    if mime == "all/all"@ || mime == "all/allfiles"@ || mime == "application/octet-stream"@ {
        true
    } else if mime == "text/plain"@ {
        is_text_spec(bytes)
    } else {
        false
    }
}

pub open spec fn base_supported_spec() -> Seq<Seq<char>> {
    seq![
        "all/all"@,
        "all/allfiles"@,
        "application/octet-stream"@,
        "text/plain"@,
        "inode/blockdevice"@,
        "inode/chardevice"@,
        "inode/directory"@,
        "inode/fifo"@,
        "inode/socket"@,
        "inode/symlink"@,
    ]
}

pub open spec fn base_subclasses_spec() -> Seq<(Seq<char>, Seq<char>)> {
    seq![
        ("all/allfiles"@, "all/all"@),
        ("application/octet-stream"@, "all/allfiles"@),
        ("text/plain"@, "application/octet-stream"@),
    ]
}

impl Checker {
    /// What this checker answers when asked whether `bytes` is consistent
    /// with the type `mime`.
    pub open spec fn matches_spec(self, mime: Seq<char>, bytes: Seq<u8>) -> bool {
        match self {
            Checker::Magic(c) => magic_matches_spec(c, mime, bytes),
            Checker::Base(_) => base_matches_spec(mime, bytes),
        }
    }

    /// The MIME types this checker declares it can test.
    pub open spec fn supported_spec(self) -> Seq<Seq<char>> {
        match self {
            Checker::Magic(c) => c.entries@.map_values(|e: MagicEntry| e.mime@),
            Checker::Base(_) => base_supported_spec(),
        }
    }

    /// The subclass relations this checker contributes, as (child, parent).
    pub open spec fn subclasses_spec(self) -> Seq<(Seq<char>, Seq<char>)> {
        match self {
            Checker::Magic(c) => c.subclasses.deep_view(),
            Checker::Base(_) => base_subclasses_spec(),
        }
    }

    /// The alias pairs this checker contributes, as (alias, canonical).
    pub open spec fn aliases_spec(self) -> Seq<(Seq<char>, Seq<char>)> {
        match self {
            Checker::Magic(c) => c.aliases.deep_view(),
            Checker::Base(_) => Seq::empty(),
        }
    }

    /// Tests whether `bytes` is consistent with the type `mime`.
    pub fn match_bytes(&self, bytes: &[u8], mime: &String) -> (r: bool)
        ensures
            r == self.matches_spec(mime@, bytes@),
    {
        match self {
            Checker::Magic(c) => magic_match_bytes(c, bytes, mime),
            Checker::Base(_) => base_match_bytes(bytes, mime),
        }
    }

    /// The declared types, as owned strings.
    pub fn supported(&self) -> (v: Vec<String>)
        ensures
            v.deep_view() == self.supported_spec(),
    {
        match self {
            Checker::Magic(c) => {
                let mut v: Vec<String> = Vec::new();
                for i in 0..c.entries.len()
                    invariant
                        v.deep_view() =~= c.entries@.subrange(0, i as int).map_values(
                            |e: MagicEntry| e.mime@,
                        ),
                {
                    v.push(c.entries[i].mime.clone());
                    proof {
                        assert(c.entries@.subrange(0, i + 1).map_values(|e: MagicEntry| e.mime@)
                            =~= c.entries@.subrange(0, i as int).map_values(
                            |e: MagicEntry| e.mime@,
                        ).push(c.entries@[i as int].mime@));
                    }
                }
                proof {
                    assert(c.entries@.subrange(0, c.entries@.len() as int) =~= c.entries@);
                }
                v
            },
            Checker::Base(_) => {
                let v: Vec<String> = vec![
                    "all/all".to_owned(),
                    "all/allfiles".to_owned(),
                    "application/octet-stream".to_owned(),
                    "text/plain".to_owned(),
                    "inode/blockdevice".to_owned(),
                    "inode/chardevice".to_owned(),
                    "inode/directory".to_owned(),
                    "inode/fifo".to_owned(),
                    "inode/socket".to_owned(),
                    "inode/symlink".to_owned(),
                ];
                proof {
                    assert(v.deep_view() =~= base_supported_spec());
                }
                v
            },
        }
    }

    /// The contributed subclass relations, as owned (child, parent) pairs.
    pub fn subclass_pairs(&self) -> (v: Vec<(String, String)>)
        ensures
            v.deep_view() == self.subclasses_spec(),
    {
        match self {
            Checker::Magic(c) => clone_pairs(&c.subclasses),
            Checker::Base(_) => {
                let v: Vec<(String, String)> = vec![
                    ("all/allfiles".to_owned(), "all/all".to_owned()),
                    ("application/octet-stream".to_owned(), "all/allfiles".to_owned()),
                    ("text/plain".to_owned(), "application/octet-stream".to_owned()),
                ];
                proof {
                    assert(v.deep_view() =~= base_subclasses_spec());
                }
                v
            },
        }
    }

    /// The contributed alias pairs, as owned (alias, canonical) pairs.
    pub fn alias_pairs(&self) -> (v: Vec<(String, String)>)
        ensures
            v.deep_view() == self.aliases_spec(),
    {
        match self {
            Checker::Magic(c) => clone_pairs(&c.aliases),
            Checker::Base(_) => {
                let v: Vec<(String, String)> = Vec::new();
                proof {
                    assert(v.deep_view() =~= Seq::<(Seq<char>, Seq<char>)>::empty());
                }
                v
            },
        }
    }
}

/// The views of a sequence of string pairs.
pub open spec fn pair_views(s: Seq<(String, String)>) -> Seq<(Seq<char>, Seq<char>)> {
    s.map_values(|p: (String, String)| (p.0@, p.1@))
}

fn clone_pairs(pairs: &Vec<(String, String)>) -> (v: Vec<(String, String)>)
    ensures
        v.deep_view() == pairs.deep_view(),
{
    let mut v: Vec<(String, String)> = Vec::new();
    for i in 0..pairs.len()
        invariant
            pair_views(v@) =~= pair_views(pairs@.subrange(0, i as int)),
    {
        v.push((pairs[i].0.clone(), pairs[i].1.clone()));
        proof {
            assert(pair_views(pairs@.subrange(0, i + 1)) =~= pair_views(
                pairs@.subrange(0, i as int),
            ).push((pairs@[i as int].0@, pairs@[i as int].1@)));
        }
    }
    proof {
        assert(pairs@.subrange(0, pairs@.len() as int) =~= pairs@);
        assert(v.deep_view() =~= pair_views(v@));
        assert(pairs.deep_view() =~= pair_views(pairs@));
    }
    v
}

/// Tests one magic rule: the bytes at `rule.offset` equal `rule.value`.
fn rule_matches(rule: &MagicRule, bytes: &[u8]) -> (r: bool)
    ensures
        r == rule_matches_spec(rule.offset as int, rule.value@, bytes@),
{
    let blen = bytes.len();
    if rule.offset > blen || rule.value.len() > blen - rule.offset {
        return false;
    }
    for j in 0..rule.value.len()
        invariant
            blen == bytes@.len(),
            rule.offset + rule.value@.len() <= blen,
            forall|k: int| 0 <= k < j ==> bytes@[rule.offset + k] == rule.value@[k],
    {
        if bytes[rule.offset + j] != rule.value[j] {
            proof {
                assert(bytes@.subrange(
                    rule.offset as int,
                    rule.offset + rule.value@.len() as int,
                )[j as int] == bytes@[rule.offset + j]);
            }
            return false;
        }
    }
    proof {
        assert(bytes@.subrange(rule.offset as int, rule.offset + rule.value@.len() as int)
            =~= rule.value@);
    }
    true
}

fn entry_matches(e: &MagicEntry, bytes: &[u8]) -> (r: bool)
    ensures
        r == entry_matches_spec(*e, bytes@),
{
    for i in 0..e.rules.len()
        invariant
            forall|k: int|
                0 <= k < i ==> !rule_matches_spec(
                    e.rules@[k].offset as int,
                    e.rules@[k].value@,
                    bytes@,
                ),
    {
        if rule_matches(&e.rules[i], bytes) {
            return true;
        }
    }
    false
}

fn magic_match_bytes(c: &MagicChecker, bytes: &[u8], mime: &String) -> (r: bool)
    ensures
        r == magic_matches_spec(*c, mime@, bytes@),
{
    for i in 0..c.entries.len()
        invariant
            forall|k: int|
                0 <= k < i ==> !(c.entries@[k].mime@ == mime@ && entry_matches_spec(
                    c.entries@[k],
                    bytes@,
                )),
    {
        if c.entries[i].mime == *mime {
            if entry_matches(&c.entries[i], bytes) {
                return true;
            }
        }
    }
    false
}

fn base_match_bytes(bytes: &[u8], mime: &String) -> (r: bool)
    ensures
        r == base_matches_spec(mime@, bytes@),
{
    if *mime == "all/all".to_owned() || *mime == "all/allfiles".to_owned() || *mime
        == "application/octet-stream".to_owned() {
        true
    } else if *mime == "text/plain".to_owned() {
        is_text(bytes)
    } else {
        false
    }
}


} // verus!
