//! The type catalog: a directed graph of MIME types built once from a list of
//! checkers, together with the alias table and the support table, and the
//! matching operations that walk the graph.
//!
//! Graph edges run from a parent type to a more specific child type. Every
//! type declared by a checker ends up reachable from the designated root
//! `all/all`: a fallback pass gives every parentless type a generic parent
//! chosen from its name's top-level part.

use vstd::prelude::*;
use crate::checker::Checker;
use crate::checker::pair_views;
use crate::graph::child_seq;
use crate::graph::graph_add_edge;
use crate::graph::graph_add_node;
use crate::graph::graph_children;
use crate::graph::graph_edges;
use crate::graph::graph_new;
use crate::graph::graph_nodes;

verus! {

/// What looking `k` up in the association list `t` yields: the value of the
/// last entry for `k`, so that a later binding wins over an earlier one.
pub open spec fn assoc_find<V>(t: Seq<(Seq<char>, V)>, k: Seq<char>) -> Option<V>
    decreases t.len(),
{
    if t.len() == 0 {
        None
    } else if t.last().0 == k {
        Some(t.last().1)
    } else {
        assoc_find(t.drop_last(), k)
    }
}

pub proof fn lemma_assoc_find_none<V>(t: Seq<(Seq<char>, V)>, k: Seq<char>)
    requires
        forall|j: int| 0 <= j < t.len() ==> (#[trigger] t[j]).0 != k,
    ensures
        assoc_find(t, k) is None,
    decreases t.len(),
{
    if t.len() > 0 {
        lemma_assoc_find_none(t.drop_last(), k);
    }
}

/// First position of name `t` in `names`, or `names.len()` when absent.
pub open spec fn index_of_name(names: Seq<Seq<char>>, t: Seq<char>) -> int
    decreases names.len(),
{
    if names.len() == 0 {
        0
    } else if names[0] == t {
        0
    } else {
        1 + index_of_name(names.drop_first(), t)
    }
}

pub proof fn lemma_index_of_name(names: Seq<Seq<char>>, t: Seq<char>)
    ensures
        0 <= index_of_name(names, t) <= names.len(),
        index_of_name(names, t) < names.len() ==> names[index_of_name(names, t)] == t,
        forall|j: int| 0 <= j < index_of_name(names, t) ==> names[j] != t,
        (index_of_name(names, t) < names.len()) == names.contains(t),
    decreases names.len(),
{
    if names.len() > 0 && names[0] != t {
        lemma_index_of_name(names.drop_first(), t);
        assert forall|j: int| 0 <= j < index_of_name(names, t) implies names[j] != t by {
            if j > 0 {
                assert(names.drop_first()[j - 1] == names[j]);
            }
        }
        if names.drop_first().contains(t) {
            let w = choose|w: int| 0 <= w < names.drop_first().len() && names.drop_first()[w] == t;
            assert(names[w + 1] == t);
        }
        if names.contains(t) {
            let w = choose|w: int| 0 <= w < names.len() && names[w] == t;
            assert(names.drop_first()[w - 1] == t);
        }
    } else if names.len() > 0 {
        assert(names.contains(t)) by {
            assert(names[0] == t);
        }
    }
}

pub proof fn lemma_index_of_name_is(names: Seq<Seq<char>>, t: Seq<char>, i: int)
    requires
        0 <= i <= names.len(),
        forall|j: int| 0 <= j < i ==> names[j] != t,
        i < names.len() ==> names[i] == t,
    ensures
        index_of_name(names, t) == i,
    decreases names.len(),
{
    if names.len() > 0 {
        if names[0] == t {
        } else {
            assert forall|j: int| 0 <= j < i - 1 implies names.drop_first()[j] != t by {
                assert(names.drop_first()[j] == names[j + 1]);
            }
            if i < names.len() {
                assert(names.drop_first()[i - 1] == names[i]);
            }
            lemma_index_of_name_is(names.drop_first(), t, i - 1);
        }
    }
}

/// The characters of `s` before its first `/`, or all of `s` when it has none.
pub open spec fn slash_pos(s: Seq<char>) -> int
    decreases s.len(),
{
    if s.len() == 0 {
        0
    } else if s[0] == '/' {
        0
    } else {
        1 + slash_pos(s.drop_first())
    }
}

pub open spec fn toplevel_of(s: Seq<char>) -> Seq<char> {
    s.take(slash_pos(s))
}

pub proof fn lemma_slash_pos_is(s: Seq<char>, i: int)
    requires
        0 <= i <= s.len(),
        forall|j: int| 0 <= j < i ==> s[j] != '/',
        i < s.len() ==> s[i] == '/',
    ensures
        slash_pos(s) == i,
    decreases s.len(),
{
    if s.len() > 0 {
        if s[0] == '/' {
        } else {
            assert forall|j: int| 0 <= j < i - 1 implies s.drop_first()[j] != '/' by {
                assert(s.drop_first()[j] == s[j + 1]);
            }
            if i < s.len() {
                assert(s.drop_first()[i - 1] == s[i]);
            }
            lemma_slash_pos_is(s.drop_first(), i - 1);
        }
    }
}

/// The four types that always exist and act as generic ancestors.
pub open spec fn is_sentinel(s: Seq<char>) -> bool {
    s == "text/plain"@ || s == "application/octet-stream"@ || s == "all/all"@ || s
        == "all/allfiles"@
}

/// The generic parent a parentless type falls back to, by the top-level part
/// of its name.
pub open spec fn fallback_parent(name: Seq<char>) -> Seq<char> {
    if toplevel_of(name) == "text"@ {
        "text/plain"@
    } else if toplevel_of(name) == "inode"@ {
        "all/all"@
    } else {
        "application/octet-stream"@
    }
}

/// Whether node `i` is the target of some edge.
pub open spec fn has_incoming(edges: Seq<(int, int)>, i: int) -> bool {
    exists|j: int| 0 <= j < edges.len() && edges[j].1 == i
}

/// Every type every checker declares, checkers in order.
pub open spec fn concat_supported(cs: Seq<Checker>) -> Seq<Seq<char>>
    decreases cs.len(),
{
    if cs.len() == 0 {
        Seq::empty()
    } else {
        cs[0].supported_spec() + concat_supported(cs.drop_first())
    }
}

/// Every subclass pair every checker contributes, checkers in order.
pub open spec fn concat_subclasses(cs: Seq<Checker>) -> Seq<(Seq<char>, Seq<char>)>
    decreases cs.len(),
{
    if cs.len() == 0 {
        Seq::empty()
    } else {
        cs[0].subclasses_spec() + concat_subclasses(cs.drop_first())
    }
}

/// Deduplication keeping the first occurrence of each name.
pub open spec fn dedup_acc(acc: Seq<Seq<char>>, s: Seq<Seq<char>>) -> Seq<Seq<char>>
    decreases s.len(),
{
    if s.len() == 0 {
        acc
    } else {
        dedup_acc(if acc.contains(s[0]) { acc } else { acc.push(s[0]) }, s.drop_first())
    }
}

/// The sentinel types appended when missing, in a fixed order.
pub open spec fn with_sentinels(names: Seq<Seq<char>>) -> Seq<Seq<char>> {
    let n1 = if names.contains("text/plain"@) { names } else { names.push("text/plain"@) };
    let n2 = if n1.contains("application/octet-stream"@) { n1 } else {
        n1.push("application/octet-stream"@)
    };
    let n3 = if n2.contains("all/all"@) { n2 } else { n2.push("all/all"@) };
    if n3.contains("all/allfiles"@) { n3 } else { n3.push("all/allfiles"@) }
}

/// The node names of the catalog built over `cs`.
pub open spec fn build_names(cs: Seq<Checker>) -> Seq<Seq<char>> {
    with_sentinels(dedup_acc(Seq::empty(), concat_supported(cs)))
}

/// The subclass pairs resolved against the node table: a pair whose child or
/// parent is not a node is dropped, an exact duplicate edge is dropped, and a
/// kept (child, parent) pair becomes the edge (parent, child).
pub open spec fn resolve_acc(
    acc: Seq<(int, int)>,
    pairs: Seq<(Seq<char>, Seq<char>)>,
    names: Seq<Seq<char>>,
) -> Seq<(int, int)>
    decreases pairs.len(),
{
    if pairs.len() == 0 {
        acc
    } else {
        let ci = index_of_name(names, pairs[0].0);
        let pi = index_of_name(names, pairs[0].1);
        let acc1 = if ci < names.len() && pi < names.len() && !acc.contains((pi, ci)) {
            acc.push((pi, ci))
        } else {
            acc
        };
        resolve_acc(acc1, pairs.drop_first(), names)
    }
}

/// The fallback edges for nodes `from..names.len()`: a node that no edge
/// reaches and that is not a sentinel gets one edge from its fallback parent.
/// Incoming edges are judged against the snapshot `edges0` of the first pass.
pub open spec fn fallback_acc(
    acc: Seq<(int, int)>,
    edges0: Seq<(int, int)>,
    names: Seq<Seq<char>>,
    from: int,
) -> Seq<(int, int)>
    decreases names.len() - from,
{
    if from < 0 || from >= names.len() {
        acc
    } else {
        let acc1 = if !has_incoming(edges0, from) && !is_sentinel(names[from]) {
            acc.push((index_of_name(names, fallback_parent(names[from])), from))
        } else {
            acc
        };
        fallback_acc(acc1, edges0, names, from + 1)
    }
}

/// The full edge list of the catalog built over `cs`.
pub open spec fn build_edges(cs: Seq<Checker>) -> Seq<(int, int)> {
    let names = build_names(cs);
    let first = resolve_acc(Seq::empty(), concat_subclasses(cs), names);
    fallback_acc(first, first, names, 0)
}

/// The support table: one entry per declared type, in declaration order, the
/// entry of checker `k0 + i` carrying value `k0 + i`. Lookups take the last
/// entry for a name, so a later checker overrides an earlier one, as a merge
/// of maps would.
pub open spec fn support_entries(cs: Seq<Checker>, k0: int) -> Seq<(Seq<char>, int)>
    decreases cs.len(),
{
    if cs.len() == 0 {
        Seq::empty()
    } else {
        cs[0].supported_spec().map_values(|n: Seq<char>| (n, k0)) + support_entries(
            cs.drop_first(),
            k0 + 1,
        )
    }
}

pub open spec fn build_support(cs: Seq<Checker>) -> Seq<(Seq<char>, int)> {
    support_entries(cs, 0)
}

/// The alias table: every checker's alias pairs in declaration order; lookups
/// take the last entry for an alias, so a later contribution wins.
pub open spec fn build_aliases(cs: Seq<Checker>) -> Seq<(Seq<char>, Seq<char>)>
    decreases cs.len(),
{
    if cs.len() == 0 {
        Seq::empty()
    } else {
        cs[0].aliases_spec() + build_aliases(cs.drop_first())
    }
}

/// The MIME types tested before their untouched siblings during a walk; a
/// throughput choice with no bearing on which type matches.
pub open spec fn type_order_spec() -> Seq<Seq<char>> {
    seq![
        "image/png"@,
        "image/jpeg"@,
        "image/gif"@,
        "application/zip"@,
        "application/x-msdos-executable"@,
        "application/pdf"@,
    ]
}

/// First position in `kids` of a node named `t`, or `kids.len()` when absent.
pub open spec fn index_in_kids(kids: Seq<int>, names: Seq<Seq<char>>, t: Seq<char>) -> int
    decreases kids.len(),
{
    if kids.len() == 0 {
        0
    } else if names[kids[0]] == t {
        0
    } else {
        1 + index_in_kids(kids.drop_first(), names, t)
    }
}

pub proof fn lemma_index_in_kids_is(kids: Seq<int>, names: Seq<Seq<char>>, t: Seq<char>, i: int)
    requires
        0 <= i <= kids.len(),
        forall|j: int| 0 <= j < i ==> names[#[trigger] kids[j]] != t,
        i < kids.len() ==> names[kids[i]] == t,
    ensures
        index_in_kids(kids, names, t) == i,
    decreases kids.len(),
{
    if kids.len() > 0 {
        if names[kids[0]] == t {
        } else {
            assert forall|j: int| 0 <= j < i - 1 implies names[#[trigger] kids.drop_first()[j]]
                != t by {
                assert(kids.drop_first()[j] == kids[j + 1]);
            }
            if i < kids.len() {
                assert(kids.drop_first()[i - 1] == kids[i]);
            }
            lemma_index_in_kids_is(kids.drop_first(), names, t, i - 1);
        }
    }
}

/// Moving the first child named `t`, if any, to the front of the list.
pub open spec fn promote(kids: Seq<int>, names: Seq<Seq<char>>, t: Seq<char>) -> Seq<int> {
    let j = index_in_kids(kids, names, t);
    if j < kids.len() {
        kids.remove(j).insert(0, kids[j])
    } else {
        kids
    }
}

/// The reordering applied to a node's children before they are tested: each
/// type of `order` in turn, when present among the children, moves to the
/// front. Each later move displaces the earlier ones, so the listed types end
/// up at the front in reverse of `order`. The reordering never changes which
/// child matches, only the order tested.
pub open spec fn reorder_from(kids: Seq<int>, names: Seq<Seq<char>>, order: Seq<Seq<char>>) -> Seq<
    int,
>
    decreases order.len(),
{
    if order.len() == 0 {
        kids
    } else {
        reorder_from(promote(kids, names, order[0]), names, order.drop_first())
    }
}

/// The edge mirror as mathematical pairs.
pub open spec fn edges_vm(s: Seq<(usize, usize)>) -> Seq<(int, int)> {
    s.map_values(|e: (usize, usize)| (e.0 as int, e.1 as int))
}

/// The support mirror as name views and checker positions.
pub open spec fn support_vm(s: Seq<(String, usize)>) -> Seq<(Seq<char>, int)> {
    s.map_values(|p: (String, usize)| (p.0@, p.1 as int))
}

/// The type catalog, built once from a list of checkers and immutable
/// afterwards.
pub struct MimeDb {
    pub checkers: Vec<Checker>,
    pub graph: petgraph::graph::DiGraph<String, u32>,
    pub names: Vec<String>,
    pub edges: Vec<(usize, usize)>,
    pub support: Vec<(String, usize)>,
    pub aliases: Vec<(String, String)>,
    pub order: Vec<String>,
    pub root: usize,
}

impl MimeDb {
    pub open spec fn names_view(self) -> Seq<Seq<char>> {
        self.names.deep_view()
    }

    pub open spec fn edges_view(self) -> Seq<(int, int)> {
        edges_vm(self.edges@)
    }

    pub open spec fn support_view(self) -> Seq<(Seq<char>, int)> {
        support_vm(self.support@)
    }

    pub open spec fn aliases_view(self) -> Seq<(Seq<char>, Seq<char>)> {
        pair_views(self.aliases@)
    }

    /// The structural facts every operation relies on: the mirrors agree with
    /// the graph, edges stay inside the node table, the root is the `all/all`
    /// node, and the two tables only hold what some checker declared.
    pub open spec fn wf(self) -> bool {
        &&& self.names_view() == graph_nodes(self.graph)
        &&& self.edges_view() == graph_edges(self.graph)
        &&& forall|j: int|
            0 <= j < self.edges_view().len() ==> 0 <= #[trigger] self.edges_view()[j].0
                < self.names_view().len() && 0 <= self.edges_view()[j].1
                < self.names_view().len()
        &&& self.root < self.names_view().len()
        &&& self.names_view()[self.root as int] == "all/all"@
        &&& forall|j: int|
            0 <= j < self.support_view().len() ==> 0 <= (#[trigger] self.support_view()[j]).1
                < self.checkers@.len()
        &&& self.order.deep_view() == type_order_spec()
    }

    /// What a name canonicalizes to: its alias target when it is an alias,
    /// itself otherwise.
    pub open spec fn canon_spec(self, mime: Seq<char>) -> Seq<char> {
        match assoc_find(self.aliases_view(), mime) {
            Some(c) => c,
            None => mime,
        }
    }

    /// Whether the owning checker of `mime` accepts `bytes`; false when no
    /// checker owns `mime`.
    pub open spec fn match_noalias_spec(self, mime: Seq<char>, bytes: Seq<u8>) -> bool {
        match assoc_find(self.support_view(), mime) {
            Some(k) => self.checkers@[k].matches_spec(mime, bytes),
            None => false,
        }
    }

    /// What `match_u8` returns: canonicalize, then ask the owning checker.
    pub open spec fn match_u8_spec(self, mime: Seq<char>, bytes: Seq<u8>) -> bool {
        self.match_noalias_spec(self.canon_spec(mime), bytes)
    }

    /// Transforms an alias into its canonical type; a name that is not an
    /// alias is returned unchanged.
    pub fn get_alias<'a>(&'a self, mime: &'a String) -> (r: &'a String)
        ensures
            r@ == self.canon_spec(mime@),
    {
        let n = self.aliases.len();
        proof {
            assert(self.aliases_view().take(n as int) =~= self.aliases_view());
        }
        for j in 0..n
            invariant
                n == self.aliases.len(),
                assoc_find(self.aliases_view(), mime@) == assoc_find(
                    self.aliases_view().take(n - j),
                    mime@,
                ),
        {
            let i = n - 1 - j;
            proof {
                assert(self.aliases_view().take(n - j).last() == self.aliases_view()[i as int]);
                assert(self.aliases_view().take(n - j).drop_last() =~= self.aliases_view().take(
                    n - j - 1,
                ));
            }
            if self.aliases[i].0 == *mime {
                return &self.aliases[i].1;
            }
        }
        proof {
            assert(self.aliases_view().take(0) =~= Seq::<(Seq<char>, Seq<char>)>::empty());
        }
        mime
    }

    /// Looks the canonical type up in the support table and runs the owning
    /// checker; an unowned type never matches.
    pub fn match_u8_noalias(&self, mime: &String, bytes: &[u8]) -> (r: bool)
        requires
            self.wf(),
        ensures
            r == self.match_noalias_spec(mime@, bytes@),
    {
        let n = self.support.len();
        proof {
            assert(self.support_view().take(n as int) =~= self.support_view());
        }
        for j in 0..n
            invariant
                self.wf(),
                n == self.support.len(),
                assoc_find(self.support_view(), mime@) == assoc_find(
                    self.support_view().take(n - j),
                    mime@,
                ),
        {
            let i = n - 1 - j;
            proof {
                assert(self.support_view().take(n - j).last() == self.support_view()[i as int]);
                assert(self.support_view().take(n - j).drop_last() =~= self.support_view().take(
                    n - j - 1,
                ));
            }
            if self.support[i].0 == *mime {
                let k = self.support[i].1;
                proof {
                    assert(self.support_view()[i as int].1 == self.support@[i as int].1 as int);
                }
                return self.checkers[k].match_bytes(bytes, mime);
            }
        }
        proof {
            assert(self.support_view().take(0) =~= Seq::<(Seq<char>, int)>::empty());
        }
        false
    }

    /// Checks whether the given byte stream matches the given MIME type. An
    /// unknown type never matches; an alias is checked as its canonical type.
    pub fn match_u8(&self, mimetype: &str, bytes: &[u8]) -> (r: bool)
        requires
            self.wf(),
        ensures
            r == self.match_u8_spec(mimetype@, bytes@),
    {
        let q: String = mimetype.to_owned();
        let c = self.get_alias(&q);
        self.match_u8_noalias(c, bytes)
    }

    /// The children of `node`, in the order a walk tests them.
    pub open spec fn kids_of(self, node: int) -> Seq<int> {
        reorder_from(child_seq(self.edges_view(), node), self.names_view(), type_order_spec())
    }

    /// Whether the type at node `node` matches `bytes`, asked without alias
    /// resolution, as the walk asks it.
    pub open spec fn test_spec(self, node: int, bytes: Seq<u8>) -> bool {
        self.match_noalias_spec(self.names_view()[node], bytes)
    }

    /// The walk from `node`: the first matching child is entered and the walk
    /// recurses there; the deepest match along that path wins, and further
    /// siblings are never tested. `None` means no child of `node` matches.
    /// `fuel` bounds the depth; a walk started with fuel at least the node
    /// count never exhausts it on an acyclic graph.
    pub open spec fn walk_node_spec(self, node: int, bytes: Seq<u8>, fuel: nat) -> Option<int>
        decreases fuel, 1int, 0int,
    {
        self.walk_kids_spec(self.kids_of(node), bytes, fuel)
    }

    pub open spec fn walk_kids_spec(self, kids: Seq<int>, bytes: Seq<u8>, fuel: nat) -> Option<int>
        decreases fuel, 0int, kids.len(),
    {
        if kids.len() == 0 {
            None
        } else if self.test_spec(kids[0], bytes) {
            if fuel == 0 {
                Some(kids[0])
            } else {
                match self.walk_node_spec(kids[0], bytes, (fuel - 1) as nat) {
                    Some(d) => Some(d),
                    None => Some(kids[0]),
                }
            }
        } else {
            self.walk_kids_spec(kids.drop_first(), bytes, fuel)
        }
    }

    /// What identification returns: the walk from the root, with fuel for the
    /// whole node count.
    pub open spec fn from_u8_spec(self, bytes: Seq<u8>) -> Option<int> {
        self.walk_node_spec(self.root as int, bytes, self.names_view().len() as nat)
    }

    fn find_in_kids(&self, kids: &Vec<usize>, t: &String) -> (r: usize)
        requires
            forall|i: int| 0 <= i < kids@.len() ==> (#[trigger] kids@[i]) < self.names@.len(),
        ensures
            r <= kids.len(),
            r as int == index_in_kids(
                kids@.map_values(|x: usize| x as int),
                self.names_view(),
                t@,
            ),
    {
        let ghost gk = kids@.map_values(|x: usize| x as int);
        let n = kids.len();
        for j in 0..n
            invariant
                n == kids.len(),
                gk == kids@.map_values(|x: usize| x as int),
                forall|i: int| 0 <= i < kids@.len() ==> (#[trigger] kids@[i]) < self.names@.len(),
                forall|i: int| 0 <= i < j ==> self.names_view()[#[trigger] gk[i]] != t@,
        {
            if self.names[kids[j]] == *t {
                proof {
                    lemma_index_in_kids_is(gk, self.names_view(), t@, j as int);
                }
                return j;
            }
        }
        proof {
            lemma_index_in_kids_is(gk, self.names_view(), t@, gk.len() as int);
        }
        n
    }

    /// Reorders a child list as the walk wants it: the cataloged priority
    /// types move to the front.
    fn reorder_children(&self, kids: Vec<usize>) -> (r: Vec<usize>)
        requires
            self.wf(),
            forall|i: int| 0 <= i < kids@.len() ==> (#[trigger] kids@[i]) < self.names@.len(),
        ensures
            r@.map_values(|x: usize| x as int) == reorder_from(
                kids@.map_values(|x: usize| x as int),
                self.names_view(),
                type_order_spec(),
            ),
            r@.len() == kids@.len(),
            forall|i: int| 0 <= i < r@.len() ==> (#[trigger] r@[i]) < self.names@.len(),
    {
        let ghost kids0 = kids@.map_values(|x: usize| x as int);
        let mut v = kids;
        let n = self.order.len();
        proof {
            assert(self.order.deep_view().skip(0) =~= self.order.deep_view());
        }
        for t_i in 0..n
            invariant
                self.wf(),
                n == self.order.len(),
                forall|i: int| 0 <= i < v@.len() ==> (#[trigger] v@[i]) < self.names@.len(),
                v@.len() == kids0.len(),
                reorder_from(
                    v@.map_values(|x: usize| x as int),
                    self.names_view(),
                    self.order.deep_view().skip(t_i as int),
                ) == reorder_from(kids0, self.names_view(), type_order_spec()),
        {
            let ghost gv = v@.map_values(|x: usize| x as int);
            let j = self.find_in_kids(&v, &self.order[t_i]);
            proof {
                assert(self.order.deep_view().skip(t_i as int)[0] == self.order.deep_view()[t_i as int]);
                assert(self.order.deep_view()[t_i as int] == self.order@[t_i as int]@);
                assert(self.order.deep_view().skip(t_i as int).drop_first() =~= self.order.deep_view().skip(
                    t_i + 1,
                ));
            }
            if j < v.len() {
                let x = v.remove(j);
                v.insert(0, x);
                proof {
                    assert(v@.map_values(|x: usize| x as int) =~= promote(
                        gv,
                        self.names_view(),
                        self.order@[t_i as int]@,
                    ));
                }
            } else {
                proof {
                    assert(v@.map_values(|x: usize| x as int) =~= promote(
                        gv,
                        self.names_view(),
                        self.order@[t_i as int]@,
                    ));
                }
            }
        }
        proof {
            assert(self.order.deep_view().skip(n as int) =~= Seq::<Seq<char>>::empty());
        }
        v
    }

    fn test_node(&self, node: usize, bytes: &[u8]) -> (r: bool)
        requires
            self.wf(),
            node < self.names@.len(),
        ensures
            r == self.test_spec(node as int, bytes@),
    {
        self.match_u8_noalias(&self.names[node], bytes)
    }

    /// The walk from `node`, testing each child in reordered order and
    /// descending into the first match; the deepest match wins.
    pub fn walk_from(&self, node: usize, bytes: &[u8], fuel: usize) -> (r: Option<usize>)
        requires
            self.wf(),
            node < self.names@.len(),
        ensures
            r is Some <==> self.walk_node_spec(node as int, bytes@, fuel as nat) is Some,
            r matches Some(i) ==> Some(i as int) == self.walk_node_spec(
                node as int,
                bytes@,
                fuel as nat,
            ) && i < self.names@.len(),
        decreases fuel,
    {
        let kids0 = graph_children(&self.graph, node);
        proof {
            assert(self.names@.len() == self.names_view().len());
            assert(forall|i: int|
                0 <= i < kids0@.len() ==> (#[trigger] kids0@[i]) < self.names@.len());
        }
        let kids = self.reorder_children(kids0);
        let ghost gkids = kids@.map_values(|x: usize| x as int);
        proof {
            assert(gkids =~= self.kids_of(node as int));
            assert(gkids.skip(0) =~= gkids);
        }
        let n = kids.len();
        for i in 0..n
            invariant
                self.wf(),
                node < self.names@.len(),
                n == kids.len(),
                gkids == kids@.map_values(|x: usize| x as int),
                forall|q: int| 0 <= q < kids@.len() ==> (#[trigger] kids@[q]) < self.names@.len(),
                self.walk_kids_spec(gkids.skip(i as int), bytes@, fuel as nat)
                    == self.walk_node_spec(node as int, bytes@, fuel as nat),
        {
            let c = kids[i];
            proof {
                assert(gkids.skip(i as int)[0] == gkids[i as int]);
            }
            if self.test_node(c, bytes) {
                if fuel == 0 {
                    return Some(c);
                }
                match self.walk_from(c, bytes, fuel - 1) {
                    Some(d) => {
                        return Some(d);
                    },
                    None => {
                        return Some(c);
                    },
                }
            }
            proof {
                assert(gkids.skip(i as int).drop_first() =~= gkids.skip(i + 1));
            }
        }
        proof {
            assert(gkids.skip(n as int) =~= Seq::<int>::empty());
        }
        None
    }

    /// Identifies the type of a byte stream, or `None` when no type under the
    /// root matches.
    pub fn try_from_u8<'a>(&'a self, bytes: &[u8]) -> (r: Option<&'a str>)
        requires
            self.wf(),
        ensures
            r is Some <==> self.from_u8_spec(bytes@) is Some,
            r matches Some(s) ==> s@ == self.names_view()[self.from_u8_spec(bytes@).unwrap()],
    {
        match self.walk_from(self.root, bytes, self.names.len()) {
            Some(i) => Some(self.names[i].as_str()),
            None => None,
        }
    }

    /// Gets the type of a byte stream. The caller knows some type matches;
    /// with the usual checker set the generic fallback types match any input.
    pub fn from_u8<'a>(&'a self, bytes: &[u8]) -> (r: &'a str)
        requires
            self.wf(),
            self.from_u8_spec(bytes@) is Some,
        ensures
            r@ == self.names_view()[self.from_u8_spec(bytes@).unwrap()],
    {
        match self.try_from_u8(bytes) {
            Some(s) => s,
            None => vstd::pervasive::unreached(),
        }
    }
}

fn push_str(v: &mut Vec<String>, x: String)
    ensures
        final(v).deep_view() == old(v).deep_view().push(x@),
        final(v)@.len() == old(v)@.len() + 1,
{
    let ghost pre = v.deep_view();
    let ghost xv = x@;
    v.push(x);
    proof {
        assert(v.deep_view().len() == pre.len() + 1);
        assert(forall|j: int| 0 <= j < pre.len() ==> v.deep_view()[j] == pre[j]);
        assert(v.deep_view()[pre.len() as int] == xv);
        assert(v.deep_view() =~= pre.push(xv));
    }
}

fn push_pair(v: &mut Vec<(String, String)>, a: String, b: String)
    ensures
        pair_views(final(v)@) == pair_views(old(v)@).push((a@, b@)),
{
    let ghost pre = pair_views(v@);
    let ghost av = a@;
    let ghost bv = b@;
    v.push((a, b));
    proof {
        assert(pair_views(v@).len() == pre.len() + 1);
        assert(forall|j: int| 0 <= j < pre.len() ==> pair_views(v@)[j] == pre[j]);
        assert(pair_views(v@)[pre.len() as int] == (av, bv));
        assert(pair_views(v@) =~= pre.push((av, bv)));
    }
}

fn push_support(v: &mut Vec<(String, usize)>, a: String, k: usize)
    ensures
        support_vm(final(v)@) == support_vm(old(v)@).push((a@, k as int)),
{
    let ghost pre = support_vm(v@);
    let ghost av = a@;
    v.push((a, k));
    proof {
        assert(support_vm(v@).len() == pre.len() + 1);
        assert(forall|j: int| 0 <= j < pre.len() ==> support_vm(v@)[j] == pre[j]);
        assert(support_vm(v@)[pre.len() as int] == (av, k as int));
        assert(support_vm(v@) =~= pre.push((av, k as int)));
    }
}

fn push_edge(v: &mut Vec<(usize, usize)>, a: usize, b: usize)
    ensures
        edges_vm(final(v)@) == edges_vm(old(v)@).push((a as int, b as int)),
        final(v)@.len() == old(v)@.len() + 1,
{
    let ghost pre = edges_vm(v@);
    v.push((a, b));
    proof {
        assert(edges_vm(v@).len() == pre.len() + 1);
        assert(forall|j: int| 0 <= j < pre.len() ==> edges_vm(v@)[j] == pre[j]);
        assert(edges_vm(v@)[pre.len() as int] == (a as int, b as int));
        assert(edges_vm(v@) =~= pre.push((a as int, b as int)));
    }
}

fn append_strs(dst: &mut Vec<String>, src: &Vec<String>)
    ensures
        final(dst).deep_view() == old(dst).deep_view() + src.deep_view(),
{
    let ghost base = old(dst).deep_view();
    let n = src.len();
    proof {
        assert(base + src.deep_view().take(0) =~= base);
    }
    for i in 0..n
        invariant
            n == src.len(),
            dst.deep_view() == base + src.deep_view().take(i as int),
    {
        let x = src[i].clone();
        proof {
            assert(x@ == src.deep_view()[i as int]);
            assert((base + src.deep_view().take(i as int)).push(src.deep_view()[i as int])
                =~= base + src.deep_view().take(i + 1));
        }
        push_str(dst, x);
    }
    proof {
        assert(base + src.deep_view().take(n as int) =~= base + src.deep_view());
    }
}

fn append_support(dst: &mut Vec<(String, usize)>, src: &Vec<String>, k: usize)
    ensures
        support_vm(final(dst)@) == support_vm(old(dst)@) + src.deep_view().map_values(
            |n: Seq<char>| (n, k as int),
        ),
{
    let ghost base = support_vm(old(dst)@);
    let ghost goal = src.deep_view().map_values(|n: Seq<char>| (n, k as int));
    let n = src.len();
    proof {
        assert(base + goal.take(0) =~= base);
    }
    for i in 0..n
        invariant
            n == src.len(),
            goal == src.deep_view().map_values(|n: Seq<char>| (n, k as int)),
            support_vm(dst@) == base + goal.take(i as int),
    {
        let x = src[i].clone();
        proof {
            assert(x@ == src.deep_view()[i as int]);
            assert(goal[i as int] == (src.deep_view()[i as int], k as int));
            assert((base + goal.take(i as int)).push(goal[i as int]) =~= base + goal.take(i + 1));
        }
        push_support(dst, x, k);
    }
    proof {
        assert(base + goal.take(n as int) =~= base + goal);
    }
}

fn append_pairs(dst: &mut Vec<(String, String)>, src: &Vec<(String, String)>)
    ensures
        pair_views(final(dst)@) == pair_views(old(dst)@) + pair_views(src@),
{
    let ghost base = pair_views(old(dst)@);
    let ghost goal = pair_views(src@);
    let n = src.len();
    proof {
        assert(base + goal.take(0) =~= base);
    }
    for i in 0..n
        invariant
            n == src.len(),
            goal == pair_views(src@),
            pair_views(dst@) == base + goal.take(i as int),
    {
        let a = src[i].0.clone();
        let b = src[i].1.clone();
        proof {
            assert(goal[i as int] == (src@[i as int].0@, src@[i as int].1@));
            assert((base + goal.take(i as int)).push(goal[i as int]) =~= base + goal.take(i + 1));
        }
        push_pair(dst, a, b);
    }
    proof {
        assert(base + goal.take(n as int) =~= base + goal);
    }
}

impl MimeDb {
    /// Builds the catalog from the checkers, once: one node per distinct
    /// declared type plus the four sentinels, the declared subclass relations
    /// that resolve (edges running parent to child, exact duplicates and
    /// dangling pairs dropped silently), one fallback edge for every
    /// parentless non-sentinel node, and the merged support and alias tables.
    /// The bound keeps the node and edge counts inside the graph's index type.
    #[verifier::rlimit(100)]
    pub fn new(checkers: Vec<Checker>) -> (db: MimeDb)
        requires
            concat_supported(checkers@).len() + concat_subclasses(checkers@).len() + 8
                < u32::MAX,
        ensures
            db.wf(),
            db.checkers@ == checkers@,
            db.names_view() == build_names(checkers@),
            db.edges_view() == build_edges(checkers@),
            db.support_view() == build_support(checkers@),
            db.aliases_view() == build_aliases(checkers@),
            db.root as int == index_of_name(build_names(checkers@), "all/all"@),
    {
        let cs = checkers;
        let ncs = cs.len();

        // Gather every contribution, checkers in order.
        let mut all: Vec<String> = Vec::new();
        let mut pairs: Vec<(String, String)> = Vec::new();
        let mut support: Vec<(String, usize)> = Vec::new();
        let mut aliases: Vec<(String, String)> = Vec::new();
        proof {
            assert(cs@.skip(0) =~= cs@);
            assert(Seq::<Seq<char>>::empty() + concat_supported(cs@) =~= concat_supported(cs@));
            assert(Seq::<(Seq<char>, Seq<char>)>::empty() + concat_subclasses(cs@)
                =~= concat_subclasses(cs@));
            assert(Seq::<(Seq<char>, int)>::empty() + support_entries(cs@, 0) =~= support_entries(
                cs@,
                0,
            ));
            assert(Seq::<(Seq<char>, Seq<char>)>::empty() + build_aliases(cs@) =~= build_aliases(
                cs@,
            ));
        }
        for k in 0..ncs
            invariant
                ncs == cs.len(),
                all.deep_view() + concat_supported(cs@.skip(k as int)) =~= concat_supported(cs@),
                pair_views(pairs@) + concat_subclasses(cs@.skip(k as int)) =~= concat_subclasses(
                    cs@,
                ),
                support_vm(support@) + support_entries(cs@.skip(k as int), k as int)
                    =~= support_entries(cs@, 0),
                pair_views(aliases@) + build_aliases(cs@.skip(k as int)) =~= build_aliases(cs@),
        {
            proof {
                assert(cs@.skip(k as int)[0] == cs@[k as int]);
                assert(cs@.skip(k as int).drop_first() =~= cs@.skip(k + 1));
            }
            let ghost base_a = all.deep_view();
            let ghost base_s = support_vm(support@);
            let ghost base_p = pair_views(pairs@);
            let ghost base_l = pair_views(aliases@);
            let sup = cs[k].supported();
            append_strs(&mut all, &sup);
            append_support(&mut support, &sup, k);
            proof {
                assert((base_a + sup.deep_view()) + concat_supported(cs@.skip(k + 1)) =~= base_a + (
                sup.deep_view() + concat_supported(cs@.skip(k + 1))));
                assert((base_s + sup.deep_view().map_values(|n: Seq<char>| (n, k as int)))
                    + support_entries(cs@.skip(k + 1), k + 1) =~= base_s + (sup.deep_view().map_values(
                    |n: Seq<char>| (n, k as int),
                ) + support_entries(cs@.skip(k + 1), k + 1)));
            }
            let pr = cs[k].subclass_pairs();
            proof {
                assert(pr.deep_view() =~= pair_views(pr@));
            }
            append_pairs(&mut pairs, &pr);
            proof {
                assert((base_p + pair_views(pr@)) + concat_subclasses(cs@.skip(k + 1)) =~= base_p + (
                pair_views(pr@) + concat_subclasses(cs@.skip(k + 1))));
            }
            let al = cs[k].alias_pairs();
            proof {
                assert(al.deep_view() =~= pair_views(al@));
            }
            append_pairs(&mut aliases, &al);
            proof {
                assert((base_l + pair_views(al@)) + build_aliases(cs@.skip(k + 1)) =~= base_l + (
                pair_views(al@) + build_aliases(cs@.skip(k + 1))));
            }
        }
        proof {
            assert(cs@.skip(ncs as int) =~= Seq::<Checker>::empty());
            assert(all.deep_view() + concat_supported(cs@.skip(ncs as int)) =~= all.deep_view());
            assert(pair_views(pairs@) + concat_subclasses(cs@.skip(ncs as int)) =~= pair_views(
                pairs@,
            ));
            assert(support_vm(support@) + support_entries(cs@.skip(ncs as int), ncs as int)
                =~= support_vm(support@));
            assert(pair_views(aliases@) + build_aliases(cs@.skip(ncs as int)) =~= pair_views(
                aliases@,
            ));
        }

        // One node per distinct type, first occurrence kept.
        let mut graph = graph_new();
        let mut names: Vec<String> = Vec::new();
        let na = all.len();
        proof {
            assert(all.deep_view().skip(0) =~= all.deep_view());
            assert(all.deep_view().len() == all@.len());
            assert(names.deep_view() =~= Seq::<Seq<char>>::empty());
        }
        for i in 0..na
            invariant
                na == all.len(),
                all.deep_view() == concat_supported(cs@),
                all.deep_view().len() + concat_subclasses(cs@).len() + 8 < u32::MAX,
                graph_nodes(graph) == names.deep_view(),
                graph_edges(graph) == Seq::<(int, int)>::empty(),
                names@.len() <= i,
                names@.len() == names.deep_view().len(),
                dedup_acc(names.deep_view(), all.deep_view().skip(i as int)) == dedup_acc(
                    Seq::empty(),
                    all.deep_view(),
                ),
        {
            proof {
                assert(all.deep_view().skip(i as int)[0] == all.deep_view()[i as int]);
                assert(all.deep_view()[i as int] == all@[i as int]@);
                assert(all.deep_view().skip(i as int).drop_first() =~= all.deep_view().skip(i + 1));
            }
            if !contains_name(&names, &all[i]) {
                graph_add_node(&mut graph, all[i].clone());
                push_str(&mut names, all[i].clone());
            }
        }
        proof {
            assert(all.deep_view().skip(na as int) =~= Seq::<Seq<char>>::empty());
            assert(names.deep_view() == dedup_acc(Seq::empty(), concat_supported(cs@)));
        }

        // The four sentinels, created when missing.
        let ghost deduped = names.deep_view();
        ensure_name(&mut graph, &mut names, "text/plain");
        ensure_name(&mut graph, &mut names, "application/octet-stream");
        ensure_name(&mut graph, &mut names, "all/all");
        ensure_name(&mut graph, &mut names, "all/allfiles");
        proof {
            assert(names.deep_view() == with_sentinels(deduped));
            assert(names.deep_view() == build_names(cs@));
            lemma_with_sentinels_has(deduped);
            assert(names.deep_view().len() == names@.len());
            assert(names@.len() <= deduped.len() + 4);
        }

        // Declared subclass relations, resolved and deduplicated.
        let mut edges: Vec<(usize, usize)> = Vec::new();
        let np = pairs.len();
        proof {
            assert(pair_views(pairs@).skip(0) =~= pair_views(pairs@));
            assert(pair_views(pairs@).len() == pairs@.len());
            assert(edges_vm(edges@) =~= Seq::<(int, int)>::empty());
        }
        for i in 0..np
            invariant
                np == pairs.len(),
                pair_views(pairs@) == concat_subclasses(cs@),
                names.deep_view() == build_names(cs@),
                names@.len() == names.deep_view().len(),
                names@.len() + concat_subclasses(cs@).len() + 4 < u32::MAX,
                graph_nodes(graph) == names.deep_view(),
                graph_edges(graph) == edges_vm(edges@),
                edges@.len() <= i,
                forall|j: int|
                    0 <= j < edges_vm(edges@).len() ==> 0 <= (#[trigger] edges_vm(edges@)[j]).0
                        < names@.len() && 0 <= edges_vm(edges@)[j].1 < names@.len(),
                resolve_acc(edges_vm(edges@), pair_views(pairs@).skip(i as int), names.deep_view())
                    == resolve_acc(Seq::empty(), pair_views(pairs@), names.deep_view()),
        {
            proof {
                assert(pair_views(pairs@).skip(i as int)[0] == pair_views(pairs@)[i as int]);
                assert(pair_views(pairs@)[i as int] == (pairs@[i as int].0@, pairs@[i as int].1@));
                assert(pair_views(pairs@).skip(i as int).drop_first() =~= pair_views(pairs@).skip(
                    i + 1,
                ));
            }
            let ci = find_name(&names, &pairs[i].0);
            let pi = find_name(&names, &pairs[i].1);
            if ci < names.len() && pi < names.len() {
                if !contains_edge(&edges, pi, ci) {
                    graph_add_edge(&mut graph, pi, ci);
                    push_edge(&mut edges, pi, ci);
                }
            }
        }
        proof {
            assert(pair_views(pairs@).skip(np as int) =~= Seq::<(Seq<char>, Seq<char>)>::empty());
            assert(edges_vm(edges@) == resolve_acc(
                Seq::empty(),
                concat_subclasses(cs@),
                build_names(cs@),
            ));
        }

        // Fallback pass: a parentless non-sentinel node gets a generic parent
        // chosen from its name's top-level part.
        let m0 = edges.len();
        let ghost edges0 = edges_vm(edges@);
        let nn = names.len();
        proof {
            assert(edges_vm(edges@).subrange(0, m0 as int) =~= edges0);
            assert(pairs@.len() == concat_subclasses(cs@).len());
            assert(deduped.len() <= na);
            assert(m0 + nn < u32::MAX);
        }
        for i in 0..nn
            invariant
                nn == names.len(),
                names.deep_view() == build_names(cs@),
                names@.len() == names.deep_view().len(),
                m0 <= edges@.len(),
                edges@.len() <= m0 + i,
                m0 + nn < u32::MAX,
                edges_vm(edges@).subrange(0, m0 as int) == edges0,
                names.deep_view().contains("text/plain"@),
                names.deep_view().contains("application/octet-stream"@),
                names.deep_view().contains("all/all"@),
                graph_nodes(graph) == names.deep_view(),
                graph_edges(graph) == edges_vm(edges@),
                forall|j: int|
                    0 <= j < edges_vm(edges@).len() ==> 0 <= (#[trigger] edges_vm(edges@)[j]).0
                        < names@.len() && 0 <= edges_vm(edges@)[j].1 < names@.len(),
                fallback_acc(edges_vm(edges@), edges0, names.deep_view(), i as int) == fallback_acc(
                    edges0,
                    edges0,
                    names.deep_view(),
                    0,
                ),
        {
            proof {
                assert(names.deep_view()[i as int] == names@[i as int]@);
            }
            let special = is_sentinel_name(&names[i]);
            let incoming = has_incoming_prefix(&edges, m0, i);
            if !incoming && !special {
                let tl = toplevel_str(&names[i]);
                let parent: String = if tl == "text".to_owned() {
                    "text/plain".to_owned()
                } else if tl == "inode".to_owned() {
                    "all/all".to_owned()
                } else {
                    "application/octet-stream".to_owned()
                };
                proof {
                    assert(parent@ == fallback_parent(names.deep_view()[i as int]));
                    lemma_index_of_name(names.deep_view(), parent@);
                }
                let pidx = find_name(&names, &parent);
                graph_add_edge(&mut graph, pidx, i);
                push_edge(&mut edges, pidx, i);
                proof {
                    assert(edges_vm(edges@).subrange(0, m0 as int) =~= edges0);
                }
            }
        }
        proof {
            assert(edges_vm(edges@) == fallback_acc(edges0, edges0, names.deep_view(), 0));
            assert(edges_vm(edges@) == build_edges(cs@));
        }

        // The fixed priority order and the designated root.
        let order: Vec<String> = vec![
            "image/png".to_owned(),
            "image/jpeg".to_owned(),
            "image/gif".to_owned(),
            "application/zip".to_owned(),
            "application/x-msdos-executable".to_owned(),
            "application/pdf".to_owned(),
        ];
        proof {
            assert(order.deep_view() =~= type_order_spec());
            lemma_index_of_name(names.deep_view(), "all/all"@);
        }
        let root = find_name(&names, &"all/all".to_owned());

        let db = MimeDb { checkers: cs, graph, names, edges, support, aliases, order, root };
        proof {
            assert(db.support_view() == build_support(cs@));
            assert forall|j: int| 0 <= j < db.support_view().len() implies 0 <= (
            #[trigger] db.support_view()[j]).1 < db.checkers@.len() by {
                lemma_support_entry(cs@, 0, j);
            }
            assert(db.names_view() == graph_nodes(db.graph));
            assert(db.edges_view() == graph_edges(db.graph));
            assert(forall|j: int|
                0 <= j < db.edges_view().len() ==> 0 <= (#[trigger] db.edges_view()[j]).0
                    < db.names_view().len() && 0 <= db.edges_view()[j].1
                    < db.names_view().len());
            assert(db.root < db.names_view().len());
            assert(db.names_view()[db.root as int] == "all/all"@);
            assert(forall|j: int|
                0 <= j < db.support_view().len() ==> 0 <= (#[trigger] db.support_view()[j]).1
                    < db.checkers@.len());
            assert(db.order.deep_view() == type_order_spec()) by {
                assert(db.order@.len() == 6);
                assert(db.order.deep_view() =~= type_order_spec());
            }
            assert(db.wf());
        }
        db
    }
}

fn contains_name(names: &Vec<String>, t: &String) -> (r: bool)
    ensures
        r == names.deep_view().contains(t@),
{
    let n = names.len();
    for j in 0..n
        invariant
            n == names.len(),
            forall|i: int| 0 <= i < j ==> names.deep_view()[i] != t@,
    {
        if names[j] == *t {
            proof {
                assert(names.deep_view()[j as int] == t@);
            }
            return true;
        }
    }
    proof {
        if names.deep_view().contains(t@) {
            let w = choose|w: int|
                0 <= w < names.deep_view().len() && names.deep_view()[w] == t@;
            assert(false);
        }
    }
    false
}

fn find_name(names: &Vec<String>, t: &String) -> (r: usize)
    ensures
        r <= names@.len(),
        r as int == index_of_name(names.deep_view(), t@),
        r < names@.len() ==> names.deep_view()[r as int] == t@,
{
    let n = names.len();
    for j in 0..n
        invariant
            n == names.len(),
            forall|i: int| 0 <= i < j ==> names.deep_view()[i] != t@,
    {
        if names[j] == *t {
            proof {
                lemma_index_of_name_is(names.deep_view(), t@, j as int);
            }
            return j;
        }
    }
    proof {
        lemma_index_of_name_is(names.deep_view(), t@, names.deep_view().len() as int);
    }
    n
}

fn contains_edge(edges: &Vec<(usize, usize)>, a: usize, b: usize) -> (r: bool)
    ensures
        r == edges_vm(edges@).contains((a as int, b as int)),
{
    let n = edges.len();
    for j in 0..n
        invariant
            n == edges.len(),
            forall|i: int| 0 <= i < j ==> edges_vm(edges@)[i] != (a as int, b as int),
    {
        if edges[j].0 == a && edges[j].1 == b {
            proof {
                assert(edges_vm(edges@)[j as int] == (a as int, b as int));
            }
            return true;
        }
    }
    proof {
        if edges_vm(edges@).contains((a as int, b as int)) {
            let w = choose|w: int|
                0 <= w < edges_vm(edges@).len() && edges_vm(edges@)[w] == (a as int, b as int);
            assert(false);
        }
    }
    false
}

fn has_incoming_prefix(edges: &Vec<(usize, usize)>, m0: usize, i: usize) -> (r: bool)
    requires
        m0 <= edges@.len(),
    ensures
        r == has_incoming(edges_vm(edges@).subrange(0, m0 as int), i as int),
{
    let ghost pre = edges_vm(edges@).subrange(0, m0 as int);
    for j in 0..m0
        invariant
            m0 <= edges@.len(),
            pre == edges_vm(edges@).subrange(0, m0 as int),
            forall|q: int| 0 <= q < j ==> (#[trigger] pre[q]).1 != i as int,
    {
        if edges[j].1 == i {
            proof {
                assert(pre[j as int].1 == i as int);
            }
            return true;
        }
    }
    proof {
        if has_incoming(pre, i as int) {
            let w = choose|w: int| 0 <= w < pre.len() && pre[w].1 == i as int;
            assert(false);
        }
    }
    false
}

fn is_sentinel_name(s: &String) -> (r: bool)
    ensures
        r == is_sentinel(s@),
{
    *s == "text/plain".to_owned() || *s == "application/octet-stream".to_owned() || *s
        == "all/all".to_owned() || *s == "all/allfiles".to_owned()
}

fn slash_position(s: &String) -> (r: usize)
    ensures
        r <= s@.len(),
        r as int == slash_pos(s@),
{
    let n = s.as_str().unicode_len();
    let mut i: usize = 0;
    while i < n
        invariant
            i <= n,
            n == s@.len(),
            forall|j: int| 0 <= j < i ==> s@[j] != '/',
        decreases n - i,
    {
        if s.as_str().get_char(i) == '/' {
            proof {
                lemma_slash_pos_is(s@, i as int);
            }
            return i;
        }
        i += 1;
    }
    proof {
        lemma_slash_pos_is(s@, n as int);
    }
    n
}

fn toplevel_str(s: &String) -> (r: String)
    ensures
        r@ == toplevel_of(s@),
{
    let p = slash_position(s);
    let r = s.as_str().substring_char(0, p).to_owned();
    proof {
        assert(r@ =~= s@.take(slash_pos(s@)));
    }
    r
}

/// Creates the node for `t` when it is not in the table yet.
fn ensure_name(
    graph: &mut petgraph::graph::DiGraph<String, u32>,
    names: &mut Vec<String>,
    t: &str,
)
    requires
        graph_nodes(*old(graph)) == old(names).deep_view(),
        old(names).deep_view().len() < u32::MAX,
    ensures
        graph_nodes(*final(graph)) == final(names).deep_view(),
        graph_edges(*final(graph)) == graph_edges(*old(graph)),
        final(names).deep_view() == (if old(names).deep_view().contains(t@) {
            old(names).deep_view()
        } else {
            old(names).deep_view().push(t@)
        }),
{
    let q: String = t.to_owned();
    if !contains_name(names, &q) {
        graph_add_node(graph, q.clone());
        names.push(q);
        proof {
            assert(names.deep_view() =~= old(names).deep_view().push(t@));
        }
    }
}

pub proof fn lemma_with_sentinels_has(names: Seq<Seq<char>>)
    ensures
        with_sentinels(names).contains("text/plain"@),
        with_sentinels(names).contains("application/octet-stream"@),
        with_sentinels(names).contains("all/all"@),
        with_sentinels(names).contains("all/allfiles"@),
{
    let n1 = if names.contains("text/plain"@) { names } else { names.push("text/plain"@) };
    let n2 = if n1.contains("application/octet-stream"@) { n1 } else {
        n1.push("application/octet-stream"@)
    };
    let n3 = if n2.contains("all/all"@) { n2 } else { n2.push("all/all"@) };
    let n4 = if n3.contains("all/allfiles"@) { n3 } else { n3.push("all/allfiles"@) };
    assert(n1.contains("text/plain"@)) by {
        if !names.contains("text/plain"@) {
            assert(n1.last() == "text/plain"@);
        }
    }
    lemma_push_keeps_contains(n1, n2, "text/plain"@);
    lemma_push_keeps_contains(n2, n3, "text/plain"@);
    lemma_push_keeps_contains(n3, n4, "text/plain"@);
    assert(n2.contains("application/octet-stream"@)) by {
        if !n1.contains("application/octet-stream"@) {
            assert(n2.last() == "application/octet-stream"@);
        }
    }
    lemma_push_keeps_contains(n2, n3, "application/octet-stream"@);
    lemma_push_keeps_contains(n3, n4, "application/octet-stream"@);
    assert(n3.contains("all/all"@)) by {
        if !n2.contains("all/all"@) {
            assert(n3.last() == "all/all"@);
        }
    }
    lemma_push_keeps_contains(n3, n4, "all/all"@);
    assert(n4.contains("all/allfiles"@)) by {
        if !n3.contains("all/allfiles"@) {
            assert(n4.last() == "all/allfiles"@);
        }
    }
}

proof fn lemma_push_keeps_contains(s: Seq<Seq<char>>, t: Seq<Seq<char>>, x: Seq<char>)
    requires
        t == s || (exists|y: Seq<char>| t == s.push(y)),
        s.contains(x),
    ensures
        t.contains(x),
{
    let w = choose|w: int| 0 <= w < s.len() && s[w] == x;
    if t != s {
        let y = choose|y: Seq<char>| t == s.push(y);
        assert(t[w] == x);
    }
}

/// The entry at position `j` of the support table carries a declared type and
/// points at the checker that declared it.
pub proof fn lemma_support_entry(cs: Seq<Checker>, k0: int, j: int)
    requires
        0 <= j < support_entries(cs, k0).len(),
    ensures
        exists|k: int|
            0 <= k < cs.len() && #[trigger] cs[k].supported_spec().contains(
                support_entries(cs, k0)[j].0,
            ) && support_entries(cs, k0)[j].1 == k0 + k,
    decreases cs.len(),
{
    let head = cs[0].supported_spec().map_values(|n: Seq<char>| (n, k0));
    let rest = support_entries(cs.drop_first(), k0 + 1);
    if j < head.len() {
        assert(support_entries(cs, k0)[j] == head[j]);
        assert(cs[0].supported_spec().contains(head[j].0)) by {
            assert(cs[0].supported_spec()[j] == head[j].0);
        }
        assert(0 <= 0 < cs.len() && cs[0].supported_spec().contains(
            support_entries(cs, k0)[j].0,
        ) && support_entries(cs, k0)[j].1 == k0 + 0);
    } else {
        assert(support_entries(cs, k0)[j] == rest[j - head.len()]);
        lemma_support_entry(cs.drop_first(), k0 + 1, j - head.len());
        let k = choose|k: int|
            0 <= k < cs.drop_first().len() && #[trigger] cs.drop_first()[k].supported_spec().contains(
                rest[j - head.len()].0,
            ) && rest[j - head.len()].1 == k0 + 1 + k;
        assert(cs[k + 1] == cs.drop_first()[k]);
        assert(0 <= k + 1 < cs.len() && cs[k + 1].supported_spec().contains(
            support_entries(cs, k0)[j].0,
        ) && support_entries(cs, k0)[j].1 == k0 + (k + 1));
    }
}

/// The entry at position `j` of the alias table was contributed by some
/// checker.
pub proof fn lemma_alias_entry(cs: Seq<Checker>, j: int)
    requires
        0 <= j < build_aliases(cs).len(),
    ensures
        exists|k: int|
            0 <= k < cs.len() && #[trigger] cs[k].aliases_spec().contains(build_aliases(cs)[j]),
    decreases cs.len(),
{
    let head = cs[0].aliases_spec();
    let rest = build_aliases(cs.drop_first());
    if j < head.len() {
        assert(build_aliases(cs)[j] == head[j]);
        assert(cs[0].aliases_spec().contains(head[j]));
    } else {
        assert(build_aliases(cs)[j] == rest[j - head.len()]);
        lemma_alias_entry(cs.drop_first(), j - head.len());
        let k = choose|k: int|
            0 <= k < cs.drop_first().len() && #[trigger] cs.drop_first()[k].aliases_spec().contains(
                rest[j - head.len()],
            );
        assert(cs[k + 1] == cs.drop_first()[k]);
        assert(cs[k + 1].aliases_spec().contains(build_aliases(cs)[j]));
    }
}


} // verus!
