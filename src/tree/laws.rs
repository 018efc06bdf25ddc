//! What holds of every assembled tree.
use crate::paths::parent_of;
use crate::tree::node::Node;
use crate::tree::assembly::{assembled_from, distinct_paths, lookup, waits_under_parent};
use crate::tree::{edge_ok, lemma_rank_bound, rank_bound, ranked, Tree, TreeAssembler};
use vstd::prelude::*;

verus! {

/// The path `n` levels up from `p`, following `parent_of`.
pub open spec fn nth_parent(p: Seq<char>, n: nat) -> Option<Seq<char>>
    decreases n,
{
    if n == 0 {
        Some(p)
    } else {
        match parent_of(p) {
            Some(q) => nth_parent(q, (n - 1) as nat),
            None => None,
        }
    }
}

/// `ids` is a walk down the tree from its root: each id is a child of the one
/// before it.
pub open spec fn is_descent(t: Tree, ids: Seq<usize>) -> bool {
    &&& ids.len() >= 1
    &&& ids[0] == t.root_id()
    &&& forall|i: int| 0 <= i < ids.len() ==> 1 <= #[trigger] ids[i] <= t.nodes().len()
    &&& forall|i: int| 0 <= i < ids.len() - 1 ==> t.child_ids(ids[i]).contains(#[trigger] ids[i + 1])
}

/// Every node that `children_of` reaches from the root in `n` steps lies
/// under the root's path: going `n` levels up from its path gives the root's
/// path, and it is not at the root's depth.
pub proof fn lemma_reached_under_root(t: Tree, ids: Seq<usize>)
    requires
        t.wf(),
        is_descent(t, ids),
    ensures
        nth_parent(t.nodes()[ids.last() - 1].path@, (ids.len() - 1) as nat) == Some(
            t.nodes()[t.root_id() - 1].path@,
        ),
        ids.len() > 1 ==> t.nodes()[ids.last() - 1].depth != 0,
    decreases ids.len(),
{
    if ids.len() > 1 {
        let prev = ids.drop_last();
        assert(is_descent(t, prev)) by {
            assert forall|i: int| 0 <= i < prev.len() - 1 implies t.child_ids(prev[i]).contains(
                #[trigger] prev[i + 1],
            ) by {
                assert(prev[i + 1] == ids[i + 1]);
            }
            assert forall|i: int| 0 <= i < prev.len() implies 1 <= #[trigger] prev[i] <= t.nodes().len() by {
                assert(prev[i] == ids[i]);
            }
        }
        lemma_reached_under_root(t, prev);
        let n = ids.len() - 1;
        let p = ids[n - 1];
        let c = ids[n];
        assert(t.child_ids(ids[n - 1]).contains(ids[n - 1 + 1]));
        let k = choose|k: int| 0 <= k < t.child_ids(p).len() && t.child_ids(p)[k] == c;
        assert(edge_ok(t.slots(), p - 1, t.slots()[p - 1].children[k]));
        assert(t.nodes()[c - 1] == t.slots()[c - 1].data);
        assert(t.nodes()[p - 1] == t.slots()[p - 1].data);
        assert(prev.last() == p);
    }
}

/// The root of a tree is at depth 0 and occurs exactly once: it has no
/// parent, no node lists it as a child, and no other node is at depth 0.
pub proof fn lemma_root_unique(t: Tree)
    requires
        t.wf(),
    ensures
        1 <= t.root_id() <= t.nodes().len(),
        t.nodes()[t.root_id() - 1].depth == 0,
        t.slots()[t.root_id() - 1].parent is None,
        forall|i: int| 0 <= i < t.nodes().len() && (#[trigger] t.nodes()[i]).depth == 0 ==> i == t.root_id() - 1,
        forall|p: int, k: int|
            0 <= p < t.slots().len() && 0 <= k < t.slots()[p].children.len() ==> #[trigger] t.slots()[p].children[k]
                != t.root_id(),
{
    assert forall|p: int, k: int|
        0 <= p < t.slots().len() && 0 <= k < t.slots()[p].children.len() implies #[trigger] t.slots()[p].children[k]
        != t.root_id() by {
        assert(edge_ok(t.slots(), p, t.slots()[p].children[k]));
    }
    assert forall|i: int| 0 <= i < t.nodes().len() && (#[trigger] t.nodes()[i]).depth == 0 implies i == t.root_id() - 1 by {
        assert(t.nodes()[i] == t.slots()[i].data);
    }
}

/// A directory under whose path no entry of the tree lies has no children:
/// its listing is empty.
pub proof fn lemma_childless(t: Tree, id: usize)
    requires
        t.wf(),
        1 <= id <= t.nodes().len(),
        forall|i: int| 0 <= i < t.nodes().len() ==> parent_of(#[trigger] t.nodes()[i].path@) != Some(t.nodes()[id - 1].path@),
    ensures
        t.child_ids(id).len() == 0,
{
    if t.child_ids(id).len() > 0 {
        let c = t.slots()[id - 1].children[0];
        assert(edge_ok(t.slots(), id - 1, c));
        assert(t.nodes()[c - 1] == t.slots()[c - 1].data);
        assert(t.nodes()[id - 1] == t.slots()[id - 1].data);
    }
}

/// Every child of a node is a node of the tree whose path lies directly in
/// the node's path.
pub proof fn lemma_child_in_parent(t: Tree, id: usize, k: int)
    requires
        t.wf(),
        1 <= id <= t.nodes().len(),
        0 <= k < t.child_ids(id).len(),
    ensures
        1 <= t.child_ids(id)[k] <= t.nodes().len(),
        parent_of(t.nodes()[t.child_ids(id)[k] - 1].path@) == Some(t.nodes()[id - 1].path@),
{
    let c = t.slots()[id - 1].children[k];
    assert(edge_ok(t.slots(), id - 1, c));
    assert(t.nodes()[c - 1] == t.slots()[c - 1].data);
    assert(t.nodes()[id - 1] == t.slots()[id - 1].data);
}

/// Node `x` is part of the tree: it is the root or has a parent.
pub open spec fn attached(t: Tree, x: usize) -> bool {
    x == t.root_id() || t.slots()[x - 1].parent is Some
}

/// Some node of the tree with the entry `e` is part of the tree.
pub open spec fn holds_attached(t: Tree, e: Node) -> bool {
    exists|y: usize| 1 <= y <= t.nodes().len() && #[trigger] attached(t, y) && t.nodes()[y - 1] == e
}

/// A node that is part of the tree assembled by `a1` has its entry part of
/// the tree assembled by `a2`, when both took in the same entries.
proof fn lemma_attached_in_other(
    a1: TreeAssembler,
    t1: Tree,
    a2: TreeAssembler,
    t2: Tree,
    x: usize,
)
    requires
        a1.wf(),
        a2.wf(),
        assembled_from(t1, a1),
        assembled_from(t2, a2),
        a1.nodes().to_multiset() == a2.nodes().to_multiset(),
        distinct_paths(a2.nodes()),
        1 <= x <= t1.nodes().len(),
        attached(t1, x),
    ensures
        holds_attached(t2, t1.nodes()[x - 1]),
    decreases rank_bound(t1.ranks()) - t1.ranks()[x - 1],
{
    broadcast use vstd::seq_lib::group_to_multiset_ensures;

    t1.lemma_ranks();
    lemma_rank_bound(t1.ranks());
    let s1 = t1.slots();
    let s2 = t2.slots();
    let e = t1.nodes()[x - 1];
    assert(a1.nodes().contains(e));
    assert(a2.nodes().to_multiset().count(e) > 0);
    assert(a2.nodes().contains(e));
    let i = choose|i: int| 0 <= i < a2.nodes().len() && a2.nodes()[i] == e;
    let y = (i + 1) as usize;
    assert(t2.nodes()[y - 1] == e);
    assert(t1.nodes()[x - 1] == s1[x - 1].data);
    assert(t2.nodes()[y - 1] == s2[y - 1].data);
    if x == t1.root_id() {
        if y != t2.root_id() {
            assert(s2[y - 1].data.depth != 0);
        }
        assert(attached(t2, y));
    } else {
        let p = s1[x - 1].parent->0;
        let k = choose|k: int| 0 <= k < s1[p - 1].children.len() && #[trigger] s1[p - 1].children[k] == x;
        assert(edge_ok(s1, p - 1, s1[p - 1].children[k]));
        assert(ranked(s1, t1.ranks()));
        assert(t1.ranks()[x - 1] < t1.ranks()[p - 1]);
        assert(t1.child_ids(p).len() > 0);
        assert(attached(t1, p));
        lemma_attached_in_other(a1, t1, a2, t2, p);
        let ep = t1.nodes()[p - 1];
        assert(ep == s1[p - 1].data);
        let yp = choose|yp: usize| 1 <= yp <= t2.nodes().len() && #[trigger] attached(t2, yp) && t2.nodes()[yp - 1] == ep;
        assert(t2.nodes()[yp - 1] == s2[yp - 1].data);
        assert(e.depth != 0);
        if y == t2.root_id() {
            assert(s2[y - 1].data.depth == 0);
        }
        a2.lemma_waiting();
        assert(waits_under_parent(a2.pending(), t2.nodes()[y - 1], y));
        assert(parent_of(e.path@) == Some(ep.path@));
        let kids = lookup(a2.pending(), ep.path@);
        assert(kids.contains(y));
        if yp != t2.root_id() {
            assert(ep.spec_is_dir() || t1.child_ids(p).len() == 0);
        }
        assert(t2.child_ids(yp) == kids);
        let j = choose|j: int| 0 <= j < kids.len() && kids[j] == y;
        assert(edge_ok(s2, yp - 1, s2[yp - 1].children[j]));
        assert(attached(t2, y));
    }
}

/// Two assemblers that took in the same entries, in whatever order, build
/// trees that hold the same entries: the order in which a walk delivers its
/// entries decides the order of siblings, never what the tree holds.
pub proof fn lemma_same_entries(a1: TreeAssembler, t1: Tree, a2: TreeAssembler, t2: Tree)
    requires
        a1.wf(),
        a2.wf(),
        assembled_from(t1, a1),
        assembled_from(t2, a2),
        a1.nodes().to_multiset() == a2.nodes().to_multiset(),
        distinct_paths(a1.nodes()),
        distinct_paths(a2.nodes()),
    ensures
        forall|e: Node| holds_attached(t1, e) <==> holds_attached(t2, e),
{
    assert forall|e: Node| holds_attached(t1, e) implies holds_attached(t2, e) by {
        let x = choose|x: usize| 1 <= x <= t1.nodes().len() && #[trigger] attached(t1, x) && t1.nodes()[x - 1] == e;
        lemma_attached_in_other(a1, t1, a2, t2, x);
    }
    assert forall|e: Node| holds_attached(t2, e) implies holds_attached(t1, e) by {
        let x = choose|x: usize| 1 <= x <= t2.nodes().len() && #[trigger] attached(t2, x) && t2.nodes()[x - 1] == e;
        lemma_attached_in_other(a2, t2, a1, t1, x);
    }
}

} // verus!
