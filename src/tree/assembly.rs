//! Assembly of a tree from the entries of a walk: the assembler that takes
//! them in, and the bottom-up linking once the walk is done.
use crate::arena::{
    all_live, arena_append, arena_get, arena_len, arena_new, arena_new_node, arena_slots, live_id,
    ArenaSlot,
};
use crate::paths::parent_of;
use crate::tree::node::Node;
use crate::tree::pending::PendingBranches;
use crate::tree::{
    acyclic, edge_ok, edges_ok, lemma_rank_bound, parents_ok, rank_bound, ranked, tree_ok, Tree,
    TreeError,
};
use indextree::Arena;
use vstd::prelude::*;

verus! {

/// Node `x` has neither a parent nor children.
pub open spec fn unlinked(s: Seq<ArenaSlot>, x: usize) -> bool {
    s[x - 1].parent is None && s[x - 1].children.len() == 0
}

/// No two nodes of `s` have the same path.
pub open spec fn paths_unique(s: Seq<ArenaSlot>) -> bool {
    forall|i: int, j: int|
        0 <= i < s.len() && 0 <= j < s.len() && i != j ==> (#[trigger] s[i]).data.path@ != (
        #[trigger] s[j]).data.path@
}

/// The children waiting under `k` in `m`; none if no branch has that path.
pub open spec fn lookup(m: Map<Seq<char>, Seq<usize>>, k: Seq<char>) -> Seq<usize> {
    if m.contains_key(k) {
        m[k]
    } else {
        Seq::empty()
    }
}

/// Node `y` waited in `m_old` and no longer waits in `m_new`.
pub open spec fn taken(m_old: Map<Seq<char>, Seq<usize>>, m_new: Map<Seq<char>, Seq<usize>>, y: usize) -> bool {
    in_branches(m_old, y) && !in_branches(m_new, y)
}

/// Node `x` is a directory of `s`.
pub open spec fn dir_at(s: Seq<ArenaSlot>, x: usize) -> bool {
    s[x - 1].data.spec_is_dir()
}

/// No two entries have the same path.
pub open spec fn distinct_paths(ns: Seq<Node>) -> bool {
    forall|i: int, j: int|
        0 <= i < ns.len() && 0 <= j < ns.len() && i != j ==> (#[trigger] ns[i]).path@ != (#[trigger] ns[j]).path@
}

/// The entry `n` with id `x` waits in `m` under its parent path.
pub open spec fn waits_under_parent(m: Map<Seq<char>, Seq<usize>>, n: Node, x: usize) -> bool {
    &&& parent_of(n.path@) is Some
    &&& m.contains_key(parent_of(n.path@)->0)
    &&& m[parent_of(n.path@)->0].contains(x)
}

/// Node `x` is waiting in some branch of `m`.
pub open spec fn in_branches(m: Map<Seq<char>, Seq<usize>>, x: usize) -> bool {
    exists|k: Seq<char>, j: int| m.contains_key(k) && 0 <= j < m[k].len() && m[k][j] == x
}

/// Node `x`, waiting under the path `k`, is a detached node other than `cur`,
/// not at the root's depth, whose path lies directly in `k`.
pub open spec fn waiting_ok(s: Seq<ArenaSlot>, k: Seq<char>, x: usize, cur: usize) -> bool {
    &&& 1 <= x <= s.len()
    &&& x != cur
    &&& unlinked(s, x)
    &&& s[x - 1].data.depth != 0
    &&& parent_of(s[x - 1].data.path@) == Some(k)
}

/// Every node waiting in `m` is as `waiting_ok` says, and each branch lists
/// its nodes in increasing order.
pub open spec fn pending_ok(m: Map<Seq<char>, Seq<usize>>, s: Seq<ArenaSlot>, cur: usize) -> bool {
    &&& forall|k: Seq<char>, j: int|
        m.contains_key(k) && 0 <= j < m[k].len() ==> waiting_ok(s, k, #[trigger] m[k][j], cur)
    &&& forall|k: Seq<char>, a: int, b: int|
        m.contains_key(k) && 0 <= a < b < m[k].len() ==> #[trigger] m[k][a] < #[trigger] m[k][b]
}

proof fn lemma_in_submap(m1: Map<Seq<char>, Seq<usize>>, m2: Map<Seq<char>, Seq<usize>>, x: usize)
    requires
        m1.submap_of(m2),
        in_branches(m1, x),
    ensures
        in_branches(m2, x),
{
    let (k, j) = choose|k: Seq<char>, j: int| m1.contains_key(k) && 0 <= j < m1[k].len() && m1[k][j] == x;
    assert(m2.contains_key(k) && m2[k] == m1[k]);
}

proof fn lemma_pending_submap(
    m1: Map<Seq<char>, Seq<usize>>,
    m2: Map<Seq<char>, Seq<usize>>,
    s: Seq<ArenaSlot>,
    cur: usize,
    other: usize,
)
    requires
        m1.submap_of(m2),
        pending_ok(m1, s, other),
        forall|x: usize| in_branches(m2, x) ==> x != cur,
    ensures
        pending_ok(m1, s, cur),
{
    assert forall|k: Seq<char>, j: int| m1.contains_key(k) && 0 <= j < m1[k].len() implies waiting_ok(
        s,
        k,
        #[trigger] m1[k][j],
        cur,
    ) by {
        assert(waiting_ok(s, k, m1[k][j], other));
        lemma_in_submap(m1, m2, m1[k][j]);
    }
}

proof fn lemma_submap_trans(
    m1: Map<Seq<char>, Seq<usize>>,
    m2: Map<Seq<char>, Seq<usize>>,
    m3: Map<Seq<char>, Seq<usize>>,
)
    requires
        m1.submap_of(m2),
        m2.submap_of(m3),
    ensures
        m1.submap_of(m3),
{
    assert forall|q: Seq<char>| #[trigger] m1.contains_key(q) implies m3.contains_key(q) && m1[q] == m3[q] by {
        assert(m2.contains_key(q));
    }
}

/// Linking a detached node below a node keeps every link consistent, and a
/// ranking stays one where the parent already ranks above the child.
proof fn lemma_append_edges(s: Seq<ArenaSlot>, p: usize, c: usize, r: Seq<nat>)
    requires
        edges_ok(s),
        ranked(s, r),
        r[c - 1] < r[p - 1],
        1 <= p <= s.len(),
        1 <= c <= s.len(),
        p != c,
        s[c - 1].parent is None,
        parent_of(s[c - 1].data.path@) == Some(s[p - 1].data.path@),
        s[c - 1].data.depth != 0,
    ensures
        edges_ok(
            s.update(p - 1, ArenaSlot { children: s[p - 1].children.push(c), ..s[p - 1] }).update(
                c - 1,
                ArenaSlot { parent: Some(p), ..s[c - 1] },
            ),
        ),
        ranked(
            s.update(p - 1, ArenaSlot { children: s[p - 1].children.push(c), ..s[p - 1] }).update(
                c - 1,
                ArenaSlot { parent: Some(p), ..s[c - 1] },
            ),
            r,
        ),
        parents_ok(s) ==> parents_ok(
            s.update(p - 1, ArenaSlot { children: s[p - 1].children.push(c), ..s[p - 1] }).update(
                c - 1,
                ArenaSlot { parent: Some(p), ..s[c - 1] },
            ),
        ),
{
    let s1 = s.update(p - 1, ArenaSlot { children: s[p - 1].children.push(c), ..s[p - 1] });
    let s2 = s1.update(c - 1, ArenaSlot { parent: Some(p), ..s[c - 1] });
    assert forall|q: int, k: int| 0 <= q < s2.len() && 0 <= k < s2[q].children.len() implies edge_ok(
        s2,
        q,
        #[trigger] s2[q].children[k],
    ) by {
        if q == p - 1 {
            if k < s[q].children.len() {
                assert(s2[q].children[k] == s[q].children[k]);
                assert(edge_ok(s, q, s[q].children[k]));
            }
        } else {
            assert(s2[q].children == s[q].children);
            assert(edge_ok(s, q, s[q].children[k]));
        }
    }
    assert forall|q: int, k: int| 0 <= q < s2.len() && 0 <= k < s2[q].children.len() implies r[#[trigger] s2[q].children[k]
        - 1] < r[q] by {
        if q == p - 1 {
            if k < s[q].children.len() {
                assert(s2[q].children[k] == s[q].children[k]);
            }
        } else {
            assert(s2[q].children == s[q].children);
        }
    }
    if parents_ok(s) {
        assert forall|i: int| 0 <= i < s2.len() && (#[trigger] s2[i]).parent is Some implies 1 <= s2[i].parent->0
            <= s2.len() && s2[s2[i].parent->0 - 1].children.contains((i + 1) as usize) by {
            if i == c - 1 {
                assert(s2[p - 1].children[s[p - 1].children.len() as int] == c);
            } else {
                assert(s2[i].parent == s[i].parent);
                let q = s[i].parent->0;
                let k = choose|k: int| 0 <= k < s[q - 1].children.len() && #[trigger] s[q - 1].children[k] == (i + 1) as usize;
                if q == p {
                    assert(s2[q - 1].children[k] == (i + 1) as usize);
                } else {
                    assert(s2[q - 1].children == s[q - 1].children);
                }
            }
        }
    }
}

/// What the loop over the children of a node keeps of the nodes taken so
/// far: each has a parent, a file keeps its children, and, with distinct
/// paths, a directory holds what waited under its path.
spec fn taken_ok(
    s0: Seq<ArenaSlot>,
    m0: Map<Seq<char>, Seq<usize>>,
    b0: Map<Seq<char>, Seq<usize>>,
    s: Seq<ArenaSlot>,
    m: Map<Seq<char>, Seq<usize>>,
) -> bool {
    &&& forall|y: usize| 1 <= y <= s0.len() && #[trigger] taken(b0, m, y) ==> s[y - 1].parent is Some
    &&& forall|y: usize|
        1 <= y <= s0.len() && #[trigger] taken(b0, m, y) && !dir_at(s0, y) ==> s[y - 1].children
            == s0[y - 1].children
    &&& paths_unique(s0) ==> forall|y: usize|
        1 <= y <= s0.len() && #[trigger] taken(b0, m, y) && dir_at(s0, y) ==> s[y - 1].children == lookup(
            m0,
            s0[y - 1].data.path@,
        )
}

/// The children of a node handled so far: a directory among the first `n`
/// holds, with distinct paths, what waited under its path, and a file keeps
/// its children.
spec fn kids_ok(
    s0: Seq<ArenaSlot>,
    m0: Map<Seq<char>, Seq<usize>>,
    kids: Seq<usize>,
    n: int,
    s: Seq<ArenaSlot>,
) -> bool {
    &&& paths_unique(s0) ==> forall|k: int|
        0 <= k < n && dir_at(s0, #[trigger] kids[k]) ==> s[kids[k] - 1].children == lookup(
            m0,
            s0[kids[k] - 1].data.path@,
        )
    &&& forall|k: int|
        0 <= k < kids.len() && !dir_at(s0, #[trigger] kids[k]) ==> s[kids[k] - 1].children
            == s0[kids[k] - 1].children
}

/// A branch stays while no node with its path was taken, among the nodes
/// taken from `b0` and the first `n` children.
spec fn keys_kept(
    s0: Seq<ArenaSlot>,
    b0: Map<Seq<char>, Seq<usize>>,
    kids: Seq<usize>,
    n: int,
    m: Map<Seq<char>, Seq<usize>>,
) -> bool {
    forall|key: Seq<char>|
        #[trigger] b0.contains_key(key) && (forall|y: usize|
            1 <= y <= s0.len() && #[trigger] taken(b0, m, y) && dir_at(s0, y) ==> s0[y - 1].data.path@
                != key) && (forall|k: int|
            0 <= k < n && dir_at(s0, #[trigger] kids[k]) ==> s0[kids[k] - 1].data.path@ != key)
            ==> m.contains_key(key)
}

/// With distinct paths, the branch under the path of a node that waited in
/// `b0` (or is one of the children), and was not taken yet, is still as it
/// was in `m0`.
proof fn lemma_branch_intact(
    s0: Seq<ArenaSlot>,
    m0: Map<Seq<char>, Seq<usize>>,
    b0: Map<Seq<char>, Seq<usize>>,
    kids: Seq<usize>,
    n: int,
    mb: Map<Seq<char>, Seq<usize>>,
    current: usize,
    y: usize,
)
    requires
        paths_unique(s0),
        1 <= current <= s0.len(),
        1 <= y <= s0.len(),
        y != current,
        b0 == m0.remove(s0[current - 1].data.path@),
        mb.submap_of(b0),
        keys_kept(s0, b0, kids, n, mb),
        forall|y2: usize| 1 <= y2 <= s0.len() && #[trigger] taken(b0, mb, y2) ==> y2 != y,
        0 <= n <= kids.len(),
        forall|k: int| 0 <= k < n ==> #[trigger] kids[k] != y,
        forall|k: int| 0 <= k < kids.len() ==> 1 <= #[trigger] kids[k] <= s0.len(),
    ensures
        lookup(mb, s0[y - 1].data.path@) == lookup(m0, s0[y - 1].data.path@),
{
    let key = s0[y - 1].data.path@;
    if m0.contains_key(key) {
        assert(key != s0[current - 1].data.path@);
        assert(b0.contains_key(key));
        assert forall|y2: usize|
            1 <= y2 <= s0.len() && #[trigger] taken(b0, mb, y2) && dir_at(s0, y2) implies s0[y2 - 1].data.path@
            != key by {
            assert(y2 != y);
        }
        assert forall|k: int| 0 <= k < n && dir_at(s0, #[trigger] kids[k]) implies s0[kids[k] - 1].data.path@ != key by {
            assert(kids[k] != y);
            assert(1 <= kids[k] <= s0.len());
        }
        assert(mb.contains_key(key));
    } else {
        if mb.contains_key(key) {
            assert(b0.contains_key(key));
        }
    }
}

/// The loop over the children keeps its facts across the assembly of the
/// directory child at position `i`.
proof fn lemma_after_child(
    s0: Seq<ArenaSlot>,
    m0: Map<Seq<char>, Seq<usize>>,
    b0: Map<Seq<char>, Seq<usize>>,
    kids: Seq<usize>,
    i: int,
    current: usize,
    sb: Seq<ArenaSlot>,
    mb: Map<Seq<char>, Seq<usize>>,
    s: Seq<ArenaSlot>,
    m: Map<Seq<char>, Seq<usize>>,
)
    requires
        0 <= i < kids.len(),
        1 <= current <= s0.len(),
        b0 == m0.remove(s0[current - 1].data.path@),
        mb.submap_of(b0),
        m.submap_of(mb),
        pending_ok(m0, s0, current),
        pending_ok(mb, sb, current),
        forall|k: int|
            0 <= k < kids.len() ==> waiting_ok(s0, s0[current - 1].data.path@, #[trigger] kids[k], current)
                && !in_branches(b0, kids[k]),
        forall|a: int, b: int| 0 <= a < b < kids.len() ==> #[trigger] kids[a] < #[trigger] kids[b],
        dir_at(s0, kids[i]),
        sb.len() == s0.len(),
        s.len() == s0.len(),
        forall|q: int| 0 <= q < s0.len() ==> (#[trigger] sb[q]).data == s0[q].data,
        taken_ok(s0, m0, b0, sb, mb),
        kids_ok(s0, m0, kids, i, sb),
        keys_kept(s0, b0, kids, i, mb),
        forall|x: usize|
            1 <= x <= s0.len() && x != kids[i] && (in_branches(mb, x) ==> in_branches(m, x)) ==> #[trigger] s[x
                - 1] == sb[x - 1],
        forall|y: usize| 1 <= y <= s0.len() && #[trigger] taken(mb, m, y) ==> s[y - 1].parent is Some,
        forall|y: usize|
            1 <= y <= s0.len() && #[trigger] taken(mb, m, y) && !dir_at(sb, y) ==> s[y - 1].children
                == sb[y - 1].children,
        paths_unique(sb) ==> forall|y: usize|
            1 <= y <= s0.len() && #[trigger] taken(mb, m, y) && dir_at(sb, y) ==> s[y - 1].children == lookup(
                mb,
                sb[y - 1].data.path@,
            ),
        forall|key: Seq<char>|
            #[trigger] mb.contains_key(key) && key != sb[kids[i] - 1].data.path@ && (forall|y: usize|
                1 <= y <= s0.len() && #[trigger] taken(mb, m, y) && dir_at(sb, y) ==> sb[y - 1].data.path@
                    != key) ==> m.contains_key(key),
        s[kids[i] - 1].children == lookup(mb, sb[kids[i] - 1].data.path@),
    ensures
        taken_ok(s0, m0, b0, s, m),
        kids_ok(s0, m0, kids, i + 1, s),
        keys_kept(s0, b0, kids, i + 1, m),
{
    let c = kids[i];
    assert(waiting_ok(s0, s0[current - 1].data.path@, kids[i], current));
    assert(sb[c - 1].data == s0[c - 1].data);
    assert(paths_unique(s0) ==> paths_unique(sb)) by {
        if paths_unique(s0) {
            assert forall|a: int, b: int| 0 <= a < sb.len() && 0 <= b < sb.len() && a != b implies (
            #[trigger] sb[a]).data.path@ != (#[trigger] sb[b]).data.path@ by {
                assert(sb[a].data == s0[a].data);
                assert(sb[b].data == s0[b].data);
                assert(s0[a].data.path@ != s0[b].data.path@);
            }
        }
    }
    assert forall|y: usize| in_branches(b0, y) implies 1 <= y <= s0.len() && y != current && y != c by {
        let (q, j) = choose|q: Seq<char>, j: int| b0.contains_key(q) && 0 <= j < b0[q].len() && b0[q][j] == y;
        assert(waiting_ok(s0, q, m0[q][j], current));
    }
    assert forall|y: usize| 1 <= y <= s0.len() && #[trigger] taken(b0, m, y) implies s[y - 1].parent is Some by {
        if in_branches(mb, y) {
            assert(taken(mb, m, y));
        } else {
            assert(taken(b0, mb, y));
            assert(y != c);
            assert(s[y - 1] == sb[y - 1]);
        }
    }
    assert forall|y: usize| 1 <= y <= s0.len() && #[trigger] taken(b0, m, y) && !dir_at(s0, y) implies s[y
        - 1].children == s0[y - 1].children by {
        assert(sb[y - 1].data == s0[y - 1].data);
        if in_branches(mb, y) {
            assert(taken(mb, m, y));
            assert(!dir_at(sb, y));
            assert(s[y - 1].children == sb[y - 1].children);
            let (q, j) = choose|q: Seq<char>, j: int| mb.contains_key(q) && 0 <= j < mb[q].len() && mb[q][j] == y;
            assert(waiting_ok(sb, q, mb[q][j], current));
            lemma_in_submap(mb, b0, y);
            let (q2, j2) = choose|q2: Seq<char>, j2: int|
                b0.contains_key(q2) && 0 <= j2 < b0[q2].len() && b0[q2][j2] == y;
            assert(waiting_ok(s0, q2, m0[q2][j2], current));
            assert(s[y - 1].children =~= s0[y - 1].children);
        } else {
            assert(taken(b0, mb, y));
            assert(y != c);
            assert(s[y - 1] == sb[y - 1]);
        }
    }
    assert forall|y: usize| 1 <= y <= s0.len() && #[trigger] taken(b0, m, y) && paths_unique(s0) && dir_at(s0, y)
        implies s[y - 1].children == lookup(m0, s0[y - 1].data.path@) by {
        assert(sb[y - 1].data == s0[y - 1].data);
        if in_branches(mb, y) {
            assert(taken(mb, m, y));
            assert(dir_at(sb, y));
            assert(s[y - 1].children == lookup(mb, sb[y - 1].data.path@));
            assert forall|y2: usize| 1 <= y2 <= s0.len() && #[trigger] taken(b0, mb, y2) implies y2 != y by {}
            lemma_branch_intact(s0, m0, b0, kids, i, mb, current, y);
        } else {
            assert(taken(b0, mb, y));
            assert(y != c);
            assert(s[y - 1] == sb[y - 1]);
        }
    }
    assert forall|k: int| 0 <= k < i + 1 && dir_at(s0, #[trigger] kids[k]) && paths_unique(s0) implies s[kids[k]
        - 1].children == lookup(m0, s0[kids[k] - 1].data.path@) by {
        if k == i {
            assert forall|y2: usize| 1 <= y2 <= s0.len() && #[trigger] taken(b0, mb, y2) implies y2 != c by {}
            assert forall|k2: int| 0 <= k2 < i implies #[trigger] kids[k2] != c by {
                assert(kids[k2] < kids[i]);
            }
            lemma_branch_intact(s0, m0, b0, kids, i, mb, current, c);
        } else {
            assert(kids[k] < kids[i]);
            assert(!in_branches(b0, kids[k]));
            if in_branches(mb, kids[k]) {
                lemma_in_submap(mb, b0, kids[k]);
            }
            assert(s[kids[k] - 1] == sb[kids[k] - 1]);
        }
    }
    assert forall|k: int| 0 <= k < kids.len() && !dir_at(s0, #[trigger] kids[k]) implies s[kids[k] - 1].children
        == s0[kids[k] - 1].children by {
        assert(!in_branches(b0, kids[k]));
        if in_branches(mb, kids[k]) {
            lemma_in_submap(mb, b0, kids[k]);
        }
        assert(s[kids[k] - 1] == sb[kids[k] - 1]);
    }
    assert forall|key: Seq<char>|
        #[trigger] b0.contains_key(key) && (forall|y: usize|
            1 <= y <= s0.len() && #[trigger] taken(b0, m, y) && dir_at(s0, y) ==> s0[y - 1].data.path@ != key)
            && (forall|k: int| 0 <= k < i + 1 && dir_at(s0, #[trigger] kids[k]) ==> s0[kids[k] - 1].data.path@ != key)
        implies m.contains_key(key) by {
        assert forall|y: usize| 1 <= y <= s0.len() && #[trigger] taken(b0, mb, y) && dir_at(s0, y) implies s0[y
            - 1].data.path@ != key by {
            if in_branches(m, y) {
                lemma_in_submap(m, mb, y);
            }
            assert(taken(b0, m, y));
        }
        assert(mb.contains_key(key));
        assert(dir_at(s0, kids[i]));
        assert forall|y: usize| 1 <= y <= s0.len() && #[trigger] taken(mb, m, y) && dir_at(sb, y) implies sb[y
            - 1].data.path@ != key by {
            lemma_in_submap(mb, b0, y);
            assert(taken(b0, m, y));
            assert(sb[y - 1].data == s0[y - 1].data);
        }
    }
}

/// What the assembly of `current` took: the children that waited under its
/// path and what their assemblies took.
proof fn lemma_taken_after(
    s0: Seq<ArenaSlot>,
    m0: Map<Seq<char>, Seq<usize>>,
    b0: Map<Seq<char>, Seq<usize>>,
    kids: Seq<usize>,
    current: usize,
    s1: Seq<ArenaSlot>,
    m: Map<Seq<char>, Seq<usize>>,
    s: Seq<ArenaSlot>,
)
    requires
        1 <= current <= s0.len(),
        b0 == m0.remove(s0[current - 1].data.path@),
        kids == lookup(m0, s0[current - 1].data.path@),
        m.submap_of(b0),
        pending_ok(m0, s0, current),
        forall|k: int| 0 <= k < kids.len() ==> !in_branches(b0, #[trigger] kids[k]),
        s1.len() == s0.len(),
        s.len() == s0.len(),
        taken_ok(s0, m0, b0, s1, m),
        kids_ok(s0, m0, kids, kids.len() as int, s1),
        keys_kept(s0, b0, kids, kids.len() as int, m),
        forall|k: int| 0 <= k < kids.len() ==> (#[trigger] s[kids[k] - 1]).children == s1[kids[k] - 1].children,
        forall|x: usize|
            1 <= x <= s0.len() && x != current && !kids.contains(x) ==> #[trigger] s[x - 1] == s1[x - 1],
        s[current - 1].children == kids,
        edges_ok(s),
    ensures
        forall|y: usize| 1 <= y <= s0.len() && #[trigger] taken(m0, m, y) ==> s[y - 1].parent is Some,
        forall|y: usize|
            1 <= y <= s0.len() && #[trigger] taken(m0, m, y) && !dir_at(s0, y) ==> s[y - 1].children
                == s0[y - 1].children,
        paths_unique(s0) ==> forall|y: usize|
            1 <= y <= s0.len() && #[trigger] taken(m0, m, y) && dir_at(s0, y) ==> s[y - 1].children == lookup(
                m0,
                s0[y - 1].data.path@,
            ),
        forall|key: Seq<char>|
            #[trigger] m0.contains_key(key) && key != s0[current - 1].data.path@ && (forall|y: usize|
                1 <= y <= s0.len() && #[trigger] taken(m0, m, y) && dir_at(s0, y) ==> s0[y - 1].data.path@
                    != key) ==> m.contains_key(key),
{
    let p = s0[current - 1].data.path@;
    assert forall|y: usize| #[trigger] in_branches(m0, y) && !kids.contains(y) implies in_branches(b0, y) && y
        != current by {
        let (q, j) = choose|q: Seq<char>, j: int| m0.contains_key(q) && 0 <= j < m0[q].len() && m0[q][j] == y;
        assert(waiting_ok(s0, q, m0[q][j], current));
        if q == p {
            assert(kids[j] == y);
        } else {
            assert(b0.contains_key(q) && b0[q][j] == y);
        }
    }
    assert forall|k: int| 0 <= k < kids.len() implies in_branches(m0, #[trigger] kids[k]) && kids[k] != current by {
        assert(m0.contains_key(p) && m0[p][k] == kids[k]);
        assert(waiting_ok(s0, p, m0[p][k], current));
    }
    assert forall|y: usize| 1 <= y <= s0.len() && #[trigger] taken(m0, m, y) implies s[y - 1].parent is Some
        && (!dir_at(s0, y) ==> s[y - 1].children == s0[y - 1].children) && (paths_unique(s0) && dir_at(s0, y)
        ==> s[y - 1].children == lookup(m0, s0[y - 1].data.path@)) by {
        if kids.contains(y) {
            let k = choose|k: int| 0 <= k < kids.len() && kids[k] == y;
            assert(s[current - 1].children[k] == y);
            assert(edge_ok(s, current - 1, s[current - 1].children[k]));
            assert(s[y - 1].children == s1[kids[k] - 1].children);
        } else {
            assert(in_branches(b0, y));
            assert(taken(b0, m, y));
            assert(s[y - 1] == s1[y - 1]);
        }
    }
    assert forall|key: Seq<char>|
        #[trigger] m0.contains_key(key) && key != p && (forall|y: usize|
            1 <= y <= s0.len() && #[trigger] taken(m0, m, y) && dir_at(s0, y) ==> s0[y - 1].data.path@ != key)
        implies m.contains_key(key) by {
        assert(b0.contains_key(key));
        assert forall|y: usize| 1 <= y <= s0.len() && #[trigger] taken(b0, m, y) && dir_at(s0, y) implies s0[y
            - 1].data.path@ != key by {
            let (q, j) = choose|q: Seq<char>, j: int| b0.contains_key(q) && 0 <= j < b0[q].len() && b0[q][j] == y;
            assert(m0.contains_key(q) && m0[q][j] == y);
            assert(taken(m0, m, y));
        }
        assert forall|k: int| 0 <= k < kids.len() && dir_at(s0, #[trigger] kids[k]) implies s0[kids[k]
            - 1].data.path@ != key by {
            assert(in_branches(m0, kids[k]));
            if in_branches(m, kids[k]) {
                lemma_in_submap(m, b0, kids[k]);
            }
            assert(taken(m0, m, kids[k]));
        }
    }
}

/// The pending branches after an entry `node` with id `id` was taken in:
/// a directory gets a (possibly empty) branch under its own path, and an
/// entry below the root is added to the branch under its parent path.
pub open spec fn pending_after(m: Map<Seq<char>, Seq<usize>>, node: Node, id: usize) -> Map<
    Seq<char>,
    Seq<usize>,
> {
    let m1 = if node.spec_is_dir() && !m.contains_key(node.path@) {
        m.insert(node.path@, Seq::empty())
    } else {
        m
    };
    if node.depth == 0 {
        m1
    } else {
        let k = parent_of(node.path@)->0;
        m1.insert(k, if m1.contains_key(k) { m1[k].push(id) } else { seq![id] })
    }
}

/// `t` is the tree assembled from what `a` took in: its nodes are the
/// entries, in the same order, under the same root. The root's children are
/// the entries that waited under its path; files and nodes left without a
/// parent have no children; and where the paths are distinct, every
/// directory that got a parent has as children exactly the entries that
/// waited under its path, in the order in which they arrived.
pub open spec fn assembled_from(t: Tree, a: TreeAssembler) -> bool {
    &&& t.wf()
    &&& t.nodes() == a.nodes()
    &&& a.root_id() == Some(t.root_id())
    &&& t.child_ids(t.root_id()) == lookup(a.pending(), t.nodes()[t.root_id() - 1].path@)
    &&& forall|x: usize|
        1 <= x <= t.nodes().len() && x != t.root_id() && !t.nodes()[x - 1].spec_is_dir()
            ==> #[trigger] t.child_ids(x).len() == 0
    &&& forall|x: usize|
        1 <= x <= t.nodes().len() && x != t.root_id() && t.slots()[x - 1].parent is None
            ==> #[trigger] t.child_ids(x).len() == 0
    &&& distinct_paths(a.nodes()) ==> forall|x: usize|
        1 <= x <= t.nodes().len() && t.slots()[x - 1].parent is Some && t.nodes()[x - 1].spec_is_dir()
            ==> #[trigger] t.child_ids(x) == lookup(a.pending(), t.nodes()[x - 1].path@)
}

/// The single consumer of a walk: it takes in entries in any order, gives
/// each a node in the arena at once, and keeps it waiting under the path of
/// its parent until the walk is done and the tree is assembled.
pub struct TreeAssembler {
    arena: Arena<Node>,
    branches: PendingBranches,
    root: Option<usize>,
}

impl TreeAssembler {
    /// The entries taken in so far, in the order of their ids.
    pub closed spec fn nodes(&self) -> Seq<Node> {
        arena_slots(self.arena).map_values(|n: ArenaSlot| n.data)
    }

    /// The id of the root, once an entry at depth 0 was taken in.
    pub closed spec fn root_id(&self) -> Option<usize> {
        self.root
    }

    /// The children waiting under each path.
    pub closed spec fn pending(&self) -> Map<Seq<char>, Seq<usize>> {
        self.branches@
    }

    pub closed spec fn wf(&self) -> bool {
        let s = arena_slots(self.arena);
        &&& self.branches.wf()
        &&& s.len() <= usize::MAX
        &&& all_live(s)
        &&& forall|i: int| 0 <= i < s.len() ==> (#[trigger] s[i]).parent is None && s[i].children.len() == 0
        &&& match self.root {
            Some(r) => 1 <= r <= s.len() && s[r - 1].data.depth == 0,
            None => true,
        }
        &&& forall|i: int| 0 <= i < s.len() && i + 1 != self.root.unwrap_or(0) ==> (#[trigger] s[i]).data.depth != 0
        &&& pending_ok(self.branches@, s, self.root.unwrap_or(0))
        &&& forall|i: int|
            0 <= i < s.len() && i + 1 != self.root.unwrap_or(0) ==> waits_under_parent(
                self.branches@,
                #[trigger] s[i].data,
                (i + 1) as usize,
            )
    }

    /// Every entry taken in other than the root waits under its parent path,
    /// and only entries whose parent path it is wait there.
    pub proof fn lemma_waiting(&self)
        requires
            self.wf(),
        ensures
            forall|x: usize|
                1 <= x <= self.nodes().len() && Some(x) != self.root_id() ==> waits_under_parent(
                    self.pending(),
                    #[trigger] self.nodes()[x - 1],
                    x,
                ),
            forall|k: Seq<char>, j: int|
                self.pending().contains_key(k) && 0 <= j < self.pending()[k].len() ==> 1 <= #[trigger] self.pending()[k][j]
                    <= self.nodes().len() && Some(self.pending()[k][j]) != self.root_id()
                    && parent_of(self.nodes()[self.pending()[k][j] - 1].path@) == Some(k),
    {
        let s = arena_slots(self.arena);
        assert forall|x: usize|
            1 <= x <= self.nodes().len() && Some(x) != self.root_id() implies waits_under_parent(
            self.pending(),
            #[trigger] self.nodes()[x - 1],
            x,
        ) by {
            assert(self.nodes()[x - 1] == s[x - 1].data);
        }
        assert forall|k: Seq<char>, j: int|
            self.pending().contains_key(k) && 0 <= j < self.pending()[k].len() implies 1 <= #[trigger] self.pending()[k][j]
            <= self.nodes().len() && Some(self.pending()[k][j]) != self.root_id() && parent_of(
            self.nodes()[self.pending()[k][j] - 1].path@,
        ) == Some(k) by {
            let x = self.branches@[k][j];
            assert(waiting_ok(s, k, x, self.root.unwrap_or(0)));
            assert(self.nodes()[x - 1] == s[x - 1].data);
        }
    }

    /// An assembler that has taken in nothing.
    pub fn new() -> (r: Self)
        ensures
            r.wf(),
            r.nodes() == Seq::<Node>::empty(),
            r.root_id() is None,
            r.pending() == Map::<Seq<char>, Seq<usize>>::empty(),
    {
        let r = TreeAssembler { arena: arena_new(), branches: PendingBranches::new(), root: None };
        assert(r.nodes() =~= Seq::<Node>::empty());
        r
    }

    /// The number of entries taken in.
    pub fn len(&self) -> (r: usize)
        ensures
            r == self.nodes().len(),
    {
        arena_len(&self.arena)
    }

    /// Takes in one entry. The entry at depth 0 becomes the root; a second
    /// one is refused, and so is an entry below the root whose path has no
    /// parent. Otherwise the entry gets the next id, a directory gets a branch
    /// under its own path, and an entry below the root waits in the branch of
    /// its parent path. A refused entry leaves the assembler as it was.
    pub fn push(&mut self, node: Node) -> (r: Result<(), TreeError>)
        requires
            old(self).wf(),
            old(self).nodes().len() < usize::MAX,
        ensures
            final(self).wf(),
            r matches Err(TreeError::DuplicateRoot) <==> node.depth == 0 && old(self).root_id() is Some,
            r matches Err(TreeError::ExpectedParent) <==> node.depth != 0 && parent_of(node.path@) is None,
            r is Err ==> r matches Err(TreeError::DuplicateRoot) || r matches Err(TreeError::ExpectedParent),
            r is Err ==> final(self).nodes() == old(self).nodes() && final(self).root_id()
                == old(self).root_id() && final(self).pending() == old(self).pending(),
            r is Ok ==> final(self).nodes() == old(self).nodes().push(node) && final(self).root_id() == (
            if node.depth == 0 {
                Some((old(self).nodes().len() + 1) as usize)
            } else {
                old(self).root_id()
            }) && final(self).pending() == pending_after(
                old(self).pending(),
                node,
                (old(self).nodes().len() + 1) as usize,
            ),
    {
        let ghost s0 = arena_slots(self.arena);
        let ghost m0 = self.branches@;
        if node.depth == 0 && self.root.is_some() {
            return Err(TreeError::DuplicateRoot);
        }
        let parent = if node.depth == 0 {
            None
        } else {
            match node.parent_path() {
                Some(p) => Some(p),
                None => {
                    return Err(TreeError::ExpectedParent);
                },
            }
        };
        if node.is_dir() {
            self.branches.ensure(node.path.clone());
        }
        let ghost m1 = self.branches@;
        let is_root = node.depth == 0;
        let ghost n = node;
        let id = arena_new_node(&mut self.arena, node);
        match parent {
            None => {
                self.root = Some(id);
            },
            Some(p) => {
                self.branches.add(p, id);
            },
        }
        proof {
            let s = arena_slots(self.arena);
            let m = self.branches@;
            assert(self.nodes() =~= old(self).nodes().push(n));
            assert forall|i: int| 0 <= i < s.len() implies (#[trigger] s[i]).parent is None
                && s[i].children.len() == 0 by {
                if i < s0.len() {
                    assert(s[i] == s0[i]);
                }
            }
            assert forall|k: Seq<char>, j: int| m.contains_key(k) && 0 <= j < m[k].len() implies waiting_ok(
                s,
                k,
                #[trigger] m[k][j],
                self.root.unwrap_or(0),
            ) by {
                if m[k][j] != id {
                    assert(m1.contains_key(k) && 0 <= j < m1[k].len() && m1[k][j] == m[k][j]);
                    assert(m0.contains_key(k) && m0[k][j] == m[k][j]);
                    assert(waiting_ok(s0, k, m0[k][j], old(self).root.unwrap_or(0)));
                    assert(s[m[k][j] - 1] == s0[m[k][j] - 1]);
                }
            }
            assert forall|k: Seq<char>, a: int, b: int|
                m.contains_key(k) && 0 <= a < b < m[k].len() implies #[trigger] m[k][a] < #[trigger] m[k][b] by {
                if m1.contains_key(k) && b < m1[k].len() {
                    assert(m0.contains_key(k) && m0[k][a] == m1[k][a] && m0[k][b] == m1[k][b]);
                } else if m1.contains_key(k) && a < m1[k].len() {
                    assert(m0.contains_key(k) && m0[k][a] == m1[k][a]);
                    assert(waiting_ok(s0, k, m0[k][a], old(self).root.unwrap_or(0)));
                }
            }
            assert forall|i: int|
                0 <= i < s.len() && i + 1 != self.root.unwrap_or(0) implies waits_under_parent(
                m,
                #[trigger] s[i].data,
                (i + 1) as usize,
            ) by {
                if i < s0.len() {
                    assert(s[i] == s0[i]);
                    assert(waits_under_parent(m0, s0[i].data, (i + 1) as usize));
                    let k = parent_of(s0[i].data.path@)->0;
                    let j = choose|j: int| 0 <= j < m0[k].len() && m0[k][j] == (i + 1) as usize;
                    assert(m1.contains_key(k) && m1[k][j] == (i + 1) as usize);
                    assert(m.contains_key(k) && m[k][j] == (i + 1) as usize);
                } else {
                    let k = parent_of(n.path@)->0;
                    assert(m[k][m[k].len() - 1] == id);
                }
            }
        }
        Ok(())
    }

    /// Ends the walk: fails without a root, and otherwise assembles the tree
    /// from the root down, bottom-up, and hands it over (see
    /// `assembled_from`).
    pub fn finish(self) -> (r: Result<Tree, TreeError>)
        requires
            self.wf(),
        ensures
            r is Err <==> self.root_id() is None,
            r matches Err(e) ==> e matches TreeError::MissingRoot,
            r matches Ok(t) ==> assembled_from(t, self),
    {
        let TreeAssembler { arena, branches, root } = self;
        let mut arena = arena;
        let mut branches = branches;
        let root = match root {
            Some(r) => r,
            None => {
                return Err(TreeError::MissingRoot);
            },
        };
        let ghost s0 = arena_slots(arena);
        proof {
            assert(edges_ok(s0));
            let r0 = Seq::new(s0.len(), |i: int| 0nat);
            assert(ranked(s0, r0));
            assert(parents_ok(s0));
        }
        Tree::assemble_tree(&mut arena, root, &mut branches);
        proof {
            let s = arena_slots(arena);
            assert forall|i: int| 0 <= i < s.len() && i != root - 1 implies (#[trigger] s[i]).data.depth != 0 by {
                assert(s[i].data == s0[i].data);
                assert(s0[i].data.depth != 0);
            }
            assert(s[root - 1].data == s0[root - 1].data);
        }
        proof {
            let s = arena_slots(arena);
            let m = branches@;
            let m0 = self.branches@;
            assert forall|x: usize| 1 <= x <= s0.len() && x != root && !taken(m0, m, x) implies #[trigger] s[x - 1]
                == s0[x - 1] by {
                if in_branches(m0, x) {
                    assert(in_branches(m, x));
                }
            }
            assert forall|x: usize|
                1 <= x <= s.len() && x != root && !s[x - 1].data.spec_is_dir() implies #[trigger] s[x
                - 1].children.len() == 0 by {
                assert(s0[x - 1].parent is None && s0[x - 1].children.len() == 0);
                assert(s[x - 1].data == s0[x - 1].data);
                if !taken(m0, m, x) {
                    assert(s[x - 1] == s0[x - 1]);
                }
            }
            assert forall|x: usize| 1 <= x <= s.len() && x != root && s[x - 1].parent is None implies #[trigger] s[x
                - 1].children.len() == 0 by {
                assert(s0[x - 1].parent is None && s0[x - 1].children.len() == 0);
                if !taken(m0, m, x) {
                    assert(s[x - 1] == s0[x - 1]);
                }
            }
            if distinct_paths(self.nodes()) {
                assert(paths_unique(s0)) by {
                    assert forall|a: int, b: int| 0 <= a < s0.len() && 0 <= b < s0.len() && a != b implies (
                    #[trigger] s0[a]).data.path@ != (#[trigger] s0[b]).data.path@ by {
                        assert(self.nodes()[a] == s0[a].data);
                        assert(self.nodes()[b] == s0[b].data);
                    }
                }
                assert forall|x: usize|
                    1 <= x <= s.len() && s[x - 1].parent is Some && s[x - 1].data.spec_is_dir() implies #[trigger] s[x
                    - 1].children == lookup(m0, s[x - 1].data.path@) by {
                    assert(s0[x - 1].parent is None);
                    assert(s[x - 1].data == s0[x - 1].data);
                    if x == root {
                    } else if !taken(m0, m, x) {
                        assert(s[x - 1] == s0[x - 1]);
                    }
                }
            }
        }
        let ghost s_fin = arena_slots(arena);
        let t = Tree::new(arena, root);
        proof {
            assert(t.nodes() =~= self.nodes()) by {
                assert forall|i: int| 0 <= i < s0.len() implies t.nodes()[i] == self.nodes()[i] by {
                    assert(s_fin[i].data == s0[i].data);
                }
            }
        }
        Ok(t)
    }
}

impl Tree {
    /// Takes the children that wait under the path of `current`, assembles the
    /// subtree of each child that is a directory first, and only then links
    /// the children below `current`, in the order in which they were found.
    /// So no node gets its parent before every branch under its own path has
    /// been taken: when `current` is done, nothing waits under its path or
    /// under the path of any directory it received.
    pub fn assemble_tree(tree: &mut Arena<Node>, current: usize, branches: &mut PendingBranches)
        requires
            old(branches).wf(),
            all_live(arena_slots(*old(tree))),
            live_id(arena_slots(*old(tree)), current),
            unlinked(arena_slots(*old(tree)), current),
            edges_ok(arena_slots(*old(tree))),
            acyclic(arena_slots(*old(tree))),
            parents_ok(arena_slots(*old(tree))),
            pending_ok(old(branches)@, arena_slots(*old(tree)), current),
        ensures
            final(branches).wf(),
            final(branches)@.submap_of(old(branches)@),
            final(branches).entries@.len() <= old(branches).entries@.len(),
            arena_slots(*final(tree)).len() == arena_slots(*old(tree)).len(),
            all_live(arena_slots(*final(tree))),
            edges_ok(arena_slots(*final(tree))),
            acyclic(arena_slots(*final(tree))),
            parents_ok(arena_slots(*final(tree))),
            pending_ok(final(branches)@, arena_slots(*final(tree)), current),
            forall|i: int|
                0 <= i < arena_slots(*old(tree)).len() ==> (#[trigger] arena_slots(*final(tree))[i]).data
                    == arena_slots(*old(tree))[i].data,
            arena_slots(*final(tree))[current - 1].parent is None,
            arena_slots(*final(tree))[current - 1].children == if old(branches)@.contains_key(
                arena_slots(*old(tree))[current - 1].data.path@,
            ) {
                old(branches)@[arena_slots(*old(tree))[current - 1].data.path@]
            } else {
                Seq::empty()
            },
            forall|x: usize|
                1 <= x <= arena_slots(*old(tree)).len() && x != current && (in_branches(old(branches)@, x)
                    ==> in_branches(final(branches)@, x)) ==> #[trigger] arena_slots(*final(tree))[x - 1]
                    == arena_slots(*old(tree))[x - 1],
            !final(branches)@.contains_key(arena_slots(*old(tree))[current - 1].data.path@),
            forall|y: usize|
                1 <= y <= arena_slots(*old(tree)).len() && #[trigger] taken(old(branches)@, final(branches)@, y)
                    ==> arena_slots(*final(tree))[y - 1].parent is Some,
            forall|y: usize|
                1 <= y <= arena_slots(*old(tree)).len() && #[trigger] taken(old(branches)@, final(branches)@, y)
                    && !dir_at(arena_slots(*old(tree)), y) ==> arena_slots(*final(tree))[y - 1].children
                    == arena_slots(*old(tree))[y - 1].children,
            paths_unique(arena_slots(*old(tree))) ==> forall|y: usize|
                1 <= y <= arena_slots(*old(tree)).len() && #[trigger] taken(old(branches)@, final(branches)@, y)
                    && dir_at(arena_slots(*old(tree)), y) ==> arena_slots(*final(tree))[y - 1].children
                    == lookup(old(branches)@, arena_slots(*old(tree))[y - 1].data.path@),
            forall|key: Seq<char>|
                #[trigger] old(branches)@.contains_key(key) && key != arena_slots(*old(tree))[current
                    - 1].data.path@ && (forall|y: usize|
                    1 <= y <= arena_slots(*old(tree)).len() && #[trigger] taken(
                        old(branches)@,
                        final(branches)@,
                        y,
                    ) && dir_at(arena_slots(*old(tree)), y) ==> arena_slots(*old(tree))[y - 1].data.path@
                    != key) ==> final(branches)@.contains_key(key),
            forall|k: int|
                0 <= k < arena_slots(*final(tree))[current - 1].children.len()
                    && arena_slots(*final(tree))[arena_slots(*final(tree))[current - 1].children[k]
                    - 1].data.spec_is_dir() ==> !final(branches)@.contains_key(
                    #[trigger] arena_slots(*final(tree))[arena_slots(*final(tree))[current
                    - 1].children[k] - 1].data.path@,
                ),
        decreases old(branches).entries@.len(),
    {
        let ghost s0 = arena_slots(*tree);
        let ghost m0 = branches@;
        let path = arena_get(tree, current).path.clone();
        let children = branches.take(path.as_str());
        let ghost b0 = branches@;
        let ghost kids = children@;
        proof {
            assert forall|k: int| 0 <= k < kids.len() implies waiting_ok(s0, path@, #[trigger] kids[k], current)
                && !in_branches(b0, kids[k]) by {
                assert(waiting_ok(s0, path@, m0[path@][k], current));
                if in_branches(b0, kids[k]) {
                    let (q, j) = choose|q: Seq<char>, j: int|
                        b0.contains_key(q) && 0 <= j < b0[q].len() && b0[q][j] == kids[k];
                    assert(waiting_ok(s0, q, m0[q][j], current));
                }
            }
            assert forall|a: int, b: int| 0 <= a < b < kids.len() implies #[trigger] kids[a] < #[trigger] kids[b] by {
                assert(m0[path@][a] < m0[path@][b]);
            }
            assert(pending_ok(b0, s0, current));
        }
        let mut i: usize = 0;
        while i < children.len()
            invariant
                i <= kids.len(),
                children@ == kids,
                branches.wf(),
                branches@.submap_of(b0),
                b0 == m0.remove(path@),
                1 <= current <= s0.len(),
                pending_ok(m0, s0, current),
                path@ == s0[current - 1].data.path@,
                kids.len() > 0 ==> branches.entries@.len() < old(branches).entries@.len(),
                branches.entries@.len() <= old(branches).entries@.len(),
                arena_slots(*tree).len() == s0.len(),
                all_live(arena_slots(*tree)),
                edges_ok(arena_slots(*tree)),
                acyclic(arena_slots(*tree)),
                parents_ok(arena_slots(*tree)),
                pending_ok(branches@, arena_slots(*tree), current),
                forall|q: int| 0 <= q < s0.len() ==> (#[trigger] arena_slots(*tree)[q]).data == s0[q].data,
                forall|k: int| 0 <= k < kids.len() ==> waiting_ok(s0, path@, #[trigger] kids[k], current)
                    && !in_branches(b0, kids[k]),
                forall|a: int, b: int| 0 <= a < b < kids.len() ==> #[trigger] kids[a] < #[trigger] kids[b],
                forall|k: int| 0 <= k < kids.len() ==> (#[trigger] arena_slots(*tree)[kids[k] - 1]).parent is None,
                forall|k: int| i <= k < kids.len() ==> #[trigger] arena_slots(*tree)[kids[k] - 1] == s0[kids[k] - 1],
                unlinked(arena_slots(*tree), current),
                forall|x: usize|
                    1 <= x <= s0.len() && x != current && !kids.contains(x) && (in_branches(b0, x)
                        ==> in_branches(branches@, x)) ==> #[trigger] arena_slots(*tree)[x - 1] == s0[x - 1],
                taken_ok(s0, m0, b0, arena_slots(*tree), branches@),
                kids_ok(s0, m0, kids, i as int, arena_slots(*tree)),
                keys_kept(s0, b0, kids, i as int, branches@),
                forall|k: int|
                    0 <= k < i && s0[kids[k] - 1].data.spec_is_dir() ==> !branches@.contains_key(
                        #[trigger] s0[kids[k] - 1].data.path@,
                    ),
            decreases kids.len() - i,
        {
            let c = children[i];
            let is_dir = arena_get(tree, c).is_dir();
            if is_dir {
                let ghost s_before = arena_slots(*tree);
                let ghost m_before = branches@;
                proof {
                    assert(kids[i as int] == c);
                    assert forall|x: usize| in_branches(m_before, x) implies x != c by {
                        lemma_in_submap(m_before, b0, x);
                    }
                    lemma_pending_submap(m_before, m_before, s_before, c, current);
                }
                Self::assemble_tree(tree, c, branches);
                proof {
                    let s = arena_slots(*tree);
                    let m = branches@;
                    assert forall|x: usize| in_branches(b0, x) implies x != current by {
                        if x == current {
                            let (q, j) = choose|q: Seq<char>, j: int|
                                b0.contains_key(q) && 0 <= j < b0[q].len() && b0[q][j] == x;
                            assert(waiting_ok(s0, q, m0[q][j], current));
                        }
                    }
                    lemma_submap_trans(m, m_before, b0);
                    lemma_pending_submap(m, b0, s, current, c);
                    lemma_after_child(s0, m0, b0, kids, i as int, current, s_before, m_before, s, m);
                    assert forall|x: usize|
                        1 <= x <= s0.len() && x != current && !kids.contains(x) && (in_branches(b0, x)
                            ==> in_branches(m, x)) implies #[trigger] s[x - 1] == s0[x - 1] by {
                        if in_branches(m_before, x) {
                            lemma_in_submap(m_before, b0, x);
                        }
                        if in_branches(b0, x) {
                            lemma_in_submap(m, m_before, x);
                        }
                        assert(x != c);
                    }
                    assert forall|k: int| 0 <= k < kids.len() implies (#[trigger] s[kids[k] - 1]).parent is None by {
                        if kids[k] != c {
                            assert(!in_branches(b0, kids[k]));
                            if in_branches(m_before, kids[k]) {
                                lemma_in_submap(m_before, b0, kids[k]);
                            }
                        }
                    }
                    assert forall|k: int| i < k < kids.len() implies #[trigger] s[kids[k] - 1] == s0[kids[k] - 1] by {
                        assert(kids[i as int] < kids[k]);
                        if in_branches(m_before, kids[k]) {
                            lemma_in_submap(m_before, b0, kids[k]);
                        }
                    }
                    if in_branches(m_before, current) {
                        lemma_in_submap(m_before, b0, current);
                    }
                    assert forall|k: int|
                        0 <= k <= i && s0[kids[k] - 1].data.spec_is_dir() implies !m.contains_key(
                        #[trigger] s0[kids[k] - 1].data.path@,
                    ) by {
                        if k < i {
                            assert(!m_before.contains_key(s0[kids[k] - 1].data.path@));
                        }
                    }
                }
            } else {
                proof {
                    assert forall|k: int|
                        0 <= k <= i && s0[kids[k] - 1].data.spec_is_dir() implies !branches@.contains_key(
                        #[trigger] s0[kids[k] - 1].data.path@,
                    ) by {
                        if k == i {
                            assert(arena_slots(*tree)[c - 1].data == s0[c - 1].data);
                        }
                    }
                }
            }
            i = i + 1;
        }
        let ghost s1 = arena_slots(*tree);
        let ghost m1 = branches@;
        let ghost r1 = choose|r: Seq<nat>| ranked(s1, r);
        let ghost r2 = r1.update(current - 1, rank_bound(r1));
        proof {
            lemma_rank_bound(r1);
            assert forall|q: int, k: int| 0 <= q < s1.len() && 0 <= k < s1[q].children.len() implies r2[
                #[trigger] s1[q].children[k] - 1] < r2[q] by {
                assert(edge_ok(s1, q, s1[q].children[k]));
            }
        }
        let mut j: usize = 0;
        while j < children.len()
            invariant
                j <= kids.len(),
                branches.wf(),
                branches@ == m1,
                m1.submap_of(b0),
                b0 == m0.remove(path@),
                branches.entries@.len() <= old(branches).entries@.len(),
                pending_ok(m1, s1, current),
                s1.len() == s0.len(),
                forall|k: int|
                    0 <= k < kids.len() && s0[kids[k] - 1].data.spec_is_dir() ==> !m1.contains_key(
                        #[trigger] s0[kids[k] - 1].data.path@,
                    ),
                children@ == kids,
                arena_slots(*tree).len() == s0.len(),
                all_live(arena_slots(*tree)),
                edges_ok(arena_slots(*tree)),
                parents_ok(arena_slots(*tree)),
                ranked(arena_slots(*tree), r2),
                r2[current - 1] == rank_bound(r1),
                forall|q: int| 0 <= q < s0.len() && q != current - 1 ==> r2[q] < rank_bound(r1),
                forall|q: int| 0 <= q < s0.len() ==> (#[trigger] arena_slots(*tree)[q]).data == s0[q].data,
                forall|k: int| 0 <= k < kids.len() ==> waiting_ok(s0, path@, #[trigger] kids[k], current)
                    && !in_branches(b0, kids[k]),
                forall|a: int, b: int| 0 <= a < b < kids.len() ==> #[trigger] kids[a] < #[trigger] kids[b],
                forall|k: int| j <= k < kids.len() ==> (#[trigger] arena_slots(*tree)[kids[k] - 1]).parent is None,
                1 <= current <= s0.len(),
                path@ == s0[current - 1].data.path@,
                arena_slots(*tree)[current - 1].parent is None,
                arena_slots(*tree)[current - 1].children == kids.subrange(0, j as int),
                forall|x: usize|
                    1 <= x <= s0.len() && x != current && !kids.contains(x) ==> #[trigger] arena_slots(*tree)[x
                        - 1] == s1[x - 1],
                taken_ok(s0, m0, b0, s1, m1),
                kids_ok(s0, m0, kids, kids.len() as int, s1),
                keys_kept(s0, b0, kids, kids.len() as int, m1),
                pending_ok(m0, s0, current),
                forall|k: int|
                    0 <= k < kids.len() ==> (#[trigger] arena_slots(*tree)[kids[k] - 1]).children
                        == s1[kids[k] - 1].children,
            decreases kids.len() - j,
        {
            let c = children[j];
            proof {
                let s = arena_slots(*tree);
                assert(kids[j as int] == c);
                assert(waiting_ok(s0, path@, kids[j as int], current));
                assert(s[c - 1].data == s0[c - 1].data);
                assert(s[current - 1].data == s0[current - 1].data);
                assert(r2[c - 1] < r2[current - 1]);
                lemma_append_edges(s, current, c, r2);
            }
            arena_append(tree, current, c);
            proof {
                let s = arena_slots(*tree);
                assert(s[current - 1].children =~= kids.subrange(0, j + 1));
                assert forall|k: int| j + 1 <= k < kids.len() implies (#[trigger] s[kids[k] - 1]).parent is None by {
                    assert(kids[j as int] < kids[k]);
                }
            }
            j = j + 1;
        }
        proof {
            let s = arena_slots(*tree);
            let m = branches@;
            assert(kids.subrange(0, kids.len() as int) =~= kids);
            lemma_taken_after(s0, m0, b0, kids, current, s1, m, s);
            assert forall|q: Seq<char>| #[trigger] m.contains_key(q) implies m0.contains_key(q)
                && m[q] == m0[q] by {
                assert(b0.contains_key(q));
            }
            assert(m.submap_of(m0));
            if m.contains_key(path@) {
                assert(b0.contains_key(path@));
            }
            assert forall|x: usize|
                1 <= x <= s0.len() && x != current && (in_branches(m0, x) ==> in_branches(m, x))
                implies #[trigger] s[x - 1] == s0[x - 1] by {
                if kids.contains(x) {
                    let k = choose|k: int| 0 <= k < kids.len() && kids[k] == x;
                    assert(in_branches(m0, x)) by {
                        assert(m0[path@][k] == x);
                    }
                    lemma_in_submap(m, b0, x);
                }
                if in_branches(b0, x) {
                    let (q, jj) = choose|q: Seq<char>, jj: int|
                        b0.contains_key(q) && 0 <= jj < b0[q].len() && b0[q][jj] == x;
                    assert(m0.contains_key(q) && m0[q][jj] == x);
                }
            }
            assert(pending_ok(m, s, current)) by {
                assert forall|k: Seq<char>, jj: int| m.contains_key(k) && 0 <= jj < m[k].len() implies waiting_ok(
                    s,
                    k,
                    #[trigger] m[k][jj],
                    current,
                ) by {
                    let x = m[k][jj];
                    assert(waiting_ok(s1, k, x, current));
                    assert(in_branches(m, x));
                    lemma_in_submap(m, b0, x);
                    if kids.contains(x) {
                        let kk = choose|kk: int| 0 <= kk < kids.len() && kids[kk] == x;
                        assert(!in_branches(b0, kids[kk]));
                    }
                }
            }
            assert forall|k: int|
                0 <= k < s[current - 1].children.len() && s[s[current - 1].children[k] - 1].data.spec_is_dir()
                implies !m.contains_key(#[trigger] s[s[current - 1].children[k] - 1].data.path@) by {
                assert(s[current - 1].children[k] == kids[k]);
                assert(s[kids[k] - 1].data == s0[kids[k] - 1].data);
            }
        }
    }
}

} // verus!
