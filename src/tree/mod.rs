//! The arena-backed file tree and its assembly.
use crate::arena::{all_live, arena_children, arena_get, arena_len, arena_slots, live_id, ArenaSlot};
use crate::paths::parent_of;
use indextree::Arena;
use vstd::prelude::*;

pub mod assembly;
pub mod laws;
pub mod node;
pub mod pending;

pub use assembly::TreeAssembler;
use node::Node;

verus! {

/// Linking `c` below `p` (a position in `s`) is consistent: `c` is a node of
/// the arena whose parent is `p`, whose path lies directly in `p`'s path, and
/// which is not at the depth of the root.
pub open spec fn edge_ok(s: Seq<ArenaSlot>, p: int, c: usize) -> bool {
    &&& 1 <= c <= s.len()
    &&& s[c - 1].parent == Some((p + 1) as usize)
    &&& parent_of(s[c - 1].data.path@) == Some(s[p].data.path@)
    &&& s[c - 1].data.depth != 0
}

/// Every link of the arena is consistent.
pub open spec fn edges_ok(s: Seq<ArenaSlot>) -> bool {
    forall|p: int, k: int|
        0 <= p < s.len() && 0 <= k < s[p].children.len() ==> edge_ok(s, p, #[trigger] s[p].children[k])
}

/// The parent of a node lists it among its children.
pub open spec fn parents_ok(s: Seq<ArenaSlot>) -> bool {
    forall|i: int|
        0 <= i < s.len() && (#[trigger] s[i]).parent is Some ==> 1 <= s[i].parent->0 <= s.len() && s[s[i].parent->0
            - 1].children.contains((i + 1) as usize)
}

/// `r` ranks the nodes of `s` so that every child ranks below its parent:
/// following children always ends.
pub open spec fn ranked(s: Seq<ArenaSlot>, r: Seq<nat>) -> bool {
    &&& r.len() == s.len()
    &&& forall|p: int, k: int|
        0 <= p < s.len() && 0 <= k < s[p].children.len() ==> r[#[trigger] s[p].children[k] - 1] < r[p]
}

/// The links of `s` have no cycle.
pub open spec fn acyclic(s: Seq<ArenaSlot>) -> bool {
    exists|r: Seq<nat>| ranked(s, r)
}

/// A bound above every rank of `r`.
pub open spec fn rank_bound(r: Seq<nat>) -> nat
    decreases r.len(),
{
    if r.len() == 0 {
        0
    } else {
        let b = rank_bound(r.drop_last());
        if r.last() + 1 > b {
            r.last() + 1
        } else {
            b
        }
    }
}

pub proof fn lemma_rank_bound(r: Seq<nat>)
    ensures
        forall|i: int| 0 <= i < r.len() ==> #[trigger] r[i] < rank_bound(r),
    decreases r.len(),
{
    if r.len() > 0 {
        lemma_rank_bound(r.drop_last());
        assert forall|i: int| 0 <= i < r.len() implies #[trigger] r[i] < rank_bound(r) by {
            if i < r.len() - 1 {
                assert(r[i] == r.drop_last()[i]);
            }
        }
    }
}

/// Why a tree could not be built.
#[derive(Debug)]
pub enum TreeError {
    /// The root path does not exist or cannot be resolved.
    NotFound(String),
    /// The walk ended without an entry at depth 0.
    MissingRoot,
    /// A second entry at depth 0 arrived.
    DuplicateRoot,
    /// An entry below the root has a path without a parent.
    ExpectedParent,
}

impl TreeError {
    /// A short description of the error.
    pub fn message(&self) -> (r: String)
        ensures
            r@ == match self {
                TreeError::NotFound(s) => "Not Found "@ + s@,
                TreeError::MissingRoot => "MissingRoot"@,
                TreeError::DuplicateRoot => "DuplicateRoot"@,
                TreeError::ExpectedParent => "ExpectedParent"@,
            },
    {
        match self {
            TreeError::NotFound(s) => {
                let mut m = String::from_str("Not Found ");
                m.append(s.as_str());
                m
            },
            TreeError::MissingRoot => String::from_str("MissingRoot"),
            TreeError::DuplicateRoot => String::from_str("DuplicateRoot"),
            TreeError::ExpectedParent => String::from_str("ExpectedParent"),
        }
    }
}

/// What a walker hands to the assembler: one more entry, or the end of the
/// walk.
pub enum TraversalState {
    Ongoing(Node),
    Done,
}

/// A well-formed tree in arena `s` rooted at `root`: no slot was removed, the
/// root is a node at depth 0 without parent, every other node is below depth 0,
/// and every link is consistent.
pub open spec fn tree_ok(s: Seq<ArenaSlot>, root: usize) -> bool {
    &&& all_live(s)
    &&& live_id(s, root)
    &&& edges_ok(s)
    &&& acyclic(s)
    &&& parents_ok(s)
    &&& s.len() <= usize::MAX
    &&& s[root - 1].parent is None
    &&& s[root - 1].data.depth == 0
    &&& forall|i: int| 0 <= i < s.len() && i != root - 1 ==> (#[trigger] s[i]).data.depth != 0
}

/// Virtual data structure that represents file hierarchy.
pub struct Tree {
    inner: Arena<Node>,
    root: usize,
}

impl Tree {
    /// The slots of the arena.
    pub closed spec fn slots(&self) -> Seq<ArenaSlot> {
        arena_slots(self.inner)
    }

    /// The nodes of the tree, in the order of their ids.
    pub open spec fn nodes(&self) -> Seq<Node> {
        self.slots().map_values(|n: ArenaSlot| n.data)
    }

    pub closed spec fn root_id(&self) -> usize {
        self.root
    }

    /// A ranking of the nodes under which every child ranks below its parent.
    pub closed spec fn ranks(&self) -> Seq<nat> {
        choose|r: Seq<nat>| ranked(self.slots(), r)
    }

    /// In a well-formed tree the ranking exists.
    pub proof fn lemma_ranks(&self)
        requires
            self.wf(),
        ensures
            ranked(self.slots(), self.ranks()),
    {
    }

    /// The ids of the children of node `id`, in order.
    pub open spec fn child_ids(&self, id: usize) -> Seq<usize> {
        self.slots()[id - 1].children
    }

    /// The tree is well formed; every tree is.
    #[verifier::type_invariant]
    pub open spec fn wf(&self) -> bool {
        tree_ok(self.slots(), self.root_id())
    }

    /// Constructor for [Tree].
    pub fn new(inner: Arena<Node>, root: usize) -> (r: Self)
        requires
            tree_ok(arena_slots(inner), root),
        ensures
            r.wf(),
            r.slots() == arena_slots(inner),
            r.root_id() == root,
    {
        Tree { inner, root }
    }

    /// Grabs a reference to the arena.
    pub fn inner(&self) -> (r: &Arena<Node>)
        ensures
            arena_slots(*r) == self.slots(),
    {
        &self.inner
    }

    /// The id of the root.
    pub fn root(&self) -> (r: usize)
        ensures
            r == self.root_id(),
    {
        self.root
    }

    /// The number of nodes.
    pub fn len(&self) -> (r: usize)
        ensures
            r == self.nodes().len(),
    {
        proof {
            use_type_invariant(self);
        }
        arena_len(&self.inner)
    }

    /// The entry of node `id`.
    pub fn node(&self, id: usize) -> (r: &Node)
        requires
            1 <= id <= self.nodes().len(),
        ensures
            *r == self.nodes()[id - 1],
    {
        proof {
            use_type_invariant(self);
        }
        arena_get(&self.inner, id)
    }

    /// Node `id` is a directory.
    pub fn is_dir(&self, id: usize) -> (r: bool)
        requires
            1 <= id <= self.nodes().len(),
        ensures
            r == self.nodes()[id - 1].spec_is_dir(),
    {
        self.node(id).is_dir()
    }

    /// The metadata of node `id`.
    pub fn metadata(&self, id: usize) -> (r: Option<node::FileMeta>)
        requires
            1 <= id <= self.nodes().len(),
        ensures
            r == self.nodes()[id - 1].file_meta,
    {
        self.node(id).file_meta
    }

    /// The ids of the children of node `id`, in order.
    pub fn children_ids(&self, id: usize) -> (r: Vec<usize>)
        requires
            1 <= id <= self.nodes().len(),
        ensures
            r@ == self.child_ids(id),
    {
        proof {
            use_type_invariant(self);
        }
        arena_children(&self.inner, id)
    }

    /// The entries of the children of node `id`, in order.
    pub fn children_of(&self, id: usize) -> (r: Vec<Node>)
        requires
            1 <= id <= self.nodes().len(),
        ensures
            r@.len() == self.child_ids(id).len(),
            forall|k: int|
                0 <= k < r@.len() ==> #[trigger] r@[k] == self.nodes()[self.child_ids(id)[k] - 1],
    {
        proof {
            use_type_invariant(self);
        }
        let ids = arena_children(&self.inner, id);
        let mut res: Vec<Node> = Vec::new();
        let mut i: usize = 0;
        while i < ids.len()
            invariant
                i <= ids@.len(),
                ids@ == self.child_ids(id),
                1 <= id <= self.nodes().len(),
                tree_ok(self.slots(), self.root_id()),
                res@.len() == i,
                forall|k: int| 0 <= k < i ==> #[trigger] res@[k] == self.nodes()[ids@[k] - 1],
            decreases ids@.len() - i,
        {
            let c = ids[i];
            proof {
                assert(edge_ok(self.slots(), id - 1, self.slots()[id - 1].children[i as int]));
            }
            let n = arena_get(&self.inner, c).duplicate();
            res.push(n);
            i = i + 1;
        }
        res
    }

    /// The entries of the children of the root, in order.
    pub fn children_vec(&self) -> (r: Vec<Node>)
        ensures
            r@.len() == self.child_ids(self.root_id()).len(),
            forall|k: int|
                0 <= k < r@.len() ==> #[trigger] r@[k] == self.nodes()[self.child_ids(self.root_id())[k]
                    - 1],
    {
        proof {
            use_type_invariant(self);
        }
        self.children_of(self.root)
    }
}

} // verus!
