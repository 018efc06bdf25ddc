//! The node arena of `indextree`, seen through a model of its slots.
use crate::tree::node::Node;
use indextree::Arena;
use std::num::NonZeroUsize;
use vstd::prelude::*;

verus! {

#[verifier::external_type_specification]
#[verifier::external_body]
#[verifier::reject_recursive_types(T)]
pub struct ExArena<T>(Arena<T>);

/// One slot of an arena: the node's data, the one-based index of its parent
/// and the one-based indices of its children in sibling order.
pub struct ArenaSlot {
    pub data: Node,
    pub parent: Option<usize>,
    pub children: Seq<usize>,
    pub removed: bool,
}

/// The slots of an arena in storage order; the node that indextree numbers
/// `k` (its `usize` id) sits at position `k - 1`.
pub uninterp spec fn arena_slots(a: Arena<Node>) -> Seq<ArenaSlot>;

/// The arena has node `id` and that node was never removed.
pub open spec fn live_id(slots: Seq<ArenaSlot>, id: usize) -> bool {
    1 <= id <= slots.len() && !slots[id - 1].removed
}

/// No slot of the arena was ever removed.
pub open spec fn all_live(slots: Seq<ArenaSlot>) -> bool {
    forall|i: int| 0 <= i < slots.len() ==> !(#[trigger] slots[i]).removed
}

/// Relies on `indextree::Arena::new`: a new arena holds no slot.
#[verifier::external_body]
pub(crate) fn arena_new() -> (a: Arena<Node>)
    ensures
        arena_slots(a) == Seq::<ArenaSlot>::empty(),
{
    Arena::new()
}

/// Relies on `indextree::Arena::new_node`: with no removed slot its free list
/// is empty, so the node goes into a new slot at the end, unlinked, and its id
/// is the new number of slots. It panics only when that number would not fit.
#[verifier::external_body]
pub(crate) fn arena_new_node(a: &mut Arena<Node>, data: Node) -> (id: usize)
    requires
        arena_slots(*old(a)).len() < usize::MAX,
        all_live(arena_slots(*old(a))),
    ensures
        arena_slots(*final(a)) == arena_slots(*old(a)).push(
            ArenaSlot { data, parent: None, children: Seq::empty(), removed: false },
        ),
        id == arena_slots(*final(a)).len(),
{
    usize::from(a.new_node(data))
}

/// Relies on `indextree::Arena::len`: the number of slots, removed ones
/// included.
#[verifier::external_body]
pub(crate) fn arena_len(a: &Arena<Node>) -> (r: usize)
    ensures
        r == arena_slots(*a).len(),
{
    a.len()
}

/// Relies on `indextree::NodeId::append` (ids from `Arena::get_node_id_at`):
/// the child is detached and becomes the parent's last child. It panics only
/// when the child is the parent, one of its ancestors, or removed; a parent
/// that has no parent has no ancestor but itself.
#[verifier::external_body]
pub(crate) fn arena_append(a: &mut Arena<Node>, parent: usize, child: usize)
    requires
        live_id(arena_slots(*old(a)), parent),
        live_id(arena_slots(*old(a)), child),
        parent != child,
        arena_slots(*old(a))[parent - 1].parent is None,
        arena_slots(*old(a))[child - 1].parent is None,
    ensures
        arena_slots(*final(a)) == arena_slots(*old(a)).update(
            parent - 1,
            ArenaSlot {
                children: arena_slots(*old(a))[parent - 1].children.push(child),
                ..arena_slots(*old(a))[parent - 1]
            },
        ).update(child - 1, ArenaSlot { parent: Some(parent), ..arena_slots(*old(a))[child - 1] }),
{
    let p = a.get_node_id_at(NonZeroUsize::new(parent).unwrap()).unwrap();
    let c = a.get_node_id_at(NonZeroUsize::new(child).unwrap()).unwrap();
    p.append(c, a);
}

/// Relies on `indextree::NodeId::children`: the ids of the node's children,
/// first child first, following the sibling links.
#[verifier::external_body]
pub(crate) fn arena_children(a: &Arena<Node>, id: usize) -> (r: Vec<usize>)
    requires
        live_id(arena_slots(*a), id),
    ensures
        r@ == arena_slots(*a)[id - 1].children,
{
    let n = a.get_node_id_at(NonZeroUsize::new(id).unwrap()).unwrap();
    n.children(a).map(usize::from).collect()
}

/// Relies on indexing an `indextree::Arena` and `Node::get`: the data of a
/// live node.
#[verifier::external_body]
pub(crate) fn arena_get(a: &Arena<Node>, id: usize) -> (r: &Node)
    requires
        live_id(arena_slots(*a), id),
    ensures
        *r == arena_slots(*a)[id - 1].data,
{
    let n = a.get_node_id_at(NonZeroUsize::new(id).unwrap()).unwrap();
    a[n].get()
}

} // verus!
