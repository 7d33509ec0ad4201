use vstd::prelude::*;
use indextree::Arena;
use std::num::NonZeroUsize;

verus! {

/// The arena of `indextree`, holding the nodes of a tree.
#[verifier::external_type_specification]
#[verifier::external_body]
#[verifier::reject_recursive_types(T)]
pub struct ExArena<T>(Arena<T>);

/// The nodes of `a` in storage order. Node number `n` (counted from 1, as
/// `indextree` numbers its nodes) is entry `n - 1`: its cell and the number
/// of its parent, 0 when it has none.
pub uninterp spec fn arena_nodes(a: Arena<(i16, i16)>) -> Seq<(i16, i16, usize)>;

/// No node of `a` has ever been removed: every slot holds a live node and no
/// slot waits for reuse.
pub uninterp spec fn arena_intact(a: Arena<(i16, i16)>) -> bool;

/// Every node's parent comes before it in storage order.
pub open spec fn parents_precede(nodes: Seq<(i16, i16, usize)>) -> bool {
    forall|i: int| 0 <= i < nodes.len() ==> (#[trigger] nodes[i]).2 <= i
}

/// The numbers of node `n` and of its ancestors, from `n` up to the root.
pub open spec fn ancestor_chain(nodes: Seq<(i16, i16, usize)>, n: int) -> Seq<usize>
    decreases n,
{
    if n <= 0 || n > nodes.len() {
        Seq::empty()
    } else if nodes[n - 1].2 < n {
        seq![n as usize] + ancestor_chain(nodes, nodes[n - 1].2 as int)
    } else {
        seq![n as usize]
    }
}

/// Node `n` has a child.
pub open spec fn has_child(nodes: Seq<(i16, i16, usize)>, n: int) -> bool {
    exists|m: int| 0 <= m < nodes.len() && (#[trigger] nodes[m]).2 == n
}

/// `Arena::new`: an arena with no node.
#[verifier::external_body]
pub(crate) fn arena_new() -> (a: Arena<(i16, i16)>)
    ensures
        arena_nodes(a) == Seq::<(i16, i16, usize)>::empty(),
        arena_intact(a),
{
    Arena::new()
}

/// `Arena::new_node`: in an arena with no removed node, the new node is stored
/// after the others, with no parent; the number of its identifier
/// (`usize::from(NodeId)`) is its position counted from 1. It panics when the
/// arena already holds `usize::MAX` nodes, which `requires` leaves out.
#[verifier::external_body]
pub(crate) fn arena_new_node(a: &mut Arena<(i16, i16)>, data: (i16, i16)) -> (n: usize)
    requires
        arena_intact(*old(a)),
        arena_nodes(*old(a)).len() < usize::MAX,
    ensures
        arena_intact(*final(a)),
        arena_nodes(*final(a)) == arena_nodes(*old(a)).push((data.0, data.1, 0usize)),
        n == arena_nodes(*old(a)).len() + 1,
{
    usize::from(a.new_node(data))
}

/// `NodeId::append`: node `child` becomes the last child of node `parent`,
/// which changes the parent of `child` and nothing else this model holds.
/// It panics when `child` is `parent` or one of its ancestors, or when either
/// is removed; with parents stored before their children and `parent` before
/// `child`, none of that can happen.
#[verifier::external_body]
pub(crate) fn arena_append(a: &mut Arena<(i16, i16)>, parent: usize, child: usize)
    requires
        arena_intact(*old(a)),
        parents_precede(arena_nodes(*old(a))),
        1 <= parent < child <= arena_nodes(*old(a)).len(),
    ensures
        arena_intact(*final(a)),
        arena_nodes(*final(a)) == arena_nodes(*old(a)).update(
            child - 1,
            (arena_nodes(*old(a))[child - 1].0, arena_nodes(*old(a))[child - 1].1, parent),
        ),
{
    let p = a.get_node_id_at(NonZeroUsize::new(parent).unwrap()).unwrap();
    let c = a.get_node_id_at(NonZeroUsize::new(child).unwrap()).unwrap();
    p.append(c, a);
}

/// `Arena::count`: the number of slots, here the number of nodes.
#[verifier::external_body]
#[allow(deprecated)]
pub(crate) fn arena_count(a: &Arena<(i16, i16)>) -> (c: usize)
    ensures
        c == arena_nodes(*a).len(),
{
    a.count()
}

/// `Node::get`: the data of node `n`.
#[verifier::external_body]
pub(crate) fn arena_data(a: &Arena<(i16, i16)>, n: usize) -> (d: (i16, i16))
    requires
        arena_intact(*a),
        1 <= n <= arena_nodes(*a).len(),
    ensures
        d == (arena_nodes(*a)[n - 1].0, arena_nodes(*a)[n - 1].1),
{
    let id = a.get_node_id_at(NonZeroUsize::new(n).unwrap()).unwrap();
    *a[id].get()
}

/// `NodeId::parent`: the number of the parent of node `n`, if it has one.
#[verifier::external_body]
pub(crate) fn arena_parent(a: &Arena<(i16, i16)>, n: usize) -> (p: Option<usize>)
    requires
        arena_intact(*a),
        1 <= n <= arena_nodes(*a).len(),
    ensures
        p == if arena_nodes(*a)[n - 1].2 == 0 {
            None::<usize>
        } else {
            Some(arena_nodes(*a)[n - 1].2)
        },
{
    a.get_node_id_at(NonZeroUsize::new(n).unwrap()).unwrap().parent(a).map(usize::from)
}

/// `NodeId::last_child`: whether node `n` has a child.
#[verifier::external_body]
pub(crate) fn arena_has_child(a: &Arena<(i16, i16)>, n: usize) -> (b: bool)
    requires
        arena_intact(*a),
        1 <= n <= arena_nodes(*a).len(),
    ensures
        b == has_child(arena_nodes(*a), n as int),
{
    a.get_node_id_at(NonZeroUsize::new(n).unwrap()).unwrap().last_child(a).is_some()
}

/// `NodeId::ancestors`: the numbers of node `n` and of its ancestors, from
/// `n` up to the root.
#[verifier::external_body]
pub(crate) fn arena_ancestors(a: &Arena<(i16, i16)>, n: usize) -> (v: Vec<usize>)
    requires
        arena_intact(*a),
        parents_precede(arena_nodes(*a)),
        1 <= n <= arena_nodes(*a).len(),
    ensures
        v@ == ancestor_chain(arena_nodes(*a), n as int),
{
    a.get_node_id_at(NonZeroUsize::new(n).unwrap()).unwrap().ancestors(a).map(usize::from).collect()
}

} // verus!
