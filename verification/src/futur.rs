use vstd::prelude::*;
use indextree::Arena;
use crate::arena::{
    ancestor_chain, arena_ancestors, arena_append, arena_count, arena_data, arena_has_child,
    arena_intact, arena_new, arena_new_node, arena_nodes, arena_parent, has_child, parents_precede,
};
use crate::model::{adjacent, copy_points, Board, Game, Point, Snake};
use crate::possible::steppable;
use crate::sort::{sorted_by, stable_sort};

verus! {

/// The cell of node number `n`.
pub open spec fn node_point(nodes: Seq<(i16, i16, usize)>, n: int) -> Point {
    Point { x: nodes[n - 1].0, y: nodes[n - 1].1 }
}

/// The cells of node `n` and of its ancestors, from `n` up to the root.
pub open spec fn chain_points(nodes: Seq<(i16, i16, usize)>, n: int) -> Seq<Point> {
    ancestor_chain(nodes, n).map_values(|k: usize| node_point(nodes, k as int))
}

/// The four offsets tried from a cell, in order: down, right, up, left.
pub open spec fn move_offsets() -> Seq<(i16, i16)> {
    seq![(0i16, 1i16), (1i16, 0i16), (0i16, -1i16), (-1i16, 0i16)]
}

/// The cell lies beyond a side of the board.
pub open spec fn is_outside(board: Board, p: Point) -> bool {
    p.x < 0 || p.y < 0 || p.x >= board.width as i16 || p.y >= board.height as i16
}

/// Some segment of some snake lies on `p`.
pub open spec fn on_a_snake(snakes: Seq<Snake>, p: Point) -> bool {
    exists|k: int, m: int|
        0 <= k < snakes.len() && 0 <= m < snakes[k].body@.len() && #[trigger] snakes[k].body@[m] == p
}

/// The cell `p` cannot extend the path that ends at node `parent`: it lies
/// off the board, on that path already, or on a snake.
pub open spec fn blocked(board: Board, nodes: Seq<(i16, i16, usize)>, parent: int, p: Point) -> bool {
    is_outside(board, p) || chain_points(nodes, parent).contains(p) || on_a_snake(board.snakes@, p)
}

/// The cell reached from node `parent` with offset number `d`.
pub open spec fn offset_point(nodes: Seq<(i16, i16, usize)>, parent: int, d: int) -> Point {
    Point {
        x: (nodes[parent - 1].0 + move_offsets()[d].0) as i16,
        y: (nodes[parent - 1].1 + move_offsets()[d].1) as i16,
    }
}

/// The depth-first growth of the tree below node `parent`: nothing when the
/// tree already has more than 4000 nodes; otherwise each offset in turn
/// (down, right, up, left) that leads to a cell not blocked becomes a child,
/// grown in its turn before the next offset is tried. `fuel` bounds the depth
/// of the search.
pub open spec fn tree_grow(board: Board, nodes: Seq<(i16, i16, usize)>, parent: int, fuel: nat) -> Seq<
    (i16, i16, usize),
>
    decreases fuel, 0int,
{
    if fuel == 0 || nodes.len() > 4000 {
        nodes
    } else {
        tree_offsets(board, nodes, parent, 0, (fuel - 1) as nat)
    }
}

/// The growth of node `parent` from offset number `d` on.
pub open spec fn tree_offsets(board: Board, nodes: Seq<(i16, i16, usize)>, parent: int, d: int, fuel: nat) -> Seq<
    (i16, i16, usize),
>
    decreases fuel, 4 - d,
{
    if d < 0 || d >= 4 {
        nodes
    } else {
        let next = offset_point(nodes, parent, d);
        if blocked(board, nodes, parent, next) {
            tree_offsets(board, nodes, parent, d + 1, fuel)
        } else {
            let grown = nodes.push((next.x, next.y, parent as usize));
            tree_offsets(board, tree_grow(board, grown, grown.len() as int, fuel), parent, d + 1, fuel)
        }
    }
}

/// The search depth that the tree of futures is given: more than the tree can ever use.
pub open spec fn futur_fuel() -> nat {
    4001
}

/// The tree of the cells we can reach from `head` without crossing a snake,
/// the board's edge or our own path.
pub open spec fn futur_tree(board: Board, head: Point) -> Seq<(i16, i16, usize)> {
    tree_grow(board, seq![(head.x, head.y, 0usize)], 1, futur_fuel())
}

/// Node `n` hangs below an earlier node, its parent, on a cell next to the
/// parent's cell, on the board, free of snakes, and off the path from the
/// root to the parent.
pub open spec fn node_ok(board: Board, nodes: Seq<(i16, i16, usize)>, n: int) -> bool {
    let p = nodes[n - 1].2 as int;
    let c = node_point(nodes, n);
    &&& 1 <= p < n
    &&& adjacent(node_point(nodes, p), c)
    &&& !is_outside(board, c)
    &&& !on_a_snake(board.snakes@, c)
    &&& !chain_points(nodes, p).contains(c)
}

/// A tree of futures under construction: a root, parents stored before
/// their children, room around every cell, and every node but the root as
/// `node_ok` says.
pub open spec fn tree_ok(board: Board, nodes: Seq<(i16, i16, usize)>) -> bool {
    &&& nodes.len() >= 1
    &&& parents_precede(nodes)
    &&& cells_steppable(nodes)
    &&& forall|n: int| 2 <= n <= nodes.len() ==> #[trigger] node_ok(board, nodes, n)
}

/// `more` holds the nodes of `nodes`, unchanged, followed by others.
pub open spec fn extends(more: Seq<(i16, i16, usize)>, nodes: Seq<(i16, i16, usize)>) -> bool {
    more.len() >= nodes.len() && more.subrange(0, nodes.len() as int) == nodes
}

proof fn lemma_extends_trans(a: Seq<(i16, i16, usize)>, b: Seq<(i16, i16, usize)>, c: Seq<(i16, i16, usize)>)
    requires
        extends(b, a),
        extends(c, b),
    ensures
        extends(c, a),
{
    assert forall|k: int| 0 <= k < a.len() implies c.subrange(0, a.len() as int)[k] == a[k] by {
        assert(c[k] == c.subrange(0, b.len() as int)[k]);
        assert(b[k] == b.subrange(0, a.len() as int)[k]);
    }
    assert(c.subrange(0, a.len() as int) =~= a);
}

/// Adding nodes after the others changes no earlier node's path to the root.
proof fn lemma_chain_extends(nodes: Seq<(i16, i16, usize)>, more: Seq<(i16, i16, usize)>, n: int)
    requires
        extends(more, nodes),
        parents_precede(nodes),
        nodes.len() <= usize::MAX,
        n <= nodes.len(),
    ensures
        ancestor_chain(more, n) == ancestor_chain(nodes, n),
        chain_points(more, n) == chain_points(nodes, n),
    decreases n,
{
    if n > 0 {
        assert(more[n - 1] == more.subrange(0, nodes.len() as int)[n - 1]);
        lemma_chain_extends(nodes, more, nodes[n - 1].2 as int);
    }
    lemma_ancestor_chain_bounds(nodes, n);
    let chain = ancestor_chain(nodes, n);
    assert forall|i: int| 0 <= i < chain.len() implies node_point(more, #[trigger] chain[i] as int) == node_point(
        nodes,
        chain[i] as int,
    ) by {
        let k = chain[i] as int;
        assert(more[k - 1] == more.subrange(0, nodes.len() as int)[k - 1]);
    }
    assert(chain_points(more, n) =~= chain_points(nodes, n));
}

proof fn lemma_node_ok_extends(board: Board, nodes: Seq<(i16, i16, usize)>, more: Seq<(i16, i16, usize)>, n: int)
    requires
        extends(more, nodes),
        parents_precede(nodes),
        nodes.len() <= usize::MAX,
        2 <= n <= nodes.len(),
        node_ok(board, nodes, n),
    ensures
        node_ok(board, more, n),
{
    let p = nodes[n - 1].2 as int;
    assert(more[n - 1] == more.subrange(0, nodes.len() as int)[n - 1]);
    assert(more[p - 1] == more.subrange(0, nodes.len() as int)[p - 1]);
    lemma_chain_extends(nodes, more, p);
}

/// A cell on the board has room for one step in each direction.
proof fn lemma_inside_steppable(board: Board, c: Point)
    requires
        !is_outside(board, c),
    ensures
        steppable(c),
{
}

/// Adding the child that offset `d` leads to, when that cell is not blocked,
/// keeps the tree as `tree_ok` says.
proof fn lemma_grown_ok(board: Board, nodes: Seq<(i16, i16, usize)>, parent: int, d: int)
    requires
        tree_ok(board, nodes),
        1 <= parent <= nodes.len(),
        0 <= d < 4,
        nodes.len() <= 4000 + 4 * futur_fuel() + 4,
        !blocked(board, nodes, parent, offset_point(nodes, parent, d)),
    ensures
        ({
            let next = offset_point(nodes, parent, d);
            let grown = nodes.push((next.x, next.y, parent as usize));
            &&& extends(grown, nodes)
            &&& tree_ok(board, grown)
            &&& node_point(grown, grown.len() as int) == next
        }),
{
    let next = offset_point(nodes, parent, d);
    let q = node_point(nodes, parent);
    assert(steppable(q));
    assert(adjacent(q, next));
    let grown = nodes.push((next.x, next.y, parent as usize));
    let m = grown.len() as int;
    assert(extends(grown, nodes)) by {
        assert(grown.subrange(0, nodes.len() as int) =~= nodes);
    }
    lemma_chain_extends(nodes, grown, parent);
    assert(node_point(grown, parent) == q);
    assert(node_point(grown, m) == next);
    lemma_inside_steppable(board, next);
    assert(tree_ok(board, grown)) by {
        assert forall|k: int| 0 <= k < grown.len() implies (#[trigger] grown[k]).2 <= k by {
            if k < nodes.len() {
                assert(grown[k] == nodes[k]);
            }
        }
        assert forall|k: int| 1 <= k <= grown.len() implies steppable(#[trigger] node_point(grown, k)) by {
            if k <= nodes.len() {
                assert(node_point(grown, k) == node_point(nodes, k));
            }
        }
        assert forall|n: int| 2 <= n <= grown.len() implies #[trigger] node_ok(board, grown, n) by {
            if n <= nodes.len() {
                lemma_node_ok_extends(board, nodes, grown, n);
            }
        }
    }
}

/// `tree_grow` only adds nodes, and each one it adds is as `node_ok` says.
proof fn lemma_tree_grow(board: Board, nodes: Seq<(i16, i16, usize)>, parent: int, fuel: nat)
    requires
        tree_ok(board, nodes),
        1 <= parent <= nodes.len(),
        fuel <= futur_fuel(),
        nodes.len() <= 4004 + 4 * fuel,
    ensures
        extends(tree_grow(board, nodes, parent, fuel), nodes),
        tree_ok(board, tree_grow(board, nodes, parent, fuel)),
        tree_grow(board, nodes, parent, fuel).len() <= if nodes.len() > 4000 {
            nodes.len() as int
        } else {
            4000 + 4 * fuel as int
        },
    decreases fuel, 0int,
{
    if fuel == 0 || nodes.len() > 4000 {
        assert(nodes.subrange(0, nodes.len() as int) =~= nodes);
    } else {
        lemma_tree_offsets(board, nodes, parent, 0, (fuel - 1) as nat);
    }
}

/// `tree_offsets` only adds nodes, and each one it adds is as `node_ok` says.
proof fn lemma_tree_offsets(board: Board, nodes: Seq<(i16, i16, usize)>, parent: int, d: int, fuel: nat)
    requires
        tree_ok(board, nodes),
        1 <= parent <= nodes.len(),
        0 <= d <= 4,
        fuel < futur_fuel(),
        nodes.len() <= 4000 + 4 * fuel + d,
    ensures
        extends(tree_offsets(board, nodes, parent, d, fuel), nodes),
        tree_ok(board, tree_offsets(board, nodes, parent, d, fuel)),
        tree_offsets(board, nodes, parent, d, fuel).len() <= 4000 + 4 * fuel + 4,
    decreases fuel, 4 - d,
{
    if d >= 4 {
        assert(nodes.subrange(0, nodes.len() as int) =~= nodes);
    } else {
        let next = offset_point(nodes, parent, d);
        if blocked(board, nodes, parent, next) {
            lemma_tree_offsets(board, nodes, parent, d + 1, fuel);
        } else {
            let grown = nodes.push((next.x, next.y, parent as usize));
            let m = grown.len() as int;
            lemma_grown_ok(board, nodes, parent, d);
            lemma_tree_grow(board, grown, m, fuel);
            let after = tree_grow(board, grown, m, fuel);
            lemma_tree_offsets(board, after, parent, d + 1, fuel);
            lemma_extends_trans(nodes, grown, after);
            lemma_extends_trans(nodes, after, tree_offsets(board, after, parent, d + 1, fuel));
        }
    }
}

/// The cell reached from `q` with offset number `d`.
pub open spec fn offset_cell(q: Point, d: int) -> Point {
    Point { x: (q.x + move_offsets()[d].0) as i16, y: (q.y + move_offsets()[d].1) as i16 }
}

/// Nodes `m` and `n` are two different children of the same node.
pub open spec fn siblings(nodes: Seq<(i16, i16, usize)>, m: int, n: int) -> bool {
    &&& 2 <= m <= nodes.len()
    &&& 2 <= n <= nodes.len()
    &&& m != n
    &&& nodes[m - 1].2 == nodes[n - 1].2
}

/// No two children of a node lie on the same cell.
pub open spec fn siblings_distinct(nodes: Seq<(i16, i16, usize)>) -> bool {
    forall|m: int, n: int| #[trigger] siblings(nodes, m, n) ==> node_point(nodes, m) != node_point(nodes, n)
}

/// Every node added after the first `len` nodes is a child of node `parent`
/// or of another added node, and has `parent` among its ancestors: of the
/// nodes there before, only `parent` gains children.
pub open spec fn added_under(more: Seq<(i16, i16, usize)>, len: int, parent: int) -> bool {
    &&& forall|i: int| len <= i < more.len() ==> (#[trigger] more[i]).2 == parent || more[i].2 > len
    &&& forall|n: int| len < n <= more.len() ==> #[trigger] ancestor_chain(more, n).contains(parent as usize)
}

/// When node `m` is on the way from node `n` to the root, so is every node on
/// the way from `m` to the root.
proof fn lemma_chain_through(nodes: Seq<(i16, i16, usize)>, n: int, m: int)
    requires
        parents_precede(nodes),
        nodes.len() <= usize::MAX,
        0 <= n <= nodes.len(),
        1 <= m <= nodes.len(),
        ancestor_chain(nodes, n).contains(m as usize),
    ensures
        forall|x: usize| ancestor_chain(nodes, m).contains(x) ==> #[trigger] ancestor_chain(nodes, n).contains(x),
    decreases n,
{
    if n == 0 {
        assert(ancestor_chain(nodes, 0).len() == 0);
    } else if n != m {
        let p = nodes[n - 1].2 as int;
        assert(ancestor_chain(nodes, n) == seq![n as usize] + ancestor_chain(nodes, p));
        let i = choose|i: int| 0 <= i < ancestor_chain(nodes, n).len() && ancestor_chain(nodes, n)[i] == m as usize;
        assert(i > 0);
        assert(ancestor_chain(nodes, p)[i - 1] == m as usize);
        lemma_chain_through(nodes, p, m);
        assert forall|x: usize| ancestor_chain(nodes, m).contains(x) implies #[trigger] ancestor_chain(
            nodes,
            n,
        ).contains(x) by {
            assert(ancestor_chain(nodes, p).contains(x));
            let j = choose|j: int| 0 <= j < ancestor_chain(nodes, p).len() && ancestor_chain(nodes, p)[j] == x;
            assert(ancestor_chain(nodes, n)[j + 1] == x);
        }
    }
}

/// Each child of `parent` lies on the cell of one of its first `d` offsets.
spec fn children_before(nodes: Seq<(i16, i16, usize)>, parent: int, d: int) -> bool {
    forall|n: int|
        2 <= n <= nodes.len() && (#[trigger] nodes[n - 1]).2 == parent ==> exists|e: int|
            0 <= e < d && node_point(nodes, n) == #[trigger] offset_cell(node_point(nodes, parent), e)
}

proof fn lemma_offset_cells_differ(q: Point, e: int, d: int)
    requires
        steppable(q),
        0 <= e < d < 4,
    ensures
        offset_cell(q, e) != offset_cell(q, d),
{
}

proof fn lemma_tree_offsets_siblings(board: Board, nodes: Seq<(i16, i16, usize)>, parent: int, d: int, fuel: nat)
    requires
        tree_ok(board, nodes),
        1 <= parent <= nodes.len(),
        0 <= d <= 4,
        fuel < futur_fuel(),
        nodes.len() <= 4000 + 4 * fuel + d,
        siblings_distinct(nodes),
        children_before(nodes, parent, d),
    ensures
        siblings_distinct(tree_offsets(board, nodes, parent, d, fuel)),
        added_under(tree_offsets(board, nodes, parent, d, fuel), nodes.len() as int, parent),
    decreases fuel, 4 - d,
{
    if d < 4 {
        let q = node_point(nodes, parent);
        let next = offset_point(nodes, parent, d);
        assert(next == offset_cell(q, d));
        if blocked(board, nodes, parent, next) {
            assert forall|n: int| 2 <= n <= nodes.len() && (#[trigger] nodes[n - 1]).2 == parent implies exists|e: int|
                0 <= e < d + 1 && node_point(nodes, n) == #[trigger] offset_cell(node_point(nodes, parent), e) by {
                let e = choose|e: int| 0 <= e < d && node_point(nodes, n) == offset_cell(node_point(nodes, parent), e);
                assert(0 <= e < d + 1 && node_point(nodes, n) == offset_cell(node_point(nodes, parent), e));
            }
            lemma_tree_offsets_siblings(board, nodes, parent, d + 1, fuel);
        } else {
            let grown = nodes.push((next.x, next.y, parent as usize));
            let len = nodes.len() as int;
            let m = grown.len() as int;
            lemma_grown_ok(board, nodes, parent, d);
            assert(steppable(q));
            assert(siblings_distinct(grown)) by {
                assert forall|a: int, b: int| #[trigger] siblings(grown, a, b) implies node_point(grown, a) != node_point(
                    grown,
                    b,
                ) by {
                    if a <= len && b <= len {
                        assert(grown[a - 1] == nodes[a - 1] && grown[b - 1] == nodes[b - 1]);
                        assert(siblings(nodes, a, b));
                    } else {
                        let o = if a <= len { a } else { b };
                        assert(grown[o - 1] == nodes[o - 1]);
                        assert(nodes[o - 1].2 == parent);
                        let e = choose|e: int| 0 <= e < d && node_point(nodes, o) == offset_cell(q, e);
                        lemma_offset_cells_differ(q, e, d);
                    }
                }
            }
            assert forall|n: int| 2 <= n <= grown.len() implies #[trigger] grown[n - 1].2 != m by {
                if n <= len {
                    assert(grown[n - 1] == nodes[n - 1]);
                }
            }
            lemma_tree_grow(board, grown, m, fuel);
            lemma_tree_grow_siblings(board, grown, m, fuel);
            let after = tree_grow(board, grown, m, fuel);
            assert(node_point(after, parent) == q) by {
                assert(after[parent - 1] == after.subrange(0, grown.len() as int)[parent - 1]);
            }
            assert forall|n: int| 2 <= n <= after.len() && (#[trigger] after[n - 1]).2 == parent implies exists|e: int|
                0 <= e < d + 1 && node_point(after, n) == #[trigger] offset_cell(node_point(after, parent), e) by {
                if n <= m {
                    assert(after[n - 1] == after.subrange(0, grown.len() as int)[n - 1]);
                    if n <= len {
                        assert(grown[n - 1] == nodes[n - 1]);
                        let e = choose|e: int| 0 <= e < d && node_point(nodes, n) == offset_cell(q, e);
                        assert(0 <= e < d + 1 && node_point(after, n) == offset_cell(node_point(after, parent), e));
                    } else {
                        assert(0 <= d < d + 1 && node_point(after, n) == offset_cell(node_point(after, parent), d));
                    }
                } else {
                    assert(after[n - 1].2 == m || after[n - 1].2 > grown.len());
                }
            }
            lemma_tree_offsets(board, after, parent, d + 1, fuel);
            lemma_tree_offsets_siblings(board, after, parent, d + 1, fuel);
            let r = tree_offsets(board, after, parent, d + 1, fuel);
            assert forall|i: int| len <= i < r.len() implies (#[trigger] r[i]).2 == parent || r[i].2 > len by {
                if i < after.len() {
                    assert(r[i] == r.subrange(0, after.len() as int)[i]);
                    if i < m {
                        assert(after[i] == after.subrange(0, grown.len() as int)[i]);
                    }
                }
            }
            lemma_extends_trans(grown, after, r);
            lemma_chain_extends(grown, r, m);
            assert(ancestor_chain(grown, m) == seq![m as usize] + ancestor_chain(grown, parent));
            assert(ancestor_chain(grown, parent)[0] == parent as usize);
            assert(ancestor_chain(r, m)[1] == parent as usize);
            assert forall|n: int| len < n <= r.len() implies #[trigger] ancestor_chain(r, n).contains(parent as usize) by {
                if n == m {
                    assert(ancestor_chain(r, m)[1] == parent as usize);
                } else if n <= after.len() {
                    assert(ancestor_chain(after, n).contains(m as usize));
                    lemma_chain_extends(after, r, n);
                    lemma_chain_through(r, n, m);
                    assert(ancestor_chain(r, m).contains(parent as usize));
                }
            }
        }
    }
}

/// One growth of the tree below node `parent` (one call of the search that
/// builds the tree of futures): the nodes there before are kept unchanged
/// and only `parent` among them gains children; every node added descends
/// from `parent`, lies one step from its own parent, on the board, off every
/// snake, off the cells of its ancestors (`node_ok`); no two children of a
/// node share a cell. When the tree already holds more than 4000 nodes
/// nothing is added.
pub proof fn lemma_tree_grow_siblings(board: Board, nodes: Seq<(i16, i16, usize)>, parent: int, fuel: nat)
    requires
        tree_ok(board, nodes),
        1 <= parent <= nodes.len(),
        fuel <= futur_fuel(),
        nodes.len() <= 4004 + 4 * fuel,
        siblings_distinct(nodes),
        forall|n: int| 2 <= n <= nodes.len() ==> #[trigger] nodes[n - 1].2 != parent,
    ensures
        extends(tree_grow(board, nodes, parent, fuel), nodes),
        tree_ok(board, tree_grow(board, nodes, parent, fuel)),
        siblings_distinct(tree_grow(board, nodes, parent, fuel)),
        added_under(tree_grow(board, nodes, parent, fuel), nodes.len() as int, parent),
        nodes.len() > 4000 ==> tree_grow(board, nodes, parent, fuel) == nodes,
    decreases fuel, 0int,
{
    lemma_tree_grow(board, nodes, parent, fuel);
    if fuel > 0 && nodes.len() <= 4000 {
        lemma_tree_offsets_siblings(board, nodes, parent, 0, (fuel - 1) as nat);
    }
}

/// The tree of futures is made of paths on the board: its root is our head,
/// and every other node is a cell of the board next to its parent's cell,
/// free of snakes, and not already on the path from the root to its parent;
/// no two children of a node lie on the same cell. Its growth stops soon
/// after 4000 nodes.
pub proof fn lemma_futur_tree_paths(board: Board, head: Point)
    requires
        steppable(head),
    ensures
        1 <= futur_tree(board, head).len() <= 4000 + 4 * futur_fuel(),
        futur_tree(board, head)[0] == (head.x, head.y, 0usize),
        parents_precede(futur_tree(board, head)),
        forall|n: int| 2 <= n <= futur_tree(board, head).len() ==> #[trigger] node_ok(board, futur_tree(board, head), n),
        siblings_distinct(futur_tree(board, head)),
{
    let root = seq![(head.x, head.y, 0usize)];
    assert(node_point(root, 1) == head);
    assert(tree_ok(board, root));
    lemma_tree_grow(board, root, 1, futur_fuel());
    lemma_tree_grow_siblings(board, root, 1, futur_fuel());
    let t = futur_tree(board, head);
    assert(t[0] == t.subrange(0, 1)[0]);
}

/// The four offsets tried from a cell: down, right, up, left.
pub fn next_moves() -> (v: Vec<(i16, i16)>)
    ensures
        v@ == move_offsets(),
{
    let v = vec![(0i16, 1i16), (1i16, 0i16), (0i16, -1i16), (-1i16, 0i16)];
    assert(v@ =~= move_offsets());
    v
}

/// Whether some segment of some snake lies on `point`.
pub fn snake_present(board: &Board, point: &Point) -> (present: bool)
    ensures
        present == on_a_snake(board.snakes@, *point),
{
    let mut k: usize = 0;
    while k < board.snakes.len()
        invariant
            k <= board.snakes@.len(),
            forall|a: int, m: int|
                0 <= a < k && 0 <= m < board.snakes@[a].body@.len() ==> #[trigger] board.snakes@[a].body@[m] != *point,
        decreases board.snakes@.len() - k,
    {
        let mut m: usize = 0;
        while m < board.snakes[k].body.len()
            invariant
                k < board.snakes@.len(),
                m <= board.snakes@[k as int].body@.len(),
                forall|a: int, b: int|
                    0 <= a < k && 0 <= b < board.snakes@[a].body@.len() ==> #[trigger] board.snakes@[a].body@[b] != *point,
                forall|b: int| 0 <= b < m ==> #[trigger] board.snakes@[k as int].body@[b] != *point,
            decreases board.snakes@[k as int].body@.len() - m,
        {
            if board.snakes[k].body[m] == *point {
                return true;
            }
            m += 1;
        }
        k += 1;
    }
    false
}

/// Whether `point` lies beyond a side of the board.
pub fn outside_board(board: &Board, point: &Point) -> (outside: bool)
    ensures
        outside == is_outside(*board, *point),
{
    point.x < 0 || point.y < 0 || point.x >= board.width as i16 || point.y >= board.height as i16
}

/// The cell of node `node_id`.
fn get_data(arena: &Arena<(i16, i16)>, node_id: usize) -> (p: Point)
    requires
        arena_intact(*arena),
        1 <= node_id <= arena_nodes(*arena).len(),
    ensures
        p == node_point(arena_nodes(*arena), node_id as int),
{
    let data = arena_data(arena, node_id);
    Point { x: data.0, y: data.1 }
}

proof fn lemma_ancestor_chain_bounds(nodes: Seq<(i16, i16, usize)>, n: int)
    requires
        parents_precede(nodes),
        n <= usize::MAX,
    ensures
        forall|i: int|
            0 <= i < ancestor_chain(nodes, n).len() ==> 1 <= #[trigger] ancestor_chain(nodes, n)[i] <= nodes.len(),
    decreases n,
{
    if n > 0 && n <= nodes.len() && nodes[n - 1].2 < n {
        lemma_ancestor_chain_bounds(nodes, nodes[n - 1].2 as int);
        let rest = ancestor_chain(nodes, nodes[n - 1].2 as int);
        assert(ancestor_chain(nodes, n) == seq![n as usize] + rest);
        assert forall|i: int| 0 <= i < ancestor_chain(nodes, n).len() implies 1 <= #[trigger] ancestor_chain(nodes, n)[i]
            <= nodes.len() by {
            if i > 0 {
                assert(ancestor_chain(nodes, n)[i] == rest[i - 1]);
                assert(1 <= rest[i - 1] <= nodes.len());
            } else {
                assert(ancestor_chain(nodes, n)[0] == n as usize);
            }
        }
    }
}

/// The cells of node `node` and of its ancestors, from `node` up to the root.
fn get_parent_data(arena: &Arena<(i16, i16)>, node: usize) -> (result: Vec<Point>)
    requires
        arena_intact(*arena),
        parents_precede(arena_nodes(*arena)),
        1 <= node <= arena_nodes(*arena).len(),
    ensures
        result@ == chain_points(arena_nodes(*arena), node as int),
{
    let ghost nodes = arena_nodes(*arena);
    let mut result: Vec<Point> = Vec::new();
    let parents = arena_ancestors(arena, node);
    proof {
        lemma_ancestor_chain_bounds(nodes, node as int);
    }
    let mut i: usize = 0;
    while i < parents.len()
        invariant
            nodes == arena_nodes(*arena),
            arena_intact(*arena),
            parents@ == ancestor_chain(nodes, node as int),
            forall|j: int| 0 <= j < parents@.len() ==> 1 <= #[trigger] parents@[j] <= nodes.len(),
            i <= parents@.len(),
            result@ == parents@.take(i as int).map_values(|k: usize| node_point(nodes, k as int)),
        decreases parents@.len() - i,
    {
        let data = get_data(arena, parents[i]);
        result.push(data);
        i += 1;
        assert(result@ =~= parents@.take(i as int).map_values(|k: usize| node_point(nodes, k as int)));
    }
    assert(parents@.take(parents@.len() as int) =~= parents@);
    result
}

/// Whether `point` is the cell of node `node` or of one of its ancestors.
fn parent_already_visited(arena: &Arena<(i16, i16)>, node: usize, point: &Point) -> (visited: bool)
    requires
        arena_intact(*arena),
        parents_precede(arena_nodes(*arena)),
        1 <= node <= arena_nodes(*arena).len(),
    ensures
        visited == chain_points(arena_nodes(*arena), node as int).contains(*point),
{
    let datas = get_parent_data(arena, node);
    let mut i: usize = 0;
    while i < datas.len()
        invariant
            datas@ == chain_points(arena_nodes(*arena), node as int),
            i <= datas@.len(),
            forall|j: int| 0 <= j < i ==> datas@[j] != *point,
        decreases datas@.len() - i,
    {
        if datas[i] == *point {
            assert(datas@[i as int] == *point);
            return true;
        }
        i += 1;
    }
    false
}

/// Every cell of the tree has room for one step in each direction.
pub open spec fn cells_steppable(nodes: Seq<(i16, i16, usize)>) -> bool {
    forall|n: int| 1 <= n <= nodes.len() ==> steppable(#[trigger] node_point(nodes, n))
}

/// Grows the tree below node `parent` depth first, as `tree_grow` says.
fn build_futur_nodes(game: &Game, arena: &mut Arena<(i16, i16)>, parent: usize, Ghost(fuel): Ghost<nat>)
    requires
        arena_intact(*old(arena)),
        parents_precede(arena_nodes(*old(arena))),
        cells_steppable(arena_nodes(*old(arena))),
        1 <= parent <= arena_nodes(*old(arena)).len(),
        fuel + arena_nodes(*old(arena)).len() >= 4002,
        fuel <= futur_fuel(),
    ensures
        arena_intact(*final(arena)),
        parents_precede(arena_nodes(*final(arena))),
        cells_steppable(arena_nodes(*final(arena))),
        arena_nodes(*final(arena)) == tree_grow(game.board, arena_nodes(*old(arena)), parent as int, fuel),
        arena_nodes(*final(arena)).len() >= arena_nodes(*old(arena)).len(),
        arena_nodes(*final(arena)).subrange(0, arena_nodes(*old(arena)).len() as int) == arena_nodes(*old(arena)),
        arena_nodes(*final(arena)).len() <= if arena_nodes(*old(arena)).len() > 4000 {
            arena_nodes(*old(arena)).len() as int
        } else {
            4000 + 4 * fuel as int
        },
    decreases fuel,
{
    if arena_count(arena) > 4000 {
        assert(arena_nodes(*arena).subrange(0, arena_nodes(*arena).len() as int) =~= arena_nodes(*arena));
        return;
    }
    let ghost nodes0 = arena_nodes(*arena);
    let data = get_data(arena, parent);
    assert(steppable(node_point(nodes0, parent as int)));
    let offsets = next_moves();
    let mut d: usize = 0;
    while d < offsets.len()
        invariant
            offsets@ == move_offsets(),
            arena_intact(*arena),
            parents_precede(arena_nodes(*arena)),
            cells_steppable(arena_nodes(*arena)),
            1 <= parent <= nodes0.len(),
            nodes0.len() <= 4000,
            2 <= fuel <= futur_fuel(),
            fuel + nodes0.len() >= 4002,
            d <= 4,
            arena_nodes(*arena).len() >= nodes0.len(),
            arena_nodes(*arena).len() <= 4000 + 4 * (fuel - 1) + d,
            arena_nodes(*arena).subrange(0, nodes0.len() as int) == nodes0,
            data == node_point(nodes0, parent as int),
            steppable(data),
            tree_offsets(game.board, arena_nodes(*arena), parent as int, d as int, (fuel - 1) as nat)
                == tree_offsets(game.board, nodes0, parent as int, 0, (fuel - 1) as nat),
        decreases 4 - d,
    {
        let ghost cur = arena_nodes(*arena);
        let (i, j) = offsets[d];
        let next = Point { x: data.x + i, y: data.y + j };
        assert(node_point(cur, parent as int) == data) by {
            assert(cur[parent - 1] == cur.subrange(0, nodes0.len() as int)[parent - 1]);
        }
        assert(next == offset_point(cur, parent as int, d as int));
        if outside_board(&game.board, &next) {
            d += 1;
            continue;
        }
        if parent_already_visited(arena, parent, &next) {
            d += 1;
            continue;
        }
        if snake_present(&game.board, &next) {
            d += 1;
            continue;
        }
        let next_node = arena_new_node(arena, (next.x, next.y));
        arena_append(arena, parent, next_node);
        let ghost grown = arena_nodes(*arena);
        assert(grown =~= cur.push((next.x, next.y, parent as usize)));
        assert(steppable(next));
        assert(parents_precede(grown)) by {
            assert forall|k: int| 0 <= k < grown.len() implies (#[trigger] grown[k]).2 <= k by {
                if k < cur.len() {
                    assert(grown[k] == cur[k]);
                }
            }
        }
        assert(cells_steppable(grown)) by {
            assert forall|k: int| 1 <= k <= grown.len() implies steppable(#[trigger] node_point(grown, k)) by {
                if k <= cur.len() {
                    assert(node_point(grown, k) == node_point(cur, k));
                }
            }
        }
        build_futur_nodes(game, arena, next_node, Ghost((fuel - 1) as nat));
        proof {
            let after = arena_nodes(*arena);
            assert(after.subrange(0, nodes0.len() as int) =~= nodes0) by {
                assert forall|k: int| 0 <= k < nodes0.len() implies after.subrange(0, nodes0.len() as int)[k]
                    == nodes0[k] by {
                    assert(after[k] == after.subrange(0, grown.len() as int)[k]);
                    assert(grown[k] == cur[k]);
                    assert(cur[k] == cur.subrange(0, nodes0.len() as int)[k]);
                }
            }
        }
        d += 1;
    }
    assert(arena_nodes(*arena) == tree_offsets(game.board, arena_nodes(*arena), parent as int, 4, (fuel - 1) as nat));
}


/// Builds the tree of the cells we can reach from our head without crossing
/// a snake, the board's edge or our own path: every node is a cell next to
/// its parent's, explored depth first (down, right, up, left) until the tree
/// holds more than 4000 nodes.
pub fn build_futur(game: &Game) -> (a: Arena<(i16, i16)>)
    requires
        game.you.body@.len() > 0,
        steppable(game.you.body@[0]),
    ensures
        arena_intact(a),
        parents_precede(arena_nodes(a)),
        arena_nodes(a) == futur_tree(game.board, game.you.body@[0]),
{
    let head = game.you.body[0];
    let mut a = arena_new();
    let root = arena_new_node(&mut a, (head.x, head.y));
    assert(arena_nodes(a) =~= seq![(head.x, head.y, 0usize)]);
    assert(node_point(arena_nodes(a), 1) == head);
    build_futur_nodes(game, &mut a, root, Ghost(futur_fuel()));
    a
}

/// The cells from the root down to node `n`.
pub open spec fn path_to(nodes: Seq<(i16, i16, usize)>, n: int) -> Seq<Point> {
    chain_points(nodes, nodes[n - 1].2 as int).reverse().push(node_point(nodes, n))
}

/// The paths from the root to each of the first `m` nodes that has a parent
/// and no child, in storage order.
pub open spec fn leaf_paths(nodes: Seq<(i16, i16, usize)>, m: int) -> Seq<Seq<Point>>
    decreases m,
{
    if m <= 0 {
        Seq::empty()
    } else {
        let r = leaf_paths(nodes, m - 1);
        if !has_child(nodes, m) && nodes[m - 1].2 != 0 {
            r.push(path_to(nodes, m))
        } else {
            r
        }
    }
}

/// A walk from `head`: it starts on `head`, each step goes to a neighbouring
/// cell, every cell after the first is on the board and free of snakes, and
/// no cell comes twice.
pub open spec fn free_walk(board: Board, head: Point, path: Seq<Point>) -> bool {
    &&& path.len() >= 1
    &&& path[0] == head
    &&& forall|i: int| 0 <= i < path.len() - 1 ==> #[trigger] adjacent(path[i], path[i + 1])
    &&& forall|i: int|
        1 <= i < path.len() ==> !is_outside(board, #[trigger] path[i]) && !on_a_snake(board.snakes@, path[i])
    &&& path.no_duplicates()
}

/// The cells from node `n` up to the root go from neighbour to neighbour,
/// never repeat, and all but the root's are on the board and free of snakes.
proof fn lemma_chain_walk(board: Board, nodes: Seq<(i16, i16, usize)>, n: int)
    requires
        tree_ok(board, nodes),
        nodes.len() <= usize::MAX,
        1 <= n <= nodes.len(),
    ensures
        ({
            let c = chain_points(nodes, n);
            &&& c.len() >= 1
            &&& c[0] == node_point(nodes, n)
            &&& c.last() == node_point(nodes, 1)
            &&& forall|i: int| 0 <= i < c.len() - 1 ==> #[trigger] adjacent(c[i + 1], c[i])
            &&& forall|i: int|
                0 <= i < c.len() - 1 ==> !is_outside(board, #[trigger] c[i]) && !on_a_snake(board.snakes@, c[i])
            &&& c.no_duplicates()
        }),
    decreases n,
{
    let p = nodes[n - 1].2 as int;
    assert(p <= n - 1);
    if n == 1 {
        assert(ancestor_chain(nodes, 0) =~= Seq::<usize>::empty());
        assert(ancestor_chain(nodes, 1) =~= seq![1usize]);
        assert(chain_points(nodes, 1) =~= seq![node_point(nodes, 1)]);
    } else {
        assert(node_ok(board, nodes, n));
        lemma_chain_walk(board, nodes, p);
        let rest = chain_points(nodes, p);
        let c = chain_points(nodes, n);
        assert(ancestor_chain(nodes, n) == seq![n as usize] + ancestor_chain(nodes, p));
        assert(c =~= seq![node_point(nodes, n)] + rest);
        assert forall|i: int| 0 <= i < c.len() - 1 implies #[trigger] adjacent(c[i + 1], c[i]) by {
            if i > 0 {
                assert(c[i] == rest[i - 1] && c[i + 1] == rest[i]);
                assert(adjacent(rest[(i - 1) + 1], rest[i - 1]));
            }
        }
        assert forall|i: int| 0 <= i < c.len() - 1 implies !is_outside(board, #[trigger] c[i]) && !on_a_snake(
            board.snakes@,
            c[i],
        ) by {
            if i > 0 {
                assert(c[i] == rest[i - 1]);
            }
        }
        assert forall|i: int, j: int| 0 <= i < c.len() && 0 <= j < c.len() && i != j implies c[i] != c[j] by {
            if i > 0 && j > 0 {
                assert(c[i] == rest[i - 1] && c[j] == rest[j - 1]);
            } else if i == 0 {
                assert(c[j] == rest[j - 1]);
            } else {
                assert(c[i] == rest[i - 1]);
            }
        }
    }
}

/// The path from the root to a node with a parent is the reverse of the
/// cells from that node up to the root.
proof fn lemma_path_to_reverse(board: Board, nodes: Seq<(i16, i16, usize)>, n: int)
    requires
        tree_ok(board, nodes),
        nodes.len() <= usize::MAX,
        2 <= n <= nodes.len(),
    ensures
        path_to(nodes, n) == chain_points(nodes, n).reverse(),
{
    let p = nodes[n - 1].2 as int;
    assert(node_ok(board, nodes, n));
    assert(ancestor_chain(nodes, n) == seq![n as usize] + ancestor_chain(nodes, p));
    assert(chain_points(nodes, n) =~= seq![node_point(nodes, n)] + chain_points(nodes, p));
    assert(path_to(nodes, n) =~= chain_points(nodes, n).reverse());
}

/// Each path of `leaf_paths(nodes, m)` leads to one of the first `m` nodes,
/// one that has a parent.
proof fn lemma_leaf_paths_origin(nodes: Seq<(i16, i16, usize)>, m: int)
    ensures
        forall|i: int|
            0 <= i < leaf_paths(nodes, m).len() ==> exists|k: int|
                1 <= k <= m && nodes[k - 1].2 != 0 && #[trigger] leaf_paths(nodes, m)[i] == path_to(nodes, k),
    decreases m,
{
    if m > 0 {
        lemma_leaf_paths_origin(nodes, m - 1);
        let r = leaf_paths(nodes, m - 1);
        assert forall|i: int| 0 <= i < leaf_paths(nodes, m).len() implies exists|k: int|
            1 <= k <= m && nodes[k - 1].2 != 0 && #[trigger] leaf_paths(nodes, m)[i] == path_to(nodes, k) by {
            if i < r.len() {
                assert(leaf_paths(nodes, m)[i] == r[i]);
                let k = choose|k: int| 1 <= k <= m - 1 && nodes[k - 1].2 != 0 && r[i] == path_to(nodes, k);
                assert(1 <= k <= m && nodes[k - 1].2 != 0 && leaf_paths(nodes, m)[i] == path_to(nodes, k));
            } else {
                assert(leaf_paths(nodes, m)[i] == path_to(nodes, m));
            }
        }
    }
}

/// Every path that `convert_pathes` reads from the tree of futures is a free
/// walk from our head, of two cells or more.
pub proof fn lemma_futur_paths_are_walks(board: Board, head: Point)
    requires
        steppable(head),
    ensures
        ({
            let t = futur_tree(board, head);
            forall|i: int|
                0 <= i < leaf_paths(t, t.len() as int).len() ==> {
                    &&& free_walk(board, head, #[trigger] leaf_paths(t, t.len() as int)[i])
                    &&& leaf_paths(t, t.len() as int)[i].len() >= 2
                }
        }),
{
    let t = futur_tree(board, head);
    let root = seq![(head.x, head.y, 0usize)];
    assert(node_point(root, 1) == head);
    assert(tree_ok(board, root));
    lemma_tree_grow(board, root, 1, futur_fuel());
    assert(t[0] == t.subrange(0, 1)[0]);
    assert(node_point(t, 1) == head);
    lemma_leaf_paths_origin(t, t.len() as int);
    assert forall|i: int| 0 <= i < leaf_paths(t, t.len() as int).len() implies {
        &&& free_walk(board, head, #[trigger] leaf_paths(t, t.len() as int)[i])
        &&& leaf_paths(t, t.len() as int)[i].len() >= 2
    } by {
        let path = leaf_paths(t, t.len() as int)[i];
        let k = choose|k: int| 1 <= k <= t.len() && t[k - 1].2 != 0 && path == path_to(t, k);
        assert(k >= 2);
        lemma_path_to_reverse(board, t, k);
        lemma_chain_walk(board, t, k);
        let c = chain_points(t, k);
        let l = c.len() as int;
        assert(path == c.reverse());
        assert(node_ok(board, t, k));
        assert(c.len() >= 2) by {
            assert(ancestor_chain(t, k) == seq![k as usize] + ancestor_chain(t, t[k - 1].2 as int));
            lemma_chain_walk(board, t, t[k - 1].2 as int);
        }
        assert forall|j: int| 0 <= j < path.len() - 1 implies #[trigger] adjacent(path[j], path[j + 1]) by {
            assert(path[j] == c[l - 1 - j] && path[j + 1] == c[(l - 2 - j)]);
            assert(adjacent(c[(l - 2 - j) + 1], c[l - 2 - j]));
        }
        assert forall|j: int| 1 <= j < path.len() implies !is_outside(board, #[trigger] path[j]) && !on_a_snake(
            board.snakes@,
            path[j],
        ) by {
            assert(path[j] == c[l - 1 - j]);
        }
        assert forall|a: int, b: int| 0 <= a < path.len() && 0 <= b < path.len() && a != b implies path[a] != path[b] by {
            assert(path[a] == c[l - 1 - a] && path[b] == c[l - 1 - b]);
        }
    }
}

/// The paths from the root to every leaf of the tree, in storage order of the
/// leaves (a lone root gives none).
pub fn convert_pathes(arena: &Arena<(i16, i16)>) -> (pathes: Vec<Vec<Point>>)
    requires
        arena_intact(*arena),
        parents_precede(arena_nodes(*arena)),
    ensures
        pathes@.map_values(|v: Vec<Point>| v@) == leaf_paths(arena_nodes(*arena), arena_nodes(*arena).len() as int),
{
    let ghost nodes = arena_nodes(*arena);
    let count = arena_count(arena);
    let mut pathes: Vec<Vec<Point>> = Vec::new();
    let mut k: usize = 0;
    while k < count
        invariant
            nodes == arena_nodes(*arena),
            arena_intact(*arena),
            parents_precede(nodes),
            count == nodes.len(),
            k <= count,
            pathes@.map_values(|v: Vec<Point>| v@) == leaf_paths(nodes, k as int),
        decreases count - k,
    {
        let n = k + 1;
        if !arena_has_child(arena, n) {
            match arena_parent(arena, n) {
                None => {},
                Some(parent_id) => {
                    assert(parents_precede(nodes) && nodes[n - 1].2 <= n - 1);
                    let up = get_parent_data(arena, parent_id);
                    let mut path: Vec<Point> = Vec::new();
                    let mut i: usize = up.len();
                    while i > 0
                        invariant
                            i <= up@.len(),
                            path@ == up@.subrange(i as int, up@.len() as int).reverse(),
                        decreases i,
                    {
                        i -= 1;
                        path.push(up[i]);
                        assert(path@ =~= up@.subrange(i as int, up@.len() as int).reverse());
                    }
                    assert(up@.subrange(0, up@.len() as int) =~= up@);
                    let leaf = get_data(arena, n);
                    path.push(leaf);
                    let ghost before = pathes@;
                    pathes.push(path);
                    assert(pathes@.map_values(|v: Vec<Point>| v@) =~= before.map_values(|v: Vec<Point>| v@).push(
                        path_to(nodes, n as int),
                    ));
                },
            }
        }
        k += 1;
    }
    pathes
}

/// Orders paths by length.
pub open spec fn path_len_key() -> spec_fn(Vec<Point>) -> int {
    |v: Vec<Point>| v@.len() as int
}

/// The paths to the leaves of the tree, by increasing length (in storage
/// order of the leaves among paths of the same length).
pub fn longest_futur(futur: &Arena<(i16, i16)>) -> (pathes: Vec<Vec<Point>>)
    requires
        arena_intact(*futur),
        parents_precede(arena_nodes(*futur)),
    ensures
        exists|found: Seq<Vec<Point>>|
            found.map_values(|v: Vec<Point>| v@) == leaf_paths(arena_nodes(*futur), arena_nodes(*futur).len() as int)
                && pathes@ == sorted_by(found, path_len_key()),
{
    let mut pathes = convert_pathes(futur);
    let ghost found = pathes@;
    let mut keys: Vec<i128> = Vec::new();
    let mut i: usize = 0;
    while i < pathes.len()
        invariant
            i <= pathes@.len(),
            keys@.len() == i,
            forall|k: int| 0 <= k < i ==> keys@[k] == (path_len_key())(#[trigger] pathes@[k]),
        decreases pathes@.len() - i,
    {
        keys.push(pathes[i].len() as i128);
        i += 1;
    }
    stable_sort(&mut pathes, &mut keys, Ghost(path_len_key()));
    pathes
}

/// The paths worth showing from paths sorted by length: those whose length is
/// the smallest or the greatest, in order.
pub open spec fn shown(pathes: Seq<Seq<Point>>, m: int) -> Seq<Seq<Point>>
    decreases m,
{
    if m <= 0 {
        Seq::empty()
    } else {
        let r = shown(pathes, m - 1);
        let l = pathes[m - 1].len();
        if l < pathes.last().len() && l > pathes[0].len() {
            r
        } else {
            r.push(pathes[m - 1])
        }
    }
}

/// From paths sorted by length, copies of those whose length is the smallest
/// (that of the first) or the greatest (that of the last); none when there
/// is no path.
pub fn extreme_pathes(pathes: &Vec<Vec<Point>>) -> (r: Vec<Vec<Point>>)
    ensures
        r@.map_values(|v: Vec<Point>| v@) == shown(
            pathes@.map_values(|v: Vec<Point>| v@),
            pathes@.len() as int,
        ),
{
    if pathes.len() == 0 {
        let r: Vec<Vec<Point>> = Vec::new();
        assert(r@.map_values(|v: Vec<Point>| v@) =~= Seq::<Seq<Point>>::empty());
        return r;
    }
    let ghost views = pathes@.map_values(|v: Vec<Point>| v@);
    let max = pathes[pathes.len() - 1].len();
    let min = pathes[0].len();
    let mut r: Vec<Vec<Point>> = Vec::new();
    let mut i: usize = 0;
    while i < pathes.len()
        invariant
            views == pathes@.map_values(|v: Vec<Point>| v@),
            views.len() > 0,
            max == views.last().len(),
            min == views[0].len(),
            i <= pathes@.len(),
            r@.map_values(|v: Vec<Point>| v@) == shown(views, i as int),
        decreases pathes@.len() - i,
    {
        let len = pathes[i].len();
        if !(len < max && len > min) {
            let ghost before = r@;
            r.push(copy_points(&pathes[i]));
            assert(r@.map_values(|v: Vec<Point>| v@) =~= before.map_values(|v: Vec<Point>| v@).push(views[i as int]));
        }
        i += 1;
    }
    r
}

} // verus!
