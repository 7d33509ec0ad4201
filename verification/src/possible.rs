use vstd::prelude::*;
use crate::model::{adjacent, step, Move, Path, Point};

verus! {

/// A candidate move with the score that each heuristic gave it.
#[derive(Debug)]
pub struct Possible {
    pub point: Point,
    pub dir: Move,
    pub value: i32,
    pub check_walls: i32,
    pub check_snakes: i32,
    pub check_tails: i32,
    pub check_heads: i32,
    pub kill_heads: i32,
    pub prefer_food: i32,
    pub prefer_food_distance: i32,
    pub eat_my_food_value: i32,
    pub eat_my_food: i32,
    pub hit_or_leave: i32,
    pub look_for_tail: i32,
    pub forward_thinking: i32,
    pub forward_pathes: Vec<Path>,
    pub forward_pathes_len: i32,
    pub prefer_forward_space: i32,
    pub rand: u8,
}

/// A freshly made candidate: the cell `(x, y)` reached by `dir`, a value of
/// 10, every partial score at 0, no path kept; its tie-breaker is any byte.
pub open spec fn is_fresh(p: Possible, x: int, y: int, dir: Move) -> bool {
    &&& p.point.x == x
    &&& p.point.y == y
    &&& p.dir == dir
    &&& p.value == 10
    &&& p.check_walls == 0
    &&& p.check_snakes == 0
    &&& p.check_tails == 0
    &&& p.check_heads == 0
    &&& p.kill_heads == 0
    &&& p.prefer_food == 0
    &&& p.prefer_food_distance == 0
    &&& p.eat_my_food_value == 0
    &&& p.eat_my_food == 0
    &&& p.hit_or_leave == 0
    &&& p.look_for_tail == 0
    &&& p.forward_thinking == 0
    &&& p.forward_pathes@.len() == 0
    &&& p.forward_pathes_len == 0
    &&& p.prefer_forward_space == 0
}

/// The four candidates around `head`, in the order up, down, left, right.
pub open spec fn are_fresh_moves(ps: Seq<Possible>, head: Point) -> bool {
    &&& ps.len() == 4
    &&& is_fresh(ps[0], head.x as int, head.y - 1, Move::Up)
    &&& is_fresh(ps[1], head.x as int, head.y + 1, Move::Down)
    &&& is_fresh(ps[2], head.x - 1, head.y as int, Move::Left)
    &&& is_fresh(ps[3], head.x + 1, head.y as int, Move::Right)
}

/// `p` has room for one step in each direction without leaving the range of `i16`.
pub open spec fn steppable(p: Point) -> bool {
    i16::MIN < p.x < i16::MAX && i16::MIN < p.y < i16::MAX
}

/// `rand::random::<u8>()`: a byte drawn from the thread-local generator.
/// Nothing is claimed of the byte: any value may come back.
#[verifier::external_body]
fn random_byte() -> (r: u8) {
    rand::random::<u8>()
}

impl Possible {
    /// The candidate for the cell `(x, y)` reached by `dir`, with a random
    /// tie-breaker.
    pub fn new(x: i16, y: i16, dir: Move) -> (p: Possible)
        ensures
            is_fresh(p, x as int, y as int, dir),
    {
        Possible {
            point: Point { x: x, y: y },
            dir: dir,
            value: 10,
            rand: random_byte(),
            check_walls: 0,
            check_snakes: 0,
            check_tails: 0,
            check_heads: 0,
            prefer_food: 0,
            prefer_food_distance: 0,
            eat_my_food_value: 0,
            eat_my_food: 0,
            hit_or_leave: 0,
            look_for_tail: 0,
            forward_thinking: 0,
            kill_heads: 0,
            forward_pathes: Vec::new(),
            forward_pathes_len: 0,
            prefer_forward_space: 0,
        }
    }
}

/// The four moves from `head`: up, down, left and right.
pub fn possibles(head: &Point) -> (ps: Vec<Possible>)
    requires
        steppable(*head),
    ensures
        are_fresh_moves(ps@, *head),
{
    let mut possibles: Vec<Possible> = Vec::new();
    let up = Possible::new(head.x, head.y - 1, Move::Up);
    let down = Possible::new(head.x, head.y + 1, Move::Down);
    let left = Possible::new(head.x - 1, head.y, Move::Left);
    let right = Possible::new(head.x + 1, head.y, Move::Right);

    possibles.push(up);
    possibles.push(down);
    possibles.push(left);
    possibles.push(right);

    possibles
}

/// The four candidates are the four cells next to the head, one per
/// direction, each reached by its own move.
pub proof fn lemma_fresh_moves_are_neighbours(ps: Seq<Possible>, head: Point)
    requires
        are_fresh_moves(ps, head),
    ensures
        forall|i: int| 0 <= i < 4 ==> adjacent(head, #[trigger] ps[i].point),
        forall|i: int| 0 <= i < 4 ==> step(head, ps[i].dir) == (ps[i].point.x as int, ps[i].point.y as int),
        forall|i: int, j: int| 0 <= i < j < 4 ==> ps[i].dir != ps[j].dir && ps[i].point != ps[j].point,
{
}

} // verus!
