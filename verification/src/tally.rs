use vstd::prelude::*;
use crate::model::{Point, Snake};

verus! {

/// The sum of `f` over the snakes of `s`.
pub open spec fn sum_snakes(s: Seq<Snake>, f: spec_fn(Snake) -> int) -> int
    decreases s.len(),
{
    if s.len() == 0 {
        0
    } else {
        sum_snakes(s.drop_last(), f) + f(s.last())
    }
}

/// How many segments of `body` lie on `pt`.
pub open spec fn seg_count(body: Seq<Point>, pt: Point) -> nat
    decreases body.len(),
{
    if body.len() == 0 {
        0
    } else {
        seg_count(body.drop_last(), pt) + if body.last() == pt { 1nat } else { 0nat }
    }
}

/// The four cells next to `h`: above, below, left and right.
pub open spec fn neighbours(h: Point) -> Seq<(int, int)> {
    seq![(h.x as int, h.y - 1), (h.x as int, h.y + 1), (h.x - 1, h.y as int), (h.x + 1, h.y as int)]
}

/// How many of the first `n` cells of `s` are `pt`.
pub open spec fn count_equal(s: Seq<(int, int)>, pt: Point, n: int) -> int
    decreases n,
{
    if n <= 0 {
        0
    } else {
        count_equal(s, pt, n - 1) + if s[n - 1] == (pt.x as int, pt.y as int) { 1int } else { 0 }
    }
}

/// How many of the four cells next to `h` are `pt`.
pub open spec fn head_hits(h: Point, pt: Point) -> int {
    count_equal(neighbours(h), pt, 4)
}

/// Taking one more snake adds its term to the sum.
pub proof fn lemma_sum_snakes_step(s: Seq<Snake>, f: spec_fn(Snake) -> int, j: int)
    requires
        0 <= j < s.len(),
    ensures
        sum_snakes(s.take(j + 1), f) == sum_snakes(s.take(j), f) + f(s[j]),
{
    assert(s.take(j + 1).drop_last() =~= s.take(j));
}

/// The sum over the whole prefix is the sum over the list.
pub proof fn lemma_sum_snakes_all(s: Seq<Snake>, f: spec_fn(Snake) -> int)
    ensures
        sum_snakes(s.take(s.len() as int), f) == sum_snakes(s, f),
{
    assert(s.take(s.len() as int) =~= s);
}

/// A sum of non-negative terms grows with the prefix it is taken over.
pub proof fn lemma_sum_snakes_mono(s: Seq<Snake>, f: spec_fn(Snake) -> int, j: int)
    requires
        0 <= j <= s.len(),
        forall|x: Snake| #[trigger] f(x) >= 0,
    ensures
        sum_snakes(s.take(j), f) <= sum_snakes(s, f),
    decreases s.len() - j,
{
    if j < s.len() {
        lemma_sum_snakes_step(s, f, j);
        lemma_sum_snakes_mono(s, f, j + 1);
    } else {
        lemma_sum_snakes_all(s, f);
    }
}

/// A sum of non-negative terms is non-negative.
pub proof fn lemma_sum_snakes_nonneg(s: Seq<Snake>, f: spec_fn(Snake) -> int)
    requires
        forall|x: Snake| #[trigger] f(x) >= 0,
    ensures
        sum_snakes(s, f) >= 0,
    decreases s.len(),
{
    if s.len() > 0 {
        lemma_sum_snakes_nonneg(s.drop_last(), f);
    }
}

/// No cell is counted a negative number of times next to a head.
pub proof fn lemma_head_hits_nonneg()
    ensures
        forall|h: Point, pt: Point| #[trigger] head_hits(h, pt) >= 0,
{
    assert forall|h: Point, pt: Point| #[trigger] head_hits(h, pt) >= 0 by {
        lemma_count_equal_mono(neighbours(h), pt, 0, 4);
    }
}

/// Taking one more segment counts it when it lies on `pt`.
pub proof fn lemma_seg_count_step(b: Seq<Point>, pt: Point, k: int)
    requires
        0 <= k < b.len(),
    ensures
        seg_count(b.take(k + 1), pt) == seg_count(b.take(k), pt) + if b[k] == pt { 1nat } else { 0nat },
{
    assert(b.take(k + 1).drop_last() =~= b.take(k));
}

/// A prefix of a body has no more segments on `pt` than the body.
pub proof fn lemma_seg_count_mono(b: Seq<Point>, pt: Point, k: int)
    requires
        0 <= k <= b.len(),
    ensures
        seg_count(b.take(k), pt) <= seg_count(b, pt),
    decreases b.len() - k,
{
    if k < b.len() {
        lemma_seg_count_step(b, pt, k);
        lemma_seg_count_mono(b, pt, k + 1);
    } else {
        assert(b.take(k) =~= b);
    }
}

/// The count grows, from zero, with the number of cells looked at.
pub proof fn lemma_count_equal_mono(s: Seq<(int, int)>, pt: Point, n: int, m: int)
    requires
        0 <= n <= m,
    ensures
        0 <= count_equal(s, pt, n) <= count_equal(s, pt, m),
    decreases m,
{
    if n < m {
        lemma_count_equal_mono(s, pt, n, m - 1);
    } else if n > 0 {
        lemma_count_equal_mono(s, pt, n - 1, n - 1);
    }
}

/// A cell is among the neighbours of `h` at most once, and exactly when it
/// is one step away from `h`.
pub proof fn lemma_head_hits(h: Point, pt: Point)
    ensures
        head_hits(h, pt) == if crate::model::adjacent(h, pt) { 1int } else { 0int },
{
    reveal_with_fuel(count_equal, 5);
}

} // verus!
