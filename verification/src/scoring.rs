use vstd::prelude::*;
use crate::model::{adjacent, manhattan, Board, Game, Point, Snake};
use crate::possible::{are_fresh_moves, possibles, steppable, Possible};
use crate::tally::{
    count_equal, head_hits, lemma_count_equal_mono, lemma_head_hits, lemma_seg_count_mono, lemma_seg_count_step,
    lemma_head_hits_nonneg, lemma_sum_snakes_all, lemma_sum_snakes_mono, lemma_sum_snakes_nonneg,
    lemma_sum_snakes_step, neighbours, seg_count,
    sum_snakes,
};

verus! {

/// The penalty for a cell: 100 for each side of the board it lies beyond.
pub open spec fn wall_penalty(pt: Point, width: u16, height: u16) -> int {
    (if pt.x < 0 { -100int } else { 0 }) + (if pt.y < 0 { -100int } else { 0 }) + (if pt.x
        >= width as i16 { -100int } else { 0 }) + (if pt.y >= height as i16 { -100int } else { 0 })
}

/// `p` once the walls have been taken into account.
pub open spec fn walls_scored(p: Possible, width: u16, height: u16) -> Possible {
    Possible {
        value: (p.value + wall_penalty(p.point, width, height)) as i32,
        check_walls: wall_penalty(p.point, width, height) as i32,
        ..p
    }
}

/// Penalizes each candidate by 100 for each side of the board it lies beyond,
/// and records that penalty in `check_walls`.
pub fn check_walls(game: &Game, possibles: &mut Vec<Possible>)
    requires
        forall|i: int|
            0 <= i < old(possibles)@.len() ==> old(possibles)@[i].value + wall_penalty(
                #[trigger] old(possibles)@[i].point,
                game.board.width,
                game.board.height,
            ) >= i32::MIN,
    ensures
        final(possibles)@.len() == old(possibles)@.len(),
        forall|i: int|
            0 <= i < old(possibles)@.len() ==> #[trigger] final(possibles)@[i] == walls_scored(
                old(possibles)@[i],
                game.board.width,
                game.board.height,
            ),
{
    let ghost ps0 = possibles@;
    let wall: i32 = 100;
    let mut i: usize = 0;
    while i < possibles.len()
        invariant
            wall == 100,
            i <= possibles@.len(),
            possibles@.len() == ps0.len(),
            forall|k: int| 0 <= k < i ==> #[trigger] possibles@[k] == walls_scored(ps0[k], game.board.width, game.board.height),
            forall|k: int| i <= k < ps0.len() ==> #[trigger] possibles@[k] == ps0[k],
            forall|k: int|
                0 <= k < ps0.len() ==> ps0[k].value + wall_penalty(
                    #[trigger] ps0[k].point,
                    game.board.width,
                    game.board.height,
                ) >= i32::MIN,
        decreases ps0.len() - i,
    {
        let mut check_walls: i32 = 0;
        if possibles[i].point.x < 0 {
            check_walls -= wall;
        }
        if possibles[i].point.y < 0 {
            check_walls -= wall;
        }
        if possibles[i].point.x >= (game.board.width as i16) {
            check_walls -= wall;
        }
        if possibles[i].point.y >= (game.board.height as i16) {
            check_walls -= wall;
        }
        possibles[i].value = possibles[i].value + check_walls;
        possibles[i].check_walls = check_walls;
        i += 1;
    }
}


/// The number of segments of a snake that lie on `pt`.
pub open spec fn segments_on(pt: Point) -> spec_fn(Snake) -> int {
    |s: Snake| seg_count(s.body@, pt) as int
}

/// How many snake segments, over all snakes, lie on `pt`.
pub open spec fn occupancy(snakes: Seq<Snake>, pt: Point) -> int {
    sum_snakes(snakes, segments_on(pt))
}

/// `p` once the snake bodies have been taken into account.
pub open spec fn snakes_scored(p: Possible, snakes: Seq<Snake>) -> Possible {
    Possible {
        value: (p.value - 100 * occupancy(snakes, p.point)) as i32,
        check_snakes: (p.check_snakes - 100 * occupancy(snakes, p.point)) as i32,
        ..p
    }
}

/// The subtraction of `snakes_scored` stays within `i32`.
pub open spec fn snakes_score_fits(p: Possible, snakes: Seq<Snake>) -> bool {
    &&& p.value - 100 * occupancy(snakes, p.point) >= i32::MIN
    &&& p.check_snakes - 100 * occupancy(snakes, p.point) >= i32::MIN
}

/// Penalizes each candidate by 100 for every snake segment on its cell, and
/// records the same amount in `check_snakes`.
pub fn check_snakes(game: &Game, possibles: &mut Vec<Possible>)
    requires
        forall|i: int|
            0 <= i < old(possibles)@.len() ==> snakes_score_fits(
                #[trigger] old(possibles)@[i],
                game.board.snakes@,
            ),
    ensures
        final(possibles)@.len() == old(possibles)@.len(),
        forall|i: int|
            0 <= i < old(possibles)@.len() ==> #[trigger] final(possibles)@[i] == snakes_scored(
                old(possibles)@[i],
                game.board.snakes@,
            ),
{
    let ghost ps0 = possibles@;
    let ghost snakes = game.board.snakes@;
    let check_snakes: i32 = 100;
    let mut i: usize = 0;
    while i < possibles.len()
        invariant
            check_snakes == 100,
            snakes == game.board.snakes@,
            i <= possibles@.len(),
            possibles@.len() == ps0.len(),
            forall|k: int| 0 <= k < i ==> #[trigger] possibles@[k] == snakes_scored(ps0[k], snakes),
            forall|k: int| i <= k < ps0.len() ==> #[trigger] possibles@[k] == ps0[k],
            forall|k: int| 0 <= k < ps0.len() ==> snakes_score_fits(#[trigger] ps0[k], snakes),
        decreases ps0.len() - i,
    {
        let pt = possibles[i].point;
        let ghost f = segments_on(pt);
        let ghost p0 = ps0[i as int];
        assert(snakes_score_fits(p0, snakes));
        let mut j: usize = 0;
        while j < game.board.snakes.len()
            invariant
                check_snakes == 100,
                snakes == game.board.snakes@,
                i < possibles@.len(),
                possibles@.len() == ps0.len(),
                p0 == ps0[i as int],
                pt == p0.point,
                f == segments_on(pt),
                snakes_score_fits(p0, snakes),
                0 <= j <= snakes.len(),
                possibles@[i as int].value == p0.value - 100 * sum_snakes(snakes.take(j as int), f),
                possibles@[i as int].check_snakes == p0.check_snakes - 100 * sum_snakes(snakes.take(j as int), f),
                possibles@[i as int] == (Possible {
                    value: possibles@[i as int].value,
                    check_snakes: possibles@[i as int].check_snakes,
                    ..p0
                }),
                forall|k: int| 0 <= k < i ==> #[trigger] possibles@[k] == snakes_scored(ps0[k], snakes),
                forall|k: int| i < k < ps0.len() ==> #[trigger] possibles@[k] == ps0[k],
            decreases snakes.len() - j,
        {
            let ghost body = snakes[j as int].body@;
            let mut k: usize = 0;
            while k < game.board.snakes[j].body.len()
                invariant
                    check_snakes == 100,
                    snakes == game.board.snakes@,
                    i < possibles@.len(),
                    possibles@.len() == ps0.len(),
                    p0 == ps0[i as int],
                    pt == p0.point,
                    f == segments_on(pt),
                    snakes_score_fits(p0, snakes),
                    0 <= j < snakes.len(),
                    body == snakes[j as int].body@,
                    0 <= k <= body.len(),
                    possibles@[i as int].value == p0.value - 100 * (sum_snakes(snakes.take(j as int), f)
                        + seg_count(body.take(k as int), pt)),
                    possibles@[i as int].check_snakes == p0.check_snakes - 100 * (sum_snakes(
                        snakes.take(j as int),
                        f,
                    ) + seg_count(body.take(k as int), pt)),
                    possibles@[i as int] == (Possible {
                        value: possibles@[i as int].value,
                        check_snakes: possibles@[i as int].check_snakes,
                        ..p0
                    }),
                    forall|m: int| 0 <= m < i ==> #[trigger] possibles@[m] == snakes_scored(ps0[m], snakes),
                    forall|m: int| i < m < ps0.len() ==> #[trigger] possibles@[m] == ps0[m],
                decreases body.len() - k,
            {
                proof {
                    lemma_seg_count_step(body, pt, k as int);
                    lemma_seg_count_mono(body, pt, k + 1);
                    lemma_sum_snakes_step(snakes, f, j as int);
                    lemma_sum_snakes_mono(snakes, f, j + 1);
                    assert(body.take(body.len() as int) =~= body);
                }
                if possibles[i].point == game.board.snakes[j].body[k] {
                    possibles[i].value = possibles[i].value - check_snakes;
                    possibles[i].check_snakes = possibles[i].check_snakes - check_snakes;
                }
                k += 1;
            }
            proof {
                lemma_sum_snakes_step(snakes, f, j as int);
                assert(body.take(body.len() as int) =~= body);
            }
            j += 1;
        }
        proof {
            lemma_sum_snakes_all(snakes, f);
        }
        i += 1;
    }
}


/// 1 when the tail of a snake lies on `pt`, else 0.
pub open spec fn tail_on(pt: Point) -> spec_fn(Snake) -> int {
    |s: Snake| if s.body@.len() > 0 && s.body@.last() == pt { 1int } else { 0int }
}

/// How many snakes have their tail on `pt`.
pub open spec fn tails_at(snakes: Seq<Snake>, pt: Point) -> int {
    sum_snakes(snakes, tail_on(pt))
}

/// `p` once the snake tails have been taken into account.
pub open spec fn tails_scored(p: Possible, snakes: Seq<Snake>) -> Possible {
    Possible {
        value: (p.value + 100 * tails_at(snakes, p.point)) as i32,
        check_tails: if tails_at(snakes, p.point) > 0 { 100 } else { p.check_tails },
        ..p
    }
}

/// Rewards each candidate by 100 for every snake whose tail is on its cell
/// (that cell will be free on the next turn), and sets `check_tails` to 100
/// when there is one.
pub fn check_tails(game: &Game, possibles: &mut Vec<Possible>)
    requires
        forall|i: int|
            0 <= i < old(possibles)@.len() ==> #[trigger] old(possibles)@[i].value + 100 * tails_at(
                game.board.snakes@,
                old(possibles)@[i].point,
            ) <= i32::MAX,
    ensures
        final(possibles)@.len() == old(possibles)@.len(),
        forall|i: int|
            0 <= i < old(possibles)@.len() ==> #[trigger] final(possibles)@[i] == tails_scored(
                old(possibles)@[i],
                game.board.snakes@,
            ),
{
    let ghost ps0 = possibles@;
    let ghost snakes = game.board.snakes@;
    let check_tails: i32 = 100;
    let mut i: usize = 0;
    while i < possibles.len()
        invariant
            check_tails == 100,
            snakes == game.board.snakes@,
            i <= possibles@.len(),
            possibles@.len() == ps0.len(),
            forall|k: int| 0 <= k < i ==> #[trigger] possibles@[k] == tails_scored(ps0[k], snakes),
            forall|k: int| i <= k < ps0.len() ==> #[trigger] possibles@[k] == ps0[k],
            forall|k: int|
                0 <= k < ps0.len() ==> #[trigger] ps0[k].value + 100 * tails_at(snakes, ps0[k].point)
                    <= i32::MAX,
        decreases ps0.len() - i,
    {
        let pt = possibles[i].point;
        let ghost f = tail_on(pt);
        let ghost p0 = ps0[i as int];
        assert(p0.value + 100 * tails_at(snakes, p0.point) <= i32::MAX);
        let mut j: usize = 0;
        while j < game.board.snakes.len()
            invariant
                check_tails == 100,
                snakes == game.board.snakes@,
                i < possibles@.len(),
                possibles@.len() == ps0.len(),
                p0 == ps0[i as int],
                pt == p0.point,
                f == tail_on(pt),
                p0.value + 100 * sum_snakes(snakes, f) <= i32::MAX,
                0 <= j <= snakes.len(),
                possibles@[i as int].value == p0.value + 100 * sum_snakes(snakes.take(j as int), f),
                possibles@[i as int].check_tails == if sum_snakes(snakes.take(j as int), f) > 0 {
                    100
                } else {
                    p0.check_tails
                },
                possibles@[i as int] == (Possible {
                    value: possibles@[i as int].value,
                    check_tails: possibles@[i as int].check_tails,
                    ..p0
                }),
                forall|k: int| 0 <= k < i ==> #[trigger] possibles@[k] == tails_scored(ps0[k], snakes),
                forall|k: int| i < k < ps0.len() ==> #[trigger] possibles@[k] == ps0[k],
            decreases snakes.len() - j,
        {
            proof {
                lemma_sum_snakes_step(snakes, f, j as int);
                lemma_sum_snakes_mono(snakes, f, j + 1);
                lemma_sum_snakes_mono(snakes, f, j as int);
                lemma_sum_snakes_nonneg(snakes.take(j as int), f);
            }
            let len = game.board.snakes[j].body.len();
            if len > 0 {
                let tail = game.board.snakes[j].body[len - 1];
                if possibles[i].point == tail {
                    possibles[i].value = possibles[i].value + check_tails;
                    possibles[i].check_tails = check_tails;
                }
            }
            j += 1;
        }
        proof {
            lemma_sum_snakes_all(snakes, f);
        }
        i += 1;
    }
}

/// The last two segments of `s` lie on `pt`: the snake has just eaten, so
/// its tail stays where it is on the next turn.
pub open spec fn stacked_tail(s: Snake, pt: Point) -> bool {
    &&& s.body@.len() >= 2
    &&& s.body@.last() == pt
    &&& s.body@[s.body@.len() - 2] == pt
}

proof fn lemma_tail_is_a_segment(s: Snake, pt: Point)
    ensures
        (segments_on(pt))(s) >= (tail_on(pt))(s),
        stacked_tail(s, pt) ==> (segments_on(pt))(s) >= 2 && (tail_on(pt))(s) == 1,
{
    let b = s.body@;
    if b.len() > 0 && b.last() == pt {
        assert(seg_count(b, pt) == seg_count(b.drop_last(), pt) + 1);
        if stacked_tail(s, pt) {
            let r = b.drop_last();
            assert(r.last() == pt);
            assert(seg_count(r, pt) == seg_count(r.drop_last(), pt) + 1);
        }
    }
}

proof fn lemma_tails_within_segments(snakes: Seq<Snake>, pt: Point, k: int)
    ensures
        occupancy(snakes, pt) - tails_at(snakes, pt) >= 0,
        tails_at(snakes, pt) >= 0,
        0 <= k < snakes.len() && stacked_tail(snakes[k], pt) ==> occupancy(snakes, pt) - tails_at(snakes, pt)
            >= 1 && tails_at(snakes, pt) >= 1,
        0 <= k < snakes.len() && snakes[k].body@.len() > 0 && snakes[k].body@.last() == pt ==> tails_at(
            snakes,
            pt,
        ) >= 1,
    decreases snakes.len(),
{
    if snakes.len() > 0 {
        let r = snakes.drop_last();
        lemma_tails_within_segments(r, pt, k);
        lemma_tail_is_a_segment(snakes.last(), pt);
        if 0 <= k < r.len() {
            assert(r[k] == snakes[k]);
        }
    }
}

/// A cell where a snake that has just eaten keeps its tail is not free:
/// `check_snakes` then `check_tails` take 100 at least from a candidate on
/// it (100 for each of its segments there, 100 back for its tail), and
/// exactly 100 when those two segments are the only ones on the cell.
pub proof fn lemma_stacked_tail_not_free(p: Possible, snakes: Seq<Snake>, k: int)
    requires
        0 <= k < snakes.len(),
        stacked_tail(snakes[k], p.point),
        snakes_score_fits(p, snakes),
        snakes_scored(p, snakes).value + 100 * tails_at(snakes, p.point) <= i32::MAX,
    ensures
        tails_scored(snakes_scored(p, snakes), snakes).value <= p.value - 100,
        occupancy(snakes, p.point) == 2 ==> tails_scored(snakes_scored(p, snakes), snakes).value == p.value - 100,
{
    lemma_tails_within_segments(snakes, p.point, k);
}

/// A tail that is the only segment on its cell frees it: `check_snakes` then
/// `check_tails` leave a candidate on it with the value it had (100 taken
/// for the segment, 100 given back for the tail).
pub proof fn lemma_lone_tail_is_free(p: Possible, snakes: Seq<Snake>, k: int)
    requires
        0 <= k < snakes.len(),
        snakes[k].body@.len() > 0,
        snakes[k].body@.last() == p.point,
        occupancy(snakes, p.point) == 1,
        snakes_score_fits(p, snakes),
        snakes_scored(p, snakes).value + 100 * tails_at(snakes, p.point) <= i32::MAX,
    ensures
        tails_scored(snakes_scored(p, snakes), snakes).value == p.value,
        tails_at(snakes, p.point) == 1,
{
    lemma_tails_within_segments(snakes, p.point, k);
}

/// `pt` is a cell next to the head of the snake: counted once per such snake.
pub open spec fn heads_near(pt: Point) -> spec_fn(Snake) -> int {
    |s: Snake| head_hits(s.body@[0], pt)
}

/// Every snake has a body and room around its head.
pub open spec fn heads_steppable(snakes: Seq<Snake>) -> bool {
    forall|k: int| 0 <= k < snakes.len() ==> #[trigger] snakes[k].body@.len() > 0 && steppable(snakes[k].body@[0])
}

/// `p` once the cells next to the snake heads have been taken into account.
pub open spec fn heads_scored(p: Possible, snakes: Seq<Snake>) -> Possible {
    let n = sum_snakes(snakes, heads_near(p.point));
    Possible { value: (p.value - n) as i32, check_heads: if n > 0 { 1 } else { p.check_heads }, ..p }
}

/// The four cells of `pothers` are the neighbours of `head`, in order.
proof fn lemma_fresh_points(pothers: Seq<Possible>, head: Point)
    requires
        are_fresh_moves(pothers, head),
    ensures
        forall|po: int|
            0 <= po < 4 ==> (#[trigger] pothers[po].point.x as int, pothers[po].point.y as int)
                == neighbours(head)[po],
{
}

/// Penalizes each candidate by 1 for every snake whose head is next to its
/// cell (a head may move there too), and sets `check_heads` to 1 when there is one.
pub fn check_heads(game: &Game, ps: &mut Vec<Possible>)
    requires
        heads_steppable(game.board.snakes@),
        forall|i: int|
            0 <= i < old(ps)@.len() ==> #[trigger] old(ps)@[i].value - sum_snakes(
                game.board.snakes@,
                heads_near(old(ps)@[i].point),
            ) >= i32::MIN,
    ensures
        final(ps)@.len() == old(ps)@.len(),
        forall|i: int|
            0 <= i < old(ps)@.len() ==> #[trigger] final(ps)@[i] == heads_scored(
                old(ps)@[i],
                game.board.snakes@,
            ),
        forall|i: int|
            0 <= i < old(ps)@.len() ==> {
                let near = sum_snakes(game.board.snakes@, head_next_to(old(ps)@[i].point));
                &&& (#[trigger] final(ps)@[i]).value == old(ps)@[i].value - near
                &&& near > 0 ==> final(ps)@[i].check_heads == 1
                &&& near == 0 ==> final(ps)@[i] == old(ps)@[i]
            },
{
    let ghost ps0 = ps@;
    let ghost snakes = game.board.snakes@;
    let check_heads: i32 = 1;
    let mut i: usize = 0;
    while i < ps.len()
        invariant
            check_heads == 1,
            snakes == game.board.snakes@,
            heads_steppable(snakes),
            i <= ps@.len(),
            ps@.len() == ps0.len(),
            forall|k: int| 0 <= k < i ==> #[trigger] ps@[k] == heads_scored(ps0[k], snakes),
            forall|k: int| i <= k < ps0.len() ==> #[trigger] ps@[k] == ps0[k],
            forall|k: int|
                0 <= k < ps0.len() ==> #[trigger] ps0[k].value - sum_snakes(snakes, heads_near(ps0[k].point))
                    >= i32::MIN,
        decreases ps0.len() - i,
    {
        let pt = ps[i].point;
        let ghost f = heads_near(pt);
        let ghost p0 = ps0[i as int];
        assert(p0.value - sum_snakes(snakes, heads_near(p0.point)) >= i32::MIN);
        proof {
            lemma_head_hits_nonneg();
        }
        let mut j: usize = 0;
        while j < game.board.snakes.len()
            invariant
                check_heads == 1,
                snakes == game.board.snakes@,
                heads_steppable(snakes),
                i < ps@.len(),
                ps@.len() == ps0.len(),
                p0 == ps0[i as int],
                pt == p0.point,
                f == heads_near(pt),
                forall|x: Snake| #[trigger] f(x) >= 0,
                p0.value - sum_snakes(snakes, f) >= i32::MIN,
                0 <= j <= snakes.len(),
                ps@[i as int].value == p0.value - sum_snakes(snakes.take(j as int), f),
                ps@[i as int].check_heads == if sum_snakes(snakes.take(j as int), f) > 0 {
                    1
                } else {
                    p0.check_heads
                },
                ps@[i as int] == (Possible {
                    value: ps@[i as int].value,
                    check_heads: ps@[i as int].check_heads,
                    ..p0
                }),
                forall|k: int| 0 <= k < i ==> #[trigger] ps@[k] == heads_scored(ps0[k], snakes),
                forall|k: int| i < k < ps0.len() ==> #[trigger] ps@[k] == ps0[k],
            decreases snakes.len() - j,
        {
            assert(snakes[j as int].body@.len() > 0 && steppable(snakes[j as int].body@[0]));
            let head = game.board.snakes[j].body[0];
            let ghost nb = neighbours(head);
            let pothers = possibles(&head);
            proof {
                lemma_fresh_points(pothers@, head);
                lemma_sum_snakes_step(snakes, f, j as int);
                lemma_sum_snakes_mono(snakes, f, j + 1);
                lemma_sum_snakes_mono(snakes, f, j as int);
                lemma_sum_snakes_nonneg(snakes.take(j as int), f);
            }
            let mut po: usize = 0;
            while po < pothers.len()
                invariant
                    check_heads == 1,
                    snakes == game.board.snakes@,
                    heads_steppable(snakes),
                    pothers@.len() == 4,
                    forall|q: int|
                        0 <= q < 4 ==> (#[trigger] pothers@[q].point.x as int, pothers@[q].point.y as int)
                            == nb[q],
                    nb == neighbours(head),
                    head == snakes[j as int].body@[0],
                    i < ps@.len(),
                    ps@.len() == ps0.len(),
                    p0 == ps0[i as int],
                    pt == p0.point,
                    f == heads_near(pt),
                    0 <= j < snakes.len(),
                    0 <= po <= 4,
                    p0.value - sum_snakes(snakes.take(j as int + 1), f) >= i32::MIN,
                    sum_snakes(snakes.take(j as int + 1), f) == sum_snakes(snakes.take(j as int), f)
                        + head_hits(head, pt),
                    sum_snakes(snakes.take(j as int), f) >= 0,
                    ps@[i as int].value == p0.value - (sum_snakes(snakes.take(j as int), f)
                        + count_equal(nb, pt, po as int)),
                    ps@[i as int].check_heads == if sum_snakes(snakes.take(j as int), f)
                        + count_equal(nb, pt, po as int) > 0 {
                        1
                    } else {
                        p0.check_heads
                    },
                    ps@[i as int] == (Possible {
                        value: ps@[i as int].value,
                        check_heads: ps@[i as int].check_heads,
                        ..p0
                    }),
                    forall|k: int| 0 <= k < i ==> #[trigger] ps@[k] == heads_scored(ps0[k], snakes),
                    forall|k: int| i < k < ps0.len() ==> #[trigger] ps@[k] == ps0[k],
                decreases 4 - po,
            {
                proof {
                    lemma_count_equal_mono(nb, pt, po + 1, 4);
                    lemma_count_equal_mono(nb, pt, po as int, po as int);
                    assert(pothers@[po as int].point.x == nb[po as int].0);
                }
                if ps[i].point == pothers[po].point {
                    ps[i].value = ps[i].value - check_heads;
                    ps[i].check_heads = check_heads;
                }
                po += 1;
            }
            j += 1;
        }
        proof {
            lemma_sum_snakes_all(snakes, f);
        }
        i += 1;
    }
    proof {
        assert forall|k: int| 0 <= k < snakes.len() implies (#[trigger] snakes[k]).body@.len() > 0 by {
            assert(heads_steppable(snakes));
        }
        assert forall|i: int| 0 <= i < ps0.len() implies {
            let near = sum_snakes(snakes, head_next_to(ps0[i].point));
            &&& (#[trigger] ps@[i]).value == ps0[i].value - near
            &&& near > 0 ==> ps@[i].check_heads == 1
            &&& near == 0 ==> ps@[i] == ps0[i]
        } by {
            lemma_check_heads_counts(ps0[i], snakes);
        }
    }
}


/// 8 for each cell next to the head of a snake shorter than `you_len` that is `pt`.
pub open spec fn kills_near(pt: Point, you_len: int) -> spec_fn(Snake) -> int {
    |s: Snake| if s.body@.len() < you_len { 8 * head_hits(s.body@[0], pt) } else { 0int }
}

/// `p` once the heads of shorter snakes next to its cell have been counted.
pub open spec fn kills_scored(p: Possible, snakes: Seq<Snake>, you_len: int) -> Possible {
    let n = sum_snakes(snakes, kills_near(p.point, you_len));
    Possible { value: (p.value + n) as i32, kill_heads: (p.kill_heads + n) as i32, ..p }
}

/// The additions of `kills_scored` stay within `i32`.
pub open spec fn kills_score_fits(p: Possible, snakes: Seq<Snake>, you_len: int) -> bool {
    &&& p.value + sum_snakes(snakes, kills_near(p.point, you_len)) <= i32::MAX
    &&& p.kill_heads + sum_snakes(snakes, kills_near(p.point, you_len)) <= i32::MAX
}

/// Rewards each candidate by 8 for every snake shorter than us whose head is
/// next to its cell (a head-to-head there is won), and adds the same to `kill_heads`.
pub fn kill_heads(game: &Game, ps: &mut Vec<Possible>)
    requires
        heads_steppable(game.board.snakes@),
        forall|i: int|
            0 <= i < old(ps)@.len() ==> kills_score_fits(
                #[trigger] old(ps)@[i],
                game.board.snakes@,
                game.you.body@.len() as int,
            ),
    ensures
        final(ps)@.len() == old(ps)@.len(),
        forall|i: int|
            0 <= i < old(ps)@.len() ==> #[trigger] final(ps)@[i] == kills_scored(
                old(ps)@[i],
                game.board.snakes@,
                game.you.body@.len() as int,
            ),
        forall|i: int|
            0 <= i < old(ps)@.len() ==> {
                let win = sum_snakes(game.board.snakes@, shorter_near(old(ps)@[i].point, game.you.body@.len() as int));
                &&& (#[trigger] final(ps)@[i]).kill_heads == old(ps)@[i].kill_heads + 8 * win
                &&& final(ps)@[i].value == old(ps)@[i].value + 8 * win
            },
{
    let ghost ps0 = ps@;
    let ghost snakes = game.board.snakes@;
    let ghost yl = game.you.body@.len() as int;
    let kill_heads: i32 = 8;
    proof {
        lemma_head_hits_nonneg();
    }
    let mut i: usize = 0;
    while i < ps.len()
        invariant
            kill_heads == 8,
            snakes == game.board.snakes@,
            yl == game.you.body@.len(),
            heads_steppable(snakes),
            forall|h: Point, q: Point| #[trigger] head_hits(h, q) >= 0,
            i <= ps@.len(),
            ps@.len() == ps0.len(),
            forall|k: int| 0 <= k < i ==> #[trigger] ps@[k] == kills_scored(ps0[k], snakes, yl),
            forall|k: int| i <= k < ps0.len() ==> #[trigger] ps@[k] == ps0[k],
            forall|k: int| 0 <= k < ps0.len() ==> kills_score_fits(#[trigger] ps0[k], snakes, yl),
        decreases ps0.len() - i,
    {
        let pt = ps[i].point;
        let ghost f = kills_near(pt, yl);
        let ghost p0 = ps0[i as int];
        assert(kills_score_fits(p0, snakes, yl));
        let mut j: usize = 0;
        while j < game.board.snakes.len()
            invariant
                kill_heads == 8,
                snakes == game.board.snakes@,
                yl == game.you.body@.len(),
                heads_steppable(snakes),
                forall|h: Point, q: Point| #[trigger] head_hits(h, q) >= 0,
                i < ps@.len(),
                ps@.len() == ps0.len(),
                p0 == ps0[i as int],
                pt == p0.point,
                f == kills_near(pt, yl),
                kills_score_fits(p0, snakes, yl),
                0 <= j <= snakes.len(),
                ps@[i as int].value == p0.value + sum_snakes(snakes.take(j as int), f),
                ps@[i as int].kill_heads == p0.kill_heads + sum_snakes(snakes.take(j as int), f),
                ps@[i as int] == (Possible {
                    value: ps@[i as int].value,
                    kill_heads: ps@[i as int].kill_heads,
                    ..p0
                }),
                forall|k: int| 0 <= k < i ==> #[trigger] ps@[k] == kills_scored(ps0[k], snakes, yl),
                forall|k: int| i < k < ps0.len() ==> #[trigger] ps@[k] == ps0[k],
            decreases snakes.len() - j,
        {
            assert(snakes[j as int].body@.len() > 0 && steppable(snakes[j as int].body@[0]));
            let head = game.board.snakes[j].body[0];
            let ghost nb = neighbours(head);
            let shorter = game.board.snakes[j].body.len() < game.you.body.len();
            let pothers = possibles(&head);
            proof {
                assert forall|x: Snake| #[trigger] f(x) >= 0 by {}
                lemma_fresh_points(pothers@, head);
                lemma_sum_snakes_step(snakes, f, j as int);
                lemma_sum_snakes_mono(snakes, f, j + 1);
                lemma_sum_snakes_nonneg(snakes.take(j as int), f);
            }
            let mut po: usize = 0;
            while po < pothers.len()
                invariant
                    kill_heads == 8,
                    pothers@.len() == 4,
                    forall|q: int|
                        0 <= q < 4 ==> (#[trigger] pothers@[q].point.x as int, pothers@[q].point.y as int)
                            == nb[q],
                    nb == neighbours(head),
                    i < ps@.len(),
                    ps@.len() == ps0.len(),
                    p0 == ps0[i as int],
                    pt == p0.point,
                    0 <= po <= 4,
                    shorter == (snakes[j as int].body@.len() < yl),
                    kills_score_fits(p0, snakes, yl),
                    sum_snakes(snakes.take(j as int + 1), f) <= sum_snakes(snakes, f),
                    sum_snakes(snakes.take(j as int + 1), f) == sum_snakes(snakes.take(j as int), f)
                        + (if shorter { 8 * head_hits(head, pt) } else { 0 }),
                    f == kills_near(pt, yl),
                    sum_snakes(snakes.take(j as int), f) >= 0,
                    ps@[i as int].value == p0.value + sum_snakes(snakes.take(j as int), f) + (if shorter {
                        8 * count_equal(nb, pt, po as int)
                    } else {
                        0
                    }),
                    ps@[i as int].kill_heads == p0.kill_heads + sum_snakes(snakes.take(j as int), f)
                        + (if shorter { 8 * count_equal(nb, pt, po as int) } else { 0 }),
                    ps@[i as int] == (Possible {
                        value: ps@[i as int].value,
                        kill_heads: ps@[i as int].kill_heads,
                        ..p0
                    }),
                    forall|k: int| 0 <= k < i ==> #[trigger] ps@[k] == kills_scored(ps0[k], snakes, yl),
                    forall|k: int| i < k < ps0.len() ==> #[trigger] ps@[k] == ps0[k],
                decreases 4 - po,
            {
                proof {
                    lemma_count_equal_mono(nb, pt, po + 1, 4);
                    lemma_count_equal_mono(nb, pt, po as int, po as int);
                    assert(pothers@[po as int].point.x == nb[po as int].0);
                }
                if ps[i].point == pothers[po].point {
                    if shorter {
                        ps[i].value = ps[i].value + kill_heads;
                        ps[i].kill_heads = ps[i].kill_heads + kill_heads;
                    }
                }
                po += 1;
            }
            j += 1;
        }
        proof {
            lemma_sum_snakes_all(snakes, f);
        }
        i += 1;
    }
    proof {
        assert forall|k: int| 0 <= k < snakes.len() implies (#[trigger] snakes[k]).body@.len() > 0 by {
            assert(heads_steppable(snakes));
        }
        assert forall|i: int| 0 <= i < ps0.len() implies {
            let win = sum_snakes(snakes, shorter_near(ps0[i].point, yl));
            &&& (#[trigger] ps@[i]).kill_heads == ps0[i].kill_heads + 8 * win
            &&& ps@[i].value == ps0[i].value + 8 * win
        } by {
            lemma_kill_heads_counts(ps0[i], snakes, yl);
        }
    }
}

/// For a snake other than us whose head is next to `pt`: 7 when it is
/// shorter than `you_len`, -7 when it is not.
pub open spec fn meet_near(pt: Point, you_id: Seq<char>, you_len: int) -> spec_fn(Snake) -> int {
    |s: Snake|
        if s.id@ == you_id {
            0int
        } else {
            (if s.body@.len() >= you_len { -7int } else { 7int }) * head_hits(s.body@[0], pt)
        }
}

/// `p` once the heads of the other snakes next to its cell have been counted.
pub open spec fn meet_scored(p: Possible, snakes: Seq<Snake>, you_id: Seq<char>, you_len: int) -> Possible {
    let n = sum_snakes(snakes, meet_near(p.point, you_id, you_len));
    Possible { value: (p.value + n) as i32, hit_or_leave: (p.hit_or_leave + n) as i32, ..p }
}

/// Every running total of `meet_scored`, snake after snake, stays within `i32`.
pub open spec fn meet_score_fits(p: Possible, snakes: Seq<Snake>, you_id: Seq<char>, you_len: int) -> bool {
    forall|j: int|
        0 <= j <= snakes.len() ==> {
            &&& i32::MIN <= p.value + #[trigger] sum_snakes(snakes.take(j), meet_near(p.point, you_id, you_len)) <= i32::MAX
            &&& i32::MIN <= p.hit_or_leave + sum_snakes(snakes.take(j), meet_near(p.point, you_id, you_len)) <= i32::MAX
        }
}

/// Every snake other than `you_id` has a body and room around its head.
pub open spec fn other_heads_steppable(snakes: Seq<Snake>, you_id: Seq<char>) -> bool {
    forall|k: int|
        0 <= k < snakes.len() && #[trigger] snakes[k].id@ != you_id ==> snakes[k].body@.len() > 0 && steppable(
            snakes[k].body@[0],
        )
}

/// For every other snake whose head is next to a candidate's cell: rewards
/// the candidate by 7 when that snake is shorter than us (we would win the
/// head-to-head), penalizes it by 7 otherwise; `hit_or_leave` gets the same.
pub fn hit_or_leave(game: &Game, ps: &mut Vec<Possible>)
    requires
        other_heads_steppable(game.board.snakes@, game.you.id@),
        forall|i: int|
            0 <= i < old(ps)@.len() ==> meet_score_fits(
                #[trigger] old(ps)@[i],
                game.board.snakes@,
                game.you.id@,
                game.you.body@.len() as int,
            ),
    ensures
        final(ps)@.len() == old(ps)@.len(),
        forall|i: int|
            0 <= i < old(ps)@.len() ==> #[trigger] final(ps)@[i] == meet_scored(
                old(ps)@[i],
                game.board.snakes@,
                game.you.id@,
                game.you.body@.len() as int,
            ),
        forall|i: int|
            0 <= i < old(ps)@.len() ==> {
                let pt = old(ps)@[i].point;
                let win = sum_snakes(game.board.snakes@, shorter_other_near(pt, game.you.id@, game.you.body@.len() as int));
                let lose = sum_snakes(game.board.snakes@, longer_other_near(pt, game.you.id@, game.you.body@.len() as int));
                &&& (#[trigger] final(ps)@[i]).hit_or_leave == old(ps)@[i].hit_or_leave + 7 * win - 7 * lose
                &&& final(ps)@[i].value == old(ps)@[i].value + 7 * win - 7 * lose
            },
{
    let ghost ps0 = ps@;
    let ghost snakes = game.board.snakes@;
    let ghost yl = game.you.body@.len() as int;
    let ghost yid = game.you.id@;
    proof {
        lemma_head_hits_nonneg();
    }
    let mut i: usize = 0;
    while i < ps.len()
        invariant
            snakes == game.board.snakes@,
            yl == game.you.body@.len(),
            yid == game.you.id@,
            other_heads_steppable(snakes, yid),
            forall|h: Point, q: Point| #[trigger] head_hits(h, q) >= 0,
            i <= ps@.len(),
            ps@.len() == ps0.len(),
            forall|k: int| 0 <= k < i ==> #[trigger] ps@[k] == meet_scored(ps0[k], snakes, yid, yl),
            forall|k: int| i <= k < ps0.len() ==> #[trigger] ps@[k] == ps0[k],
            forall|k: int| 0 <= k < ps0.len() ==> meet_score_fits(#[trigger] ps0[k], snakes, yid, yl),
        decreases ps0.len() - i,
    {
        let pt = ps[i].point;
        let ghost f = meet_near(pt, yid, yl);
        let ghost p0 = ps0[i as int];
        assert(meet_score_fits(p0, snakes, yid, yl));
        let mut j: usize = 0;
        while j < game.board.snakes.len()
            invariant
                snakes == game.board.snakes@,
                yl == game.you.body@.len(),
                yid == game.you.id@,
                other_heads_steppable(snakes, yid),
                forall|h: Point, q: Point| #[trigger] head_hits(h, q) >= 0,
                i < ps@.len(),
                ps@.len() == ps0.len(),
                p0 == ps0[i as int],
                pt == p0.point,
                f == meet_near(pt, yid, yl),
                meet_score_fits(p0, snakes, yid, yl),
                0 <= j <= snakes.len(),
                ps@[i as int].value == p0.value + sum_snakes(snakes.take(j as int), f),
                ps@[i as int].hit_or_leave == p0.hit_or_leave + sum_snakes(snakes.take(j as int), f),
                ps@[i as int] == (Possible {
                    value: ps@[i as int].value,
                    hit_or_leave: ps@[i as int].hit_or_leave,
                    ..p0
                }),
                forall|k: int| 0 <= k < i ==> #[trigger] ps@[k] == meet_scored(ps0[k], snakes, yid, yl),
                forall|k: int| i < k < ps0.len() ==> #[trigger] ps@[k] == ps0[k],
            decreases snakes.len() - j,
        {
            proof {
                lemma_sum_snakes_step(snakes, f, j as int);
                assert(i32::MIN <= p0.value + sum_snakes(snakes.take(j as int), f) <= i32::MAX);
                assert(i32::MIN <= p0.value + sum_snakes(snakes.take(j as int + 1), f) <= i32::MAX);
                assert(i32::MIN <= p0.hit_or_leave + sum_snakes(snakes.take(j as int), f) <= i32::MAX);
                assert(i32::MIN <= p0.hit_or_leave + sum_snakes(snakes.take(j as int + 1), f) <= i32::MAX);
            }
            if game.board.snakes[j].id == game.you.id {
            } else {
                assert(snakes[j as int].body@.len() > 0 && steppable(snakes[j as int].body@[0]));
                let head = game.board.snakes[j].body[0];
                let ghost nb = neighbours(head);
                let pothers = possibles(&head);
                let mut value: i32 = 7;
                if game.board.snakes[j].body.len() >= game.you.body.len() {
                    value = value * -1;
                }
                proof {
                    lemma_fresh_points(pothers@, head);
                }
                let ghost base_v = p0.value + sum_snakes(snakes.take(j as int), f);
                let ghost base_h = p0.hit_or_leave + sum_snakes(snakes.take(j as int), f);
                let mut po: usize = 0;
                while po < pothers.len()
                    invariant
                        pothers@.len() == 4,
                        forall|q: int|
                            0 <= q < 4 ==> (#[trigger] pothers@[q].point.x as int, pothers@[q].point.y as int)
                                == nb[q],
                        nb == neighbours(head),
                        i < ps@.len(),
                        ps@.len() == ps0.len(),
                        p0 == ps0[i as int],
                        pt == p0.point,
                        0 <= po <= 4,
                        value == 7 || value == -7,
                        i32::MIN <= base_v <= i32::MAX,
                        i32::MIN <= base_v + value * head_hits(head, pt) <= i32::MAX,
                        i32::MIN <= base_h <= i32::MAX,
                        i32::MIN <= base_h + value * head_hits(head, pt) <= i32::MAX,
                        ps@[i as int].value == base_v + value * count_equal(nb, pt, po as int),
                        ps@[i as int].hit_or_leave == base_h + value * count_equal(nb, pt, po as int),
                        ps@[i as int] == (Possible {
                            value: ps@[i as int].value,
                            hit_or_leave: ps@[i as int].hit_or_leave,
                            ..p0
                        }),
                        forall|k: int| 0 <= k < i ==> #[trigger] ps@[k] == meet_scored(ps0[k], snakes, yid, yl),
                        forall|k: int| i < k < ps0.len() ==> #[trigger] ps@[k] == ps0[k],
                    decreases 4 - po,
                {
                    proof {
                        lemma_count_equal_mono(nb, pt, po + 1, 4);
                        lemma_count_equal_mono(nb, pt, po as int, po as int);
                        assert(pothers@[po as int].point.x == nb[po as int].0);
                    }
                    if ps[i].point == pothers[po].point {
                        ps[i].value = ps[i].value + value;
                        ps[i].hit_or_leave = ps[i].hit_or_leave + value;
                    }
                    po += 1;
                }
            }
            j += 1;
        }
        proof {
            lemma_sum_snakes_all(snakes, f);
        }
        i += 1;
    }
    proof {
        assert forall|k: int| 0 <= k < snakes.len() implies (#[trigger] snakes[k]).id@ == yid || snakes[k].body@.len() > 0 by {
            if snakes[k].id@ != yid {
                assert(other_heads_steppable(snakes, yid));
            }
        }
        assert forall|i: int| 0 <= i < ps0.len() implies {
            let pt = ps0[i].point;
            let win = sum_snakes(snakes, shorter_other_near(pt, yid, yl));
            let lose = sum_snakes(snakes, longer_other_near(pt, yid, yl));
            &&& (#[trigger] ps@[i]).hit_or_leave == ps0[i].hit_or_leave + 7 * win - 7 * lose
            &&& ps@[i].value == ps0[i].value + 7 * win - 7 * lose
        } by {
            lemma_meet_heads(ps0[i], snakes, yid, yl);
        }
    }
}

/// 1 for a snake other than us, shorter than `you_len`, whose head is next to `pt`.
pub open spec fn shorter_other_near(pt: Point, you_id: Seq<char>, you_len: int) -> spec_fn(Snake) -> int {
    |s: Snake|
        if s.id@ != you_id && s.body@.len() > 0 && s.body@.len() < you_len && adjacent(s.body@[0], pt) {
            1int
        } else {
            0int
        }
}

/// 1 for a snake other than us, not shorter than `you_len`, whose head is next to `pt`.
pub open spec fn longer_other_near(pt: Point, you_id: Seq<char>, you_len: int) -> spec_fn(Snake) -> int {
    |s: Snake|
        if s.id@ != you_id && s.body@.len() > 0 && s.body@.len() >= you_len && adjacent(s.body@[0], pt) {
            1int
        } else {
            0int
        }
}

/// 1 for a snake, shorter than `you_len`, whose head is next to `pt`.
pub open spec fn shorter_near(pt: Point, you_len: int) -> spec_fn(Snake) -> int {
    |s: Snake| if s.body@.len() > 0 && s.body@.len() < you_len && adjacent(s.body@[0], pt) { 1int } else { 0int }
}

/// 1 for a snake whose head is next to `pt`.
pub open spec fn head_next_to(pt: Point) -> spec_fn(Snake) -> int {
    |s: Snake| if s.body@.len() > 0 && adjacent(s.body@[0], pt) { 1int } else { 0int }
}

proof fn lemma_meet_sum(snakes: Seq<Snake>, pt: Point, you_id: Seq<char>, you_len: int)
    requires
        forall|k: int| 0 <= k < snakes.len() ==> (#[trigger] snakes[k]).id@ == you_id || snakes[k].body@.len() > 0,
    ensures
        sum_snakes(snakes, meet_near(pt, you_id, you_len)) == 7 * sum_snakes(
            snakes,
            shorter_other_near(pt, you_id, you_len),
        ) - 7 * sum_snakes(snakes, longer_other_near(pt, you_id, you_len)),
    decreases snakes.len(),
{
    if snakes.len() > 0 {
        let r = snakes.drop_last();
        assert forall|k: int| 0 <= k < r.len() implies (#[trigger] r[k]).id@ == you_id || r[k].body@.len() > 0 by {
            assert(r[k] == snakes[k]);
        }
        lemma_meet_sum(r, pt, you_id, you_len);
        let x = snakes.last();
        assert(snakes[snakes.len() - 1] == x);
        if x.id@ != you_id {
            lemma_head_hits(x.body@[0], pt);
        }
    }
}

proof fn lemma_kills_sum(snakes: Seq<Snake>, pt: Point, you_len: int)
    requires
        forall|k: int| 0 <= k < snakes.len() ==> (#[trigger] snakes[k]).body@.len() > 0,
    ensures
        sum_snakes(snakes, kills_near(pt, you_len)) == 8 * sum_snakes(snakes, shorter_near(pt, you_len)),
        sum_snakes(snakes, heads_near(pt)) == sum_snakes(snakes, head_next_to(pt)),
    decreases snakes.len(),
{
    if snakes.len() > 0 {
        let r = snakes.drop_last();
        assert forall|k: int| 0 <= k < r.len() implies (#[trigger] r[k]).body@.len() > 0 by {
            assert(r[k] == snakes[k]);
        }
        lemma_kills_sum(r, pt, you_len);
        let x = snakes.last();
        assert(snakes[snakes.len() - 1] == x);
        lemma_head_hits(x.body@[0], pt);
    }
}

/// Meeting heads: a candidate gains 7 for each other snake shorter than us
/// whose head is next to its cell (we would win that head-to-head) and loses
/// 7 for each other snake as long as us or longer whose head is next to it
/// (we would lose, or both die); our own head does not count.
pub proof fn lemma_meet_heads(p: Possible, snakes: Seq<Snake>, you_id: Seq<char>, you_len: int)
    requires
        forall|k: int| 0 <= k < snakes.len() ==> (#[trigger] snakes[k]).id@ == you_id || snakes[k].body@.len() > 0,
        meet_score_fits(p, snakes, you_id, you_len),
    ensures
        ({
            let win = sum_snakes(snakes, shorter_other_near(p.point, you_id, you_len));
            let lose = sum_snakes(snakes, longer_other_near(p.point, you_id, you_len));
            &&& meet_scored(p, snakes, you_id, you_len).hit_or_leave == p.hit_or_leave + 7 * win - 7 * lose
            &&& meet_scored(p, snakes, you_id, you_len).value == p.value + 7 * win - 7 * lose
        }),
{
    lemma_meet_sum(snakes, p.point, you_id, you_len);
    assert(snakes.take(snakes.len() as int) =~= snakes);
}

/// Winning heads: a candidate gains 8 for each snake shorter than us whose
/// head is next to its cell, and nothing for the others.
pub proof fn lemma_kill_heads_counts(p: Possible, snakes: Seq<Snake>, you_len: int)
    requires
        forall|k: int| 0 <= k < snakes.len() ==> (#[trigger] snakes[k]).body@.len() > 0,
        kills_score_fits(p, snakes, you_len),
    ensures
        kills_scored(p, snakes, you_len).kill_heads == p.kill_heads + 8 * sum_snakes(
            snakes,
            shorter_near(p.point, you_len),
        ),
        kills_scored(p, snakes, you_len).value == p.value + 8 * sum_snakes(snakes, shorter_near(p.point, you_len)),
{
    lemma_kills_sum(snakes, p.point, you_len);
    assert forall|x: Snake| #[trigger] (shorter_near(p.point, you_len))(x) >= 0 by {}
    lemma_sum_snakes_nonneg(snakes, shorter_near(p.point, you_len));
}

/// Dangerous heads: a candidate loses 1 for each snake (ours included)
/// whose head is next to its cell, and is marked in `check_heads` exactly
/// when there is one.
pub proof fn lemma_check_heads_counts(p: Possible, snakes: Seq<Snake>)
    requires
        forall|k: int| 0 <= k < snakes.len() ==> (#[trigger] snakes[k]).body@.len() > 0,
        p.value - sum_snakes(snakes, heads_near(p.point)) >= i32::MIN,
    ensures
        heads_scored(p, snakes).value == p.value - sum_snakes(snakes, head_next_to(p.point)),
        sum_snakes(snakes, head_next_to(p.point)) > 0 ==> heads_scored(p, snakes).check_heads == 1,
        sum_snakes(snakes, head_next_to(p.point)) == 0 ==> heads_scored(p, snakes) == p,
{
    lemma_kills_sum(snakes, p.point, 0);
    assert forall|x: Snake| #[trigger] (head_next_to(p.point))(x) >= 0 by {}
    lemma_sum_snakes_nonneg(snakes, head_next_to(p.point));
}

} // verus!
