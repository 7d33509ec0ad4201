use vstd::prelude::*;
use crate::model::{abs, manhattan, step, Game, Move, Point, Snake};
use crate::possible::Possible;
use crate::sort::{sorted_by, stable_sort};
use crate::tally::{lemma_sum_snakes_all, lemma_sum_snakes_mono, lemma_sum_snakes_step, sum_snakes};

verus! {

/// The grid distance between two cells, as the scoring computes it in `i32`.
pub fn distance(a: &Point, b: &Point) -> (d: i32)
    ensures
        d == manhattan(*a, *b),
        0 <= d <= 131070,
{
    let (xa, xb) = (a.x as i32, b.x as i32);
    let (ya, yb) = (a.y as i32, b.y as i32);
    let dx = if xa > xb { xa - xb } else { xb - xa };
    let dy = if ya > yb { ya - yb } else { yb - ya };
    dx + dy
}

/// The smallest of `init` and the distances from `pt` to the cells of `food`.
pub open spec fn min_food_distance(food: Seq<Point>, pt: Point, init: int) -> int
    decreases food.len(),
{
    if food.len() == 0 {
        init
    } else {
        let m = min_food_distance(food.drop_last(), pt, init);
        let d = manhattan(pt, food.last());
        if d < m { d } else { m }
    }
}

/// `p` with its distance to the nearest food (at most `height + width`), plus one.
pub open spec fn food_measured(p: Possible, food: Seq<Point>, height: u16, width: u16) -> Possible {
    Possible {
        prefer_food_distance: (min_food_distance(food, p.point, height + width) + 1) as i32,
        ..p
    }
}

proof fn lemma_min_food_distance_bounds(food: Seq<Point>, pt: Point, init: int)
    requires
        init >= 0,
    ensures
        0 <= min_food_distance(food, pt, init) <= init,
    decreases food.len(),
{
    if food.len() > 0 {
        lemma_min_food_distance_bounds(food.drop_last(), pt, init);
    }
}

/// Sets `prefer_food_distance` of each candidate to one more than the distance
/// from its cell to the nearest food, or to `height + width + 1` when that is
/// smaller; the value is never below 1, so it can be divided by.
pub fn prefer_food(game: &Game, ps: &mut Vec<Possible>)
    ensures
        final(ps)@.len() == old(ps)@.len(),
        forall|i: int|
            0 <= i < old(ps)@.len() ==> #[trigger] final(ps)@[i] == food_measured(
                old(ps)@[i],
                game.board.food@,
                game.board.height,
                game.board.width,
            ),
        forall|i: int| 0 <= i < final(ps)@.len() ==> #[trigger] final(ps)@[i].prefer_food_distance >= 1,
{
    let ghost ps0 = ps@;
    let ghost food = game.board.food@;
    let ghost init = game.board.height + game.board.width;
    let mut i: usize = 0;
    while i < ps.len()
        invariant
            food == game.board.food@,
            init == game.board.height + game.board.width,
            i <= ps@.len(),
            ps@.len() == ps0.len(),
            forall|k: int|
                0 <= k < i ==> #[trigger] ps@[k] == food_measured(
                    ps0[k],
                    food,
                    game.board.height,
                    game.board.width,
                ),
            forall|k: int| 0 <= k < i ==> #[trigger] ps@[k].prefer_food_distance >= 1,
            forall|k: int| i <= k < ps0.len() ==> #[trigger] ps@[k] == ps0[k],
        decreases ps0.len() - i,
    {
        let pt = ps[i].point;
        let mut closest: i32 = game.board.height as i32 + game.board.width as i32;
        let mut j: usize = 0;
        while j < game.board.food.len()
            invariant
                food == game.board.food@,
                init == game.board.height + game.board.width,
                j <= food.len(),
                closest == min_food_distance(food.take(j as int), pt, init),
            decreases food.len() - j,
        {
            let distance = distance(&pt, &game.board.food[j]);
            proof {
                assert(food.take(j + 1).drop_last() =~= food.take(j as int));
            }
            if distance < closest {
                closest = distance;
            }
            j += 1;
        }
        proof {
            assert(food.take(food.len() as int) =~= food);
            lemma_min_food_distance_bounds(food, pt, init);
        }
        ps[i].prefer_food_distance = closest + 1;
        i += 1;
    }
}

/// Orders candidates by `prefer_food_distance`.
pub open spec fn food_distance_key() -> spec_fn(Possible) -> int {
    |p: Possible| p.prefer_food_distance as int
}

/// Sorts the candidates by increasing `prefer_food_distance`, keeping the
/// order of those at the same distance.
pub fn order_by_food_distance(ps: &mut Vec<Possible>)
    ensures
        final(ps)@ == sorted_by(old(ps)@, food_distance_key()),
{
    let mut keys: Vec<i128> = Vec::new();
    let mut i: usize = 0;
    while i < ps.len()
        invariant
            i <= ps@.len(),
            keys@.len() == i,
            forall|k: int| 0 <= k < i ==> keys@[k] == (food_distance_key())(#[trigger] ps@[k]),
        decreases ps@.len() - i,
    {
        keys.push(ps[i].prefer_food_distance as i128);
        i += 1;
    }
    stable_sort(ps, &mut keys, Ghost(food_distance_key()));
}

/// `p` with its share of the food reward added.
pub open spec fn food_shared(p: Possible, share: i32) -> Possible {
    Possible { value: (p.value + share) as i32, prefer_food: share, ..p }
}

/// Adds to each candidate its share `shares[i]` of the food reward, and
/// records it in `prefer_food`. The shares are computed, in floating point,
/// from the candidates already ordered by `order_by_food_distance`.
pub fn prefer_food_distance(game: &Game, ps: &mut Vec<Possible>, shares: &Vec<i32>)
    requires
        shares@.len() == old(ps)@.len(),
        forall|i: int|
            0 <= i < old(ps)@.len() ==> i32::MIN <= #[trigger] old(ps)@[i].value + shares@[i] <= i32::MAX,
    ensures
        final(ps)@.len() == old(ps)@.len(),
        forall|i: int| 0 <= i < old(ps)@.len() ==> #[trigger] final(ps)@[i] == food_shared(old(ps)@[i], shares@[i]),
{
    let ghost ps0 = ps@;
    let mut i: usize = 0;
    while i < ps.len()
        invariant
            shares@.len() == ps0.len(),
            i <= ps@.len(),
            ps@.len() == ps0.len(),
            forall|k: int| 0 <= k < i ==> #[trigger] ps@[k] == food_shared(ps0[k], shares@[k]),
            forall|k: int| i <= k < ps0.len() ==> #[trigger] ps@[k] == ps0[k],
            forall|k: int| 0 <= k < ps0.len() ==> i32::MIN <= #[trigger] ps0[k].value + shares@[k] <= i32::MAX,
        decreases ps0.len() - i,
    {
        let assigned = shares[i];
        ps[i].value = ps[i].value + assigned;
        ps[i].prefer_food = assigned;
        i += 1;
    }
}

/// The distance from the cell of `p` to `tail`, capped at twice the height.
pub open spec fn tail_distance(p: Possible, tail: Point, height: u16) -> int {
    let d = manhattan(p.point, tail);
    if d < 2 * height { d } else { 2 * height }
}

/// The bonus of `p` for heading to our tail: 5 minus its capped distance to
/// the tail.
pub open spec fn tail_bonus(p: Possible, tail: Point, height: u16) -> int {
    5 - tail_distance(p, tail, height)
}

/// Whether `look_for_tail` scores at all: a body of three or more and a
/// health of 50 or more.
pub open spec fn looks_for_tail(game: Game) -> bool {
    game.you.body@.len() >= 3 && game.you.health >= 50
}

/// `p` once the bonus for heading to our tail has been added.
pub open spec fn tail_scored(p: Possible, tail: Point, height: u16) -> Possible {
    Possible {
        value: (p.value + tail_bonus(p, tail, height)) as i32,
        look_for_tail: tail_bonus(p, tail, height) as i32,
        ..p
    }
}

/// When our body has three segments or more and our health is 50 or more,
/// rewards each candidate by 5 minus its own distance to our tail (a
/// distance counted at most as twice the height), so that its bonus does not
/// depend on the other candidates nor on their order, and records that bonus
/// in `look_for_tail`; otherwise changes nothing.
pub fn look_for_tail(game: &Game, possibles: &mut Vec<Possible>)
    requires
        looks_for_tail(*game) ==> forall|k: int|
            0 <= k < old(possibles)@.len() ==> i32::MIN <= #[trigger] old(possibles)@[k].value + tail_bonus(
                old(possibles)@[k],
                game.you.body@.last(),
                game.board.height,
            ) <= i32::MAX,
    ensures
        final(possibles)@.len() == old(possibles)@.len(),
        !looks_for_tail(*game) ==> final(possibles)@ == old(possibles)@,
        looks_for_tail(*game) ==> forall|k: int|
            0 <= k < old(possibles)@.len() ==> #[trigger] final(possibles)@[k] == tail_scored(
                old(possibles)@[k],
                game.you.body@.last(),
                game.board.height,
            ),
{
    let body = &game.you.body;
    if body.len() < 3 {
        return;
    }
    if game.you.health < 50 {
        return;
    }
    let ghost ps0 = possibles@;
    let tail = body[body.len() - 1];
    let mut i: usize = 0;
    while i < possibles.len()
        invariant
            looks_for_tail(*game),
            tail == game.you.body@.last(),
            i <= possibles@.len(),
            possibles@.len() == ps0.len(),
            forall|k: int| 0 <= k < i ==> #[trigger] possibles@[k] == tail_scored(ps0[k], tail, game.board.height),
            forall|k: int| i <= k < ps0.len() ==> #[trigger] possibles@[k] == ps0[k],
            forall|k: int|
                0 <= k < ps0.len() ==> i32::MIN <= #[trigger] ps0[k].value + tail_bonus(
                    ps0[k],
                    tail,
                    game.board.height,
                ) <= i32::MAX,
        decreases ps0.len() - i,
    {
        let mut closest: i32 = game.board.height as i32 * 2;
        let total = distance(&possibles[i].point, &tail);
        if total < closest {
            closest = total;
        }
        proof {
            assert(closest == tail_distance(ps0[i as int], tail, game.board.height));
            assert(ps0[i as int].value + tail_bonus(ps0[i as int], tail, game.board.height) <= i32::MAX);
        }
        let value = 5 - closest;
        possibles[i].value = possibles[i].value + value;
        possibles[i].look_for_tail = value;
        i += 1;
    }
}


/// The reason `eat_my_food` gives up: there is no food that we reach first.
#[derive(Debug)]
pub struct Error {}

/// The distance from the head of `s` to `f`.
pub open spec fn head_distance(s: Snake, f: Point) -> int {
    manhattan(s.body@[0], f)
}

/// The smallest distance from a head of the (non-empty) list `s` to `f`.
pub open spec fn min_head_distance(s: Seq<Snake>, f: Point) -> int
    decreases s.len(),
{
    if s.len() <= 1 {
        head_distance(s[0], f)
    } else {
        let m = min_head_distance(s.drop_last(), f);
        let d = head_distance(s.last(), f);
        if d < m { d } else { m }
    }
}

/// 1 for a snake whose head is at distance `d` from `f`, else 0.
pub open spec fn at_distance(f: Point, d: int) -> spec_fn(Snake) -> int {
    |s: Snake| if head_distance(s, f) == d { 1int } else { 0int }
}

/// We alone are the snake nearest to `f`: exactly one head is at the smallest
/// distance from it, and that snake has our identifier.
pub open spec fn is_my_food(game: Game, f: Point) -> bool {
    let snakes = game.board.snakes@;
    &&& snakes.len() > 0
    &&& sum_snakes(snakes, at_distance(f, min_head_distance(snakes, f))) == 1
    &&& exists|k: int|
        0 <= k < snakes.len() && #[trigger] head_distance(snakes[k], f) == min_head_distance(snakes, f)
            && snakes[k].id@ == game.you.id@
}

/// `food[i]` is the food we go for: among the food that is ours, the nearest
/// (from the nearest head), and the first of those in the list.
pub open spec fn is_target_food(game: Game, i: int) -> bool {
    let food = game.board.food@;
    let snakes = game.board.snakes@;
    &&& 0 <= i < food.len()
    &&& is_my_food(game, food[i])
    &&& forall|j: int|
        0 <= j < food.len() && is_my_food(game, #[trigger] food[j]) ==> min_head_distance(snakes, food[i])
            <= min_head_distance(snakes, food[j])
    &&& forall|j: int|
        0 <= j < i && is_my_food(game, #[trigger] food[j]) ==> min_head_distance(snakes, food[j])
            > min_head_distance(snakes, food[i])
}

/// `eat_my_food` succeeds: we have a head, every snake has a body, and some
/// food is ours.
pub open spec fn can_eat(game: Game) -> bool {
    &&& game.you.body@.len() > 0
    &&& forall|k: int| 0 <= k < game.board.snakes@.len() ==> #[trigger] game.board.snakes@[k].body@.len() > 0
    &&& exists|i: int| 0 <= i < game.board.food@.len() && is_my_food(game, #[trigger] game.board.food@[i])
}

/// The move of `p` brings our head `you` closer to `f` along its axis.
pub open spec fn food_bonus(p: Possible, you: Point, f: Point) -> bool {
    match p.dir {
        Move::Up => you.y - f.y > 0,
        Move::Down => f.y - you.y > 0,
        Move::Left => you.x - f.x > 0,
        Move::Right => f.x - you.x > 0,
    }
}

/// `p` once rewarded by 5 (counted in `eat_my_food`) when its move heads to `f`.
pub open spec fn fed(p: Possible, you: Point, f: Point) -> Possible {
    if food_bonus(p, you, f) {
        Possible {
            value: (p.value + 5) as i32,
            eat_my_food: (p.eat_my_food + 1) as i32,
            eat_my_food_value: (p.eat_my_food_value + 5) as i32,
            ..p
        }
    } else {
        p
    }
}

/// The grid distance from the cell `c` to `f`.
pub open spec fn dist_to(c: (int, int), f: Point) -> int {
    abs(c.0 - f.x) + abs(c.1 - f.y)
}

/// Moving our head `you` by `dir` brings it strictly closer to `f`.
pub open spec fn brings_closer(you: Point, dir: Move, f: Point) -> bool {
    dist_to(step(you, dir), f) < manhattan(you, f)
}

/// The food reward goes to a move exactly when it brings our head strictly
/// closer to the food: a move along the other axis, or away, gets nothing.
pub proof fn lemma_food_bonus_brings_closer(p: Possible, you: Point, f: Point)
    ensures
        food_bonus(p, you, f) <==> brings_closer(you, p.dir, f),
        !brings_closer(you, p.dir, f) ==> fed(p, you, f) == p,
        brings_closer(you, p.dir, f) && p.value + 5 <= i32::MAX && p.eat_my_food + 1 <= i32::MAX
            && p.eat_my_food_value + 5 <= i32::MAX ==> {
            &&& fed(p, you, f).value == p.value + 5
            &&& fed(p, you, f).eat_my_food == p.eat_my_food + 1
            &&& fed(p, you, f).eat_my_food_value == p.eat_my_food_value + 5
        },
{
}

/// The rewards of `fed` stay within `i32` for the food we go for.
pub open spec fn fed_fits(game: Game, ps: Seq<Possible>) -> bool {
    forall|i: int, k: int|
        is_target_food(game, i) && 0 <= k < ps.len() && food_bonus(
            #[trigger] ps[k],
            game.you.body@[0],
            #[trigger] game.board.food@[i],
        ) ==> {
            &&& ps[k].value + 5 <= i32::MAX
            &&& ps[k].eat_my_food + 1 <= i32::MAX
            &&& ps[k].eat_my_food_value + 5 <= i32::MAX
        }
}

proof fn lemma_sum_prefix_le(s: Seq<Snake>, f: spec_fn(Snake) -> int, i: int, j: int)
    requires
        0 <= i <= j <= s.len(),
        forall|x: Snake| #[trigger] f(x) >= 0,
    ensures
        sum_snakes(s.take(i), f) <= sum_snakes(s.take(j), f),
{
    lemma_sum_snakes_mono(s.take(j), f, i);
    assert(s.take(j).take(i) =~= s.take(i));
}

/// When exactly one head is at distance `d`, two heads at distance `d` are the same.
proof fn lemma_single_at_distance(s: Seq<Snake>, f: Point, d: int, a: int, b: int)
    requires
        sum_snakes(s, at_distance(f, d)) == 1,
        0 <= a < s.len(),
        0 <= b < s.len(),
        head_distance(s[a], f) == d,
        head_distance(s[b], f) == d,
    ensures
        a == b,
{
    let g = at_distance(f, d);
    assert forall|x: Snake| #[trigger] g(x) >= 0 by {}
    if a != b {
        let (lo, hi) = if a < b { (a, b) } else { (b, a) };
        lemma_sum_snakes_step(s, g, lo);
        lemma_sum_snakes_step(s, g, hi);
        lemma_sum_prefix_le(s, g, 0, lo);
        lemma_sum_prefix_le(s, g, lo + 1, hi);
        lemma_sum_snakes_mono(s, g, hi + 1);
        assert(s.take(0) =~= Seq::<Snake>::empty());
    }
}

/// Heads for the food that we alone are nearest to: among such food, the one
/// nearest to its nearest head, the first one in the list on a tie. Rewards by
/// 5 each candidate whose move brings our head closer to it (counted in
/// `eat_my_food` and `eat_my_food_value`). Fails, changing nothing, when there is
/// no such food, when a snake has no body, or when we have no head.
pub fn eat_my_food(game: &Game, ps: &mut Vec<Possible>) -> (r: Result<(), Error>)
    requires
        fed_fits(*game, old(ps)@),
    ensures
        r is Ok <==> can_eat(*game),
        r is Err ==> final(ps)@ == old(ps)@,
        r is Ok ==> exists|i: int|
            is_target_food(*game, i) && final(ps)@.len() == old(ps)@.len() && forall|k: int|
                0 <= k < old(ps)@.len() ==> #[trigger] final(ps)@[k] == fed(
                    old(ps)@[k],
                    game.you.body@[0],
                    game.board.food@[i],
                ),
        r is Ok ==> exists|i: int|
            is_target_food(*game, i) && forall|k: int|
                0 <= k < old(ps)@.len() ==> {
                    let closer = brings_closer(game.you.body@[0], old(ps)@[k].dir, game.board.food@[i]);
                    &&& (#[trigger] final(ps)@[k]).value == old(ps)@[k].value + if closer { 5int } else { 0int }
                    &&& final(ps)@[k].eat_my_food == old(ps)@[k].eat_my_food + if closer { 1int } else { 0int }
                    &&& final(ps)@[k].dir == old(ps)@[k].dir
                },
{
    let eat_my_food_value: i32 = 5;
    let ghost snakes = game.board.snakes@;
    let ghost food = game.board.food@;
    let nsnakes = game.board.snakes.len();
    let mut best: Option<usize> = None;
    let mut best_distance: i32 = 0;
    let mut fi: usize = 0;
    while fi < game.board.food.len()
        invariant
            snakes == game.board.snakes@,
            food == game.board.food@,
            nsnakes == snakes.len(),
            fi <= food.len(),
            fi > 0 ==> forall|k: int| 0 <= k < snakes.len() ==> #[trigger] snakes[k].body@.len() > 0,
            best is None ==> forall|j: int| 0 <= j < fi ==> !is_my_food(*game, #[trigger] food[j]),
            best matches Some(b) ==> {
                &&& b < fi
                &&& is_my_food(*game, food[b as int])
                &&& best_distance == min_head_distance(snakes, food[b as int])
                &&& forall|j: int|
                    0 <= j < fi && is_my_food(*game, #[trigger] food[j]) ==> min_head_distance(snakes, food[b as int])
                        <= min_head_distance(snakes, food[j])
                &&& forall|j: int|
                    0 <= j < b && is_my_food(*game, #[trigger] food[j]) ==> min_head_distance(snakes, food[j])
                        > min_head_distance(snakes, food[b as int])
            },
        decreases food.len() - fi,
    {
        let f = game.board.food[fi];
        let mut min: i32 = 0;
        let mut j: usize = 0;
        while j < nsnakes
            invariant
                snakes == game.board.snakes@,
                nsnakes == snakes.len(),
                j <= nsnakes,
                forall|k: int| 0 <= k < j ==> #[trigger] snakes[k].body@.len() > 0,
                j > 0 ==> min == min_head_distance(snakes.take(j as int), f),
            decreases nsnakes - j,
        {
            if game.board.snakes[j].body.len() == 0 {
                return Err(Error {});
            }
            let d = distance(&game.board.snakes[j].body[0], &f);
            proof {
                assert(snakes.take(j + 1).drop_last() =~= snakes.take(j as int));
                assert(snakes.take(j + 1).last() == snakes[j as int]);
            }
            if j == 0 || d < min {
                min = d;
            }
            j += 1;
        }
        if nsnakes == 0 {
            return Err(Error {});
        }
        assert(snakes.take(nsnakes as int) =~= snakes);
        let ghost g = at_distance(f, min as int);
        assert forall|x: Snake| #[trigger] g(x) >= 0 by {}
        let mut count: usize = 0;
        let mut first: usize = 0;
        j = 0;
        while j < nsnakes
            invariant
                snakes == game.board.snakes@,
                nsnakes == snakes.len(),
                j <= nsnakes,
                forall|k: int| 0 <= k < snakes.len() ==> #[trigger] snakes[k].body@.len() > 0,
                g == at_distance(f, min as int),
                count == sum_snakes(snakes.take(j as int), g),
                count <= j,
                count > 0 ==> first < j && head_distance(snakes[first as int], f) == min,
            decreases nsnakes - j,
        {
            let d = distance(&game.board.snakes[j].body[0], &f);
            proof {
                lemma_sum_snakes_step(snakes, g, j as int);
            }
            if d == min {
                if count == 0 {
                    first = j;
                }
                count += 1;
            }
            j += 1;
        }
        proof {
            lemma_sum_snakes_all(snakes, g);
        }
        let mine = count == 1 && game.board.snakes[first].id == game.you.id;
        proof {
            if is_my_food(*game, f) {
                let k = choose|k: int|
                    0 <= k < snakes.len() && #[trigger] head_distance(snakes[k], f) == min_head_distance(snakes, f)
                        && snakes[k].id@ == game.you.id@;
                lemma_single_at_distance(snakes, f, min as int, k, first as int);
            }
            if mine {
                assert(head_distance(snakes[first as int], f) == min_head_distance(snakes, f));
            }
            assert(mine == is_my_food(*game, f));
        }
        if mine {
            let better = match best {
                None => true,
                Some(_) => min < best_distance,
            };
            if better {
                best = Some(fi);
                best_distance = min;
            }
        }
        fi += 1;
    }
    let target = match best {
        None => {
            return Err(Error {});
        },
        Some(b) => b,
    };
    if game.you.body.len() == 0 {
        return Err(Error {});
    }
    let food_pt = game.board.food[target];
    let you = game.you.body[0];
    assert(is_target_food(*game, target as int));

    let left = you.x as i32 - food_pt.x as i32 > 0;
    let right = food_pt.x as i32 - you.x as i32 > 0;
    let up = you.y as i32 - food_pt.y as i32 > 0;
    let down = food_pt.y as i32 - you.y as i32 > 0;

    let ghost ps0 = ps@;
    let mut i: usize = 0;
    while i < ps.len()
        invariant
            eat_my_food_value == 5,
            fed_fits(*game, ps0),
            is_target_food(*game, target as int),
            food_pt == game.board.food@[target as int],
            you == game.you.body@[0],
            left == (you.x - food_pt.x > 0),
            right == (food_pt.x - you.x > 0),
            up == (you.y - food_pt.y > 0),
            down == (food_pt.y - you.y > 0),
            i <= ps@.len(),
            ps@.len() == ps0.len(),
            forall|k: int| 0 <= k < i ==> #[trigger] ps@[k] == fed(ps0[k], you, food_pt),
            forall|k: int| i <= k < ps0.len() ==> #[trigger] ps@[k] == ps0[k],
        decreases ps0.len() - i,
    {
        assert(food_bonus(ps0[i as int], you, food_pt) ==> ps0[i as int].value + 5 <= i32::MAX);
        if ps[i].dir == Move::Up && up {
            ps[i].eat_my_food = ps[i].eat_my_food + 1;
            ps[i].eat_my_food_value = ps[i].eat_my_food_value + eat_my_food_value;
            ps[i].value = ps[i].value + eat_my_food_value;
        }
        if ps[i].dir == Move::Down && down {
            ps[i].eat_my_food = ps[i].eat_my_food + 1;
            ps[i].eat_my_food_value = ps[i].eat_my_food_value + eat_my_food_value;
            ps[i].value = ps[i].value + eat_my_food_value;
        }
        if ps[i].dir == Move::Left && left {
            ps[i].eat_my_food = ps[i].eat_my_food + 1;
            ps[i].eat_my_food_value = ps[i].eat_my_food_value + eat_my_food_value;
            ps[i].value = ps[i].value + eat_my_food_value;
        }
        if ps[i].dir == Move::Right && right {
            ps[i].eat_my_food = ps[i].eat_my_food + 1;
            ps[i].eat_my_food_value = ps[i].eat_my_food_value + eat_my_food_value;
            ps[i].value = ps[i].value + eat_my_food_value;
        }
        i += 1;
    }
    proof {
        assert forall|k: int| 0 <= k < ps0.len() implies {
            let closer = brings_closer(you, ps0[k].dir, food_pt);
            &&& (#[trigger] ps@[k]).value == ps0[k].value + if closer { 5int } else { 0int }
            &&& ps@[k].eat_my_food == ps0[k].eat_my_food + if closer { 1int } else { 0int }
            &&& ps@[k].dir == ps0[k].dir
        } by {
            lemma_food_bonus_brings_closer(ps0[k], you, food_pt);
            assert(food_bonus(ps0[k], you, food_pt) ==> ps0[k].value + 5 <= i32::MAX && ps0[k].eat_my_food + 1
                <= i32::MAX && ps0[k].eat_my_food_value + 5 <= i32::MAX);
        }
    }
    Ok(())
}


proof fn lemma_min_head_distance_le(s: Seq<Snake>, f: Point, j: int)
    requires
        0 <= j < s.len(),
    ensures
        min_head_distance(s, f) <= head_distance(s[j], f),
    decreases s.len(),
{
    if s.len() > 1 && j < s.len() - 1 {
        lemma_min_head_distance_le(s.drop_last(), f, j);
        assert(s.drop_last()[j] == s[j]);
    }
}

/// The food we go for is ours as the backlog puts it: the head of a snake
/// with our identifier is nearer to it than the head of any other snake.
pub proof fn lemma_target_food_is_ours(game: Game, i: int)
    requires
        is_target_food(game, i),
    ensures
        ({
            let snakes = game.board.snakes@;
            let f = game.board.food@[i];
            exists|k: int|
                0 <= k < snakes.len() && snakes[k].id@ == game.you.id@ && forall|j: int|
                    0 <= j < snakes.len() && j != k ==> #[trigger] head_distance(snakes[j], f) > head_distance(
                        snakes[k],
                        f,
                    )
        }),
{
    let snakes = game.board.snakes@;
    let f = game.board.food@[i];
    let m = min_head_distance(snakes, f);
    let k = choose|k: int|
        0 <= k < snakes.len() && #[trigger] head_distance(snakes[k], f) == m && snakes[k].id@ == game.you.id@;
    assert forall|j: int| 0 <= j < snakes.len() && j != k implies #[trigger] head_distance(snakes[j], f)
        > head_distance(snakes[k], f) by {
        lemma_min_head_distance_le(snakes, f, j);
        if head_distance(snakes[j], f) == m {
            lemma_single_at_distance(snakes, f, m, j, k);
        }
    }
}

/// There is at most one food that we go for.
pub proof fn lemma_target_food_unique(game: Game, i: int, j: int)
    requires
        is_target_food(game, i),
        is_target_food(game, j),
    ensures
        i == j,
{
    let food = game.board.food@;
    let snakes = game.board.snakes@;
    assert(is_my_food(game, food[i]));
    assert(is_my_food(game, food[j]));
    if i < j {
        assert(min_head_distance(snakes, food[i]) > min_head_distance(snakes, food[j]));
    } else if j < i {
        assert(min_head_distance(snakes, food[j]) > min_head_distance(snakes, food[i]));
    }
}

} // verus!
