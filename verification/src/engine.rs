use vstd::prelude::*;
use crate::choice::{
    enroule_ton_snake, hunt_snakes, prefer_forward_space, ready_to_hunt, space_fits, space_key,
    space_scored, sum_lens,
};
use crate::food::{
    can_eat, eat_my_food, fed, fed_fits, food_distance_key, food_measured, food_shared,
    is_target_food, lemma_target_food_unique, look_for_tail, looks_for_tail, order_by_food_distance,
    prefer_food, prefer_food_distance, tail_bonus, tail_scored,
};
use crate::forward::{cell, dir_at, forward_fits, forward_scored, forward_thinking};
use crate::model::{Game, Point};
use crate::possible::{are_fresh_moves, possibles, steppable, Possible};
use crate::scoring::{
    check_heads, check_snakes, check_tails, check_walls, heads_near, heads_scored, heads_steppable,
    hit_or_leave, kill_heads, kills_near, kills_scored, meet_near, meet_scored, occupancy,
    snakes_scored, tails_at, tails_scored, wall_penalty, walls_scored,
};
use crate::sort::sorted_by;
use crate::tally::sum_snakes;

verus! {

/// The look-ahead depth of `forward_thinking` in a turn.
pub open spec fn look_ahead_depth() -> u8 {
    30
}

/// A candidate once rated by every heuristic up to the food distance:
/// walls, snake bodies, tails, heads, heads to win, heads to meet, food distance.
pub open spec fn rated(p: Possible, game: Game) -> Possible {
    let snakes = game.board.snakes@;
    let yl = game.you.body@.len() as int;
    food_measured(
        meet_scored(
            kills_scored(
                heads_scored(
                    tails_scored(
                        snakes_scored(walls_scored(p, game.board.width, game.board.height), snakes),
                        snakes,
                    ),
                    snakes,
                ),
                snakes,
                yl,
            ),
            snakes,
            game.you.id@,
            yl,
        ),
        game.board.food@,
        game.board.height,
        game.board.width,
    )
}

/// Every running total of the rating of a fresh candidate on cell `pt` stays within `i32`.
pub open spec fn rating_fits_at(game: Game, pt: Point) -> bool {
    let snakes = game.board.snakes@;
    let yl = game.you.body@.len() as int;
    let v1 = 10 + wall_penalty(pt, game.board.width, game.board.height);
    let v2 = v1 - 100 * occupancy(snakes, pt);
    let v3 = v2 + 100 * tails_at(snakes, pt);
    let v4 = v3 - sum_snakes(snakes, heads_near(pt));
    let k = sum_snakes(snakes, kills_near(pt, yl));
    &&& v2 >= i32::MIN
    &&& -100 * occupancy(snakes, pt) >= i32::MIN
    &&& v3 <= i32::MAX
    &&& v4 >= i32::MIN
    &&& v4 + k <= i32::MAX
    &&& k <= i32::MAX
    &&& forall|j: int|
        0 <= j <= snakes.len() ==> {
            &&& i32::MIN <= v4 + k + #[trigger] sum_snakes(snakes.take(j), meet_near(pt, game.you.id@, yl)) <= i32::MAX
            &&& i32::MIN <= sum_snakes(snakes.take(j), meet_near(pt, game.you.id@, yl)) <= i32::MAX
        }
}

proof fn lemma_rating_terms_nonneg(game: Game, pt: Point)
    ensures
        occupancy(game.board.snakes@, pt) >= 0,
        tails_at(game.board.snakes@, pt) >= 0,
        sum_snakes(game.board.snakes@, heads_near(pt)) >= 0,
        sum_snakes(game.board.snakes@, kills_near(pt, game.you.body@.len() as int)) >= 0,
{
    let snakes = game.board.snakes@;
    let yl = game.you.body@.len() as int;
    crate::tally::lemma_head_hits_nonneg();
    assert forall|x: crate::model::Snake| #[trigger] (crate::scoring::segments_on(pt))(x) >= 0 by {}
    assert forall|x: crate::model::Snake| #[trigger] (crate::scoring::tail_on(pt))(x) >= 0 by {}
    assert forall|x: crate::model::Snake| #[trigger] (heads_near(pt))(x) >= 0 by {}
    assert forall|x: crate::model::Snake| #[trigger] (kills_near(pt, yl))(x) >= 0 by {}
    crate::tally::lemma_sum_snakes_nonneg(snakes, crate::scoring::segments_on(pt));
    crate::tally::lemma_sum_snakes_nonneg(snakes, crate::scoring::tail_on(pt));
    crate::tally::lemma_sum_snakes_nonneg(snakes, heads_near(pt));
    crate::tally::lemma_sum_snakes_nonneg(snakes, kills_near(pt, yl));
}

/// `rate_moves` can run on `game`: we have a head with room around it, every
/// snake has a body and room around its head, and the four ratings stay within `i32`.
pub open spec fn rating_fits(game: Game) -> bool {
    &&& game.you.body@.len() > 0
    &&& steppable(game.you.body@[0])
    &&& heads_steppable(game.board.snakes@)
    &&& forall|d: int| 0 <= d < 4 ==> rating_fits_at(game, #[trigger] cell(game.you.body@[0], dir_at(d)))
}

/// Rates the four moves from our head by walls, snake bodies, tails, heads,
/// heads to win, heads to meet and food distance, and orders them by
/// increasing food distance (keeping the order up, down, left, right among
/// equals). The tie-breakers are random.
pub fn rate_moves(game: &Game) -> (ps: Vec<Possible>)
    requires
        rating_fits(*game),
    ensures
        exists|ps0: Seq<Possible>|
            are_fresh_moves(ps0, game.you.body@[0]) && ps@ == sorted_by(
                ps0.map_values(|p: Possible| rated(p, *game)),
                food_distance_key(),
            ),
{
    let ghost snakes = game.board.snakes@;
    let ghost yl = game.you.body@.len() as int;
    let ghost yid = game.you.id@;
    let head = &game.you.body[0];
    let mut possibles = possibles(head);
    let ghost ps0 = possibles@;
    assert forall|d: int| 0 <= d < 4 implies #[trigger] ps0[d].point == cell(*head, dir_at(d)) by {}
    assert forall|d: int| 0 <= d < 4 implies rating_fits_at(*game, #[trigger] ps0[d].point) by {
        assert(rating_fits_at(*game, cell(*head, dir_at(d))));
    }
    check_walls(game, &mut possibles);
    let ghost s1 = possibles@;
    check_snakes(game, &mut possibles);
    let ghost s2 = possibles@;
    check_tails(game, &mut possibles);
    let ghost s3 = possibles@;
    assert forall|k: int| 0 <= k < s3.len() implies #[trigger] s3[k].value - sum_snakes(snakes, heads_near(s3[k].point)) >= i32::MIN by {
        assert(rating_fits_at(*game, ps0[k].point));
        lemma_rating_terms_nonneg(*game, ps0[k].point);
        assert(s1[k] == walls_scored(ps0[k], game.board.width, game.board.height));
        assert(s2[k] == snakes_scored(s1[k], snakes));
        assert(s3[k] == tails_scored(s2[k], snakes));
    }
    check_heads(game, &mut possibles);
    let ghost s4 = possibles@;
    assert forall|k: int| 0 <= k < s4.len() implies crate::scoring::kills_score_fits(#[trigger] s4[k], snakes, yl) by {
        assert(rating_fits_at(*game, ps0[k].point));
        lemma_rating_terms_nonneg(*game, ps0[k].point);
        assert(s1[k] == walls_scored(ps0[k], game.board.width, game.board.height));
        assert(s2[k] == snakes_scored(s1[k], snakes));
        assert(s3[k] == tails_scored(s2[k], snakes));
        assert(s4[k] == heads_scored(s3[k], snakes));
    }
    kill_heads(game, &mut possibles);
    let ghost s5 = possibles@;
    proof {
        assert forall|k: int|
            0 <= k < snakes.len() && #[trigger] snakes[k].id@ != yid implies snakes[k].body@.len() > 0 && steppable(
            snakes[k].body@[0],
        ) by {
            assert(heads_steppable(snakes));
        }
        assert forall|k: int| 0 <= k < 4 implies crate::scoring::meet_score_fits(
            #[trigger] s5[k],
            snakes,
            yid,
            yl,
        ) by {
            assert(rating_fits_at(*game, ps0[k].point));
            lemma_rating_terms_nonneg(*game, ps0[k].point);
            assert(s1[k] == walls_scored(ps0[k], game.board.width, game.board.height));
            assert(s2[k] == snakes_scored(s1[k], snakes));
            assert(s3[k] == tails_scored(s2[k], snakes));
            assert(s4[k] == heads_scored(s3[k], snakes));
            assert(s5[k] == kills_scored(s4[k], snakes, yl));
            assert(s5[k].point == ps0[k].point);
            let pt = ps0[k].point;
            let v4 = 10 + wall_penalty(pt, game.board.width, game.board.height) - 100 * occupancy(snakes, pt) + 100 * tails_at(snakes, pt) - sum_snakes(snakes, heads_near(pt));
            assert(s5[k].value == v4 + sum_snakes(snakes, kills_near(pt, yl)));
            assert(s5[k].hit_or_leave == 0);
            assert forall|j: int| 0 <= j <= snakes.len() implies {
                &&& i32::MIN <= s5[k].value + #[trigger] sum_snakes(snakes.take(j), meet_near(s5[k].point, yid, yl)) <= i32::MAX
                &&& i32::MIN <= s5[k].hit_or_leave + sum_snakes(snakes.take(j), meet_near(s5[k].point, yid, yl)) <= i32::MAX
            } by {
                assert(i32::MIN <= sum_snakes(snakes.take(j), meet_near(ps0[k].point, yid, yl)) <= i32::MAX);
            }
        }
    }
    hit_or_leave(game, &mut possibles);
    prefer_food(game, &mut possibles);
    let ghost s7 = possibles@;
    proof {
        assert(s7 =~= ps0.map_values(|p: Possible| rated(p, *game)));
    }
    order_by_food_distance(&mut possibles);
    possibles
}


/// The candidates with their food shares added.
pub open spec fn shared_all(ps: Seq<Possible>, shares: Seq<i32>) -> Seq<Possible> {
    Seq::new(ps.len(), |k: int| food_shared(ps[k], shares[k]))
}

/// The index of the food we go for, when there is one.
pub open spec fn food_target(game: Game) -> int {
    choose|i: int| is_target_food(game, i)
}

/// The candidates after `eat_my_food`.
pub open spec fn eaten_all(game: Game, ps: Seq<Possible>) -> Seq<Possible> {
    if can_eat(game) {
        Seq::new(ps.len(), |k: int| fed(ps[k], game.you.body@[0], game.board.food@[food_target(game)]))
    } else {
        ps
    }
}

/// The candidates after `look_for_tail`.
pub open spec fn tailed_all(game: Game, ps: Seq<Possible>) -> Seq<Possible> {
    if looks_for_tail(game) {
        Seq::new(ps.len(), |k: int| tail_scored(ps[k], game.you.body@.last(), game.board.height))
    } else {
        ps
    }
}

/// The candidates before `forward_thinking` in `finish_rating`.
pub open spec fn before_look_ahead(game: Game, ps: Seq<Possible>, shares: Seq<i32>) -> Seq<Possible> {
    tailed_all(game, eaten_all(game, shared_all(ps, shares)))
}

/// `after` is `before` once each candidate went through `forward_thinking`.
pub open spec fn looked_ahead(game: Game, before: Seq<Possible>, after: Seq<Possible>) -> bool {
    after.len() == before.len() && forall|k: int|
        0 <= k < before.len() ==> forward_scored(before[k], #[trigger] after[k], game@, look_ahead_depth())
}

/// `finish_rating` can run: every step's arithmetic stays within `i32`.
pub open spec fn finish_fits(game: Game, ps: Seq<Possible>, shares: Seq<i32>) -> bool {
    let s1 = shared_all(ps, shares);
    let s2 = eaten_all(game, s1);
    let s3 = tailed_all(game, s2);
    &&& shares.len() == ps.len()
    &&& forall|k: int| 0 <= k < ps.len() ==> i32::MIN <= #[trigger] ps[k].value + shares[k] <= i32::MAX
    &&& fed_fits(game, s1)
    &&& looks_for_tail(game) ==> forall|k: int|
        0 <= k < s2.len() ==> i32::MIN <= #[trigger] s2[k].value + tail_bonus(
            s2[k],
            game.you.body@.last(),
            game.board.height,
        ) <= i32::MAX
    &&& forall|k: int| 0 <= k < s3.len() ==> forward_fits(#[trigger] s3[k], game@, look_ahead_depth())
    &&& forall|s4: Seq<Possible>| looked_ahead(game, s3, s4) ==> space_fits(#[trigger] sorted_by(s4, space_key()))
}

/// Finishes the rating of the candidates that `rate_moves` ordered: adds the
/// food shares, then rates by the food we reach first, by our tail, by a
/// look-ahead of 30 turns and by free space. Returns whether it is time to
/// fight.
pub fn finish_rating(game: &Game, ps: &mut Vec<Possible>, shares: &Vec<i32>) -> (fight: bool)
    requires
        finish_fits(*game, old(ps)@, shares@),
    ensures
        fight == ready_to_hunt(*game),
        exists|s4: Seq<Possible>|
            looked_ahead(*game, before_look_ahead(*game, old(ps)@, shares@), s4) && final(ps)@.len() == s4.len()
                && forall|k: int|
                0 <= k < s4.len() ==> #[trigger] final(ps)@[k] == space_scored(
                    sorted_by(s4, space_key())[k],
                    sum_lens(sorted_by(s4, space_key())),
                ),
{
    let ghost s0 = ps@;
    prefer_food_distance(game, ps, shares);
    let ghost s1 = ps@;
    assert(s1 =~= shared_all(s0, shares@));
    let _ = eat_my_food(game, ps);
    let ghost s2 = ps@;
    proof {
        if can_eat(*game) {
            let i = choose|i: int|
                is_target_food(*game, i) && s2.len() == s1.len() && forall|k: int|
                    0 <= k < s1.len() ==> #[trigger] s2[k] == fed(s1[k], game.you.body@[0], game.board.food@[i]);
            lemma_target_food_unique(*game, i, food_target(*game));
            assert(s2 =~= eaten_all(*game, s1));
        } else {
            assert(s2 =~= eaten_all(*game, s1));
        }
    }
    look_for_tail(game, ps);
    let ghost s3 = ps@;
    assert(s3 =~= tailed_all(*game, s2));
    forward_thinking(game, ps, 30);
    let ghost s4 = ps@;
    assert(looked_ahead(*game, s3, s4));
    prefer_forward_space(game, ps);
    let fight = hunt_snakes(game, ps);
    enroule_ton_snake(game, ps);
    proof {
        crate::sort::lemma_sorted_by_len(s4, space_key());
        assert(s3 == before_look_ahead(*game, s0, shares@));
        assert(looked_ahead(*game, before_look_ahead(*game, s0, shares@), s4));
    }
    fight
}

} // verus!
