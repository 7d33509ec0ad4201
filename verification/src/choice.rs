use vstd::prelude::*;
use crate::model::{Game, Move, Snake};
use crate::possible::Possible;
use crate::sort::{
    is_sorted_by, lemma_sorted_by_len, lemma_sorted_by_permutes, lemma_sorted_by_sorted, sorted_by,
    stable_sort,
};

verus! {

/// Orders candidates by `forward_pathes_len`.
pub open spec fn space_key() -> spec_fn(Possible) -> int {
    |p: Possible| p.forward_pathes_len as int
}

/// The sum of `forward_pathes_len` over `s`.
pub open spec fn sum_lens(s: Seq<Possible>) -> int
    decreases s.len(),
{
    if s.len() == 0 {
        0
    } else {
        sum_lens(s.drop_last()) + s.last().forward_pathes_len
    }
}

/// Division of `a` by a positive `b`, rounded toward zero as Rust does.
pub open spec fn trunc_div(a: int, b: int) -> int {
    if a >= 0 {
        a / b
    } else {
        -((-a) / b)
    }
}

/// The share of 20 that a candidate gets in proportion to its reachable paths.
pub open spec fn space_share(p: Possible, total: int) -> int {
    trunc_div(20 * p.forward_pathes_len, total)
}

/// `p` once its share of the free-space reward has been added, when the total
/// number of paths `total` is positive; `p` itself otherwise.
pub open spec fn space_scored(p: Possible, total: int) -> Possible {
    if total <= 0 {
        p
    } else {
        Possible {
            value: (p.value + space_share(p, total)) as i32,
            prefer_forward_space: (p.prefer_forward_space + space_share(p, total)) as i32,
            ..p
        }
    }
}

/// The arithmetic of `prefer_forward_space` on the sorted candidates `s` stays within `i32`.
pub open spec fn space_fits(s: Seq<Possible>) -> bool {
    &&& forall|j: int| 0 <= j <= s.len() ==> i32::MIN <= #[trigger] sum_lens(s.take(j)) <= i32::MAX
    &&& sum_lens(s) > 0 ==> forall|k: int|
        0 <= k < s.len() ==> {
            &&& i32::MIN <= 20 * (#[trigger] s[k]).forward_pathes_len <= i32::MAX
            &&& i32::MIN <= s[k].value + space_share(s[k], sum_lens(s)) <= i32::MAX
            &&& i32::MIN <= s[k].prefer_forward_space + space_share(s[k], sum_lens(s)) <= i32::MAX
        }
}

/// Sorts the candidates by increasing `forward_pathes_len` (keeping the order
/// of equal ones), then, when the total of those lengths is positive, gives
/// each candidate `20 * forward_pathes_len / total` (rounded toward zero),
/// added to `value` and to `prefer_forward_space`.
pub fn prefer_forward_space(game: &Game, ps: &mut Vec<Possible>)
    requires
        space_fits(sorted_by(old(ps)@, space_key())),
    ensures
        final(ps)@.len() == old(ps)@.len(),
        forall|k: int|
            0 <= k < old(ps)@.len() ==> #[trigger] final(ps)@[k] == space_scored(
                sorted_by(old(ps)@, space_key())[k],
                sum_lens(sorted_by(old(ps)@, space_key())),
            ),
{
    let ghost ps_old = ps@;
    proof {
        lemma_sorted_by_len(ps_old, space_key());
    }
    let mut keys: Vec<i128> = Vec::new();
    let mut i: usize = 0;
    while i < ps.len()
        invariant
            i <= ps@.len(),
            keys@.len() == i,
            forall|k: int| 0 <= k < i ==> keys@[k] == (space_key())(#[trigger] ps@[k]),
        decreases ps@.len() - i,
    {
        keys.push(ps[i].forward_pathes_len as i128);
        i += 1;
    }
    stable_sort(ps, &mut keys, Ghost(space_key()));
    let ghost ps0 = ps@;
    let mut total: i32 = 0;
    i = 0;
    while i < ps.len()
        invariant
            ps@ == ps0,
            space_fits(ps0),
            i <= ps0.len(),
            total == sum_lens(ps0.take(i as int)),
        decreases ps0.len() - i,
    {
        proof {
            assert(ps0.take(i + 1).drop_last() =~= ps0.take(i as int));
            assert(i32::MIN <= sum_lens(ps0.take(i + 1)) <= i32::MAX);
        }
        total = total + ps[i].forward_pathes_len;
        i += 1;
    }
    assert(ps0.take(ps0.len() as int) =~= ps0);
    let value: i32 = 20;
    i = 0;
    while i < ps.len()
        invariant
            value == 20,
            space_fits(ps0),
            total == sum_lens(ps0),
            i <= ps@.len(),
            ps@.len() == ps0.len(),
            forall|k: int| 0 <= k < i ==> #[trigger] ps@[k] == space_scored(ps0[k], total as int),
            forall|k: int| i <= k < ps0.len() ==> #[trigger] ps@[k] == ps0[k],
        decreases ps0.len() - i,
    {
        if total <= 0 {
            i += 1;
            continue;
        }
        assert(i32::MIN <= 20 * ps0[i as int].forward_pathes_len <= i32::MAX);
        let num = value * ps[i].forward_pathes_len;
        let assigned = if num >= 0 {
            num / total
        } else {
            -((-num) / total)
        };
        ps[i].value = ps[i].value + assigned;
        ps[i].prefer_forward_space = ps[i].prefer_forward_space + assigned;
        i += 1;
    }
}

/// The sum of the shares of 20 that the candidates of `s` get out of `total`.
pub open spec fn sum_shares(s: Seq<Possible>, total: int) -> int
    decreases s.len(),
{
    if s.len() == 0 {
        0
    } else {
        sum_shares(s.drop_last(), total) + space_share(s.last(), total)
    }
}

proof fn lemma_share_times_total(l: int, t: int)
    requires
        l >= 0,
        t > 0,
    ensures
        0 <= (20 * l) / t,
        ((20 * l) / t) * t <= 20 * l,
        l <= t ==> (20 * l) / t <= 20,
{
    assert(0 <= (20 * l) / t) by (nonlinear_arith)
        requires
            l >= 0,
            t > 0,
    ;
    assert(((20 * l) / t) * t <= 20 * l) by (nonlinear_arith)
        requires
            l >= 0,
            t > 0,
    ;
    if l <= t {
        assert((20 * l) / t <= 20) by (nonlinear_arith)
            requires
                0 <= l <= t,
                t > 0,
        ;
    }
}

proof fn lemma_sum_shares_scaled(s: Seq<Possible>, t: int)
    requires
        t > 0,
        forall|k: int| 0 <= k < s.len() ==> (#[trigger] s[k]).forward_pathes_len >= 0,
    ensures
        sum_shares(s, t) * t <= 20 * sum_lens(s),
        sum_lens(s) >= 0,
        sum_shares(s, t) >= 0,
    decreases s.len(),
{
    if s.len() > 0 {
        let r = s.drop_last();
        lemma_sum_shares_scaled(r, t);
        let l = s.last().forward_pathes_len as int;
        lemma_share_times_total(l, t);
        assert(space_share(s.last(), t) == (20 * l) / t);
        assert(sum_shares(s, t) * t == sum_shares(r, t) * t + ((20 * l) / t) * t) by (nonlinear_arith)
            requires
                sum_shares(s, t) == sum_shares(r, t) + (20 * l) / t,
        ;
    }
}

proof fn lemma_len_le_sum(s: Seq<Possible>, k: int)
    requires
        0 <= k < s.len(),
        forall|j: int| 0 <= j < s.len() ==> (#[trigger] s[j]).forward_pathes_len >= 0,
    ensures
        s[k].forward_pathes_len <= sum_lens(s),
    decreases s.len(),
{
    let r = s.drop_last();
    assert(forall|j: int| 0 <= j < r.len() ==> #[trigger] r[j] == s[j]);
    lemma_sum_shares_scaled(r, 1);
    if k < s.len() - 1 {
        lemma_len_le_sum(r, k);
    }
}

/// The free-space reward of 20 is split in proportion to the paths found:
/// when no count is negative and some paths were found, each candidate gets
/// between 0 and 20, and all of them together get 20 at most.
pub proof fn lemma_space_shares_split(s: Seq<Possible>)
    requires
        forall|k: int| 0 <= k < s.len() ==> (#[trigger] s[k]).forward_pathes_len >= 0,
        sum_lens(s) > 0,
    ensures
        forall|k: int| 0 <= k < s.len() ==> 0 <= #[trigger] space_share(s[k], sum_lens(s)) <= 20,
        sum_shares(s, sum_lens(s)) <= 20,
{
    let t = sum_lens(s);
    assert forall|k: int| 0 <= k < s.len() implies 0 <= #[trigger] space_share(s[k], t) <= 20 by {
        lemma_len_le_sum(s, k);
        lemma_share_times_total(s[k].forward_pathes_len as int, t);
    }
    lemma_sum_shares_scaled(s, t);
    let a = sum_shares(s, t);
    assert(a <= 20) by (nonlinear_arith)
        requires
            a * t <= 20 * t,
            t > 0,
    ;
}

/// The two lengths that `hunt_snakes` keeps, snake after snake: a length
/// greater than the first replaces it; otherwise a length greater than the
/// second replaces the second.
pub open spec fn hunt_ranks(snakes: Seq<Snake>) -> (int, int)
    decreases snakes.len(),
{
    if snakes.len() == 0 {
        (0, 0)
    } else {
        let (b, s) = hunt_ranks(snakes.drop_last());
        let l = snakes.last().body@.len() as int;
        if l > b {
            (l, s)
        } else if l > s {
            (b, l)
        } else {
            (b, s)
        }
    }
}

/// We are the longest snake by a margin of 3 or more over the second length kept.
pub open spec fn ready_to_hunt(game: Game) -> bool {
    let (b, s) = hunt_ranks(game.board.snakes@);
    b >= s + 3 && b == game.you.body@.len()
}

proof fn lemma_hunt_ranks_max(snakes: Seq<Snake>)
    ensures
        hunt_ranks(snakes).1 >= 0,
        forall|k: int| 0 <= k < snakes.len() ==> (#[trigger] snakes[k]).body@.len() <= hunt_ranks(snakes).0,
        hunt_ranks(snakes).0 == 0 || exists|k: int|
            0 <= k < snakes.len() && (#[trigger] snakes[k]).body@.len() == hunt_ranks(snakes).0,
    decreases snakes.len(),
{
    if snakes.len() > 0 {
        let r = snakes.drop_last();
        lemma_hunt_ranks_max(r);
        assert forall|k: int| 0 <= k < snakes.len() implies (#[trigger] snakes[k]).body@.len() <= hunt_ranks(snakes).0 by {
            if k < r.len() {
                assert(r[k] == snakes[k]);
            }
        }
        if hunt_ranks(snakes).0 != 0 && hunt_ranks(snakes).0 == hunt_ranks(r).0 {
            let k = choose|k: int| 0 <= k < r.len() && (#[trigger] r[k]).body@.len() == hunt_ranks(r).0;
            assert(r[k] == snakes[k]);
        }
        if hunt_ranks(snakes).0 != hunt_ranks(r).0 {
            assert(snakes[snakes.len() - 1] == snakes.last());
        }
    }
}

/// It is time to fight only when no snake on the board is longer than us,
/// some snake on the board is exactly as long as us (we are there), and we
/// have three segments or more.
pub proof fn lemma_fight_only_as_the_longest(game: Game)
    requires
        ready_to_hunt(game),
    ensures
        forall|k: int|
            0 <= k < game.board.snakes@.len() ==> (#[trigger] game.board.snakes@[k]).body@.len()
                <= game.you.body@.len(),
        exists|k: int|
            0 <= k < game.board.snakes@.len() && (#[trigger] game.board.snakes@[k]).body@.len()
                == game.you.body@.len(),
        game.you.body@.len() >= 3,
{
    lemma_hunt_ranks_max(game.board.snakes@);
}

/// Tells whether we lead the others by 3 segments or more, in which case it
/// is time to fight. The candidates are left as they are.
pub fn hunt_snakes(game: &Game, ps: &mut Vec<Possible>) -> (fight: bool)
    ensures
        final(ps)@ == old(ps)@,
        fight == ready_to_hunt(*game),
        fight ==> forall|k: int|
            0 <= k < game.board.snakes@.len() ==> (#[trigger] game.board.snakes@[k]).body@.len()
                <= game.you.body@.len(),
{
    let ghost snakes = game.board.snakes@;
    let mut best_snake: usize = 0;
    let mut best_second_snake: usize = 0;
    let mut j: usize = 0;
    while j < game.board.snakes.len()
        invariant
            snakes == game.board.snakes@,
            j <= snakes.len(),
            (best_snake as int, best_second_snake as int) == hunt_ranks(snakes.take(j as int)),
        decreases snakes.len() - j,
    {
        proof {
            assert(snakes.take(j + 1).drop_last() =~= snakes.take(j as int));
        }
        let body_len = game.board.snakes[j].body.len();
        if body_len > best_snake {
            best_snake = body_len;
        } else {
            if body_len > best_second_snake {
                best_second_snake = body_len;
            }
        }
        j += 1;
    }
    assert(snakes.take(snakes.len() as int) =~= snakes);
    proof {
        if ready_to_hunt(*game) {
            lemma_fight_only_as_the_longest(*game);
        }
    }
    best_snake >= 3 && best_snake - 3 >= best_second_snake && best_snake == game.you.body.len()
}

/// Reserved for wrapping our body around another snake: changes nothing yet.
pub fn enroule_ton_snake(game: &Game, ps: &mut Vec<Possible>)
    ensures
        final(ps)@ == old(ps)@,
{
}

/// Orders candidates by decreasing value, then by decreasing tie-breaker.
pub open spec fn best_key() -> spec_fn(Possible) -> int {
    |p: Possible| -(p.value * 256 + p.rand)
}

/// Sorts the candidates by decreasing value, then decreasing tie-breaker
/// (keeping the order of candidates equal in both), and returns the move of
/// the first one.
pub fn best_fit(possibles: &mut Vec<Possible>) -> (m: Move)
    requires
        old(possibles)@.len() > 0,
    ensures
        final(possibles)@ == sorted_by(old(possibles)@, best_key()),
        m == final(possibles)@[0].dir,
{
    proof {
        lemma_sorted_by_len(possibles@, best_key());
    }
    let mut keys: Vec<i128> = Vec::new();
    let mut i: usize = 0;
    while i < possibles.len()
        invariant
            i <= possibles@.len(),
            keys@.len() == i,
            forall|k: int| 0 <= k < i ==> keys@[k] == (best_key())(#[trigger] possibles@[k]),
        decreases possibles@.len() - i,
    {
        keys.push(-(possibles[i].value as i128 * 256 + possibles[i].rand as i128));
        i += 1;
    }
    stable_sort(possibles, &mut keys, Ghost(best_key()));
    possibles[0].dir
}

/// The candidate that `best_fit` picks is one of the candidates, and no
/// candidate has a greater value, nor the same value and a greater tie-breaker.
pub proof fn lemma_best_fit_is_best(ps: Seq<Possible>)
    requires
        ps.len() > 0,
    ensures
        ({
            let s = sorted_by(ps, best_key());
            &&& s.len() == ps.len()
            &&& ps.contains(s[0])
            &&& forall|k: int|
                0 <= k < ps.len() ==> {
                    &&& (#[trigger] ps[k]).value <= s[0].value
                    &&& ps[k].value == s[0].value ==> ps[k].rand <= s[0].rand
                }
        }),
{
    let s = sorted_by(ps, best_key());
    lemma_sorted_by_len(ps, best_key());
    lemma_sorted_by_permutes(ps, best_key());
    lemma_sorted_by_sorted(ps, best_key());
    assert(s.to_multiset().count(s[0]) > 0) by {
        vstd::seq_lib::to_multiset_contains(s, s[0]);
    }
    vstd::seq_lib::to_multiset_contains(ps, s[0]);
    assert forall|k: int| 0 <= k < ps.len() implies {
        &&& (#[trigger] ps[k]).value <= s[0].value
        &&& ps[k].value == s[0].value ==> ps[k].rand <= s[0].rand
    } by {
        vstd::seq_lib::to_multiset_contains(ps, ps[k]);
        vstd::seq_lib::to_multiset_contains(s, ps[k]);
        let j = choose|j: int| 0 <= j < s.len() && s[j] == ps[k];
        assert(is_sorted_by(s, best_key()));
        assert((best_key())(s[0]) <= (best_key())(s[j]));
    }
}

} // verus!
