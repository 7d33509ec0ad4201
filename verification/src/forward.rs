use vstd::prelude::*;
use crate::model::{step, BoardView, Game, GameView, Move, Path, Point, Snake, SnakeView};
use crate::possible::{possibles, steppable, Possible};
use crate::scoring::{
    check_snakes, check_tails, check_walls, occupancy, segments_on, snakes_score_fits,
    snakes_scored, tail_on, tails_at, tails_scored, wall_penalty, walls_scored,
};
use crate::tally::{lemma_sum_snakes_nonneg, seg_count, sum_snakes};

verus! {

/// `s` with the last segment of its body removed, if it has one.
pub open spec fn pop_body(s: SnakeView) -> SnakeView {
    SnakeView { body: if s.body.len() > 0 { s.body.drop_last() } else { s.body }, ..s }
}

/// The game one turn later as far as bodies go: every snake, and we, lose
/// the last segment.
pub open spec fn pop_tails(g: GameView) -> GameView {
    GameView {
        board: BoardView { snakes: g.board.snakes.map_values(|s: SnakeView| pop_body(s)), ..g.board },
        you: pop_body(g.you),
        ..g
    }
}

/// `grow_me` over the first `j` snakes of the board.
pub open spec fn grow_upto(g: GameView, pt: Point, j: int) -> GameView
    decreases j,
{
    if j <= 0 {
        g
    } else {
        let h = grow_upto(g, pt, j - 1);
        let s = h.board.snakes[j - 1];
        if s.id == h.you.id {
            let grown = SnakeView { body: seq![pt] + s.body, ..s };
            GameView {
                board: BoardView { snakes: h.board.snakes.update(j - 1, grown), ..h.board },
                you: grown,
                ..h
            }
        } else {
            h
        }
    }
}

/// The game where every snake of the board that has our identifier gets
/// `pt` as its new head, and we become (a copy of) the last such snake.
pub open spec fn grow_me(g: GameView, pt: Point) -> GameView {
    grow_upto(g, pt, g.board.snakes.len() as int)
}

/// Puts `point` in front of the body of every snake of the board that has our
/// identifier, and makes us a copy of that snake.
pub fn append_point_me(futur: &mut Game, point: &Point)
    ensures
        final(futur)@ == grow_me(old(futur)@, *point),
{
    let ghost g0 = old(futur)@;
    let mut j: usize = 0;
    while j < futur.board.snakes.len()
        invariant
            j <= futur.board.snakes@.len(),
            futur.board.snakes@.len() == g0.board.snakes.len(),
            futur@ == grow_upto(g0, *point, j as int),
        decreases g0.board.snakes.len() - j,
    {
        let ghost h = futur@;
        assert(h.board.snakes[j as int] == futur.board.snakes@[j as int]@);
        if futur.board.snakes[j].id == futur.you.id {
            futur.board.snakes[j].body.insert(0, *point);
            futur.you = futur.board.snakes[j].duplicate();
            proof {
                let s = h.board.snakes[j as int];
                let grown = SnakeView { body: seq![*point] + s.body, ..s };
                assert(futur.board.snakes@[j as int].body@ =~= seq![*point] + s.body);
                assert(futur@.board.snakes =~= h.board.snakes.update(j as int, grown));
            }
        }
        j += 1;
    }
}

/// Removes the last segment of every body, ours included.
fn shrink_tails(futur: &mut Game)
    ensures
        final(futur)@ == pop_tails(old(futur)@),
{
    let ghost g0 = old(futur)@;
    let mut j: usize = 0;
    while j < futur.board.snakes.len()
        invariant
            j <= futur.board.snakes@.len(),
            futur.board.snakes@.len() == g0.board.snakes.len(),
            futur@ == (GameView { board: BoardView { snakes: futur@.board.snakes, ..g0.board }, ..g0 }),
            forall|k: int| 0 <= k < j ==> #[trigger] futur@.board.snakes[k] == pop_body(g0.board.snakes[k]),
            forall|k: int| j <= k < g0.board.snakes.len() ==> #[trigger] futur@.board.snakes[k] == g0.board.snakes[k],
        decreases g0.board.snakes.len() - j,
    {
        let ghost before = futur@;
        futur.board.snakes[j].body.pop();
        proof {
            assert(futur@.board.snakes =~= before.board.snakes.update(j as int, pop_body(before.board.snakes[j as int])));
        }
        j += 1;
    }
    futur.you.body.pop();
    assert(futur@.board.snakes =~= pop_tails(g0).board.snakes);
}

/// The paths of `s` at level `level`, in order.
pub open spec fn paths_at_level(s: Seq<Path>, level: u8) -> Seq<Path>
    decreases s.len(),
{
    if s.len() == 0 {
        Seq::empty()
    } else {
        let r = paths_at_level(s.drop_last(), level);
        if s.last().level == level {
            r.push(s.last())
        } else {
            r
        }
    }
}

/// The paths of `pathes` found at level `level`, in the order they were found.
pub fn find_pathes(pathes: &Vec<Path>, level: u8) -> (result: Vec<Path>)
    ensures
        result@ == paths_at_level(pathes@, level),
{
    let mut result: Vec<Path> = Vec::new();
    let mut i: usize = 0;
    while i < pathes.len()
        invariant
            i <= pathes@.len(),
            result@ == paths_at_level(pathes@.take(i as int), level),
        decreases pathes@.len() - i,
    {
        proof {
            assert(pathes@.take(i + 1).drop_last() =~= pathes@.take(i as int));
        }
        if pathes[i].level == level {
            let chosen = pathes[i];
            result.push(chosen);
        }
        i += 1;
    }
    assert(pathes@.take(pathes@.len() as int) =~= pathes@);
    result
}

/// `s` with `x` added at the end unless it is there already.
pub open spec fn add_path(s: Seq<Path>, x: Path) -> Seq<Path> {
    if s.contains(x) {
        s
    } else {
        s.push(x)
    }
}

/// Adds `x` to the set of paths `pathes` (kept in the order of discovery).
fn insert_path(pathes: &mut Vec<Path>, x: Path)
    ensures
        final(pathes)@ == add_path(old(pathes)@, x),
{
    let mut i: usize = 0;
    while i < pathes.len()
        invariant
            i <= pathes@.len(),
            pathes@ == old(pathes)@,
            forall|k: int| 0 <= k < i ==> pathes@[k] != x,
        decreases pathes@.len() - i,
    {
        if pathes[i] == x {
            return;
        }
        i += 1;
    }
    pathes.push(x);
}


/// The sum of `f` over the snakes of `s`.
pub open spec fn sum_views(s: Seq<SnakeView>, f: spec_fn(SnakeView) -> int) -> int
    decreases s.len(),
{
    if s.len() == 0 {
        0
    } else {
        sum_views(s.drop_last(), f) + f(s.last())
    }
}

/// The number of segments of a snake that lie on `pt`.
pub open spec fn view_segments_on(pt: Point) -> spec_fn(SnakeView) -> int {
    |s: SnakeView| seg_count(s.body, pt) as int
}

/// 1 when the tail of a snake lies on `pt`, else 0.
pub open spec fn view_tail_on(pt: Point) -> spec_fn(SnakeView) -> int {
    |s: SnakeView| if s.body.len() > 0 && s.body.last() == pt { 1int } else { 0int }
}

/// A sum over snakes is the same sum over their values.
pub proof fn lemma_sum_views(s: Seq<Snake>, f: spec_fn(Snake) -> int, g: spec_fn(SnakeView) -> int)
    requires
        forall|x: Snake| #[trigger] f(x) == g(x@),
    ensures
        sum_snakes(s, f) == sum_views(s.map_values(|x: Snake| x@), g),
    decreases s.len(),
{
    if s.len() > 0 {
        lemma_sum_views(s.drop_last(), f, g);
        assert(s.map_values(|x: Snake| x@).drop_last() =~= s.drop_last().map_values(|x: Snake| x@));
    }
}

/// The score that `check_walls`, `check_snakes` and `check_tails` give to a
/// fresh candidate on cell `c` of game `g`.
pub open spec fn cell_score(g: GameView, c: Point) -> int {
    10 + wall_penalty(c, g.board.width, g.board.height) - 100 * sum_views(g.board.snakes, view_segments_on(c))
        + 100 * sum_views(g.board.snakes, view_tail_on(c))
}

/// The arithmetic of `cell_score` stays within `i32`.
pub open spec fn cell_fits(g: GameView, c: Point) -> bool {
    let v = 10 + wall_penalty(c, g.board.width, g.board.height);
    let o = sum_views(g.board.snakes, view_segments_on(c));
    let t = sum_views(g.board.snakes, view_tail_on(c));
    &&& v - 100 * o >= i32::MIN
    &&& -100 * o >= i32::MIN
    &&& v - 100 * o + 100 * t <= i32::MAX
}

/// The `d`-th direction: up, down, left, right.
pub open spec fn dir_at(d: int) -> Move {
    if d == 0 {
        Move::Up
    } else if d == 1 {
        Move::Down
    } else if d == 2 {
        Move::Left
    } else {
        Move::Right
    }
}

/// The cell next to `q` in direction `dir`.
pub open spec fn cell(q: Point, dir: Move) -> Point {
    Point { x: step(q, dir).0 as i16, y: step(q, dir).1 as i16 }
}

/// The paths `s` once the first `d` neighbours of `q` (in the order up, down,
/// left, right) that score above 0 in `g` have been added at level `level + 1`.
pub open spec fn expand_cell(g: GameView, s: Seq<Path>, q: Point, level: u8, d: int) -> Seq<Path>
    decreases d,
{
    if d <= 0 {
        s
    } else {
        let prev = expand_cell(g, s, q, level, d - 1);
        let c = cell(q, dir_at(d - 1));
        if cell_score(g, c) > 0 {
            add_path(prev, Path { point: c, level: (level + 1) as u8 })
        } else {
            prev
        }
    }
}

/// The paths `s` once the neighbours of the first `n` paths of `lp` have been added.
pub open spec fn expand_paths(g: GameView, s: Seq<Path>, lp: Seq<Path>, level: u8, n: int) -> Seq<Path>
    decreases n,
{
    if n <= 0 {
        s
    } else {
        expand_cell(g, expand_paths(g, s, lp, level, n - 1), lp[n - 1].point, level, 4)
    }
}

/// The game once each of the first `n` paths of `lp` has become our new head.
pub open spec fn grow_all(g: GameView, lp: Seq<Path>, n: int) -> GameView
    decreases n,
{
    if n <= 0 {
        g
    } else {
        grow_me(grow_all(g, lp, n - 1), lp[n - 1].point)
    }
}

/// The game of the look-ahead after level `level`: tails removed, then the
/// paths of that level put in front of our body.
pub open spec fn next_game(g: GameView, s: Seq<Path>, level: int) -> GameView {
    let lp = paths_at_level(s, level as u8);
    grow_all(pop_tails(g), lp, lp.len() as int)
}

/// The paths after level `level` of the look-ahead.
pub open spec fn next_paths(g: GameView, s: Seq<Path>, level: int) -> Seq<Path> {
    let lp = paths_at_level(s, level as u8);
    expand_paths(next_game(g, s, level), s, lp, level as u8, lp.len() as int)
}

/// All paths found by the look-ahead from level `level` up to `depth`.
pub open spec fn explore(g: GameView, s: Seq<Path>, level: int, depth: int) -> Seq<Path>
    decreases depth - level,
{
    if level >= depth {
        s
    } else {
        explore(next_game(g, s, level), next_paths(g, s, level), level + 1, depth)
    }
}

/// Every cell that the look-ahead scores has room around it and a score within `i32`.
pub open spec fn level_fits(g: GameView, s: Seq<Path>, level: int) -> bool {
    let lp = paths_at_level(s, level as u8);
    forall|i: int|
        0 <= i < lp.len() ==> steppable(#[trigger] lp[i].point) && forall|d: int|
            0 <= d < 4 ==> cell_fits(next_game(g, s, level), #[trigger] cell(lp[i].point, dir_at(d)))
}

/// `level_fits` at every level of the look-ahead.
pub open spec fn explore_fits(g: GameView, s: Seq<Path>, level: int, depth: int) -> bool
    decreases depth - level,
{
    if level >= depth {
        true
    } else {
        level_fits(g, s, level) && explore_fits(next_game(g, s, level), next_paths(g, s, level), level + 1, depth)
    }
}

/// The candidate `f` is on the `d`-th neighbour of `q` and has its score in `g`.
pub open spec fn scored_cell(f: Possible, g: GameView, q: Point, d: int) -> bool {
    f.point == cell(q, dir_at(d)) && f.value == cell_score(g, cell(q, dir_at(d)))
}

/// Adds, for each path of `lp` in order, each neighbour of its cell (up,
/// down, left, right) that scores above 0 on `futur`, at level `level + 1`.
fn expand_level(futur: &Game, pathes: &mut Vec<Path>, lp: &Vec<Path>, level: u8)
    requires
        level < 255,
        forall|i: int|
            0 <= i < lp@.len() ==> steppable(#[trigger] lp@[i].point) && forall|d: int|
                0 <= d < 4 ==> cell_fits(futur@, #[trigger] cell(lp@[i].point, dir_at(d))),
    ensures
        final(pathes)@ == expand_paths(futur@, old(pathes)@, lp@, level, lp@.len() as int),
{
    let ghost g = futur@;
    let ghost s0 = pathes@;
    let ghost snakes = futur.board.snakes@;
    proof {
        assert forall|pt: Point| sum_snakes(snakes, #[trigger] segments_on(pt)) == sum_views(g.board.snakes, view_segments_on(pt)) by {
            lemma_sum_views(snakes, segments_on(pt), view_segments_on(pt));
        }
        assert forall|pt: Point| sum_snakes(snakes, #[trigger] tail_on(pt)) == sum_views(g.board.snakes, view_tail_on(pt)) by {
            lemma_sum_views(snakes, tail_on(pt), view_tail_on(pt));
        }
    }
    let mut i: usize = 0;
    while i < lp.len()
        invariant
            g == futur@,
            snakes == futur.board.snakes@,
            level < 255,
            forall|pt: Point| sum_snakes(snakes, #[trigger] segments_on(pt)) == sum_views(g.board.snakes, view_segments_on(pt)),
            forall|pt: Point| sum_snakes(snakes, #[trigger] tail_on(pt)) == sum_views(g.board.snakes, view_tail_on(pt)),
            forall|k: int|
                0 <= k < lp@.len() ==> steppable(#[trigger] lp@[k].point) && forall|d: int|
                    0 <= d < 4 ==> cell_fits(g, #[trigger] cell(lp@[k].point, dir_at(d))),
            i <= lp@.len(),
            pathes@ == expand_paths(g, s0, lp@, level, i as int),
        decreases lp@.len() - i,
    {
        let q = lp[i].point;
        assert(steppable(q));
        let mut fps = possibles(&q);
        let ghost f0 = fps@;
        assert forall|d: int| 0 <= d < 4 implies #[trigger] f0[d].point == cell(q, dir_at(d)) && f0[d].value == 10
            && f0[d].check_snakes == 0 by {}
        assert forall|d: int| 0 <= d < 4 implies cell_fits(g, #[trigger] cell(q, dir_at(d))) by {}
        check_walls(futur, &mut fps);
        let ghost f1 = fps@;
        assert forall|k: int| 0 <= k < f1.len() implies snakes_score_fits(#[trigger] f1[k], snakes) by {
            assert(cell_fits(g, cell(q, dir_at(k))));
            assert(f1[k].point == cell(q, dir_at(k)));
        }
        check_snakes(futur, &mut fps);
        let ghost f2 = fps@;
        assert forall|k: int| 0 <= k < f2.len() implies #[trigger] f2[k].value + 100 * tails_at(snakes, f2[k].point) <= i32::MAX by {
            assert(cell_fits(g, cell(q, dir_at(k))));
            assert(f2[k].point == cell(q, dir_at(k)));
        }
        check_tails(futur, &mut fps);
        let ghost f3 = fps@;
        assert forall|d: int| 0 <= d < 4 implies scored_cell(#[trigger] f3[d], g, q, d) by {
            let c = cell(q, dir_at(d));
            assert(cell_fits(g, c));
            assert(f1[d] == walls_scored(f0[d], g.board.width, g.board.height));
            assert(f2[d] == snakes_scored(f1[d], snakes));
            assert(f3[d] == tails_scored(f2[d], snakes));
            assert(f0[d].point == c);
            assert(occupancy(snakes, c) == sum_views(g.board.snakes, view_segments_on(c)));
            assert(tails_at(snakes, c) == sum_views(g.board.snakes, view_tail_on(c)));
            let w = wall_penalty(c, g.board.width, g.board.height);
            assert forall|x: Snake| #[trigger] (segments_on(c))(x) >= 0 by {}
            assert forall|x: Snake| #[trigger] (tail_on(c))(x) >= 0 by {}
            lemma_sum_snakes_nonneg(snakes, segments_on(c));
            lemma_sum_snakes_nonneg(snakes, tail_on(c));
            assert(f1[d].value == 10 + w);
            assert(f1[d].point == c);
            assert(f2[d].value == 10 + w - 100 * occupancy(snakes, c));
            assert(f2[d].point == c);
            assert(f3[d].value == 10 + w - 100 * occupancy(snakes, c) + 100 * tails_at(snakes, c));
        }
        let ghost before = pathes@;
        let mut d: usize = 0;
        while d < fps.len()
            invariant
                fps@ == f3,
                f3.len() == 4,
                level < 255,
                forall|e: int| 0 <= e < 4 ==> scored_cell(#[trigger] f3[e], g, q, e),
                d <= 4,
                pathes@ == expand_cell(g, before, q, level, d as int),
            decreases 4 - d,
        {
            if fps[d].value > 0 {
                insert_path(pathes, Path { point: fps[d].point, level: level + 1 });
            }
            d += 1;
        }
        i += 1;
    }
}


/// The look-ahead from the single path `start` at level 0.
pub open spec fn forward_paths(g: GameView, start: Point, depth: u8) -> Seq<Path> {
    explore(g, seq![Path { point: start, level: 0 }], 0, depth as int)
}

/// Looks `depth` turns ahead from cell `start`: at each level every body
/// loses its tail, the cells reached at that level become our head in turn,
/// and the neighbours of those cells that score above 0 are reached at the
/// next level. Returns every (cell, level) reached, in order of discovery.
fn look_ahead(game: &Game, start: Point, depth: u8) -> (pathes: Vec<Path>)
    requires
        explore_fits(game@, seq![Path { point: start, level: 0 }], 0, depth as int),
    ensures
        pathes@ == forward_paths(game@, start, depth),
{
    let mut futur = game.duplicate();
    let mut pathes: Vec<Path> = Vec::new();
    pathes.push(Path { point: start, level: 0 });
    assert(pathes@ =~= seq![Path { point: start, level: 0 }]);
    let mut level: u8 = 0;
    while level < depth
        invariant
            level <= depth,
            explore(futur@, pathes@, level as int, depth as int) == forward_paths(game@, start, depth),
            explore_fits(futur@, pathes@, level as int, depth as int),
        decreases depth - level,
    {
        let ghost g0 = futur@;
        let ghost s0 = pathes@;
        shrink_tails(&mut futur);
        let level_pathes = find_pathes(&pathes, level);
        let mut k: usize = 0;
        while k < level_pathes.len()
            invariant
                k <= level_pathes@.len(),
                futur@ == grow_all(pop_tails(g0), level_pathes@, k as int),
            decreases level_pathes@.len() - k,
        {
            append_point_me(&mut futur, &level_pathes[k].point);
            k += 1;
        }
        assert(futur@ == next_game(g0, s0, level as int));
        assert(level_fits(g0, s0, level as int));
        expand_level(&futur, &mut pathes, &level_pathes, level);
        level += 1;
    }
    pathes
}

/// No path comes twice in `s`, and none is at a level above `top`.
pub open spec fn paths_ok(s: Seq<Path>, top: int) -> bool {
    &&& s.no_duplicates()
    &&& forall|i: int| 0 <= i < s.len() ==> (#[trigger] s[i]).level <= top
}

proof fn lemma_add_path_ok(s: Seq<Path>, x: Path, top: int)
    requires
        paths_ok(s, top),
        x.level <= top,
    ensures
        paths_ok(add_path(s, x), top),
{
    if !s.contains(x) {
        let t = s.push(x);
        assert forall|i: int, j: int| 0 <= i < t.len() && 0 <= j < t.len() && i != j implies t[i] != t[j] by {
            if i == s.len() as int {
                assert(t[j] == s[j]);
            } else if j == s.len() as int {
                assert(t[i] == s[i]);
            } else {
                assert(t[i] == s[i] && t[j] == s[j]);
            }
        }
        assert forall|i: int| 0 <= i < t.len() implies (#[trigger] t[i]).level <= top by {
            if i < s.len() {
                assert(t[i] == s[i]);
            }
        }
    }
}

proof fn lemma_expand_cell_ok(g: GameView, s: Seq<Path>, q: Point, level: u8, d: int)
    requires
        paths_ok(s, level + 1),
        level < 255,
    ensures
        paths_ok(expand_cell(g, s, q, level, d), level + 1),
    decreases d,
{
    if d > 0 {
        lemma_expand_cell_ok(g, s, q, level, d - 1);
        let c = cell(q, dir_at(d - 1));
        lemma_add_path_ok(expand_cell(g, s, q, level, d - 1), Path { point: c, level: (level + 1) as u8 }, level + 1);
    }
}

proof fn lemma_expand_paths_ok(g: GameView, s: Seq<Path>, lp: Seq<Path>, level: u8, n: int)
    requires
        paths_ok(s, level + 1),
        level < 255,
    ensures
        paths_ok(expand_paths(g, s, lp, level, n), level + 1),
    decreases n,
{
    if n > 0 {
        lemma_expand_paths_ok(g, s, lp, level, n - 1);
        lemma_expand_cell_ok(g, expand_paths(g, s, lp, level, n - 1), lp[n - 1].point, level, 4);
    }
}

proof fn lemma_explore_ok(g: GameView, s: Seq<Path>, level: int, depth: int)
    requires
        0 <= level,
        depth <= 255,
        paths_ok(s, level),
    ensures
        paths_ok(explore(g, s, level, depth), if level >= depth { level } else { depth }),
    decreases depth - level,
{
    if level < depth {
        assert(paths_ok(s, level + 1));
        let lp = paths_at_level(s, level as u8);
        lemma_expand_paths_ok(next_game(g, s, level), s, lp, level as u8, lp.len() as int);
        lemma_explore_ok(next_game(g, s, level), next_paths(g, s, level), level + 1, depth);
    }
}

/// The look-ahead finds each pair of a cell and a level at most once, and
/// at no level beyond `depth`: its paths form a set, as their number, the
/// free space it measures, supposes.
pub proof fn lemma_forward_paths_distinct(g: GameView, start: Point, depth: u8)
    ensures
        forward_paths(g, start, depth).no_duplicates(),
        forall|i: int|
            0 <= i < forward_paths(g, start, depth).len() ==> (#[trigger] forward_paths(g, start, depth)[i]).level
                <= depth,
{
    let s = seq![Path { point: start, level: 0 }];
    assert(paths_ok(s, 0));
    lemma_explore_ok(g, s, 0, depth as int);
}

/// `b` is one step from `a`: one level further, on one of the four cells
/// next to `a`'s.
pub open spec fn steps_from(a: Path, b: Path) -> bool {
    b.level == a.level + 1 && exists|d: int| 0 <= d < 4 && b.point == #[trigger] cell(a.point, dir_at(d))
}

/// Every path of `s` beyond level 0 is one step from a path of `s`.
pub open spec fn paths_linked(s: Seq<Path>) -> bool {
    forall|i: int|
        0 <= i < s.len() && (#[trigger] s[i]).level > 0 ==> exists|j: int|
            0 <= j < s.len() && steps_from(#[trigger] s[j], s[i])
}

proof fn lemma_prefix_contains(s: Seq<Path>, t: Seq<Path>, x: Path)
    requires
        s.is_prefix_of(t),
        s.contains(x),
    ensures
        t.contains(x),
{
    let k = choose|k: int| 0 <= k < s.len() && s[k] == x;
    assert(t[k] == t.subrange(0, s.len() as int)[k]);
}

proof fn lemma_prefix_trans(a: Seq<Path>, b: Seq<Path>, c: Seq<Path>)
    requires
        a.is_prefix_of(b),
        b.is_prefix_of(c),
    ensures
        a.is_prefix_of(c),
{
    assert forall|k: int| 0 <= k < a.len() implies c.subrange(0, a.len() as int)[k] == a[k] by {
        assert(c[k] == c.subrange(0, b.len() as int)[k]);
        assert(b[k] == b.subrange(0, a.len() as int)[k]);
    }
}

proof fn lemma_add_path_linked(s: Seq<Path>, a: Path, x: Path)
    requires
        paths_linked(s),
        s.contains(a),
        steps_from(a, x),
    ensures
        paths_linked(add_path(s, x)),
        s.is_prefix_of(add_path(s, x)),
{
    if !s.contains(x) {
        let t = s.push(x);
        let ka = choose|k: int| 0 <= k < s.len() && s[k] == a;
        assert forall|i: int| 0 <= i < t.len() && (#[trigger] t[i]).level > 0 implies exists|j: int|
            0 <= j < t.len() && steps_from(#[trigger] t[j], t[i]) by {
            if i < s.len() {
                assert(t[i] == s[i]);
                let j = choose|j: int| 0 <= j < s.len() && steps_from(#[trigger] s[j], s[i]);
                assert(t[j] == s[j]);
            } else {
                assert(t[ka] == a);
            }
        }
    }
    assert(s.is_prefix_of(add_path(s, x)));
}

proof fn lemma_expand_cell_linked(g: GameView, s: Seq<Path>, q: Point, level: u8, d: int)
    requires
        paths_linked(s),
        s.contains(Path { point: q, level: level }),
        level < 255,
        d <= 4,
    ensures
        paths_linked(expand_cell(g, s, q, level, d)),
        s.is_prefix_of(expand_cell(g, s, q, level, d)),
    decreases d,
{
    if d > 0 {
        lemma_expand_cell_linked(g, s, q, level, d - 1);
        let prev = expand_cell(g, s, q, level, d - 1);
        let c = cell(q, dir_at(d - 1));
        if cell_score(g, c) > 0 {
            let a = Path { point: q, level: level };
            let x = Path { point: c, level: (level + 1) as u8 };
            lemma_prefix_contains(s, prev, a);
            assert(0 <= d - 1 < 4 && x.point == cell(a.point, dir_at(d - 1)));
            assert(x.level == a.level + 1);
            assert(steps_from(a, x));
            lemma_add_path_linked(prev, a, x);
            lemma_prefix_trans(s, prev, add_path(prev, x));
        }
    } else {
        assert(s.is_prefix_of(s));
    }
}

/// The paths found at `level` are paths of `s` at that level.
proof fn lemma_paths_at_level_of(s: Seq<Path>, level: u8)
    ensures
        forall|i: int|
            0 <= i < paths_at_level(s, level).len() ==> s.contains(#[trigger] paths_at_level(s, level)[i])
                && paths_at_level(s, level)[i].level == level,
    decreases s.len(),
{
    if s.len() > 0 {
        let r = paths_at_level(s.drop_last(), level);
        lemma_paths_at_level_of(s.drop_last(), level);
        assert forall|i: int| 0 <= i < paths_at_level(s, level).len() implies s.contains(
            #[trigger] paths_at_level(s, level)[i],
        ) && paths_at_level(s, level)[i].level == level by {
            if i < r.len() {
                assert(paths_at_level(s, level)[i] == r[i]);
                let k = choose|k: int| 0 <= k < s.drop_last().len() && s.drop_last()[k] == r[i];
                assert(s[k] == r[i]);
            } else {
                assert(paths_at_level(s, level)[i] == s.last());
                assert(s[s.len() - 1] == s.last());
            }
        }
    }
}

proof fn lemma_expand_paths_linked(g: GameView, s: Seq<Path>, lp: Seq<Path>, level: u8, n: int)
    requires
        paths_linked(s),
        level < 255,
        n <= lp.len(),
        forall|i: int| 0 <= i < lp.len() ==> s.contains(#[trigger] lp[i]) && lp[i].level == level,
    ensures
        paths_linked(expand_paths(g, s, lp, level, n)),
        s.is_prefix_of(expand_paths(g, s, lp, level, n)),
    decreases n,
{
    if n > 0 {
        lemma_expand_paths_linked(g, s, lp, level, n - 1);
        let prev = expand_paths(g, s, lp, level, n - 1);
        let q = lp[n - 1];
        lemma_prefix_contains(s, prev, q);
        assert(q == Path { point: q.point, level: level });
        lemma_expand_cell_linked(g, prev, q.point, level, 4);
        lemma_prefix_trans(s, prev, expand_paths(g, s, lp, level, n));
    } else {
        assert(s.is_prefix_of(s));
    }
}

proof fn lemma_explore_linked(g: GameView, s: Seq<Path>, level: int, depth: int)
    requires
        paths_linked(s),
        0 <= level,
        depth <= 255,
    ensures
        paths_linked(explore(g, s, level, depth)),
        s.is_prefix_of(explore(g, s, level, depth)),
    decreases depth - level,
{
    if level < depth {
        let lp = paths_at_level(s, level as u8);
        lemma_paths_at_level_of(s, level as u8);
        lemma_expand_paths_linked(next_game(g, s, level), s, lp, level as u8, lp.len() as int);
        lemma_explore_linked(next_game(g, s, level), next_paths(g, s, level), level + 1, depth);
        lemma_prefix_trans(s, next_paths(g, s, level), explore(g, s, level, depth));
    } else {
        assert(s.is_prefix_of(s));
    }
}

/// The look-ahead walks the board turn by turn: its first path is the
/// starting cell at level 0, and every other path it finds is one step, to
/// a neighbouring cell, from a path found at the level before.
pub proof fn lemma_forward_paths_linked(g: GameView, start: Point, depth: u8)
    ensures
        forward_paths(g, start, depth).len() >= 1,
        forward_paths(g, start, depth)[0] == (Path { point: start, level: 0 }),
        paths_linked(forward_paths(g, start, depth)),
{
    let s = seq![Path { point: start, level: 0 }];
    lemma_explore_linked(g, s, 0, depth as int);
    let t = forward_paths(g, start, depth);
    assert(t[0] == t.subrange(0, 1)[0]);
}

/// `c` lies on a board of `width` by `height`.
pub open spec fn on_board(c: Point, width: u16, height: u16) -> bool {
    0 <= c.x && 0 <= c.y && c.x < width as i16 && c.y < height as i16
}

/// Every path of `s` beyond level 0 lies on a board of `width` by `height`.
pub open spec fn paths_on_board(s: Seq<Path>, width: u16, height: u16) -> bool {
    forall|i: int| 0 <= i < s.len() && (#[trigger] s[i]).level > 0 ==> on_board(s[i].point, width, height)
}

proof fn lemma_tails_within_views(s: Seq<SnakeView>, c: Point)
    ensures
        sum_views(s, view_tail_on(c)) <= sum_views(s, view_segments_on(c)),
    decreases s.len(),
{
    if s.len() > 0 {
        lemma_tails_within_views(s.drop_last(), c);
        let b = s.last().body;
        if b.len() > 0 && b.last() == c {
            assert(seg_count(b, c) == seg_count(b.drop_last(), c) + 1);
        }
    }
}

/// A cell that scores above 0 lies on the board: a tail there is also a
/// segment there, so only the walls could bring the score down, and any
/// wall takes 100.
proof fn lemma_scoring_cell_on_board(g: GameView, c: Point)
    requires
        cell_score(g, c) > 0,
    ensures
        on_board(c, g.board.width, g.board.height),
{
    lemma_tails_within_views(g.board.snakes, c);
}

proof fn lemma_grow_upto_board(g: GameView, pt: Point, j: int)
    ensures
        grow_upto(g, pt, j).board.width == g.board.width,
        grow_upto(g, pt, j).board.height == g.board.height,
    decreases j,
{
    if j > 0 {
        lemma_grow_upto_board(g, pt, j - 1);
    }
}

proof fn lemma_grow_all_board(g: GameView, lp: Seq<Path>, n: int)
    ensures
        grow_all(g, lp, n).board.width == g.board.width,
        grow_all(g, lp, n).board.height == g.board.height,
    decreases n,
{
    if n > 0 {
        lemma_grow_all_board(g, lp, n - 1);
        let h = grow_all(g, lp, n - 1);
        lemma_grow_upto_board(h, lp[n - 1].point, h.board.snakes.len() as int);
    }
}

proof fn lemma_expand_cell_on_board(g: GameView, s: Seq<Path>, q: Point, level: u8, d: int)
    requires
        paths_on_board(s, g.board.width, g.board.height),
    ensures
        paths_on_board(expand_cell(g, s, q, level, d), g.board.width, g.board.height),
    decreases d,
{
    if d > 0 {
        lemma_expand_cell_on_board(g, s, q, level, d - 1);
        let prev = expand_cell(g, s, q, level, d - 1);
        let c = cell(q, dir_at(d - 1));
        if cell_score(g, c) > 0 {
            lemma_scoring_cell_on_board(g, c);
            let x = Path { point: c, level: (level + 1) as u8 };
            let t = add_path(prev, x);
            assert forall|i: int| 0 <= i < t.len() && (#[trigger] t[i]).level > 0 implies on_board(
                t[i].point,
                g.board.width,
                g.board.height,
            ) by {
                if i < prev.len() {
                    assert(t[i] == prev[i]);
                }
            }
        }
    }
}

proof fn lemma_expand_paths_on_board(g: GameView, s: Seq<Path>, lp: Seq<Path>, level: u8, n: int)
    requires
        paths_on_board(s, g.board.width, g.board.height),
    ensures
        paths_on_board(expand_paths(g, s, lp, level, n), g.board.width, g.board.height),
    decreases n,
{
    if n > 0 {
        lemma_expand_paths_on_board(g, s, lp, level, n - 1);
        lemma_expand_cell_on_board(g, expand_paths(g, s, lp, level, n - 1), lp[n - 1].point, level, 4);
    }
}

proof fn lemma_explore_on_board(g: GameView, s: Seq<Path>, level: int, depth: int)
    requires
        paths_on_board(s, g.board.width, g.board.height),
    ensures
        paths_on_board(explore(g, s, level, depth), g.board.width, g.board.height),
    decreases depth - level,
{
    if level < depth {
        let lp = paths_at_level(s, level as u8);
        let h = next_game(g, s, level);
        lemma_grow_all_board(pop_tails(g), lp, lp.len() as int);
        lemma_expand_paths_on_board(h, s, lp, level as u8, lp.len() as int);
        lemma_explore_on_board(h, next_paths(g, s, level), level + 1, depth);
    }
}

/// Every path that the look-ahead finds beyond its start lies on the board.
pub proof fn lemma_forward_paths_on_board(g: GameView, start: Point, depth: u8)
    ensures
        paths_on_board(forward_paths(g, start, depth), g.board.width, g.board.height),
{
    let s = seq![Path { point: start, level: 0 }];
    lemma_explore_on_board(g, s, 0, depth as int);
}

/// The candidate `new` is `old` after `forward_thinking`: unless `old.value`
/// is negative, it records how many paths the look-ahead from its cell found,
/// and when they are fewer than `4 * depth` it loses 30 (also counted in
/// `forward_thinking`) and keeps those paths.
pub open spec fn forward_scored(old: Possible, new: Possible, g: GameView, depth: u8) -> bool {
    if old.value < 0 {
        new == old
    } else {
        let paths = forward_paths(g, old.point, depth);
        let short = paths.len() < 4 * depth;
        &&& new == Possible {
            value: if short { (old.value - 30) as i32 } else { old.value },
            forward_thinking: if short { (old.forward_thinking - 30) as i32 } else { old.forward_thinking },
            forward_pathes_len: paths.len() as i32,
            forward_pathes: new.forward_pathes,
            ..old
        }
        &&& new.forward_pathes@ == if short { paths } else { old.forward_pathes@ }
    }
}

/// The look-ahead of `forward_thinking` can run from `p`, and its penalty stays within `i32`.
pub open spec fn forward_fits(p: Possible, g: GameView, depth: u8) -> bool {
    p.value >= 0 ==> {
        &&& explore_fits(g, seq![Path { point: p.point, level: 0 }], 0, depth as int)
        &&& forward_paths(g, p.point, depth).len() < 4 * depth ==> p.forward_thinking - 30 >= i32::MIN
    }
}

/// Penalizes by 30 each candidate (whose value is not negative) from whose
/// cell the look-ahead of `depth` turns finds fewer than `4 * depth` paths,
/// that is, a candidate that leads into a narrow space.
pub fn forward_thinking(game: &Game, ps: &mut Vec<Possible>, depth: u8)
    requires
        forall|i: int| 0 <= i < old(ps)@.len() ==> forward_fits(#[trigger] old(ps)@[i], game@, depth),
    ensures
        final(ps)@.len() == old(ps)@.len(),
        forall|i: int|
            0 <= i < old(ps)@.len() ==> forward_scored(old(ps)@[i], #[trigger] final(ps)@[i], game@, depth),
        forall|i: int|
            0 <= i < old(ps)@.len() && old(ps)@[i].forward_pathes@.no_duplicates()
                ==> (#[trigger] final(ps)@[i]).forward_pathes@.no_duplicates(),
{
    let ghost ps0 = ps@;
    let mut i: usize = 0;
    while i < ps.len()
        invariant
            i <= ps@.len(),
            ps@.len() == ps0.len(),
            forall|k: int| 0 <= k < i ==> forward_scored(ps0[k], #[trigger] ps@[k], game@, depth),
            forall|k: int|
                0 <= k < i && ps0[k].forward_pathes@.no_duplicates() ==> (#[trigger] ps@[k]).forward_pathes@.no_duplicates(),
            forall|k: int| i <= k < ps0.len() ==> #[trigger] ps@[k] == ps0[k],
            forall|k: int| 0 <= k < ps0.len() ==> forward_fits(#[trigger] ps0[k], game@, depth),
        decreases ps0.len() - i,
    {
        if ps[i].value < 0 {
            i += 1;
            continue;
        }
        assert(forward_fits(ps0[i as int], game@, depth));
        let pathes = look_ahead(game, ps[i].point, depth);
        proof {
            lemma_forward_paths_distinct(game@, ps0[i as int].point, depth);
        }
        let forward_thinking: i32 = 30;
        ps[i].forward_pathes_len = pathes.len() as i32;
        if pathes.len() < 4 * depth as usize {
            ps[i].value = ps[i].value - forward_thinking;
            ps[i].forward_thinking = ps[i].forward_thinking - forward_thinking;
            ps[i].forward_pathes = pathes;
        }
        i += 1;
    }
}

} // verus!
