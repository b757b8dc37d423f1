use vstd::prelude::*;
use crate::game::{
    abs, lemma_outcome_of_history, lemma_seed_fixes_match, lemma_totals_bounded, match_history,
    max_abs_payoff, possible_outcome, project, seeded_outcome, Game,
};
use crate::rng::{index_at, index_draw, key_of_seed, seed_key, system_key};
use crate::scores::{count_names, is_count, string_views};
use crate::strategy::{labels, same_play, Strategy};
use vstd::arithmetic::div_mod::{lemma_mod_add_multiples_vanish, lemma_mod_self_0, lemma_small_mod};

verus! {

/// `(y + d - 1)` wrapped around a ring of length `n`, for a step `d` of
/// 0, 1 or 2 (that is, one back, none, one forward).
pub open spec fn wrap(y: int, d: int, n: int) -> int {
    (y + d - 1 + n) % n
}

/// The cell that `(y, x)` copies when the neighbourhood scores are
/// `scores`, after looking at the first `k` of its nine neighbours (itself
/// included) row by row: the first one with a strictly higher score than
/// every one before it, starting from the cell itself.
pub open spec fn best_after(scores: Seq<Seq<i32>>, y: int, x: int, k: nat) -> (int, int)
    decreases k,
{
    if k == 0 {
        (y, x)
    } else {
        let prev = best_after(scores, y, x, (k - 1) as nat);
        let h = scores.len() as int;
        let w = scores[0].len() as int;
        let ny = wrap(y, (k - 1) / 3, h);
        let nx = wrap(x, (k - 1) % 3, w);
        if scores[ny][nx] > scores[prev.0][prev.1] {
            (ny, nx)
        } else {
            prev
        }
    }
}

/// The cell that `(y, x)` copies: the best scoring of its nine neighbours,
/// the first one in reading order among equals, the cell itself unless a
/// neighbour does strictly better.
pub open spec fn best_neighbor(scores: Seq<Seq<i32>>, y: int, x: int) -> (int, int) {
    best_after(scores, y, x, 9)
}

/// Every row holds `w` entries.
pub open spec fn rectangular<T>(rows: Seq<Vec<T>>, w: nat) -> bool {
    forall|y: int| 0 <= y < rows.len() ==> (#[trigger] rows[y])@.len() == w
}

/// The entries, as sequences.
pub open spec fn rows_view(rows: Seq<Vec<i32>>) -> Seq<Seq<i32>> {
    Seq::new(rows.len(), |y: int| rows[y]@)
}

fn wrap_index(y: usize, d: usize, n: usize) -> (r: usize)
    requires
        y < n,
        d < 3,
    ensures
        r == wrap(y as int, d as int, n as int),
        r < n,
{
    proof {
        let a = y + d - 1;
        if a >= 0 {
            lemma_mod_add_multiples_vanish(a, n as int);
            if a < n {
                lemma_small_mod(a as nat, n as nat);
            } else {
                assert(a == n as int);
                lemma_mod_self_0(n as int);
            }
        } else {
            lemma_small_mod((n - 1) as nat, n as nat);
        }
    }
    if d == 0 {
        if y == 0 { n - 1 } else { y - 1 }
    } else if d == 1 {
        y
    } else {
        if y + 1 == n { 0 } else { y + 1 }
    }
}

proof fn lemma_best_in_range(scores: Seq<Seq<i32>>, y: int, x: int, k: nat)
    requires
        scores.len() > 0,
        rectangular_view(scores, scores[0].len()),
        scores[0].len() > 0,
        0 <= y < scores.len(),
        0 <= x < scores[0].len(),
    ensures
        0 <= best_after(scores, y, x, k).0 < scores.len(),
        0 <= best_after(scores, y, x, k).1 < scores[0].len(),
    decreases k,
{
    if k > 0 {
        lemma_best_in_range(scores, y, x, (k - 1) as nat);
    }
}

/// Every row of the view holds `w` entries.
pub open spec fn rectangular_view(rows: Seq<Seq<i32>>, w: nat) -> bool {
    forall|y: int| 0 <= y < rows.len() ==> (#[trigger] rows[y]).len() == w
}

/// For every cell, the cell it copies in the next generation.
pub fn best_neighbors(scores: &Vec<Vec<i32>>) -> (r: Vec<Vec<(usize, usize)>>)
    requires
        scores@.len() > 0,
        rectangular(scores@, scores@[0]@.len()),
    ensures
        r@.len() == scores@.len(),
        rectangular(r@, scores@[0]@.len()),
        forall|y: int, x: int|
            0 <= y < r@.len() && 0 <= x < scores@[0]@.len() ==> (#[trigger] r@[y]@[x]).0 as int
                == best_neighbor(rows_view(scores@), y, x).0 && r@[y]@[x].1 as int == best_neighbor(
                rows_view(scores@),
                y,
                x,
            ).1,
{
    let h = scores.len();
    let w = scores[0].len();
    let ghost sv = rows_view(scores@);
    assert(rectangular_view(sv, w as nat));
    let mut out: Vec<Vec<(usize, usize)>> = Vec::new();
    for y in 0..h
        invariant
            h == scores@.len(),
            h > 0,
            w == scores@[0]@.len(),
            rectangular(scores@, w as nat),
            sv == rows_view(scores@),
            rectangular_view(sv, w as nat),
            out@.len() == y,
            rectangular(out@, w as nat),
            forall|yy: int, x: int|
                0 <= yy < y && 0 <= x < w ==> (#[trigger] out@[yy]@[x]).0 as int == best_neighbor(sv, yy, x).0
                    && out@[yy]@[x].1 as int == best_neighbor(sv, yy, x).1,
    {
        let mut row: Vec<(usize, usize)> = Vec::new();
        for x in 0..w
            invariant
                h == scores@.len(),
                h > 0,
                y < h,
                w == scores@[0]@.len(),
                rectangular(scores@, w as nat),
                sv == rows_view(scores@),
                rectangular_view(sv, w as nat),
                row@.len() == x,
                forall|xx: int|
                    0 <= xx < x ==> (#[trigger] row@[xx]).0 as int == best_neighbor(sv, y as int, xx).0
                        && row@[xx].1 as int == best_neighbor(sv, y as int, xx).1,
        {
            let mut by = y;
            let mut bx = x;
            for k in 0..9
                invariant
                    h == scores@.len(),
                    h > 0,
                    y < h,
                    x < w,
                    w == scores@[0]@.len(),
                    rectangular(scores@, w as nat),
                    sv == rows_view(scores@),
                    rectangular_view(sv, w as nat),
                    by < h,
                    bx < w,
                    (by as int, bx as int) == best_after(sv, y as int, x as int, k as nat),
            {
                let ny = wrap_index(y, k / 3, h);
                let nx = wrap_index(x, k % 3, w);
                assert(scores@[ny as int]@.len() == w);
                assert(scores@[by as int]@.len() == w);
                if scores[ny][nx] > scores[by][bx] {
                    by = ny;
                    bx = nx;
                }
            }
            row.push((by, bx));
        }
        out.push(row);
    }
    out
}

/// The sum of the first player's scores over the matches.
pub open spec fn first_scores_sum(m: Seq<(i32, i32)>) -> int
    decreases m.len(),
{
    if m.len() == 0 {
        0
    } else {
        first_scores_sum(m.drop_last()) + m.last().0
    }
}

/// The place, among the nine cells of a neighbourhood read row by row, of
/// its `j`-th neighbour: the centre (place 4) is skipped.
pub open spec fn neighbour_place(j: int) -> int {
    if j < 4 { j } else { j + 1 }
}

/// The `j`-th of the eight neighbours of `(y, x)` on the torus-shaped grid,
/// row by row.
pub open spec fn grid_neighbour<S>(grid: Seq<Vec<S>>, y: int, x: int, j: int) -> (int, int) {
    (
        wrap(y, neighbour_place(j) / 3, grid.len() as int),
        wrap(x, neighbour_place(j) % 3, grid[0]@.len() as int),
    )
}

/// The scores `m` of a match between the cell `(y, x)` and its `j`-th
/// neighbour, each per round played and projected to the game's full
/// length: those of a possible match of `game`; between reactive strategies
/// under a seeded game, those of the match played with the game's seed.
pub open spec fn neighbour_match<S: Strategy>(game: Game, grid: Seq<Vec<S>>, y: int, x: int, j: int, m: (i32, i32)) -> bool {
    let me = grid[y]@[x];
    let other = grid[grid_neighbour(grid, y, x, j).0]@[grid_neighbour(grid, y, x, j).1];
    &&& possible_outcome(game, me, other, m.0 as int, m.1 as int)
    &&& S::is_reactive() ==> match game.seed {
        Some(seed) => (m.0 as int, m.1 as int) == seeded_outcome(game, me, other, seed),
        None => true,
    }
}

/// `s` is what the cell `(y, x)` of `grid` can total over its matches: one
/// match of `game` against each of its eight neighbours, the cell playing
/// first, summing the cell's scores.
pub open spec fn possible_cell_score<S: Strategy>(game: Game, grid: Seq<Vec<S>>, y: int, x: int, s: i32) -> bool {
    exists|m: Seq<(i32, i32)>|
        m.len() == 8 && (forall|j: int| 0 <= j < 8 ==> neighbour_match(game, grid, y, x, j, #[trigger] m[j]))
            && #[trigger] first_scores_sum(m) == s as int
}

/// Strategies on a torus-shaped grid; each generation every cell plays its
/// eight neighbours and then copies the best scoring cell around it.
pub struct SpatialTournament<S: Strategy> {
    pub grid: Vec<Vec<S>>,
    pub game: Game,
}

/// The names on the grid, row by row.
pub open spec fn grid_names<S: Strategy>(grid: Seq<Vec<S>>) -> Seq<Seq<char>>
    decreases grid.len(),
{
    if grid.len() == 0 {
        Seq::empty()
    } else {
        grid_names(grid.drop_last()) + labels(grid.last()@)
    }
}

/// The cells of the grid, row by row.
pub open spec fn grid_cells<S>(grid: Seq<Vec<S>>) -> Seq<S>
    decreases grid.len(),
{
    if grid.len() == 0 {
        Seq::empty()
    } else {
        grid_cells(grid.drop_last()) + grid.last()@
    }
}

/// The first `count` indices drawn below `n` from the stream of `key`, one
/// after the other from its start, and the word position after them.
pub open spec fn placement(key: Seq<u8>, n: usize, count: nat) -> (Seq<usize>, u128)
    decreases count,
{
    if count == 0 {
        (Seq::empty(), 0)
    } else {
        let prev = placement(key, n, (count - 1) as nat);
        let d = index_draw(key, prev.1, n);
        (prev.0.push(d.0), d.1)
    }
}

/// Cell `k` of the grid, row by row, is a copy of the strategy at index
/// `k` of `picks`: the same name, and for reactive strategies the same play.
pub open spec fn placed<S: Strategy>(grid: Seq<Vec<S>>, strategies: Seq<S>, picks: Seq<usize>) -> bool {
    &&& grid_cells(grid).len() == picks.len()
    &&& forall|k: int|
        0 <= k < picks.len() ==> (#[trigger] grid_cells(grid)[k]).label() == strategies[picks[k] as int].label()
            && (S::is_reactive() ==> same_play(grid_cells(grid)[k], strategies[picks[k] as int]))
}

/// A seed fixes the placement: two grids placed by the same draws agree
/// cell by cell, row by row, on the name and, for reactive strategies, on
/// the play.
pub proof fn lemma_seed_fixes_placement<S: Strategy>(
    a: Seq<Vec<S>>,
    b: Seq<Vec<S>>,
    strategies: Seq<S>,
    picks: Seq<usize>,
)
    requires
        placed(a, strategies, picks),
        placed(b, strategies, picks),
    ensures
        grid_cells(a).len() == grid_cells(b).len(),
        forall|k: int|
            0 <= k < grid_cells(a).len() ==> (#[trigger] grid_cells(a)[k]).label() == grid_cells(b)[k].label()
                && (S::is_reactive() ==> same_play(grid_cells(a)[k], grid_cells(b)[k])),
{
    assert forall|k: int| 0 <= k < grid_cells(a).len() implies (#[trigger] grid_cells(a)[k]).label()
        == grid_cells(b)[k].label() && (S::is_reactive() ==> same_play(grid_cells(a)[k], grid_cells(b)[k])) by {
        assert(grid_cells(b)[k].label() == strategies[picks[k] as int].label());
        if S::is_reactive() {
            assert(same_play(grid_cells(b)[k], strategies[picks[k] as int]));
            assert(same_play(grid_cells(a)[k], strategies[picks[k] as int]));
        }
    }
}

/// The strategy is a copy of one of the strategies: the same name, and for
/// reactive strategies the same play.
pub open spec fn named_among<S: Strategy>(s: S, strategies: Seq<S>) -> bool {
    exists|i: int|
        0 <= i < strategies.len() && s.label() == #[trigger] strategies[i].label() && (S::is_reactive()
            ==> same_play(s, strategies[i]))
}

/// Every cell of the grid is a copy of one of the strategies.
pub open spec fn drawn_from<S: Strategy>(grid: Seq<Vec<S>>, strategies: Seq<S>) -> bool {
    forall|y: int, x: int|
        0 <= y < grid.len() && 0 <= x < grid[y]@.len() ==> named_among(#[trigger] grid[y]@[x], strategies)
}

impl<S: Strategy> SpatialTournament<S> {
    /// A `width` by `height` grid, each cell a copy of a strategy drawn at
    /// random, row by row, by a ChaCha8 generator seeded with the game's
    /// seed when it has one, else from the system.
    pub fn new(width: usize, height: usize, strategies: Vec<S>, game: Game) -> (r: Self)
        requires
            width == 0 || height == 0 || strategies@.len() > 0,
        ensures
            r.game == game,
            r.grid@.len() == height,
            rectangular(r.grid@, width as nat),
            drawn_from(r.grid@, strategies@),
            match game.seed {
                Some(s) => placed(
                    r.grid@,
                    strategies@,
                    placement(key_of_seed(s), strategies@.len() as usize, (width * height) as nat).0,
                ),
                None => true,
            },
    {
        let key: [u8; 32] = match game.seed {
            Some(s) => seed_key(s),
            None => system_key(),
        };
        let n = strategies.len();
        let mut pos: u128 = 0;
        let ghost mut drawn: nat = 0;
        let mut grid: Vec<Vec<S>> = Vec::new();
        assert(drawn == 0 * width) by (nonlinear_arith)
            requires drawn == 0;
        assert(grid_cells(grid@) =~= Seq::<S>::empty());
        for y in 0..height
            invariant
                n == strategies@.len(),
                width == 0 || height == 0 || n > 0,
                grid@.len() == y,
                rectangular(grid@, width as nat),
                drawn_from(grid@, strategies@),
                drawn == y * width,
                (pos as u128) == placement(key@, n, drawn).1,
                placed(grid@, strategies@, placement(key@, n, drawn).0),
        {
            let mut row: Vec<S> = Vec::new();
            let ghost start = grid_cells(grid@);
            for x in 0..width
                invariant
                    n == strategies@.len(),
                    width == 0 || height == 0 || n > 0,
                    y < height,
                    row@.len() == x,
                    forall|xx: int| 0 <= xx < x ==> named_among(#[trigger] row@[xx], strategies@),
                    start == grid_cells(grid@),
                    drawn == y * width + x,
                    (pos as u128) == placement(key@, n, drawn).1,
                    ({
                        let picks = placement(key@, n, drawn).0;
                        &&& (start + row@).len() == picks.len()
                        &&& forall|k: int|
                            0 <= k < picks.len() ==> (#[trigger] (start + row@)[k]).label()
                                == strategies@[picks[k] as int].label() && (S::is_reactive() ==> same_play(
                                (start + row@)[k],
                                strategies@[picks[k] as int],
                            ))
                    }),
            {
                let (idx, next) = index_at(&key, pos, n);
                let ghost prev = row@;
                let ghost before = placement(key@, n, drawn);
                row.push(strategies[idx].clone_box());
                pos = next;
                proof {
                    drawn = drawn + 1;
                    let picks = placement(key@, n, drawn).0;
                    assert(picks == before.0.push(idx));
                    assert(start + row@ == (start + prev).push(row@[x as int]));
                    assert forall|k: int|
                        0 <= k < picks.len() implies (#[trigger] (start + row@)[k]).label()
                            == strategies@[picks[k] as int].label() && (S::is_reactive() ==> same_play(
                            (start + row@)[k],
                            strategies@[picks[k] as int],
                        )) by {
                        if k < picks.len() - 1 {
                            assert((start + row@)[k] == (start + prev)[k]);
                            assert(picks[k] == before.0[k]);
                        }
                    }
                }
                assert(row@[x as int].label() == strategies@[idx as int].label());
                assert(named_among(row@[x as int], strategies@));
                assert forall|xx: int| 0 <= xx < x + 1 implies named_among(#[trigger] row@[xx], strategies@) by {
                    if xx < x {
                        assert(row@[xx] == prev[xx]);
                    }
                }
            }
            let ghost prev = grid@;
            grid.push(row);
            proof {
                assert(grid@.drop_last() =~= prev);
                assert(grid_cells(grid@) == start + row@);
                assert(drawn == (y + 1) * width) by (nonlinear_arith)
                    requires drawn == y * width + width;
            }
            assert forall|yy: int, x: int|
                0 <= yy < grid@.len() && 0 <= x < grid@[yy]@.len() implies named_among(#[trigger] grid@[yy]@[x], strategies@) by {
                if yy < prev.len() {
                    assert(grid@[yy] == prev[yy]);
                }
            }
        }
        proof {
            assert(drawn == width * height) by (nonlinear_arith)
                requires drawn == height * width;
        }
        SpatialTournament { grid, game }
    }

    /// Whether the grid has at least one row and no row is shorter than the
    /// first (whose length is the grid's width).
    pub open spec fn well_shaped(&self) -> bool {
        &&& self.grid@.len() > 0
        &&& forall|y: int| 0 <= y < self.grid@.len() ==> (#[trigger] self.grid@[y])@.len() >= self.grid@[0]@.len()
    }

    /// Whether a cell's total over its eight matches fits the score type.
    pub open spec fn step_fits(&self) -> bool {
        &&& self.game.match_fits()
        &&& 8 * (self.game.iterations * max_abs_payoff(self.game.payoffs)) <= i32::MAX
    }

    /// Each cell's total over its matches against its eight neighbours (on
    /// copies, every match seeded with the game's seed, or else from the
    /// system), each match's score taken per round played and projected to
    /// the game's full length.
    fn neighbourhood_scores(&self) -> (r: Vec<Vec<i32>>)
        requires
            self.well_shaped(),
            self.step_fits(),
        ensures
            r@.len() == self.grid@.len(),
            rectangular(r@, self.grid@[0]@.len()),
            forall|y: int, x: int|
                0 <= y < r@.len() && 0 <= x < self.grid@[0]@.len() ==> possible_cell_score(self.game, self.grid@, y, x, #[trigger] r@[y]@[x]),
    {
        let h = self.grid.len();
        let w = self.grid[0].len();
        let ghost bound = self.game.iterations * max_abs_payoff(self.game.payoffs);
        let mut scores: Vec<Vec<i32>> = Vec::new();
        for y in 0..h
            invariant
                h == self.grid@.len(),
                w == self.grid@[0]@.len(),
                self.well_shaped(),
                self.step_fits(),
                bound == self.game.iterations * max_abs_payoff(self.game.payoffs),
                scores@.len() == y,
                rectangular(scores@, w as nat),
                forall|yy: int, x: int|
                    0 <= yy < y && 0 <= x < w ==> possible_cell_score(self.game, self.grid@, yy, x, #[trigger] scores@[yy]@[x]),
        {
            let mut row: Vec<i32> = Vec::new();
            for x in 0..w
                invariant
                    h == self.grid@.len(),
                    w == self.grid@[0]@.len(),
                    y < h,
                    self.well_shaped(),
                    self.step_fits(),
                    bound == self.game.iterations * max_abs_payoff(self.game.payoffs),
                    row@.len() == x,
                    forall|xx: int| 0 <= xx < x ==> possible_cell_score(self.game, self.grid@, y as int, xx, #[trigger] row@[xx]),
            {
                let mut total: i32 = 0;
                let ghost mut played: Seq<(i32, i32)> = Seq::empty();
                for k in 0..9
                    invariant
                        h == self.grid@.len(),
                        w == self.grid@[0]@.len(),
                        y < h,
                        x < w,
                        self.well_shaped(),
                        self.step_fits(),
                        bound == self.game.iterations * max_abs_payoff(self.game.payoffs),
                        abs(total as int) <= (if k <= 4 { k as int } else { k - 1 }) * bound,
                        played.len() == (if k <= 4 { k as int } else { k - 1 }),
                        total as int == first_scores_sum(played),
                        forall|j: int|
                            0 <= j < played.len() ==> neighbour_match(self.game, self.grid@, y as int, x as int, j, #[trigger] played[j]),
                {
                    if k != 4 {
                        let ny = wrap_index(y, k / 3, h);
                        let nx = wrap_index(x, k % 3, w);
                        assert(self.grid@[y as int]@.len() >= w);
                        assert(self.grid@[ny as int]@.len() >= w);
                        let mut s1 = self.grid[y][x].clone_box();
                        let mut s2 = self.grid[ny][nx].clone_box();
                        let ghost c1 = s1;
                        let ghost c2 = s2;
                        let (a0, b0, hist) = self.game.play(&mut s1, &mut s2, None);
                        let ghost m = max_abs_payoff(self.game.payoffs);
                        proof {
                            lemma_totals_bounded(self.game.payoffs, hist@);
                        }
                        let a = project(a0, hist.len(), self.game.iterations, Ghost(m));
                        let b = project(b0, hist.len(), self.game.iterations, Ghost(m));
                        proof {
                            let c: int = if k <= 4 { k as int } else { k - 1 };
                            assert(neighbour_place(c) == k);
                            assert(grid_neighbour(self.grid@, y as int, x as int, c) == (ny as int, nx as int));
                            let flips = choose|flips: Seq<(bool, bool)>| #[trigger] match_history(self.game, c1, c2, hist@, flips);
                            lemma_outcome_of_history(
                                self.game,
                                c1,
                                self.grid@[y as int]@[x as int],
                                c2,
                                self.grid@[ny as int]@[nx as int],
                                hist@,
                                flips,
                            );
                            if S::is_reactive() && self.game.seed is Some {
                                lemma_seed_fixes_match(
                                    self.game,
                                    c1,
                                    self.grid@[y as int]@[x as int],
                                    c2,
                                    self.grid@[ny as int]@[nx as int],
                                    crate::rng::key_of_seed(self.game.seed->0),
                                    (self.game.iterations + 1) as nat,
                                );
                            }
                            assert(neighbour_match(self.game, self.grid@, y as int, x as int, c, (a, b)));
                            let c: int = if k <= 4 { k as int } else { k - 1 };
                            assert(c * bound + bound == (c + 1) * bound) by (nonlinear_arith);
                            assert((c + 1) * bound <= 8 * bound) by (nonlinear_arith)
                                requires c < 8, bound >= 0;
                        }
                        total = total + a;
                        proof {
                            let prev = played;
                            played = played.push((a, b));
                            assert(played.drop_last() =~= prev);
                            assert forall|j: int| 0 <= j < played.len() implies neighbour_match(
                                self.game,
                                self.grid@,
                                y as int,
                                x as int,
                                j,
                                #[trigger] played[j],
                            ) by {
                                if j < prev.len() {
                                    assert(played[j] == prev[j]);
                                }
                            }
                        }
                    } else {
                        assert(k == 4);
                    }
                }
                assert(possible_cell_score(self.game, self.grid@, y as int, x as int, total));
                let ghost before = row@;
                row.push(total);
                assert forall|xx: int| 0 <= xx < x + 1 implies possible_cell_score(self.game, self.grid@, y as int, xx, #[trigger] row@[xx]) by {
                    if xx < x {
                        assert(row@[xx] == before[xx]);
                    }
                }
            }
            let ghost before = scores@;
            scores.push(row);
            assert forall|yy: int, xx: int|
                0 <= yy < y + 1 && 0 <= xx < w implies possible_cell_score(self.game, self.grid@, yy, xx, #[trigger] scores@[yy]@[xx]) by {
                if yy < y {
                    assert(scores@[yy] == before[yy]);
                }
            }
        }
        scores
    }

    /// One generation: every cell plays its eight neighbours (on copies) and
    /// totals its scores, each per round played and projected to the game's
    /// full length; then it becomes a copy of the best scoring cell of its neighbourhood,
    /// itself included, the first in reading order among equals, and itself
    /// unless a neighbour scored strictly more. The grid's width is that of
    /// its first row; cells beyond it in longer rows take no part and are
    /// dropped.
    pub fn step(&mut self)
        requires
            old(self).well_shaped(),
            old(self).step_fits(),
        ensures
            final(self).game == old(self).game,
            final(self).grid@.len() == old(self).grid@.len(),
            rectangular(final(self).grid@, old(self).grid@[0]@.len()),
            exists|scores: Seq<Seq<i32>>|
                #[trigger] copies_best(old(self).game, old(self).grid@, scores, final(self).grid@),
    {
        let h = self.grid.len();
        let w = self.grid[0].len();
        let scores = self.neighbourhood_scores();
        let choice = best_neighbors(&scores);
        let ghost sv = rows_view(scores@);
        assert(rectangular_view(sv, w as nat));
        let mut new_grid: Vec<Vec<S>> = Vec::new();
        for y in 0..h
            invariant
                h == self.grid@.len(),
                w == self.grid@[0]@.len(),
                self.well_shaped(),
                sv == rows_view(scores@),
                sv.len() == h,
                rectangular_view(sv, w as nat),
                choice@.len() == h,
                rectangular(choice@, w as nat),
                forall|yy: int, x: int|
                    0 <= yy < h && 0 <= x < w ==> (#[trigger] choice@[yy]@[x]).0 as int == best_neighbor(sv, yy, x).0
                        && choice@[yy]@[x].1 as int == best_neighbor(sv, yy, x).1,
                new_grid@.len() == y,
                rectangular(new_grid@, w as nat),
                forall|yy: int, x: int|
                    0 <= yy < y && 0 <= x < w ==> (#[trigger] new_grid@[yy]@[x]).label() == self.grid@[best_neighbor(sv, yy, x).0]@[best_neighbor(sv, yy, x).1].label(),
                S::is_reactive() ==> forall|yy: int, x: int|
                    0 <= yy < y && 0 <= x < w ==> same_play(#[trigger] new_grid@[yy]@[x], self.grid@[best_neighbor(sv, yy, x).0]@[best_neighbor(sv, yy, x).1]),
        {
            let mut row: Vec<S> = Vec::new();
            for x in 0..w
                invariant
                    h == self.grid@.len(),
                    w == self.grid@[0]@.len(),
                    y < h,
                    self.well_shaped(),
                    sv == rows_view(scores@),
                    sv.len() == h,
                    rectangular_view(sv, w as nat),
                    choice@.len() == h,
                    rectangular(choice@, w as nat),
                    forall|yy: int, xx: int|
                        0 <= yy < h && 0 <= xx < w ==> (#[trigger] choice@[yy]@[xx]).0 as int == best_neighbor(sv, yy, xx).0
                            && choice@[yy]@[xx].1 as int == best_neighbor(sv, yy, xx).1,
                    row@.len() == x,
                    forall|xx: int|
                        0 <= xx < x ==> (#[trigger] row@[xx]).label() == self.grid@[best_neighbor(sv, y as int, xx).0]@[best_neighbor(sv, y as int, xx).1].label(),
                    S::is_reactive() ==> forall|xx: int|
                        0 <= xx < x ==> same_play(#[trigger] row@[xx], self.grid@[best_neighbor(sv, y as int, xx).0]@[best_neighbor(sv, y as int, xx).1]),
            {
                proof {
                    lemma_best_in_range(sv, y as int, x as int, 9);
                }
                assert(choice@[y as int]@.len() == w);
                let (by, bx) = choice[y][x];
                assert(self.grid@[by as int]@.len() >= w);
                row.push(self.grid[by][bx].clone_box());
            }
            new_grid.push(row);
        }
        let ghost old_grid = self.grid@;
        self.grid = new_grid;
        assert(copies_best(self.game, old_grid, sv, self.grid@));
    }

    /// How many cells carry each name. Names are listed once each, in order
    /// of first occurrence, row by row.
    pub fn get_population_counts(&self) -> (r: Vec<(String, usize)>)
        ensures
            is_count(grid_names(self.grid@), r@),
    {
        let h = self.grid.len();
        let mut names: Vec<String> = Vec::new();
        for y in 0..h
            invariant
                h == self.grid@.len(),
                string_views(names@) == grid_names(self.grid@.take(y as int)),
        {
            let ghost start = names@;
            let w = self.grid[y].len();
            for x in 0..w
                invariant
                    h == self.grid@.len(),
                    y < h,
                    w == self.grid@[y as int]@.len(),
                    string_views(start) == grid_names(self.grid@.take(y as int)),
                    string_views(names@) == string_views(start) + labels(self.grid@[y as int]@.take(x as int)),
            {
                let ghost before = names@;
                names.push(String::from_str(self.grid[y][x].name()));
                assert(labels(self.grid@[y as int]@.take(x + 1)) =~= labels(self.grid@[y as int]@.take(x as int)).push(self.grid@[y as int]@[x as int].label()));
                assert(string_views(names@) =~= string_views(before).push(names@[x + start.len()]@));
            }
            assert(self.grid@[y as int]@.take(w as int) =~= self.grid@[y as int]@);
            assert(self.grid@.take(y + 1).drop_last() =~= self.grid@.take(y as int));
        }
        assert(self.grid@.take(h as int) =~= self.grid@);
        count_names(&names)
    }
}

/// Each cell of `after` is a copy of the cell of `before` that it copies
/// under the neighbourhood scores (the same name; for reactive strategies
/// the same play), each score being what its cell can total over its
/// matches against its eight neighbours in `before`.
pub open spec fn copies_best<S: Strategy>(game: Game, before: Seq<Vec<S>>, scores: Seq<Seq<i32>>, after: Seq<Vec<S>>) -> bool {
    &&& scores.len() == before.len()
    &&& scores.len() > 0
    &&& rectangular_view(scores, before[0]@.len())
    &&& forall|y: int, x: int|
        0 <= y < scores.len() && 0 <= x < before[0]@.len() ==> possible_cell_score(game, before, y, x, #[trigger] scores[y][x])
    &&& forall|y: int, x: int|
        0 <= y < after.len() && 0 <= x < after[y]@.len() ==> (#[trigger] after[y]@[x]).label()
            == before[best_neighbor(scores, y, x).0]@[best_neighbor(scores, y, x).1].label()
    &&& S::is_reactive() ==> forall|y: int, x: int|
        0 <= y < after.len() && 0 <= x < after[y]@.len() ==> same_play(
            #[trigger] after[y]@[x],
            before[best_neighbor(scores, y, x).0]@[best_neighbor(scores, y, x).1],
        )
}

/// The `k`-th cell of the neighbourhood of `(y, x)`, row by row.
pub open spec fn neighbor(scores: Seq<Seq<i32>>, y: int, x: int, k: int) -> (int, int) {
    (wrap(y, k / 3, scores.len() as int), wrap(x, k % 3, scores[0].len() as int))
}

/// The copied cell scores at least as much as the cell itself and as every
/// cell of its neighbourhood, and a cell that no neighbour beats strictly
/// keeps its own strategy.
pub proof fn lemma_best_neighbor_is_best(scores: Seq<Seq<i32>>, y: int, x: int, k: nat)
    requires
        k <= 9,
    ensures
        ({
            let b = best_after(scores, y, x, k);
            &&& scores[b.0][b.1] >= scores[y][x]
            &&& forall|j: int|
                0 <= j < k ==> scores[neighbor(scores, y, x, j).0][neighbor(scores, y, x, j).1]
                    <= scores[b.0][b.1]
            &&& (forall|j: int|
                0 <= j < k ==> scores[neighbor(scores, y, x, j).0][neighbor(scores, y, x, j).1]
                    <= scores[y][x]) ==> b == (y, x)
        }),
    decreases k,
{
    if k > 0 {
        let j0: int = k - 1;
        lemma_best_neighbor_is_best(scores, y, x, j0 as nat);
        let prev = best_after(scores, y, x, j0 as nat);
        let nb = neighbor(scores, y, x, j0);
        assert(nb.0 == wrap(y, (k - 1) / 3, scores.len() as int));
        assert(nb.1 == wrap(x, (k - 1) % 3, scores[0].len() as int));
        let b = best_after(scores, y, x, k);
        assert(b == (if scores[nb.0][nb.1] > scores[prev.0][prev.1] { nb } else { prev }));
        assert forall|j: int| 0 <= j < k implies scores[neighbor(scores, y, x, j).0][neighbor(
            scores,
            y,
            x,
            j,
        ).1] <= scores[b.0][b.1] by {
            if j < j0 {
                assert(scores[neighbor(scores, y, x, j).0][neighbor(scores, y, x, j).1] <= scores[prev.0][prev.1]);
            }
        }
        if forall|j: int|
            0 <= j < k ==> scores[neighbor(scores, y, x, j).0][neighbor(scores, y, x, j).1]
                <= scores[y][x] {
            assert(forall|j: int|
                0 <= j < j0 ==> scores[neighbor(scores, y, x, j).0][neighbor(scores, y, x, j).1]
                    <= scores[y][x]);
            assert(prev == (y, x));
            assert(scores[nb.0][nb.1] <= scores[y][x]);
        }
    }
}

/// On a ring of `n` cells, the three cells around `y` are the one before it,
/// itself and the one after it, the ends joining up.
pub proof fn lemma_wrap_steps(y: int, n: int)
    requires
        0 <= y < n,
    ensures
        wrap(y, 0, n) == (if y == 0 { n - 1 } else { y - 1 }),
        wrap(y, 1, n) == y,
        wrap(y, 2, n) == (if y == n - 1 { 0 } else { y + 1 }),
{
    lemma_small_mod(y as nat, n as nat);
    if y == 0 {
        lemma_small_mod((n - 1) as nat, n as nat);
    } else {
        lemma_mod_add_multiples_vanish(y - 1, n);
        lemma_small_mod((y - 1) as nat, n as nat);
    }
    lemma_mod_add_multiples_vanish(y, n);
    if y == n - 1 {
        lemma_mod_self_0(n);
        lemma_mod_add_multiples_vanish(n, n);
    } else {
        lemma_mod_add_multiples_vanish(y + 1, n);
        lemma_small_mod((y + 1) as nat, n as nat);
    }
}

/// A step `d - 1` (back, none or forward) from `y` on a ring of `n` cells.
proof fn lemma_wrap_is_step(y: int, d: int, n: int)
    requires
        n > 0,
    ensures
        wrap(y, d, n) == (y + (d - 1)) % n,
{
    lemma_mod_add_multiples_vanish(y + d - 1, n);
}

/// The steps to the eight neighbours of a cell, row by row.
pub open spec fn moore_steps() -> Seq<(int, int)> {
    seq![(-1int, -1int), (-1, 0), (-1, 1), (0, -1), (0, 1), (1, -1), (1, 0), (1, 1)]
}

/// The steps to the nine cells of a neighbourhood, the cell itself among
/// them, row by row.
pub open spec fn neighbourhood_steps() -> Seq<(int, int)> {
    seq![(-1int, -1int), (-1, 0), (-1, 1), (0, -1), (0, 0), (0, 1), (1, -1), (1, 0), (1, 1)]
}

/// The cells a cell plays are its eight neighbours on the torus: the cells
/// one step away in each direction, rows and columns wrapping around.
pub proof fn lemma_plays_moore_neighbours<S>(grid: Seq<Vec<S>>, y: int, x: int)
    requires
        grid.len() > 0,
        grid[0]@.len() > 0,
    ensures
        forall|j: int|
            0 <= j < 8 ==> #[trigger] grid_neighbour(grid, y, x, j) == (
                (y + moore_steps()[j].0) % (grid.len() as int),
                (x + moore_steps()[j].1) % (grid[0]@.len() as int),
            ),
{
    let h = grid.len() as int;
    let w = grid[0]@.len() as int;
    assert forall|j: int| 0 <= j < 8 implies #[trigger] grid_neighbour(grid, y, x, j) == (
        (y + moore_steps()[j].0) % h,
        (x + moore_steps()[j].1) % w,
    ) by {
        let p = neighbour_place(j);
        lemma_wrap_is_step(y, p / 3, h);
        lemma_wrap_is_step(x, p % 3, w);
        if j == 0 {
        } else if j == 1 {
        } else if j == 2 {
        } else if j == 3 {
        } else if j == 4 {
        } else if j == 5 {
        } else if j == 6 {
        } else {
        }
    }
}

/// The cells a cell may copy are the nine of its neighbourhood on the
/// torus: itself and the cells one step away in each direction.
pub proof fn lemma_copies_from_neighbourhood(scores: Seq<Seq<i32>>, y: int, x: int)
    requires
        scores.len() > 0,
        scores[0].len() > 0,
    ensures
        forall|k: int|
            0 <= k < 9 ==> #[trigger] neighbor(scores, y, x, k) == (
                (y + neighbourhood_steps()[k].0) % (scores.len() as int),
                (x + neighbourhood_steps()[k].1) % (scores[0].len() as int),
            ),
{
    let h = scores.len() as int;
    let w = scores[0].len() as int;
    assert forall|k: int| 0 <= k < 9 implies #[trigger] neighbor(scores, y, x, k) == (
        (y + neighbourhood_steps()[k].0) % h,
        (x + neighbourhood_steps()[k].1) % w,
    ) by {
        lemma_wrap_is_step(y, k / 3, h);
        lemma_wrap_is_step(x, k % 3, w);
        if k == 0 {
        } else if k == 1 {
        } else if k == 2 {
        } else if k == 3 {
        } else if k == 4 {
        } else if k == 5 {
        } else if k == 6 {
        } else if k == 7 {
        } else {
        }
    }
}

} // verus!
