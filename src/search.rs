//! Forced-move propagation and the bounded backtracking search.
use vstd::prelude::*;
use crate::cell::CellValue;
use crate::game::Game;
use crate::grid::{
    cell_at, conflict_free, empty_cells, extends, filled, first_solution, in_grid, is_digit,
    is_solved_grid, lemma_cell_index, lemma_count_empty_bounds, lemma_extends_trans,
    lemma_filled_iff_no_empty, lemma_filled_lex_le, lemma_lex_le_at, lemma_put_open,
    lemma_solution_implies_valid, lex_le, open_to, put, solution_of, solvable, well_shaped, Grid,
};

verus! {

/// `d` is the only digit that the empty cell `(r, c)` is open to.
pub open spec fn sole_open(g: Grid, r: int, c: int, d: int) -> bool {
    &&& is_digit(d)
    &&& open_to(g, r, c, d)
    &&& forall|d2: int| is_digit(d2) && #[trigger] open_to(g, r, c, d2) ==> d2 == d
}

/// The step of a propagation pass at cell `(r, c)`: an empty cell with a
/// single open digit receives it; any other cell stays as it is.
pub open spec fn pass_step(g: Grid, r: int, c: int) -> Grid {
    if g[r][c] == 0 && exists|d: int| sole_open(g, r, c, d) {
        put(g, r, c, choose|d: int| sole_open(g, r, c, d))
    } else {
        g
    }
}

/// The board after a propagation pass has visited the first `k` cells in
/// row-major order; each step sees the cells that earlier steps filled.
pub open spec fn propagation_pass(g: Grid, k: int) -> Grid
    decreases k,
{
    if k <= 0 {
        g
    } else {
        pass_step(propagation_pass(g, k - 1), (k - 1) / 9, (k - 1) % 9)
    }
}

impl Game {
    /// `d` is the only candidate left for cell `(r, c)`.
    pub open spec fn sole_candidate(self, r: int, c: int, d: int) -> bool {
        &&& is_digit(d)
        &&& self.possible(r, c, d)
        &&& forall|d2: int| is_digit(d2) && #[trigger] self.possible(r, c, d2) ==> d2 == d
    }

    /// Some empty cell has exactly one candidate.
    pub open spec fn has_forced_cell(self) -> bool {
        exists|r: int, c: int, d: int| in_grid(r, c) && #[trigger] self@[r][c] == 0 && #[trigger] self.sole_candidate(r, c, d)
    }

    /// What one propagation pass does, from state `before` to state `after`,
    /// returning `changed`.
    pub open spec fn propagate_post(before: Game, after: Game, changed: bool) -> bool {
        &&& after.wf()
        &&& after@ == if is_solved_grid(before@) {
            before@
        } else {
            propagation_pass(before@, 81)
        }
        &&& changed == before.has_forced_cell()
        &&& !changed ==> after == before
        &&& changed ==> empty_cells(after@) < empty_cells(before@)
        &&& extends(after@, before@)
        &&& forall|s: Grid| solution_of(s, before@) ==> #[trigger] solution_of(s, after@)
        &&& conflict_free(before@) ==> conflict_free(after@)
    }

    /// What `solve` does, from state `before` to state `after`, returning `solved`.
    pub open spec fn solve_post(before: Game, after: Game, solved: bool) -> bool {
        &&& after.wf()
        &&& solved == solvable(before@)
        &&& solved ==> first_solution(after@, before@)
        &&& !solved ==> after == before
        &&& is_solved_grid(before@) ==> after == before
    }

    /// Once a pass has filled nothing, the next pass fills nothing and changes nothing.
    pub proof fn lemma_propagate_idempotent(g0: Game, g1: Game, g2: Game, changed: bool)
        requires
            Game::propagate_post(g0, g1, false),
            Game::propagate_post(g1, g2, changed),
        ensures
            !changed,
            g2 == g1,
    {
    }

    /// On a puzzle with exactly one solution, `solve` succeeds and yields that solution.
    pub proof fn lemma_solve_finds_unique_solution(before: Game, after: Game, solved: bool, s: Grid)
        requires
            Game::solve_post(before, after, solved),
            solution_of(s, before@),
            forall|t: Grid| #[trigger] solution_of(t, before@) ==> t == s,
        ensures
            solved,
            after@ == s,
    {
    }

    /// The only candidate of cell `(y, x)`, if it has exactly one.
    fn single_candidate(&self, y: usize, x: usize) -> (r: Option<CellValue>)
        requires
            y < 9,
            x < 9,
        ensures
            r is Some <==> exists|d: int| self.sole_candidate(y as int, x as int, d),
            r matches Some(v) ==> self.sole_candidate(y as int, x as int, v.digit()),
    {
        let mut found: Option<CellValue> = None;
        let mut count: usize = 0;
        for i in 0..9
            invariant
                y < 9,
                x < 9,
                count <= i,
                count == 0 <==> found is None,
                count == 0 ==> forall|d: int| 1 <= d <= i ==> !#[trigger] self.possible(y as int, x as int, d),
                count == 1 ==> (found matches Some(v) && 1 <= v.digit() <= i && self.possible(y as int, x as int, v.digit())
                    && forall|d: int| 1 <= d <= i && #[trigger] self.possible(y as int, x as int, d) ==> d == v.digit()),
                count >= 2 ==> exists|d1: int, d2: int| 1 <= d1 < d2 <= i && #[trigger] self.possible(y as int, x as int, d1) && #[trigger] self.possible(y as int, x as int, d2),
        {
            let cv = CellValue::from_index(i);
            if self.is_possible(y, x, cv) {
                if count == 1 {
                    proof {
                        let v = found.unwrap();
                        assert(self.possible(y as int, x as int, v.digit()) && self.possible(y as int, x as int, i + 1));
                    }
                }
                if count == 0 {
                    found = Some(cv);
                }
                count = count + 1;
            }
        }
        if count == 1 {
            proof {
                let v = found.unwrap();
                assert(self.sole_candidate(y as int, x as int, v.digit()));
            }
            found
        } else {
            proof {
                if count == 0 {
                    assert forall|d: int| !self.sole_candidate(y as int, x as int, d) by {}
                }
                if count >= 2 {
                    let (d1, d2) = choose|d1: int, d2: int| 1 <= d1 < d2 <= 9 && #[trigger] self.possible(y as int, x as int, d1) && #[trigger] self.possible(y as int, x as int, d2);
                    assert forall|d: int| !self.sole_candidate(y as int, x as int, d) by {
                        if self.sole_candidate(y as int, x as int, d) {
                            assert(d1 == d && d2 == d);
                        }
                    }
                }
            }
            None
        }
    }

    /// Placing the sole candidate of an empty cell keeps every solution, keeps the
    /// rules and fills one cell.
    proof fn lemma_forced_move(g: Game, y: int, x: int, d: int)
        requires
            g.wf(),
            in_grid(y, x),
            g@[y][x] == 0,
            g.sole_candidate(y, x, d),
        ensures
            open_to(g@, y, x, d),
            well_shaped(put(g@, y, x, d)),
            extends(put(g@, y, x, d), g@),
            conflict_free(g@) ==> conflict_free(put(g@, y, x, d)),
            empty_cells(put(g@, y, x, d)) < empty_cells(g@),
            forall|s: Grid| solution_of(s, g@) ==> #[trigger] solution_of(s, put(g@, y, x, d)),
    {
        assert(g.poss_ok(y, x));
        lemma_put_open(g@, y, x, d);
        assert forall|s: Grid| solution_of(s, g@) implies #[trigger] solution_of(s, put(g@, y, x, d)) by {
            lemma_solution_implies_valid(s, g@);
            assert(open_to(g@, y, x, s[y][x]));
            assert(g.possible(y, x, s[y][x]));
            assert(s[y][x] == d);
            let h = put(g@, y, x, d);
            assert forall|r: int, c: int| in_grid(r, c) && h[r][c] != 0 implies #[trigger] s[r][c] == h[r][c] by {
                if r != y || c != x {
                    assert(h[r][c] == g@[r][c]);
                }
            }
        }
    }

    /// One propagation pass: scans the cells in row-major order and fills each
    /// empty cell that has exactly one candidate at the moment it is reached.
    /// Returns whether any cell was filled; on a solved board it does nothing.
    pub fn propagate_poss_to_board(&mut self) -> (changed: bool)
        requires
            old(self).wf(),
        ensures
            Game::propagate_post(*old(self), *final(self), changed),
    {
        if self.solved() {
            proof {
                lemma_filled_iff_no_empty(self@);
                if self.has_forced_cell() {
                    let (r, c, d) = choose|r: int, c: int, d: int| in_grid(r, c) && #[trigger] self@[r][c] == 0 && #[trigger] self.sole_candidate(r, c, d);
                }
            }
            return false;
        }
        let ghost start = *self;
        let mut made_change = false;
        for k in 0..81
            invariant
                start.wf(),
                self.wf(),
                !made_change ==> *self == start,
                !made_change ==> forall|r: int, c: int, d: int|
                    in_grid(r, c) && 9 * r + c < k && #[trigger] start@[r][c] == 0 ==> !#[trigger] start.sole_candidate(r, c, d),
                made_change ==> start.has_forced_cell(),
                self@ == propagation_pass(start@, k as int),
                made_change ==> empty_cells(self@) < empty_cells(start@),
                extends(self@, start@),
                forall|s: Grid| solution_of(s, start@) ==> #[trigger] solution_of(s, self@),
                conflict_free(start@) ==> conflict_free(self@),
        {
            let y = k / 9;
            let x = k % 9;
            let ghost before = *self;
            proof {
                assert(propagation_pass(start@, k + 1) == pass_step(before@, y as int, x as int));
                assert(before.poss_ok(y as int, x as int));
            }
            if self.cell(y, x).is_none() {
                if let Some(cv) = self.single_candidate(y, x) {
                    proof {
                        Game::lemma_forced_move(before, y as int, x as int, cv.digit());
                        let g = before@;
                        assert forall|d2: int| is_digit(d2) && #[trigger] open_to(g, y as int, x as int, d2) implies d2 == cv.digit() by {
                            assert(before.possible(y as int, x as int, d2));
                        }
                        assert(sole_open(g, y as int, x as int, cv.digit()));
                        let d = choose|d: int| sole_open(g, y as int, x as int, d);
                        assert(open_to(g, y as int, x as int, d));
                        assert(d == cv.digit());
                    }
                    self.set_cell(y, x, cv);
                    proof {
                        if !made_change {
                            assert(in_grid(y as int, x as int) && start@[y as int][x as int] == 0);
                            assert(start.sole_candidate(y as int, x as int, cv.digit()));
                        }
                        lemma_extends_trans(self@, before@, start@);
                        assert forall|s: Grid| solution_of(s, start@) implies #[trigger] solution_of(s, self@) by {
                            assert(solution_of(s, before@));
                        }
                    }
                    made_change = true;
                } else {
                    proof {
                        assert forall|d: int| !sole_open(before@, y as int, x as int, d) by {
                            if sole_open(before@, y as int, x as int, d) {
                                assert forall|d2: int| is_digit(d2) && #[trigger] before.possible(y as int, x as int, d2) implies d2 == d by {
                                    assert(open_to(before@, y as int, x as int, d2));
                                }
                                assert(before.sole_candidate(y as int, x as int, d));
                            }
                        }
                        if !made_change {
                            assert forall|d: int| !start.sole_candidate(y as int, x as int, d) by {
                                if start.sole_candidate(y as int, x as int, d) {
                                    assert(exists|d: int| self.sole_candidate(y as int, x as int, d));
                                }
                            }
                        }
                    }
                }
            }
            proof {
                if !made_change {
                    assert forall|r: int, c: int, d: int|
                        in_grid(r, c) && 9 * r + c < k + 1 && #[trigger] start@[r][c] == 0 implies !#[trigger] start.sole_candidate(r, c, d) by {
                        if 9 * r + c == k {
                            assert(r == y && c == x);
                        }
                    }
                }
            }
        }
        proof {
            if !made_change && start.has_forced_cell() {
                let (r, c, d) = choose|r: int, c: int, d: int| in_grid(r, c) && #[trigger] start@[r][c] == 0 && #[trigger] start.sole_candidate(r, c, d);
                assert(9 * r + c < 81);
            }
        }
        made_change
    }

    /// The search's induction step: when every solution of `start` is one of `here`,
    /// every solution of `here` holds at least `d` in its first empty cell `(y, x)`,
    /// and `found` is the first solution of `here` with `d` placed there, then
    /// `found` is the first solution of `start`.
    proof fn lemma_branch_first(start: Grid, here: Grid, branch: Grid, found: Grid, y: int, x: int, d: int)
        requires
            in_grid(y, x),
            well_shaped(here),
            is_digit(d),
            here[y][x] == 0,
            branch == put(here, y, x, d),
            extends(branch, here),
            solution_of(found, start),
            extends(found, branch),
            is_solved_grid(found),
            forall|s: Grid| solution_of(s, start) ==> #[trigger] solution_of(s, here),
            forall|j: int| 0 <= j < 9 * y + x ==> #[trigger] cell_at(here, j) != 0,
            forall|s: Grid| solution_of(s, here) ==> #[trigger] s[y][x] >= d,
            filled(branch) || forall|t: Grid| #[trigger] solution_of(t, branch) ==> lex_le(found, t),
        ensures
            first_solution(found, start),
    {
        lemma_cell_index(y, x);
        let k = 9 * y + x;
        assert forall|t: Grid| #[trigger] solution_of(t, start) implies lex_le(found, t) by {
            assert(solution_of(t, here));
            assert(t[y][x] >= d);
            assert(found[y][x] == d);
            lemma_extends_trans(found, branch, here);
            if t[y][x] == d {
                assert forall|r: int, c: int| in_grid(r, c) && branch[r][c] != 0 implies #[trigger] t[r][c] == branch[r][c] by {
                    if r != y || c != x {
                        assert(branch[r][c] == here[r][c]);
                    }
                }
                assert(solution_of(t, branch));
                if filled(branch) {
                    assert forall|r: int, c: int| in_grid(r, c) && found[r][c] != 0 implies #[trigger] t[r][c] == found[r][c] by {
                        assert(branch[r][c] != 0);
                    }
                    lemma_filled_lex_le(found, t);
                }
            } else {
                assert(cell_at(found, k) < cell_at(t, k));
                lemma_lex_le_at(found, t, here, k);
            }
        }
    }

    /// Runs propagation passes until one fills nothing.
    fn propagate_to_fixpoint(&mut self)
        requires
            old(self).wf(),
        ensures
            final(self).wf(),
            !final(self).has_forced_cell(),
            extends(final(self)@, old(self)@),
            forall|s: Grid| solution_of(s, old(self)@) ==> #[trigger] solution_of(s, final(self)@),
            conflict_free(old(self)@) ==> conflict_free(final(self)@),
            empty_cells(final(self)@) <= empty_cells(old(self)@),
    {
        let ghost start = *self;
        loop
            invariant
                self.wf(),
                extends(self@, start@),
                forall|s: Grid| solution_of(s, start@) ==> #[trigger] solution_of(s, self@),
                conflict_free(start@) ==> conflict_free(self@),
                empty_cells(self@) <= empty_cells(start@),
            ensures
                self.wf(),
                !self.has_forced_cell(),
                extends(self@, start@),
                forall|s: Grid| solution_of(s, start@) ==> #[trigger] solution_of(s, self@),
                conflict_free(start@) ==> conflict_free(self@),
                empty_cells(self@) <= empty_cells(start@),
            decreases empty_cells(self@),
        {
            let ghost before = *self;
            proof { lemma_count_empty_bounds(before@, 81); }
            let changed = self.propagate_poss_to_board();
            proof {
                lemma_count_empty_bounds(self@, 81);
                lemma_extends_trans(self@, before@, start@);
                assert forall|s: Grid| solution_of(s, start@) implies #[trigger] solution_of(s, self@) by {
                    assert(solution_of(s, before@));
                }
            }
            if !changed {
                break;
            }
        }
    }

    /// One level of the search: propagates, then tries each candidate of the
    /// first empty cell in ascending order, each on a copy of the state, and
    /// recurses on the copies that stay valid. `depth` counts the guesses made
    /// so far; past `max_depth` the branch fails.
    fn solve_recursive(&mut self, depth: usize, max_depth: usize) -> (found: bool)
        requires
            old(self).wf(),
            conflict_free(old(self)@),
            max_depth <= 81,
        ensures
            final(self).wf(),
            found ==> is_solved_grid(final(self)@) && extends(final(self)@, old(self)@),
            solvable(old(self)@) && empty_cells(old(self)@) + depth <= max_depth ==> found,
            found && empty_cells(old(self)@) + depth <= max_depth ==> first_solution(final(self)@, old(self)@),
            depth > max_depth ==> !found && *final(self) == *old(self),
        decreases max_depth + 1 - depth,
    {
        if depth > max_depth {
            proof { lemma_count_empty_bounds(self@, 81); }
            return false;
        }
        let ghost start = *self;
        self.propagate_to_fixpoint();
        if self.solved() {
            proof {
                assert forall|t: Grid| #[trigger] solution_of(t, start@) implies lex_le(self@, t) by {
                    assert(solution_of(t, self@));
                    lemma_filled_lex_le(self@, t);
                }
                assert(solution_of(self@, self@));
                lemma_extends_trans(self@, self@, start@);
            }
            return true;
        }
        proof {
            lemma_filled_iff_no_empty(self@);
            assert(!filled(self@));
        }
        let (y, x) = self.first_empty();
        let ghost here = *self;
        proof {
            if solvable(start@) {
                let s = choose|s: Grid| solution_of(s, start@);
                assert(solution_of(s, here@));
            }
            assert forall|s: Grid| solution_of(s, here@) implies #[trigger] s[y as int][x as int] > 0 by {
                assert(s[y as int][x as int] != 0);
            }
            assert forall|j: int| 0 <= j < 9 * y + x implies #[trigger] cell_at(here@, j) != 0 by {
                assert(in_grid(j / 9, j % 9));
                lemma_cell_index(y as int, x as int);
            }
        }
        for i in 0..9
            invariant
                *self == here,
                start == *old(self),
                here.wf(),
                conflict_free(here@),
                in_grid(y as int, x as int),
                here@[y as int][x as int] == 0,
                depth <= max_depth <= 81,
                extends(here@, start@),
                solvable(start@) ==> solvable(here@),
                empty_cells(here@) <= empty_cells(start@),
                forall|s: Grid| solution_of(s, start@) ==> #[trigger] solution_of(s, here@),
                forall|j: int| 0 <= j < 9 * y + x ==> #[trigger] cell_at(here@, j) != 0,
                empty_cells(here@) + depth <= max_depth
                    ==> forall|s: Grid| solution_of(s, here@) ==> #[trigger] s[y as int][x as int] > i,
        {
            let cv = CellValue::from_index(i);
            let d = i + 1;
            if self.is_possible(y, x, cv) {
                proof {
                    assert(here.poss_ok(y as int, x as int));
                    lemma_put_open(here@, y as int, x as int, d as int);
                }
                let mut new = *self;
                new.set_cell(y, x, cv);
                let ghost branch = new;
                if new.is_valid() {
                    if new.solved() {
                        proof {
                            assert(new@ == put(here@, y as int, x as int, d as int));
                            assert(extends(new@, here@));
                            lemma_extends_trans(new@, here@, start@);
                            assert(is_solved_grid(new@));
                            if empty_cells(start@) + depth <= max_depth {
                                Game::lemma_branch_first(start@, here@, new@, new@, y as int, x as int, d as int);
                            }
                        }
                        *self = new;
                        return true;
                    }
                    if new.solve_recursive(depth + 1, max_depth) {
                        proof {
                            assert(branch@ == put(here@, y as int, x as int, d as int));
                            assert(extends(branch@, here@));
                            lemma_extends_trans(new@, branch@, here@);
                            lemma_extends_trans(new@, here@, start@);
                            if empty_cells(start@) + depth <= max_depth {
                                assert(empty_cells(branch@) + depth + 1 <= max_depth);
                                Game::lemma_branch_first(start@, here@, branch@, new@, y as int, x as int, d as int);
                            }
                        }
                        *self = new;
                        return true;
                    }
                }
                proof {
                    if empty_cells(here@) + depth <= max_depth {
                      assert forall|s: Grid| solution_of(s, here@) implies #[trigger] s[y as int][x as int] > i + 1 by {
                        if s[y as int][x as int] == d {
                            let h = branch@;
                            assert forall|r: int, c: int| in_grid(r, c) && h[r][c] != 0 implies #[trigger] s[r][c] == h[r][c] by {
                                if r != y || c != x {
                                    assert(h[r][c] == here@[r][c]);
                                }
                            }
                            assert(solution_of(s, h));
                            lemma_solution_implies_valid(s, h);
                        }
                      }
                    }
                }
            } else {
                proof {
                    if empty_cells(here@) + depth <= max_depth {
                        assert forall|s: Grid| solution_of(s, here@) implies #[trigger] s[y as int][x as int] > i + 1 by {
                            lemma_solution_implies_valid(s, here@);
                            assert(here.poss_ok(y as int, x as int));
                            assert(s[y as int][x as int] != d);
                        }
                    }
                }
            }
        }
        proof {
            if solvable(here@) && empty_cells(here@) + depth <= max_depth {
                let s = choose|s: Grid| solution_of(s, here@);
                assert(s[y as int][x as int] > 9);
                assert(0 <= s[y as int][x as int] <= 9);
            }
        }
        false
    }

    /// Solves the board in place. Returns `true`, with the board filled, when the
    /// puzzle has a solution; returns `false`, leaving the state as it was, when
    /// it has none. A solved board is left untouched.
    pub fn solve(&mut self) -> (solved: bool)
        requires
            old(self).wf(),
        ensures
            Game::solve_post(*old(self), *final(self), solved),
    {
        if self.solved() {
            proof {
                assert(solution_of(self@, self@));
                assert forall|t: Grid| #[trigger] solution_of(t, self@) implies lex_le(self@, t) by {
                    lemma_filled_lex_le(self@, t);
                }
            }
            return true;
        }
        if !self.is_valid() {
            proof {
                if solvable(self@) {
                    let s = choose|s: Grid| solution_of(s, self@);
                    lemma_solution_implies_valid(s, self@);
                }
            }
            return false;
        }
        let mut work = *self;
        work.propagate_to_fixpoint();
        if work.solved() {
            proof {
                assert(solution_of(work@, self@));
                assert forall|t: Grid| #[trigger] solution_of(t, self@) implies lex_le(work@, t) by {
                    assert(solution_of(t, work@));
                    lemma_filled_lex_le(work@, t);
                }
            }
            *self = work;
            return true;
        }
        let cap = work.empty_count();
        proof { lemma_count_empty_bounds(work@, 81); }
        let ghost before = work;
        if work.solve_recursive(0, cap) {
            proof {
                lemma_extends_trans(work@, before@, self@);
                assert(solution_of(work@, self@));
                assert forall|t: Grid| #[trigger] solution_of(t, self@) implies lex_le(work@, t) by {
                    assert(solution_of(t, before@));
                }
            }
            *self = work;
            return true;
        }
        proof {
            if solvable(self@) {
                let s = choose|s: Grid| solution_of(s, self@);
                assert(solution_of(s, before@));
            }
        }
        false
    }
}

} // verus!
