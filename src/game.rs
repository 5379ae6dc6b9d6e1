//! The board together with its per-cell candidate sets and the per-row,
//! per-column and per-region occupancy flags that keep them current.
use vstd::prelude::*;
use crate::cell::{digit_char, CellValue};
use crate::grid::{
    block_has, col_has, conflict_free, count_empty, empty_cells, has_dead_cell, in_grid, is_digit,
    is_solved_grid, is_valid_grid, lemma_open_to_by_groups, lemma_region_of, open_to, peers, put,
    region_of, row_has, well_shaped, Grid,
};

verus! {

/// The digit a cell holds, 0 when it is empty.
pub open spec fn cell_digit(v: Option<CellValue>) -> int {
    match v {
        Some(x) => x.digit(),
        None => 0,
    }
}

/// Cell `(r, c)` shares a row, a column or a region with cell `(row, col)`, or is that cell.
pub open spec fn affected(row: int, col: int, r: int, c: int) -> bool {
    r == row || c == col || (r / 3 == row / 3 && c / 3 == col / 3)
}

/// The board that an input grid describes: 0 is an empty cell, 1..=9 a digit.
pub open spec fn input_grid(numbers: [[u8; 9]; 9]) -> Grid {
    Seq::new(9, |r: int| Seq::new(9, |c: int| numbers[r][c] as int))
}

/// Every entry of an input grid is 0 or a digit.
pub open spec fn digits_in_range(numbers: [[u8; 9]; 9]) -> bool {
    forall|r: int, c: int| in_grid(r, c) ==> #[trigger] numbers[r][c] <= 9
}

/// Why an input grid was refused.
#[derive(Clone, Copy, Debug, PartialEq, Eq, Structural)]
pub enum GridError {
    /// An entry is above 9.
    DigitOutOfRange,
    /// An empty cell has no digit left that its row, column and region allow.
    DeadCell,
    /// A digit stands twice in a row, a column or a region.
    Conflict,
}

/// A board under solution. Each board is an array of rows, addressed `(row, col)`.
#[derive(Clone, Copy)]
pub struct Game {
    board: [[Option<CellValue>; 9]; 9],
    cell_poss: [[[bool; 9]; 9]; 9],
    rows_flags: [[bool; 9]; 9],
    cols_flags: [[bool; 9]; 9],
    sqrs_flags: [[bool; 9]; 9],
}

impl View for Game {
    type V = Grid;

    closed spec fn view(&self) -> Grid {
        Seq::new(9, |r: int| Seq::new(9, |c: int| cell_digit(self.board[r][c])))
    }
}

impl Game {
    /// Digit `d` is still a candidate for cell `(r, c)`.
    pub closed spec fn possible(self, r: int, c: int, d: int) -> bool {
        self.cell_poss[r][c][d - 1]
    }

    /// The candidates of cell `(r, c)` are exact: the digit it holds, or, when
    /// empty, the digits that none of its peers holds.
    pub open spec fn poss_ok(self, r: int, c: int) -> bool {
        forall|d: int|
            is_digit(d) ==> (#[trigger] self.possible(r, c, d) <==> if self@[r][c] == 0 {
                open_to(self@, r, c, d)
            } else {
                self@[r][c] == d
            })
    }

    /// Every cell's candidates are exact.
    pub open spec fn candidates_exact(self) -> bool {
        forall|r: int, c: int| in_grid(r, c) ==> #[trigger] self.poss_ok(r, c)
    }

    /// The occupancy flags say which digits stand in each row, column and region.
    pub closed spec fn flags_exact(self) -> bool {
        &&& forall|r: int, i: int|
            0 <= r < 9 && 0 <= i < 9 ==> #[trigger] self.rows_flags[r][i] == row_has(self@, r, i + 1)
        &&& forall|c: int, i: int|
            0 <= c < 9 && 0 <= i < 9 ==> #[trigger] self.cols_flags[c][i] == col_has(self@, c, i + 1)
        &&& forall|r: int, c: int, i: int|
            in_grid(r, c) && 0 <= i < 9 ==> #[trigger] self.sqrs_flags[region_of(r, c)][i] == block_has(
                self@,
                r,
                c,
                i + 1,
            )
    }

    /// The state is consistent: candidates and flags agree with the board.
    pub open spec fn wf(self) -> bool {
        &&& well_shaped(self@)
        &&& self.candidates_exact()
        &&& self.flags_exact()
    }

    proof fn lemma_view(self)
        ensures
            well_shaped(self@),
            forall|r: int, c: int| in_grid(r, c) ==> #[trigger] self@[r][c] == cell_digit(self.board[r][c]),
    {
        assert forall|r: int, c: int| in_grid(r, c) implies 0 <= #[trigger] self@[r][c] <= 9 by {
            assert(self@[r][c] == cell_digit(self.board[r][c]));
        }
    }

    /// Index of the region that holds cell `(row, col)`.
    fn sqrs_ind(row: usize, col: usize) -> (s: usize)
        requires
            row < 9,
            col < 9,
        ensures
            s == region_of(row as int, col as int),
            s < 9,
    {
        3 * (row / 3) + col / 3
    }

    /// Recomputes the flags of row `r` from the board.
    fn refresh_row(&mut self, r: usize)
        requires
            r < 9,
        ensures
            final(self).board == old(self).board,
            final(self).cell_poss == old(self).cell_poss,
            final(self).cols_flags == old(self).cols_flags,
            final(self).sqrs_flags == old(self).sqrs_flags,
            forall|r2: int| 0 <= r2 < 9 && r2 != r ==> final(self).rows_flags[r2] == old(self).rows_flags[r2],
            forall|i: int| 0 <= i < 9 ==> #[trigger] final(self).rows_flags[r as int][i] == row_has(old(self)@, r as int, i + 1),
    {
        proof { self.lemma_view(); }
        let mut flags = [false; 9];
        for c in 0..9
            invariant
                r < 9,
                forall|i: int| 0 <= i < 9 ==> #[trigger] flags[i] == exists|c2: int| 0 <= c2 < c && #[trigger] self@[r as int][c2] == i + 1,
                forall|r: int, c: int| in_grid(r, c) ==> #[trigger] self@[r][c] == cell_digit(self.board[r][c]),
        {
            let ghost prev = flags;
            if let Some(v) = self.board[r][c] {
                flags[v.index()] = true;
            }
            assert forall|i: int| 0 <= i < 9 implies #[trigger] flags[i] == exists|c2: int| 0 <= c2 < c + 1 && #[trigger] self@[r as int][c2] == i + 1 by {
                if prev[i] {
                    let c2 = choose|c2: int| 0 <= c2 < c && #[trigger] self@[r as int][c2] == i + 1;
                    assert(0 <= c2 < c + 1 && self@[r as int][c2] == i + 1);
                }
                if self@[r as int][c as int] == i + 1 {
                    assert(0 <= c < c + 1);
                }
            }
        }
        self.rows_flags[r] = flags;
    }

    /// Recomputes the flags of column `c` from the board.
    fn refresh_col(&mut self, c: usize)
        requires
            c < 9,
        ensures
            final(self).board == old(self).board,
            final(self).cell_poss == old(self).cell_poss,
            final(self).rows_flags == old(self).rows_flags,
            final(self).sqrs_flags == old(self).sqrs_flags,
            forall|c2: int| 0 <= c2 < 9 && c2 != c ==> final(self).cols_flags[c2] == old(self).cols_flags[c2],
            forall|i: int| 0 <= i < 9 ==> #[trigger] final(self).cols_flags[c as int][i] == col_has(old(self)@, c as int, i + 1),
    {
        proof { self.lemma_view(); }
        let mut flags = [false; 9];
        for r in 0..9
            invariant
                c < 9,
                forall|i: int| 0 <= i < 9 ==> #[trigger] flags[i] == exists|r2: int| 0 <= r2 < r && #[trigger] self@[r2][c as int] == i + 1,
                forall|r: int, c: int| in_grid(r, c) ==> #[trigger] self@[r][c] == cell_digit(self.board[r][c]),
        {
            let ghost prev = flags;
            if let Some(v) = self.board[r][c] {
                flags[v.index()] = true;
            }
            assert forall|i: int| 0 <= i < 9 implies #[trigger] flags[i] == exists|r2: int| 0 <= r2 < r + 1 && #[trigger] self@[r2][c as int] == i + 1 by {
                if prev[i] {
                    let r2 = choose|r2: int| 0 <= r2 < r && #[trigger] self@[r2][c as int] == i + 1;
                    assert(0 <= r2 < r + 1 && self@[r2][c as int] == i + 1);
                }
                if self@[r as int][c as int] == i + 1 {
                    assert(0 <= r < r + 1);
                }
            }
        }
        self.cols_flags[c] = flags;
    }

    /// Recomputes the flags of the region that holds cell `(row, col)` from the board.
    fn refresh_block(&mut self, row: usize, col: usize)
        requires
            row < 9,
            col < 9,
        ensures
            final(self).board == old(self).board,
            final(self).cell_poss == old(self).cell_poss,
            final(self).rows_flags == old(self).rows_flags,
            final(self).cols_flags == old(self).cols_flags,
            forall|s: int| 0 <= s < 9 && s != region_of(row as int, col as int) ==> final(self).sqrs_flags[s] == old(self).sqrs_flags[s],
            forall|i: int| 0 <= i < 9 ==> #[trigger] final(self).sqrs_flags[region_of(row as int, col as int)][i] == block_has(old(self)@, row as int, col as int, i + 1),
    {
        proof { self.lemma_view(); }
        let rs: usize = 3 * (row / 3);
        let cs: usize = 3 * (col / 3);
        let mut flags = [false; 9];
        for k in 0..9
            invariant
                rs == 3 * (row / 3),
                cs == 3 * (col / 3),
                row < 9,
                col < 9,
                forall|i: int| 0 <= i < 9 ==> #[trigger] flags[i] == exists|j: int| 0 <= j < k && #[trigger] self@[rs + j / 3][cs + j % 3] == i + 1,
                forall|r: int, c: int| in_grid(r, c) ==> #[trigger] self@[r][c] == cell_digit(self.board[r][c]),
        {
            let ghost prev = flags;
            let r = rs + k / 3;
            let c = cs + k % 3;
            if let Some(v) = self.board[r][c] {
                flags[v.index()] = true;
            }
            assert forall|i: int| 0 <= i < 9 implies #[trigger] flags[i] == exists|j: int| 0 <= j < k + 1 && #[trigger] self@[rs + j / 3][cs + j % 3] == i + 1 by {
                if prev[i] {
                    let j = choose|j: int| 0 <= j < k && #[trigger] self@[rs + j / 3][cs + j % 3] == i + 1;
                    assert(0 <= j < k + 1);
                }
                if self@[r as int][c as int] == i + 1 {
                    assert(self@[rs + k / 3][cs + k % 3] == i + 1);
                }
            }
        }
        let s = Game::sqrs_ind(row, col);
        self.sqrs_flags[s] = flags;
        proof {
            let g = old(self)@;
            assert forall|i: int| 0 <= i < 9 implies #[trigger] flags[i] == block_has(g, row as int, col as int, i + 1) by {
                if flags[i] {
                    let j = choose|j: int| 0 <= j < 9 && #[trigger] g[rs + j / 3][cs + j % 3] == i + 1;
                    assert(in_grid(rs + j / 3, cs + j % 3));
                    assert((rs + j / 3) / 3 == row / 3);
                    assert((cs + j % 3) / 3 == col / 3);
                }
                if block_has(g, row as int, col as int, i + 1) {
                    let (r2, c2) = choose|r2: int, c2: int|
                        in_grid(r2, c2) && r2 / 3 == row / 3 && c2 / 3 == col / 3 && #[trigger] g[r2][c2] == i + 1;
                    let j = 3 * (r2 - rs) + (c2 - cs);
                    assert(0 <= j < 9);
                    assert(j / 3 == r2 - rs && j % 3 == c2 - cs);
                    assert(g[rs + j / 3][cs + j % 3] == i + 1);
                }
            }
        }
    }

    /// Candidate `i` (digit `i + 1`) as the flags give it for cell `(r, c)`:
    /// its row, its column and its region all lack the digit.
    closed spec fn flag_candidate(self, r: int, c: int, i: int) -> bool {
        !(self.rows_flags[r][i] || self.cols_flags[c][i] || self.sqrs_flags[region_of(r, c)][i])
    }

    /// Sets the candidates of cell `(y, x)` from the flags.
    fn recompute_cell(&mut self, y: usize, x: usize)
        requires
            y < 9,
            x < 9,
        ensures
            final(self).board == old(self).board,
            final(self).rows_flags == old(self).rows_flags,
            final(self).cols_flags == old(self).cols_flags,
            final(self).sqrs_flags == old(self).sqrs_flags,
            forall|r: int, c: int| in_grid(r, c) && (r != y || c != x) ==> final(self).cell_poss[r][c] == old(self).cell_poss[r][c],
            forall|i: int| 0 <= i < 9 ==> #[trigger] final(self).cell_poss[y as int][x as int][i] == old(self).flag_candidate(y as int, x as int, i),
    {
        let s = Game::sqrs_ind(y, x);
        let mut p = [false; 9];
        for i in 0..9
            invariant
                y < 9,
                x < 9,
                s == region_of(y as int, x as int),
                forall|j: int| 0 <= j < i ==> #[trigger] p[j] == self.flag_candidate(y as int, x as int, j),
        {
            p[i] = !(self.rows_flags[y][i] || self.cols_flags[x][i] || self.sqrs_flags[s][i]);
        }
        self.cell_poss[y][x] = p;
    }

    /// With exact flags, an empty cell whose candidates come from the flags has
    /// exact candidates.
    proof fn lemma_flag_candidates_exact(g: Game, y: int, x: int)
        requires
            in_grid(y, x),
            g.flags_exact(),
            g.board[y][x] is None,
            forall|i: int| 0 <= i < 9 ==> #[trigger] g.cell_poss[y][x][i] == g.flag_candidate(y, x, i),
        ensures
            g.poss_ok(y, x),
    {
        g.lemma_view();
        assert forall|d: int| is_digit(d) implies (#[trigger] g.possible(y, x, d) <==> open_to(g@, y, x, d)) by {
            lemma_open_to_by_groups(g@, y, x, d);
            assert(g.cell_poss[y][x][d - 1] == g.flag_candidate(y, x, d - 1));
            assert(g.rows_flags[y][d - 1] == row_has(g@, y, d));
            assert(g.cols_flags[x][d - 1] == col_has(g@, x, d));
            assert(g.sqrs_flags[region_of(y, x)][d - 1] == block_has(g@, y, x, d));
        }
    }

    /// A cell whose board entry and candidates are the same in two states is exact
    /// in one when it is exact in the other.
    proof fn lemma_poss_ok_same(a: Game, b: Game, r: int, c: int)
        requires
            a.board == b.board,
            a.cell_poss[r][c] == b.cell_poss[r][c],
            a.poss_ok(r, c),
        ensures
            b.poss_ok(r, c),
    {
        assert(a@ == b@);
        assert forall|d: int| is_digit(d) implies (#[trigger] b.possible(r, c, d) == a.possible(r, c, d)) by {}
    }

    /// Changing only the candidates of cell `(y, x)` keeps the exactness of every other cell.
    proof fn lemma_poss_frame(a: Game, b: Game, y: int, x: int)
        requires
            a.board == b.board,
            forall|r: int, c: int| in_grid(r, c) && (r != y || c != x) ==> b.cell_poss[r][c] == a.cell_poss[r][c],
        ensures
            forall|r: int, c: int| in_grid(r, c) && (r != y || c != x) && a.poss_ok(r, c) ==> #[trigger] b.poss_ok(r, c),
    {
        assert(a@ == b@);
        assert forall|r: int, c: int| in_grid(r, c) && (r != y || c != x) && a.poss_ok(r, c) implies #[trigger] b.poss_ok(r, c) by {
            assert forall|d: int| is_digit(d) implies (#[trigger] b.possible(r, c, d) == a.possible(r, c, d)) by {
                assert(b.cell_poss[r][c] == a.cell_poss[r][c]);
            }
        }
    }

    /// Recomputes from the flags the candidates of every empty cell that shares a
    /// row, a column or a region with cell `(row, col)`; every other cell keeps
    /// its candidates.
    fn update_poss_from_flags(&mut self, row: usize, col: usize)
        requires
            row < 9,
            col < 9,
        ensures
            final(self).board == old(self).board,
            final(self).rows_flags == old(self).rows_flags,
            final(self).cols_flags == old(self).cols_flags,
            final(self).sqrs_flags == old(self).sqrs_flags,
            forall|r: int, c: int, i: int|
                in_grid(r, c) && affected(row as int, col as int, r, c) && old(self).board[r][c] is None && 0 <= i < 9
                    ==> #[trigger] final(self).cell_poss[r][c][i] == old(self).flag_candidate(r, c, i),
            forall|r: int, c: int|
                in_grid(r, c) && (old(self).board[r][c] is Some || !affected(row as int, col as int, r, c))
                    ==> #[trigger] final(self).cell_poss[r][c] == old(self).cell_poss[r][c],
    {
        let ghost start = *self;
        // The affected row.
        for x in 0..9
            invariant
                row < 9,
                col < 9,
                self.board == start.board,
                self.rows_flags == start.rows_flags,
                self.cols_flags == start.cols_flags,
                self.sqrs_flags == start.sqrs_flags,
                forall|r: int, c: int, i: int|
                    in_grid(r, c) && start.board[r][c] is None && (r == row && c < x) && 0 <= i < 9
                        ==> #[trigger] self.cell_poss[r][c][i] == start.flag_candidate(r, c, i),
                forall|r: int, c: int|
                    in_grid(r, c) && !(start.board[r][c] is None && (r == row && c < x))
                        ==> #[trigger] self.cell_poss[r][c] == start.cell_poss[r][c],
        {
            if self.board[row][x].is_none() {
                self.recompute_cell(row, x);
            }
        }
        // The affected column, less the cell the row already covered.
        for y in 0..9
            invariant
                row < 9,
                col < 9,
                self.board == start.board,
                self.rows_flags == start.rows_flags,
                self.cols_flags == start.cols_flags,
                self.sqrs_flags == start.sqrs_flags,
                forall|r: int, c: int, i: int|
                    in_grid(r, c) && start.board[r][c] is None && (r == row || (c == col && r < y)) && 0 <= i < 9
                        ==> #[trigger] self.cell_poss[r][c][i] == start.flag_candidate(r, c, i),
                forall|r: int, c: int|
                    in_grid(r, c) && !(start.board[r][c] is None && (r == row || (c == col && r < y)))
                        ==> #[trigger] self.cell_poss[r][c] == start.cell_poss[r][c],
        {
            if y != row && self.board[y][col].is_none() {
                self.recompute_cell(y, col);
            }
        }
        // The four cells of the region that neither loop reached.
        let rs: usize = 3 * (row / 3);
        let cs: usize = 3 * (col / 3);
        for k in 0..9
            invariant
                row < 9,
                col < 9,
                rs == 3 * (row / 3),
                cs == 3 * (col / 3),
                self.board == start.board,
                self.rows_flags == start.rows_flags,
                self.cols_flags == start.cols_flags,
                self.sqrs_flags == start.sqrs_flags,
                forall|r: int, c: int, i: int|
                    in_grid(r, c) && start.board[r][c] is None && (r == row || c == col
                        || (rs <= r && cs <= c && c < cs + 3 && 3 * (r - rs) + (c - cs) < k)) && 0 <= i < 9
                        ==> #[trigger] self.cell_poss[r][c][i] == start.flag_candidate(r, c, i),
                forall|r: int, c: int|
                    in_grid(r, c) && !(start.board[r][c] is None && (r == row || c == col
                        || (rs <= r && cs <= c && c < cs + 3 && 3 * (r - rs) + (c - cs) < k)))
                        ==> #[trigger] self.cell_poss[r][c] == start.cell_poss[r][c],
        {
            let y = rs + k / 3;
            let x = cs + k % 3;
            if y != row && x != col && self.board[y][x].is_none() {
                self.recompute_cell(y, x);
            }
        }
        proof {
            assert forall|r: int, c: int| in_grid(r, c) && affected(row as int, col as int, r, c) && r != row && c != col
                implies rs <= r && cs <= c && c < cs + 3 && 3 * (r - rs) + (c - cs) < 9 by {}
            assert forall|r: int, c: int| in_grid(r, c) && rs <= r && cs <= c && c < cs + 3 && 3 * (r - rs) + (c - cs) < 9
                implies affected(row as int, col as int, r, c) by {}
        }
    }

    /// After one cell changed, every other cell whose candidates could not depend
    /// on it keeps exact candidates.
    proof fn lemma_write_frame(a: Game, b: Game, row: int, col: int)
        requires
            in_grid(row, col),
            forall|r: int, c: int| in_grid(r, c) && (r != row || c != col) ==> b.board[r][c] == a.board[r][c],
            forall|r: int, c: int| in_grid(r, c) && (r != row || c != col) ==> b.cell_poss[r][c] == a.cell_poss[r][c],
        ensures
            forall|r: int, c: int|
                in_grid(r, c) && (r != row || c != col) && a.poss_ok(r, c) && (b.board[r][c] is Some || !affected(row, col, r, c))
                    ==> #[trigger] b.poss_ok(r, c),
    {
        a.lemma_view();
        b.lemma_view();
        assert forall|r: int, c: int|
            in_grid(r, c) && (r != row || c != col) && a.poss_ok(r, c) && (b.board[r][c] is Some || !affected(row, col, r, c))
            implies #[trigger] b.poss_ok(r, c) by {
            assert(b@[r][c] == a@[r][c]);
            assert forall|d: int| is_digit(d) implies (#[trigger] b.possible(r, c, d) <==> if b@[r][c] == 0 {
                open_to(b@, r, c, d)
            } else {
                b@[r][c] == d
            }) by {
                assert(b.possible(r, c, d) == a.possible(r, c, d));
                if b@[r][c] == 0 {
                    assert forall|r2: int, c2: int| in_grid(r2, c2) && peers(r, c, r2, c2) implies #[trigger] b@[r2][c2] == a@[r2][c2] by {
                        assert(r2 != row || c2 != col);
                    }
                    if open_to(a@, r, c, d) {
                        assert forall|r2: int, c2: int| in_grid(r2, c2) && peers(r, c, r2, c2) implies #[trigger] b@[r2][c2] != d by {
                            assert(b@[r2][c2] == a@[r2][c2]);
                        }
                    }
                    if open_to(b@, r, c, d) {
                        assert forall|r2: int, c2: int| in_grid(r2, c2) && peers(r, c, r2, c2) implies #[trigger] a@[r2][c2] != d by {
                            assert(b@[r2][c2] == a@[r2][c2]);
                        }
                    }
                }
            }
        }
    }

    /// Places `v` in cell `(row, col)`, or empties it when `v` is `None`, and brings
    /// the flags and the candidates of the affected cells up to date.
    fn write_cell(&mut self, row: usize, col: usize, v: Option<CellValue>)
        requires
            row < 9,
            col < 9,
            old(self).wf(),
        ensures
            final(self).wf(),
            final(self)@ == put(old(self)@, row as int, col as int, cell_digit(v)),
    {
        proof { self.lemma_view(); }
        let ghost orig = *self;
        self.board[row][col] = v;
        if let Some(cv) = v {
            let mut set = [false; 9];
            set[cv.index()] = true;
            self.cell_poss[row][col] = set;
        }
        let ghost written = *self;
        proof {
            written.lemma_view();
            assert(written@ =~~= put(orig@, row as int, col as int, cell_digit(v)));
        }
        self.refresh_row(row);
        self.refresh_col(col);
        self.refresh_block(row, col);
        proof {
            self.lemma_view();
            let g = self@;
            let g0 = orig@;
            assert(g == written@);
            assert forall|r: int, i: int| 0 <= r < 9 && 0 <= i < 9 implies #[trigger] self.rows_flags[r][i] == row_has(g, r, i + 1) by {
                if r != row {
                    assert(self.rows_flags[r][i] == orig.rows_flags[r][i]);
                    assert(orig.rows_flags[r][i] == row_has(g0, r, i + 1));
                    assert forall|c: int| 0 <= c < 9 implies #[trigger] g[r][c] == g0[r][c] by {}
                    if row_has(g, r, i + 1) {
                        let c = choose|c: int| 0 <= c < 9 && #[trigger] g[r][c] == i + 1;
                        assert(g0[r][c] == i + 1);
                    }
                    if row_has(g0, r, i + 1) {
                        let c = choose|c: int| 0 <= c < 9 && #[trigger] g0[r][c] == i + 1;
                        assert(g[r][c] == i + 1);
                    }
                }
            }
            assert forall|c: int, i: int| 0 <= c < 9 && 0 <= i < 9 implies #[trigger] self.cols_flags[c][i] == col_has(g, c, i + 1) by {
                if c != col {
                    assert(self.cols_flags[c][i] == orig.cols_flags[c][i]);
                    assert(orig.cols_flags[c][i] == col_has(g0, c, i + 1));
                    assert forall|r: int| 0 <= r < 9 implies #[trigger] g[r][c] == g0[r][c] by {}
                    if col_has(g, c, i + 1) {
                        let r = choose|r: int| 0 <= r < 9 && #[trigger] g[r][c] == i + 1;
                        assert(g0[r][c] == i + 1);
                    }
                    if col_has(g0, c, i + 1) {
                        let r = choose|r: int| 0 <= r < 9 && #[trigger] g0[r][c] == i + 1;
                        assert(g[r][c] == i + 1);
                    }
                }
            }
            assert forall|r: int, c: int, i: int| in_grid(r, c) && 0 <= i < 9 implies #[trigger] self.sqrs_flags[region_of(r, c)][i] == block_has(g, r, c, i + 1) by {
                lemma_region_of(r, c, row as int, col as int);
                if r / 3 == row / 3 && c / 3 == col / 3 {
                    assert(self.sqrs_flags[region_of(row as int, col as int)][i] == block_has(g, row as int, col as int, i + 1));
                    assert(block_has(g, r, c, i + 1) == block_has(g, row as int, col as int, i + 1));
                } else {
                    assert(self.sqrs_flags[region_of(r, c)][i] == orig.sqrs_flags[region_of(r, c)][i]);
                    assert(orig.sqrs_flags[region_of(r, c)][i] == block_has(g0, r, c, i + 1));
                    if block_has(g, r, c, i + 1) {
                        let (r2, c2) = choose|r2: int, c2: int|
                            in_grid(r2, c2) && r2 / 3 == r / 3 && c2 / 3 == c / 3 && #[trigger] g[r2][c2] == i + 1;
                        assert(g0[r2][c2] == i + 1);
                    }
                    if block_has(g0, r, c, i + 1) {
                        let (r2, c2) = choose|r2: int, c2: int|
                            in_grid(r2, c2) && r2 / 3 == r / 3 && c2 / 3 == c / 3 && #[trigger] g0[r2][c2] == i + 1;
                        assert(g[r2][c2] == i + 1);
                    }
                }
            }
            assert(self.flags_exact());
            Game::lemma_write_frame(orig, *self, row as int, col as int);
            if v is Some {
                assert forall|d: int| is_digit(d) implies (#[trigger] self.possible(row as int, col as int, d) <==> g[row as int][col as int] == d) by {}
                assert(self.poss_ok(row as int, col as int));
            }
        }
        let ghost mid = *self;
        self.update_poss_from_flags(row, col);
        proof {
            assert(self@ == mid@);
            assert(self.flags_exact());
            assert forall|r: int, c: int| in_grid(r, c) implies #[trigger] self.poss_ok(r, c) by {
                if mid.board[r][c] is None && affected(row as int, col as int, r, c) {
                    assert forall|i: int| 0 <= i < 9 implies #[trigger] self.cell_poss[r][c][i] == self.flag_candidate(r, c, i) by {
                        assert(self.cell_poss[r][c][i] == mid.flag_candidate(r, c, i));
                    }
                    Game::lemma_flag_candidates_exact(*self, r, c);
                } else {
                    Game::lemma_poss_ok_same(mid, *self, r, c);
                }
            }
        }
    }

    /// Places digit `cv` in cell `(row, col)` (nothing changes if it is there
    /// already). The cell's candidates become `{cv}` and `cv` leaves the
    /// candidates of its peers. Consistency is not checked here.
    pub fn set_cell(&mut self, row: usize, col: usize, cv: CellValue)
        requires
            row < 9,
            col < 9,
            old(self).wf(),
        ensures
            final(self).wf(),
            final(self)@ == put(old(self)@, row as int, col as int, cv.digit()),
    {
        if let Some(cur) = self.board[row][col] {
            if cur == cv {
                proof {
                    self.lemma_view();
                    assert(self@ =~~= put(self@, row as int, col as int, cv.digit()));
                }
                return;
            }
        }
        self.write_cell(row, col, Some(cv));
    }

    /// Empties cell `(row, col)` (nothing changes if it is empty) and restores
    /// the candidates of the cells that share a row, a column or a region with it.
    pub fn unset_cell(&mut self, row: usize, col: usize)
        requires
            row < 9,
            col < 9,
            old(self).wf(),
        ensures
            final(self).wf(),
            final(self)@ == put(old(self)@, row as int, col as int, 0),
    {
        if self.board[row][col].is_none() {
            proof {
                self.lemma_view();
                assert(self@ =~~= put(self@, row as int, col as int, 0));
            }
            return;
        }
        self.write_cell(row, col, None);
    }

    /// Scans the board in row-major order and reports whether no digit repeats
    /// in a row, a column or a region.
    #[verifier::rlimit(50)]
    fn no_conflicts(&self) -> (r: bool)
        ensures
            r == conflict_free(self@),
    {
        proof { self.lemma_view(); }
        let ghost g = self@;
        let mut rows = [[false; 9]; 9];
        let mut cols = [[false; 9]; 9];
        let mut sqrs = [[false; 9]; 9];
        for k in 0..81
            invariant
                g == self@,
                forall|r: int, c: int| in_grid(r, c) ==> #[trigger] g[r][c] == cell_digit(self.board[r][c]),
                forall|r: int, i: int| 0 <= r < 9 && 0 <= i < 9 ==> #[trigger] rows[r][i] == exists|c: int|
                    0 <= c < 9 && 9 * r + c < k && #[trigger] g[r][c] == i + 1,
                forall|c: int, i: int| 0 <= c < 9 && 0 <= i < 9 ==> #[trigger] cols[c][i] == exists|r: int|
                    0 <= r < 9 && 9 * r + c < k && #[trigger] g[r][c] == i + 1,
                forall|s: int, i: int| 0 <= s < 9 && 0 <= i < 9 ==> #[trigger] sqrs[s][i] == exists|r: int, c: int|
                    in_grid(r, c) && 9 * r + c < k && region_of(r, c) == s && #[trigger] g[r][c] == i + 1,
                forall|r1: int, c1: int, r2: int, c2: int|
                    in_grid(r1, c1) && in_grid(r2, c2) && 9 * r1 + c1 < k && 9 * r2 + c2 < k && peers(r1, c1, r2, c2) && g[r1][c1] != 0
                        ==> #[trigger] g[r1][c1] != #[trigger] g[r2][c2],
        {
            let y = k / 9;
            let x = k % 9;
            let s = Game::sqrs_ind(y, x);
            proof { lemma_region_of(y as int, x as int, y as int, x as int); }
            if let Some(cv) = self.board[y][x] {
                let i = cv.index();
                if rows[y][i] || cols[x][i] || sqrs[s][i] {
                    proof {
                        let d = i + 1;
                        if rows[y as int][i as int] {
                            let c = choose|c: int| 0 <= c < 9 && 9 * y + c < k && #[trigger] g[y as int][c] == d;
                            assert(peers(y as int, x as int, y as int, c) && g[y as int][x as int] == g[y as int][c]);
                        } else if cols[x as int][i as int] {
                            let r = choose|r: int| 0 <= r < 9 && 9 * r + x < k && #[trigger] g[r][x as int] == d;
                            assert(peers(y as int, x as int, r, x as int) && g[y as int][x as int] == g[r][x as int]);
                        } else {
                            let (r, c) = choose|r: int, c: int|
                                in_grid(r, c) && 9 * r + c < k && region_of(r, c) == s && #[trigger] g[r][c] == d;
                            lemma_region_of(r, c, y as int, x as int);
                            assert(peers(y as int, x as int, r, c) && g[y as int][x as int] == g[r][c]);
                        }
                    }
                    return false;
                }
                let ghost (rows0, cols0, sqrs0) = (rows, cols, sqrs);
                rows[y][i] = true;
                cols[x][i] = true;
                sqrs[s][i] = true;
                proof {
                    let d = i + 1;
                    assert(g[y as int][x as int] == d);
                    assert forall|r: int, j: int| 0 <= r < 9 && 0 <= j < 9 implies #[trigger] rows[r][j] == exists|c: int|
                        0 <= c < 9 && 9 * r + c < k + 1 && #[trigger] g[r][c] == j + 1 by {
                        if rows0[r][j] {
                            let c = choose|c: int| 0 <= c < 9 && 9 * r + c < k && #[trigger] g[r][c] == j + 1;
                            assert(9 * r + c < k + 1);
                        }
                        if r == y && j == i {
                            assert(9 * r + x < k + 1 && g[r][x as int] == j + 1);
                        }
                    }
                    assert forall|c: int, j: int| 0 <= c < 9 && 0 <= j < 9 implies #[trigger] cols[c][j] == exists|r: int|
                        0 <= r < 9 && 9 * r + c < k + 1 && #[trigger] g[r][c] == j + 1 by {
                        if cols0[c][j] {
                            let r = choose|r: int| 0 <= r < 9 && 9 * r + c < k && #[trigger] g[r][c] == j + 1;
                            assert(9 * r + c < k + 1);
                        }
                        if c == x && j == i {
                            assert(9 * y + c < k + 1 && g[y as int][c] == j + 1);
                        }
                    }
                    assert forall|t: int, j: int| 0 <= t < 9 && 0 <= j < 9 implies #[trigger] sqrs[t][j] == exists|r: int, c: int|
                        in_grid(r, c) && 9 * r + c < k + 1 && region_of(r, c) == t && #[trigger] g[r][c] == j + 1 by {
                        if sqrs0[t][j] {
                            let (r, c) = choose|r: int, c: int|
                                in_grid(r, c) && 9 * r + c < k && region_of(r, c) == t && #[trigger] g[r][c] == j + 1;
                            assert(9 * r + c < k + 1);
                        }
                        if t == s && j == i {
                            assert(9 * y + x < k + 1 && region_of(y as int, x as int) == t && g[y as int][x as int] == j + 1);
                        }
                    }
                    assert forall|r1: int, c1: int, r2: int, c2: int|
                        in_grid(r1, c1) && in_grid(r2, c2) && 9 * r1 + c1 < k + 1 && 9 * r2 + c2 < k + 1 && peers(r1, c1, r2, c2) && g[r1][c1] != 0
                        implies #[trigger] g[r1][c1] != #[trigger] g[r2][c2] by {
                        if 9 * r1 + c1 == k || 9 * r2 + c2 == k {
                            let (ra, ca) = if 9 * r1 + c1 == k { (r2, c2) } else { (r1, c1) };
                            assert(r1 == y && c1 == x || r2 == y && c2 == x);
                            if g[ra][ca] == d && (ra != y || ca != x) {
                                assert(9 * ra + ca < k);
                                if ra == y {
                                    assert(rows0[y as int][i as int]);
                                } else if ca == x {
                                    assert(cols0[x as int][i as int]);
                                } else {
                                    lemma_region_of(ra, ca, y as int, x as int);
                                    assert(sqrs0[s as int][i as int]);
                                }
                            }
                        }
                    }
                }
            }
        }
        true
    }

    /// Reports whether some empty cell has no candidate left.
    fn has_dead_cell(&self) -> (r: bool)
        requires
            self.wf(),
        ensures
            r == has_dead_cell(self@),
    {
        proof { self.lemma_view(); }
        for y in 0..9
            invariant
                self.wf(),
                forall|r: int, c: int| in_grid(r, c) ==> #[trigger] self@[r][c] == cell_digit(self.board[r][c]),
                forall|r: int, c: int| 0 <= r < y && 0 <= c < 9 && #[trigger] self@[r][c] == 0 ==> exists|d: int| is_digit(d) && open_to(self@, r, c, d),
        {
            for x in 0..9
                invariant
                    y < 9,
                    self.wf(),
                    forall|r: int, c: int| in_grid(r, c) ==> #[trigger] self@[r][c] == cell_digit(self.board[r][c]),
                    forall|r: int, c: int| (0 <= r < y && 0 <= c < 9 || r == y && 0 <= c < x) && #[trigger] self@[r][c] == 0 ==> exists|d: int| is_digit(d) && open_to(self@, r, c, d),
            {
                if self.board[y][x].is_none() {
                    let mut any = false;
                    for i in 0..9
                        invariant
                            y < 9,
                            x < 9,
                            self.wf(),
                            self@[y as int][x as int] == 0,
                            any == exists|d: int| 1 <= d <= i && #[trigger] self.possible(y as int, x as int, d),
                    {
                        if self.cell_poss[y][x][i] {
                            any = true;
                        }
                        proof {
                            if any {
                                if self.possible(y as int, x as int, i + 1) {
                                } else {
                                    let d = choose|d: int| 1 <= d <= i && #[trigger] self.possible(y as int, x as int, d);
                                    assert(1 <= d <= i + 1);
                                }
                            }
                        }
                    }
                    proof { assert(self.poss_ok(y as int, x as int)); }
                    if !any {
                        proof {
                            assert forall|d: int| is_digit(d) implies !open_to(self@, y as int, x as int, d) by {
                                assert(!self.possible(y as int, x as int, d));
                            }
                            assert(in_grid(y as int, x as int) && self@[y as int][x as int] == 0);
                        }
                        return true;
                    }
                    proof {
                        let d = choose|d: int| 1 <= d <= 9 && #[trigger] self.possible(y as int, x as int, d);
                        assert(is_digit(d) && open_to(self@, y as int, x as int, d));
                    }
                } else {
                    proof { assert(self@[y as int][x as int] != 0); }
                }
            }
        }
        proof {
            assert forall|r: int, c: int| in_grid(r, c) && #[trigger] self@[r][c] == 0 implies !(forall|d: int| is_digit(d) ==> !open_to(self@, r, c, d)) by {
                let d = choose|d: int| is_digit(d) && open_to(self@, r, c, d);
            }
        }
        false
    }

    /// The board is free of conflicts and of empty cells without a candidate.
    pub fn is_valid(&self) -> (r: bool)
        requires
            self.wf(),
        ensures
            r == is_valid_grid(self@),
    {
        !self.has_dead_cell() && self.no_conflicts()
    }

    /// Every cell holds a digit and no digit repeats in a row, a column or a region.
    pub fn solved(&self) -> (r: bool)
        ensures
            r == is_solved_grid(self@),
    {
        proof { self.lemma_view(); }
        for y in 0..9
            invariant
                forall|r: int, c: int| in_grid(r, c) ==> #[trigger] self@[r][c] == cell_digit(self.board[r][c]),
                forall|r: int, c: int| 0 <= r < y && 0 <= c < 9 ==> #[trigger] self@[r][c] != 0,
        {
            for x in 0..9
                invariant
                    y < 9,
                    forall|r: int, c: int| in_grid(r, c) ==> #[trigger] self@[r][c] == cell_digit(self.board[r][c]),
                    forall|r: int, c: int| (0 <= r < y && 0 <= c < 9 || r == y && 0 <= c < x) ==> #[trigger] self@[r][c] != 0,
            {
                if self.board[y][x].is_none() {
                    proof { assert(self@[y as int][x as int] == 0); }
                    return false;
                }
            }
        }
        self.no_conflicts()
    }

    /// Reports whether every entry of `numbers` is 0 or a digit.
    fn check_digits(numbers: &[[u8; 9]; 9]) -> (r: bool)
        ensures
            r == digits_in_range(*numbers),
    {
        for y in 0..9
            invariant
                forall|r: int, c: int| 0 <= r < y && 0 <= c < 9 ==> #[trigger] numbers[r][c] <= 9,
        {
            for x in 0..9
                invariant
                    y < 9,
                    forall|r: int, c: int| (0 <= r < y && 0 <= c < 9 || r == y && 0 <= c < x) ==> #[trigger] numbers[r][c] <= 9,
            {
                if numbers[y][x] > 9 {
                    return false;
                }
            }
        }
        true
    }

    /// Builds the state for an input grid whose entries are all in range: the
    /// board, then every flag, then every cell's candidates in one batch.
    fn from_digits(numbers: &[[u8; 9]; 9]) -> (g: Game)
        requires
            digits_in_range(*numbers),
        ensures
            g.wf(),
            g@ == input_grid(*numbers),
    {
        let mut board: [[Option<CellValue>; 9]; 9] = [[None; 9]; 9];
        for y in 0..9
            invariant
                digits_in_range(*numbers),
                forall|r: int, c: int| 0 <= r < y && 0 <= c < 9 ==> cell_digit(#[trigger] board[r][c]) == numbers[r][c],
        {
            for x in 0..9
                invariant
                    y < 9,
                    digits_in_range(*numbers),
                    forall|r: int, c: int| (0 <= r < y && 0 <= c < 9 || r == y && 0 <= c < x) ==> cell_digit(#[trigger] board[r][c]) == numbers[r][c],
            {
                board[y][x] = CellValue::new(numbers[y][x]);
            }
        }
        let mut game = Game {
            board,
            cell_poss: [[[false; 9]; 9]; 9],
            rows_flags: [[false; 9]; 9],
            cols_flags: [[false; 9]; 9],
            sqrs_flags: [[false; 9]; 9],
        };
        proof {
            game.lemma_view();
            assert(game@ =~~= input_grid(*numbers));
        }
        let ghost g = game@;
        for r in 0..9
            invariant
                game.board == board,
                g == game@,
                forall|r2: int, i: int| 0 <= r2 < r && 0 <= i < 9 ==> #[trigger] game.rows_flags[r2][i] == row_has(g, r2, i + 1),
        {
            game.refresh_row(r);
        }
        for c in 0..9
            invariant
                game.board == board,
                g == game@,
                forall|r2: int, i: int| 0 <= r2 < 9 && 0 <= i < 9 ==> #[trigger] game.rows_flags[r2][i] == row_has(g, r2, i + 1),
                forall|c2: int, i: int| 0 <= c2 < c && 0 <= i < 9 ==> #[trigger] game.cols_flags[c2][i] == col_has(g, c2, i + 1),
        {
            game.refresh_col(c);
        }
        for b in 0..9
            invariant
                game.board == board,
                g == game@,
                forall|r2: int, i: int| 0 <= r2 < 9 && 0 <= i < 9 ==> #[trigger] game.rows_flags[r2][i] == row_has(g, r2, i + 1),
                forall|c2: int, i: int| 0 <= c2 < 9 && 0 <= i < 9 ==> #[trigger] game.cols_flags[c2][i] == col_has(g, c2, i + 1),
                forall|r2: int, c2: int, i: int| in_grid(r2, c2) && region_of(r2, c2) < b && 0 <= i < 9
                    ==> #[trigger] game.sqrs_flags[region_of(r2, c2)][i] == block_has(g, r2, c2, i + 1),
        {
            let row = 3 * (b / 3);
            let col = 3 * (b % 3);
            game.refresh_block(row, col);
            proof {
                assert(region_of(row as int, col as int) == b);
                assert forall|r2: int, c2: int, i: int| in_grid(r2, c2) && region_of(r2, c2) < b + 1 && 0 <= i < 9
                    implies #[trigger] game.sqrs_flags[region_of(r2, c2)][i] == block_has(g, r2, c2, i + 1) by {
                    lemma_region_of(r2, c2, row as int, col as int);
                    if region_of(r2, c2) == b {
                        assert(game.sqrs_flags[region_of(row as int, col as int)][i] == block_has(g, row as int, col as int, i + 1));
                        if block_has(g, r2, c2, i + 1) {
                            let (r3, c3) = choose|r3: int, c3: int|
                                in_grid(r3, c3) && r3 / 3 == r2 / 3 && c3 / 3 == c2 / 3 && #[trigger] g[r3][c3] == i + 1;
                            assert(block_has(g, row as int, col as int, i + 1));
                        }
                        if block_has(g, row as int, col as int, i + 1) {
                            let (r3, c3) = choose|r3: int, c3: int|
                                in_grid(r3, c3) && r3 / 3 == row / 3 && c3 / 3 == col / 3 && #[trigger] g[r3][c3] == i + 1;
                            assert(block_has(g, r2, c2, i + 1));
                        }
                    }
                }
            }
        }
        proof {
            assert forall|r2: int, c2: int, i: int| in_grid(r2, c2) && 0 <= i < 9
                implies #[trigger] game.sqrs_flags[region_of(r2, c2)][i] == block_has(g, r2, c2, i + 1) by {
                lemma_region_of(r2, c2, r2, c2);
            }
            assert(game.flags_exact());
        }
        for y in 0..9
            invariant
                game.board == board,
                g == game@,
                well_shaped(g),
                game.flags_exact(),
                forall|r: int, c: int| 0 <= r < y && 0 <= c < 9 ==> #[trigger] game.poss_ok(r, c),
        {
            for x in 0..9
                invariant
                    y < 9,
                    game.board == board,
                    g == game@,
                    well_shaped(g),
                    game.flags_exact(),
                    forall|r: int, c: int| (0 <= r < y && 0 <= c < 9 || r == y && 0 <= c < x) ==> #[trigger] game.poss_ok(r, c),
            {
                let ghost before = game;
                match game.board[y][x] {
                    Some(cv) => {
                        let mut set = [false; 9];
                        set[cv.index()] = true;
                        game.cell_poss[y][x] = set;
                        proof {
                            game.lemma_view();
                            assert(game@ == before@);
                            assert forall|d: int| is_digit(d) implies (#[trigger] game.possible(y as int, x as int, d) <==> game@[y as int][x as int] == d) by {}
                        }
                    },
                    None => {
                        game.recompute_cell(y, x);
                        proof {
                            assert(game.flags_exact()) by {
                                game.lemma_view();
                                assert(game@ == before@);
                            }
                            assert forall|i: int| 0 <= i < 9 implies #[trigger] game.cell_poss[y as int][x as int][i] == game.flag_candidate(y as int, x as int, i) by {
                                assert(game.cell_poss[y as int][x as int][i] == before.flag_candidate(y as int, x as int, i));
                            }
                            Game::lemma_flag_candidates_exact(game, y as int, x as int);
                        }
                    },
                }
                proof { Game::lemma_poss_frame(before, game, y as int, x as int); }
            }
        }
        game
    }

    /// Builds the state for `numbers` (0 for an empty cell, 1..=9 for a given
    /// digit) and checks it: no digit twice in a row, a column or a region, and
    /// no empty cell without a candidate.
    pub fn new(numbers: [[u8; 9]; 9]) -> (r: Result<Game, GridError>)
        ensures
            r is Ok <==> digits_in_range(numbers) && is_valid_grid(input_grid(numbers)),
            r matches Ok(g) ==> g.wf() && g@ == input_grid(numbers),
            r matches Err(GridError::DigitOutOfRange) <==> !digits_in_range(numbers),
            r matches Err(GridError::DeadCell) <==> digits_in_range(numbers) && has_dead_cell(input_grid(numbers)),
            r matches Err(GridError::Conflict) <==> digits_in_range(numbers) && !has_dead_cell(input_grid(numbers))
                && !conflict_free(input_grid(numbers)),
    {
        if !Game::check_digits(&numbers) {
            return Err(GridError::DigitOutOfRange);
        }
        let game = Game::from_digits(&numbers);
        match game.validate() {
            Ok(()) => Ok(game),
            Err(e) => Err(e),
        }
    }

    /// The validity check with its diagnosis: which rule the state breaks, if any.
    /// An empty cell without a candidate is reported before a repeated digit.
    pub fn validate(&self) -> (r: Result<(), GridError>)
        requires
            self.wf(),
        ensures
            r is Ok <==> is_valid_grid(self@),
            r matches Err(GridError::DeadCell) <==> has_dead_cell(self@),
            r matches Err(GridError::Conflict) <==> !has_dead_cell(self@) && !conflict_free(self@),
            !(r matches Err(GridError::DigitOutOfRange)),
    {
        if self.has_dead_cell() {
            return Err(GridError::DeadCell);
        }
        if !self.no_conflicts() {
            return Err(GridError::Conflict);
        }
        Ok(())
    }

    /// The content of cell `(row, col)`.
    pub fn cell(&self, row: usize, col: usize) -> (r: Option<CellValue>)
        requires
            row < 9,
            col < 9,
        ensures
            cell_digit(r) == self@[row as int][col as int],
    {
        proof { self.lemma_view(); }
        self.board[row][col]
    }

    /// Whether `cv` is still a candidate for cell `(row, col)`.
    pub fn is_possible(&self, row: usize, col: usize, cv: CellValue) -> (r: bool)
        requires
            row < 9,
            col < 9,
        ensures
            r == self.possible(row as int, col as int, cv.digit()),
    {
        self.cell_poss[row][col][cv.index()]
    }

    /// The board as digits, 0 for an empty cell.
    pub fn to_grid(&self) -> (r: [[u8; 9]; 9])
        ensures
            input_grid(r) == self@,
    {
        proof { self.lemma_view(); }
        let mut out = [[0u8; 9]; 9];
        for y in 0..9
            invariant
                forall|r: int, c: int| in_grid(r, c) ==> #[trigger] self@[r][c] == cell_digit(self.board[r][c]),
                forall|r: int, c: int| 0 <= r < y && 0 <= c < 9 ==> #[trigger] out[r][c] == self@[r][c],
        {
            for x in 0..9
                invariant
                    y < 9,
                    forall|r: int, c: int| in_grid(r, c) ==> #[trigger] self@[r][c] == cell_digit(self.board[r][c]),
                    forall|r: int, c: int| (0 <= r < y && 0 <= c < 9 || r == y && 0 <= c < x) ==> #[trigger] out[r][c] == self@[r][c],
            {
                out[y][x] = match self.board[y][x] {
                    Some(v) => v.get(),
                    None => 0,
                };
            }
        }
        proof { assert(input_grid(out) =~~= self@); }
        out
    }

    /// The character that shows cell `(row, col)`: its digit, or a blank when empty.
    pub fn cell_char(&self, row: usize, col: usize) -> (r: char)
        requires
            row < 9,
            col < 9,
        ensures
            r == digit_char(self@[row as int][col as int]),
    {
        proof { self.lemma_view(); }
        match self.board[row][col] {
            Some(v) => v.to_char(),
            None => ' ',
        }
    }

    /// The number of empty cells.
    pub fn empty_count(&self) -> (r: usize)
        ensures
            r == empty_cells(self@),
    {
        proof { self.lemma_view(); }
        let mut n: usize = 0;
        for k in 0..81
            invariant
                n == count_empty(self@, k as int),
                n <= k,
                forall|r: int, c: int| in_grid(r, c) ==> #[trigger] self@[r][c] == cell_digit(self.board[r][c]),
        {
            let y = k / 9;
            let x = k % 9;
            if self.board[y][x].is_none() {
                n = n + 1;
            }
            proof { assert(self@[y as int][x as int] == cell_digit(self.board[y as int][x as int])); }
        }
        n
    }

    /// The first empty cell in row-major order.
    pub fn first_empty(&self) -> (r: (usize, usize))
        requires
            exists|r: int, c: int| in_grid(r, c) && #[trigger] self@[r][c] == 0,
        ensures
            in_grid(r.0 as int, r.1 as int),
            self@[r.0 as int][r.1 as int] == 0,
            forall|y: int, x: int| in_grid(y, x) && 9 * y + x < 9 * r.0 + r.1 ==> #[trigger] self@[y][x] != 0,
    {
        proof { self.lemma_view(); }
        for y in 0..9
            invariant
                exists|r: int, c: int| in_grid(r, c) && #[trigger] self@[r][c] == 0,
                forall|r: int, c: int| in_grid(r, c) ==> #[trigger] self@[r][c] == cell_digit(self.board[r][c]),
                forall|r: int, c: int| 0 <= r < y && 0 <= c < 9 ==> #[trigger] self@[r][c] != 0,
        {
            for x in 0..9
                invariant
                    y < 9,
                    forall|r: int, c: int| in_grid(r, c) ==> #[trigger] self@[r][c] == cell_digit(self.board[r][c]),
                    forall|r: int, c: int| (0 <= r < y && 0 <= c < 9 || r == y && 0 <= c < x) ==> #[trigger] self@[r][c] != 0,
            {
                if self.board[y][x].is_none() {
                    proof {
                        assert forall|r: int, c: int| in_grid(r, c) && 9 * r + c < 9 * y + x implies #[trigger] self@[r][c] != 0 by {
                            if r >= y {
                                assert(r == y && c < x);
                            }
                        }
                    }
                    return (y, x);
                }
            }
        }
        proof {
            let (r, c) = choose|r: int, c: int| in_grid(r, c) && #[trigger] self@[r][c] == 0;
            assert(self@[r][c] != 0);
        }
        (0, 0)
    }
}

} // verus!
