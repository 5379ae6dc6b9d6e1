//! The mathematical model of a board: a 9x9 grid of integers, 0 for an empty
//! cell and 1..=9 for a placed digit, with the rules of the game stated over it.
use vstd::prelude::*;
use vstd::relations::injective_on;
use vstd::set_lib::{lemma_int_range, lemma_map_size, lemma_subset_equality, set_int_range};

verus! {

/// A board as rows of cells; a cell holds 0 when empty, else its digit.
pub type Grid = Seq<Seq<int>>;

/// `(r, c)` addresses a cell of the board.
pub open spec fn in_grid(r: int, c: int) -> bool {
    0 <= r < 9 && 0 <= c < 9
}

/// `d` is a digit that a cell may hold.
pub open spec fn is_digit(d: int) -> bool {
    1 <= d <= 9
}

/// Index of the 3x3 region that holds cell `(r, c)`, in 0..9.
pub open spec fn region_of(r: int, c: int) -> int {
    3 * (r / 3) + c / 3
}

/// Two distinct cells share a row, a column or a 3x3 region.
pub open spec fn peers(r1: int, c1: int, r2: int, c2: int) -> bool {
    &&& (r1 != r2 || c1 != c2)
    &&& (r1 == r2 || c1 == c2 || (r1 / 3 == r2 / 3 && c1 / 3 == c2 / 3))
}

/// The grid has 9 rows of 9 cells, each 0 or a digit.
pub open spec fn well_shaped(g: Grid) -> bool {
    &&& g.len() == 9
    &&& forall|r: int| 0 <= r < 9 ==> (#[trigger] g[r]).len() == 9
    &&& forall|r: int, c: int| in_grid(r, c) ==> 0 <= #[trigger] g[r][c] <= 9
}

/// No digit stands twice in a row, a column or a region.
pub open spec fn conflict_free(g: Grid) -> bool {
    forall|r1: int, c1: int, r2: int, c2: int|
        in_grid(r1, c1) && in_grid(r2, c2) && peers(r1, c1, r2, c2) && g[r1][c1] != 0
            ==> #[trigger] g[r1][c1] != #[trigger] g[r2][c2]
}

/// Every cell holds a digit.
pub open spec fn filled(g: Grid) -> bool {
    forall|r: int, c: int| in_grid(r, c) ==> #[trigger] g[r][c] != 0
}

/// The grid is complete and obeys the rules.
pub open spec fn is_solved_grid(g: Grid) -> bool {
    well_shaped(g) && filled(g) && conflict_free(g)
}

/// No peer of cell `(r, c)` holds digit `d`.
pub open spec fn open_to(g: Grid, r: int, c: int, d: int) -> bool {
    forall|r2: int, c2: int| in_grid(r2, c2) && peers(r, c, r2, c2) ==> #[trigger] g[r2][c2] != d
}

/// Some empty cell has no digit left that its peers allow.
pub open spec fn has_dead_cell(g: Grid) -> bool {
    exists|r: int, c: int|
        in_grid(r, c) && #[trigger] g[r][c] == 0 && forall|d: int| is_digit(d) ==> !open_to(g, r, c, d)
}

/// The check made at construction and after each guess: no dead cell and no conflict.
pub open spec fn is_valid_grid(g: Grid) -> bool {
    !has_dead_cell(g) && conflict_free(g)
}

/// Every digit placed in `g` stands at the same cell of `s`.
pub open spec fn extends(s: Grid, g: Grid) -> bool {
    forall|r: int, c: int| in_grid(r, c) && g[r][c] != 0 ==> #[trigger] s[r][c] == g[r][c]
}

/// `s` is a solution of the puzzle `g`.
pub open spec fn solution_of(s: Grid, g: Grid) -> bool {
    is_solved_grid(s) && extends(s, g)
}

/// The puzzle `g` has a solution.
pub open spec fn solvable(g: Grid) -> bool {
    exists|s: Grid| solution_of(s, g)
}

/// Cell number `k` in row-major order, `0 <= k < 81`.
pub open spec fn cell_at(g: Grid, k: int) -> int {
    g[k / 9][k % 9]
}

/// `a` comes no later than `b` when the boards are read cell by cell in
/// row-major order: at the first cell where they differ, `a` is smaller.
pub open spec fn lex_le(a: Grid, b: Grid) -> bool {
    forall|k: int|
        0 <= k < 81 && (forall|j: int| 0 <= j < k ==> #[trigger] cell_at(a, j) == cell_at(b, j))
            ==> #[trigger] cell_at(a, k) <= cell_at(b, k)
}

/// `s` is the first solution of the puzzle `g` in row-major lexicographic order.
pub open spec fn first_solution(s: Grid, g: Grid) -> bool {
    &&& solution_of(s, g)
    &&& forall|t: Grid| #[trigger] solution_of(t, g) ==> lex_le(s, t)
}

/// A filled board comes no later than any board that extends it (they are equal).
pub proof fn lemma_filled_lex_le(a: Grid, t: Grid)
    requires
        filled(a),
        extends(t, a),
    ensures
        lex_le(a, t),
{
    assert forall|k: int| 0 <= k < 81 implies #[trigger] cell_at(a, k) == cell_at(t, k) by {
        assert(in_grid(k / 9, k % 9));
    }
}

/// Two boards that extend `h`, whose cells before `k` are all filled in `h`, and
/// that differ first at cell `k` with `a` smaller, are ordered `a` before `b`.
pub proof fn lemma_lex_le_at(a: Grid, b: Grid, h: Grid, k: int)
    requires
        0 <= k < 81,
        forall|j: int| 0 <= j < k ==> #[trigger] cell_at(h, j) != 0,
        extends(a, h),
        extends(b, h),
        cell_at(a, k) < cell_at(b, k),
    ensures
        lex_le(a, b),
{
    assert forall|j: int| 0 <= j < k implies #[trigger] cell_at(a, j) == cell_at(b, j) by {
        assert(in_grid(j / 9, j % 9));
        assert(cell_at(h, j) != 0);
    }
    assert forall|m: int|
        0 <= m < 81 && (forall|j: int| 0 <= j < m ==> #[trigger] cell_at(a, j) == cell_at(b, j))
        implies #[trigger] cell_at(a, m) <= cell_at(b, m) by {
        if m > k {
            assert(cell_at(a, k) == cell_at(b, k));
        }
    }
}

/// The number of empty cells among the first `k` cells in row-major order.
pub open spec fn count_empty(g: Grid, k: int) -> int
    decreases k,
{
    if k <= 0 {
        0
    } else {
        count_empty(g, k - 1) + if g[(k - 1) / 9][(k - 1) % 9] == 0 { 1int } else { 0 }
    }
}

/// The number of empty cells of the board.
pub open spec fn empty_cells(g: Grid) -> int {
    count_empty(g, 81)
}

/// `g` with cell `(r, c)` set to `d` (0 to empty it).
pub open spec fn put(g: Grid, r: int, c: int, d: int) -> Grid {
    g.update(r, g[r].update(c, d))
}

/// Placing a digit that an empty cell is open to keeps the rules and only adds.
pub proof fn lemma_put_open(g: Grid, r: int, c: int, d: int)
    requires
        well_shaped(g),
        in_grid(r, c),
        g[r][c] == 0,
        is_digit(d),
        open_to(g, r, c, d),
    ensures
        well_shaped(put(g, r, c, d)),
        extends(put(g, r, c, d), g),
        conflict_free(g) ==> conflict_free(put(g, r, c, d)),
        empty_cells(put(g, r, c, d)) < empty_cells(g),
{
    let h = put(g, r, c, d);
    assert forall|r2: int| 0 <= r2 < 9 implies (#[trigger] h[r2]).len() == 9 by {}
    assert forall|r2: int, c2: int| in_grid(r2, c2) implies 0 <= #[trigger] h[r2][c2] <= 9 by {
        if r2 != r || c2 != c {
            assert(h[r2][c2] == g[r2][c2]);
        }
    }
    assert forall|r2: int, c2: int| in_grid(r2, c2) && g[r2][c2] != 0 implies #[trigger] h[r2][c2] == g[r2][c2] by {
        if r2 == r && c2 == c {
        }
    }
    if conflict_free(g) {
        assert forall|r1: int, c1: int, r2: int, c2: int|
            in_grid(r1, c1) && in_grid(r2, c2) && peers(r1, c1, r2, c2) && h[r1][c1] != 0
            implies #[trigger] h[r1][c1] != #[trigger] h[r2][c2] by {
            if r1 == r && c1 == c {
                assert(h[r2][c2] == g[r2][c2]);
            } else if r2 == r && c2 == c {
                assert(h[r1][c1] == g[r1][c1]);
                assert(peers(r, c, r1, c1));
            } else {
                assert(h[r1][c1] == g[r1][c1]);
                assert(h[r2][c2] == g[r2][c2]);
            }
        }
    }
    lemma_cell_index(r, c);
    let j = 9 * r + c;
    assert(h[j / 9][j % 9] != 0);
    lemma_count_empty_mono(g, h, 81);
}

/// A solution of a board is a solution of every board it extends.
pub proof fn lemma_extends_trans(s: Grid, g: Grid, h: Grid)
    requires
        extends(s, g),
        extends(g, h),
    ensures
        extends(s, h),
{
}

pub proof fn lemma_count_empty_bounds(g: Grid, k: int)
    ensures
        0 <= count_empty(g, k),
        k >= 0 ==> count_empty(g, k) <= k,
    decreases k,
{
    if k > 0 {
        lemma_count_empty_bounds(g, k - 1);
    }
}

/// Filling cells never adds empty ones; filling an empty cell removes one.
pub proof fn lemma_count_empty_mono(a: Grid, b: Grid, k: int)
    requires
        0 <= k <= 81,
        extends(b, a),
    ensures
        count_empty(b, k) <= count_empty(a, k),
        (exists|j: int| 0 <= j < k && a[j / 9][j % 9] == 0 && #[trigger] b[j / 9][j % 9] != 0)
            ==> count_empty(b, k) < count_empty(a, k),
    decreases k,
{
    if k > 0 {
        lemma_count_empty_mono(a, b, k - 1);
        let j = k - 1;
        assert(in_grid(j / 9, j % 9));
        if a[j / 9][j % 9] != 0 {
            assert(b[j / 9][j % 9] == a[j / 9][j % 9]);
        }
    }
}

/// A board with no empty cell counts none, and one that counts none is filled.
pub proof fn lemma_count_empty_zero(g: Grid, k: int)
    requires
        0 <= k <= 81,
    ensures
        count_empty(g, k) == 0 <==> forall|j: int| 0 <= j < k ==> #[trigger] g[j / 9][j % 9] != 0,
    decreases k,
{
    if k > 0 {
        lemma_count_empty_zero(g, k - 1);
        lemma_count_empty_bounds(g, k - 1);
    }
}

pub proof fn lemma_cell_index(r: int, c: int)
    requires
        in_grid(r, c),
    ensures
        0 <= 9 * r + c < 81,
        (9 * r + c) / 9 == r,
        (9 * r + c) % 9 == c,
{
}

/// A board is filled exactly when it has no empty cell.
pub proof fn lemma_filled_iff_no_empty(g: Grid)
    ensures
        filled(g) <==> empty_cells(g) == 0,
{
    lemma_count_empty_zero(g, 81);
    if empty_cells(g) == 0 {
        assert forall|r: int, c: int| in_grid(r, c) implies #[trigger] g[r][c] != 0 by {
            lemma_cell_index(r, c);
            let j = 9 * r + c;
            assert(g[j / 9][j % 9] != 0);
        }
    }
    if filled(g) {
        assert forall|j: int| 0 <= j < 81 implies #[trigger] g[j / 9][j % 9] != 0 by {
            assert(in_grid(j / 9, j % 9));
        }
    }
}

/// A grid that a solution extends is free of conflicts and dead cells.
pub proof fn lemma_solution_implies_valid(s: Grid, g: Grid)
    requires
        well_shaped(g),
        solution_of(s, g),
    ensures
        is_valid_grid(g),
        forall|r: int, c: int| in_grid(r, c) && g[r][c] == 0 ==> open_to(g, r, c, #[trigger] s[r][c]),
{
    assert forall|r1: int, c1: int, r2: int, c2: int|
        in_grid(r1, c1) && in_grid(r2, c2) && peers(r1, c1, r2, c2) && g[r1][c1] != 0
        implies #[trigger] g[r1][c1] != #[trigger] g[r2][c2] by {
        assert(s[r1][c1] == g[r1][c1]);
        assert(s[r1][c1] != s[r2][c2]);
    }
    assert forall|r: int, c: int| in_grid(r, c) && g[r][c] == 0 implies open_to(g, r, c, #[trigger] s[r][c]) by {
        assert forall|r2: int, c2: int| in_grid(r2, c2) && peers(r, c, r2, c2) implies #[trigger] g[r2][c2] != s[r][c] by {
            if g[r2][c2] != 0 {
                assert(s[r2][c2] == g[r2][c2]);
                assert(s[r][c] != s[r2][c2]);
            }
        }
    }
    assert(!has_dead_cell(g)) by {
        if has_dead_cell(g) {
            let (r, c) = choose|r: int, c: int|
                in_grid(r, c) && #[trigger] g[r][c] == 0 && forall|d: int| is_digit(d) ==> !open_to(g, r, c, d);
            assert(open_to(g, r, c, s[r][c]));
            assert(is_digit(s[r][c]));
        }
    }
}

} // verus!

verus! {

/// Digit `d` stands somewhere in row `r`.
pub open spec fn row_has(g: Grid, r: int, d: int) -> bool {
    exists|c: int| 0 <= c < 9 && #[trigger] g[r][c] == d
}

/// Digit `d` stands somewhere in column `c`.
pub open spec fn col_has(g: Grid, c: int, d: int) -> bool {
    exists|r: int| 0 <= r < 9 && #[trigger] g[r][c] == d
}

/// Digit `d` stands somewhere in the 3x3 region that holds cell `(r, c)`.
pub open spec fn block_has(g: Grid, r: int, c: int, d: int) -> bool {
    exists|r2: int, c2: int| in_grid(r2, c2) && r2 / 3 == r / 3 && c2 / 3 == c / 3 && #[trigger] g[r2][c2] == d
}

/// For an empty cell, a digit is open exactly when its row, column and region lack it.
pub proof fn lemma_open_to_by_groups(g: Grid, r: int, c: int, d: int)
    requires
        in_grid(r, c),
        g[r][c] == 0,
        is_digit(d),
    ensures
        open_to(g, r, c, d) <==> !row_has(g, r, d) && !col_has(g, c, d) && !block_has(g, r, c, d),
{
    if row_has(g, r, d) {
        let c2 = choose|c2: int| 0 <= c2 < 9 && #[trigger] g[r][c2] == d;
        assert(peers(r, c, r, c2));
    }
    if col_has(g, c, d) {
        let r2 = choose|r2: int| 0 <= r2 < 9 && #[trigger] g[r2][c] == d;
        assert(peers(r, c, r2, c));
    }
    if block_has(g, r, c, d) {
        let (r2, c2) = choose|r2: int, c2: int|
            in_grid(r2, c2) && r2 / 3 == r / 3 && c2 / 3 == c / 3 && #[trigger] g[r2][c2] == d;
        assert(peers(r, c, r2, c2));
    }
    if !row_has(g, r, d) && !col_has(g, c, d) && !block_has(g, r, c, d) {
        assert forall|r2: int, c2: int| in_grid(r2, c2) && peers(r, c, r2, c2) implies #[trigger] g[r2][c2] != d by {
            if g[r2][c2] == d {
                if r2 == r {
                    assert(row_has(g, r, d));
                } else if c2 == c {
                    assert(col_has(g, c, d));
                } else {
                    assert(block_has(g, r, c, d));
                }
            }
        }
    }
}

/// Two cells lie in one region exactly when their region indices agree.
pub proof fn lemma_region_of(r1: int, c1: int, r2: int, c2: int)
    requires
        in_grid(r1, c1),
        in_grid(r2, c2),
    ensures
        0 <= region_of(r1, c1) < 9,
        region_of(r1, c1) == region_of(r2, c2) <==> (r1 / 3 == r2 / 3 && c1 / 3 == c2 / 3),
{
}

} // verus!

verus! {

/// Nine distinct digits are all nine digits.
proof fn lemma_nine_distinct_digits(f: spec_fn(int) -> int)
    requires
        forall|k: int| 0 <= k < 9 ==> is_digit(#[trigger] f(k)),
        forall|k1: int, k2: int| 0 <= k1 < 9 && 0 <= k2 < 9 && k1 != k2 ==> #[trigger] f(k1) != #[trigger] f(k2),
    ensures
        forall|d: int| is_digit(d) ==> exists|k: int| 0 <= k < 9 && #[trigger] f(k) == d,
{
    let dom = set_int_range(0, 9);
    let img = dom.map(f);
    let digits = set_int_range(1, 10);
    lemma_int_range(0, 9);
    lemma_int_range(1, 10);
    assert(injective_on(f, dom));
    lemma_map_size(dom, img, f);
    assert forall|d: int| img.contains(d) implies digits.contains(d) by {
        let k = choose|k: int| dom.contains(k) && f(k) == d;
    }
    lemma_subset_equality(img, digits);
    assert forall|d: int| is_digit(d) implies exists|k: int| 0 <= k < 9 && #[trigger] f(k) == d by {
        assert(digits.contains(d));
        assert(img.contains(d));
        let k = choose|k: int| dom.contains(k) && f(k) == d;
    }
}

/// On a solved board every row, every column and every region holds each digit
/// exactly once: nothing repeats and nothing is missing.
pub proof fn lemma_solved_groups_are_permutations(g: Grid)
    requires
        is_solved_grid(g),
    ensures
        forall|r: int, c1: int, c2: int| in_grid(r, c1) && in_grid(r, c2) && c1 != c2 ==> #[trigger] g[r][c1] != #[trigger] g[r][c2],
        forall|c: int, r1: int, r2: int| in_grid(r1, c) && in_grid(r2, c) && r1 != r2 ==> #[trigger] g[r1][c] != #[trigger] g[r2][c],
        forall|r1: int, c1: int, r2: int, c2: int|
            in_grid(r1, c1) && in_grid(r2, c2) && r1 / 3 == r2 / 3 && c1 / 3 == c2 / 3 && (r1 != r2 || c1 != c2)
                ==> #[trigger] g[r1][c1] != #[trigger] g[r2][c2],
        forall|r: int, d: int| 0 <= r < 9 && is_digit(d) ==> #[trigger] row_has(g, r, d),
        forall|c: int, d: int| 0 <= c < 9 && is_digit(d) ==> #[trigger] col_has(g, c, d),
        forall|r: int, c: int, d: int| in_grid(r, c) && is_digit(d) ==> #[trigger] block_has(g, r, c, d),
{
    assert forall|r1: int, c1: int, r2: int, c2: int| in_grid(r1, c1) && in_grid(r2, c2) && peers(r1, c1, r2, c2)
        implies #[trigger] g[r1][c1] != #[trigger] g[r2][c2] by {
        assert(g[r1][c1] != 0);
    }
    assert forall|r: int, d: int| 0 <= r < 9 && is_digit(d) implies #[trigger] row_has(g, r, d) by {
        let f = |k: int| g[r][k];
        assert forall|k: int| 0 <= k < 9 implies is_digit(#[trigger] f(k)) by {
            assert(g[r][k] != 0);
        }
        assert forall|k1: int, k2: int| 0 <= k1 < 9 && 0 <= k2 < 9 && k1 != k2 implies #[trigger] f(k1) != #[trigger] f(k2) by {
            assert(peers(r, k1, r, k2));
        }
        lemma_nine_distinct_digits(f);
        let k = choose|k: int| 0 <= k < 9 && #[trigger] f(k) == d;
        assert(g[r][k] == d);
    }
    assert forall|c: int, d: int| 0 <= c < 9 && is_digit(d) implies #[trigger] col_has(g, c, d) by {
        let f = |k: int| g[k][c];
        assert forall|k: int| 0 <= k < 9 implies is_digit(#[trigger] f(k)) by {
            assert(g[k][c] != 0);
        }
        assert forall|k1: int, k2: int| 0 <= k1 < 9 && 0 <= k2 < 9 && k1 != k2 implies #[trigger] f(k1) != #[trigger] f(k2) by {
            assert(peers(k1, c, k2, c));
        }
        lemma_nine_distinct_digits(f);
        let k = choose|k: int| 0 <= k < 9 && #[trigger] f(k) == d;
        assert(g[k][c] == d);
    }
    assert forall|r: int, c: int, d: int| in_grid(r, c) && is_digit(d) implies #[trigger] block_has(g, r, c, d) by {
        let rs = 3 * (r / 3);
        let cs = 3 * (c / 3);
        let f = |k: int| g[rs + k / 3][cs + k % 3];
        assert forall|k: int| 0 <= k < 9 implies is_digit(#[trigger] f(k)) by {
            assert(in_grid(rs + k / 3, cs + k % 3));
            assert(g[rs + k / 3][cs + k % 3] != 0);
        }
        assert forall|k1: int, k2: int| 0 <= k1 < 9 && 0 <= k2 < 9 && k1 != k2 implies #[trigger] f(k1) != #[trigger] f(k2) by {
            assert(peers(rs + k1 / 3, cs + k1 % 3, rs + k2 / 3, cs + k2 % 3));
        }
        lemma_nine_distinct_digits(f);
        let k = choose|k: int| 0 <= k < 9 && #[trigger] f(k) == d;
        assert(in_grid(rs + k / 3, cs + k % 3) && (rs + k / 3) / 3 == r / 3 && (cs + k % 3) / 3 == c / 3);
        assert(g[rs + k / 3][cs + k % 3] == d);
    }
}

} // verus!
