//! The puzzle state: the 81-cell grid, the global consistency check, the
//! one-shot recursive solver, and the incremental backtracker.

use vstd::prelude::*;

use crate::cell::Cell;
use crate::cell::CellPosition;
use crate::cell::col_of;
use crate::cell::row_of;
use crate::cell::square_of;

verus! {

/// A well-formed grid: exactly 81 cells, each holding a digit 0..=9
/// (0 means the cell is empty).
pub open spec fn grid_wf(g: Seq<u8>) -> bool {
    &&& g.len() == 81
    &&& forall|i: int| 0 <= i < 81 ==> #[trigger] g[i] <= 9
}

/// Two cell indices share a constraint group: same row, same column, or
/// same 3x3 block.
pub open spec fn same_group(i: int, j: int) -> bool {
    ||| row_of(i) == row_of(j)
    ||| col_of(i) == col_of(j)
    ||| square_of(i) == square_of(j)
}

/// Cells `i` and `j` hold the same non-zero digit in a shared group.
pub open spec fn conflicts(g: Seq<u8>, i: int, j: int) -> bool {
    &&& i != j
    &&& same_group(i, j)
    &&& g[i] != 0
    &&& g[i] == g[j]
}

/// No filled cell is duplicated within its row, column or block.
pub open spec fn consistent(g: Seq<u8>) -> bool {
    forall|i: int, j: int| 0 <= i < 81 && 0 <= j < 81 ==> !(#[trigger] conflicts(g, i, j))
}

/// Every cell is filled with a digit 1..=9.
pub open spec fn full(g: Seq<u8>) -> bool {
    forall|i: int| 0 <= i < 81 ==> 1 <= #[trigger] g[i] <= 9
}

/// `sol` keeps every filled cell of `g`.
pub open spec fn extends(sol: Seq<u8>, g: Seq<u8>) -> bool {
    forall|i: int| 0 <= i < 81 && #[trigger] g[i] != 0 ==> sol[i] == g[i]
}

/// `sol` is a complete, consistent grid that keeps the filled cells of `g`.
pub open spec fn is_solution_of(sol: Seq<u8>, g: Seq<u8>) -> bool {
    &&& sol.len() == 81
    &&& full(sol)
    &&& consistent(sol)
    &&& extends(sol, g)
}

/// Some complete, consistent grid keeps the filled cells of `g`.
pub open spec fn solvable(g: Seq<u8>) -> bool {
    exists|sol: Seq<u8>| #[trigger] is_solution_of(sol, g)
}

/// `a` comes no later than `b` in cell-by-cell order: they are equal, or
/// `a` holds the smaller digit at the first cell where they differ. The
/// ascending-position, ascending-digit search finds the least solution in
/// this order, which makes its output deterministic.
pub open spec fn lex_le(a: Seq<u8>, b: Seq<u8>) -> bool {
    ||| a == b
    ||| exists|d: int|
        #![auto]
        0 <= d < 81 && (forall|k: int| 0 <= k < d ==> a[k] == b[k]) && a[d] < b[d]
}

/// Digit `d` appears nowhere in the row, column or block of cell `p`.
pub open spec fn digit_free(g: Seq<u8>, p: int, d: u8) -> bool {
    forall|j: int| 0 <= j < 81 && same_group(j, p) ==> #[trigger] g[j] != d
}

/// A grid with a conflict has no solution: a solution would have to keep
/// both conflicting cells and would repeat their digit in the shared group.
pub proof fn lemma_solution_needs_consistent(g: Seq<u8>)
    requires
        g.len() == 81,
        !consistent(g),
    ensures
        !solvable(g),
{
    let (i, j) = choose|i: int, j: int|
        0 <= i < 81 && 0 <= j < 81 && #[trigger] conflicts(g, i, j);
    assert forall|sol: Seq<u8>| !is_solution_of(sol, g) by {
        if is_solution_of(sol, g) {
            assert(g[i] != 0);
            assert(g[j] != 0);
            assert(sol[i] == g[i]);
            assert(sol[j] == g[j]);
            assert(conflicts(sol, i, j));
        }
    }
}

/// Placing an unused digit in an empty cell keeps the grid consistent.
pub proof fn lemma_place_keeps_consistent(g: Seq<u8>, p: int, d: u8)
    requires
        g.len() == 81,
        consistent(g),
        0 <= p < 81,
        g[p] == 0,
        d != 0,
        digit_free(g, p, d),
    ensures
        consistent(g.update(p, d)),
{
    let u = g.update(p, d);
    assert forall|a: int, b: int| 0 <= a < 81 && 0 <= b < 81 implies !(#[trigger] conflicts(
        u,
        a,
        b,
    )) by {
        if conflicts(u, a, b) {
            if a != p && b != p {
                assert(conflicts(g, a, b));
            } else if a == p {
                assert(same_group(b, p));
                assert(g[b] == d);
            } else {
                assert(same_group(a, p));
                assert(g[a] == d);
            }
        }
    }
}

/// The linear index of the `k`-th cell (in increasing linear order) of
/// 3x3 block `s`.
pub open spec fn square_cell_index(s: int, k: int) -> int {
    (s / 3 * 3 + k / 3) * 9 + s % 3 * 3 + k % 3
}

/// The `k`-th cell of block `s` really lies in block `s`, at row
/// `s / 3 * 3 + k / 3` and column `s % 3 * 3 + k % 3`: the block views
/// list exactly the cells of their block, in increasing linear order.
pub proof fn lemma_square_cell_in_square(s: int, k: int)
    requires
        0 <= s < 9,
        0 <= k < 9,
    ensures
        0 <= square_cell_index(s, k) < 81,
        row_of(square_cell_index(s, k)) == s / 3 * 3 + k / 3,
        col_of(square_cell_index(s, k)) == s % 3 * 3 + k % 3,
        square_of(square_cell_index(s, k)) == s,
{
    let r = s / 3 * 3 + k / 3;
    let c = s % 3 * 3 + k % 3;
    let idx = square_cell_index(s, k);
    assert(0 <= r < 9 && 0 <= c < 9);
    assert(idx == r * 9 + c);
    assert(row_of(idx) == r && col_of(idx) == c) by (nonlinear_arith)
        requires
            idx == r * 9 + c,
            0 <= r < 9,
            0 <= c < 9,
            row_of(idx) == idx / 9,
            col_of(idx) == idx % 9,
    {}
    assert(r / 3 == s / 3 && c / 3 == s % 3) by (nonlinear_arith)
        requires
            r == s / 3 * 3 + k / 3,
            c == s % 3 * 3 + k % 3,
            0 <= s < 9,
            0 <= k < 9,
    {}
}

/// Every attempt recorded in the trail is the exhausted digit 9.
pub open spec fn all_nines(tr: Seq<u8>) -> bool {
    forall|k: int| 0 <= k < tr.len() ==> #[trigger] tr[k] == 9
}

/// The trail as the first step sees it: an empty trail is seeded with a
/// single untried entry before anything else happens.
pub open spec fn seeded(tr: Seq<u8>) -> Seq<u8> {
    if tr.len() == 0 {
        seq![0u8]
    } else {
        tr
    }
}

/// A search that has signalled completion holds a solution: when the
/// trail covers all 81 positions and the grid is consistent, every cell is
/// filled, so stepping to natural completion ends in a solved grid.
pub proof fn lemma_completed_trail_solves(s: &Sudoku)
    requires
        s.wf(),
        s.trail_matches_grid(),
        s.trail().len() == 81,
        consistent(s.cells@),
    ensures
        full(s.cells@),
        is_solution_of(s.cells@, s.cells@),
{
    assert(s.trail()[0] != 0);
    assert forall|i: int| 0 <= i < 81 implies 1 <= #[trigger] s.cells@[i] <= 9 by {
        assert(s.cells@[i] == s.trail()[i]);
        if i >= 1 {
            assert(s.trail()[i] >= 1);
        }
        assert(s.trail()[i] <= 9);
    }
}

/// The trail of the incremental backtracker: a cursor and, for every
/// position reached so far, the digit last tried there. 0 in the first
/// entry means no digit has been tried yet.
#[derive(Debug, Clone)]
pub struct BackProp {
    position: usize,
    numbers: Vec<u8>,
}

impl BackProp {
    /// Either the trail is untouched, or it covers exactly the positions
    /// 0..=position with digits 0..=9, a leading 0 only in a fresh trail.
    spec fn wf(&self) -> bool {
        ||| (self.numbers@.len() == 0 && self.position == 0)
        ||| (self.numbers@.len() == self.position + 1 && self.position < 81 && (forall|k: int|
            0 <= k < self.numbers@.len() ==> #[trigger] self.numbers@[k] <= 9) && (self.numbers@[0]
            == 0 ==> self.numbers@.len() == 1) && (forall|k: int|
            1 <= k < self.numbers@.len() ==> #[trigger] self.numbers@[k] >= 1))
    }

    fn new() -> (r: Self)
        ensures
            r.wf(),
            r.numbers@.len() == 0,
            r.position == 0,
    {
        Self { position: 0, numbers: Vec::new() }
    }

    /// Seed the trail: position 0 is reached, no digit tried there yet.
    fn start(&mut self)
        requires
            old(self).wf(),
            old(self).numbers@.len() == 0,
        ensures
            final(self).wf(),
            final(self).numbers@ == seq![0u8],
            final(self).position == 0,
    {
        self.numbers.push(0);
        proof {
            assert(self.numbers@ =~= seq![0u8]);
        }
    }

    /// One forward unit of search: bump the untouched first entry to 1, or
    /// move the cursor to the next position and start it at 1. Reports the
    /// digit and the position it now stands at.
    fn next(&mut self) -> (r: Result<(u8, usize), &'static str>)
        requires
            old(self).wf(),
            old(self).numbers@.len() < 81,
        ensures
            final(self).wf(),
            r is Err <==> old(self).numbers@.len() == 0,
            r is Err ==> *final(self) == *old(self),
            r matches Err(m) ==> m@ == "Back propogation has not been started yet"@,
            old(self).numbers@.len() > 0 && old(self).numbers@[0] == 0 ==> {
                &&& final(self).numbers@ == old(self).numbers@.update(0, 1u8)
                &&& final(self).position == old(self).position
                &&& (r matches Ok(v) && v == (1u8, old(self).position))
            },
            old(self).numbers@.len() > 0 && old(self).numbers@[0] != 0 ==> {
                &&& final(self).numbers@ == old(self).numbers@.push(1u8)
                &&& final(self).position == old(self).position + 1
                &&& (r matches Ok(v) && v == (1u8, (old(self).position + 1) as usize))
            },
    {
        if self.numbers.len() == 0 {
            return Err("Back propogation has not been started yet");
        }
        if self.numbers[0] == 0 {
            self.numbers.set(0, 1);
        } else {
            self.position = self.position + 1;
            self.numbers.push(1);
        }
        Ok((self.numbers[self.position], self.position))
    }

    /// One backward unit of search: retry the cursor's digit if it has
    /// headroom, otherwise unwind the trail across exhausted digits (the
    /// carry) and retry there. Reports the digit and position retried and
    /// how many trail entries were unwound. Fails once the whole trail is
    /// exhausted.
    fn fail(&mut self) -> (r: Result<(u8, usize, usize), &'static str>)
        requires
            old(self).wf(),
        ensures
            final(self).wf(),
            r is Err <==> (old(self).numbers@.len() == 0 || old(self).position == 0 || all_nines(
                old(self).numbers@,
            )),
            r is Err ==> *final(self) == *old(self),
            r matches Err(m) ==> m@ == (if old(self).numbers@.len() == 0 {
                "Back propogation has not been started yet!"@
            } else {
                "Back propogation failed!"@
            }),
            r matches Ok(v) ==> {
                let j = v.1 as int;
                &&& 0 <= j <= old(self).position
                &&& old(self).numbers@[j] < 9
                &&& (forall|m: int| j < m <= old(self).position ==> old(self).numbers@[m] == 9)
                &&& v.0 == old(self).numbers@[j] + 1
                &&& v.2 == old(self).position - j
                &&& final(self).position == v.1
                &&& final(self).numbers@ == old(self).numbers@.take(j + 1).update(j, v.0)
            },
    {
        if self.numbers.len() == 0 {
            return Err("Back propogation has not been started yet!");
        }
        if self.position == 0 {
            return Err("Back propogation failed!");
        }
        let ghost tr0 = self.numbers@;
        let ghost pos0 = self.position as int;
        let mut k: usize = 0;
        let mut headroom = false;
        while k < self.numbers.len()
            invariant
                *self == *old(self),
                self.numbers@ == tr0,
                k <= tr0.len(),
                headroom == exists|m: int| 0 <= m < k && tr0[m] < 9,
            decreases tr0.len() - k,
        {
            if self.numbers[k] < 9 {
                headroom = true;
                assert(tr0[k as int] < 9);
            }
            k += 1;
        }
        if !headroom {
            proof {
                assert forall|m: int| 0 <= m < tr0.len() implies #[trigger] tr0[m] == 9 by {
                    assert(tr0[m] <= 9);
                }
            }
            return Err("Back propogation failed!");
        }
        let ghost hw = choose|m: int| 0 <= m < tr0.len() && tr0[m] < 9;
        assert(!all_nines(tr0));
        if self.numbers[self.position] < 9 {
            let d = self.numbers[self.position] + 1;
            self.numbers.set(self.position, d);
            proof {
                assert(self.numbers@ =~= tr0.take(pos0 + 1).update(pos0, d));
            }
            return Ok((d, self.position, 0));
        }
        self.position = self.position - 1;
        self.numbers.pop();
        let d0 = self.numbers[self.position] + 1;
        self.numbers.set(self.position, d0);
        let mut amount: usize = 1;
        proof {
            assert(self.numbers@ =~= tr0.take(pos0 - 1 + 1).update(
                pos0 - 1,
                (tr0[pos0 - 1] + 1) as u8,
            ));
        }
        while self.numbers[self.position] > 9
            invariant
                tr0.len() == pos0 + 1,
                0 < tr0.len() <= 81,
                forall|m: int| 0 <= m < tr0.len() ==> #[trigger] tr0[m] <= 9,
                0 <= self.position < pos0,
                amount == pos0 - self.position,
                self.numbers@.len() == self.position + 1,
                forall|m: int| self.position < m <= pos0 ==> tr0[m] == 9,
                self.numbers@ == tr0.take(self.position + 1).update(
                    self.position as int,
                    (tr0[self.position as int] + 1) as u8,
                ),
                0 <= hw < tr0.len() && tr0[hw] < 9,
            decreases self.position,
        {
            proof {
                assert(tr0[self.position as int] == 9);
                assert(hw != self.position as int);
                assert forall|m: int| self.position <= m <= pos0 implies tr0[m] == 9 by {}
                assert(hw < self.position);
                assert(self.position >= 1);
            }
            let ghost p_prev = self.position as int;
            self.position = self.position - 1;
            self.numbers.pop();
            proof {
                assert(self.numbers@ =~= tr0.take(p_prev));
            }
            let d1 = self.numbers[self.position] + 1;
            self.numbers.set(self.position, d1);
            amount += 1;
            proof {
                assert(self.numbers@ =~= tr0.take(self.position + 1).update(
                    self.position as int,
                    (tr0[self.position as int] + 1) as u8,
                ));
            }
        }
        let d = self.numbers[self.position];
        proof {
            assert(d == tr0[self.position as int] + 1);
            assert(tr0[self.position as int] < 9);
        }
        Ok((d, self.position, amount))
    }
}

/// One puzzle: the flat grid, the backtracker's trail, and the flag that
/// tells an external stepping driver whether to keep stepping.
#[derive(Debug, Clone)]
pub struct Sudoku {
    pub cells: Vec<u8>,
    pub back_prop: BackProp,
    pub visualizer: bool,
}

impl Sudoku {
    /// The digits tried so far, one per trail position.
    pub closed spec fn trail(&self) -> Seq<u8> {
        self.back_prop.numbers@
    }

    /// The trail position the search is currently working on.
    pub closed spec fn cursor(&self) -> int {
        self.back_prop.position as int
    }

    /// Either the trail is untouched, or it covers exactly the positions
    /// 0..=cursor with digits 0..=9, a leading 0 only in a fresh trail.
    pub open spec fn trail_ok(&self) -> bool {
        ||| (self.trail().len() == 0 && self.cursor() == 0)
        ||| (self.trail().len() == self.cursor() + 1 && self.cursor() < 81 && (forall|k: int|
            0 <= k < self.trail().len() ==> #[trigger] self.trail()[k] <= 9) && (self.trail()[0]
            == 0 ==> self.trail().len() == 1) && (forall|k: int|
            1 <= k < self.trail().len() ==> #[trigger] self.trail()[k] >= 1))
    }

    /// The trail invariant of a running search: once a digit has been
    /// tried, every attempt on the trail is the digit currently placed in
    /// the grid cell of its position.
    pub open spec fn trail_matches_grid(&self) -> bool {
        self.trail().len() > 0 && self.trail()[0] != 0 ==> forall|k: int|
            0 <= k <= self.cursor() ==> #[trigger] self.cells@[k] == self.trail()[k]
    }

    pub open spec fn wf(&self) -> bool {
        &&& grid_wf(self.cells@)
        &&& self.trail_ok()
    }

    /// A puzzle over the given 81 cells, with an untouched trail and the
    /// stepping flag down.
    pub fn new(cells: Vec<u8>) -> (r: Self)
        requires
            cells@.len() == 81,
            forall|i: int| 0 <= i < 81 ==> #[trigger] cells@[i] <= 9,
        ensures
            r.wf(),
            r.cells@ == cells@,
            r.trail().len() == 0,
            r.cursor() == 0,
            r.trail_matches_grid(),
            r.visualizer == false,
    {
        Self { cells, back_prop: BackProp::new(), visualizer: false }
    }

    /// The nine rows: entry `[r][c]` is the cell in row `r`, column `c`.
    pub fn get_rows(&self) -> (rows: Vec<Vec<u8>>)
        requires
            self.cells@.len() == 81,
        ensures
            rows@.len() == 9,
            forall|r: int| 0 <= r < 9 ==> #[trigger] rows@[r]@.len() == 9,
            forall|r: int, c: int|
                0 <= r < 9 && 0 <= c < 9 ==> #[trigger] rows@[r]@[c] == self.cells@[r * 9 + c],
    {
        let mut rows: Vec<Vec<u8>> = Vec::new();
        let mut r: usize = 0;
        while r < 9
            invariant
                self.cells@.len() == 81,
                r <= 9,
                rows@.len() == r,
                forall|a: int| 0 <= a < r ==> #[trigger] rows@[a]@.len() == 9,
                forall|a: int, c: int|
                    0 <= a < r && 0 <= c < 9 ==> #[trigger] rows@[a]@[c] == self.cells@[a * 9 + c],
            decreases 9 - r,
        {
            let mut row: Vec<u8> = Vec::new();
            let mut c: usize = 0;
            while c < 9
                invariant
                    self.cells@.len() == 81,
                    r < 9,
                    c <= 9,
                    row@.len() == c,
                    forall|b: int| 0 <= b < c ==> #[trigger] row@[b] == self.cells@[r * 9 + b],
                decreases 9 - c,
            {
                row.push(self.cells[r * 9 + c]);
                c += 1;
            }
            rows.push(row);
            r += 1;
        }
        rows
    }

    /// The nine columns: entry `[c][r]` is the cell in row `r`, column `c`.
    pub fn get_cols(&self) -> (cols: Vec<Vec<u8>>)
        requires
            self.cells@.len() == 81,
        ensures
            cols@.len() == 9,
            forall|c: int| 0 <= c < 9 ==> #[trigger] cols@[c]@.len() == 9,
            forall|c: int, r: int|
                0 <= c < 9 && 0 <= r < 9 ==> #[trigger] cols@[c]@[r] == self.cells@[r * 9 + c],
    {
        let mut cols: Vec<Vec<u8>> = Vec::new();
        let mut c: usize = 0;
        while c < 9
            invariant
                self.cells@.len() == 81,
                c <= 9,
                cols@.len() == c,
                forall|a: int| 0 <= a < c ==> #[trigger] cols@[a]@.len() == 9,
                forall|a: int, r: int|
                    0 <= a < c && 0 <= r < 9 ==> #[trigger] cols@[a]@[r] == self.cells@[r * 9 + a],
            decreases 9 - c,
        {
            let mut col: Vec<u8> = Vec::new();
            let mut r: usize = 0;
            while r < 9
                invariant
                    self.cells@.len() == 81,
                    c < 9,
                    r <= 9,
                    col@.len() == r,
                    forall|b: int| 0 <= b < r ==> #[trigger] col@[b] == self.cells@[b * 9 + c],
                decreases 9 - r,
            {
                col.push(self.cells[r * 9 + c]);
                r += 1;
            }
            cols.push(col);
            c += 1;
        }
        cols
    }

    /// The nine 3x3 blocks: entry `[s][k]` is the `k`-th cell of block `s`
    /// in increasing linear order.
    pub fn get_squares(&self) -> (squares: Vec<Vec<u8>>)
        requires
            self.cells@.len() == 81,
        ensures
            squares@.len() == 9,
            forall|s: int| 0 <= s < 9 ==> #[trigger] squares@[s]@.len() == 9,
            forall|s: int, k: int|
                0 <= s < 9 && 0 <= k < 9 ==> #[trigger] squares@[s]@[k] == self.cells@[
                    square_cell_index(s, k)],
    {
        let mut squares: Vec<Vec<u8>> = Vec::new();
        let mut s: usize = 0;
        while s < 9
            invariant
                self.cells@.len() == 81,
                s <= 9,
                squares@.len() == s,
                forall|a: int| 0 <= a < s ==> #[trigger] squares@[a]@.len() == 9,
                forall|a: int, k: int|
                    0 <= a < s && 0 <= k < 9 ==> #[trigger] squares@[a]@[k] == self.cells@[
                        square_cell_index(a, k)],
            decreases 9 - s,
        {
            let mut square: Vec<u8> = Vec::new();
            let mut k: usize = 0;
            while k < 9
                invariant
                    self.cells@.len() == 81,
                    s < 9,
                    k <= 9,
                    square@.len() == k,
                    forall|b: int|
                        0 <= b < k ==> #[trigger] square@[b] == self.cells@[square_cell_index(
                            s as int,
                            b,
                        )],
                decreases 9 - k,
            {
                square.push(self.cells[(s / 3 * 3 + k / 3) * 9 + s % 3 * 3 + k % 3]);
                k += 1;
            }
            squares.push(square);
            s += 1;
        }
        squares
    }

    /// The linear index addressed by an outer block coordinate and an inner
    /// cell coordinate of the nested 3x3-of-3x3 layout.
    pub fn get_position(square: CellPosition, inner_coords: CellPosition) -> (r: usize)
        requires
            square.spec_position() * 3 + inner_coords.spec_position() <= usize::MAX,
        ensures
            r == square.spec_position() * 3 + inner_coords.spec_position(),
            square.size == 9 && inner_coords.size == 9 && square.row < 3 && square.col < 3
                && inner_coords.row < 3 && inner_coords.col < 3 ==> {
                &&& r == 9 * (3 * square.row + inner_coords.row) + 3 * square.col
                    + inner_coords.col
                &&& r < 81
                &&& row_of(r as int) == 3 * square.row + inner_coords.row
                &&& col_of(r as int) == 3 * square.col + inner_coords.col
            },
    {
        let r = square.get_position() * 3 + inner_coords.get_position();
        proof {
            if square.size == 9 && inner_coords.size == 9 && square.row < 3 && square.col < 3
                && inner_coords.row < 3 && inner_coords.col < 3 {
                let gr = 3 * square.row + inner_coords.row;
                let gc = 3 * square.col + inner_coords.col;
                assert(r == 9 * gr + gc);
                assert(row_of(r as int) == gr && col_of(r as int) == gc) by (nonlinear_arith)
                    requires
                        r == 9 * gr + gc,
                        0 <= gr < 9,
                        0 <= gc < 9,
                        row_of(r as int) == r as int / 9,
                        col_of(r as int) == r as int % 9,
                {}
            }
        }
        r
    }

    /// No filled cell is repeated in any row, column or block.
    pub fn check(&self) -> (r: bool)
        requires
            self.cells@.len() == 81,
        ensures
            r == consistent(self.cells@),
    {
        let mut i: usize = 0;
        while i < 81
            invariant
                self.cells@.len() == 81,
                i <= 81,
                forall|a: int, b: int|
                    0 <= a < i && 0 <= b < 81 ==> !(#[trigger] conflicts(self.cells@, a, b)),
            decreases 81 - i,
        {
            let vi = self.cells[i];
            if vi != 0 {
                let mut j: usize = 0;
                while j < 81
                    invariant
                        self.cells@.len() == 81,
                        i < 81,
                        j <= 81,
                        vi == self.cells@[i as int],
                        vi != 0,
                        forall|b: int|
                            0 <= b < j ==> !(#[trigger] conflicts(self.cells@, i as int, b)),
                    decreases 81 - j,
                {
                    if j != i && same_group_cells(i, j) && self.cells[j] == vi {
                        assert(conflicts(self.cells@, i as int, j as int));
                        return false;
                    }
                    j += 1;
                }
            } else {
                assert forall|b: int| 0 <= b < 81 implies !(#[trigger] conflicts(
                    self.cells@,
                    i as int,
                    b,
                )) by {}
            }
            i += 1;
        }
        true
    }

    /// Whether digit `d` can be placed at cell `p` without repeating it in
    /// the row, column or block of `p`.
    fn digit_free_at(&self, p: usize, d: u8) -> (r: bool)
        requires
            self.cells@.len() == 81,
            p < 81,
        ensures
            r == digit_free(self.cells@, p as int, d),
    {
        let mut j: usize = 0;
        while j < 81
            invariant
                self.cells@.len() == 81,
                p < 81,
                j <= 81,
                forall|b: int|
                    0 <= b < j && same_group(b, p as int) ==> #[trigger] self.cells@[b] != d,
            decreases 81 - j,
        {
            if same_group_cells(j, p) && self.cells[j] == d {
                return false;
            }
            j += 1;
        }
        true
    }

    /// Depth-first search from `position` on: fills every empty cell at or
    /// after it, trying digits in ascending order, and undoes everything on
    /// failure. Fails exactly when no completion of the current grid exists.
    fn back_prop_helper(&mut self, position: usize) -> (r: Result<(), ()>)
        requires
            grid_wf(old(self).cells@),
            consistent(old(self).cells@),
            position <= 81,
            forall|k: int| 0 <= k < position ==> old(self).cells@[k] != 0,
        ensures
            final(self).trail() == old(self).trail(),
            final(self).cursor() == old(self).cursor(),
            final(self).visualizer == old(self).visualizer,
            grid_wf(final(self).cells@),
            r is Ok ==> is_solution_of(final(self).cells@, old(self).cells@),
            r is Ok ==> forall|sol: Seq<u8>|
                #[trigger] is_solution_of(sol, old(self).cells@) ==> lex_le(
                    final(self).cells@,
                    sol,
                ),
            r is Err ==> final(self).cells@ == old(self).cells@,
            r is Err ==> !solvable(old(self).cells@),
        decreases 81 - position,
    {
        if position >= 81 {
            proof {
                assert forall|i: int| 0 <= i < 81 implies 1 <= #[trigger] self.cells@[i] <= 9 by {
                    assert(self.cells@[i] != 0);
                }
                assert forall|sol: Seq<u8>| #[trigger] is_solution_of(sol, self.cells@)
                    implies lex_le(self.cells@, sol) by {
                    assert forall|k: int| 0 <= k < 81 implies sol[k] == self.cells@[k] by {
                        assert(self.cells@[k] != 0);
                    }
                    assert(sol =~= self.cells@);
                }
            }
            return Ok(());
        }
        if self.cells[position] != 0 {
            return self.back_prop_helper(position + 1);
        }
        let ghost g0 = self.cells@;
        let ghost tr0 = self.trail();
        let ghost cur0 = self.cursor();
        let ghost vis0 = self.visualizer;
        let mut number: u8 = 1;
        while number <= 9
            invariant
                g0 == old(self).cells@,
                tr0 == old(self).trail(),
                cur0 == old(self).cursor(),
                vis0 == old(self).visualizer,
                self.cells@ == g0,
                self.trail() == tr0,
                self.cursor() == cur0,
                self.visualizer == vis0,
                grid_wf(g0),
                consistent(g0),
                position < 81,
                g0[position as int] == 0,
                forall|k: int| 0 <= k < position ==> g0[k] != 0,
                1 <= number <= 10,
                forall|sol: Seq<u8>|
                    #[trigger] is_solution_of(sol, g0) ==> sol[position as int] >= number,
            decreases 10 - number,
        {
            if self.digit_free_at(position, number) {
                self.cells.set(position, number);
                let ghost placed = self.cells@;
                proof {
                    lemma_place_keeps_consistent(g0, position as int, number);
                    assert forall|k: int| 0 <= k < position + 1 implies placed[k] != 0 by {
                        if k < position {
                            assert(g0[k] != 0);
                        }
                    }
                }
                let res = self.back_prop_helper(position + 1);
                match res {
                    Ok(_) => {
                        proof {
                            assert forall|i: int|
                                0 <= i < 81 && #[trigger] g0[i] != 0 implies self.cells@[i] == g0[i] by {
                                assert(placed[i] == g0[i]);
                                assert(placed[i] != 0);
                            }
                            let found = self.cells@;
                            assert forall|sol: Seq<u8>| #[trigger] is_solution_of(sol, g0)
                                implies lex_le(found, sol) by {
                                assert(sol[position as int] >= number);
                                if sol[position as int] == number {
                                    assert forall|i: int|
                                        0 <= i < 81 && #[trigger] placed[i] != 0
                                        implies sol[i] == placed[i] by {
                                        if i != position {
                                            assert(placed[i] == g0[i]);
                                            assert(g0[i] != 0);
                                        }
                                    }
                                    assert(is_solution_of(sol, placed));
                                } else {
                                    assert forall|k: int| 0 <= k < position implies found[k]
                                        == sol[k] by {
                                        assert(g0[k] != 0);
                                        assert(placed[k] == g0[k]);
                                        assert(sol[k] == g0[k]);
                                        assert(found[k] == placed[k]);
                                    }
                                    assert(placed[position as int] != 0);
                                    assert(found[position as int] == number);
                                    assert(found[position as int] < sol[position as int]);
                                }
                            }
                        }
                        return Ok(());
                    }
                    Err(_) => {
                        self.cells.set(position, 0);
                        proof {
                            assert(self.cells@ =~= g0);
                            assert forall|sol: Seq<u8>| #[trigger] is_solution_of(sol, g0)
                                implies sol[position as int] >= number + 1 by {
                                assert(sol[position as int] >= number);
                                if sol[position as int] == number {
                                    assert forall|i: int|
                                        0 <= i < 81 && #[trigger] placed[i] != 0
                                        implies sol[i] == placed[i] by {
                                        if i != position {
                                            assert(placed[i] == g0[i]);
                                            assert(g0[i] != 0);
                                        }
                                    }
                                    assert(is_solution_of(sol, placed));
                                    assert(false);
                                }
                            }
                        }
                    }
                }
            } else {
                proof {
                    assert forall|sol: Seq<u8>| #[trigger] is_solution_of(sol, g0)
                        implies sol[position as int] >= number + 1 by {
                        assert(sol[position as int] >= number);
                        if sol[position as int] == number {
                            assert(exists|j: int|
                                0 <= j < 81 && same_group(j, position as int) && #[trigger] g0[j]
                                    == number);
                            let j = choose|j: int|
                                0 <= j < 81 && same_group(j, position as int) && #[trigger] g0[j]
                                    == number;
                            assert(j != position);
                            assert(sol[j] == g0[j]);
                            assert(conflicts(sol, position as int, j));
                            assert(false);
                        }
                    }
                }
            }
            number += 1;
        }
        self.cells.set(position, 0);
        proof {
            assert(self.cells@ =~= g0);
            assert forall|sol: Seq<u8>| !(#[trigger] is_solution_of(sol, g0)) by {
                if is_solution_of(sol, g0) {
                    assert(sol[position as int] >= 10);
                    assert(1 <= sol[position as int] <= 9);
                }
            }
        }
        Err(())
    }

    /// Solve on a private copy of the grid: depth-first over positions in
    /// ascending order, digits in ascending order. Returns the completed
    /// copy — the least completion in cell-by-cell order, so the output is
    /// deterministic — or fails exactly when the grid has no completion;
    /// the caller's grid is never touched.
    pub fn solve(&self) -> (r: Result<Sudoku, &'static str>)
        requires
            self.wf(),
        ensures
            r is Ok <==> solvable(self.cells@),
            r matches Ok(s) ==> {
                &&& s.wf()
                &&& is_solution_of(s.cells@, self.cells@)
                &&& (forall|sol: Seq<u8>|
                    #[trigger] is_solution_of(sol, self.cells@) ==> lex_le(s.cells@, sol))
                &&& s.trail() == self.trail()
                &&& s.cursor() == self.cursor()
                &&& s.visualizer == self.visualizer
            },
            r matches Err(m) ==> m@ == "Sudoku is not solvable!"@,
    {
        if !self.check() {
            proof {
                lemma_solution_needs_consistent(self.cells@);
            }
            return Err("Sudoku is not solvable!");
        }
        let mut new_sudoku = self.clone_state();
        match new_sudoku.back_prop_helper(0) {
            Ok(_) => {
                proof {
                    assert(is_solution_of(new_sudoku.cells@, self.cells@));
                }
                Ok(new_sudoku)
            },
            Err(_) => Err("Sudoku is not solvable!"),
        }
    }

    /// One unit of incremental search, mutating the puzzle in place. A step
    /// on an untouched trail first seeds it. If the grid is consistent, the
    /// step either reports completion (all 81 positions covered: the
    /// stepping flag drops) or places the next candidate digit one position
    /// further. If the grid is inconsistent, the step retries the last
    /// position with its next digit, unwinding the trail across exhausted
    /// digits first and blanking the unwound cells; it fails exactly when
    /// the trail has nothing left to retry.
    ///
    /// Digits are placed before they are validated, so an illegal digit
    /// stays visible for one step and is backtracked on the following one.
    pub fn back_prop_next_step(&mut self) -> (r: Result<(), &'static str>)
        requires
            old(self).wf(),
        ensures
            final(self).wf(),
            final(self).cells@.len() == 81,
            old(self).trail_matches_grid() ==> final(self).trail_matches_grid(),
            consistent(old(self).cells@) && seeded(old(self).trail()).len() == 81 ==> {
                &&& r is Ok
                &&& final(self).cells@ == old(self).cells@
                &&& final(self).trail() == old(self).trail()
                &&& final(self).cursor() == old(self).cursor()
                &&& final(self).visualizer == false
            },
            consistent(old(self).cells@) && seeded(old(self).trail()).len() < 81 && seeded(
                old(self).trail(),
            )[0] == 0 ==> {
                &&& r is Ok
                &&& final(self).trail() == seeded(old(self).trail()).update(0, 1u8)
                &&& final(self).cursor() == 0
                &&& final(self).cells@ == old(self).cells@.update(0, 1u8)
                &&& final(self).visualizer == old(self).visualizer
            },
            consistent(old(self).cells@) && seeded(old(self).trail()).len() < 81 && seeded(
                old(self).trail(),
            )[0] != 0 ==> {
                &&& r is Ok
                &&& final(self).trail() == seeded(old(self).trail()).push(1u8)
                &&& final(self).cursor() == old(self).cursor() + 1
                &&& final(self).cells@ == old(self).cells@.update(old(self).cursor() + 1, 1u8)
                &&& final(self).visualizer == old(self).visualizer
            },
            !consistent(old(self).cells@) && (old(self).cursor() == 0 || all_nines(
                seeded(old(self).trail()),
            )) ==> {
                &&& r is Err
                &&& final(self).cells@ == old(self).cells@
                &&& final(self).trail() == seeded(old(self).trail())
                &&& final(self).cursor() == old(self).cursor()
                &&& final(self).visualizer == old(self).visualizer
            },
            r matches Err(m) ==> {
                &&& m@ == "Back propogation failed!"@
                &&& !consistent(old(self).cells@)
                &&& (old(self).cursor() == 0 || all_nines(seeded(old(self).trail())))
            },
            !consistent(old(self).cells@) && old(self).cursor() > 0 && !all_nines(
                seeded(old(self).trail()),
            ) ==> ({
                let tr = seeded(old(self).trail());
                let j = final(self).cursor();
                &&& r is Ok
                &&& final(self).visualizer == old(self).visualizer
                &&& 0 <= j <= old(self).cursor()
                &&& tr[j] < 9
                &&& (forall|m: int| j < m <= old(self).cursor() ==> tr[m] == 9)
                &&& final(self).trail() == tr.take(j + 1).update(j, (tr[j] + 1) as u8)
                &&& final(self).cells@[j] == tr[j] + 1
                &&& (forall|c: int| j < c <= old(self).cursor() ==> final(self).cells@[c] == 0)
                &&& (forall|c: int|
                    0 <= c < 81 && !(j <= c <= old(self).cursor()) ==> final(self).cells@[c] == old(
                        self,
                    ).cells@[c])
            }),
    {
        if self.back_prop.numbers.len() == 0 {
            self.back_prop.start();
        }
        proof {
            assert(self.back_prop.numbers@ == seeded(old(self).trail()));
            assert(self.back_prop.position == old(self).cursor());
            assert(self.cells@ == old(self).cells@);
        }
        if self.check() {
            if self.back_prop.numbers.len() == 81 {
                self.visualizer = false;
                Ok(())
            } else {
                match self.back_prop.next() {
                    Ok((number, position)) => {
                        self.cells.set(position, number);
                        Ok(())
                    },
                    Err(e) => {
                        // The trail was seeded above, so a forward unit
                        // always has an entry to work on.
                        proof {
                            assert(false);
                        }
                        Err(e)
                    },
                }
            }
        } else {
            match self.back_prop.fail() {
                Ok((number, position, amount)) => {
                    let ghost tr = seeded(old(self).trail());
                    let ghost pos0 = old(self).cursor();
                    let ghost vis0 = self.visualizer;
                    self.cells.set(position, number);
                    let ghost trail_after = self.trail();
                    let mut p: usize = position + 1;
                    while p < position + 1 + amount
                        invariant
                            self.cells@.len() == 81,
                            self.trail() == trail_after,
                            self.cursor() == position as int,
                            self.visualizer == vis0,
                            position + amount == pos0,
                            0 <= pos0 < 81,
                            position + 1 <= p <= position + 1 + amount,
                            self.cells@[position as int] == number,
                            forall|c: int| position < c < p ==> self.cells@[c] == 0,
                            forall|c: int|
                                0 <= c < 81 && !(position <= c < p) ==> self.cells@[c] == old(
                                    self,
                                ).cells@[c],
                        decreases position + 1 + amount - p,
                    {
                        self.cells.set(p, 0);
                        p += 1;
                    }
                    Ok(())
                },
                Err(e) => Err(e),
            }
        }
    }

    /// A copy of this puzzle with the same grid, trail and flag.
    fn clone_state(&self) -> (r: Sudoku)
        ensures
            r.cells@ == self.cells@,
            r.trail() == self.trail(),
            r.cursor() == self.cursor(),
            r.visualizer == self.visualizer,
    {
        Sudoku {
            cells: clone_digits(&self.cells),
            back_prop: BackProp {
                position: self.back_prop.position,
                numbers: clone_digits(&self.back_prop.numbers),
            },
            visualizer: self.visualizer,
        }
    }
}

/// A copy of a digit vector with the same contents.
fn clone_digits(v: &Vec<u8>) -> (r: Vec<u8>)
    ensures
        r@ == v@,
{
    let mut r: Vec<u8> = Vec::new();
    let mut i: usize = 0;
    while i < v.len()
        invariant
            i <= v@.len(),
            r@.len() == i,
            forall|b: int| 0 <= b < i ==> #[trigger] r@[b] == v@[b],
        decreases v@.len() - i,
    {
        r.push(v[i]);
        i += 1;
    }
    proof {
        assert(r@ =~= v@);
    }
    r
}

/// Whether cells `i` and `j` of the grid share a row, column or block.
fn same_group_cells(i: usize, j: usize) -> (r: bool)
    requires
        i < 81,
        j < 81,
    ensures
        r == same_group(i as int, j as int),
{
    i.get_row() == j.get_row() || i.get_col() == j.get_col() || i.get_square() == j.get_square()
}

} // verus!
