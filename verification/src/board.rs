//! The board abstraction and its binary-grid implementation.
//!
//! `Board` is the capability set the solvers rely on: reading dimensions and
//! cells, writing single cells, performing the toggle rule and testing for
//! the solved state.  `Binary` is the concrete row-major grid of `0`/`1`
//! values behind it.

use crate::model::{apply_move, area, solved, BoardModel};
use vstd::prelude::*;

verus! {

broadcast use vstd::arithmetic::mul::lemma_mul_is_commutative;

/// Row-major index of the cell at `(col, row)`.
pub open spec fn cell_index(m: BoardModel, col: int, row: int) -> int {
    row * (m.cols as int) + col
}

/// A rectangular Lights Out grid.
///
/// All operations are specified against the spec-level value `bd()`; `inv()`
/// is the implementation's internal consistency and is preserved by every
/// operation.
pub trait Board: Sized {
    /// Spec-level value of the board.
    spec fn bd(&self) -> BoardModel;

    /// Internal consistency of the representation.
    spec fn inv(&self) -> bool;

    /// Dimensions as `(cols, rows)`.
    fn size(&self) -> (r: (usize, usize))
        requires
            self.inv(),
        ensures
            r.0 == self.bd().cols,
            r.1 == self.bd().rows,
    ;

    /// Number of columns.
    fn cols(&self) -> (r: usize)
        requires
            self.inv(),
        ensures
            r == self.bd().cols,
    ;

    /// Number of rows.
    fn rows(&self) -> (r: usize)
        requires
            self.inv(),
        ensures
            r == self.bd().rows,
    ;

    /// True exactly when every light is on.
    fn is_solved(&self) -> (r: bool)
        requires
            self.inv(),
        ensures
            r == solved(self.bd()),
    ;

    /// The value (`0` or `1`) of the cell at `(col, row)`, or `None` outside
    /// the grid.
    fn get(&self, col: usize, row: usize) -> (r: Option<usize>)
        requires
            self.inv(),
        ensures
            col < self.bd().cols && row < self.bd().rows ==> r == Some(
                if self.bd().cells[cell_index(self.bd(), col as int, row as int)] {
                    1usize
                } else {
                    0usize
                },
            ),
            !(col < self.bd().cols && row < self.bd().rows) ==> r is None,
    ;

    /// Writes `value` into the cell at `(col, row)`.  Returns whether the
    /// write happened: it is refused when the coordinate is off the grid or
    /// the value is not binary, and the board is then left unchanged.
    fn set(&mut self, col: usize, row: usize, value: usize) -> (r: bool)
        requires
            old(self).inv(),
        ensures
            final(self).inv(),
            r == (col < old(self).bd().cols && row < old(self).bd().rows && value <= 1),
            r ==> final(self).bd() == (BoardModel {
                cells: old(self).bd().cells.update(
                    cell_index(old(self).bd(), col as int, row as int),
                    value == 1,
                ),
                ..old(self).bd()
            }),
            !r ==> final(self).bd() == old(self).bd(),
    ;

    /// Performs the move at the given row-major index: flips that cell and
    /// its orthogonal neighbours.  An index outside the grid is a no-op.
    fn trigger_index(&mut self, index: usize)
        requires
            old(self).inv(),
            old(self).bd().cols > 0,
        ensures
            final(self).inv(),
            final(self).bd() == apply_move(old(self).bd(), index as int),
    ;

    /// Performs the move at `(col, row)`.  A coordinate outside the grid is
    /// a no-op.
    fn trigger_coord(&mut self, col: usize, row: usize)
        requires
            old(self).inv(),
        ensures
            final(self).inv(),
            col < old(self).bd().cols && row < old(self).bd().rows ==> final(self).bd()
                == apply_move(
                old(self).bd(),
                cell_index(old(self).bd(), col as int, row as int),
            ),
            !(col < old(self).bd().cols && row < old(self).bd().rows) ==> final(self).bd() == old(
                self,
            ).bd(),
    ;

    /// The cell values in row-major order, for read-only inspection.
    fn cells(&self) -> (r: Vec<usize>)
        requires
            self.inv(),
        ensures
            r@.len() == self.bd().cells.len(),
            forall|i: int|
                0 <= i < r@.len() ==> r@[i] == (if self.bd().cells[i] {
                    1usize
                } else {
                    0usize
                }),
    ;
}

/// A grid of binary cells stored row-major as `0`/`1` values.
#[derive(Debug)]
pub struct Binary {
    cols: usize,
    rows: usize,
    board: Vec<usize>,
}

impl Binary {
    /// A board of the given dimensions with every light off.
    pub fn new_blank(cols: usize, rows: usize) -> (r: Binary)
        requires
            (cols as int) * (rows as int) <= usize::MAX,
        ensures
            r.inv(),
            r.bd().cols == cols,
            r.bd().rows == rows,
            r.bd().cells == Seq::new((cols * rows) as nat, |i: int| false),
    {
        proof {
            vstd::arithmetic::mul::lemma_mul_nonnegative(cols as int, rows as int);
        }
        let r = Binary { cols, rows, board: vec![0usize; cols * rows] };
        proof {
            assert(r.bd().cells =~= Seq::new((cols * rows) as nat, |i: int| false));
        }
        r
    }

    /// A board with the lights at the given row-major indices on and every
    /// other light off.  Every index must lie on the grid.
    pub fn new_from_positions(active: &Vec<usize>, cols: usize, rows: usize) -> (r: Binary)
        requires
            (cols as int) * (rows as int) <= usize::MAX,
            forall|k: int|
                0 <= k < active@.len() ==> (active@[k] as int) < (cols as int) * (rows as int),
        ensures
            r.inv(),
            r.bd().cols == cols,
            r.bd().rows == rows,
            r.bd().cells.len() == (cols as int) * (rows as int),
            forall|i: int|
                0 <= i < r.bd().cells.len() ==> (r.bd().cells[i] <==> active@.contains(i as usize)),
    {
        proof {
            vstd::arithmetic::mul::lemma_mul_nonnegative(cols as int, rows as int);
        }
        let mut board = vec![0usize; cols * rows];
        let mut k: usize = 0;
        while k < active.len()
            invariant
                board@.len() == (cols as int) * (rows as int),
                k <= active@.len(),
                forall|k2: int|
                    0 <= k2 < active@.len() ==> (active@[k2] as int) < (cols as int) * (rows
                        as int),
                forall|i: int|
                    0 <= i < board@.len() ==> (board@[i] == 1usize <==> exists|k2: int|
                        0 <= k2 < k && active@[k2] == i),
                forall|i: int| 0 <= i < board@.len() ==> board@[i] <= 1,
            decreases active@.len() - k,
        {
            let p = active[k];
            board.set(p, 1);
            k = k + 1;
        }
        let r = Binary { cols, rows, board };
        proof {
            assert forall|i: int| 0 <= i < r.bd().cells.len() implies (r.bd().cells[i]
                <==> active@.contains(i as usize)) by {
                if r.bd().cells[i] {
                    let k2 = choose|k2: int|
                        0 <= k2 < active@.len() && active@[k2] == i;
                    assert(active@[k2] == i as usize);
                }
                if active@.contains(i as usize) {
                    let k2 = choose|k2: int|
                        0 <= k2 < active@.len() && active@[k2] == i as usize;
                    assert(active@[k2] == i);
                }
            }
        }
        r
    }

    /// A board whose first cells take the given boolean values (`true` for
    /// on); cells beyond the end of `active` stay off.
    pub fn new_from_values(active: &Vec<bool>, cols: usize, rows: usize) -> (r: Binary)
        requires
            (cols as int) * (rows as int) <= usize::MAX,
        ensures
            r.inv(),
            r.bd().cols == cols,
            r.bd().rows == rows,
            r.bd().cells.len() == (cols as int) * (rows as int),
            forall|i: int|
                0 <= i < r.bd().cells.len() ==> r.bd().cells[i] == (i < active@.len()
                    && active@[i]),
    {
        proof {
            vstd::arithmetic::mul::lemma_mul_nonnegative(cols as int, rows as int);
        }
        let mut board = vec![0usize; cols * rows];
        let mut i: usize = 0;
        while i < board.len() && i < active.len()
            invariant
                board@.len() == (cols as int) * (rows as int),
                i <= board@.len(),
                forall|j: int|
                    0 <= j < board@.len() ==> board@[j] == (if j < i && j < active@.len()
                        && active@[j] {
                        1usize
                    } else {
                        0usize
                    }),
            decreases board@.len() - i,
        {
            if active[i] {
                board.set(i, 1);
            }
            i = i + 1;
        }
        Binary { cols, rows, board }
    }

    /// Row-major index of an in-range coordinate.
    fn get_index(&self, col: usize, row: usize) -> (r: usize)
        requires
            self.inv(),
            col < self.bd().cols,
            row < self.bd().rows,
        ensures
            r == cell_index(self.bd(), col as int, row as int),
            r < area(self.bd()),
    {
        proof {
            vstd::arithmetic::mul::lemma_mul_inequality(
                row as int + 1,
                self.rows as int,
                self.cols as int,
            );
            assert((row as int) * (self.cols as int) + (self.cols as int) == (row as int + 1) * (
            self.cols as int)) by (nonlinear_arith);
        }
        row * self.cols + col
    }

    /// Flips the cell at `(col, row)`; a coordinate off the grid is left
    /// alone.
    fn switch(&mut self, col: usize, row: usize)
        requires
            old(self).inv(),
        ensures
            final(self).inv(),
            final(self).bd().cols == old(self).bd().cols,
            final(self).bd().rows == old(self).bd().rows,
            col < old(self).bd().cols && row < old(self).bd().rows ==> final(self).bd().cells
                == old(self).bd().cells.update(
                cell_index(old(self).bd(), col as int, row as int),
                !old(self).bd().cells[cell_index(old(self).bd(), col as int, row as int)],
            ),
            !(col < old(self).bd().cols && row < old(self).bd().rows) ==> final(self).bd() == old(
                self,
            ).bd(),
    {
        if col < self.cols && row < self.rows {
            let idx = self.get_index(col, row);
            let v = self.board[idx];
            if v == 1 {
                self.board.set(idx, 0);
            } else {
                self.board.set(idx, 1);
            }
            proof {
                let m0 = old(self).bd();
                let ci = cell_index(m0, col as int, row as int);
                assert(self.bd().cells =~= m0.cells.update(ci, !m0.cells[ci]));
            }
        }
    }
}

impl Board for Binary {
    closed spec fn bd(&self) -> BoardModel {
        BoardModel {
            cols: self.cols as nat,
            rows: self.rows as nat,
            cells: self.board@.map_values(|v: usize| v == 1),
        }
    }

    closed spec fn inv(&self) -> bool {
        &&& self.board@.len() == (self.cols as int) * (self.rows as int)
        &&& (self.cols as int) * (self.rows as int) <= usize::MAX
        &&& forall|i: int| 0 <= i < self.board@.len() ==> self.board@[i] <= 1
    }

    fn size(&self) -> (r: (usize, usize)) {
        (self.cols, self.rows)
    }

    fn cols(&self) -> (r: usize) {
        self.cols
    }

    fn rows(&self) -> (r: usize) {
        self.rows
    }

    fn is_solved(&self) -> (r: bool) {
        let mut i: usize = 0;
        while i < self.board.len()
            invariant
                self.inv(),
                i <= self.board@.len(),
                forall|j: int| 0 <= j < i ==> self.bd().cells[j],
            decreases self.board@.len() - i,
        {
            if self.board[i] != 1 {
                proof {
                    assert(!self.bd().cells[i as int]);
                }
                return false;
            }
            i = i + 1;
        }
        true
    }

    fn get(&self, col: usize, row: usize) -> (r: Option<usize>) {
        if col < self.cols && row < self.rows {
            let index = self.get_index(col, row);
            Some(self.board[index])
        } else {
            None
        }
    }

    fn set(&mut self, col: usize, row: usize, value: usize) -> (r: bool) {
        if col < self.cols && row < self.rows {
            if value <= 1 {
                let index = self.get_index(col, row);
                self.board.set(index, value);
                proof {
                    let m0 = old(self).bd();
                    let ci = cell_index(m0, col as int, row as int);
                    assert(self.bd() =~= BoardModel {
                        cells: m0.cells.update(ci, value == 1),
                        ..m0
                    });
                }
                true
            } else {
                false
            }
        } else {
            false
        }
    }

    fn trigger_index(&mut self, index: usize) {
        let col = index % self.cols;
        let row = index / self.cols;
        proof {
            vstd::arithmetic::div_mod::lemma_fundamental_div_mod(index as int, self.cols as int);
            if (row as int) < (self.rows as int) {
                vstd::arithmetic::mul::lemma_mul_inequality(
                    row as int + 1,
                    self.rows as int,
                    self.cols as int,
                );
                assert((row as int) * (self.cols as int) + (self.cols as int) == (row as int + 1)
                    * (self.cols as int)) by (nonlinear_arith);
            } else {
                vstd::arithmetic::mul::lemma_mul_inequality(
                    self.rows as int,
                    row as int,
                    self.cols as int,
                );
            }
            assert((index as int) < area(old(self).bd()) <==> (row as int) < (old(self).bd().rows
                as int));
            assert(cell_index(old(self).bd(), col as int, row as int) == index as int);
        }
        self.trigger_coord(col, row);
        proof {
            let m0 = old(self).bd();
            if !(col < m0.cols && row < m0.rows) {
                assert(index as int >= area(m0));
                assert(self.bd().cells =~= apply_move(m0, index as int).cells);
                assert(self.bd() =~= apply_move(m0, index as int));
            }
        }
    }

    #[verifier::rlimit(30)]
    fn trigger_coord(&mut self, col: usize, row: usize) {
        if col >= self.cols || row >= self.rows {
            return ;
        }
        let ghost m0 = self.bd();
        let ghost c = self.cols as int;
        let ghost mv = cell_index(m0, col as int, row as int);
        proof {
            vstd::arithmetic::mul::lemma_mul_inequality(row as int + 1, self.rows as int, c);
            assert((row as int) * c + c == (row as int + 1) * c) by (nonlinear_arith);
            assert((row as int - 1) * c == (row as int) * c - c) by (nonlinear_arith);
            vstd::arithmetic::mul::lemma_mul_nonnegative(row as int, c);
        }
        let ghost s0 = self.bd().cells;
        if row > 0 {
            self.switch(col, row - 1);
        }
        let ghost s1 = self.bd().cells;
        if col > 0 {
            self.switch(col - 1, row);
        }
        let ghost s2 = self.bd().cells;
        self.switch(col, row);
        let ghost s3 = self.bd().cells;
        self.switch(col + 1, row);
        let ghost s4 = self.bd().cells;
        self.switch(col, row + 1);
        proof {
            let s5 = self.bd().cells;
            let e_up = mv - c;
            let e_left = mv - 1;
            let e_right = mv + 1;
            let e_down = mv + c;
            let rw = row as int;
            let cl = col as int;
            if rw + 1 < m0.rows as int {
                vstd::arithmetic::mul::lemma_mul_inequality(rw + 2, m0.rows as int, c);
                assert((rw + 2) * c == rw * c + 2 * c) by (nonlinear_arith);
                assert(e_down < m0.cells.len());
            }
            assert(s1 == if rw > 0 {
                s0.update(e_up, !s0[e_up])
            } else {
                s0
            });
            assert(s2 == if cl > 0 {
                s1.update(e_left, !s1[e_left])
            } else {
                s1
            });
            assert(s3 == s2.update(mv, !s2[mv]));
            assert(s4 == if cl + 1 < c {
                s3.update(e_right, !s3[e_right])
            } else {
                s3
            });
            assert(s5 == if rw + 1 < m0.rows as int {
                s4.update(e_down, !s4[e_down])
            } else {
                s4
            });
            assert forall|i: int| 0 <= i < m0.cells.len() implies s5[i] == (m0.cells[i]
                != flipped_by_body(m0, cl, rw, i)) by {
                assert(c >= 1);
                if c == 1 {
                    assert(cl == 0);
                }
                assert(s1[i] == if rw > 0 && i == e_up {
                    !s0[e_up]
                } else {
                    s0[i]
                });
                assert(s2[i] == if cl > 0 && i == e_left {
                    !s1[e_left]
                } else {
                    s1[i]
                });
                assert(s3[i] == if i == mv {
                    !s2[mv]
                } else {
                    s2[i]
                });
                assert(s4[i] == if cl + 1 < c && i == e_right {
                    !s3[e_right]
                } else {
                    s3[i]
                });
                assert(s5 == if rw + 1 < m0.rows as int {
                    s4.update(e_down, !s4[e_down])
                } else {
                    s4
                });
                if rw + 1 < m0.rows as int {
                    assert(s5 == s4.update(e_down, !s4[e_down]));
                    assert(s4.update(e_down, !s4[e_down])[i] == if i == e_down {
                        !s4[e_down]
                    } else {
                        s4[i]
                    });
                }
                assert(s5[i] == if rw + 1 < m0.rows as int && i == e_down {
                    !s4[e_down]
                } else {
                    s4[i]
                });
            }
            lemma_trigger_coord_cells(m0, self.bd(), cl, rw);
            assert(self.bd() =~= apply_move(m0, mv));
        }
    }

    fn cells(&self) -> (r: Vec<usize>) {
        let mut r: Vec<usize> = Vec::new();
        let mut i: usize = 0;
        while i < self.board.len()
            invariant
                self.inv(),
                i <= self.board@.len(),
                r@.len() == i as int,
                forall|j: int|
                    0 <= j < i ==> r@[j] == (if self.bd().cells[j] {
                        1usize
                    } else {
                        0usize
                    }),
            decreases self.board@.len() - i,
        {
            r.push(self.board[i]);
            i = i + 1;
        }
        r
    }
}

/// Facts that a consistent `Binary` guarantees about its spec-level value.
pub proof fn lemma_binary_bounds(b: &Binary)
    requires
        b.inv(),
    ensures
        crate::model::wf_model(b.bd()),
        (b.bd().cols as int) * (b.bd().rows as int) <= usize::MAX,
        b.bd().cells.len() == area(b.bd()),
{
}

/// After the five conditional single-cell flips of the toggle rule, every
/// cell holds its old value XOR whether the move at `(col, row)` flips it.
proof fn lemma_trigger_coord_cells(m0: BoardModel, m1: BoardModel, col: int, row: int)
    requires
        wf_trigger(m0, m1, col, row),
    ensures
        m1.cols == m0.cols,
        m1.rows == m0.rows,
        forall|i: int|
            0 <= i < m0.cells.len() ==> m1.cells[i] == (m0.cells[i] != crate::model::flips_in(
                m0,
                cell_index(m0, col, row),
                i,
            )),
{
    let c = m0.cols as int;
    let rws = m0.rows as int;
    let mv = row * c + col;
    assert((row - 1) * c == row * c - c) by (nonlinear_arith);
    assert((row + 1) * c == row * c + c) by (nonlinear_arith);
    vstd::arithmetic::mul::lemma_mul_nonnegative(row, c);
    vstd::arithmetic::mul::lemma_mul_inequality(row + 1, rws, c);
    assert(0 <= mv < area(m0));
    vstd::arithmetic::div_mod::lemma_fundamental_div_mod_converse(mv, c, row, col);
    assert forall|i: int| 0 <= i < m0.cells.len() implies m1.cells[i] == (m0.cells[i]
        != crate::model::flips_in(m0, mv, i)) by {
        vstd::arithmetic::div_mod::lemma_fundamental_div_mod(i, c);
        vstd::arithmetic::div_mod::lemma_mod_bound(i, c);
        let ir = i / c;
        let ic = i % c;
        assert(i == ir * c + ic);
        if ir < 0 {
            vstd::arithmetic::mul::lemma_mul_inequality(ir, -1, c);
            assert(false);
        }
        if ir >= rws {
            vstd::arithmetic::mul::lemma_mul_inequality(rws, ir, c);
            assert(false);
        }
        if row > 0 && i == mv - c {
            vstd::arithmetic::div_mod::lemma_fundamental_div_mod_converse(i, c, row - 1, col);
        }
        if col > 0 && i == mv - 1 {
            vstd::arithmetic::div_mod::lemma_fundamental_div_mod_converse(i, c, row, col - 1);
        }
        if i == mv {
            vstd::arithmetic::div_mod::lemma_fundamental_div_mod_converse(i, c, row, col);
        }
        if col + 1 < c && i == mv + 1 {
            vstd::arithmetic::div_mod::lemma_fundamental_div_mod_converse(i, c, row, col + 1);
        }
        if row + 1 < rws && i == mv + c {
            vstd::arithmetic::div_mod::lemma_fundamental_div_mod_converse(i, c, row + 1, col);
        }
        if ir == row && ic == col {
            assert(i == mv);
        }
        if ir == row && ic == col + 1 {
            assert(i == mv + 1 && col + 1 < c);
        }
        if ir == row && ic + 1 == col {
            assert(i == mv - 1 && col > 0);
        }
        if ir == row + 1 && ic == col {
            assert(ir * c == (row + 1) * c);
            assert(i == mv + c && row + 1 < rws);
        }
        if ir + 1 == row && ic == col {
            assert(ir * c == (row - 1) * c);
            assert(i == mv - c && row > 0);
        }
        assert(flipped_by_body(m0, col, row, i) == crate::model::flips_in(m0, mv, i));
    }
}

/// The relation that the body of `trigger_coord` establishes between the
/// board before and after its five conditional flips.
spec fn wf_trigger(m0: BoardModel, m1: BoardModel, col: int, row: int) -> bool {
    &&& m0.cols > 0
    &&& 0 <= col < m0.cols
    &&& 0 <= row < m0.rows
    &&& m0.cells.len() == area(m0)
    &&& m1.cols == m0.cols
    &&& m1.rows == m0.rows
    &&& m1.cells.len() == m0.cells.len()
    &&& forall|i: int|
        0 <= i < m0.cells.len() ==> m1.cells[i] == (m0.cells[i] != flipped_by_body(
            m0,
            col,
            row,
            i,
        ))
}

/// Which cells the five conditional flips of `trigger_coord` touch.
spec fn flipped_by_body(m0: BoardModel, col: int, row: int, i: int) -> bool {
    let c = m0.cols as int;
    let mv = row * c + col;
    ||| (row > 0 && i == mv - c)
    ||| (col > 0 && i == mv - 1)
    ||| i == mv
    ||| (col + 1 < c && i == mv + 1)
    ||| (row + 1 < m0.rows && i == mv + c)
}

} // verus!
