//! Mathematical model of a Lights Out board and of move sequences.
//!
//! A board is a rectangle of `cols * rows` boolean cells in row-major order
//! (`true` means the light is on).  A move is the row-major index of a cell;
//! performing it flips that cell and its orthogonal neighbours on the grid.
//! The board counts as solved when every light is on.

use vstd::prelude::*;

verus! {

/// Spec-level value of a board: its dimensions and its cells, row-major.
#[verifier::ext_equal]
pub struct BoardModel {
    pub cols: nat,
    pub rows: nat,
    pub cells: Seq<bool>,
}

/// Number of cells of the grid.
pub open spec fn area(m: BoardModel) -> nat {
    m.cols * m.rows
}

/// The dimensions agree with the cell sequence.
pub open spec fn wf_model(m: BoardModel) -> bool {
    m.cells.len() == area(m)
}

/// Does the move at index `mv` flip the cell at index `cell`?  True exactly
/// when the two indices name the same cell or orthogonally adjacent cells of
/// a grid with `cols` columns (no wraparound across row ends).
pub open spec fn flips(cols: nat, mv: int, cell: int) -> bool
    recommends
        cols > 0,
{
    let mc = mv % (cols as int);
    let mr = mv / (cols as int);
    let cc = cell % (cols as int);
    let cr = cell / (cols as int);
    ||| (mr == cr && (mc == cc || mc == cc + 1 || mc + 1 == cc))
    ||| (mc == cc && (mr == cr + 1 || mr + 1 == cr))
}

/// `flips`, restricted to moves that lie on the board; a move outside the
/// grid touches nothing.
pub open spec fn flips_in(m: BoardModel, mv: int, cell: int) -> bool {
    0 <= mv < area(m) && flips(m.cols, mv, cell)
}

/// The board after performing one move.
pub open spec fn apply_move(m: BoardModel, mv: int) -> BoardModel {
    BoardModel {
        cells: Seq::new(m.cells.len(), |i: int| m.cells[i] != flips_in(m, mv, i)),
        ..m
    }
}

/// The board after performing a sequence of moves, first element first.
pub open spec fn apply_moves(m: BoardModel, s: Seq<usize>) -> BoardModel
    decreases s.len(),
{
    if s.len() == 0 {
        m
    } else {
        apply_moves(apply_move(m, s[0] as int), s.drop_first())
    }
}

/// Appending one move performs it after the others.
pub proof fn lemma_apply_moves_snoc(m: BoardModel, s: Seq<usize>, x: usize)
    ensures
        apply_moves(m, s.push(x)) == apply_move(apply_moves(m, s), x as int),
    decreases s.len(),
{
    if s.len() == 0 {
        assert(s.push(x)[0] == x);
        assert(s.push(x).drop_first() =~= s);
        assert(apply_moves(m, s.push(x)) == apply_moves(apply_move(m, x as int), s));
        assert(apply_moves(apply_move(m, x as int), s) == apply_move(m, x as int));
        assert(apply_moves(m, s) == m);
    } else {
        assert(s.push(x)[0] == s[0]);
        assert(s.push(x).drop_first() =~= s.drop_first().push(x));
        assert(apply_moves(m, s.push(x)) == apply_moves(
            apply_move(m, s[0] as int),
            s.drop_first().push(x),
        ));
        lemma_apply_moves_snoc(apply_move(m, s[0] as int), s.drop_first(), x);
    }
}

/// A grid with at least one cell has at least one column and one row.
pub proof fn lemma_area_pos(m: BoardModel)
    requires
        area(m) > 0,
    ensures
        m.cols > 0,
        m.rows > 0,
{
    if m.cols == 0 || m.rows == 0 {
        assert((m.cols as int) * (m.rows as int) == 0) by (nonlinear_arith)
            requires
                m.cols == 0 || m.rows == 0,
        ;
    }
}

/// The sequence holds pairwise distinct moves that all lie on a board of
/// `n` cells.
pub open spec fn moves_ok(s: Seq<usize>, n: int) -> bool {
    s.no_duplicates() && forall|k: int| 0 <= k < s.len() ==> (s[k] as int) < n
}

/// Every light is on.
pub open spec fn solved(m: BoardModel) -> bool {
    forall|i: int| 0 <= i < m.cells.len() ==> m.cells[i]
}

/// Performing the moves of `s` on `m` leaves every light on.
pub open spec fn solves(m: BoardModel, s: Seq<usize>) -> bool {
    solved(apply_moves(m, s))
}

/// Does the sequence `s` flip the cell at `cell` an odd number of times?
pub open spec fn odd_flips(m: BoardModel, s: Seq<usize>, cell: int) -> bool
    decreases s.len(),
{
    if s.len() == 0 {
        false
    } else {
        flips_in(m, s[0] as int, cell) != odd_flips(m, s.drop_first(), cell)
    }
}

/// A sequence of moves keeps the dimensions and the number of cells.
pub proof fn lemma_apply_moves_dims(m: BoardModel, s: Seq<usize>)
    ensures
        apply_moves(m, s).cols == m.cols,
        apply_moves(m, s).rows == m.rows,
        apply_moves(m, s).cells.len() == m.cells.len(),
    decreases s.len(),
{
    if s.len() > 0 {
        lemma_apply_moves_dims(apply_move(m, s[0] as int), s.drop_first());
    }
}

/// Involution: performing the same move twice restores the board exactly.
pub proof fn lemma_toggle_involution(m: BoardModel, mv: int)
    requires
        wf_model(m),
    ensures
        apply_move(apply_move(m, mv), mv) == m,
{
    let m1 = apply_move(m, mv);
    let m2 = apply_move(m1, mv);
    assert forall|i: int| 0 <= i < m.cells.len() implies m2.cells[i] == m.cells[i] by {
        assert(flips_in(m1, mv, i) == flips_in(m, mv, i));
    }
    assert(m2 =~= m);
}

/// Each cell of the result is the original cell, flipped when the move
/// sequence touches it an odd number of times.
pub proof fn lemma_apply_moves_cells(m: BoardModel, s: Seq<usize>, cell: int)
    requires
        0 <= cell < m.cells.len(),
    ensures
        apply_moves(m, s).cells[cell] == (m.cells[cell] != odd_flips(m, s, cell)),
    decreases s.len(),
{
    if s.len() > 0 {
        let m1 = apply_move(m, s[0] as int);
        lemma_apply_moves_cells(m1, s.drop_first(), cell);
        assert forall|c: int| odd_flips(m1, s.drop_first(), c) == odd_flips(
            m,
            s.drop_first(),
            c,
        ) by {
            lemma_odd_flips_same_dims(m1, m, s.drop_first(), c);
        }
    }
}

/// `odd_flips` only looks at the dimensions of the board, not at its cells.
proof fn lemma_odd_flips_same_dims(m1: BoardModel, m2: BoardModel, s: Seq<usize>, cell: int)
    requires
        m1.cols == m2.cols,
        m1.rows == m2.rows,
    ensures
        odd_flips(m1, s, cell) == odd_flips(m2, s, cell),
    decreases s.len(),
{
    if s.len() > 0 {
        lemma_odd_flips_same_dims(m1, m2, s.drop_first(), cell);
    }
}

/// Parity of flips distributes over concatenation of move sequences.
pub proof fn lemma_odd_flips_concat(m: BoardModel, a: Seq<usize>, b: Seq<usize>, cell: int)
    ensures
        odd_flips(m, a + b, cell) == (odd_flips(m, a, cell) != odd_flips(m, b, cell)),
    decreases a.len(),
{
    if a.len() == 0 {
        assert(a + b =~= b);
    } else {
        assert((a + b).drop_first() =~= a.drop_first() + b);
        lemma_odd_flips_concat(m, a.drop_first(), b, cell);
    }
}

/// Removing one move from a sequence removes exactly its contribution to the
/// flip parity.
proof fn lemma_odd_flips_remove(m: BoardModel, s: Seq<usize>, j: int, cell: int)
    requires
        0 <= j < s.len(),
    ensures
        odd_flips(m, s, cell) == (flips_in(m, s[j] as int, cell) != odd_flips(
            m,
            s.remove(j),
            cell,
        )),
    decreases j,
{
    if j == 0 {
        assert(s.remove(0) =~= s.drop_first());
    } else {
        lemma_odd_flips_remove(m, s.drop_first(), j - 1, cell);
        assert(s.remove(j).drop_first() =~= s.drop_first().remove(j - 1));
    }
}

/// Two sequences with the same multiset of moves flip every cell equally
/// often, up to parity.
proof fn lemma_odd_flips_multiset(m: BoardModel, s1: Seq<usize>, s2: Seq<usize>, cell: int)
    requires
        s1.to_multiset() == s2.to_multiset(),
    ensures
        odd_flips(m, s1, cell) == odd_flips(m, s2, cell),
    decreases s1.len(),
{
    s1.to_multiset_ensures();
    s2.to_multiset_ensures();
    if s1.len() == 0 {
        assert(s2.len() == 0);
    } else {
        let x = s1[0];
        assert(s1.contains(x));
        assert(s2.to_multiset().count(x) > 0);
        assert(s2.contains(x));
        let j = choose|j: int| 0 <= j < s2.len() && s2[j] == x;
        assert(s1.remove(0).to_multiset() =~= s2.remove(j).to_multiset());
        assert(s1.remove(0) =~= s1.drop_first());
        lemma_odd_flips_multiset(m, s1.drop_first(), s2.remove(j), cell);
        lemma_odd_flips_remove(m, s2, j, cell);
    }
}

/// Commutativity: two move sequences that perform the same multiset of moves
/// drive any board to the same final state; only which moves are made
/// matters, not their order.
pub proof fn lemma_apply_moves_permutation(m: BoardModel, s1: Seq<usize>, s2: Seq<usize>)
    requires
        s1.to_multiset() == s2.to_multiset(),
    ensures
        apply_moves(m, s1) == apply_moves(m, s2),
{
    lemma_apply_moves_dims(m, s1);
    lemma_apply_moves_dims(m, s2);
    assert forall|i: int| 0 <= i < m.cells.len() implies apply_moves(m, s1).cells[i]
        == apply_moves(m, s2).cells[i] by {
        lemma_apply_moves_cells(m, s1, i);
        lemma_apply_moves_cells(m, s2, i);
        lemma_odd_flips_multiset(m, s1, s2, i);
    }
    assert(apply_moves(m, s1) =~= apply_moves(m, s2));
}

} // verus!
