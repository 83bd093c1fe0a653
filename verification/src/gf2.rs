//! Linear solver over GF(2).
//!
//! The puzzle is modelled as a linear system over the two-element field:
//! unknown `x[j]` says whether move `j` is performed, row `i` of the matrix
//! holds which cells move `i` flips, and the right-hand side holds the
//! parity each cell needs to reach the all-lit state.  The system is solved
//! by Gauss-Jordan elimination brought to reduced row-echelon form, with
//! free unknowns set to zero, so that a consistent system always yields an
//! assignment and an inconsistent one is recognised exactly.

use crate::board::{lemma_binary_bounds, Binary, Board};
use crate::model::{
    apply_move, apply_moves, area, flips_in, lemma_apply_moves_cells, lemma_apply_moves_dims,
    lemma_odd_flips_concat, lemma_toggle_involution, moves_ok, odd_flips, solves,
    wf_model, BoardModel,
};
use vstd::prelude::*;

verus! {

/// XOR of the products `a[t] && x[t]` for `t` from `k` to the end of `a`.
spec fn dot_from(a: Seq<bool>, x: Seq<bool>, k: int) -> bool
    decreases a.len() - k,
{
    if k < 0 || k >= a.len() {
        false
    } else {
        (a[k] && x[k]) != dot_from(a, x, k + 1)
    }
}

/// Dot product of two GF(2) vectors, addition being XOR.
spec fn dot(a: Seq<bool>, x: Seq<bool>) -> bool {
    dot_from(a, x, 0)
}

/// `x` satisfies every equation of the system `mm * x = bb`.
spec fn sat(mm: Seq<Seq<bool>>, bb: Seq<bool>, x: Seq<bool>) -> bool {
    forall|i: int| 0 <= i < mm.len() ==> #[trigger] dot(mm[i], x) == bb[i]
}

/// The rows of a matrix held as vectors.
spec fn mview(mm: Seq<Vec<bool>>) -> Seq<Seq<bool>> {
    mm.map_values(|r: Vec<bool>| r@)
}

/// Strictly increasing indices.
pub open spec fn ascending(s: Seq<usize>) -> bool {
    forall|k1: int, k2: int| 0 <= k1 < k2 < s.len() ==> s[k1] < s[k2]
}

/// A dot product with an all-zero row is zero.
proof fn lemma_dot_from_zero(a: Seq<bool>, x: Seq<bool>, k: int)
    requires
        forall|j: int| 0 <= j < a.len() ==> !a[j],
        0 <= k,
    ensures
        !dot_from(a, x, k),
    decreases a.len() - k,
{
    if k < a.len() {
        lemma_dot_from_zero(a, x, k + 1);
    }
}

/// Dot products distribute over the XOR of two rows.
proof fn lemma_dot_from_xor(a: Seq<bool>, b: Seq<bool>, r: Seq<bool>, x: Seq<bool>, k: int)
    requires
        a.len() == b.len(),
        a.len() == r.len(),
        forall|t: int| 0 <= t < a.len() ==> r[t] == (a[t] != b[t]),
        0 <= k,
    ensures
        dot_from(r, x, k) == (dot_from(a, x, k) != dot_from(b, x, k)),
    decreases a.len() - k,
{
    if k < a.len() {
        lemma_dot_from_xor(a, b, r, x, k + 1);
    }
}

/// Turning one zero entry of `x` on adds that row entry to the dot product.
proof fn lemma_dot_from_update(a: Seq<bool>, x: Seq<bool>, j: int, k: int)
    requires
        a.len() == x.len(),
        0 <= j < x.len(),
        !x[j],
        0 <= k,
    ensures
        dot_from(a, x.update(j, true), k) == (dot_from(a, x, k) != (if k <= j {
            a[j]
        } else {
            false
        })),
    decreases a.len() - k,
{
    if k < a.len() {
        lemma_dot_from_update(a, x, j, k + 1);
    }
}

/// Swapping two equations keeps the solution set.
proof fn lemma_row_op_swap(mm: Seq<Seq<bool>>, bb: Seq<bool>, i: int, j: int, x: Seq<bool>)
    requires
        0 <= i < mm.len(),
        0 <= j < mm.len(),
        bb.len() == mm.len(),
    ensures
        sat(mm.update(i, mm[j]).update(j, mm[i]), bb.update(i, bb[j]).update(j, bb[i]), x)
            <==> sat(mm, bb, x),
{
    let mm2 = mm.update(i, mm[j]).update(j, mm[i]);
    let bb2 = bb.update(i, bb[j]).update(j, bb[i]);
    if sat(mm, bb, x) {
        assert forall|r: int| 0 <= r < mm2.len() implies #[trigger] dot(mm2[r], x) == bb2[r] by {
            assert(dot(mm[r], x) == bb[r]);
            assert(dot(mm[i], x) == bb[i]);
            assert(dot(mm[j], x) == bb[j]);
        }
    }
    if sat(mm2, bb2, x) {
        assert forall|r: int| 0 <= r < mm.len() implies #[trigger] dot(mm[r], x) == bb[r] by {
            assert(dot(mm2[r], x) == bb2[r]);
            assert(dot(mm2[i], x) == bb2[i]);
            assert(dot(mm2[j], x) == bb2[j]);
        }
    }
}

/// Adding one equation to another keeps the solution set.
proof fn lemma_row_op_add(
    mm: Seq<Seq<bool>>,
    bb: Seq<bool>,
    i: int,
    j: int,
    r: Seq<bool>,
    x: Seq<bool>,
)
    requires
        0 <= i < mm.len(),
        0 <= j < mm.len(),
        i != j,
        bb.len() == mm.len(),
        mm[i].len() == mm[j].len(),
        r.len() == mm[i].len(),
        forall|t: int| 0 <= t < r.len() ==> r[t] == (mm[i][t] != mm[j][t]),
    ensures
        sat(mm.update(i, r), bb.update(i, bb[i] != bb[j]), x) <==> sat(mm, bb, x),
{
    let mm2 = mm.update(i, r);
    let bb2 = bb.update(i, bb[i] != bb[j]);
    lemma_dot_from_xor(mm[i], mm[j], r, x, 0);
    if sat(mm, bb, x) {
        assert forall|t: int| 0 <= t < mm2.len() implies #[trigger] dot(mm2[t], x) == bb2[t] by {
            assert(dot(mm[t], x) == bb[t]);
            assert(dot(mm[i], x) == bb[i]);
            assert(dot(mm[j], x) == bb[j]);
        }
    }
    if sat(mm2, bb2, x) {
        assert forall|t: int| 0 <= t < mm.len() implies #[trigger] dot(mm[t], x) == bb[t] by {
            assert(dot(mm2[t], x) == bb2[t]);
            assert(dot(mm2[i], x) == bb2[i]);
            assert(dot(mm2[j], x) == bb2[j]);
        }
    }
}

/// An owned copy of a matrix row.
fn copy_row(v: &Vec<bool>) -> (r: Vec<bool>)
    ensures
        r@ == v@,
{
    let mut r: Vec<bool> = Vec::new();
    let mut i: usize = 0;
    while i < v.len()
        invariant
            i <= v@.len(),
            r@.len() == i as int,
            forall|j: int| 0 <= j < i ==> r@[j] == v@[j],
        decreases v@.len() - i,
    {
        r.push(v[i]);
        i = i + 1;
    }
    proof {
        assert(r@ =~= v@);
    }
    r
}

/// The entrywise XOR of two rows: their sum over GF(2).
fn xor_rows(a: &Vec<bool>, b: &Vec<bool>) -> (r: Vec<bool>)
    requires
        a@.len() == b@.len(),
    ensures
        r@.len() == a@.len(),
        forall|j: int| 0 <= j < r@.len() ==> r@[j] == (a@[j] != b@[j]),
{
    let mut r: Vec<bool> = Vec::new();
    let mut i: usize = 0;
    while i < a.len()
        invariant
            a@.len() == b@.len(),
            i <= a@.len(),
            r@.len() == i as int,
            forall|j: int| 0 <= j < i ==> r@[j] == (a@[j] != b@[j]),
        decreases a@.len() - i,
    {
        let e = a[i] != b[i];
        r.push(e);
        i = i + 1;
    }
    r
}

/// Rows `r0..` are zero in every column below `c0`.
spec fn zeros_below(mm: Seq<Vec<bool>>, r0: int, c0: int) -> bool {
    forall|i: int, c2: int| r0 <= i < mm.len() && 0 <= c2 < c0 ==> !(#[trigger] mm[i]@[c2])
}

/// Each pivot column holds a one in its own row and zeroes elsewhere.
spec fn pivots_ok(mm: Seq<Vec<bool>>, pcols: Seq<usize>) -> bool {
    forall|k: int, i: int|
        0 <= k < pcols.len() && 0 <= i < mm.len() ==> (#[trigger] mm[i]@[pcols[k] as int]) == (i
            == k)
}

/// Every pivot column lies below `c`.
spec fn pcols_bound(pcols: Seq<usize>, c: int) -> bool {
    forall|k: int| 0 <= k < pcols.len() ==> ((#[trigger] pcols[k]) as int) < c
}

/// The systems have the same solutions of length `n`.
spec fn equiv_sys(
    mm: Seq<Seq<bool>>,
    bbv: Seq<bool>,
    m0: Seq<Seq<bool>>,
    bb0: Seq<bool>,
    n: int,
) -> bool {
    forall|x: Seq<bool>| x.len() == n ==> ((#[trigger] sat(mm, bbv, x)) <==> sat(m0, bb0, x))
}

/// All rows have length `n`.
spec fn rect(mm: Seq<Vec<bool>>, n: int) -> bool {
    forall|i: int| 0 <= i < mm.len() ==> (#[trigger] mm[i]@.len()) == n
}

/// Solves the square system `mat * x = expected` over GF(2) by Gauss-Jordan
/// elimination with full back-substitution; free unknowns are set to zero.
/// Returns `None` exactly when the system is empty or admits no solution.
#[verifier::loop_isolation(false)]
fn gauss_jordan_zf2(mat0: &Vec<Vec<bool>>, expected: &Vec<bool>) -> (r: Option<Vec<bool>>)
    requires
        mat0@.len() == expected@.len(),
        rect(mat0@, mat0@.len() as int),
    ensures
        r matches Some(x) ==> x@.len() == mat0@.len() && sat(mview(mat0@), expected@, x@),
        r is None <==> (mat0@.len() == 0 || (forall|x: Seq<bool>|
            x.len() == mat0@.len() ==> !sat(mview(mat0@), expected@, x))),
{
    let nrows = mat0.len();
    if nrows == 0 {
        return None;
    }
    let ghost m0 = mview(mat0@);
    let ghost bb0 = expected@;
    let mut mat: Vec<Vec<bool>> = Vec::new();
    let mut cpi: usize = 0;
    while cpi < nrows
        invariant
            cpi <= nrows,
            mat0@.len() == nrows,
            mat@.len() == cpi as int,
            forall|i: int| 0 <= i < cpi ==> (#[trigger] mat@[i]@) == mat0@[i]@,
        decreases nrows - cpi,
    {
        let row = copy_row(&mat0[cpi]);
        mat.push(row);
        cpi = cpi + 1;
    }
    let mut b = copy_row(expected);
    proof {
        assert(mview(mat@) =~= m0);
        assert forall|x: Seq<bool>|
            x.len() == nrows implies ((#[trigger] sat(mview(mat@), b@, x)) <==> sat(
            m0,
            bb0,
            x,
        )) by {}
        assert(rect(mat@, nrows as int));
    }
    let mut piv_row: usize = 0;
    let mut pivot_cols: Vec<usize> = Vec::new();
    let mut c: usize = 0;
    while c < nrows
        invariant
            mat@.len() == nrows,
            b@.len() == nrows,
            nrows >= 1,
            rect(mat@, nrows as int),
            c <= nrows,
            piv_row == pivot_cols@.len(),
            piv_row <= c,
            pcols_bound(pivot_cols@, c as int),
            ascending(pivot_cols@),
            pivots_ok(mat@, pivot_cols@),
            zeros_below(mat@, piv_row as int, c as int),
            equiv_sys(mview(mat@), b@, m0, bb0, nrows as int),
        decreases nrows - c,
    {
        if piv_row < nrows {
            let mut rsel: usize = nrows;
            let mut rscan: usize = piv_row;
            while rscan < nrows
                invariant
                    piv_row <= rscan <= nrows,
                    piv_row < nrows,
                    mat@.len() == nrows,
                    rect(mat@, nrows as int),
                    c < nrows,
                    rsel == nrows || (piv_row <= rsel < nrows && mat@[rsel as int]@[c as int]),
                    rsel == nrows ==> forall|i: int|
                        piv_row <= i < rscan ==> !(#[trigger] mat@[i]@[c as int]),
                decreases nrows - rscan,
            {
                if rsel == nrows && mat[rscan][c] {
                    rsel = rscan;
                }
                rscan = rscan + 1;
            }
            if rsel < nrows {
                let ghost mat_s = mview(mat@);
                let ghost b_s = b@;
                let row_a = copy_row(&mat[rsel]);
                let row_b = copy_row(&mat[piv_row]);
                mat.set(rsel, row_b);
                mat.set(piv_row, row_a);
                let tb = b[rsel];
                let tb2 = b[piv_row];
                b.set(rsel, tb2);
                b.set(piv_row, tb);
                proof {
                    assert(mview(mat@) =~= mat_s.update(rsel as int, mat_s[piv_row as int]).update(
                        piv_row as int,
                        mat_s[rsel as int],
                    ));
                    assert(b@ =~= b_s.update(rsel as int, b_s[piv_row as int]).update(
                        piv_row as int,
                        b_s[rsel as int],
                    ));
                    assert forall|x: Seq<bool>|
                        x.len() == nrows implies ((#[trigger] sat(mview(mat@), b@, x)) <==> sat(
                        m0,
                        bb0,
                        x,
                    )) by {
                        lemma_row_op_swap(mat_s, b_s, rsel as int, piv_row as int, x);
                        assert(sat(mat_s, b_s, x) <==> sat(m0, bb0, x));
                    }
                    assert forall|x: Seq<bool>|
                        x.len() == nrows && sat(m0, bb0, x) implies #[trigger] sat(
                        mview(mat@),
                        b@,
                        x,
                    ) by {
                        lemma_row_op_swap(mat_s, b_s, rsel as int, piv_row as int, x);
                    }
                    assert(equiv_sys(mview(mat@), b@, m0, bb0, nrows as int));
                }
                let ghost mat_sw = mview(mat@);
                let mut i2: usize = 0;
                while i2 < nrows
                    invariant
                        mat@.len() == nrows,
                        b@.len() == nrows,
                        nrows >= 1,
                        rect(mat@, nrows as int),
                        c < nrows,
                        i2 <= nrows,
                        piv_row < nrows,
                        piv_row == pivot_cols@.len(),
                        piv_row <= c,
                        mat@[piv_row as int]@[c as int],
                        forall|i: int|
                            0 <= i < i2 && i != piv_row ==> !(#[trigger] mat@[i]@[c as int]),
                        pcols_bound(pivot_cols@, c as int),
                        ascending(pivot_cols@),
                        pivots_ok(mat@, pivot_cols@),
                        zeros_below(mat@, piv_row as int, c as int),
                        equiv_sys(mview(mat@), b@, m0, bb0, nrows as int),
                    decreases nrows - i2,
                {
                    if i2 != piv_row && mat[i2][c] {
                        let ghost mat_s = mview(mat@);
                        let ghost b_s = b@;
                        let newrow = xor_rows(&mat[i2], &mat[piv_row]);
                        mat.set(i2, newrow);
                        let nb = b[i2] != b[piv_row];
                        b.set(i2, nb);
                        proof {
                            assert(mview(mat@) =~= mat_s.update(i2 as int, newrow@));
                            assert(b@ =~= b_s.update(
                                i2 as int,
                                b_s[i2 as int] != b_s[piv_row as int],
                            ));
                            assert forall|x: Seq<bool>|
                                x.len() == nrows implies ((#[trigger] sat(mview(mat@), b@, x))
                                <==> sat(m0, bb0, x)) by {
                                lemma_row_op_add(
                                    mat_s,
                                    b_s,
                                    i2 as int,
                                    piv_row as int,
                                    newrow@,
                                    x,
                                );
                                assert(sat(mat_s, b_s, x) <==> sat(m0, bb0, x));
                            }
                            assert forall|x: Seq<bool>|
                                x.len() == nrows && sat(m0, bb0, x) implies #[trigger] sat(
                                mview(mat@),
                                b@,
                                x,
                            ) by {
                                lemma_row_op_add(
                                    mat_s,
                                    b_s,
                                    i2 as int,
                                    piv_row as int,
                                    newrow@,
                                    x,
                                );
                            }
                            assert(equiv_sys(mview(mat@), b@, m0, bb0, nrows as int));
                        }
                    }
                    i2 = i2 + 1;
                }
                pivot_cols.push(c);
                piv_row = piv_row + 1;
                proof {
                    assert(pivots_ok(mat@, pivot_cols@));
                    assert(zeros_below(mat@, piv_row as int, c as int + 1));
                }
            } else {
                proof {
                    assert(zeros_below(mat@, piv_row as int, c as int + 1));
                }
            }
        } else {
            proof {
                assert(zeros_below(mat@, piv_row as int, c as int + 1));
            }
        }
        c = c + 1;
    }
    let mut i3: usize = piv_row;
    while i3 < nrows
        invariant
            mat@.len() == nrows,
            b@.len() == nrows,
            nrows >= 1,
            rect(mat@, nrows as int),
            piv_row <= i3 <= nrows,
            forall|i: int| piv_row <= i < i3 ==> !(#[trigger] b@[i]),
            zeros_below(mat@, piv_row as int, nrows as int),
            equiv_sys(mview(mat@), b@, m0, bb0, nrows as int),
        decreases nrows - i3,
    {
        if b[i3] {
            proof {
                assert forall|x: Seq<bool>|
                    x.len() == mat0@.len() implies !sat(mview(mat0@), expected@, x) by {
                    assert(mview(mat0@) == m0);
                    assert(expected@ == bb0);
                    if sat(mview(mat@), b@, x) {
                        lemma_dot_from_zero(mat@[i3 as int]@, x, 0);
                        assert(dot(mview(mat@)[i3 as int], x) == b@[i3 as int]);
                    }
                    assert(!sat(mview(mat@), b@, x));
                    assert(!sat(m0, bb0, x));
                }
            }
            return None;
        }
        i3 = i3 + 1;
    }
    let mut x: Vec<bool> = vec![false; nrows];
    proof {
        assert forall|i: int| 0 <= i < nrows implies !(#[trigger] dot(mat@[i]@, x@)) by {
            lemma_dot_from_zero_x(mat@[i]@, x@, 0);
        }
    }
    let mut k2: usize = 0;
    while k2 < pivot_cols.len()
        invariant
            mat@.len() == nrows,
            b@.len() == nrows,
            x@.len() == nrows,
            pivot_cols@.len() <= nrows,
            piv_row == pivot_cols@.len(),
            k2 <= pivot_cols@.len(),
            rect(mat@, nrows as int),
            pcols_bound(pivot_cols@, nrows as int),
            ascending(pivot_cols@),
            pivots_ok(mat@, pivot_cols@),
            forall|j: int|
                0 <= j < nrows && !(exists|k: int| 0 <= k < k2 && pivot_cols@[k] == j) ==> !(
                #[trigger] x@[j]),
            forall|i: int|
                0 <= i < nrows ==> #[trigger] dot(mat@[i]@, x@) == (if i < k2 {
                    b@[i]
                } else {
                    false
                }),
        decreases pivot_cols@.len() - k2,
    {
        let pc = pivot_cols[k2];
        let ghost x_s = x@;
        let bv = b[k2];
        if bv {
            proof {
                assert(!x_s[pc as int]);
            }
            x.set(pc, true);
            proof {
                assert forall|i: int|
                    0 <= i < nrows implies #[trigger] dot(mat@[i]@, x@) == (if i < k2 as int
                    + 1 {
                    b@[i]
                } else {
                    false
                }) by {
                    lemma_dot_from_update(mat@[i]@, x_s, pc as int, 0);
                    assert(dot(mat@[i]@, x_s) == dot_from(mat@[i]@, x_s, 0));
                    assert(mat@[i]@[pc as int] == (i == k2 as int));
                }
            }
        } else {
            proof {
                assert(x@ =~= x_s.update(pc as int, false));
            }
        }
        k2 = k2 + 1;
    }
    proof {
        assert forall|i: int|
            0 <= i < nrows implies #[trigger] dot(mview(mat@)[i], x@) == b@[i] by {
            if i >= piv_row {
                lemma_dot_from_zero(mat@[i]@, x@, 0);
            }
        }
        assert(sat(mview(mat@), b@, x@));
        assert(sat(m0, bb0, x@));
    }
    Some(x)
}

/// The toggle relation is symmetric: a move flips a cell exactly when the
/// move at that cell would flip the move's own cell.
proof fn lemma_flips_sym(m: BoardModel, a: int, bq: int)
    requires
        0 <= a < area(m),
        0 <= bq < area(m),
    ensures
        flips_in(m, a, bq) == flips_in(m, bq, a),
{
}

/// The dot product of a cell's influence row with the characteristic vector
/// of a move set equals the parity of flips that set deals the cell.
proof fn lemma_char_dot(m: BoardModel, row: Seq<bool>, s: Seq<usize>, x: Seq<bool>, c: int)
    requires
        area(m) <= usize::MAX,
        row.len() == area(m),
        x.len() == area(m),
        moves_ok(s, area(m) as int),
        forall|j: int| 0 <= j < area(m) ==> x[j] == s.contains(j as usize),
        forall|j: int| 0 <= j < area(m) ==> row[j] == flips_in(m, j, c),
    ensures
        dot(row, x) == odd_flips(m, s, c),
    decreases s.len(),
{
    if s.len() == 0 {
        assert forall|j: int| 0 <= j < x.len() implies !x[j] by {
            if s.contains(j as usize) {
                let k = choose|k: int| 0 <= k < s.len() && s[k] == j as usize;
            }
        }
        lemma_dot_from_zero_x(row, x, 0);
        lemma_odd_flips_empty(m, s, c);
    } else {
        let s2 = s.drop_last();
        let lastv = s.last();
        let x2 = Seq::new(x.len(), |j: int| s2.contains(j as usize));
        assert forall|k1: int, k2: int| 0 <= k1 < k2 < s2.len() implies s2[k1] != s2[k2] by {
            assert(s[k1] == s2[k1]);
            assert(s[k2] == s2[k2]);
        }
        assert(moves_ok(s2, area(m) as int));
        lemma_char_dot(m, row, s2, x2, c);
        assert((lastv as int) < area(m));
        assert(!s2.contains(lastv)) by {
            if s2.contains(lastv) {
                let k = choose|k: int| 0 <= k < s2.len() && s2[k] == lastv;
                assert(s[k] == lastv);
                assert(s[s.len() - 1] == lastv);
            }
        }
        assert(x =~= x2.update(lastv as int, true)) by {
            assert forall|j: int|
                0 <= j < x.len() implies x[j] == x2.update(lastv as int, true)[j] by {
                if j != lastv as int {
                    if s.contains(j as usize) {
                        let k = choose|k: int| 0 <= k < s.len() && s[k] == j as usize;
                        assert(s[s.len() - 1] == lastv);
                        assert(k < s.len() - 1);
                        assert(s2[k] == j as usize);
                    }
                    if s2.contains(j as usize) {
                        let k = choose|k: int| 0 <= k < s2.len() && s2[k] == j as usize;
                        assert(s[k] == j as usize);
                    }
                } else {
                    assert(s[s.len() - 1] == lastv);
                    assert(s.contains(lastv));
                }
            }
        }
        lemma_dot_from_update(row, x2, lastv as int, 0);
        assert(s =~= s2 + seq![lastv]);
        lemma_odd_flips_concat(m, s2, seq![lastv], c);
        assert(odd_flips(m, seq![lastv], c) == flips_in(m, lastv as int, c)) by {
            assert(seq![lastv][0] == lastv);
            assert(seq![lastv].drop_first() =~= Seq::<usize>::empty());
            lemma_odd_flips_empty(m, seq![lastv].drop_first(), c);
        }
        assert(row[lastv as int] == flips_in(m, lastv as int, c));
        assert(dot(row, x2) == dot_from(row, x2, 0));
        assert(dot(row, x) == dot_from(row, x2.update(lastv as int, true), 0));
    }
}

/// An empty move sequence flips nothing.
proof fn lemma_odd_flips_empty(m: BoardModel, s: Seq<usize>, c: int)
    requires
        s.len() == 0,
    ensures
        !odd_flips(m, s, c),
{
}

/// The board's linear system is exact: an assignment satisfies it precisely
/// when performing the chosen moves lights the whole board.
proof fn lemma_system_bridge(
    b0: BoardModel,
    mm: Seq<Vec<bool>>,
    bexp: Seq<bool>,
    s: Seq<usize>,
    x: Seq<bool>,
)
    requires
        wf_model(b0),
        area(b0) <= usize::MAX,
        mm.len() == area(b0),
        rect(mm, area(b0) as int),
        forall|i: int, j: int|
            0 <= i < area(b0) && 0 <= j < area(b0) ==> (#[trigger] mm[i]@[j]) == flips_in(b0, i, j),
        bexp.len() == area(b0),
        forall|i: int| 0 <= i < area(b0) ==> bexp[i] == !b0.cells[i],
        moves_ok(s, area(b0) as int),
        x.len() == area(b0),
        forall|j: int| 0 <= j < area(b0) ==> x[j] == s.contains(j as usize),
    ensures
        sat(mview(mm), bexp, x) <==> solves(b0, s),
{
    let n = area(b0) as int;
    let fin = apply_moves(b0, s);
    lemma_apply_moves_dims(b0, s);
    assert forall|c: int| 0 <= c < n implies #[trigger] dot(mview(mm)[c], x) == odd_flips(
        b0,
        s,
        c,
    ) by {
        assert(mview(mm)[c] == mm[c]@);
        assert forall|j: int| 0 <= j < n implies mm[c]@[j] == flips_in(b0, j, c) by {
            lemma_flips_sym(b0, c, j);
        }
        lemma_char_dot(b0, mm[c]@, s, x, c);
    }
    assert forall|c: int| 0 <= c < n implies #[trigger] fin.cells[c] == (b0.cells[c] != odd_flips(
        b0,
        s,
        c,
    )) by {
        lemma_apply_moves_cells(b0, s, c);
    }
    if sat(mview(mm), bexp, x) {
        assert forall|c: int| 0 <= c < fin.cells.len() implies fin.cells[c] by {
            assert(dot(mview(mm)[c], x) == bexp[c]);
        }
    }
    if solves(b0, s) {
        assert forall|c: int| 0 <= c < mview(mm).len() implies #[trigger] dot(mview(mm)[c], x)
            == bexp[c] by {
            assert(fin.cells[c]);
        }
    }
}

/// Lists the indices of the set entries of `x` below `k`, in ascending
/// order.
spec fn support(x: Seq<bool>, k: int) -> Seq<usize>
    decreases k,
{
    if k <= 0 {
        Seq::empty()
    } else if x[k - 1] {
        support(x, k - 1).push((k - 1) as usize)
    } else {
        support(x, k - 1)
    }
}

/// The support is a set of distinct in-range moves holding exactly the set
/// entries.
proof fn lemma_support_props(x: Seq<bool>, k: int)
    requires
        0 <= k <= x.len(),
        x.len() <= usize::MAX,
    ensures
        moves_ok(support(x, k), k),
        forall|j: int| 0 <= j < k ==> (x[j] <==> support(x, k).contains(j as usize)),
        forall|t: int| 0 <= t < support(x, k).len() ==> (support(x, k)[t] as int) < k,
    decreases k,
{
    if k > 0 {
        lemma_support_props(x, k - 1);
        let s2 = support(x, k - 1);
        let s = support(x, k);
        assert forall|j: int| 0 <= j < k implies (x[j] <==> s.contains(j as usize)) by {
            if j < k - 1 {
                if s2.contains(j as usize) {
                    let t = choose|t: int| 0 <= t < s2.len() && s2[t] == j as usize;
                    assert(s[t] == j as usize);
                }
                if x[k - 1] {
                    if s.contains(j as usize) {
                        let t = choose|t: int| 0 <= t < s.len() && s[t] == j as usize;
                        assert(t < s2.len());
                        assert(s2[t] == j as usize);
                    }
                }
            } else {
                if x[k - 1] {
                    assert(s[s.len() - 1] == (k - 1) as usize);
                }
                if s.contains((k - 1) as usize) && !x[k - 1] {
                    let t = choose|t: int| 0 <= t < s.len() && s[t] == (k - 1) as usize;
                    assert(s2[t] == (k - 1) as usize);
                }
            }
        }
        if x[k - 1] {
            assert forall|t1: int, t2: int| 0 <= t1 < t2 < s.len() implies s[t1] != s[t2] by {
                if t2 == s.len() - 1 {
                    assert(s[t1] == s2[t1]);
                }
            }
        }
    }
}

/// Finds a toggle assignment that lights the whole board, by solving the
/// move-effect system over GF(2).
///
/// The returned moves are pairwise distinct, listed in ascending index
/// order, and performing them solves the board.  `None` comes back exactly
/// when the board is empty or no set of distinct moves solves it; the
/// solution found is not necessarily of minimal length.
pub fn solve(board: &Binary) -> (r: Option<Vec<usize>>)
    requires
        board.inv(),
    ensures
        r matches Some(s) ==> moves_ok(s@, area(board.bd()) as int) && ascending(s@) && solves(
            board.bd(),
            s@,
        ),
        r is None <==> (area(board.bd()) == 0 || (forall|e: Seq<usize>|
            #[trigger] moves_ok(e, area(board.bd()) as int) ==> !solves(board.bd(), e))),
{
    proof {
        lemma_binary_bounds(board);
    }
    let ghost b0 = board.bd();
    let (cols, rows) = board.size();
    let n = cols * rows;
    let mut matrix: Vec<Vec<bool>> = Vec::new();
    let mut blank = Binary::new_blank(cols, rows);
    let ghost bm = blank.bd();
    let mut expected: Vec<bool> = Vec::new();
    let bcells = board.cells();
    let mut mv: usize = 0;
    while mv < n
        invariant
            blank.inv(),
            blank.bd() == bm,
            bm.cols == cols as nat,
            bm.rows == rows as nat,
            bm.cells.len() == n as int,
            forall|j: int| 0 <= j < n ==> !bm.cells[j],
            wf_model(b0),
            b0.cols == cols as nat,
            b0.rows == rows as nat,
            area(b0) == n as nat,
            bcells@.len() == n as int,
            forall|j: int|
                0 <= j < n ==> bcells@[j] == (if b0.cells[j] {
                    1usize
                } else {
                    0usize
                }),
            mv <= n,
            matrix@.len() == mv as int,
            expected@.len() == mv as int,
            rect(matrix@, n as int),
            forall|i: int, j: int|
                0 <= i < mv && 0 <= j < n ==> (#[trigger] matrix@[i]@[j]) == flips_in(b0, i, j),
            forall|i: int| 0 <= i < mv ==> expected@[i] == !b0.cells[i],
        decreases n - mv,
    {
        proof {
            crate::model::lemma_area_pos(b0);
        }
        blank.trigger_index(mv);
        let tc = blank.cells();
        let ghost after = apply_move(bm, mv as int);
        let mut rowv: Vec<bool> = Vec::new();
        let mut j: usize = 0;
        while j < n
            invariant
                blank.inv(),
                blank.bd() == after,
                after.cells.len() == n as int,
                forall|t: int| 0 <= t < n ==> after.cells[t] == flips_in(b0, mv as int, t),
                tc@.len() == n as int,
                forall|t: int|
                    0 <= t < n ==> tc@[t] == (if after.cells[t] {
                        1usize
                    } else {
                        0usize
                    }),
                j <= n,
                rowv@.len() == j as int,
                forall|t: int| 0 <= t < j ==> rowv@[t] == flips_in(b0, mv as int, t),
            decreases n - j,
        {
            let e = tc[j] == 1;
            rowv.push(e);
            j = j + 1;
        }
        matrix.push(rowv);
        blank.trigger_index(mv);
        proof {
            lemma_toggle_involution(bm, mv as int);
        }
        let e2 = bcells[mv] == 0;
        expected.push(e2);
        mv = mv + 1;
    }
    let sol = gauss_jordan_zf2(&matrix, &expected);
    match sol {
        None => {
            proof {
                if n > 0 {
                    assert forall|e: Seq<usize>|
                        #[trigger] moves_ok(e, area(b0) as int) implies !solves(b0, e) by {
                        let x = Seq::new(area(b0), |j: int| e.contains(j as usize));
                        lemma_system_bridge(b0, matrix@, expected@, e, x);
                        if solves(b0, e) {
                            assert(sat(mview(matrix@), expected@, x));
                            assert(false);
                        }
                    }
                }
            }
            None
        },
        Some(x) => {
            let mut s: Vec<usize> = Vec::new();
            let mut j2: usize = 0;
            while j2 < n
                invariant
                    x@.len() == n as int,
                    j2 <= n,
                    forall|t: int|
                        0 <= t < s@.len() ==> ((#[trigger] s@[t]) as int) < j2 as int
                            && x@[s@[t] as int],
                    forall|q: int| 0 <= q < j2 && x@[q] ==> s@.contains(q as usize),
                    forall|t1: int, t2: int| 0 <= t1 < t2 < s@.len() ==> s@[t1] < s@[t2],
                decreases n - j2,
            {
                if x[j2] {
                    let ghost s_old = s@;
                    s.push(j2);
                    proof {
                        assert forall|q: int|
                            0 <= q < j2 as int + 1 && x@[q] implies s@.contains(q as usize) by {
                            if q < j2 as int {
                                assert(s_old.contains(q as usize));
                                let t = choose|t: int|
                                    0 <= t < s_old.len() && s_old[t] == q as usize;
                                assert(s@[t] == q as usize);
                            } else {
                                assert(s@[s@.len() - 1] == j2);
                            }
                        }
                    }
                }
                j2 = j2 + 1;
            }
            proof {
                assert(moves_ok(s@, area(b0) as int));
                assert forall|j: int| 0 <= j < area(b0) implies x@[j] == s@.contains(
                    j as usize,
                ) by {
                    if s@.contains(j as usize) {
                        let t = choose|t: int| 0 <= t < s@.len() && s@[t] == j as usize;
                        assert(x@[s@[t] as int]);
                    }
                }
                lemma_system_bridge(b0, matrix@, expected@, s@, x@);
                assert(solves(b0, s@));
                assert(n > 0);
            }
            Some(s)
        },
    }
}

/// A dot product with an all-zero assignment is zero.
proof fn lemma_dot_from_zero_x(a: Seq<bool>, x: Seq<bool>, k: int)
    requires
        forall|j: int| 0 <= j < x.len() ==> !x[j],
        a.len() == x.len(),
        0 <= k,
    ensures
        !dot_from(a, x, k),
    decreases a.len() - k,
{
    if k < a.len() {
        lemma_dot_from_zero_x(a, x, k + 1);
    }
}

} // verus!
