//! Exhaustive backtracking solver.
//!
//! The search walks every sequence of distinct moves in depth-first order,
//! toggling the board in place and undoing each move on the way back
//! (toggling is its own inverse).  Branches are cut as soon as the board is
//! solved or the current path cannot undercut the best solution found so
//! far, which keeps the search exhaustive below the best length.  The
//! returned solution is therefore one of minimal length; a board that is
//! already solved yields no solution, since only non-empty paths are ever
//! recorded.

use crate::board::{lemma_binary_bounds, Binary, Board};
use crate::model::{
    apply_moves, area, lemma_apply_moves_dims, lemma_apply_moves_snoc, lemma_toggle_involution,
    moves_ok, solved, solves, wf_model, BoardModel,
};
use vstd::prelude::*;

verus! {

/// A correct, non-empty solution for the board `b0`.
pub open spec fn valid_best(b0: BoardModel, s: Seq<usize>) -> bool {
    moves_ok(s, area(b0) as int) && s.len() >= 1 && solves(b0, s)
}

/// The recorded best solution, when there is one, is correct.
spec fn best_inv(b0: BoardModel, b: Option<Vec<usize>>) -> bool {
    match b {
        Some(s) => valid_best(b0, s@),
        None => true,
    }
}

/// `l` undercuts the recorded solution (no record counts as infinitely
/// long).
spec fn shorter(b: Option<Vec<usize>>, l: int) -> bool {
    match b {
        Some(s) => l < s@.len(),
        None => true,
    }
}

/// There is a recorded solution of length at most `l`.
spec fn best_le(b: Option<Vec<usize>>, l: int) -> bool {
    match b {
        Some(s) => s@.len() <= l,
        None => false,
    }
}

/// The recorded solution only ever improves: it never disappears and never
/// grows.
spec fn improves(b_old: Option<Vec<usize>>, b_new: Option<Vec<usize>>) -> bool {
    match b_old {
        None => true,
        Some(s0) => match b_new {
            Some(s) => s@.len() <= s0@.len(),
            None => false,
        },
    }
}

/// Every move of `e` is still marked available.
spec fn from_avail(e: Seq<usize>, avail: Seq<bool>) -> bool {
    forall|k: int| 0 <= k < e.len() ==> avail[e[k] as int]
}

/// A non-empty extension of the current path by distinct available moves.
spec fn ext_ok(b0: BoardModel, avail: Seq<bool>, e: Seq<usize>) -> bool {
    moves_ok(e, area(b0) as int) && e.len() >= 1 && from_avail(e, avail)
}

/// Exhaustiveness: every available extension that solves the board and
/// undercuts the solution recorded before the search now has a recorded
/// solution at most as long.
spec fn covers(
    b0: BoardModel,
    path: Seq<usize>,
    avail: Seq<bool>,
    b_before: Option<Vec<usize>>,
    b_after: Option<Vec<usize>>,
) -> bool {
    forall|e: Seq<usize>|
        #[trigger] ext_ok(b0, avail, e) && solves(b0, path + e) && shorter(
            b_before,
            (path.len() + e.len()) as int,
        ) ==> best_le(b_after, (path.len() + e.len()) as int)
}

/// Number of `true` entries.
spec fn count_true(s: Seq<bool>) -> nat
    decreases s.len(),
{
    if s.len() == 0 {
        0
    } else {
        count_true(s.drop_last()) + (if s.last() {
            1nat
        } else {
            0nat
        })
    }
}

/// Marking a set move unavailable lowers the count by exactly one.
proof fn lemma_count_true_update(s: Seq<bool>, i: int)
    requires
        0 <= i < s.len(),
        s[i],
    ensures
        count_true(s.update(i, false)) == count_true(s) - 1,
    decreases s.len(),
{
    let t = s.update(i, false);
    if i == s.len() - 1 {
        assert(t.drop_last() =~= s.drop_last());
    } else {
        assert(t.drop_last() =~= s.drop_last().update(i, false));
        lemma_count_true_update(s.drop_last(), i);
    }
}

/// Does the new solution use strictly fewer moves than the old one?
fn is_solution_better(new_solution: &Vec<usize>, old_solution: &Vec<usize>) -> (r: bool)
    ensures
        r == (new_solution@.len() < old_solution@.len()),
{
    new_solution.len() < old_solution.len()
}

/// An owned copy of a move list.
fn copy_moves(v: &Vec<usize>) -> (r: Vec<usize>)
    ensures
        r@ == v@,
{
    let mut r: Vec<usize> = Vec::new();
    let mut i: usize = 0;
    while i < v.len()
        invariant
            i <= v@.len(),
            r@.len() == i as int,
            forall|j: int| 0 <= j < i ==> r@[j] == v@[j],
        decreases v@.len() - i,
    {
        r.push(v[i]);
        i = i + 1;
    }
    proof {
        assert(r@ =~= v@);
    }
    r
}

/// Depth-first search over all extensions of the current path by distinct
/// available moves, recording in `best_solution` the shortest solving path
/// met; the board, the availability markers and the path are restored on
/// return.
#[verifier::loop_isolation(false)]
fn solve_recursive(
    board: &mut Binary,
    available_moves: &mut Vec<bool>,
    solution: &mut Vec<usize>,
    best_solution: &mut Option<Vec<usize>>,
    Ghost(b0): Ghost<BoardModel>,
)
    requires
        old(board).inv(),
        wf_model(b0),
        old(board).bd() == apply_moves(b0, old(solution)@),
        old(available_moves)@.len() == area(b0),
        forall|j: int|
            0 <= j < area(b0) ==> (old(available_moves)@[j] <==> !old(solution)@.contains(
                j as usize,
            )),
        moves_ok(old(solution)@, area(b0) as int),
        best_inv(b0, *old(best_solution)),
    ensures
        final(board).inv(),
        final(board).bd() == old(board).bd(),
        final(available_moves)@ == old(available_moves)@,
        final(solution)@ == old(solution)@,
        best_inv(b0, *final(best_solution)),
        improves(*old(best_solution), *final(best_solution)),
        solved(apply_moves(b0, old(solution)@)) ==> *final(best_solution) == *old(best_solution),
        !solved(apply_moves(b0, old(solution)@)) ==> covers(
            b0,
            old(solution)@,
            old(available_moves)@,
            *old(best_solution),
            *final(best_solution),
        ),
    decreases count_true(available_moves@),
{
    let ghost p = old(solution)@;
    let ghost a_seq = old(available_moves)@;
    let ghost b_pre_fn = *old(best_solution);

    if board.is_solved() {
        return ;
    }
    let prune_len = match best_solution {
        None => false,
        Some(best) => solution.len() >= best.len(),
    };
    if prune_len {
        proof {
            assert forall|e: Seq<usize>|
                ext_ok(b0, a_seq, e) && solves(b0, p + e) && shorter(
                    b_pre_fn,
                    (p.len() + e.len()) as int,
                ) implies best_le(*best_solution, (p.len() + e.len()) as int) by {
                assert(e.len() >= 1);
                assert(false);
            }
        }
        return ;
    }
    let n = available_moves.len();
    let mut i: usize = 0;
    while i < n
        invariant
            board.inv(),
            board.bd() == apply_moves(b0, p),
            available_moves@ == a_seq,
            solution@ == p,
            i <= n,
            best_inv(b0, *best_solution),
            improves(b_pre_fn, *best_solution),
            forall|e: Seq<usize>|
                #[trigger] ext_ok(b0, a_seq, e) && solves(b0, p + e) && shorter(
                    b_pre_fn,
                    (p.len() + e.len()) as int,
                ) && (e[0] as int) < i as int ==> best_le(
                    *best_solution,
                    (p.len() + e.len()) as int,
                ),
        decreases n - i,
    {
        if available_moves[i] {
            let ghost b_pre = *best_solution;
            proof {
                crate::model::lemma_area_pos(b0);
                lemma_apply_moves_dims(b0, p);
            }
            available_moves.set(i, false);
            board.trigger_index(i);
            solution.push(i);
            proof {
                lemma_apply_moves_snoc(b0, p, i);
                lemma_count_true_update(a_seq, i as int);
                assert forall|j: int|
                    0 <= j < area(b0) implies (available_moves@[j] <==> !solution@.contains(
                        j as usize,
                    )) by {
                    if j == i as int {
                        assert(solution@[p.len() as int] == i);
                        assert(solution@.contains(i));
                    } else {
                        if solution@.contains(j as usize) {
                            let k = choose|k: int|
                                0 <= k < solution@.len() && solution@[k] == j as usize;
                            assert(k < p.len());
                            assert(p[k] == j as usize);
                        }
                        if p.contains(j as usize) {
                            let k = choose|k: int| 0 <= k < p.len() && p[k] == j as usize;
                            assert(solution@[k] == j as usize);
                        }
                    }
                }
                assert(!p.contains(i));
                assert forall|k1: int, k2: int|
                    0 <= k1 < k2 < solution@.len() implies solution@[k1] != solution@[k2] by {
                    if k2 == p.len() as int {
                        assert(solution@[k1] == p[k1]);
                        if p[k1] == i {
                            assert(p.contains(i));
                        }
                    }
                }
                assert(moves_ok(solution@, area(b0) as int));
            }
            solve_recursive(board, available_moves, solution, best_solution, Ghost(b0));
            let ghost b_mid = *best_solution;
            if board.is_solved() {
                let better = match best_solution {
                    None => true,
                    Some(best) => is_solution_better(solution, best),
                };
                if better {
                    *best_solution = Some(copy_moves(solution));
                }
            }
            let ghost b_post = *best_solution;
            available_moves.set(i, true);
            solution.pop();
            board.trigger_index(i);
            proof {
                assert(available_moves@ =~= a_seq);
                assert(solution@ =~= p);
                lemma_apply_moves_dims(b0, p);
                lemma_toggle_involution(apply_moves(b0, p), i as int);
                let pi = p.push(i);
                assert forall|e: Seq<usize>|
                    ext_ok(b0, a_seq, e) && solves(b0, p + e) && shorter(
                        b_pre_fn,
                        (p.len() + e.len()) as int,
                    ) && (e[0] as int) < i as int + 1 implies best_le(
                    *best_solution,
                    (p.len() + e.len()) as int,
                ) by {
                    let l = (p.len() + e.len()) as int;
                    if (e[0] as int) < i as int {
                        assert(best_le(b_pre, l));
                    } else {
                        assert(e[0] == i);
                        let e2 = e.drop_first();
                        assert(pi + e2 =~= p + e);
                        if e2.len() == 0 {
                            assert(pi =~= p + e);
                            assert(solved(apply_moves(b0, pi)));
                            assert(best_le(b_post, (p.len() + 1) as int));
                        } else {
                            if solved(apply_moves(b0, pi)) {
                                assert(best_le(b_post, (p.len() + 1) as int));
                            } else {
                                assert(covers(b0, pi, a_seq.update(i as int, false), b_pre, b_mid));
                                assert(ext_ok(b0, a_seq.update(i as int, false), e2));
                                assert(solves(b0, pi + e2));
                                if shorter(b_pre, l) {
                                    assert(best_le(b_mid, l));
                                } else {
                                    assert(best_le(b_pre, l));
                                }
                            }
                        }
                    }
                }
            }
        }
        i = i + 1;
    }
    proof {
        assert forall|e: Seq<usize>|
            ext_ok(b0, a_seq, e) && solves(b0, p + e) && shorter(
                b_pre_fn,
                (p.len() + e.len()) as int,
            ) implies best_le(*best_solution, (p.len() + e.len()) as int) by {
            assert((e[0] as int) < area(b0) as int);
        }
    }
}

/// Finds a solution with the fewest moves by exhaustive search.
///
/// Works on a private copy of the board.  Returns `None` exactly when the
/// board is already solved or no set of distinct moves solves it; a
/// returned solution is correct and no solving sequence of distinct moves
/// is shorter.
pub fn solve(board: &Binary) -> (r: Option<Vec<usize>>)
    requires
        board.inv(),
    ensures
        solved(board.bd()) ==> r is None,
        r matches Some(s) ==> valid_best(board.bd(), s@),
        r matches Some(s) ==> forall|e: Seq<usize>|
            #[trigger] moves_ok(e, area(board.bd()) as int) && solves(board.bd(), e) ==> s@.len()
                <= e.len(),
        r is None && !solved(board.bd()) ==> forall|e: Seq<usize>|
            #[trigger] moves_ok(e, area(board.bd()) as int) ==> !solves(board.bd(), e),
{
    proof {
        lemma_binary_bounds(board);
    }
    let ghost b0 = board.bd();
    let mut solution: Vec<usize> = Vec::new();
    let mut best_solution: Option<Vec<usize>> = None;
    let cols = board.cols();
    let rows = board.rows();
    let mut available_moves: Vec<bool> = vec![true; cols * rows];

    let src = board.cells();
    let mut values: Vec<bool> = Vec::new();
    let mut k: usize = 0;
    while k < src.len()
        invariant
            src@.len() == b0.cells.len(),
            forall|j: int|
                0 <= j < src@.len() ==> src@[j] == (if b0.cells[j] {
                    1usize
                } else {
                    0usize
                }),
            k <= src@.len(),
            values@.len() == k as int,
            forall|j: int| 0 <= j < k ==> values@[j] == b0.cells[j],
        decreases src@.len() - k,
    {
        values.push(src[k] != 0);
        k = k + 1;
    }
    let mut work = Binary::new_from_values(&values, cols, rows);
    proof {
        assert(work.bd().cells =~= b0.cells);
        assert(work.bd() =~= b0);
        assert(apply_moves(b0, solution@) == b0);
        assert forall|j: int|
            0 <= j < area(b0) implies (available_moves@[j] <==> !solution@.contains(
                j as usize,
            )) by {}
    }
    solve_recursive(
        &mut work,
        &mut available_moves,
        &mut solution,
        &mut best_solution,
        Ghost(b0),
    );
    proof {
        if !solved(b0) {
            assert forall|e: Seq<usize>|
                #[trigger] moves_ok(e, area(b0) as int) && solves(b0, e) implies best_le(
                best_solution,
                e.len() as int,
            ) by {
                if e.len() == 0 {
                    assert(apply_moves(b0, e) == b0);
                    assert(false);
                } else {
                    assert(ext_ok(b0, available_moves@, e));
                    assert(Seq::<usize>::empty() + e =~= e);
                    assert(shorter(None::<Vec<usize>>, e.len() as int));
                }
            }
        }
    }
    best_solution
}

} // verus!
