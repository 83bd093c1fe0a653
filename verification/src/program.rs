//! Orchestration: input validation, index sanitisation, solving, simulation
//! and the textual form of a board.
//!
//! Light and simulation indices arrive one-based, counted from the corner
//! that the origin location names.  `Program` checks them, converts them to
//! the core's zero-based top-left row-major indices, builds the board and
//! either solves it or replays the requested steps on it.

use crate::args::{Input, Origin};
use crate::board::{Binary, Board};
use crate::gf2;
use crate::model::{apply_moves, area, moves_ok, solves, BoardModel};
use vstd::prelude::*;
use vstd::string::StringExecFns;

verus! {

broadcast use vstd::arithmetic::mul::lemma_mul_is_commutative;

/// Number of cells that the input describes.
pub open spec fn n_of(input: Input) -> int {
    (input.cols as int) * (input.rows as int)
}

/// Moves a zero-based row-major index between the top-left convention and
/// the one counted from the given corner.  The mapping is its own inverse.
pub open spec fn rotate_spec(location: Origin, cols: usize, rows: usize, idx: int) -> int {
    let c = cols as int;
    let r = rows as int;
    let row = idx / c;
    let col = idx % c;
    match location {
        Origin::TopLeft => idx,
        Origin::TopRight => row * c + (c - 1 - col),
        Origin::BottomLeft => (r - 1 - row) * c + col,
        Origin::BottomRight => (r - 1 - row) * c + (c - 1 - col),
    }
}

/// The zero-based top-left cell index named by the one-based display index
/// `v`.
pub open spec fn display_to_cell(location: Origin, cols: usize, rows: usize, v: usize) -> int {
    rotate_spec(location, cols, rows, v - 1)
}

/// The board that the input's lights describe.
pub open spec fn board_of_input(input: Input) -> BoardModel {
    BoardModel {
        cols: input.cols as nat,
        rows: input.rows as nat,
        cells: Seq::new(
            (n_of(input)) as nat,
            |i: int|
                exists|k: int|
                    0 <= k < input.lights@.len() && display_to_cell(
                        input.origin_location,
                        input.cols,
                        input.rows,
                        #[trigger] input.lights@[k],
                    ) == i,
        ),
    }
}

/// The simulation steps as zero-based top-left cell indices, in order.
pub open spec fn cell_steps(input: Input) -> Seq<usize> {
    input.simulation_steps@.map_values(
        |v: usize|
            display_to_cell(input.origin_location, input.cols, input.rows, v) as usize,
    )
}

/// Some light index lies outside `1 ..= cols * rows`.
pub open spec fn lights_oob(input: Input) -> bool {
    exists|k: int|
        0 <= k < input.lights@.len() && ((#[trigger] input.lights@[k]) == 0 || (input.lights@[k]
            as int) > n_of(input))
}

/// Some simulation step lies outside `1 ..= cols * rows`.
pub open spec fn steps_oob(input: Input) -> bool {
    exists|k: int|
        0 <= k < input.simulation_steps@.len() && ((#[trigger] input.simulation_steps@[k]) == 0
            || (input.simulation_steps@[k] as int) > n_of(input))
}

/// More distinct lights were named than the board has cells.
pub open spec fn too_many_lights(input: Input) -> bool {
    input.lights@.to_set().len() > n_of(input)
}

/// Why an input was rejected.
#[derive(Debug, Copy, Clone, PartialEq, Eq, Structural)]
pub enum InputError {
    /// More distinct light indices than the board has cells.
    TooManyLights,
    /// A light or simulation index of zero, or past the last cell.
    IndexOutOfRange,
}

/// What a run produced.
#[derive(Debug)]
pub enum Outcome {
    /// The solver ran: the moves that light the whole board as zero-based
    /// top-left cell indices, or `None` when there is no solution.
    Solution(Option<Vec<usize>>),
    /// The simulation ran; the board holds its final state.
    Simulation,
}

/// The glyph a cell is drawn as.
pub open spec fn cell_glyph(on: bool) -> Seq<char> {
    if on {
        seq!['#']
    } else {
        seq!['\u{b7}']
    }
}

/// The rows of glyphs laid out line by line: each item preceded, at the
/// start of each row of `cols` items, by a line break.
pub open spec fn joined(items: Seq<Seq<char>>, cols: int, k: int) -> Seq<char>
    decreases k,
{
    if k <= 0 {
        Seq::empty()
    } else {
        joined(items, cols, k - 1) + (if (k - 1) % cols == 0 {
            seq!['\n']
        } else {
            Seq::empty()
        }) + items[k - 1]
    }
}

/// Positive area means both dimensions are positive.
proof fn lemma_pos_dims(cols: usize, rows: usize)
    requires
        (cols as int) * (rows as int) > 0,
    ensures
        cols > 0,
        rows > 0,
{
    if cols == 0 || rows == 0 {
        assert((cols as int) * (rows as int) == 0) by (nonlinear_arith)
            requires
                cols == 0 || rows == 0,
        ;
    }
}

/// Linear membership test.
fn contains_value(v: &Vec<usize>, x: usize) -> (r: bool)
    ensures
        r == v@.contains(x),
{
    let mut i: usize = 0;
    while i < v.len()
        invariant
            i <= v@.len(),
            forall|j: int| 0 <= j < i ==> v@[j] != x,
        decreases v@.len() - i,
    {
        if v[i] == x {
            return true;
        }
        i = i + 1;
    }
    false
}

/// The distinct values of `v`, each kept once, in order of first
/// appearance.
fn dedup_values(v: &Vec<usize>) -> (r: Vec<usize>)
    ensures
        r@.no_duplicates(),
        forall|x: usize| r@.contains(x) <==> v@.contains(x),
        r@.len() == v@.to_set().len(),
{
    let mut r: Vec<usize> = Vec::new();
    let mut i: usize = 0;
    while i < v.len()
        invariant
            i <= v@.len(),
            r@.no_duplicates(),
            forall|x: usize| r@.contains(x) <==> v@.subrange(0, i as int).contains(x),
        decreases v@.len() - i,
    {
        let ghost r_old = r@;
        let ghost pre = v@.subrange(0, i as int);
        let x = v[i];
        if !contains_value(&r, x) {
            r.push(x);
            proof {
                assert forall|k1: int, k2: int|
                    0 <= k1 < k2 < r@.len() implies r@[k1] != r@[k2] by {
                    if k2 == r@.len() - 1 {
                        assert(r@[k1] == r_old[k1]);
                        if r_old[k1] == x {
                            assert(r_old.contains(x));
                        }
                    }
                }
            }
        }
        proof {
            assert(v@.subrange(0, i as int + 1) =~= pre.push(v@[i as int]));
            assert forall|y: usize| r@.contains(y) <==> v@.subrange(0, i as int + 1).contains(
                y,
            ) by {
                let post = v@.subrange(0, i as int + 1);
                if r@.contains(y) {
                    let k = choose|k: int| 0 <= k < r@.len() && r@[k] == y;
                    if k < r_old.len() {
                        assert(r_old[k] == y);
                        assert(r_old.contains(y));
                        let k2 = choose|k2: int| 0 <= k2 < pre.len() && pre[k2] == y;
                        assert(post[k2] == y);
                    } else {
                        assert(y == x);
                        assert(post[post.len() - 1] == x);
                    }
                }
                if post.contains(y) {
                    let k = choose|k: int| 0 <= k < post.len() && post[k] == y;
                    if k < pre.len() {
                        assert(pre[k] == y);
                        assert(pre.contains(y));
                        assert(r_old.contains(y));
                        let k2 = choose|k2: int| 0 <= k2 < r_old.len() && r_old[k2] == y;
                        assert(r@[k2] == y);
                    } else {
                        assert(y == x);
                        if !r_old.contains(x) {
                            assert(r@[r@.len() - 1] == x);
                        }
                    }
                }
            }
        }
        i = i + 1;
    }
    proof {
        assert(v@.subrange(0, v@.len() as int) =~= v@);
        r@.unique_seq_to_set();
        assert(r@.to_set() =~= v@.to_set());
    }
    r
}

/// A puzzle run: the parsed input and the board built from it.
pub struct Program {
    input: Input,
    board: Binary,
}

impl Program {
    /// The input the program was created with.
    pub closed spec fn inp(&self) -> Input {
        self.input
    }

    /// Spec-level value of the program's board.
    pub closed spec fn bd(&self) -> BoardModel {
        self.board.bd()
    }

    /// Internal consistency.
    pub closed spec fn wf(&self) -> bool {
        self.board.inv()
    }

    /// A program for the given input; the board stays empty until `run`
    /// builds it.
    pub fn new(input: Input) -> (r: Program)
        ensures
            r.wf(),
            r.inp() == input,
            area(r.bd()) == 0,
    {
        Program { input, board: Binary::new_blank(0, 0) }
    }

    /// Read access to the board, for rendering.
    pub fn board(&self) -> (r: &Binary)
        requires
            self.wf(),
        ensures
            r.inv(),
            r.bd() == self.bd(),
    {
        &self.board
    }

    /// Rewrites each zero-based index from the given corner convention to
    /// the top-left one (or back: the mapping is an involution).
    pub fn rotate_light_indices(
        indices: &mut Vec<usize>,
        cols: usize,
        rows: usize,
        location: Origin,
    )
        requires
            (cols as int) * (rows as int) <= usize::MAX,
            forall|k: int|
                0 <= k < old(indices)@.len() ==> (old(indices)@[k] as int) < (cols as int) * (rows
                    as int),
        ensures
            final(indices)@.len() == old(indices)@.len(),
            forall|k: int|
                0 <= k < old(indices)@.len() ==> (final(indices)@[k] as int) == rotate_spec(
                    location,
                    cols,
                    rows,
                    old(indices)@[k] as int,
                ) && (final(indices)@[k] as int) < (cols as int) * (rows as int),
    {
        let n = indices.len();
        let ghost g = old(indices)@;
        let mut j: usize = 0;
        while j < n
            invariant
                n == g.len(),
                indices@.len() == n,
                j <= n,
                (cols as int) * (rows as int) <= usize::MAX,
                forall|k: int| 0 <= k < n ==> (g[k] as int) < (cols as int) * (rows as int),
                forall|k: int| j <= k < n ==> indices@[k] == g[k],
                forall|k: int|
                    0 <= k < j ==> (indices@[k] as int) == rotate_spec(
                        location,
                        cols,
                        rows,
                        g[k] as int,
                    ) && (indices@[k] as int) < (cols as int) * (rows as int),
            decreases n - j,
        {
            let idx = indices[j];
            proof {
                assert(indices@[j as int] == g[j as int]);
                assert((g[j as int] as int) < (cols as int) * (rows as int));
                lemma_pos_dims(cols, rows);
                vstd::arithmetic::div_mod::lemma_fundamental_div_mod(idx as int, cols as int);
                vstd::arithmetic::div_mod::lemma_mod_bound(idx as int, cols as int);
                let rowg = (idx as int) / (cols as int);
                if rowg >= rows as int {
                    vstd::arithmetic::mul::lemma_mul_inequality(
                        rows as int,
                        rowg,
                        cols as int,
                    );
                    assert(false);
                }
                if rowg < 0 {
                    vstd::arithmetic::mul::lemma_mul_inequality(rowg, -1, cols as int);
                    assert(false);
                }
                vstd::arithmetic::mul::lemma_mul_inequality(
                    rowg + 1,
                    rows as int,
                    cols as int,
                );
                assert((rowg + 1) * (cols as int) == rowg * (cols as int) + (cols as int))
                    by (nonlinear_arith);
                vstd::arithmetic::mul::lemma_mul_inequality(
                    (rows as int) - 1 - rowg,
                    (rows as int) - 1,
                    cols as int,
                );
                assert(((rows as int) - 1) * (cols as int) == (rows as int) * (cols as int) - (
                cols as int)) by (nonlinear_arith);
                vstd::arithmetic::mul::lemma_mul_nonnegative(
                    (rows as int) - 1 - rowg,
                    cols as int,
                );
                vstd::arithmetic::mul::lemma_mul_nonnegative(rowg, cols as int);
            }
            let row = idx / cols;
            let col = idx % cols;
            match location {
                Origin::TopLeft => {},
                Origin::TopRight => {
                    indices.set(j, row * cols + (cols - 1 - col));
                },
                Origin::BottomLeft => {
                    indices.set(j, (rows - 1 - row) * cols + col);
                },
                Origin::BottomRight => {
                    indices.set(j, (rows - 1 - row) * cols + (cols - 1 - col));
                },
            }
            j = j + 1;
        }
    }

    /// Validates the input, builds the board from the lights and either
    /// solves it (no simulation steps) or replays the steps on it.
    ///
    /// Rejected inputs leave the program unchanged: first too many distinct
    /// lights, then any light or step outside `1 ..= cols * rows`.
    #[verifier::loop_isolation(false)]
    pub fn run(&mut self) -> (r: Result<Outcome, InputError>)
        requires
            old(self).wf(),
            n_of(old(self).inp()) <= usize::MAX,
        ensures
            final(self).wf(),
            final(self).inp() == old(self).inp(),
            (r == Err::<Outcome, InputError>(InputError::TooManyLights)) <==> too_many_lights(
                old(self).inp(),
            ),
            (r == Err::<Outcome, InputError>(InputError::IndexOutOfRange)) <==> (!too_many_lights(
                old(self).inp(),
            ) && (lights_oob(old(self).inp()) || steps_oob(old(self).inp()))),
            r is Err ==> final(self).bd() == old(self).bd(),
            r matches Ok(o) ==> ((o is Solution) <==> old(self).inp().simulation_steps@.len()
                == 0),
            r matches Ok(o) ==> (o matches Outcome::Solution(sol) ==> ({
                &&& final(self).bd() == board_of_input(old(self).inp())
                &&& (sol matches Some(s) ==> moves_ok(s@, n_of(old(self).inp())) && gf2::ascending(
                    s@,
                ) && solves(board_of_input(old(self).inp()), s@))
                &&& ((sol is None) <==> (n_of(old(self).inp()) == 0 || (forall|e: Seq<usize>|
                    #[trigger] moves_ok(e, n_of(old(self).inp())) ==> !solves(
                        board_of_input(old(self).inp()),
                        e,
                    ))))
            })),
            r matches Ok(o) ==> (o is Simulation ==> final(self).bd() == apply_moves(
                board_of_input(old(self).inp()),
                cell_steps(old(self).inp()),
            )),
    {
        let cols = self.input.cols;
        let rows = self.input.rows;
        let n = cols * rows;

        let d = dedup_values(&self.input.lights);
        if d.len() > n {
            return Err(InputError::TooManyLights);
        }
        let mut vi: usize = 0;
        while vi < self.input.lights.len()
            invariant
                vi <= self.input.lights@.len(),
                n as int == n_of(self.inp()),
                forall|k: int|
                    0 <= k < vi ==> (#[trigger] self.input.lights@[k]) != 0
                        && (self.input.lights@[k] as int) <= n as int,
            decreases self.input.lights@.len() - vi,
        {
            let v = self.input.lights[vi];
            if v == 0 || v > n {
                return Err(InputError::IndexOutOfRange);
            }
            vi = vi + 1;
        }
        let mut si: usize = 0;
        while si < self.input.simulation_steps.len()
            invariant
                si <= self.input.simulation_steps@.len(),
                n as int == n_of(self.inp()),
                forall|k: int|
                    0 <= k < si ==> (#[trigger] self.input.simulation_steps@[k]) != 0 && (
                    self.input.simulation_steps@[k] as int) <= n as int,
            decreases self.input.simulation_steps@.len() - si,
        {
            let v = self.input.simulation_steps[si];
            if v == 0 || v > n {
                return Err(InputError::IndexOutOfRange);
            }
            si = si + 1;
        }

        let ghost inp = self.inp();
        proof {
            assert forall|k: int|
                0 <= k < d@.len() implies 1 <= (#[trigger] d@[k]) && (d@[k] as int)
                <= n as int by {
                assert(d@.contains(d@[k]));
                let k2 = choose|k2: int|
                    0 <= k2 < inp.lights@.len() && inp.lights@[k2] == d@[k];
            }
        }
        let mut pos: Vec<usize> = Vec::new();
        let mut di: usize = 0;
        while di < d.len()
            invariant
                di <= d@.len(),
                n as int == n_of(inp),
                inp == self.inp(),
                forall|x: usize| d@.contains(x) <==> inp.lights@.contains(x),
                forall|k: int|
                    0 <= k < d@.len() ==> 1 <= (#[trigger] d@[k]) && (d@[k] as int) <= n as int,
                pos@.len() == di as int,
                forall|k: int| 0 <= k < di ==> (#[trigger] pos@[k] as int) == d@[k] - 1,
            decreases d@.len() - di,
        {
            let v = d[di];
            pos.push(v - 1);
            di = di + 1;
        }
        Self::rotate_light_indices(&mut pos, cols, rows, self.input.origin_location);
        self.board = Binary::new_from_positions(&pos, cols, rows);
        proof {
            let bexp = board_of_input(inp);
            assert forall|i: int|
                0 <= i < self.board.bd().cells.len() implies self.board.bd().cells[i]
                == bexp.cells[i] by {
                if self.board.bd().cells[i] {
                    assert(pos@.contains(i as usize));
                    let t = choose|t: int| 0 <= t < pos@.len() && pos@[t] == i as usize;
                    assert(d@.contains(d@[t]));
                    assert(inp.lights@.contains(d@[t]));
                    let k = choose|k: int|
                        0 <= k < inp.lights@.len() && inp.lights@[k] == d@[t];
                    assert(display_to_cell(inp.origin_location, inp.cols, inp.rows, inp.lights@[k])
                        == i);
                }
                if bexp.cells[i] {
                    let k = choose|k: int|
                        0 <= k < inp.lights@.len() && display_to_cell(
                            inp.origin_location,
                            inp.cols,
                            inp.rows,
                            inp.lights@[k],
                        ) == i;
                    assert(inp.lights@.contains(inp.lights@[k]));
                    assert(d@.contains(inp.lights@[k]));
                    let t = choose|t: int| 0 <= t < d@.len() && d@[t] == inp.lights@[k];
                    assert((pos@[t] as int) == i);
                    assert(pos@.contains(i as usize));
                }
            }
            assert(self.board.bd() =~= bexp);
        }

        if self.input.simulation_steps.is_empty() {
            let solution = self.run_solver();
            proof {
                assert(area(self.bd()) as int == n_of(inp));
            }
            Ok(Outcome::Solution(solution))
        } else {
            self.run_simulation();
            Ok(Outcome::Simulation)
        }
    }

    /// Solves the current board with the linear solver.
    fn run_solver(&self) -> (r: Option<Vec<usize>>)
        requires
            self.wf(),
        ensures
            r matches Some(s) ==> moves_ok(s@, area(self.bd()) as int) && gf2::ascending(s@)
                && solves(self.bd(), s@),
            (r is None) <==> (area(self.bd()) == 0 || (forall|e: Seq<usize>|
                #[trigger] moves_ok(e, area(self.bd()) as int) ==> !solves(self.bd(), e))),
    {
        gf2::solve(&self.board)
    }

    /// Replays the sanitised simulation steps on the board, in order.
    #[verifier::loop_isolation(false)]
    fn run_simulation(&mut self)
        requires
            old(self).wf(),
            n_of(old(self).inp()) <= usize::MAX,
            old(self).bd().cols == old(self).inp().cols as nat,
            old(self).bd().rows == old(self).inp().rows as nat,
            !steps_oob(old(self).inp()),
        ensures
            final(self).wf(),
            final(self).inp() == old(self).inp(),
            final(self).bd() == apply_moves(old(self).bd(), cell_steps(old(self).inp())),
    {
        let ghost inp = self.inp();
        let cols = self.input.cols;
        let rows = self.input.rows;
        let mut steps: Vec<usize> = Vec::new();
        let mut si: usize = 0;
        while si < self.input.simulation_steps.len()
            invariant
                inp == self.inp(),
                self.wf(),
                self.bd() == old(self).bd(),
                !steps_oob(inp),
                si <= inp.simulation_steps@.len(),
                steps@.len() == si as int,
                forall|k: int|
                    0 <= k < si ==> (#[trigger] steps@[k] as int) == inp.simulation_steps@[k]
                        - 1,
            decreases inp.simulation_steps@.len() - si,
        {
            let v = self.input.simulation_steps[si];
            proof {
                if v == 0 {
                    assert((inp.simulation_steps@[si as int]) == 0);
                    assert(steps_oob(inp));
                }
            }
            steps.push(v - 1);
            si = si + 1;
        }
        proof {
            assert forall|k: int|
                0 <= k < steps@.len() implies (#[trigger] steps@[k] as int) < (cols as int) * (
            rows as int) by {
                assert((inp.simulation_steps@[k] as int) <= n_of(inp));
            }
        }
        Self::rotate_light_indices(&mut steps, cols, rows, self.input.origin_location);
        proof {
            assert(steps@ =~= cell_steps(inp));
        }
        let ghost base = self.bd();
        let mut k: usize = 0;
        while k < steps.len()
            invariant
                inp == self.inp(),
                self.wf(),
                base.cols == cols as nat,
                k <= steps@.len(),
                forall|t: int|
                    0 <= t < steps@.len() ==> (#[trigger] steps@[t] as int) < (cols as int) * (
                    rows as int),
                self.bd() == apply_moves(base, steps@.subrange(0, k as int)),
            decreases steps@.len() - k,
        {
            proof {
                crate::model::lemma_apply_moves_dims(base, steps@.subrange(0, k as int));
                assert((steps@[k as int] as int) < (cols as int) * (rows as int));
                lemma_pos_dims(cols, rows);
            }
            let mv = steps[k];
            let ghost pre = steps@.subrange(0, k as int);
            self.board.trigger_index(mv);
            proof {
                assert(steps@.subrange(0, k as int + 1) =~= pre.push(steps@[k as int]));
                crate::model::lemma_apply_moves_snoc(base, pre, steps@[k as int]);
            }
            k = k + 1;
        }
        proof {
            assert(steps@.subrange(0, steps@.len() as int) =~= steps@);
        }
    }

    /// One glyph per cell, row-major: `#` for a lit cell, a middle dot for
    /// an unlit one.
    #[verifier::loop_isolation(false)]
    pub fn map_board(board: &Binary) -> (r: Vec<String>)
        requires
            board.inv(),
        ensures
            r@.len() == board.bd().cells.len(),
            forall|i: int|
                0 <= i < r@.len() ==> (#[trigger] r@[i]@) == cell_glyph(board.bd().cells[i]),
    {
        let cells = board.cells();
        let mut r: Vec<String> = Vec::new();
        let mut i: usize = 0;
        proof {
            reveal_strlit("#");
            reveal_strlit("\u{b7}");
        }
        while i < cells.len()
            invariant
                cells@.len() == board.bd().cells.len(),
                forall|j: int|
                    0 <= j < cells@.len() ==> cells@[j] == (if board.bd().cells[j] {
                        1usize
                    } else {
                        0usize
                    }),
                i <= cells@.len(),
                r@.len() == i as int,
                forall|j: int|
                    0 <= j < i ==> (#[trigger] r@[j]@) == cell_glyph(board.bd().cells[j]),
            decreases cells@.len() - i,
        {
            if cells[i] == 1 {
                let g = String::from_str("#");
                proof {
                    assert(g@ =~= seq!['#']);
                }
                r.push(g);
            } else {
                let g = String::from_str("\u{b7}");
                proof {
                    assert(g@ =~= seq!['\u{b7}']);
                }
                r.push(g);
            }
            i = i + 1;
        }
        r
    }

    /// Lays the given glyphs out line by line, breaking before each row of
    /// the program's board width.
    #[verifier::loop_isolation(false)]
    pub fn board_to_str(&self, board_as_char: &Vec<String>) -> (r: String)
        requires
            self.wf(),
            board_as_char@.len() > 0 ==> self.bd().cols > 0,
        ensures
            r@ == joined(
                board_as_char@.map_values(|s: String| s@),
                self.bd().cols as int,
                board_as_char@.len() as int,
            ),
    {
        let cols = self.board.cols();
        let ghost items = board_as_char@.map_values(|s: String| s@);
        let mut out = String::new();
        let mut i: usize = 0;
        proof {
            reveal_strlit("\n");
        }
        while i < board_as_char.len()
            invariant
                self.wf(),
                items == board_as_char@.map_values(|s: String| s@),
                cols == self.bd().cols,
                board_as_char@.len() > 0 ==> cols > 0,
                i <= board_as_char@.len(),
                out@ == joined(items, cols as int, i as int),
            decreases board_as_char@.len() - i,
        {
            let ghost before = out@;
            if i % cols == 0 {
                out.append("\n");
                proof {
                    assert(out@ =~= before + seq!['\n']);
                }
            } else {
                proof {
                    assert(before + Seq::<char>::empty() =~= before);
                }
            }
            let ghost mid = out@;
            out.append(board_as_char[i].as_str());
            proof {
                assert(out@ == mid + items[i as int]);
                assert(out@ == joined(items, cols as int, i as int + 1));
            }
            i = i + 1;
        }
        out
    }

    /// The board drawn as text: one line per row, `#` for lit cells.
    pub fn prettify_board(&self, board: &Binary) -> (r: String)
        requires
            self.wf(),
            board.inv(),
            board.bd().cells.len() > 0 ==> self.bd().cols > 0,
        ensures
            r@ == joined(
                board.bd().cells.map_values(|on: bool| cell_glyph(on)),
                self.bd().cols as int,
                board.bd().cells.len() as int,
            ),
    {
        let mapped_board = Self::map_board(board);
        let r = self.board_to_str(&mapped_board);
        proof {
            assert(mapped_board@.map_values(|s: String| s@) =~= board.bd().cells.map_values(
                |on: bool| cell_glyph(on),
            ));
        }
        r
    }
}

} // verus!
