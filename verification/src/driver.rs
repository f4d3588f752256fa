//! The window driver: which part of the two sequences to align next, and
//! when the alignment is complete.
//!
//! The driver is a state machine. Its state is the number of windows
//! confirmed so far and the offset of the next window in each sequence. The
//! caller aligns the window that the state names and hands the window's
//! path back; the driver answers with the next state, or says that one of
//! the sequences has been used up.

use vstd::prelude::*;
use crate::route::{is_monotone_path, is_step, lemma_monotone_path_order, path_view, point_view};
use crate::align::{alignment_path, reconstructed, window_costs, AlignError};
use crate::matrix::{all_within, cost_view, has_shape, min2, score_view, width, ONE};
use crate::search::{in_grid, is_route, is_source, search_path};

verus! {

/// Where the driver stands: the number of windows confirmed so far and the
/// offset of the next window in each sequence.
#[derive(Clone, Copy, Debug, PartialEq, Eq, Structural)]
pub struct DriverState {
    pub iteration: usize,
    pub left_start: usize,
    pub right_start: usize,
}

/// The part of the two sequences that one search runs on.
#[derive(Clone, Copy, Debug, PartialEq, Eq, Structural)]
pub struct Window {
    pub left_start: usize,
    pub left_len: usize,
    pub right_start: usize,
    pub right_len: usize,
    pub flexible_start: bool,
}

/// What the driver decides once a window has been aligned.
#[derive(Clone, Copy, Debug, PartialEq, Eq, Structural)]
pub enum Step {
    /// The path has reached the end of one of the sequences.
    Done,
    /// The alignment goes on with the window of this state.
    Next(DriverState),
}

/// How many units a window holds that starts at `start` in a sequence of
/// `len` units: `window_size`, or what is left of the sequence if that is
/// less.
pub open spec fn window_len(start: int, len: int, window_size: int) -> int {
    if start >= len {
        0
    } else if len - start < window_size {
        len - start
    } else {
        window_size
    }
}

/// The state before the first window.
pub open spec fn initial_state() -> DriverState {
    DriverState { iteration: 0, left_start: 0, right_start: 0 }
}

/// The last point of a window's path is the last unit of the left or of the
/// right sequence.
pub open spec fn reaches_end(
    state: DriverState,
    last: (usize, usize),
    left_len: int,
    right_len: int,
) -> bool {
    state.left_start + last.0 + 1 == left_len || state.right_start + last.1 + 1 == right_len
}

/// The point in the middle of a path: the one at half the path's length,
/// rounded down.
pub open spec fn midpoint(path: Seq<(usize, usize)>) -> (usize, usize) {
    path[path.len() as int / 2]
}

/// The state after a window whose path did not reach an end: one more
/// iteration, and both offsets moved on to the middle of the path.
pub open spec fn next_state(state: DriverState, path: Seq<(usize, usize)>) -> DriverState {
    DriverState {
        iteration: (state.iteration + 1) as usize,
        left_start: (state.left_start + midpoint(path).0) as usize,
        right_start: (state.right_start + midpoint(path).1) as usize,
    }
}

impl DriverState {
    /// The state before the first window: nothing confirmed, both offsets at
    /// the start of their sequence.
    pub fn new() -> (state: DriverState)
        ensures
            state == initial_state(),
    {
        DriverState { iteration: 0, left_start: 0, right_start: 0 }
    }

    /// Only the first window may begin anywhere along its boundary; every
    /// later one continues from a confirmed point.
    pub fn flexible_start(&self) -> (flexible: bool)
        ensures
            flexible == (self.iteration == 0),
    {
        self.iteration == 0
    }

    /// The window to align in this state: up to `window_size` units of each
    /// sequence from the state's offsets on.
    pub fn window(&self, left_len: usize, right_len: usize, window_size: usize) -> (w: Window)
        ensures
            w.left_start == self.left_start,
            w.right_start == self.right_start,
            w.left_len == window_len(
                self.left_start as int,
                left_len as int,
                window_size as int,
            ),
            w.right_len == window_len(
                self.right_start as int,
                right_len as int,
                window_size as int,
            ),
            w.flexible_start == (self.iteration == 0),
    {
        Window {
            left_start: self.left_start,
            left_len: units_from(self.left_start, left_len, window_size),
            right_start: self.right_start,
            right_len: units_from(self.right_start, right_len, window_size),
            flexible_start: self.iteration == 0,
        }
    }

    /// Decides how the alignment goes on after the window of this state gave
    /// `path`, in the window's own coordinates.
    ///
    /// If the last point of the path is the last unit of either sequence,
    /// the alignment is complete. Otherwise the first half of the path is
    /// confirmed, and the next window starts at the path's midpoint.
    pub fn advance(&self, path: &Vec<(usize, usize)>, left_len: usize, right_len: usize) -> (step:
        Step)
        requires
            self.can_advance(path@, left_len as int, right_len as int),
        ensures
            step == if reaches_end(*self, path@.last(), left_len as int, right_len as int) {
                Step::Done
            } else {
                Step::Next(next_state(*self, path@))
            },
    {
        let last = path[path.len() - 1];
        if ends_at(self.left_start, last.0, left_len) || ends_at(
            self.right_start,
            last.1,
            right_len,
        ) {
            return Step::Done;
        }
        let mid = path[path.len() / 2];
        Step::Next(
            DriverState {
                iteration: self.iteration + 1,
                left_start: self.left_start + mid.0,
                right_start: self.right_start + mid.1,
            },
        )
    }

    /// Whether `advance` can be asked about `path` in this state: the path
    /// is not empty, and if it does not reach an end, the next state's
    /// numbers do not exceed `usize`.
    pub open spec fn can_advance(
        self,
        path: Seq<(usize, usize)>,
        left_len: int,
        right_len: int,
    ) -> bool {
        &&& path.len() > 0
        &&& !reaches_end(self, path.last(), left_len, right_len) ==> {
            &&& self.iteration < usize::MAX
            &&& self.left_start + midpoint(path).0 <= usize::MAX
            &&& self.right_start + midpoint(path).1 <= usize::MAX
        }
    }

    /// Decides as `advance` does, for any path: there is no decision where
    /// the path is empty or the next state's numbers would exceed `usize`.
    pub fn checked_advance(
        &self,
        path: &Vec<(usize, usize)>,
        left_len: usize,
        right_len: usize,
    ) -> (step: Option<Step>)
        ensures
            step is Some <==> self.can_advance(path@, left_len as int, right_len as int),
            step matches Some(s) ==> s == if reaches_end(
                *self,
                path@.last(),
                left_len as int,
                right_len as int,
            ) {
                Step::Done
            } else {
                Step::Next(next_state(*self, path@))
            },
    {
        if path.len() == 0 {
            return None;
        }
        let last = path[path.len() - 1];
        let ends = ends_at(self.left_start, last.0, left_len) || ends_at(
            self.right_start,
            last.1,
            right_len,
        );
        let mid = path[path.len() / 2];
        if !ends && (self.iteration == usize::MAX || mid.0 > usize::MAX - self.left_start || mid.1
            > usize::MAX - self.right_start) {
            return None;
        }
        Some(self.advance(path, left_len, right_len))
    }
}

/// The number of units from `start` on, at most `window_size`.
fn units_from(start: usize, len: usize, window_size: usize) -> (n: usize)
    ensures
        n == window_len(start as int, len as int, window_size as int),
{
    if start >= len {
        0
    } else if len - start < window_size {
        len - start
    } else {
        window_size
    }
}

/// Whether the unit at `index` of a window that starts at `start` is the
/// last of a sequence of `len` units.
fn ends_at(start: usize, index: usize, len: usize) -> (ends: bool)
    ensures
        ends == (start + index + 1 == len),
{
    index < len && start == len - 1 - index
}

/// A path that a search can have found in a window of `cols` columns and
/// `rows` rows: a monotone path inside the window from a source to a cell
/// on the last row or column.
pub open spec fn is_window_path(
    path: Seq<(usize, usize)>,
    cols: int,
    rows: int,
    flexible: bool,
) -> bool {
    &&& path.len() > 0
    &&& forall|i: int| 0 <= i < path.len() ==> (#[trigger] path[i]).0 < cols && path[i].1 < rows
    &&& is_monotone_path(path_view(path))
    &&& is_source(point_view(path[0]), flexible)
    &&& (path.last().0 == cols - 1 || path.last().1 == rows - 1)
}

/// Whether a path is one that a search can have found in the window: a
/// monotone path inside the window from a source to a cell on the last row
/// or column.
pub fn is_valid_window_path(path: &Vec<(usize, usize)>, window: &Window) -> (valid: bool)
    ensures
        valid == is_window_path(
            path@,
            window.left_len as int,
            window.right_len as int,
            window.flexible_start,
        ),
{
    let cols = window.left_len;
    let rows = window.right_len;
    let n = path.len();
    if n == 0 {
        return false;
    }
    let first = path[0];
    let source = if window.flexible_start {
        first.0 == 0 || first.1 == 0
    } else {
        first.0 == 0 && first.1 == 0
    };
    if !source || first.0 >= cols || first.1 >= rows {
        return false;
    }
    let ghost wide = path_view(path@);
    let mut i: usize = 1;
    while i < n
        invariant
            n == path.len(),
            cols == window.left_len,
            rows == window.right_len,
            wide == path_view(path@),
            1 <= i <= n,
            forall|j: int| 0 <= j < i ==> (#[trigger] path[j]).0 < cols && path[j].1 < rows,
            forall|j: int| 0 <= j < i - 1 ==> is_step(#[trigger] wide[j], wide[j + 1]),
        decreases n - i,
    {
        let a = path[i - 1];
        let b = path[i];
        let same_left = b.0 == a.0;
        let same_right = b.1 == a.1;
        let next_left = b.0 > a.0 && b.0 - a.0 == 1;
        let next_right = b.1 > a.1 && b.1 - a.1 == 1;
        let step = (next_left && same_right) || (same_left && next_right) || (next_left
            && next_right);
        proof {
            assert(wide[i - 1] == point_view(a));
            assert(wide[i as int] == point_view(b));
            assert(step == is_step(wide[i - 1], wide[i - 1 + 1]));
        }
        if !step || b.0 >= cols || b.1 >= rows {
            proof {
                if !step {
                    assert(!is_step(wide[i - 1], wide[i - 1 + 1]));
                    assert(!is_monotone_path(wide));
                } else {
                    assert(!(path@[i as int].0 < cols && path@[i as int].1 < rows));
                }
            }
            return false;
        }
        i += 1;
    }
    let last = path[n - 1];
    last.0 + 1 == cols || last.1 + 1 == rows
}

/// What the search returns for the costs of a window is a path of that
/// window.
pub proof fn lemma_route_is_window_path(
    g: Seq<Seq<int>>,
    path: Seq<(usize, usize)>,
    flexible: bool,
)
    requires
        g.len() > 0,
        is_route(g, path_view(path), flexible),
    ensures
        is_window_path(path, width(g), g.len() as int, flexible),
{
    let wide = path_view(path);
    assert forall|i: int| 0 <= i < path.len() implies (#[trigger] path[i]).0 < width(g)
        && path[i].1 < g.len() by {
        assert(in_grid(g, wide[i]));
    }
    assert(wide[0] == point_view(path[0]));
    assert(wide.last() == point_view(path.last()));
}

/// What aligning one window gives: the window's path in its own
/// coordinates, the costs that the search ran on, and how the driver goes
/// on.
#[derive(Debug, PartialEq, Eq)]
pub struct Aligned {
    pub path: Vec<(usize, usize)>,
    pub costs: Vec<Vec<u32>>,
    pub step: Step,
}

/// Aligns the window of `state` and decides how the driver goes on.
/// `joined` holds the similarities of the window's left units followed by
/// its right units among themselves.
pub fn align_window(
    state: &DriverState,
    joined: &Vec<Vec<i32>>,
    left_len: usize,
    right_len: usize,
    window_size: usize,
) -> (aligned: Result<Aligned, AlignError>)
    requires
        window_size > 0,
        state.left_start < left_len,
        state.right_start < right_len,
        state.iteration < usize::MAX,
    ensures
        match aligned {
            Ok(a) => {
                let cols = window_len(state.left_start as int, left_len as int, window_size as int);
                let rows = window_len(
                    state.right_start as int,
                    right_len as int,
                    window_size as int,
                );
                &&& has_shape(score_view(joined@), cols + rows, cols + rows)
                &&& all_within(
                    reconstructed(score_view(joined@), cols),
                    -(ONE as int),
                    ONE as int,
                )
                &&& cost_view(a.costs@) == window_costs(score_view(joined@), cols)
                &&& path_view(a.path@) == search_path(cost_view(a.costs@), state.iteration == 0)
                &&& is_window_path(a.path@, cols, rows, state.iteration == 0)
                &&& a.step == if reaches_end(
                    *state,
                    a.path@.last(),
                    left_len as int,
                    right_len as int,
                ) {
                    Step::Done
                } else {
                    Step::Next(next_state(*state, a.path@))
                }
            },
            Err(AlignError::DimensionMismatch) => {
                let cols = window_len(state.left_start as int, left_len as int, window_size as int);
                let rows = window_len(
                    state.right_start as int,
                    right_len as int,
                    window_size as int,
                );
                !has_shape(score_view(joined@), cols + rows, cols + rows)
            },
            Err(AlignError::ScoreOutOfRange) => {
                let cols = window_len(state.left_start as int, left_len as int, window_size as int);
                let rows = window_len(
                    state.right_start as int,
                    right_len as int,
                    window_size as int,
                );
                &&& has_shape(score_view(joined@), cols + rows, cols + rows)
                &&& !all_within(
                    reconstructed(score_view(joined@), cols),
                    -(ONE as int),
                    ONE as int,
                )
            },
        },
{
    let window = state.window(left_len, right_len, window_size);
    match alignment_path(joined, window.left_len, window.right_len, window.flexible_start) {
        Err(e) => Err(e),
        Ok((path, costs)) => {
            proof {
                let g = cost_view(costs@);
                lemma_route_is_window_path(g, path@, window.flexible_start);
                assert(width(g) == window.left_len);
                let mid = path@.len() as int / 2;
                assert(path@[mid].0 < window.left_len && path@[mid].1 < window.right_len);
            }
            let step = state.advance(&path, left_len, right_len);
            Ok(Aligned { path, costs, step })
        },
    }
}

/// The states of a driver from the first one on, with the path that each
/// state's window gave but for the last state: every path fits its window,
/// does not reach an end, and leads to the next state.
pub open spec fn is_run(
    states: Seq<DriverState>,
    paths: Seq<Seq<(usize, usize)>>,
    left_len: int,
    right_len: int,
    window_size: int,
) -> bool {
    &&& states.len() == paths.len() + 1
    &&& states[0] == initial_state()
    &&& forall|i: int|
        0 <= i < paths.len() ==> {
            &&& is_window_path(
                #[trigger] paths[i],
                window_len(states[i].left_start as int, left_len, window_size),
                window_len(states[i].right_start as int, right_len, window_size),
                states[i].iteration == 0,
            )
            &&& !reaches_end(states[i], paths[i].last(), left_len, right_len)
            &&& states[i + 1] == next_state(states[i], paths[i])
        }
}

/// One step of the driver. From a state inside both sequences, a path that
/// fits the state's window and does not reach an end leads to a state that
/// is inside both sequences again. Neither offset moves back, and together
/// they move on by at least one unit, after the first window by at least
/// half the window size.
pub proof fn lemma_step_progress(
    state: DriverState,
    path: Seq<(usize, usize)>,
    left_len: int,
    right_len: int,
    window_size: int,
)
    requires
        window_size >= 2,
        state.left_start < left_len <= usize::MAX,
        state.right_start < right_len <= usize::MAX,
        state.iteration < usize::MAX,
        is_window_path(
            path,
            window_len(state.left_start as int, left_len, window_size),
            window_len(state.right_start as int, right_len, window_size),
            state.iteration == 0,
        ),
        !reaches_end(state, path.last(), left_len, right_len),
    ensures
        next_state(state, path).iteration == state.iteration + 1,
        next_state(state, path).left_start == state.left_start + midpoint(path).0,
        next_state(state, path).right_start == state.right_start + midpoint(path).1,
        next_state(state, path).left_start < left_len,
        next_state(state, path).right_start < right_len,
        midpoint(path).0 + midpoint(path).1 >= 1,
        state.iteration > 0 ==> midpoint(path).0 + midpoint(path).1 >= window_size / 2,
{
    let cols = window_len(state.left_start as int, left_len, window_size);
    let rows = window_len(state.right_start as int, right_len, window_size);
    let p = path_view(path);
    let n = path.len() as int;
    let mid = n / 2;
    let last = path.last();
    assert(p[0] == point_view(path[0]));
    assert(p[mid] == point_view(path[mid]));
    assert(p[n - 1] == point_view(path[n - 1]));
    lemma_monotone_path_order(p, 0, mid);
    lemma_monotone_path_order(p, mid, n - 1);
    lemma_monotone_path_order(p, 0, n - 1);
    assert(path[mid].0 < cols && path[mid].1 < rows);
    assert(path[n - 1].0 < cols && path[n - 1].1 < rows);
    if last.0 == cols - 1 {
        assert(cols == window_size);
    } else {
        assert(rows == window_size);
    }
}

/// The driver comes to an end. In a run over two sequences that are not
/// empty, with a window of at least two units, the offsets have moved on by
/// at least one unit after the first window and by at least half the window
/// size after each later one, and they stay inside the sequences. So a run
/// of `n` paths, none of which reaches an end, has
/// `1 + (n - 1) * (window_size / 2) <= left_len + right_len - 2`.
pub proof fn lemma_run_is_bounded(
    states: Seq<DriverState>,
    paths: Seq<Seq<(usize, usize)>>,
    left_len: int,
    right_len: int,
    window_size: int,
)
    requires
        window_size >= 2,
        0 < left_len <= usize::MAX,
        0 < right_len <= usize::MAX,
        paths.len() < usize::MAX,
        is_run(states, paths, left_len, right_len, window_size),
    ensures
        states.last().iteration == paths.len(),
        states.last().left_start < left_len,
        states.last().right_start < right_len,
        paths.len() >= 1 ==> 1 + (paths.len() - 1) * (window_size / 2) <= left_len + right_len
            - 2,
{
    lemma_offsets_sum(states, paths, left_len, right_len, window_size);
}

/// In a run the two offsets of the last state together are at least one
/// after the first window and grow by at least half the window size with
/// each later window.
pub proof fn lemma_offsets_sum(
    states: Seq<DriverState>,
    paths: Seq<Seq<(usize, usize)>>,
    left_len: int,
    right_len: int,
    window_size: int,
)
    requires
        window_size >= 2,
        0 < left_len <= usize::MAX,
        0 < right_len <= usize::MAX,
        paths.len() < usize::MAX,
        is_run(states, paths, left_len, right_len, window_size),
    ensures
        states.last().iteration == paths.len(),
        states.last().left_start < left_len,
        states.last().right_start < right_len,
        paths.len() >= 1 ==> states.last().left_start + states.last().right_start >= 1 + (
        paths.len() - 1) * (window_size / 2),
    decreases paths.len(),
{
    let n = paths.len() as int;
    let half = window_size / 2;
    if n > 0 {
        let shorter_states = states.drop_last();
        let shorter_paths = paths.drop_last();
        assert forall|i: int| 0 <= i < shorter_paths.len() implies {
            &&& is_window_path(
                #[trigger] shorter_paths[i],
                window_len(shorter_states[i].left_start as int, left_len, window_size),
                window_len(shorter_states[i].right_start as int, right_len, window_size),
                shorter_states[i].iteration == 0,
            )
            &&& !reaches_end(shorter_states[i], shorter_paths[i].last(), left_len, right_len)
            &&& shorter_states[i + 1] == next_state(shorter_states[i], shorter_paths[i])
        } by {
            assert(shorter_paths[i] == paths[i]);
        }
        lemma_offsets_sum(shorter_states, shorter_paths, left_len, right_len, window_size);
        let before = states[n - 1];
        assert(before == shorter_states.last());
        let path = paths[n - 1];
        assert(states[n - 1 + 1] == next_state(before, path));
        lemma_step_progress(before, path, left_len, right_len, window_size);
        let after = states.last();
        assert(after == states[n]);
        assert(after.left_start + after.right_start == before.left_start + before.right_start
            + midpoint(path).0 + midpoint(path).1);
        if n >= 2 {
            assert((n - 1) * half == (n - 2) * half + half) by (nonlinear_arith);
            assert(shorter_paths.len() == n - 1);
            assert(before.left_start + before.right_start >= 1 + (n - 2) * half);
        } else {
            assert((n - 1) * half == 0) by (nonlinear_arith)
                requires
                    n == 1,
            ;
        }
    }
}

/// `a` divided by `b`, rounded up.
pub open spec fn ceil_div(a: int, b: int) -> int {
    (a + b - 1) / b
}

/// Every path of the run has its midpoint at least half a window size on in
/// both sequences.
pub open spec fn advances_diagonally(paths: Seq<Seq<(usize, usize)>>, window_size: int) -> bool {
    forall|i: int|
        0 <= i < paths.len() ==> midpoint(#[trigger] paths[i]).0 >= window_size / 2 && midpoint(
            paths[i],
        ).1 >= window_size / 2
}

/// In a run whose paths all advance diagonally, each offset of the last
/// state is at least half the window size for each path of the run.
pub proof fn lemma_diagonal_offsets(
    states: Seq<DriverState>,
    paths: Seq<Seq<(usize, usize)>>,
    left_len: int,
    right_len: int,
    window_size: int,
)
    requires
        window_size >= 2,
        0 < left_len <= usize::MAX,
        0 < right_len <= usize::MAX,
        paths.len() < usize::MAX,
        is_run(states, paths, left_len, right_len, window_size),
        advances_diagonally(paths, window_size),
    ensures
        states.last().left_start >= paths.len() * (window_size / 2),
        states.last().right_start >= paths.len() * (window_size / 2),
    decreases paths.len(),
{
    let n = paths.len() as int;
    let half = window_size / 2;
    if n == 0 {
        assert(n * half == 0) by (nonlinear_arith)
            requires
                n == 0,
        ;
    } else {
        let shorter_states = states.drop_last();
        let shorter_paths = paths.drop_last();
        assert forall|i: int| 0 <= i < shorter_paths.len() implies {
            &&& is_window_path(
                #[trigger] shorter_paths[i],
                window_len(shorter_states[i].left_start as int, left_len, window_size),
                window_len(shorter_states[i].right_start as int, right_len, window_size),
                shorter_states[i].iteration == 0,
            )
            &&& !reaches_end(shorter_states[i], shorter_paths[i].last(), left_len, right_len)
            &&& shorter_states[i + 1] == next_state(shorter_states[i], shorter_paths[i])
        } by {
            assert(shorter_paths[i] == paths[i]);
        }
        assert forall|i: int| 0 <= i < shorter_paths.len() implies midpoint(
            #[trigger] shorter_paths[i],
        ).0 >= half && midpoint(shorter_paths[i]).1 >= half by {
            assert(shorter_paths[i] == paths[i]);
        }
        lemma_diagonal_offsets(shorter_states, shorter_paths, left_len, right_len, window_size);
        lemma_offsets_sum(shorter_states, shorter_paths, left_len, right_len, window_size);
        let before = states[n - 1];
        assert(before == shorter_states.last());
        let path = paths[n - 1];
        assert(states[n - 1 + 1] == next_state(before, path));
        lemma_step_progress(before, path, left_len, right_len, window_size);
        assert(states.last() == states[n]);
        assert(n * half == (n - 1) * half + half) by (nonlinear_arith);
    }
}

/// The driver comes to an end within the number of windows that the shorter
/// sequence holds halves of a window. In a run whose paths all advance
/// diagonally, the paths that do not reach an end and the one window after
/// them are together at most the length of the shorter sequence divided by
/// half the window size, rounded up.
pub proof fn lemma_diagonal_run_is_bounded(
    states: Seq<DriverState>,
    paths: Seq<Seq<(usize, usize)>>,
    left_len: int,
    right_len: int,
    window_size: int,
)
    requires
        window_size >= 2,
        0 < left_len <= usize::MAX,
        0 < right_len <= usize::MAX,
        paths.len() < usize::MAX,
        is_run(states, paths, left_len, right_len, window_size),
        advances_diagonally(paths, window_size),
    ensures
        paths.len() + 1 <= ceil_div(min2(left_len, right_len), window_size / 2),
{
    let n = paths.len() as int;
    let half = window_size / 2;
    let shorter = min2(left_len, right_len);
    lemma_diagonal_offsets(states, paths, left_len, right_len, window_size);
    lemma_offsets_sum(states, paths, left_len, right_len, window_size);
    assert(n * half <= shorter - 1);
    assert(n + 1 <= (shorter + half - 1) / half) by (nonlinear_arith)
        requires
            n * half <= shorter - 1,
            half >= 1,
    ;
}

} // verus!
