//! The search for a path of least total cost through a cost grid.
//!
//! The grid is read as a directed acyclic graph. From the cell in column `c`
//! and row `r` edges lead to `(c + 1, r)`, `(c, r + 1)` and `(c + 1, r + 1)`,
//! and entering a cell costs the value that the grid holds there. A path may
//! begin at the origin only, or anywhere on the first row or column, and it
//! ends at the first cell it reaches on the last row or column.
//!
//! Among paths of equal cost the search prefers, cell by cell from the end of
//! the path, the diagonal edge, then the edge from the left neighbour, then
//! the edge from the row above. Among end cells of equal cost it prefers the
//! far corner, then the cells of the last row from right to left, then the
//! cells of the last column from bottom to top.

use vstd::prelude::*;
use crate::matrix::{cost_view, lemma_cost_view, min2, width};
use crate::route::{is_monotone_path, is_step, lemma_monotone_prefix, path_view, point_view};

verus! {

/// The largest cost a cell can hold.
pub const MAX_CELL: u32 = 0xffff_ffff;

/// A grid that the search accepts: at least one row and one column, all rows
/// of one length, and every cost between zero and `MAX_CELL`.
pub open spec fn is_cost_grid(g: Seq<Seq<int>>) -> bool {
    &&& g.len() > 0
    &&& g[0].len() > 0
    &&& forall|r: int| 0 <= r < g.len() ==> (#[trigger] g[r]).len() == g[0].len()
    &&& forall|r: int, c: int|
        0 <= r < g.len() && 0 <= c < g[0].len() ==> 0 <= #[trigger] g[r][c] <= MAX_CELL
}

/// The point lies inside the grid.
pub open spec fn in_grid(g: Seq<Seq<int>>, p: (int, int)) -> bool {
    0 <= p.0 < width(g) && 0 <= p.1 < g.len()
}

/// The cost of entering the cell at point `p`.
pub open spec fn cell(g: Seq<Seq<int>>, p: (int, int)) -> int {
    g[p.1][p.0]
}

/// A path may begin here: at the origin, or with a flexible start anywhere
/// on the first row or the first column.
pub open spec fn is_source(p: (int, int), flexible: bool) -> bool {
    if flexible {
        p.0 == 0 || p.1 == 0
    } else {
        p.0 == 0 && p.1 == 0
    }
}

/// A path ends here: on the last row or the last column.
pub open spec fn is_terminal(g: Seq<Seq<int>>, p: (int, int)) -> bool {
    p.0 == width(g) - 1 || p.1 == g.len() - 1
}

/// A candidate for the search: a monotone path inside the grid from a source
/// to a terminal cell.
pub open spec fn is_route(g: Seq<Seq<int>>, p: Seq<(int, int)>, flexible: bool) -> bool {
    &&& p.len() > 0
    &&& forall|i: int| 0 <= i < p.len() ==> in_grid(g, #[trigger] p[i])
    &&& is_monotone_path(p)
    &&& is_source(p[0], flexible)
    &&& is_terminal(g, p.last())
}

/// The sum of the costs of the cells on a path, the first one included.
pub open spec fn route_cost(g: Seq<Seq<int>>, p: Seq<(int, int)>) -> int
    decreases p.len(),
{
    if p.len() == 0 {
        0
    } else {
        route_cost(g, p.drop_last()) + cell(g, p.last())
    }
}

/// The least cost of a monotone path from a source to the cell `(c, r)`.
pub open spec fn least_cost(g: Seq<Seq<int>>, c: int, r: int, flexible: bool) -> int
    decreases c + r,
{
    if c < 0 || r < 0 {
        0
    } else if is_source((c, r), flexible) {
        g[r][c]
    } else if c == 0 {
        g[r][c] + least_cost(g, c, r - 1, flexible)
    } else if r == 0 {
        g[r][c] + least_cost(g, c - 1, r, flexible)
    } else {
        g[r][c] + min2(
            least_cost(g, c - 1, r - 1, flexible),
            min2(least_cost(g, c - 1, r, flexible), least_cost(g, c, r - 1, flexible)),
        )
    }
}

/// The cell from which a cheapest path enters `(c, r)`: of the cheapest
/// neighbours the diagonal one first, then the left one, then the upper one.
pub open spec fn predecessor(g: Seq<Seq<int>>, c: int, r: int, flexible: bool) -> (int, int) {
    if c == 0 {
        (c, r - 1)
    } else if r == 0 {
        (c - 1, r)
    } else {
        let diagonal = least_cost(g, c - 1, r - 1, flexible);
        let left = least_cost(g, c - 1, r, flexible);
        let upper = least_cost(g, c, r - 1, flexible);
        if diagonal <= left && diagonal <= upper {
            (c - 1, r - 1)
        } else if left <= upper {
            (c - 1, r)
        } else {
            (c, r - 1)
        }
    }
}

/// The cheapest path to `(c, r)` under the preference among equal costs:
/// it follows the predecessors back until it meets a source.
pub open spec fn trace(g: Seq<Seq<int>>, c: int, r: int, flexible: bool) -> Seq<(int, int)>
    decreases c + r,
{
    if c < 0 || r < 0 {
        Seq::empty()
    } else if is_source((c, r), flexible) {
        seq![(c, r)]
    } else {
        let p = predecessor(g, c, r, flexible);
        trace(g, p.0, p.1, flexible).push((c, r))
    }
}

/// The number of terminal cells of a grid.
pub open spec fn terminal_count(g: Seq<Seq<int>>) -> int {
    width(g) + g.len() - 1
}

/// The terminal cells in the order of preference: the last row from the far
/// corner to the left, then the last column from the row above the corner
/// to the top.
pub open spec fn terminal(g: Seq<Seq<int>>, k: int) -> (int, int) {
    if k < width(g) {
        (width(g) - 1 - k, g.len() - 1)
    } else {
        (width(g) - 1, g.len() - 2 - (k - width(g)))
    }
}

/// The least cost of a path that ends at the terminal cell of index `k`.
pub open spec fn terminal_cost(g: Seq<Seq<int>>, k: int, flexible: bool) -> int {
    least_cost(g, terminal(g, k).0, terminal(g, k).1, flexible)
}

/// The index of the first cheapest cell among the first `n` terminal cells.
pub open spec fn best_terminal(g: Seq<Seq<int>>, n: int, flexible: bool) -> int
    decreases n,
{
    if n <= 1 {
        0
    } else {
        let best = best_terminal(g, n - 1, flexible);
        if terminal_cost(g, n - 1, flexible) < terminal_cost(g, best, flexible) {
            n - 1
        } else {
            best
        }
    }
}

/// The index of the first terminal cell of `p` at or after index `i`, or the
/// last index of `p` if there is none.
pub open spec fn first_terminal(g: Seq<Seq<int>>, p: Seq<(int, int)>, i: int) -> int
    decreases p.len() - i,
{
    if i >= p.len() - 1 || is_terminal(g, p[i]) {
        i
    } else {
        first_terminal(g, p, i + 1)
    }
}

/// The cheapest path to the preferred cheapest terminal cell.
pub open spec fn full_trace(g: Seq<Seq<int>>, flexible: bool) -> Seq<(int, int)> {
    let end = terminal(g, best_terminal(g, terminal_count(g), flexible));
    trace(g, end.0, end.1, flexible)
}

/// The path that the search returns: the cheapest path to the preferred
/// cheapest terminal cell, cut after the first terminal cell that it meets.
pub open spec fn search_path(g: Seq<Seq<int>>, flexible: bool) -> Seq<(int, int)> {
    let full = full_trace(g, flexible);
    full.take(first_terminal(g, full, 0) + 1)
}

/// The least cost of reaching a cell is at least zero and at most `MAX_CELL`
/// for each cell of the longest path to it.
pub proof fn lemma_least_cost_bounds(g: Seq<Seq<int>>, c: int, r: int, flexible: bool)
    requires
        is_cost_grid(g),
        in_grid(g, (c, r)),
    ensures
        0 <= least_cost(g, c, r, flexible) <= (c + r + 1) * MAX_CELL,
    decreases c + r,
{
    assert(0 <= g[r][c] <= MAX_CELL);
    if is_source((c, r), flexible) {
    } else if c == 0 {
        lemma_least_cost_bounds(g, c, r - 1, flexible);
    } else if r == 0 {
        lemma_least_cost_bounds(g, c - 1, r, flexible);
    } else {
        lemma_least_cost_bounds(g, c - 1, r - 1, flexible);
        lemma_least_cost_bounds(g, c - 1, r, flexible);
        lemma_least_cost_bounds(g, c, r - 1, flexible);
    }
}

/// The predecessor of a cell that is no source lies inside the grid, one
/// step before the cell, and the cell's least cost is its own cost on top
/// of the predecessor's.
pub proof fn lemma_predecessor(g: Seq<Seq<int>>, c: int, r: int, flexible: bool)
    requires
        is_cost_grid(g),
        in_grid(g, (c, r)),
        !is_source((c, r), flexible),
    ensures
        in_grid(g, predecessor(g, c, r, flexible)),
        is_step(predecessor(g, c, r, flexible), (c, r)),
        least_cost(g, c, r, flexible) == g[r][c] + least_cost(
            g,
            predecessor(g, c, r, flexible).0,
            predecessor(g, c, r, flexible).1,
            flexible,
        ),
{
}

/// The trace to a cell is a monotone path inside the grid that begins at a
/// source, ends at the cell and costs exactly the cell's least cost.
pub proof fn lemma_trace(g: Seq<Seq<int>>, c: int, r: int, flexible: bool)
    requires
        is_cost_grid(g),
        in_grid(g, (c, r)),
    ensures
        trace(g, c, r, flexible).len() > 0,
        trace(g, c, r, flexible).last() == (c, r),
        is_source(trace(g, c, r, flexible)[0], flexible),
        forall|i: int|
            0 <= i < trace(g, c, r, flexible).len() ==> in_grid(
                g,
                #[trigger] trace(g, c, r, flexible)[i],
            ),
        is_monotone_path(trace(g, c, r, flexible)),
        route_cost(g, trace(g, c, r, flexible)) == least_cost(g, c, r, flexible),
    decreases c + r,
{
    let t = trace(g, c, r, flexible);
    if is_source((c, r), flexible) {
        assert(t.drop_last() =~= Seq::<(int, int)>::empty());
        assert(route_cost(g, t.drop_last()) == 0);
    } else {
        lemma_predecessor(g, c, r, flexible);
        let p = predecessor(g, c, r, flexible);
        lemma_trace(g, p.0, p.1, flexible);
        let s = trace(g, p.0, p.1, flexible);
        assert(t == s.push((c, r)));
        assert(t.drop_last() =~= s);
        assert forall|i: int| 0 <= i < t.len() - 1 implies is_step(#[trigger] t[i], t[i + 1]) by {
            if i < s.len() - 1 {
                assert(is_step(s[i], s[i + 1]));
            }
        }
    }
}

/// Cutting a path of non-negative costs short does not make it dearer.
pub proof fn lemma_prefix_cost(g: Seq<Seq<int>>, p: Seq<(int, int)>, n: int)
    requires
        is_cost_grid(g),
        forall|i: int| 0 <= i < p.len() ==> in_grid(g, #[trigger] p[i]),
        0 <= n <= p.len(),
    ensures
        0 <= route_cost(g, p.take(n)) <= route_cost(g, p),
    decreases p.len() - n,
{
    if n == p.len() {
        assert(p.take(n) =~= p);
        lemma_cost_non_negative(g, p);
    } else {
        lemma_prefix_cost(g, p, n + 1);
        let q = p.take(n + 1);
        let short = p.take(n);
        assert(q.drop_last() =~= short);
        assert(in_grid(g, p[n]));
        assert(q.last() == p[n]);
        assert forall|i: int| 0 <= i < short.len() implies in_grid(g, #[trigger] short[i]) by {
            assert(short[i] == p[i]);
        }
        lemma_cost_non_negative(g, short);
        assert(route_cost(g, q) == route_cost(g, short) + cell(g, p[n]));
    }
}

/// A path inside a cost grid costs at least zero.
pub proof fn lemma_cost_non_negative(g: Seq<Seq<int>>, p: Seq<(int, int)>)
    requires
        is_cost_grid(g),
        forall|i: int| 0 <= i < p.len() ==> in_grid(g, #[trigger] p[i]),
    ensures
        0 <= route_cost(g, p),
    decreases p.len(),
{
    if p.len() > 0 {
        let q = p.drop_last();
        assert forall|i: int| 0 <= i < q.len() implies in_grid(g, #[trigger] q[i]) by {
            assert(q[i] == p[i]);
        }
        lemma_cost_non_negative(g, q);
        assert(in_grid(g, p[p.len() - 1]));
    }
}

/// No monotone path from a source to a cell is cheaper than the cell's
/// least cost.
pub proof fn lemma_least_cost_is_lower_bound(g: Seq<Seq<int>>, p: Seq<(int, int)>, flexible: bool)
    requires
        is_cost_grid(g),
        p.len() > 0,
        forall|i: int| 0 <= i < p.len() ==> in_grid(g, #[trigger] p[i]),
        is_monotone_path(p),
        is_source(p[0], flexible),
    ensures
        least_cost(g, p.last().0, p.last().1, flexible) <= route_cost(g, p),
    decreases p.len(),
{
    let last = p.last();
    let q = p.drop_last();
    assert(in_grid(g, p[p.len() - 1]));
    if p.len() == 1 {
        assert(q =~= Seq::<(int, int)>::empty());
        assert(route_cost(g, q) == 0);
        assert(last == p[0]);
    } else {
        assert forall|i: int| 0 <= i < q.len() implies in_grid(g, #[trigger] q[i]) by {
            assert(q[i] == p[i]);
        }
        assert forall|i: int| 0 <= i < q.len() - 1 implies is_step(#[trigger] q[i], q[i + 1]) by {
            assert(is_step(p[i], p[i + 1]));
        }
        assert(q[0] == p[0]);
        lemma_least_cost_is_lower_bound(g, q, flexible);
        let before = q.last();
        assert(before == p[p.len() - 2]);
        assert(is_step(p[p.len() - 2], p[p.len() - 2 + 1]));
        assert(in_grid(g, p[p.len() - 2]));
        lemma_least_cost_bounds(g, before.0, before.1, flexible);
    }
}

/// The preferred cheapest terminal cell among the first `n` is one of them
/// and no dearer than any of them.
pub proof fn lemma_best_terminal(g: Seq<Seq<int>>, n: int, flexible: bool)
    requires
        n >= 1,
    ensures
        0 <= best_terminal(g, n, flexible) < n,
        forall|k: int|
            0 <= k < n ==> terminal_cost(g, best_terminal(g, n, flexible), flexible)
                <= #[trigger] terminal_cost(g, k, flexible),
    decreases n,
{
    if n > 1 {
        lemma_best_terminal(g, n - 1, flexible);
    }
}

/// Each terminal cell of the order of preference lies inside the grid on
/// its last row or column.
pub proof fn lemma_terminal_in_grid(g: Seq<Seq<int>>, k: int)
    requires
        is_cost_grid(g),
        0 <= k < terminal_count(g),
    ensures
        in_grid(g, terminal(g, k)),
        is_terminal(g, terminal(g, k)),
{
}

/// The position of a terminal cell in the order of preference.
pub open spec fn terminal_index(g: Seq<Seq<int>>, p: (int, int)) -> int {
    if p.1 == g.len() - 1 {
        width(g) - 1 - p.0
    } else {
        width(g) + (g.len() - 2 - p.1)
    }
}

/// Every terminal cell inside the grid occurs in the order of preference.
pub proof fn lemma_terminal_index(g: Seq<Seq<int>>, p: (int, int))
    requires
        is_cost_grid(g),
        in_grid(g, p),
        is_terminal(g, p),
    ensures
        0 <= terminal_index(g, p) < terminal_count(g),
        terminal(g, terminal_index(g, p)) == p,
{
}

/// The first terminal cell at or after `i` lies at or after `i`, is
/// terminal if the path's last cell is, and no cell between the two is.
pub proof fn lemma_first_terminal(g: Seq<Seq<int>>, p: Seq<(int, int)>, i: int)
    requires
        0 <= i < p.len(),
        is_terminal(g, p.last()),
    ensures
        i <= first_terminal(g, p, i) < p.len(),
        is_terminal(g, p[first_terminal(g, p, i)]),
        forall|j: int| i <= j < first_terminal(g, p, i) ==> !is_terminal(g, #[trigger] p[j]),
    decreases p.len() - i,
{
    if i >= p.len() - 1 || is_terminal(g, p[i]) {
    } else {
        lemma_first_terminal(g, p, i + 1);
    }
}

/// What the search returns is a route that meets no terminal cell before
/// its end.
pub proof fn lemma_search_path_is_route(g: Seq<Seq<int>>, flexible: bool)
    requires
        is_cost_grid(g),
    ensures
        is_route(g, search_path(g, flexible), flexible),
        forall|i: int|
            0 <= i < search_path(g, flexible).len() - 1 ==> !is_terminal(
                g,
                #[trigger] search_path(g, flexible)[i],
            ),
{
    let n = terminal_count(g);
    lemma_best_terminal(g, n, flexible);
    let k = best_terminal(g, n, flexible);
    lemma_terminal_in_grid(g, k);
    let end = terminal(g, k);
    lemma_trace(g, end.0, end.1, flexible);
    let full = full_trace(g, flexible);
    lemma_first_terminal(g, full, 0);
    let cut = first_terminal(g, full, 0) + 1;
    lemma_monotone_prefix(full, cut);
    let s = search_path(g, flexible);
    assert(s == full.take(cut));
    assert forall|i: int| 0 <= i < s.len() implies in_grid(g, #[trigger] s[i]) by {
        assert(s[i] == full[i]);
    }
    assert forall|i: int| 0 <= i < s.len() - 1 implies !is_terminal(g, #[trigger] s[i]) by {
        assert(s[i] == full[i]);
    }
}

/// No route through the grid is cheaper than what the search returns.
pub proof fn lemma_search_path_is_cheapest(g: Seq<Seq<int>>, flexible: bool, other: Seq<(int, int)>)
    requires
        is_cost_grid(g),
        is_route(g, other, flexible),
    ensures
        route_cost(g, search_path(g, flexible)) <= route_cost(g, other),
{
    let n = terminal_count(g);
    lemma_best_terminal(g, n, flexible);
    let k = best_terminal(g, n, flexible);
    lemma_terminal_in_grid(g, k);
    let end = terminal(g, k);
    lemma_trace(g, end.0, end.1, flexible);
    let full = full_trace(g, flexible);
    lemma_first_terminal(g, full, 0);
    lemma_prefix_cost(g, full, first_terminal(g, full, 0) + 1);
    lemma_least_cost_is_lower_bound(g, other, flexible);
    assert(in_grid(g, other[other.len() - 1]));
    lemma_terminal_index(g, other.last());
    let j = terminal_index(g, other.last());
    assert(terminal_cost(g, k, flexible) <= terminal_cost(g, j, flexible));
}

fn is_source_cell(c: usize, r: usize, flexible: bool) -> (b: bool)
    ensures
        b == is_source((c as int, r as int), flexible),
{
    if flexible {
        c == 0 || r == 0
    } else {
        c == 0 && r == 0
    }
}

fn smaller(a: u128, b: u128) -> (m: u128)
    ensures
        m == min2(a as int, b as int),
{
    if a <= b {
        a
    } else {
        b
    }
}

/// The table of least costs: one entry per cell of the grid, row by row.
spec fn is_cost_table(table: Seq<Vec<u128>>, g: Seq<Seq<int>>, flexible: bool) -> bool {
    &&& table.len() == g.len()
    &&& forall|r: int| 0 <= r < g.len() ==> (#[trigger] table[r])@.len() == width(g)
    &&& forall|r: int, c: int|
        0 <= r < g.len() && 0 <= c < width(g) ==> #[trigger] table[r]@[c] == least_cost(
            g,
            c,
            r,
            flexible,
        )
}

/// Fills the table of least costs from the top row down, each row from the
/// left.
fn least_costs(m: &Vec<Vec<u32>>, flexible: bool) -> (table: Vec<Vec<u128>>)
    requires
        is_cost_grid(cost_view(m@)),
    ensures
        is_cost_table(table@, cost_view(m@), flexible),
{
    let ghost g = cost_view(m@);
    proof {
        lemma_cost_view(m@);
    }
    let rows = m.len();
    let cols = m[0].len();
    let mut table: Vec<Vec<u128>> = Vec::new();
    let mut r: usize = 0;
    while r < rows
        invariant
            g == cost_view(m@),
            is_cost_grid(g),
            rows == m.len(),
            cols == width(g),
            r <= rows,
            table.len() == r,
            forall|i: int| 0 <= i < r ==> (#[trigger] table[i])@.len() == cols,
            forall|i: int, j: int|
                0 <= i < r && 0 <= j < cols ==> #[trigger] table[i]@[j] == least_cost(
                    g,
                    j,
                    i,
                    flexible,
                ),
        decreases rows - r,
    {
        let mut line: Vec<u128> = Vec::new();
        let mut c: usize = 0;
        while c < cols
            invariant
                g == cost_view(m@),
                is_cost_grid(g),
                rows == m.len(),
                cols == width(g),
                r < rows,
                c <= cols,
                table.len() == r,
                line.len() == c,
                forall|i: int| 0 <= i < r ==> (#[trigger] table[i])@.len() == cols,
                forall|i: int, j: int|
                    0 <= i < r && 0 <= j < cols ==> #[trigger] table[i]@[j] == least_cost(
                        g,
                        j,
                        i,
                        flexible,
                    ),
                forall|j: int| 0 <= j < c ==> #[trigger] line[j] == least_cost(g, j, r as int, flexible),
            decreases cols - c,
        {
            proof {
                lemma_cost_view(m@);
                assert(g[r as int].len() == g[0].len());
                assert(g[r as int][c as int] == m[r as int]@[c as int]);
                lemma_least_cost_bounds(g, c as int, r as int, flexible);
                if c > 0 {
                    lemma_least_cost_bounds(g, c - 1, r as int, flexible);
                }
                if r > 0 {
                    lemma_least_cost_bounds(g, c as int, r - 1, flexible);
                }
                if c > 0 && r > 0 {
                    lemma_least_cost_bounds(g, c - 1, r - 1, flexible);
                }
            }
            let own: u128 = m[r][c] as u128;
            let value: u128 = if is_source_cell(c, r, flexible) {
                own
            } else if c == 0 {
                own + table[r - 1][c]
            } else if r == 0 {
                own + line[c - 1]
            } else {
                own + smaller(table[r - 1][c - 1], smaller(line[c - 1], table[r - 1][c]))
            };
            line.push(value);
            c += 1;
        }
        table.push(line);
        r += 1;
    }
    table
}

/// Finds the preferred cheapest terminal cell: the first cheapest one in the
/// order of preference.
fn cheapest_terminal(table: &Vec<Vec<u128>>, Ghost(g): Ghost<Seq<Seq<int>>>, flexible: bool) -> (end: (
    usize,
    usize,
))
    requires
        is_cost_grid(g),
        is_cost_table(table@, g, flexible),
    ensures
        point_view(end) == terminal(g, best_terminal(g, terminal_count(g), flexible)),
{
    let rows = table.len();
    let cols = table[0].len();
    let mut best_c: usize = cols - 1;
    let mut best_r: usize = rows - 1;
    let mut best: u128 = table[rows - 1][cols - 1];
    let ghost mut best_k: int = 0;
    let mut k: usize = 1;
    while k < cols
        invariant
            is_cost_grid(g),
            is_cost_table(table@, g, flexible),
            rows == g.len(),
            cols == width(g),
            1 <= k <= cols,
            best_k == best_terminal(g, k as int, flexible),
            0 <= best_k < k,
            (best_c as int, best_r as int) == terminal(g, best_k),
            best == terminal_cost(g, best_k, flexible),
        decreases cols - k,
    {
        let c = cols - 1 - k;
        let value = table[rows - 1][c];
        if value < best {
            best = value;
            best_c = c;
            best_r = rows - 1;
            proof {
                best_k = k as int;
            }
        }
        k += 1;
    }
    let mut j: usize = 0;
    while j < rows - 1
        invariant
            is_cost_grid(g),
            is_cost_table(table@, g, flexible),
            rows == g.len(),
            cols == width(g),
            j <= rows - 1,
            best_k == best_terminal(g, cols + j, flexible),
            0 <= best_k < cols + j,
            (best_c as int, best_r as int) == terminal(g, best_k),
            best == terminal_cost(g, best_k, flexible),
        decreases rows - 1 - j,
    {
        let r = rows - 2 - j;
        let value = table[r][cols - 1];
        if value < best {
            best = value;
            best_c = cols - 1;
            best_r = r;
            proof {
                best_k = cols + j;
            }
        }
        j += 1;
    }
    (best_c, best_r)
}

/// One step back along a trace: the predecessor's trace is the trace
/// without its last cell, and the first terminal cell from there on is the
/// predecessor itself or the one found so far.
proof fn lemma_step_back(
    g: Seq<Seq<int>>,
    full: Seq<(int, int)>,
    i: int,
    c: int,
    r: int,
    flexible: bool,
)
    requires
        is_cost_grid(g),
        in_grid(g, (c, r)),
        !is_source((c, r), flexible),
        0 <= i < full.len(),
        trace(g, c, r, flexible) == full.take(i + 1),
    ensures
        i >= 1,
        trace(g, predecessor(g, c, r, flexible).0, predecessor(g, c, r, flexible).1, flexible)
            == full.take(i),
        full[i - 1] == predecessor(g, c, r, flexible),
        first_terminal(g, full, i - 1) == if is_terminal(g, predecessor(g, c, r, flexible)) {
            i - 1
        } else {
            first_terminal(g, full, i)
        },
{
    lemma_predecessor(g, c, r, flexible);
    let p = predecessor(g, c, r, flexible);
    let longer = trace(g, c, r, flexible);
    let shorter = trace(g, p.0, p.1, flexible);
    lemma_trace(g, p.0, p.1, flexible);
    assert(longer == shorter.push((c, r)));
    assert(longer.len() == i + 1);
    assert(shorter =~= longer.drop_last());
    assert(longer.drop_last() =~= full.take(i));
    assert(shorter.last() == full.take(i)[i - 1]);
}

/// The predecessor of a cell that is no source, read from the table.
fn cheapest_predecessor(
    table: &Vec<Vec<u128>>,
    Ghost(g): Ghost<Seq<Seq<int>>>,
    c: usize,
    r: usize,
    flexible: bool,
) -> (p: (usize, usize))
    requires
        is_cost_grid(g),
        is_cost_table(table@, g, flexible),
        in_grid(g, (c as int, r as int)),
        !is_source((c as int, r as int), flexible),
    ensures
        point_view(p) == predecessor(g, c as int, r as int, flexible),
{
    if c == 0 {
        (c, r - 1)
    } else if r == 0 {
        (c - 1, r)
    } else {
        let diagonal = table[r - 1][c - 1];
        let left = table[r][c - 1];
        let upper = table[r - 1][c];
        if diagonal <= left && diagonal <= upper {
            (c - 1, r - 1)
        } else if left <= upper {
            (c - 1, r)
        } else {
            (c, r - 1)
        }
    }
}

/// Follows the predecessors back from the chosen terminal cell to a source
/// and returns the cells from the last one back to the first terminal cell
/// of the path.
fn walk_back(
    table: &Vec<Vec<u128>>,
    Ghost(g): Ghost<Seq<Seq<int>>>,
    end: (usize, usize),
    flexible: bool,
) -> (rev: Vec<(usize, usize)>)
    requires
        is_cost_grid(g),
        is_cost_table(table@, g, flexible),
        in_grid(g, point_view(end)),
        is_terminal(g, point_view(end)),
    ensures
        rev.len() == first_terminal(g, trace(g, end.0 as int, end.1 as int, flexible), 0) + 1,
        forall|j: int|
            0 <= j < rev.len() ==> point_view(#[trigger] rev[j]) == trace(
                g,
                end.0 as int,
                end.1 as int,
                flexible,
            )[rev.len() - 1 - j],
{
    let ghost full = trace(g, end.0 as int, end.1 as int, flexible);
    let rows = table.len();
    let cols = table[0].len();
    let mut cur = end;
    let mut rev: Vec<(usize, usize)> = Vec::new();
    rev.push(cur);
    let ghost mut i: int = full.len() - 1;
    let ghost mut e: int = full.len() - 1;
    proof {
        lemma_trace(g, end.0 as int, end.1 as int, flexible);
        assert(full.take(full.len() as int) =~= full);
    }
    while !is_source_cell(cur.0, cur.1, flexible)
        invariant
            is_cost_grid(g),
            is_cost_table(table@, g, flexible),
            rows == g.len(),
            cols == width(g),
            in_grid(g, point_view(cur)),
            0 <= i <= e < full.len(),
            trace(g, cur.0 as int, cur.1 as int, flexible) == full.take(i + 1),
            e == first_terminal(g, full, i),
            rev.len() == e - i + 1,
            forall|j: int| 0 <= j < rev.len() ==> point_view(#[trigger] rev[j]) == full[e - j],
        decreases cur.0 + cur.1,
    {
        let before = cheapest_predecessor(table, Ghost(g), cur.0, cur.1, flexible);
        proof {
            lemma_predecessor(g, cur.0 as int, cur.1 as int, flexible);
            lemma_step_back(g, full, i, cur.0 as int, cur.1 as int, flexible);
        }
        cur = before;
        if cur.0 == cols - 1 || cur.1 == rows - 1 {
            rev.clear();
            proof {
                e = i - 1;
            }
        }
        rev.push(cur);
        proof {
            i = i - 1;
        }
    }
    proof {
        assert(trace(g, cur.0 as int, cur.1 as int, flexible).len() == 1);
        assert(full.take(i + 1).len() == i + 1);
    }
    rev
}

/// Whether the matrix is a grid that the search accepts: at least one row
/// and one column, and all rows of one length.
pub fn is_grid(cost_matrix: &Vec<Vec<u32>>) -> (grid: bool)
    ensures
        grid == is_cost_grid(cost_view(cost_matrix@)),
{
    proof {
        lemma_cost_view(cost_matrix@);
    }
    let ghost g = cost_view(cost_matrix@);
    if cost_matrix.len() == 0 {
        return false;
    }
    let cols = cost_matrix[0].len();
    if cols == 0 {
        return false;
    }
    let mut r: usize = 1;
    while r < cost_matrix.len()
        invariant
            g == cost_view(cost_matrix@),
            cost_matrix.len() > 0,
            cols == cost_matrix[0].len(),
            1 <= r <= cost_matrix.len(),
            forall|i: int| 0 <= i < r ==> (#[trigger] cost_matrix[i]).len() == cols,
        decreases cost_matrix.len() - r,
    {
        if cost_matrix[r].len() != cols {
            proof {
                lemma_cost_view(cost_matrix@);
                assert(g[r as int].len() != g[0].len());
            }
            return false;
        }
        r += 1;
    }
    proof {
        lemma_cost_view(cost_matrix@);
        assert forall|i: int| 0 <= i < g.len() implies (#[trigger] g[i]).len() == g[0].len() by {
            assert(cost_matrix[i].len() == cols);
        }
    }
    true
}

/// Searches the cost grid for the cheapest path from a source to a terminal
/// cell. Rows of the grid stand for positions on the right, columns for
/// positions on the left; each point of the result is a column and a row.
///
/// With `flexible_start` the path may begin at any cell of the first row or
/// the first column, without it only at the origin. The path ends at the
/// first cell it reaches on the last row or the last column.
pub fn find_path(cost_matrix: &Vec<Vec<u32>>, flexible_start: bool) -> (path: Vec<(usize, usize)>)
    requires
        is_cost_grid(cost_view(cost_matrix@)),
    ensures
        path_view(path@) == search_path(cost_view(cost_matrix@), flexible_start),
        is_route(cost_view(cost_matrix@), path_view(path@), flexible_start),
        forall|i: int|
            0 <= i < path.len() - 1 ==> !is_terminal(
                cost_view(cost_matrix@),
                #[trigger] path_view(path@)[i],
            ),
        forall|other: Seq<(int, int)>| #[trigger]
            is_route(cost_view(cost_matrix@), other, flexible_start) ==> route_cost(
                cost_view(cost_matrix@),
                path_view(path@),
            ) <= route_cost(cost_view(cost_matrix@), other),
{
    let ghost g = cost_view(cost_matrix@);
    let table = least_costs(cost_matrix, flexible_start);
    let end = cheapest_terminal(&table, Ghost(g), flexible_start);
    proof {
        lemma_best_terminal(g, terminal_count(g), flexible_start);
        lemma_terminal_in_grid(g, best_terminal(g, terminal_count(g), flexible_start));
    }
    let rev = walk_back(&table, Ghost(g), end, flexible_start);
    let mut path: Vec<(usize, usize)> = Vec::new();
    let mut n: usize = rev.len();
    while n > 0
        invariant
            n <= rev.len(),
            path.len() == rev.len() - n,
            forall|j: int| 0 <= j < path.len() ==> #[trigger] path[j] == rev[rev.len() - 1 - j],
        decreases n,
    {
        n -= 1;
        path.push(rev[n]);
    }
    proof {
        let full = full_trace(g, flexible_start);
        lemma_trace(g, end.0 as int, end.1 as int, flexible_start);
        lemma_first_terminal(g, full, 0);
        let found = path_view(path@);
        let wanted = search_path(g, flexible_start);
        assert(found.len() == wanted.len());
        assert forall|j: int| 0 <= j < found.len() implies found[j] == wanted[j] by {
            assert(path[j] == rev[rev.len() - 1 - j]);
            assert(point_view(rev[rev.len() - 1 - j]) == full[j]);
        }
        assert(found =~= wanted);
        lemma_search_path_is_route(g, flexible_start);
        assert forall|other: Seq<(int, int)>| #[trigger]
            is_route(g, other, flexible_start) implies route_cost(g, path_view(path@))
            <= route_cost(g, other) by {
            lemma_search_path_is_cheapest(g, flexible_start, other);
        }
    }
    path
}

} // verus!
