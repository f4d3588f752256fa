//! Matrices of fixed-point numbers as mathematical values.
//!
//! Similarities and costs are fixed-point numbers: the integer `ONE` stands
//! for the real number one. A matrix is a sequence of rows; row `r` belongs
//! to position `r` on the right, column `c` to position `c` on the left.

use vstd::prelude::*;

verus! {

/// The fixed-point integer that stands for the real number one.
pub const ONE: u32 = 1_000_000;

/// The smaller of two integers.
pub open spec fn min2(a: int, b: int) -> int {
    if a <= b {
        a
    } else {
        b
    }
}

/// The larger of two integers.
pub open spec fn max2(a: int, b: int) -> int {
    if a >= b {
        a
    } else {
        b
    }
}

/// A row of costs as a sequence of integers.
pub open spec fn row_view(row: Seq<u32>) -> Seq<int> {
    Seq::new(row.len(), |c: int| row[c] as int)
}

/// A matrix of costs as a mathematical value: one sequence of integers per
/// row.
pub open spec fn cost_view(m: Seq<Vec<u32>>) -> Seq<Seq<int>> {
    Seq::new(m.len(), |r: int| row_view(m[r]@))
}

/// A matrix of similarities as a mathematical value: one sequence of
/// integers per row.
pub open spec fn score_view(m: Seq<Vec<i32>>) -> Seq<Seq<int>> {
    Seq::new(m.len(), |r: int| Seq::new(m[r]@.len(), |c: int| m[r]@[c] as int))
}

/// The number of columns, taken from the first row.
pub open spec fn width(g: Seq<Seq<int>>) -> int {
    if g.len() == 0 {
        0
    } else {
        g[0].len() as int
    }
}

/// All rows have one length.
pub open spec fn is_rectangular(g: Seq<Seq<int>>) -> bool {
    forall|r: int| 0 <= r < g.len() ==> (#[trigger] g[r]).len() == width(g)
}

/// The matrix has `rows` rows of `cols` entries each.
pub open spec fn has_shape(g: Seq<Seq<int>>, rows: int, cols: int) -> bool {
    &&& g.len() == rows
    &&& forall|r: int| 0 <= r < g.len() ==> (#[trigger] g[r]).len() == cols
}

/// Every entry lies between `low` and `high`.
pub open spec fn all_within(g: Seq<Seq<int>>, low: int, high: int) -> bool {
    forall|r: int, c: int|
        0 <= r < g.len() && 0 <= c < g[r].len() ==> low <= #[trigger] g[r][c] <= high
}

/// What the view of an executable cost matrix holds, entry by entry.
pub proof fn lemma_cost_view(m: Seq<Vec<u32>>)
    ensures
        cost_view(m).len() == m.len(),
        forall|r: int| 0 <= r < m.len() ==> #[trigger] cost_view(m)[r] == row_view(m[r]@),
        forall|r: int| 0 <= r < m.len() ==> (#[trigger] cost_view(m)[r]).len() == m[r]@.len(),
        forall|r: int, c: int|
            0 <= r < m.len() && 0 <= c < m[r]@.len() ==> #[trigger] cost_view(m)[r][c]
                == m[r]@[c] as int,
{
}

/// What the view of an executable similarity matrix holds, entry by entry.
pub proof fn lemma_score_view(m: Seq<Vec<i32>>)
    ensures
        score_view(m).len() == m.len(),
        forall|r: int| 0 <= r < m.len() ==> (#[trigger] score_view(m)[r]).len() == m[r]@.len(),
        forall|r: int, c: int|
            0 <= r < m.len() && 0 <= c < m[r]@.len() ==> #[trigger] score_view(m)[r][c]
                == m[r]@[c] as int,
{
}

} // verus!
