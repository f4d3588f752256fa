//! From a matrix of similarities to a matrix of costs, and from there to the
//! path of least cost.
//!
//! A similarity `s` becomes the cost `(ONE - s) / 2`. The costs are then
//! scaled twice, once so that each row spans the whole range from zero to
//! `ONE` and once so that each column does, and the two results are averaged.
//! All divisions round down.

use vstd::prelude::*;
use crate::matrix::{
    all_within, cost_view, has_shape, is_rectangular, lemma_cost_view, lemma_score_view, max2, min2,
    row_view, score_view, width, ONE,
};
use crate::route::path_view;
use crate::search::{find_path, is_route, search_path, MAX_CELL};

verus! {

/// The smallest entry of a sequence, and zero for the empty sequence.
pub open spec fn least(s: Seq<int>) -> int
    decreases s.len(),
{
    if s.len() == 0 {
        0
    } else if s.len() == 1 {
        s[0]
    } else {
        min2(least(s.drop_last()), s.last())
    }
}

/// The largest entry of a sequence, and zero for the empty sequence.
pub open spec fn greatest(s: Seq<int>) -> int
    decreases s.len(),
{
    if s.len() == 0 {
        0
    } else if s.len() == 1 {
        s[0]
    } else {
        max2(greatest(s.drop_last()), s.last())
    }
}

/// Where `value` lies between `low` and `high`, as a fixed-point number from
/// zero to `ONE`; zero if the two bounds coincide.
pub open spec fn scaled(value: int, low: int, high: int) -> int {
    if high > low {
        (value - low) * ONE / (high - low)
    } else {
        0
    }
}

/// Each row scaled to its own least and greatest entry.
pub open spec fn row_normalized(g: Seq<Seq<int>>) -> Seq<Seq<int>> {
    Seq::new(
        g.len(),
        |r: int| Seq::new(g[r].len(), |c: int| scaled(g[r][c], least(g[r]), greatest(g[r]))),
    )
}

/// The entries of column `c` from the top row down.
pub open spec fn column(g: Seq<Seq<int>>, c: int) -> Seq<int> {
    Seq::new(g.len(), |r: int| g[r][c])
}

/// Each column scaled to its own least and greatest entry. The result has as
/// many columns as the first row; a matrix without rows or with an empty
/// first row stays as it is.
pub open spec fn column_normalized(g: Seq<Seq<int>>) -> Seq<Seq<int>> {
    if width(g) == 0 {
        g
    } else {
        Seq::new(
            g.len(),
            |r: int|
                Seq::new(
                    g[0].len(),
                    |c: int| scaled(g[r][c], least(column(g, c)), greatest(column(g, c))),
                ),
        )
    }
}

/// The entry-wise mean of two matrices, in the shape of the first.
pub open spec fn averaged(a: Seq<Seq<int>>, b: Seq<Seq<int>>) -> Seq<Seq<int>> {
    Seq::new(a.len(), |r: int| Seq::new(a[r].len(), |c: int| (a[r][c] + b[r][c]) / 2))
}

/// The mean of the row-wise and the column-wise scaling of a matrix.
pub open spec fn blended(g: Seq<Seq<int>>) -> Seq<Seq<int>> {
    averaged(row_normalized(g), column_normalized(g))
}

/// The least entry is an entry and no entry is below it; the same holds of
/// the greatest entry from above.
pub proof fn lemma_extremes(s: Seq<int>)
    requires
        s.len() > 0,
    ensures
        forall|i: int| 0 <= i < s.len() ==> least(s) <= #[trigger] s[i] <= greatest(s),
        exists|i: int| 0 <= i < s.len() && s[i] == least(s),
        exists|i: int| 0 <= i < s.len() && s[i] == greatest(s),
    decreases s.len(),
{
    if s.len() == 1 {
        assert(s[0] == least(s));
        assert(s[0] == greatest(s));
    } else {
        let shorter = s.drop_last();
        lemma_extremes(shorter);
        assert forall|i: int| 0 <= i < s.len() implies least(s) <= #[trigger] s[i] <= greatest(
            s,
        ) by {
            if i < shorter.len() {
                assert(s[i] == shorter[i]);
            }
        }
        let low = choose|i: int| 0 <= i < shorter.len() && shorter[i] == least(shorter);
        assert(s[low] == least(shorter));
        assert(s[s.len() - 1] == s.last());
        let high = choose|i: int| 0 <= i < shorter.len() && shorter[i] == greatest(shorter);
        assert(s[high] == greatest(shorter));
    }
}

/// A value between the bounds is scaled to a number from zero to `ONE`.
pub proof fn lemma_scaled_bounds(value: int, low: int, high: int)
    requires
        low <= value <= high,
    ensures
        0 <= scaled(value, low, high) <= ONE,
{
    if high > low {
        let n = value - low;
        let d = high - low;
        assert(0 <= n * ONE / d <= ONE) by (nonlinear_arith)
            requires
                0 <= n <= d,
                d > 0,
        ;
    }
}

/// The least and the greatest entry of a row that is not empty.
fn extremes(row: &Vec<u32>) -> (bounds: (u32, u32))
    requires
        row.len() > 0,
    ensures
        bounds.0 == least(row_view(row@)),
        bounds.1 == greatest(row_view(row@)),
{
    let ghost s = row_view(row@);
    let mut low = row[0];
    let mut high = row[0];
    let mut k: usize = 1;
    proof {
        assert(s.take(1).len() == 1);
    }
    while k < row.len()
        invariant
            s == row_view(row@),
            1 <= k <= row.len(),
            low == least(s.take(k as int)),
            high == greatest(s.take(k as int)),
        decreases row.len() - k,
    {
        let value = row[k];
        proof {
            let longer = s.take(k + 1);
            assert(longer.drop_last() =~= s.take(k as int));
            assert(longer.last() == value);
        }
        if value < low {
            low = value;
        }
        if value > high {
            high = value;
        }
        k += 1;
    }
    proof {
        assert(s.take(row.len() as int) =~= s);
    }
    (low, high)
}

/// The least and the greatest entry of column `c`.
fn column_extremes(matrix: &Vec<Vec<u32>>, c: usize) -> (bounds: (u32, u32))
    requires
        matrix.len() > 0,
        forall|r: int| 0 <= r < matrix.len() ==> c < (#[trigger] matrix[r]).len(),
    ensures
        bounds.0 == least(column(cost_view(matrix@), c as int)),
        bounds.1 == greatest(column(cost_view(matrix@), c as int)),
{
    let ghost s = column(cost_view(matrix@), c as int);
    proof {
        lemma_cost_view(matrix@);
    }
    let mut low = matrix[0][c];
    let mut high = matrix[0][c];
    let mut k: usize = 1;
    proof {
        assert(s.take(1).len() == 1);
        assert(s.take(1)[0] == matrix[0][c as int]);
    }
    while k < matrix.len()
        invariant
            s == column(cost_view(matrix@), c as int),
            forall|r: int| 0 <= r < matrix.len() ==> c < (#[trigger] matrix[r]).len(),
            1 <= k <= matrix.len(),
            low == least(s.take(k as int)),
            high == greatest(s.take(k as int)),
        decreases matrix.len() - k,
    {
        let value = matrix[k][c];
        proof {
            lemma_cost_view(matrix@);
            let longer = s.take(k + 1);
            assert(longer.drop_last() =~= s.take(k as int));
            assert(longer.last() == value);
        }
        if value < low {
            low = value;
        }
        if value > high {
            high = value;
        }
        k += 1;
    }
    proof {
        assert(s.take(matrix.len() as int) =~= s);
    }
    (low, high)
}

/// Scales one entry to the bounds of its row or column.
fn scale(value: u32, low: u32, high: u32) -> (out: u32)
    requires
        low <= value <= high,
    ensures
        out == scaled(value as int, low as int, high as int),
        out <= ONE,
{
    proof {
        lemma_scaled_bounds(value as int, low as int, high as int);
    }
    if high > low {
        let n: u64 = (value - low) as u64;
        let d: u64 = (high - low) as u64;
        assert(n * ONE <= 0xffff_ffff * 1_000_000) by (nonlinear_arith)
            requires
                0 <= n <= 0xffff_ffff,
                ONE == 1_000_000,
        ;
        (n * (ONE as u64) / d) as u32
    } else {
        0
    }
}

/// Scales each row of `matrix` to the range from zero to `ONE`: the least
/// entry of a row becomes zero, the greatest `ONE`, and a row whose entries
/// are all equal becomes all zeros. The result has the shape of `matrix`.
pub fn normalize_rows(matrix: &Vec<Vec<u32>>) -> (output: Vec<Vec<u32>>)
    ensures
        cost_view(output@) == row_normalized(cost_view(matrix@)),
        all_within(cost_view(output@), 0, ONE as int),
{
    let ghost g = cost_view(matrix@);
    let mut output: Vec<Vec<u32>> = Vec::new();
    let mut r: usize = 0;
    while r < matrix.len()
        invariant
            g == cost_view(matrix@),
            r <= matrix.len(),
            output.len() == r,
            forall|i: int|
                0 <= i < r ==> row_view((#[trigger] output[i])@) == row_normalized(g)[i],
            forall|i: int, j: int|
                0 <= i < r && 0 <= j < output[i].len() ==> (#[trigger] output[i][j]) <= ONE,
        decreases matrix.len() - r,
    {
        let row = &matrix[r];
        let mut line: Vec<u32> = Vec::new();
        proof {
            lemma_cost_view(matrix@);
        }
        if row.len() > 0 {
            let (low, high) = extremes(row);
            proof {
                lemma_extremes(row_view(row@));
            }
            let mut c: usize = 0;
            while c < row.len()
                invariant
                    c <= row.len(),
                    line.len() == c,
                    low == least(row_view(row@)),
                    high == greatest(row_view(row@)),
                    forall|j: int|
                        0 <= j < row.len() ==> low <= #[trigger] row_view(row@)[j] <= high,
                    forall|j: int|
                        0 <= j < c ==> #[trigger] line[j] == scaled(
                            row[j] as int,
                            low as int,
                            high as int,
                        ),
                    forall|j: int| 0 <= j < c ==> #[trigger] line[j] <= ONE,
                decreases row.len() - c,
            {
                assert(low <= row_view(row@)[c as int] <= high);
                line.push(scale(row[c], low, high));
                c += 1;
            }
        }
        proof {
            assert(row_view(line@) =~= row_normalized(g)[r as int]);
        }
        output.push(line);
        r += 1;
    }
    proof {
        lemma_cost_view(output@);
        assert(cost_view(output@) =~= row_normalized(g));
    }
    output
}

/// Scales each column of `matrix` to the range from zero to `ONE`: the least
/// entry of a column becomes zero, the greatest `ONE`, and a column whose
/// entries are all equal becomes all zeros.
///
/// The first row says how many columns there are; what a longer row holds
/// beyond them is left out. A matrix without rows or with an empty first row
/// is returned as it is.
pub fn normalize_columns(matrix: &Vec<Vec<u32>>) -> (output: Vec<Vec<u32>>)
    requires
        width(cost_view(matrix@)) > 0 ==> forall|r: int|
            0 <= r < matrix.len() ==> (#[trigger] matrix[r]).len() >= matrix[0].len(),
    ensures
        cost_view(output@) == column_normalized(cost_view(matrix@)),
        width(cost_view(matrix@)) > 0 ==> all_within(cost_view(output@), 0, ONE as int),
{
    let ghost g = cost_view(matrix@);
    proof {
        lemma_cost_view(matrix@);
    }
    let rows = matrix.len();
    if rows == 0 || matrix[0].len() == 0 {
        let mut copy: Vec<Vec<u32>> = Vec::new();
        let mut r: usize = 0;
        while r < rows
            invariant
                rows == matrix.len(),
                r <= rows,
                copy.len() == r,
                forall|i: int| 0 <= i < r ==> (#[trigger] copy[i])@ == matrix[i]@,
            decreases rows - r,
        {
            let row = &matrix[r];
            let mut line: Vec<u32> = Vec::new();
            let mut c: usize = 0;
            while c < row.len()
                invariant
                    c <= row.len(),
                    line@ == row@.take(c as int),
                decreases row.len() - c,
            {
                line.push(row[c]);
                proof {
                    assert(row@.take(c + 1) =~= row@.take(c as int).push(row[c as int]));
                }
                c += 1;
            }
            proof {
                assert(row@.take(row.len() as int) =~= row@);
            }
            copy.push(line);
            r += 1;
        }
        proof {
            lemma_cost_view(copy@);
            assert(cost_view(copy@) =~= g);
        }
        return copy;
    }
    let cols = matrix[0].len();
    let mut col_mins: Vec<u32> = Vec::new();
    let mut col_maxs: Vec<u32> = Vec::new();
    let mut c: usize = 0;
    while c < cols
        invariant
            g == cost_view(matrix@),
            rows == matrix.len(),
            rows > 0,
            cols == matrix[0].len(),
            forall|r: int| 0 <= r < matrix.len() ==> (#[trigger] matrix[r]).len() >= cols,
            c <= cols,
            col_mins.len() == c,
            col_maxs.len() == c,
            forall|j: int| 0 <= j < c ==> #[trigger] col_mins[j] == least(column(g, j)),
            forall|j: int| 0 <= j < c ==> #[trigger] col_maxs[j] == greatest(column(g, j)),
        decreases cols - c,
    {
        let (low, high) = column_extremes(matrix, c);
        col_mins.push(low);
        col_maxs.push(high);
        c += 1;
    }
    let mut output: Vec<Vec<u32>> = Vec::new();
    let mut r: usize = 0;
    while r < rows
        invariant
            g == cost_view(matrix@),
            rows == matrix.len(),
            rows > 0,
            cols == matrix[0].len(),
            cols > 0,
            forall|i: int| 0 <= i < matrix.len() ==> (#[trigger] matrix[i]).len() >= cols,
            col_mins.len() == cols,
            col_maxs.len() == cols,
            forall|j: int| 0 <= j < cols ==> #[trigger] col_mins[j] == least(column(g, j)),
            forall|j: int| 0 <= j < cols ==> #[trigger] col_maxs[j] == greatest(column(g, j)),
            r <= rows,
            output.len() == r,
            forall|i: int|
                0 <= i < r ==> row_view((#[trigger] output[i])@) == column_normalized(g)[i],
            forall|i: int, j: int|
                0 <= i < r && 0 <= j < output[i].len() ==> (#[trigger] output[i][j]) <= ONE,
        decreases rows - r,
    {
        let mut new_row: Vec<u32> = Vec::new();
        let mut c: usize = 0;
        while c < cols
            invariant
                g == cost_view(matrix@),
                rows == matrix.len(),
                cols == matrix[0].len(),
                forall|i: int| 0 <= i < matrix.len() ==> (#[trigger] matrix[i]).len() >= cols,
                col_mins.len() == cols,
                col_maxs.len() == cols,
                forall|j: int| 0 <= j < cols ==> #[trigger] col_mins[j] == least(column(g, j)),
                forall|j: int| 0 <= j < cols ==> #[trigger] col_maxs[j] == greatest(column(g, j)),
                r < rows,
                c <= cols,
                new_row.len() == c,
                forall|j: int|
                    0 <= j < c ==> #[trigger] new_row[j] == scaled(
                        g[r as int][j],
                        least(column(g, j)),
                        greatest(column(g, j)),
                    ),
                forall|j: int| 0 <= j < c ==> #[trigger] new_row[j] <= ONE,
            decreases cols - c,
        {
            proof {
                lemma_cost_view(matrix@);
                lemma_extremes(column(g, c as int));
                assert(column(g, c as int)[r as int] == matrix[r as int][c as int]);
            }
            new_row.push(scale(matrix[r][c], col_mins[c], col_maxs[c]));
            c += 1;
        }
        proof {
            assert(row_view(new_row@) =~= column_normalized(g)[r as int]);
        }
        output.push(new_row);
        r += 1;
    }
    proof {
        lemma_cost_view(output@);
        assert(cost_view(output@) =~= column_normalized(g));
    }
    output
}

/// The entry-wise mean of two matrices, rounded down, in the shape of `a`.
pub fn average_matrices(a: &Vec<Vec<u32>>, b: &Vec<Vec<u32>>) -> (output: Vec<Vec<u32>>)
    requires
        a.len() <= b.len(),
        forall|i: int| 0 <= i < a.len() ==> (#[trigger] a[i]).len() <= b[i].len(),
    ensures
        cost_view(output@) == averaged(cost_view(a@), cost_view(b@)),
{
    let rows = a.len();
    let mut output: Vec<Vec<u32>> = Vec::new();
    let mut i: usize = 0;
    while i < rows
        invariant
            rows == a.len(),
            a.len() <= b.len(),
            forall|k: int| 0 <= k < a.len() ==> (#[trigger] a[k]).len() <= b[k].len(),
            i <= rows,
            output.len() == i,
            forall|k: int|
                0 <= k < i ==> row_view((#[trigger] output[k])@) == averaged(
                    cost_view(a@),
                    cost_view(b@),
                )[k],
        decreases rows - i,
    {
        let cols = a[i].len();
        let mut new_row: Vec<u32> = Vec::new();
        let mut j: usize = 0;
        assert(a[i as int].len() <= b[i as int].len());
        while j < cols
            invariant
                i < rows,
                rows == a.len(),
                a.len() <= b.len(),
                cols == a[i as int].len(),
                cols <= b[i as int].len(),
                j <= cols,
                new_row.len() == j,
                forall|k: int|
                    0 <= k < j ==> #[trigger] new_row[k] == (a[i as int][k] + b[i as int][k]) / 2,
            decreases cols - j,
        {
            let sum: u64 = a[i][j] as u64 + b[i][j] as u64;
            new_row.push((sum / 2) as u32);
            j += 1;
        }
        proof {
            lemma_cost_view(a@);
            lemma_cost_view(b@);
            assert(row_view(new_row@) =~= averaged(cost_view(a@), cost_view(b@))[i as int]);
        }
        output.push(new_row);
        i += 1;
    }
    proof {
        lemma_cost_view(output@);
        assert(cost_view(output@) =~= averaged(cost_view(a@), cost_view(b@)));
    }
    output
}

/// All entries of the sequence are equal.
pub open spec fn is_constant(s: Seq<int>) -> bool {
    forall|i: int, j: int| 0 <= i < s.len() && 0 <= j < s.len() ==> s[i] == s[j]
}

/// The least and the greatest entry of a sequence coincide exactly if all
/// its entries are equal.
pub proof fn lemma_constant_extremes(s: Seq<int>)
    ensures
        is_constant(s) <==> least(s) == greatest(s),
{
    if s.len() > 0 {
        lemma_extremes(s);
        if least(s) == greatest(s) {
            assert forall|i: int, j: int| 0 <= i < s.len() && 0 <= j < s.len() implies s[i]
                == s[j] by {
                assert(least(s) <= s[i] <= greatest(s));
                assert(least(s) <= s[j] <= greatest(s));
            }
        }
    }
}

/// Every entry of a scaled matrix lies between zero and `ONE`, whether the
/// rows were scaled, the columns, or both with the mean taken.
pub proof fn lemma_normalization_bounds(g: Seq<Seq<int>>)
    requires
        is_rectangular(g),
    ensures
        all_within(row_normalized(g), 0, ONE as int),
        width(g) > 0 ==> all_within(column_normalized(g), 0, ONE as int),
        all_within(blended(g), 0, ONE as int),
        has_shape(blended(g), g.len() as int, width(g)),
{
    let by_row = row_normalized(g);
    let by_column = column_normalized(g);
    assert forall|r: int, c: int| 0 <= r < by_row.len() && 0 <= c < by_row[r].len() implies 0
        <= #[trigger] by_row[r][c] <= ONE by {
        lemma_extremes(g[r]);
        assert(least(g[r]) <= g[r][c] <= greatest(g[r]));
        lemma_scaled_bounds(g[r][c], least(g[r]), greatest(g[r]));
    }
    if width(g) > 0 {
        assert forall|r: int, c: int|
            0 <= r < by_column.len() && 0 <= c < by_column[r].len() implies 0
            <= #[trigger] by_column[r][c] <= ONE by {
            let s = column(g, c);
            lemma_extremes(s);
            assert(s[r] == g[r][c]);
            assert(least(s) <= s[r] <= greatest(s));
            lemma_scaled_bounds(g[r][c], least(s), greatest(s));
        }
    }
    let both = blended(g);
    assert forall|r: int, c: int| 0 <= r < both.len() && 0 <= c < both[r].len() implies 0
        <= #[trigger] both[r][c] <= ONE by {
        assert(g[r].len() == width(g));
        assert(0 <= by_row[r][c] <= ONE);
        assert(0 <= by_column[r][c] <= ONE);
    }
    assert forall|r: int| 0 <= r < both.len() implies (#[trigger] both[r]).len() == width(g) by {
        assert(g[r].len() == width(g));
    }
}

/// A row whose entries are all equal is scaled to zeros, and so is a column
/// whose entries are all equal; where both hold, the mean is zero too.
pub proof fn lemma_constant_is_zero(g: Seq<Seq<int>>, r: int, c: int)
    requires
        0 <= r < g.len(),
        0 <= c < g[r].len(),
        0 <= c < width(g),
    ensures
        is_constant(g[r]) ==> row_normalized(g)[r][c] == 0,
        is_constant(column(g, c)) ==> column_normalized(g)[r][c] == 0,
        is_constant(g[r]) && is_constant(column(g, c)) ==> blended(g)[r][c] == 0,
{
    lemma_constant_extremes(g[r]);
    lemma_constant_extremes(column(g, c));
}

/// Scales a matrix by rows and by columns and takes the mean of the two:
/// entry `(r, c)` of the result is the mean, rounded down, of the entry
/// scaled to its row and the entry scaled to its column.
pub fn row_col_blended_normalization(matrix: &Vec<Vec<u32>>) -> (output: Vec<Vec<u32>>)
    requires
        width(cost_view(matrix@)) == 0 || is_rectangular(cost_view(matrix@)),
    ensures
        cost_view(output@) == blended(cost_view(matrix@)),
        is_rectangular(cost_view(matrix@)) ==> all_within(cost_view(output@), 0, ONE as int)
            && has_shape(
            cost_view(output@),
            matrix.len() as int,
            width(cost_view(matrix@)),
        ),
{
    let ghost g = cost_view(matrix@);
    proof {
        lemma_cost_view(matrix@);
        if width(g) > 0 {
            assert forall|r: int| 0 <= r < matrix.len() implies (#[trigger] matrix[r]).len()
                >= matrix[0].len() by {
                assert(g[r].len() == width(g));
            }
        }
    }
    let row_norm = normalize_rows(matrix);
    let col_norm = normalize_columns(matrix);
    proof {
        lemma_cost_view(row_norm@);
        lemma_cost_view(col_norm@);
        assert forall|i: int| 0 <= i < row_norm.len() implies (#[trigger] row_norm[i]).len()
            <= col_norm[i].len() by {
            assert(cost_view(row_norm@)[i].len() == g[i].len());
            assert(cost_view(col_norm@)[i].len() == col_norm[i].len());
            if width(g) > 0 {
                assert(g[i].len() == width(g));
            }
        }
        if is_rectangular(g) {
            lemma_normalization_bounds(g);
        }
    }
    average_matrices(&row_norm, &col_norm)
}

/// The cost of a similarity: zero for `ONE`, `ONE` for its negative, and
/// half way between the two for zero.
pub open spec fn cost_of(score: int) -> int {
    (ONE - score) / 2
}

/// The costs of a matrix of similarities, entry by entry.
pub open spec fn costs_of(g: Seq<Seq<int>>) -> Seq<Seq<int>> {
    Seq::new(g.len(), |r: int| Seq::new(g[r].len(), |c: int| cost_of(g[r][c])))
}

/// Turns a matrix of similarities between `-ONE` and `ONE` into the matrix
/// of their costs.
pub fn similarity_costs(scores: &Vec<Vec<i32>>) -> (costs: Vec<Vec<u32>>)
    requires
        all_within(score_view(scores@), -(ONE as int), ONE as int),
    ensures
        cost_view(costs@) == costs_of(score_view(scores@)),
        all_within(cost_view(costs@), 0, ONE as int),
{
    let ghost g = score_view(scores@);
    let mut costs: Vec<Vec<u32>> = Vec::new();
    let mut r: usize = 0;
    while r < scores.len()
        invariant
            g == score_view(scores@),
            all_within(g, -(ONE as int), ONE as int),
            r <= scores.len(),
            costs.len() == r,
            forall|i: int| 0 <= i < r ==> row_view((#[trigger] costs[i])@) == costs_of(g)[i],
            forall|i: int, j: int|
                0 <= i < r && 0 <= j < costs[i].len() ==> (#[trigger] costs[i][j]) <= ONE,
        decreases scores.len() - r,
    {
        let row = &scores[r];
        let mut line: Vec<u32> = Vec::new();
        let mut c: usize = 0;
        while c < row.len()
            invariant
                g == score_view(scores@),
                all_within(g, -(ONE as int), ONE as int),
                r < scores.len(),
                row == scores[r as int],
                c <= row.len(),
                line.len() == c,
                forall|j: int| 0 <= j < c ==> #[trigger] line[j] == cost_of(row[j] as int),
                forall|j: int| 0 <= j < c ==> #[trigger] line[j] <= ONE,
            decreases row.len() - c,
        {
            proof {
                lemma_score_view(scores@);
                assert(-(ONE as int) <= g[r as int][c as int] <= ONE);
            }
            let distance: u32 = (ONE as i64 - row[c] as i64) as u32;
            line.push(distance / 2);
            c += 1;
        }
        proof {
            lemma_score_view(scores@);
            assert(row_view(line@) =~= costs_of(g)[r as int]);
        }
        costs.push(line);
        r += 1;
    }
    proof {
        lemma_cost_view(costs@);
        assert(cost_view(costs@) =~= costs_of(g));
    }
    costs
}

/// The lower left block of the similarities of the left units followed by
/// the right units among themselves: row `y` holds the similarity of right
/// unit `y` to each left unit.
pub open spec fn reconstructed(g: Seq<Seq<int>>, xs_len: int) -> Seq<Seq<int>> {
    Seq::new(
        (g.len() - xs_len) as nat,
        |y: int| Seq::new(xs_len as nat, |x: int| g[x][xs_len + y]),
    )
}

/// Takes from the square matrix of similarities among the left units
/// followed by the right units the part that relates the two sides: one row
/// per right unit, one column per left unit.
pub fn reconstruct(joined_matrix: &Vec<Vec<i32>>, xs_len: usize) -> (xs_to_ys: Vec<Vec<i32>>)
    requires
        xs_len <= joined_matrix.len(),
        forall|x: int|
            0 <= x < xs_len ==> (#[trigger] joined_matrix[x]).len() >= joined_matrix.len(),
    ensures
        score_view(xs_to_ys@) == reconstructed(score_view(joined_matrix@), xs_len as int),
{
    let ghost g = score_view(joined_matrix@);
    let ys_len = joined_matrix.len() - xs_len;
    let mut xs_to_ys: Vec<Vec<i32>> = Vec::new();
    let mut y: usize = 0;
    while y < ys_len
        invariant
            g == score_view(joined_matrix@),
            xs_len <= joined_matrix.len(),
            ys_len == joined_matrix.len() - xs_len,
            forall|x: int|
                0 <= x < xs_len ==> (#[trigger] joined_matrix[x]).len() >= joined_matrix.len(),
            y <= ys_len,
            xs_to_ys.len() == y,
            forall|i: int|
                0 <= i < y ==> (#[trigger] xs_to_ys[i])@.len() == xs_len && forall|x: int|
                    0 <= x < xs_len ==> #[trigger] xs_to_ys[i]@[x] == g[x][xs_len + i],
        decreases ys_len - y,
    {
        let mut line: Vec<i32> = Vec::new();
        let mut x: usize = 0;
        while x < xs_len
            invariant
                g == score_view(joined_matrix@),
                xs_len <= joined_matrix.len(),
                ys_len == joined_matrix.len() - xs_len,
                forall|k: int|
                    0 <= k < xs_len ==> (#[trigger] joined_matrix[k]).len()
                        >= joined_matrix.len(),
                y < ys_len,
                x <= xs_len,
                line.len() == x,
                forall|k: int| 0 <= k < x ==> #[trigger] line[k] == g[k][xs_len + y],
            decreases xs_len - x,
        {
            proof {
                lemma_score_view(joined_matrix@);
                assert(joined_matrix[x as int].len() >= joined_matrix.len());
            }
            line.push(joined_matrix[x][xs_len + y]);
            x += 1;
        }
        xs_to_ys.push(line);
        y += 1;
    }
    proof {
        lemma_score_view(xs_to_ys@);
        let wanted = reconstructed(g, xs_len as int);
        assert(score_view(xs_to_ys@).len() == wanted.len());
        assert forall|i: int| 0 <= i < wanted.len() implies score_view(xs_to_ys@)[i]
            =~= wanted[i] by {
            assert(xs_to_ys[i]@.len() == xs_len);
        }
        assert(score_view(xs_to_ys@) =~= wanted);
    }
    xs_to_ys
}

/// Why a matrix of similarities was not aligned.
#[derive(Clone, Copy, Debug, PartialEq, Eq, Structural)]
pub enum AlignError {
    /// The matrix is not square with one row and one column for each unit of
    /// the window.
    DimensionMismatch,
    /// A similarity between a left and a right unit lies outside the range
    /// from `-ONE` to `ONE`.
    ScoreOutOfRange,
}

/// The costs that the search runs on: the costs of the similarities between
/// the two sides, scaled by rows and by columns and averaged.
pub open spec fn window_costs(g: Seq<Seq<int>>, xs_len: int) -> Seq<Seq<int>> {
    blended(costs_of(reconstructed(g, xs_len)))
}

/// Whether the matrix has `n` rows of `n` entries each.
fn is_square(matrix: &Vec<Vec<i32>>, n: usize) -> (square: bool)
    ensures
        square == has_shape(score_view(matrix@), n as int, n as int),
{
    proof {
        lemma_score_view(matrix@);
    }
    if matrix.len() != n {
        return false;
    }
    let mut r: usize = 0;
    while r < n
        invariant
            matrix.len() == n,
            r <= n,
            forall|i: int| 0 <= i < r ==> (#[trigger] matrix[i]).len() == n,
        decreases n - r,
    {
        if matrix[r].len() != n {
            proof {
                lemma_score_view(matrix@);
                assert(score_view(matrix@)[r as int].len() != n);
            }
            return false;
        }
        r += 1;
    }
    proof {
        lemma_score_view(matrix@);
        assert forall|i: int| 0 <= i < n implies (#[trigger] score_view(matrix@)[i]).len()
            == n by {
            assert(matrix[i].len() == n);
        }
    }
    true
}

/// Whether every similarity lies between `-ONE` and `ONE`.
fn scores_in_range(scores: &Vec<Vec<i32>>) -> (within: bool)
    ensures
        within == all_within(score_view(scores@), -(ONE as int), ONE as int),
{
    let ghost g = score_view(scores@);
    let mut r: usize = 0;
    while r < scores.len()
        invariant
            g == score_view(scores@),
            r <= scores.len(),
            forall|i: int, j: int|
                0 <= i < r && 0 <= j < g[i].len() ==> -(ONE as int) <= #[trigger] g[i][j] <= ONE,
        decreases scores.len() - r,
    {
        let row = &scores[r];
        let mut c: usize = 0;
        while c < row.len()
            invariant
                g == score_view(scores@),
                r < scores.len(),
                row == scores[r as int],
                c <= row.len(),
                forall|j: int| 0 <= j < c ==> -(ONE as int) <= #[trigger] g[r as int][j] <= ONE,
            decreases row.len() - c,
        {
            proof {
                lemma_score_view(scores@);
            }
            if row[c] < -1_000_000 || row[c] > 1_000_000 {
                proof {
                    assert(!(-(ONE as int) <= g[r as int][c as int] <= ONE));
                }
                return false;
            }
            c += 1;
        }
        proof {
            lemma_score_view(scores@);
        }
        r += 1;
    }
    true
}

/// Aligns one window. `joined` holds the similarities of the window's
/// `xs_len` left units followed by its `ys_len` right units among
/// themselves, as fixed-point numbers.
///
/// The similarities between the two sides become costs, the costs are
/// scaled by rows and columns, and the search runs on the result. Returned
/// are the path, in the window's own coordinates, and the costs that the
/// search ran on.
pub fn alignment_path(
    joined: &Vec<Vec<i32>>,
    xs_len: usize,
    ys_len: usize,
    flexible_start: bool,
) -> (result: Result<(Vec<(usize, usize)>, Vec<Vec<u32>>), AlignError>)
    requires
        xs_len > 0,
        ys_len > 0,
    ensures
        match result {
            Err(AlignError::DimensionMismatch) => !has_shape(
                score_view(joined@),
                xs_len + ys_len,
                xs_len + ys_len,
            ),
            Err(AlignError::ScoreOutOfRange) => {
                &&& has_shape(score_view(joined@), xs_len + ys_len, xs_len + ys_len)
                &&& !all_within(
                    reconstructed(score_view(joined@), xs_len as int),
                    -(ONE as int),
                    ONE as int,
                )
            },
            Ok((path, costs)) => {
                &&& has_shape(score_view(joined@), xs_len + ys_len, xs_len + ys_len)
                &&& all_within(
                    reconstructed(score_view(joined@), xs_len as int),
                    -(ONE as int),
                    ONE as int,
                )
                &&& cost_view(costs@) == window_costs(score_view(joined@), xs_len as int)
                &&& has_shape(cost_view(costs@), ys_len as int, xs_len as int)
                &&& all_within(cost_view(costs@), 0, ONE as int)
                &&& path_view(path@) == search_path(cost_view(costs@), flexible_start)
                &&& is_route(cost_view(costs@), path_view(path@), flexible_start)
            },
        },
{
    let ghost g = score_view(joined@);
    if xs_len > usize::MAX - ys_len {
        proof {
            lemma_score_view(joined@);
            assert(g.len() == joined.len());
            assert(joined.len() <= usize::MAX);
        }
        return Err(AlignError::DimensionMismatch);
    }
    if !is_square(joined, xs_len + ys_len) {
        return Err(AlignError::DimensionMismatch);
    }
    proof {
        lemma_score_view(joined@);
        assert forall|x: int| 0 <= x < xs_len implies (#[trigger] joined[x]).len()
            >= joined.len() by {
            assert(g[x].len() == xs_len + ys_len);
        }
    }
    let xs_to_ys = reconstruct(joined, xs_len);
    if !scores_in_range(&xs_to_ys) {
        return Err(AlignError::ScoreOutOfRange);
    }
    let cost_matrix = similarity_costs(&xs_to_ys);
    let ghost raw = cost_view(cost_matrix@);
    proof {
        let block = reconstructed(g, xs_len as int);
        assert(raw == costs_of(block));
        assert(raw.len() == ys_len);
        assert forall|r: int| 0 <= r < raw.len() implies (#[trigger] raw[r]).len() == width(
            raw,
        ) by {
            assert(block[r].len() == xs_len);
            assert(block[0].len() == xs_len);
        }
        assert(width(raw) == xs_len) by {
            assert(block[0].len() == xs_len);
        }
    }
    let cost_matrix = row_col_blended_normalization(&cost_matrix);
    proof {
        let costs = cost_view(cost_matrix@);
        assert(costs[0].len() == xs_len);
        assert forall|r: int, c: int|
            0 <= r < costs.len() && 0 <= c < costs[0].len() implies 0 <= #[trigger] costs[r][c]
            <= MAX_CELL by {
            assert(costs[r].len() == xs_len);
        }
    }
    let path = find_path(&cost_matrix, flexible_start);
    Ok((path, cost_matrix))
}

} // verus!
