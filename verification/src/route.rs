//! Paths through the grid of two sequences, as mathematical values.
//!
//! A point is a pair of indices, the left one first. A path is a sequence of
//! points in which every step advances the left index, the right index or
//! both by exactly one.

use vstd::prelude::*;

verus! {

/// A point of an executable path as a pair of mathematical integers.
pub open spec fn point_view(p: (usize, usize)) -> (int, int) {
    (p.0 as int, p.1 as int)
}

/// An executable path as a sequence of integer pairs.
pub open spec fn path_view(p: Seq<(usize, usize)>) -> Seq<(int, int)> {
    Seq::new(p.len(), |i: int| point_view(p[i]))
}

/// `b` follows `a` by one step: one further on the left, one further on the
/// right, or one further on both.
pub open spec fn is_step(a: (int, int), b: (int, int)) -> bool {
    ||| (b.0 == a.0 + 1 && b.1 == a.1)
    ||| (b.0 == a.0 && b.1 == a.1 + 1)
    ||| (b.0 == a.0 + 1 && b.1 == a.1 + 1)
}

/// Every pair of consecutive points is a step.
pub open spec fn is_monotone_path(p: Seq<(int, int)>) -> bool {
    forall|i: int| 0 <= i < p.len() - 1 ==> is_step(#[trigger] p[i], p[i + 1])
}

/// Along a monotone path neither index ever decreases. From one point to a
/// later one each index grows by at most the number of steps between them,
/// and the two together by at least that number.
pub proof fn lemma_monotone_path_order(p: Seq<(int, int)>, i: int, j: int)
    requires
        is_monotone_path(p),
        0 <= i <= j < p.len(),
    ensures
        p[i].0 <= p[j].0,
        p[i].1 <= p[j].1,
        p[j].0 - p[i].0 <= j - i,
        p[j].1 - p[i].1 <= j - i,
        (p[j].0 - p[i].0) + (p[j].1 - p[i].1) >= j - i,
    decreases j - i,
{
    if i < j {
        lemma_monotone_path_order(p, i, j - 1);
        assert(is_step(p[j - 1], p[j - 1 + 1]));
    }
}

/// A prefix of a monotone path is a monotone path.
pub proof fn lemma_monotone_prefix(p: Seq<(int, int)>, n: int)
    requires
        is_monotone_path(p),
        0 <= n <= p.len(),
    ensures
        is_monotone_path(p.take(n)),
{
    let q = p.take(n);
    assert forall|i: int| 0 <= i < q.len() - 1 implies is_step(#[trigger] q[i], q[i + 1]) by {
        assert(is_step(p[i], p[i + 1]));
    }
}

} // verus!
