//! Joining the paths of overlapping windows into one path.
//!
//! Each window's path is moved to the window's place in the two sequences
//! and the moved paths are laid end to end in the order of their windows.
//! Where a later window returns to a point that is already on the joined
//! path, everything from that point on is dropped in favour of what the
//! later window found.

use vstd::prelude::*;
use crate::driver::{
    is_run, is_window_path, lemma_offsets_sum, lemma_step_progress, midpoint, next_state,
    reaches_end, window_len, DriverState,
};
use crate::route::{
    is_monotone_path, is_step, lemma_monotone_path_order, lemma_monotone_prefix, path_view,
    point_view,
};

verus! {

/// The index of the first occurrence of `p` in `s`, or the length of `s` if
/// `p` does not occur.
pub open spec fn position<A>(s: Seq<A>, p: A) -> int
    decreases s.len(),
{
    if s.len() == 0 {
        0
    } else if s.first() == p {
        0
    } else {
        1 + position(s.drop_first(), p)
    }
}

/// The path that is left when every return to an earlier point drops what
/// followed that point: the points are taken in order, and each one first
/// cuts the result back to just before its own first occurrence.
pub open spec fn without_backtracks<A>(path: Seq<A>) -> Seq<A>
    decreases path.len(),
{
    if path.len() == 0 {
        Seq::empty()
    } else {
        let kept = without_backtracks(path.drop_last());
        kept.take(position(kept, path.last())).push(path.last())
    }
}

/// `position` is the least index that holds `p`, and the length where none
/// does.
pub proof fn lemma_position<A>(s: Seq<A>, p: A)
    ensures
        0 <= position(s, p) <= s.len(),
        forall|j: int| 0 <= j < position(s, p) ==> #[trigger] s[j] != p,
        position(s, p) < s.len() ==> s[position(s, p)] == p,
    decreases s.len(),
{
    if s.len() > 0 && s.first() != p {
        let rest = s.drop_first();
        lemma_position(rest, p);
        assert forall|j: int| 0 <= j < position(s, p) implies #[trigger] s[j] != p by {
            if j > 0 {
                assert(s[j] == rest[j - 1]);
            }
        }
        if position(s, p) < s.len() {
            assert(rest[position(rest, p)] == s[position(s, p)]);
        }
    }
}

/// An index that holds `p` while none before it does is the position of `p`;
/// so is the length if no index holds `p`.
pub proof fn lemma_position_is<A>(s: Seq<A>, p: A, i: int)
    requires
        0 <= i <= s.len(),
        forall|j: int| 0 <= j < i ==> #[trigger] s[j] != p,
        i < s.len() ==> s[i] == p,
    ensures
        position(s, p) == i,
{
    lemma_position(s, p);
    let found = position(s, p);
    if found < i {
        assert(s[found] != p);
    } else if i < found {
        assert(s[i] != p);
    }
}

/// What is left without backtracks holds no point twice, holds only points
/// of the path, and ends where the path ends.
pub proof fn lemma_without_backtracks<A>(path: Seq<A>)
    ensures
        without_backtracks(path).no_duplicates(),
        forall|p: A| #[trigger] without_backtracks(path).contains(p) ==> path.contains(p),
        path.len() > 0 ==> without_backtracks(path).len() > 0 && without_backtracks(path).last()
            == path.last(),
        without_backtracks(path).len() <= path.len(),
    decreases path.len(),
{
    if path.len() > 0 {
        let shorter = path.drop_last();
        lemma_without_backtracks(shorter);
        let kept = without_backtracks(shorter);
        let p = path.last();
        lemma_position(kept, p);
        let cut = position(kept, p);
        let result = without_backtracks(path);
        assert(result == kept.take(cut).push(p));
        assert forall|i: int, j: int| 0 <= i < result.len() && 0 <= j < result.len() && i != j
            implies result[i] != result[j] by {
            if i < cut && j < cut {
                assert(result[i] == kept[i] && result[j] == kept[j]);
            } else if i < cut {
                assert(result[i] == kept[i]);
            } else {
                assert(result[j] == kept[j]);
            }
        }
        assert forall|q: A| #[trigger] result.contains(q) implies path.contains(q) by {
            let i = choose|i: int| 0 <= i < result.len() && result[i] == q;
            if i < cut {
                assert(kept[i] == q);
                assert(kept.contains(q));
                let j = choose|j: int| 0 <= j < shorter.len() && shorter[j] == q;
                assert(path[j] == q);
            } else {
                assert(path[path.len() - 1] == q);
            }
        }
    }
}

/// A path that holds no point twice has no backtracks to remove.
pub proof fn lemma_without_backtracks_of_distinct<A>(path: Seq<A>)
    requires
        path.no_duplicates(),
    ensures
        without_backtracks(path) == path,
    decreases path.len(),
{
    if path.len() > 0 {
        let shorter = path.drop_last();
        let p = path.last();
        assert forall|i: int, j: int|
            0 <= i < shorter.len() && 0 <= j < shorter.len() && i != j implies shorter[i]
            != shorter[j] by {
            assert(shorter[i] == path[i] && shorter[j] == path[j]);
        }
        lemma_without_backtracks_of_distinct(shorter);
        assert forall|j: int| 0 <= j < shorter.len() implies #[trigger] shorter[j] != p by {
            assert(shorter[j] == path[j]);
            assert(p == path[path.len() - 1]);
        }
        lemma_position_is(shorter, p, shorter.len() as int);
        assert(shorter.take(shorter.len() as int) =~= shorter);
        assert(shorter.push(p) =~= path);
    } else {
        assert(without_backtracks(path) =~= path);
    }
}

/// Removing the backtracks a second time changes nothing.
pub proof fn lemma_without_backtracks_is_idempotent<A>(path: Seq<A>)
    ensures
        without_backtracks(without_backtracks(path)) == without_backtracks(path),
{
    lemma_without_backtracks(path);
    lemma_without_backtracks_of_distinct(without_backtracks(path));
}

/// Removes from a path every branch that a later return to one of its
/// points made void: for each point in order, the result is first cut back
/// to just before the point's first occurrence in it, then the point is
/// appended.
pub fn remove_backtracks(path: &[(usize, usize)]) -> (result: Vec<(usize, usize)>)
    ensures
        result@ == without_backtracks(path@),
        result@.no_duplicates(),
        forall|p: (usize, usize)| #[trigger] result@.contains(p) ==> path@.contains(p),
        path@.len() > 0 ==> result@.len() > 0 && result@.last() == path@.last(),
{
    let mut result: Vec<(usize, usize)> = Vec::new();
    let mut k: usize = 0;
    while k < path.len()
        invariant
            k <= path.len(),
            result@ == without_backtracks(path@.take(k as int)),
        decreases path.len() - k,
    {
        let p = path[k];
        let mut i: usize = 0;
        while i < result.len() && !(result[i].0 == p.0 && result[i].1 == p.1)
            invariant
                i <= result.len(),
                forall|j: int| 0 <= j < i ==> #[trigger] result@[j] != p,
            decreases result.len() - i,
        {
            i += 1;
        }
        proof {
            lemma_position_is(result@, p, i as int);
            let longer = path@.take(k + 1);
            assert(longer.drop_last() =~= path@.take(k as int));
            assert(longer.last() == p);
        }
        result.truncate(i);
        result.push(p);
        k += 1;
    }
    proof {
        assert(path@.take(path.len() as int) =~= path@);
        lemma_without_backtracks(path@);
    }
    result
}

/// The path of one window, in the window's own coordinates, with the state
/// of the driver at which the window was aligned.
#[derive(Clone, Debug, PartialEq, Eq)]
pub struct Checkpoint {
    pub state: DriverState,
    pub path: Vec<(usize, usize)>,
}

/// Every point of the path can be moved by the two offsets without leaving
/// the range of `usize`.
pub open spec fn can_translate(path: Seq<(usize, usize)>, left: usize, right: usize) -> bool {
    forall|i: int|
        0 <= i < path.len() ==> (#[trigger] path[i]).0 + left <= usize::MAX && path[i].1 + right
            <= usize::MAX
}

/// The path with `left` added to every left index and `right` to every right
/// index.
pub open spec fn translated(path: Seq<(usize, usize)>, left: usize, right: usize) -> Seq<
    (usize, usize),
> {
    Seq::new(path.len(), |i: int| ((path[i].0 + left) as usize, (path[i].1 + right) as usize))
}

/// Moves a path from a window's coordinates to those of the whole
/// sequences. There is no result if a moved index would exceed `usize`.
pub fn translate(path: &Vec<(usize, usize)>, left_start: usize, right_start: usize) -> (moved:
    Option<Vec<(usize, usize)>>)
    ensures
        moved is Some <==> can_translate(path@, left_start, right_start),
        moved matches Some(v) ==> v@ == translated(path@, left_start, right_start),
{
    let mut moved: Vec<(usize, usize)> = Vec::new();
    let mut i: usize = 0;
    while i < path.len()
        invariant
            i <= path.len(),
            can_translate(path@.take(i as int), left_start, right_start),
            moved@ == translated(path@.take(i as int), left_start, right_start),
        decreases path.len() - i,
    {
        let p = path[i];
        if p.0 > usize::MAX - left_start || p.1 > usize::MAX - right_start {
            return None;
        }
        moved.push((p.0 + left_start, p.1 + right_start));
        proof {
            let shorter = path@.take(i as int);
            let longer = path@.take(i + 1);
            assert forall|j: int| 0 <= j < longer.len() implies (#[trigger] longer[j]).0
                + left_start <= usize::MAX && longer[j].1 + right_start <= usize::MAX by {
                if j < i {
                    assert(longer[j] == shorter[j]);
                }
            }
            assert(moved@ =~= translated(longer, left_start, right_start));
        }
        i += 1;
    }
    proof {
        assert(path@.take(path.len() as int) =~= path@);
    }
    Some(moved)
}

/// The index of the first checkpoint whose iteration is not below
/// `iteration`, or the length if there is none.
pub open spec fn first_not_before(s: Seq<Checkpoint>, iteration: usize) -> int
    decreases s.len(),
{
    if s.len() == 0 {
        0
    } else if s.first().state.iteration >= iteration {
        0
    } else {
        1 + first_not_before(s.drop_first(), iteration)
    }
}

/// The checkpoints in ascending order of iteration; those of one iteration
/// keep the order in which they were given.
pub open spec fn by_iteration(cs: Seq<Checkpoint>) -> Seq<Checkpoint>
    decreases cs.len(),
{
    if cs.len() == 0 {
        Seq::empty()
    } else {
        let rest = by_iteration(cs.drop_first());
        rest.insert(first_not_before(rest, cs.first().state.iteration), cs.first())
    }
}

/// The iterations never decrease along the sequence.
pub open spec fn is_ascending(cs: Seq<Checkpoint>) -> bool {
    forall|i: int, j: int|
        0 <= i <= j < cs.len() ==> (#[trigger] cs[i]).state.iteration <= (
        #[trigger] cs[j]).state.iteration
}

/// `first_not_before` lies within the sequence, every checkpoint before it
/// has a smaller iteration, and the one at it has not.
pub proof fn lemma_first_not_before(s: Seq<Checkpoint>, iteration: usize)
    ensures
        0 <= first_not_before(s, iteration) <= s.len(),
        forall|j: int|
            0 <= j < first_not_before(s, iteration) ==> (#[trigger] s[j]).state.iteration
                < iteration,
        first_not_before(s, iteration) < s.len() ==> s[first_not_before(
            s,
            iteration,
        )].state.iteration >= iteration,
    decreases s.len(),
{
    if s.len() > 0 && s.first().state.iteration < iteration {
        let rest = s.drop_first();
        lemma_first_not_before(rest, iteration);
        assert forall|j: int| 0 <= j < first_not_before(s, iteration) implies (
        #[trigger] s[j]).state.iteration < iteration by {
            if j > 0 {
                assert(s[j] == rest[j - 1]);
            }
        }
        if first_not_before(s, iteration) < s.len() {
            assert(rest[first_not_before(rest, iteration)] == s[first_not_before(s, iteration)]);
        }
    }
}

/// An index before which all iterations are smaller and at which the
/// iteration is not is `first_not_before`.
pub proof fn lemma_first_not_before_is(s: Seq<Checkpoint>, iteration: usize, i: int)
    requires
        0 <= i <= s.len(),
        forall|j: int| 0 <= j < i ==> (#[trigger] s[j]).state.iteration < iteration,
        i < s.len() ==> s[i].state.iteration >= iteration,
    ensures
        first_not_before(s, iteration) == i,
{
    lemma_first_not_before(s, iteration);
    let found = first_not_before(s, iteration);
    if found < i {
        assert(s[found].state.iteration < iteration);
    } else if i < found {
        assert(s[i].state.iteration < iteration);
    }
}

/// The ordered checkpoints are the given ones, each as often as it was
/// given, in ascending order of iteration.
pub proof fn lemma_by_iteration(cs: Seq<Checkpoint>)
    ensures
        by_iteration(cs).len() == cs.len(),
        by_iteration(cs).to_multiset() == cs.to_multiset(),
        is_ascending(by_iteration(cs)),
    decreases cs.len(),
{
    broadcast use vstd::seq_lib::group_to_multiset_ensures;

    if cs.len() > 0 {
        let c = cs.first();
        let tail = cs.drop_first();
        lemma_by_iteration(tail);
        let rest = by_iteration(tail);
        lemma_first_not_before(rest, c.state.iteration);
        let at = first_not_before(rest, c.state.iteration);
        let all = by_iteration(cs);
        assert(all == rest.insert(at, c));
        assert forall|i: int, j: int| 0 <= i <= j < all.len() implies (
        #[trigger] all[i]).state.iteration <= (#[trigger] all[j]).state.iteration by {
            if i < at && j > at {
                assert(all[i] == rest[i] && all[j] == rest[j - 1]);
            } else if i > at {
                assert(all[i] == rest[i - 1] && all[j] == rest[j - 1]);
            } else if j < at {
                assert(all[i] == rest[i] && all[j] == rest[j]);
            } else if i == at && j > at {
                assert(all[j] == rest[j - 1]);
                assert(rest[at].state.iteration <= rest[j - 1].state.iteration);
            } else if i < at && j == at {
                assert(all[i] == rest[i]);
            }
        }
        assert(cs =~= tail.insert(0, c));
    }
}

/// The test for a checkpoint of iteration `k`.
pub open spec fn of_iteration(k: usize) -> spec_fn(Checkpoint) -> bool {
    |c: Checkpoint| c.state.iteration == k
}

/// A sequence of which no member passes a test gives nothing when it is
/// filtered by the test.
proof fn lemma_filter_none(s: Seq<Checkpoint>, k: usize)
    requires
        forall|i: int| 0 <= i < s.len() ==> (#[trigger] s[i]).state.iteration != k,
    ensures
        s.filter(of_iteration(k)) == Seq::<Checkpoint>::empty(),
    decreases s.len(),
{
    reveal(Seq::filter);
    if s.len() > 0 {
        let shorter = s.drop_last();
        assert forall|i: int| 0 <= i < shorter.len() implies (
        #[trigger] shorter[i]).state.iteration != k by {
            assert(shorter[i] == s[i]);
        }
        lemma_filter_none(shorter, k);
        assert(s[s.len() - 1].state.iteration != k);
    } else {
        assert(s =~= Seq::<Checkpoint>::empty());
    }
}

/// The order is stable: the checkpoints of any one iteration stand in the
/// ordered sequence as they stood in the given one.
pub proof fn lemma_order_is_stable(cs: Seq<Checkpoint>, k: usize)
    ensures
        by_iteration(cs).filter(of_iteration(k)) == cs.filter(of_iteration(k)),
    decreases cs.len(),
{
    let wanted = of_iteration(k);
    if cs.len() > 0 {
        let c = cs.first();
        let tail = cs.drop_first();
        lemma_order_is_stable(tail, k);
        let rest = by_iteration(tail);
        lemma_by_iteration(tail);
        lemma_first_not_before(rest, c.state.iteration);
        let at = first_not_before(rest, c.state.iteration);
        let front = rest.take(at);
        let back = rest.skip(at);
        let one = seq![c];
        assert(by_iteration(cs) =~= front + one + back);
        assert(rest =~= front + back);
        assert(cs =~= one + tail);
        Seq::filter_distributes_over_add(front + one, back, wanted);
        Seq::filter_distributes_over_add(front, one, wanted);
        Seq::filter_distributes_over_add(front, back, wanted);
        Seq::filter_distributes_over_add(one, tail, wanted);
        assert(one.filter(wanted) =~= if c.state.iteration == k {
            one
        } else {
            Seq::<Checkpoint>::empty()
        }) by {
            reveal(Seq::filter);
            assert(one.drop_last() =~= Seq::<Checkpoint>::empty());
            assert(one.drop_last().filter(wanted) =~= Seq::<Checkpoint>::empty());
            assert(one.last() == c);
        }
        if c.state.iteration == k {
            assert forall|i: int| 0 <= i < front.len() implies (
            #[trigger] front[i]).state.iteration != k by {
                assert(front[i] == rest[i]);
            }
            lemma_filter_none(front, k);
            assert(front.filter(wanted) + one + back.filter(wanted) =~= one + (front.filter(
                wanted,
            ) + back.filter(wanted)));
        } else {
            assert(front.filter(wanted) + one.filter(wanted) + back.filter(wanted)
                =~= front.filter(wanted) + back.filter(wanted));
            assert(one.filter(wanted) + tail.filter(wanted) =~= tail.filter(wanted));
        }
    }
}

/// Puts the checkpoints in ascending order of iteration. Checkpoints of one
/// iteration stay in the order in which they were given.
pub fn order_by_iteration(checkpoints: Vec<Checkpoint>) -> (ordered: Vec<Checkpoint>)
    ensures
        ordered@ == by_iteration(checkpoints@),
        ordered@.len() == checkpoints@.len(),
        ordered@.to_multiset() == checkpoints@.to_multiset(),
        is_ascending(ordered@),
{
    let ghost all = checkpoints@;
    let mut rest = checkpoints;
    let mut ordered: Vec<Checkpoint> = Vec::new();
    while rest.len() > 0
        invariant
            rest@ == all.take(rest.len() as int),
            rest.len() <= all.len(),
            ordered@ == by_iteration(all.skip(rest.len() as int)),
        decreases rest.len(),
    {
        let ghost before = rest@;
        let c = rest.pop().unwrap();
        let mut i: usize = 0;
        while i < ordered.len() && ordered[i].state.iteration < c.state.iteration
            invariant
                i <= ordered.len(),
                forall|j: int| 0 <= j < i ==> (#[trigger] ordered@[j]).state.iteration
                    < c.state.iteration,
            decreases ordered.len() - i,
        {
            i += 1;
        }
        proof {
            lemma_first_not_before_is(ordered@, c.state.iteration, i as int);
            let suffix = all.skip(rest.len() as int);
            assert(suffix.first() == c);
            assert(suffix.drop_first() =~= all.skip(rest.len() + 1));
            assert(rest@ =~= all.take(rest.len() as int));
        }
        ordered.insert(i, c);
    }
    proof {
        assert(all.skip(0) =~= all);
        lemma_by_iteration(all);
    }
    ordered
}

/// Every checkpoint's path can be moved by the checkpoint's offsets.
pub open spec fn all_fit(cs: Seq<Checkpoint>) -> bool {
    forall|i: int|
        0 <= i < cs.len() ==> can_translate(
            (#[trigger] cs[i]).path@,
            cs[i].state.left_start,
            cs[i].state.right_start,
        )
}

/// The moved paths of the checkpoints laid end to end in the given order.
pub open spec fn laid_out(cs: Seq<Checkpoint>) -> Seq<(usize, usize)>
    decreases cs.len(),
{
    if cs.len() == 0 {
        Seq::empty()
    } else {
        laid_out(cs.drop_last()) + translated(
            cs.last().path@,
            cs.last().state.left_start,
            cs.last().state.right_start,
        )
    }
}

/// The one path that the checkpoints give: their moved paths in ascending
/// order of iteration, end to end, without backtracks.
pub open spec fn joined(cs: Seq<Checkpoint>) -> Seq<(usize, usize)> {
    without_backtracks(laid_out(by_iteration(cs)))
}

/// Two sequences of checkpoints with the same members fit or fail to fit
/// together.
pub proof fn lemma_all_fit_same_members(a: Seq<Checkpoint>, b: Seq<Checkpoint>)
    requires
        a.to_multiset() == b.to_multiset(),
    ensures
        all_fit(a) == all_fit(b),
{
    broadcast use vstd::seq_lib::group_to_multiset_ensures;

    if all_fit(a) {
        assert forall|i: int| 0 <= i < b.len() implies can_translate(
            (#[trigger] b[i]).path@,
            b[i].state.left_start,
            b[i].state.right_start,
        ) by {
            assert(b.to_multiset().count(b[i]) > 0);
            assert(a.contains(b[i]));
            let j = choose|j: int| 0 <= j < a.len() && a[j] == b[i];
            assert(can_translate(a[j].path@, a[j].state.left_start, a[j].state.right_start));
        }
    }
    if all_fit(b) {
        assert forall|i: int| 0 <= i < a.len() implies can_translate(
            (#[trigger] a[i]).path@,
            a[i].state.left_start,
            a[i].state.right_start,
        ) by {
            assert(a.to_multiset().count(a[i]) > 0);
            assert(b.contains(a[i]));
            let j = choose|j: int| 0 <= j < b.len() && b[j] == a[i];
            assert(can_translate(b[j].path@, b[j].state.left_start, b[j].state.right_start));
        }
    }
}

/// Joins the paths of all windows into one path over the whole sequences.
///
/// The checkpoints are taken in ascending order of iteration, each path is
/// moved by its window's offsets, the moved paths are laid end to end, and
/// the backtracks that the overlap of the windows causes are removed. There
/// is no result if a moved index would exceed `usize`.
pub fn joined_path(checkpoints: Vec<Checkpoint>) -> (path: Option<Vec<(usize, usize)>>)
    ensures
        path is Some <==> all_fit(checkpoints@),
        path matches Some(v) ==> v@ == joined(checkpoints@) && v@.no_duplicates(),
{
    let ghost given = checkpoints@;
    let ordered = order_by_iteration(checkpoints);
    proof {
        lemma_all_fit_same_members(ordered@, given);
    }
    let mut all_data: Vec<(usize, usize)> = Vec::new();
    let mut k: usize = 0;
    while k < ordered.len()
        invariant
            k <= ordered.len(),
            given == checkpoints@,
            all_fit(ordered@) == all_fit(given),
            all_fit(ordered@.take(k as int)),
            all_data@ == laid_out(ordered@.take(k as int)),
        decreases ordered.len() - k,
    {
        let ghost shorter = ordered@.take(k as int);
        let ghost longer = ordered@.take(k + 1);
        proof {
            assert(longer.drop_last() =~= shorter);
            assert(longer.last() == ordered@[k as int]);
        }
        let c = &ordered[k];
        match translate(&c.path, c.state.left_start, c.state.right_start) {
            None => {
                return None;
            },
            Some(mut moved) => {
                all_data.append(&mut moved);
            },
        }
        proof {
            assert forall|j: int| 0 <= j < longer.len() implies can_translate(
                (#[trigger] longer[j]).path@,
                longer[j].state.left_start,
                longer[j].state.right_start,
            ) by {
                if j < k {
                    assert(longer[j] == shorter[j]);
                }
            }
        }
        k += 1;
    }
    proof {
        assert(ordered@.take(ordered.len() as int) =~= ordered@);
    }
    Some(remove_backtracks(all_data.as_slice()))
}

/// What is left of `kept` followed by `more` when the backtracks are
/// removed, where `kept` has none: the points of `more` are taken in order,
/// and each one first cuts the result back to just before its own first
/// occurrence.
pub open spec fn absorbed<A>(kept: Seq<A>, more: Seq<A>) -> Seq<A>
    decreases more.len(),
{
    if more.len() == 0 {
        kept
    } else {
        let before = absorbed(kept, more.drop_last());
        before.take(position(before, more.last())).push(more.last())
    }
}

/// Removing the backtracks of two paths laid end to end is removing those
/// of the first and then taking in the second point by point.
pub proof fn lemma_without_backtracks_of_sum<A>(a: Seq<A>, b: Seq<A>)
    ensures
        without_backtracks(a + b) == absorbed(without_backtracks(a), b),
    decreases b.len(),
{
    if b.len() == 0 {
        assert(a + b =~= a);
    } else {
        lemma_without_backtracks_of_sum(a, b.drop_last());
        assert((a + b).drop_last() =~= a + b.drop_last());
        assert((a + b).last() == b.last());
    }
}

/// A monotone path that continues a monotone path from its point `q` on
/// replaces what followed that point: nothing else is cut away.
pub proof fn lemma_absorbed_continuation(
    kept: Seq<(usize, usize)>,
    more: Seq<(usize, usize)>,
    q: int,
)
    requires
        more.len() > 0,
        0 <= q <= kept.len(),
        q < kept.len() ==> kept[q] == more[0],
        is_monotone_path(path_view(kept)),
        is_monotone_path(path_view(kept.take(q) + more)),
    ensures
        absorbed(kept, more) == kept.take(q) + more,
    decreases more.len(),
{
    let whole = kept.take(q) + more;
    let wide = path_view(whole);
    let p = more.last();
    assert(whole[whole.len() - 1] == p);
    if more.len() == 1 {
        assert(absorbed(kept, more.drop_last()) == kept);
        assert forall|j: int| 0 <= j < q implies #[trigger] kept[j] != p by {
            lemma_monotone_path_order(wide, j, q);
            assert(wide[j] == point_view(kept[j]));
            assert(wide[q] == point_view(p));
        }
        lemma_position_is(kept, p, q);
        assert(kept.take(q).push(p) =~= whole);
    } else {
        let shorter = more.drop_last();
        let part = kept.take(q) + shorter;
        assert(part =~= whole.take(whole.len() - 1));
        lemma_monotone_prefix(wide, whole.len() - 1);
        assert(path_view(part) =~= wide.take(whole.len() - 1));
        lemma_absorbed_continuation(kept, shorter, q);
        assert forall|j: int| 0 <= j < part.len() implies #[trigger] part[j] != p by {
            lemma_monotone_path_order(wide, j, whole.len() - 1);
            assert(wide[j] == point_view(part[j]));
            assert(wide[whole.len() - 1] == point_view(p));
        }
        lemma_position_is(part, p, part.len() as int);
        assert(part.take(part.len() as int) =~= part);
        assert(part.push(p) =~= whole);
    }
}

/// Checkpoints as a driver leaves them: every path is a monotone path that
/// can be moved by its window's offsets, and every window but the first
/// starts, with the first point of its path, at the midpoint of the path of
/// the window before it.
pub open spec fn is_chain(cs: Seq<Checkpoint>) -> bool {
    &&& all_fit(cs)
    &&& forall|k: int|
        0 <= k < cs.len() ==> (#[trigger] cs[k]).path@.len() > 0 && is_monotone_path(
            path_view(cs[k].path@),
        )
    &&& forall|k: int|
        0 <= k < cs.len() - 1 ==> {
            &&& (#[trigger] cs[k + 1]).path@[0] == (0usize, 0usize)
            &&& cs[k + 1].state.left_start == cs[k].state.left_start + midpoint(cs[k].path@).0
            &&& cs[k + 1].state.right_start == cs[k].state.right_start + midpoint(cs[k].path@).1
        }
}

/// The moved path of a checkpoint.
pub open spec fn moved(c: Checkpoint) -> Seq<(usize, usize)> {
    translated(c.path@, c.state.left_start, c.state.right_start)
}

/// Moving a monotone path leaves it monotone.
pub proof fn lemma_translated_monotone(path: Seq<(usize, usize)>, left: usize, right: usize)
    requires
        can_translate(path, left, right),
        is_monotone_path(path_view(path)),
    ensures
        is_monotone_path(path_view(translated(path, left, right))),
{
    let from = path_view(path);
    let to = path_view(translated(path, left, right));
    assert forall|i: int| 0 <= i < to.len() - 1 implies is_step(#[trigger] to[i], to[i + 1]) by {
        assert(is_step(from[i], from[i + 1]));
        assert(path[i].0 + left <= usize::MAX && path[i].1 + right <= usize::MAX);
        assert(path[i + 1].0 + left <= usize::MAX && path[i + 1].1 + right <= usize::MAX);
    }
}

/// What a chain of windows has confirmed before its last window: of each
/// window but the last the moved path up to its midpoint, the midpoint not
/// included.
pub open spec fn confirmed(cs: Seq<Checkpoint>) -> Seq<(usize, usize)>
    decreases cs.len(),
{
    if cs.len() <= 1 {
        Seq::empty()
    } else {
        let before = cs[cs.len() - 2];
        confirmed(cs.drop_last()) + moved(before).take(before.path@.len() as int / 2)
    }
}

/// The paths of a chain of windows join to one monotone path: what the
/// windows before the last have confirmed, followed by the whole moved path
/// of the last window.
pub proof fn lemma_chain_joins(cs: Seq<Checkpoint>)
    requires
        cs.len() > 0,
        is_chain(cs),
    ensures
        without_backtracks(laid_out(cs)) == confirmed(cs) + moved(cs.last()),
        is_monotone_path(path_view(without_backtracks(laid_out(cs)))),
    decreases cs.len(),
{
    let last = cs.last();
    let tail = moved(last);
    assert(can_translate(last.path@, last.state.left_start, last.state.right_start));
    lemma_translated_monotone(last.path@, last.state.left_start, last.state.right_start);
    let earlier = cs.drop_last();
    if cs.len() == 1 {
        assert(laid_out(earlier) =~= Seq::<(usize, usize)>::empty());
        assert(without_backtracks(laid_out(earlier)) =~= Seq::<(usize, usize)>::empty());
        let kept = Seq::<(usize, usize)>::empty();
        lemma_without_backtracks_of_sum(laid_out(earlier), tail);
        assert(kept.take(0) + tail =~= tail);
        assert(path_view(kept) =~= Seq::<(int, int)>::empty());
        lemma_absorbed_continuation(kept, tail, 0);
        assert(confirmed(cs) + tail =~= tail);
    } else {
        assert(all_fit(earlier)) by {
            assert forall|i: int| 0 <= i < earlier.len() implies can_translate(
                (#[trigger] earlier[i]).path@,
                earlier[i].state.left_start,
                earlier[i].state.right_start,
            ) by {
                assert(earlier[i] == cs[i]);
            }
        }
        assert(is_chain(earlier)) by {
            assert forall|k: int| 0 <= k < earlier.len() implies (
            #[trigger] earlier[k]).path@.len() > 0 && is_monotone_path(
                path_view(earlier[k].path@),
            ) by {
                assert(earlier[k] == cs[k]);
            }
            assert forall|k: int| 0 <= k < earlier.len() - 1 implies {
                &&& (#[trigger] earlier[k + 1]).path@[0] == (0usize, 0usize)
                &&& earlier[k + 1].state.left_start == earlier[k].state.left_start + midpoint(
                    earlier[k].path@,
                ).0
                &&& earlier[k + 1].state.right_start == earlier[k].state.right_start + midpoint(
                    earlier[k].path@,
                ).1
            } by {
                assert(earlier[k + 1] == cs[k + 1]);
                assert(earlier[k] == cs[k]);
            }
        }
        lemma_chain_joins(earlier);
        let kept = without_backtracks(laid_out(earlier));
        let previous = earlier.last();
        let n = cs.len() as int;
        assert(previous == cs[n - 2]);
        assert(last == cs[n - 2 + 1]);
        let before = confirmed(earlier).len() as int;
        let half = previous.path@.len() as int / 2;
        let q = before + half;
        let old_tail = moved(previous);
        assert(kept == confirmed(earlier) + old_tail);
        assert(old_tail.len() == previous.path@.len());
        assert(kept[q] == old_tail[half]);
        assert(can_translate(
            previous.path@,
            previous.state.left_start,
            previous.state.right_start,
        ));
        assert(previous.path@[half].0 + previous.state.left_start <= usize::MAX);
        assert(tail[0] == kept[q]);
        assert(kept.take(q) =~= confirmed(earlier) + old_tail.take(half));
        assert(kept.take(q) == confirmed(cs));
        let whole = kept.take(q) + tail;
        assert forall|i: int| 0 <= i < path_view(whole).len() - 1 implies is_step(
            #[trigger] path_view(whole)[i],
            path_view(whole)[i + 1],
        ) by {
            if i < q - 1 {
                assert(is_step(path_view(kept)[i], path_view(kept)[i + 1]));
            } else if i == q - 1 {
                assert(is_step(path_view(kept)[i], path_view(kept)[i + 1]));
                assert(whole[i + 1] == tail[0]);
            } else {
                assert(is_step(path_view(tail)[i - q], path_view(tail)[i - q + 1]));
                assert(whole[i] == tail[i - q]);
                assert(whole[i + 1] == tail[i - q + 1]);
            }
        }
        lemma_absorbed_continuation(kept, tail, q);
        lemma_without_backtracks_of_sum(laid_out(earlier), tail);
    }
}

/// Checkpoints that are given in ascending order of iteration stay in the
/// order in which they were given.
pub proof fn lemma_ascending_stays(cs: Seq<Checkpoint>)
    requires
        is_ascending(cs),
    ensures
        by_iteration(cs) == cs,
    decreases cs.len(),
{
    if cs.len() > 0 {
        let tail = cs.drop_first();
        assert forall|i: int, j: int| 0 <= i <= j < tail.len() implies (
        #[trigger] tail[i]).state.iteration <= (#[trigger] tail[j]).state.iteration by {
            assert(tail[i] == cs[i + 1] && tail[j] == cs[j + 1]);
        }
        lemma_ascending_stays(tail);
        if tail.len() > 0 {
            assert(tail[0] == cs[1]);
            assert(cs[0].state.iteration <= cs[1].state.iteration);
        }
        lemma_first_not_before_is(tail, cs.first().state.iteration, 0);
        assert(tail.insert(0, cs.first()) =~= cs);
    }
}

/// The joined path of a chain of windows, given in the order of their
/// iterations, is a monotone path without repeated points: every step
/// advances the left index, the right index or both by exactly one. It holds
/// what the windows before the last have confirmed and then the whole path
/// of the last window.
pub proof fn lemma_joined_chain_is_monotone(cs: Seq<Checkpoint>)
    requires
        cs.len() > 0,
        is_ascending(cs),
        is_chain(cs),
    ensures
        joined(cs) == confirmed(cs) + moved(cs.last()),
        is_monotone_path(path_view(joined(cs))),
        joined(cs).no_duplicates(),
{
    lemma_ascending_stays(cs);
    lemma_chain_joins(cs);
    lemma_without_backtracks(laid_out(cs));
}

/// The checkpoints of a run of the driver: one for each state of the run,
/// with the path that the state's window gave; `last_path` is the path of
/// the window of the last state.
pub open spec fn records_run(
    cs: Seq<Checkpoint>,
    states: Seq<DriverState>,
    paths: Seq<Seq<(usize, usize)>>,
    last_path: Seq<(usize, usize)>,
) -> bool {
    &&& cs.len() == states.len()
    &&& forall|i: int| 0 <= i < cs.len() ==> (#[trigger] cs[i]).state == states[i]
    &&& forall|i: int| 0 <= i < paths.len() ==> (#[trigger] cs[i]).path@ == paths[i]
    &&& cs.last().path@ == last_path
}

/// What a run of the driver leaves behind joins to one path. The
/// checkpoints of a run, with the path of its last window, form a chain in
/// ascending order of iteration; so their joined path is a monotone path
/// without repeated points.
pub proof fn lemma_run_joins_monotone(
    cs: Seq<Checkpoint>,
    states: Seq<DriverState>,
    paths: Seq<Seq<(usize, usize)>>,
    last_path: Seq<(usize, usize)>,
    left_len: int,
    right_len: int,
    window_size: int,
)
    requires
        window_size >= 2,
        0 < left_len <= usize::MAX,
        0 < right_len <= usize::MAX,
        paths.len() < usize::MAX,
        is_run(states, paths, left_len, right_len, window_size),
        is_window_path(
            last_path,
            window_len(states.last().left_start as int, left_len, window_size),
            window_len(states.last().right_start as int, right_len, window_size),
            states.last().iteration == 0,
        ),
        records_run(cs, states, paths, last_path),
    ensures
        is_ascending(cs),
        is_chain(cs),
        is_monotone_path(path_view(joined(cs))),
        joined(cs).no_duplicates(),
        joined(cs) == confirmed(cs) + moved(cs.last()),
{
    let n = paths.len() as int;
    assert forall|k: int| 0 <= k <= n implies {
        &&& (#[trigger] states[k]).iteration == k
        &&& states[k].left_start < left_len
        &&& states[k].right_start < right_len
    } by {
        let some_states = states.take(k + 1);
        let some_paths = paths.take(k);
        assert forall|i: int| 0 <= i < some_paths.len() implies {
            &&& is_window_path(
                #[trigger] some_paths[i],
                window_len(some_states[i].left_start as int, left_len, window_size),
                window_len(some_states[i].right_start as int, right_len, window_size),
                some_states[i].iteration == 0,
            )
            &&& !reaches_end(some_states[i], some_paths[i].last(), left_len, right_len)
            &&& some_states[i + 1] == next_state(some_states[i], some_paths[i])
        } by {
            assert(some_paths[i] == paths[i]);
        }
        lemma_offsets_sum(some_states, some_paths, left_len, right_len, window_size);
    }
    let path_of = |k: int|
        if k < n {
            paths[k]
        } else {
            last_path
        };
    assert forall|k: int| 0 <= k <= n implies cs[k].path@ == path_of(k) && is_window_path(
        #[trigger] path_of(k),
        window_len(states[k].left_start as int, left_len, window_size),
        window_len(states[k].right_start as int, right_len, window_size),
        states[k].iteration == 0,
    ) by {
        if k < n {
            assert(cs[k].path@ == paths[k]);
        }
    }
    assert forall|i: int, j: int| 0 <= i <= j < cs.len() implies (
    #[trigger] cs[i]).state.iteration <= (#[trigger] cs[j]).state.iteration by {
        assert(states[i].iteration == i && states[j].iteration == j);
    }
    assert forall|i: int| 0 <= i < cs.len() implies can_translate(
        (#[trigger] cs[i]).path@,
        cs[i].state.left_start,
        cs[i].state.right_start,
    ) by {
        assert(states[i].left_start < left_len);
        assert(is_window_path(
            path_of(i),
            window_len(states[i].left_start as int, left_len, window_size),
            window_len(states[i].right_start as int, right_len, window_size),
            states[i].iteration == 0,
        ));
    }
    assert forall|k: int| 0 <= k < cs.len() implies (#[trigger] cs[k]).path@.len() > 0
        && is_monotone_path(path_view(cs[k].path@)) by {
        assert(is_window_path(
            path_of(k),
            window_len(states[k].left_start as int, left_len, window_size),
            window_len(states[k].right_start as int, right_len, window_size),
            states[k].iteration == 0,
        ));
    }
    assert forall|k: int| 0 <= k < cs.len() - 1 implies {
        &&& (#[trigger] cs[k + 1]).path@[0] == (0usize, 0usize)
        &&& cs[k + 1].state.left_start == cs[k].state.left_start + midpoint(cs[k].path@).0
        &&& cs[k + 1].state.right_start == cs[k].state.right_start + midpoint(cs[k].path@).1
    } by {
        assert(cs[k].path@ == paths[k]);
        assert(states[k + 1] == next_state(states[k], paths[k]));
        assert(states[k].iteration == k);
        lemma_step_progress(states[k], paths[k], left_len, right_len, window_size);
        assert(states[k + 1].iteration == k + 1);
        assert(is_window_path(
            path_of(k + 1),
            window_len(states[k + 1].left_start as int, left_len, window_size),
            window_len(states[k + 1].right_start as int, right_len, window_size),
            states[k + 1].iteration == 0,
        ));
    }
    lemma_joined_chain_is_monotone(cs);
}

} // verus!
