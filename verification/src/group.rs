//! Grouping the steps of a path into blocks.
//!
//! A block is a run of consecutive points that share their left index or
//! share their right index: one unit of one side set against one or more
//! units of the other. A diagonal step always begins a new block.

use vstd::prelude::*;
use std::collections::HashSet;

verus! {

/// One point of a path inside a block: the index on the left and the index
/// on the right.
#[derive(Clone, Copy, Debug, PartialEq, Eq, Structural)]
pub struct LRPair {
    pub l: usize,
    pub r: usize,
}

/// All pairs of the block have the same left index.
pub open spec fn one_left(block: Seq<LRPair>) -> bool {
    forall|i: int, j: int|
        0 <= i < block.len() && 0 <= j < block.len() ==> (#[trigger] block[i]).l == (
        #[trigger] block[j]).l
}

/// All pairs of the block have the same right index.
pub open spec fn one_right(block: Seq<LRPair>) -> bool {
    forall|i: int, j: int|
        0 <= i < block.len() && 0 <= j < block.len() ==> (#[trigger] block[i]).r == (
        #[trigger] block[j]).r
}

/// The pairs do not hold more than one left index and more than one right
/// index at once.
pub open spec fn is_block(block: Seq<LRPair>) -> bool {
    one_left(block) || one_right(block)
}

/// The points of a path as pairs.
pub open spec fn pairs_of(path: Seq<(usize, usize)>) -> Seq<LRPair> {
    Seq::new(path.len(), |i: int| LRPair { l: path[i].0, r: path[i].1 })
}

/// The blocks of a path: each point joins the block before it if the block
/// stays one, and begins a new block otherwise.
pub open spec fn grouped(path: Seq<(usize, usize)>) -> Seq<Seq<LRPair>>
    decreases path.len(),
{
    if path.len() == 0 {
        Seq::empty()
    } else {
        let before = grouped(path.drop_last());
        let pair = LRPair { l: path.last().0, r: path.last().1 };
        if before.len() == 0 {
            seq![seq![pair]]
        } else if is_block(before.last().push(pair)) {
            before.drop_last().push(before.last().push(pair))
        } else {
            before.push(seq![pair])
        }
    }
}

/// The blocks of a list of blocks as sequences.
pub open spec fn blocks_view(blocks: Seq<Vec<LRPair>>) -> Seq<Seq<LRPair>> {
    Seq::new(blocks.len(), |i: int| blocks[i]@)
}

/// The blocks of a path partition it: laid end to end in order they give
/// the path back, point by point. No block is empty, and no block holds
/// more than one left index and more than one right index at once.
pub proof fn lemma_grouped_partitions(path: Seq<(usize, usize)>)
    ensures
        grouped(path).flatten() == pairs_of(path),
        forall|i: int|
            0 <= i < grouped(path).len() ==> (#[trigger] grouped(path)[i]).len() > 0 && is_block(
                grouped(path)[i],
            ),
        path.len() > 0 ==> grouped(path).len() > 0,
    decreases path.len(),
{
    broadcast use Seq::group_seq_flatten;

    if path.len() == 0 {
        assert(grouped(path).flatten() =~= pairs_of(path));
    } else {
        let shorter = path.drop_last();
        lemma_grouped_partitions(shorter);
        let before = grouped(shorter);
        let pair = LRPair { l: path.last().0, r: path.last().1 };
        let all = grouped(path);
        assert(pairs_of(path) =~= pairs_of(shorter).push(pair));
        if before.len() == 0 {
            assert(shorter.len() == 0);
            assert(all == seq![seq![pair]]);
            assert(all.flatten() =~= seq![pair]);
            assert(pairs_of(shorter) =~= Seq::<LRPair>::empty());
            assert(is_block(all[0]));
        } else if is_block(before.last().push(pair)) {
            let head = before.drop_last();
            let tail = before.last();
            assert(before =~= head.push(tail));
            assert(before.flatten() =~= head.flatten() + tail);
            assert(all == head.push(tail.push(pair)));
            assert(all.flatten() =~= head.flatten() + tail.push(pair));
            assert(all.flatten() =~= before.flatten().push(pair));
            assert forall|i: int| 0 <= i < all.len() implies (#[trigger] all[i]).len() > 0
                && is_block(all[i]) by {
                if i < head.len() {
                    assert(all[i] == before[i]);
                }
            }
        } else {
            assert(all == before.push(seq![pair]));
            assert(all.flatten() =~= before.flatten() + seq![pair]);
            assert(all.flatten() =~= before.flatten().push(pair));
            assert forall|i: int| 0 <= i < all.len() implies (#[trigger] all[i]).len() > 0
                && is_block(all[i]) by {
                if i < before.len() {
                    assert(all[i] == before[i]);
                } else {
                    assert(all[i] == seq![pair]);
                }
            }
        }
    }
}

/// The blocks of a path are as long as they can be: no block would stay a
/// block with the first point of the next block appended.
pub proof fn lemma_grouped_is_maximal(path: Seq<(usize, usize)>)
    ensures
        forall|i: int|
            0 <= i < grouped(path).len() - 1 ==> !is_block(
                (#[trigger] grouped(path)[i]).push(grouped(path)[i + 1][0]),
            ),
    decreases path.len(),
{
    if path.len() > 0 {
        let shorter = path.drop_last();
        lemma_grouped_is_maximal(shorter);
        lemma_grouped_partitions(shorter);
        let before = grouped(shorter);
        let pair = LRPair { l: path.last().0, r: path.last().1 };
        let all = grouped(path);
        if before.len() == 0 {
        } else if is_block(before.last().push(pair)) {
            assert forall|i: int| 0 <= i < all.len() - 1 implies !is_block(
                (#[trigger] all[i]).push(all[i + 1][0]),
            ) by {
                assert(all[i] == before[i]);
                assert(before[i + 1].len() > 0);
                assert(all[i + 1][0] == before[i + 1][0]);
            }
        } else {
            assert forall|i: int| 0 <= i < all.len() - 1 implies !is_block(
                (#[trigger] all[i]).push(all[i + 1][0]),
            ) by {
                assert(all[i] == before[i]);
                if i < before.len() - 1 {
                    assert(all[i + 1] == before[i + 1]);
                } else {
                    assert(all[i + 1] == seq![pair]);
                }
            }
        }
    }
}

/// The left indices of the pairs of a block, or their right indices.
pub open spec fn side_indices(block: Seq<LRPair>, left: bool) -> Seq<usize> {
    Seq::new(
        block.len(),
        |i: int|
            if left {
                block[i].l
            } else {
                block[i].r
            },
    )
}

/// All members of the sequence are equal.
pub open spec fn all_same(s: Seq<usize>) -> bool {
    forall|i: int, j: int| 0 <= i < s.len() && 0 <= j < s.len() ==> s[i] == s[j]
}

/// A sequence holds more than one distinct value exactly if its members are
/// not all equal.
pub proof fn lemma_distinct_count(s: Seq<usize>, distinct: Set<usize>)
    requires
        distinct.finite(),
        forall|v: usize| #[trigger] distinct.contains(v) <==> s.contains(v),
    ensures
        distinct.len() > 1 <==> !all_same(s),
{
    if s.len() == 0 {
        assert(distinct =~= Set::<usize>::empty());
    } else if all_same(s) {
        assert(s.contains(s[0]));
        assert forall|v: usize| #[trigger] distinct.contains(v) implies v == s[0] by {
            let i = choose|i: int| 0 <= i < s.len() && s[i] == v;
            assert(s[i] == s[0]);
        }
        assert(distinct =~= Set::<usize>::empty().insert(s[0]));
    } else {
        let (i, j) = choose|i: int, j: int|
            0 <= i < s.len() && 0 <= j < s.len() && s[i] != s[j];
        let two = Set::<usize>::empty().insert(s[i]).insert(s[j]);
        assert(s.contains(s[i]) && s.contains(s[j]));
        assert(two.len() == 2);
        assert(two.subset_of(distinct));
        vstd::set_lib::lemma_len_subset(two, distinct);
    }
}

/// Whether `block` with `pair` appended is still a block: whether it holds
/// no more than one distinct left index or no more than one distinct right
/// index.
fn stays_block(block: &Vec<LRPair>, pair: LRPair) -> (stays: bool)
    ensures
        stays == is_block(block@.push(pair)),
{
    broadcast use vstd::std_specs::hash::group_hash_axioms;

    let ghost longer = block@.push(pair);
    let mut ls: HashSet<usize> = HashSet::new();
    let mut rs: HashSet<usize> = HashSet::new();
    ls.insert(pair.l);
    rs.insert(pair.r);
    let mut i: usize = 0;
    while i < block.len()
        invariant
            i <= block.len(),
            ls@.finite(),
            rs@.finite(),
            forall|v: usize| #[trigger]
                ls@.contains(v) <==> (v == pair.l || exists|j: int|
                    0 <= j < i && (#[trigger] block@[j]).l == v),
            forall|v: usize| #[trigger]
                rs@.contains(v) <==> (v == pair.r || exists|j: int|
                    0 <= j < i && (#[trigger] block@[j]).r == v),
        decreases block.len() - i,
    {
        ls.insert(block[i].l);
        rs.insert(block[i].r);
        i += 1;
    }
    let unique_ls = ls.len();
    let unique_rs = rs.len();
    proof {
        let lefts = side_indices(longer, true);
        let rights = side_indices(longer, false);
        let last = longer.len() - 1;
        assert(longer[last] == pair);
        assert forall|v: usize| #[trigger] ls@.contains(v) <==> lefts.contains(v) by {
            if ls@.contains(v) {
                if v == pair.l {
                    assert(lefts[last] == v);
                } else {
                    let j = choose|j: int| 0 <= j < block.len() && (#[trigger] block@[j]).l == v;
                    assert(longer[j] == block@[j]);
                    assert(lefts[j] == v);
                }
            }
            if lefts.contains(v) {
                let j = choose|j: int| 0 <= j < lefts.len() && lefts[j] == v;
                if j < last {
                    assert(longer[j] == block@[j]);
                }
            }
        }
        assert forall|v: usize| #[trigger] rs@.contains(v) <==> rights.contains(v) by {
            if rs@.contains(v) {
                if v == pair.r {
                    assert(rights[last] == v);
                } else {
                    let j = choose|j: int| 0 <= j < block.len() && (#[trigger] block@[j]).r == v;
                    assert(longer[j] == block@[j]);
                    assert(rights[j] == v);
                }
            }
            if rights.contains(v) {
                let j = choose|j: int| 0 <= j < rights.len() && rights[j] == v;
                if j < last {
                    assert(longer[j] == block@[j]);
                }
            }
        }
        lemma_distinct_count(lefts, ls@);
        lemma_distinct_count(rights, rs@);
        assert(all_same(lefts) <==> one_left(longer)) by {
            if all_same(lefts) {
                assert forall|a: int, b: int|
                    0 <= a < longer.len() && 0 <= b < longer.len() implies (
                #[trigger] longer[a]).l == (#[trigger] longer[b]).l by {
                    assert(lefts[a] == lefts[b]);
                }
            }
            if one_left(longer) {
                assert forall|a: int, b: int|
                    0 <= a < lefts.len() && 0 <= b < lefts.len() implies lefts[a] == lefts[b] by {
                    assert(longer[a].l == longer[b].l);
                }
            }
        }
        assert(all_same(rights) <==> one_right(longer)) by {
            if all_same(rights) {
                assert forall|a: int, b: int|
                    0 <= a < longer.len() && 0 <= b < longer.len() implies (
                #[trigger] longer[a]).r == (#[trigger] longer[b]).r by {
                    assert(rights[a] == rights[b]);
                }
            }
            if one_right(longer) {
                assert forall|a: int, b: int|
                    0 <= a < rights.len() && 0 <= b < rights.len() implies rights[a]
                    == rights[b] by {
                    assert(longer[a].r == longer[b].r);
                }
            }
        }
    }
    !(unique_ls > 1 && unique_rs > 1)
}

/// Divides a path into blocks. Runs of steps along one row or one column
/// form one block each, a unit of one side set against several of the
/// other; a diagonal step begins a block of its own.
///
/// The points are taken in order. A point joins the block before it unless
/// the block would then hold more than one left index and more than one
/// right index; in that case the block is closed and the point begins the
/// next one.
pub fn get_sequence(path: &[(usize, usize)]) -> (pairs: Vec<Vec<LRPair>>)
    ensures
        blocks_view(pairs@) == grouped(path@),
        blocks_view(pairs@).flatten() == pairs_of(path@),
        forall|i: int|
            0 <= i < pairs.len() ==> (#[trigger] pairs[i]).len() > 0 && is_block(pairs[i]@),
{
    let mut pairs: Vec<Vec<LRPair>> = Vec::new();
    let mut tail: Vec<LRPair> = Vec::new();
    let mut k: usize = 0;
    while k < path.len()
        invariant
            k <= path.len(),
            k == 0 ==> pairs.len() == 0 && tail.len() == 0,
            k > 0 ==> tail.len() > 0 && grouped(path@.take(k as int)) == blocks_view(pairs@).push(
                tail@,
            ),
        decreases path.len() - k,
    {
        let pair = LRPair { l: path[k].0, r: path[k].1 };
        let ghost longer = path@.take(k + 1);
        let ghost before = grouped(path@.take(k as int));
        let ghost closed = blocks_view(pairs@);
        let ghost unfinished = tail@;
        proof {
            assert(longer.drop_last() =~= path@.take(k as int));
            assert(longer.last() == path@[k as int]);
            if k > 0 {
                assert(before.last() == unfinished);
                assert(before.drop_last() =~= closed);
            } else {
                assert(path@.take(k as int).len() == 0);
                assert(before.len() == 0);
            }
        }
        if tail.len() == 0 {
            tail.push(pair);
            proof {
                assert(tail@ =~= seq![pair]);
                assert(closed =~= Seq::<Seq<LRPair>>::empty());
                assert(closed.push(tail@) =~= seq![seq![pair]]);
                assert(grouped(longer) == closed.push(tail@));
            }
        } else if stays_block(&tail, pair) {
            tail.push(pair);
            proof {
                assert(tail@ == unfinished.push(pair));
                assert(grouped(longer) == closed.push(tail@));
            }
        } else {
            pairs.push(tail);
            tail = Vec::new();
            tail.push(pair);
            proof {
                assert(blocks_view(pairs@) =~= closed.push(unfinished));
                assert(tail@ =~= seq![pair]);
                assert(before == closed.push(unfinished));
                assert(grouped(longer) == before.push(seq![pair]));
            }
        }
        k += 1;
    }
    proof {
        assert(path@.take(path.len() as int) =~= path@);
        lemma_grouped_partitions(path@);
    }
    if tail.len() > 0 {
        let ghost all = blocks_view(pairs@).push(tail@);
        pairs.push(tail);
        proof {
            assert(blocks_view(pairs@) =~= all);
        }
    } else {
        proof {
            assert(blocks_view(pairs@) =~= grouped(path@));
        }
    }
    proof {
        let blocks = blocks_view(pairs@);
        assert forall|i: int| 0 <= i < pairs.len() implies (#[trigger] pairs[i]).len() > 0
            && is_block(pairs[i]@) by {
            assert(blocks[i] == pairs[i]@);
        }
    }
    pairs
}

} // verus!
