//! Rendering an alignment as a page of HTML.
//!
//! Each block of the alignment becomes one entry of the page: the sentences
//! of the block's left indices on one side, those of its right indices on
//! the other, each side in ascending order of index and joined by line
//! breaks.

use vstd::prelude::*;
use vstd::string::StringExecFns;
use crate::group::{get_sequence, grouped, blocks_view, LRPair};
use crate::text::{is_part_of, texts, trim, trimmed};

verus! {

/// The head of a page with three columns, up to the opening of its body.
pub const THREE_COLUMNS: &'static str = r#"<!DOCTYPE html>
<html>
<head>
  <meta charset="UTF-8">
  <style>
    @page {
      size: A4 landscape;
      margin: 0mm; /* Removes all page margins */
      padding: 0mm;
    }

    body {
      margin: 0; /* Removes default body margins */
      font-family: Arial, sans-serif;
      font-size: 18pt;
    }

    table {
      width: 100%;
      border-collapse: collapse;
    }
    td {
      /*width: 50%;*/
      width: 33%;
      vertical-align: top;
      padding: 5px;
      padding-right: 0px;
      border: none;
    }
    * {
      margin: 0;
      padding: 0;
      box-sizing: border-box;
    }
  </style>
</head>
<body>
"#;

/// The head of a page with two columns, up to the opening of its body.
pub const TWO_COLUMNS: &'static str = r#"<!DOCTYPE html>
<html>
<head>
  <meta charset="UTF-8">
  <style>
    @page {
      size: A4 landscape;
      margin: 0mm; /* Removes all page margins */
      padding: 0mm;
    }

    body {
      margin: 0; /* Removes default body margins */
      font-family: Arial, sans-serif;
      font-size: 18pt;
    }

    table {
      width: 100%;
      border-collapse: collapse;
    }
    td {
      width: 50%;
      vertical-align: top;
      padding: 5px;
      padding-right: 0px;
      border: none;
    }
    * {
      margin: 0;
      padding: 0;
      box-sizing: border-box;
    }
  </style>
</head>
<body>
"#;

/// The head of a page with one column, up to the opening of its body.
pub const ONE_COLUMN: &'static str = r#"<!DOCTYPE html>
<html>
<head>
  <meta charset="UTF-8">
  <style>
    @page {
      size: A4;
      margin: 0mm; /* Removes all page margins */
      padding: 0mm;
    }

    body {
      margin: 0; /* Removes default body margins */
      font-family: Arial, sans-serif;
      font-size: 18pt;
    }

    * {
      margin: 0;
      padding: 0;
      box-sizing: border-box;
    }

    .l {
      text-align: start;
      color: green;
    }

    .r {
      text-align: end;
      font-weight: bold;
    }
  </style>
</head>
<body>
"#;

/// What stands between two sentences of one side of a block.
pub const BREAK: &'static str = "<br />";

/// What opens a block in a page with columns, up to the left side.
pub const TABLE_HEAD: &'static str = r#"
  <hr />
  <table>
    <tr>
      <td>
        <p>"#;

/// What stands between the two sides of a block in a page with columns.
pub const TABLE_MIDDLE: &'static str = r#"</p>
      </td>
      <td>
        <p>"#;

/// What closes a block in a page with columns, after the right side.
pub const TABLE_TAIL: &'static str = r#"</p>
      </td>
      <td></td>
    </tr>
  </table>
"#;

/// What opens a block in a page with one column, up to the right side.
pub const COLUMN_HEAD: &'static str = r#"
    <hr />
    <p class=r>"#;

/// What stands between the two sides of a block in a page with one column.
pub const COLUMN_MIDDLE: &'static str = r#"</p>
    <p class=l>"#;

/// What closes a block in a page with one column, after the left side.
pub const COLUMN_TAIL: &'static str = r#"</p>
"#;

/// What closes every page.
pub const FOOTER: &'static str = r#"
</body>
</html>
"#;

/// The index of a pair on the left or on the right side.
pub open spec fn index_of(pair: LRPair, left: bool) -> int {
    if left {
        pair.l as int
    } else {
        pair.r as int
    }
}

/// The indices that a block holds on one side.
pub open spec fn indices(block: Seq<LRPair>, left: bool) -> Set<int> {
    Set::new(|i: int| exists|j: int| 0 <= j < block.len() && index_of(#[trigger] block[j], left) == i)
}

/// The trimmed sentences whose index is wanted and below `n`, in ascending
/// order of index.
pub open spec fn chosen(sentences: Seq<Seq<char>>, wanted: Set<int>, n: int) -> Seq<Seq<char>>
    decreases n,
{
    if n <= 0 {
        Seq::empty()
    } else if wanted.contains(n - 1) {
        chosen(sentences, wanted, n - 1).push(trimmed(sentences[n - 1]))
    } else {
        chosen(sentences, wanted, n - 1)
    }
}

/// The parts laid end to end with `separator` between each two of them.
pub open spec fn joined_with(parts: Seq<Seq<char>>, separator: Seq<char>) -> Seq<char>
    decreases parts.len(),
{
    if parts.len() == 0 {
        Seq::empty()
    } else if parts.len() == 1 {
        parts[0]
    } else {
        joined_with(parts.drop_last(), separator) + separator + parts.last()
    }
}

/// One side of a block: the trimmed sentences of the block's indices on
/// that side, as far as the list of sentences reaches, joined by line
/// breaks.
pub open spec fn side(sentences: Seq<Seq<char>>, block: Seq<LRPair>, left: bool) -> Seq<char> {
    joined_with(chosen(sentences, indices(block, left), sentences.len() as int), BREAK@)
}

/// One block of a page with columns.
pub open spec fn table_block(
    left_sentences: Seq<Seq<char>>,
    right_sentences: Seq<Seq<char>>,
    block: Seq<LRPair>,
) -> Seq<char> {
    TABLE_HEAD@ + side(left_sentences, block, true) + TABLE_MIDDLE@ + side(
        right_sentences,
        block,
        false,
    ) + TABLE_TAIL@
}

/// One block of a page with one column: the right side first.
pub open spec fn column_block(
    left_sentences: Seq<Seq<char>>,
    right_sentences: Seq<Seq<char>>,
    block: Seq<LRPair>,
) -> Seq<char> {
    COLUMN_HEAD@ + side(right_sentences, block, false) + COLUMN_MIDDLE@ + side(
        left_sentences,
        block,
        true,
    ) + COLUMN_TAIL@
}

/// The blocks of a page in order, each rendered for columns or for one
/// column.
pub open spec fn rendered_blocks(
    left_sentences: Seq<Seq<char>>,
    right_sentences: Seq<Seq<char>>,
    sequence: Seq<Seq<LRPair>>,
    columns: bool,
) -> Seq<char>
    decreases sequence.len(),
{
    if sequence.len() == 0 {
        Seq::empty()
    } else {
        rendered_blocks(left_sentences, right_sentences, sequence.drop_last(), columns) + (
        if columns {
            table_block(left_sentences, right_sentences, sequence.last())
        } else {
            column_block(left_sentences, right_sentences, sequence.last())
        })
    }
}

/// A whole page: the head, the blocks, the closing.
pub open spec fn page(
    header: Seq<char>,
    left_sentences: Seq<Seq<char>>,
    right_sentences: Seq<Seq<char>>,
    sequence: Seq<Seq<LRPair>>,
    columns: bool,
) -> Seq<char> {
    header + rendered_blocks(left_sentences, right_sentences, sequence, columns) + FOOTER@
}

/// Of every sentence whose index is wanted, what is left after trimming is
/// a part of the sentence.
pub open spec fn shown_within(sentences: Seq<Seq<char>>, wanted: Set<int>) -> bool {
    forall|i: int|
        0 <= i < sentences.len() && wanted.contains(i) ==> is_part_of(
            trimmed(#[trigger] sentences[i]),
            sentences[i],
        )
}

/// Of every sentence that a block of the page shows, on either side, what
/// is shown is a part of the sentence.
pub open spec fn shows_parts(
    left_sentences: Seq<Seq<char>>,
    right_sentences: Seq<Seq<char>>,
    sequence: Seq<Seq<LRPair>>,
) -> bool {
    forall|k: int|
        0 <= k < sequence.len() ==> shown_within(
            left_sentences,
            indices(#[trigger] sequence[k], true),
        ) && shown_within(right_sentences, indices(sequence[k], false))
}

/// Where no index from `from` up to `to` is wanted, the sentences chosen
/// below `to` are those chosen below `from`.
pub proof fn lemma_chosen_skips(sentences: Seq<Seq<char>>, wanted: Set<int>, from: int, to: int)
    requires
        from <= to,
        forall|i: int| from <= i < to ==> !wanted.contains(i),
    ensures
        chosen(sentences, wanted, to) == chosen(sentences, wanted, from),
    decreases to - from,
{
    if from < to {
        lemma_chosen_skips(sentences, wanted, from, to - 1);
    }
}

/// Whether the block holds index `i` on the given side.
fn holds_index(block: &Vec<LRPair>, i: usize, left: bool) -> (holds: bool)
    ensures
        holds == indices(block@, left).contains(i as int),
{
    let mut j: usize = 0;
    while j < block.len()
        invariant
            j <= block.len(),
            forall|k: int| 0 <= k < j ==> index_of(#[trigger] block@[k], left) != i,
        decreases block.len() - j,
    {
        let index = if left {
            block[j].l
        } else {
            block[j].r
        };
        if index == i {
            return true;
        }
        j += 1;
    }
    false
}

/// The least and the greatest index of a block on the given side.
fn index_bounds(block: &Vec<LRPair>, left: bool) -> (bounds: (usize, usize))
    requires
        block.len() > 0,
    ensures
        bounds.0 <= bounds.1,
        forall|j: int|
            0 <= j < block.len() ==> bounds.0 <= index_of(#[trigger] block@[j], left) <= bounds.1,
{
    let first = if left {
        block[0].l
    } else {
        block[0].r
    };
    let mut low = first;
    let mut high = first;
    let mut j: usize = 1;
    while j < block.len()
        invariant
            1 <= j <= block.len(),
            low <= high,
            forall|k: int| 0 <= k < j ==> low <= index_of(#[trigger] block@[k], left) <= high,
        decreases block.len() - j,
    {
        let index = if left {
            block[j].l
        } else {
            block[j].r
        };
        if index < low {
            low = index;
        }
        if index > high {
            high = index;
        }
        j += 1;
    }
    (low, high)
}

/// Renders one side of a block.
fn side_text(sentences: &[String], block: &Vec<LRPair>, left: bool) -> (text: String)
    ensures
        text@ == side(texts(sentences@), block@, left),
        shown_within(texts(sentences@), indices(block@, left)),
{
    let ghost all = texts(sentences@);
    let ghost wanted = indices(block@, left);
    let mut text = String::new();
    if block.len() == 0 {
        proof {
            lemma_chosen_skips(all, wanted, 0, all.len() as int);
        }
        return text;
    }
    let (low, high) = index_bounds(block, left);
    let n = sentences.len();
    let mut first = true;
    let mut i: usize = if low < n {
        low
    } else {
        n
    };
    proof {
        lemma_chosen_skips(all, wanted, 0, i as int);
    }
    while i < n && i <= high
        invariant
            all == texts(sentences@),
            wanted == indices(block@, left),
            n == sentences.len(),
            i <= n,
            forall|j: int|
                0 <= j < block.len() ==> low <= index_of(#[trigger] block@[j], left) <= high,
            first == (chosen(all, wanted, i as int).len() == 0),
            text@ == joined_with(chosen(all, wanted, i as int), BREAK@),
            forall|j: int|
                0 <= j < i && wanted.contains(j) ==> is_part_of(
                    trimmed(#[trigger] all[j]),
                    all[j],
                ),
        decreases n - i,
    {
        if holds_index(block, i, left) {
            let ghost before = chosen(all, wanted, i as int);
            let ghost after = chosen(all, wanted, i + 1);
            let part = trim(sentences[i].as_str());
            proof {
                assert(after == before.push(trimmed(all[i as int])));
                assert(after.drop_last() =~= before);
            }
            if !first {
                text.append(BREAK);
            }
            text.append(part);
            proof {
                if before.len() == 0 {
                    assert(text@ =~= after[0]);
                }
            }
            first = false;
        }
        i += 1;
    }
    proof {
        lemma_chosen_skips(all, wanted, i as int, n as int);
    }
    text
}

/// Renders the blocks of an alignment as a page with columns under the
/// given head: for each block the sentences of its left indices, then those
/// of its right indices. An index beyond the end of its list of sentences
/// gives no sentence.
pub fn build_html_from_sequence(
    left_sentences: &[String],
    right_sentences: &[String],
    sequence: &[Vec<LRPair>],
    html_header: &str,
) -> (html_content: String)
    ensures
        html_content@ == page(
            html_header@,
            texts(left_sentences@),
            texts(right_sentences@),
            blocks_view(sequence@),
            true,
        ),
        shows_parts(texts(left_sentences@), texts(right_sentences@), blocks_view(sequence@)),
{
    let ghost left = texts(left_sentences@);
    let ghost right = texts(right_sentences@);
    let ghost blocks = blocks_view(sequence@);
    let mut html_content = String::from_str(html_header);
    let mut k: usize = 0;
    while k < sequence.len()
        invariant
            left == texts(left_sentences@),
            right == texts(right_sentences@),
            blocks == blocks_view(sequence@),
            k <= sequence.len(),
            html_content@ == html_header@ + rendered_blocks(left, right, blocks.take(k as int), true),
            shows_parts(left, right, blocks.take(k as int)),
        decreases sequence.len() - k,
    {
        let xs = &sequence[k];
        let left_joined = side_text(left_sentences, xs, true);
        let right_joined = side_text(right_sentences, xs, false);
        proof {
            let shorter = blocks.take(k as int);
            let longer = blocks.take(k + 1);
            assert(longer.drop_last() =~= shorter);
            assert(longer.last() == xs@);
            assert forall|j: int| 0 <= j < longer.len() implies shown_within(
                left,
                indices(#[trigger] longer[j], true),
            ) && shown_within(right, indices(longer[j], false)) by {
                if j < k {
                    assert(longer[j] == shorter[j]);
                }
            }
        }
        html_content.append(TABLE_HEAD);
        html_content.append(left_joined.as_str());
        html_content.append(TABLE_MIDDLE);
        html_content.append(right_joined.as_str());
        html_content.append(TABLE_TAIL);
        proof {
            assert(html_content@ =~= html_header@ + rendered_blocks(
                left,
                right,
                blocks.take(k + 1),
                true,
            ));
        }
        k += 1;
    }
    proof {
        assert(blocks.take(sequence.len() as int) =~= blocks);
    }
    html_content.append(FOOTER);
    html_content
}

/// Renders the blocks of an alignment as a page with one column: for each
/// block the sentences of its right indices, then those of its left
/// indices. An index beyond the end of its list of sentences gives no
/// sentence.
pub fn build_html_one_column(
    left_sentences: &[String],
    right_sentences: &[String],
    sequence: &[Vec<LRPair>],
) -> (html_content: String)
    ensures
        html_content@ == page(
            ONE_COLUMN@,
            texts(left_sentences@),
            texts(right_sentences@),
            blocks_view(sequence@),
            false,
        ),
        shows_parts(texts(left_sentences@), texts(right_sentences@), blocks_view(sequence@)),
{
    let ghost left = texts(left_sentences@);
    let ghost right = texts(right_sentences@);
    let ghost blocks = blocks_view(sequence@);
    let mut html_content = String::from_str(ONE_COLUMN);
    let mut k: usize = 0;
    while k < sequence.len()
        invariant
            left == texts(left_sentences@),
            right == texts(right_sentences@),
            blocks == blocks_view(sequence@),
            k <= sequence.len(),
            html_content@ == ONE_COLUMN@ + rendered_blocks(left, right, blocks.take(k as int), false),
            shows_parts(left, right, blocks.take(k as int)),
        decreases sequence.len() - k,
    {
        let xs = &sequence[k];
        let left_joined = side_text(left_sentences, xs, true);
        let right_joined = side_text(right_sentences, xs, false);
        proof {
            let shorter = blocks.take(k as int);
            let longer = blocks.take(k + 1);
            assert(longer.drop_last() =~= shorter);
            assert(longer.last() == xs@);
            assert forall|j: int| 0 <= j < longer.len() implies shown_within(
                left,
                indices(#[trigger] longer[j], true),
            ) && shown_within(right, indices(longer[j], false)) by {
                if j < k {
                    assert(longer[j] == shorter[j]);
                }
            }
        }
        html_content.append(COLUMN_HEAD);
        html_content.append(right_joined.as_str());
        html_content.append(COLUMN_MIDDLE);
        html_content.append(left_joined.as_str());
        html_content.append(COLUMN_TAIL);
        proof {
            assert(html_content@ =~= ONE_COLUMN@ + rendered_blocks(
                left,
                right,
                blocks.take(k + 1),
                false,
            ));
        }
        k += 1;
    }
    proof {
        assert(blocks.take(sequence.len() as int) =~= blocks);
    }
    html_content.append(FOOTER);
    html_content
}

/// Renders an alignment as a page with one, two or three columns: the path
/// is divided into blocks, and each block becomes one entry of the page.
pub fn produce_html(
    left_sentences: &Vec<String>,
    right_sentences: &Vec<String>,
    path: &Vec<(usize, usize)>,
    columns: usize,
) -> (html: String)
    requires
        1 <= columns <= 3,
    ensures
        html@ == page(
            if columns == 3 {
                THREE_COLUMNS@
            } else if columns == 2 {
                TWO_COLUMNS@
            } else {
                ONE_COLUMN@
            },
            texts(left_sentences@),
            texts(right_sentences@),
            grouped(path@),
            columns != 1,
        ),
        shows_parts(texts(left_sentences@), texts(right_sentences@), grouped(path@)),
{
    let alignment = get_sequence(path.as_slice());
    if columns == 3 {
        build_html_from_sequence(
            left_sentences.as_slice(),
            right_sentences.as_slice(),
            alignment.as_slice(),
            THREE_COLUMNS,
        )
    } else if columns == 2 {
        build_html_from_sequence(
            left_sentences.as_slice(),
            right_sentences.as_slice(),
            alignment.as_slice(),
            TWO_COLUMNS,
        )
    } else {
        build_html_one_column(
            left_sentences.as_slice(),
            right_sentences.as_slice(),
            alignment.as_slice(),
        )
    }
}

} // verus!
