//! The names under which the state of an alignment is kept between windows.
//!
//! The path of the window that was aligned in the driver state with
//! iteration `i` and offsets `l` and `r` is kept as `path-i-l-r.json`, the
//! costs of that window as `matrix-i-l-r.json`, all numbers in decimal
//! notation. A name is read back from its end: whatever precedes `path-` is
//! taken for the directory.

use vstd::prelude::*;
use vstd::slice::slice_subrange;
use vstd::string::StringExecFns;
use crate::decimal::{
    all_digits, append_decimal, decimal, is_digit, lemma_decimal, number_value, read_number,
    value_of_digit,
};
use crate::driver::DriverState;
use crate::text::characters;

verus! {

/// The characters `path-` that begin the name of a window's path.
pub open spec fn path_prefix() -> Seq<char> {
    seq!['p', 'a', 't', 'h', '-']
}

/// The characters `.json` that end the name of a window's path.
pub open spec fn json_suffix() -> Seq<char> {
    seq!['.', 'j', 's', 'o', 'n']
}

/// The name of a window's path without its directory: `path-`, the three
/// numbers with `-` between them, and `.json`.
pub open spec fn path_name(iteration: Seq<char>, left: Seq<char>, right: Seq<char>) -> Seq<char> {
    path_prefix() + iteration + seq!['-'] + left + seq!['-'] + right + json_suffix()
}

/// The number of decimal digits at the end of a text.
pub open spec fn digit_run(s: Seq<char>) -> int
    decreases s.len(),
{
    if s.len() == 0 || !is_digit(s.last()) {
        0
    } else {
        1 + digit_run(s.drop_last())
    }
}

/// The text ends with `suffix`.
pub open spec fn ends_with(s: Seq<char>, suffix: Seq<char>) -> bool {
    s.len() >= suffix.len() && s.skip(s.len() - suffix.len()) == suffix
}

/// The three numbers of a name as they are written, read from the end of
/// the name; none if the name does not end like the name of a window's
/// path.
pub open spec fn name_fields(name: Seq<char>) -> Option<(Seq<char>, Seq<char>, Seq<char>)> {
    if !ends_with(name, json_suffix()) {
        None
    } else {
        let s1 = name.take(name.len() - 5);
        let n1 = digit_run(s1);
        let r1 = s1.take(s1.len() - n1);
        if n1 == 0 || r1.len() == 0 || r1.last() != '-' {
            None
        } else {
            let s2 = r1.drop_last();
            let n2 = digit_run(s2);
            let r2 = s2.take(s2.len() - n2);
            if n2 == 0 || r2.len() == 0 || r2.last() != '-' {
                None
            } else {
                let s3 = r2.drop_last();
                let n3 = digit_run(s3);
                let r3 = s3.take(s3.len() - n3);
                if n3 == 0 || !ends_with(r3, path_prefix()) {
                    None
                } else {
                    Some((s3.skip(s3.len() - n3), s2.skip(s2.len() - n2), s1.skip(s1.len() - n1)))
                }
            }
        }
    }
}

/// What a name says of the window whose path it holds.
#[derive(Clone, Copy, Debug, PartialEq, Eq, Structural)]
pub enum ParsedName {
    /// The name does not end like the name of a window's path.
    Unrelated,
    /// The name ends like the name of a window's path, but one of its
    /// numbers exceeds `usize`.
    OutOfRange,
    /// The name is that of the path of the window of this state.
    State(DriverState),
}

/// What a name says, as a function of the name.
pub open spec fn parsed_name(name: Seq<char>) -> ParsedName {
    match name_fields(name) {
        None => ParsedName::Unrelated,
        Some((iteration, left, right)) => {
            if number_value(iteration) <= usize::MAX && number_value(left) <= usize::MAX
                && number_value(right) <= usize::MAX {
                ParsedName::State(
                    DriverState {
                        iteration: number_value(iteration) as usize,
                        left_start: number_value(left) as usize,
                        right_start: number_value(right) as usize,
                    },
                )
            } else {
                ParsedName::OutOfRange
            }
        },
    }
}

/// The digits at the end of a text are digits, and the character before
/// them, if there is one, is none.
pub proof fn lemma_digit_run(s: Seq<char>)
    ensures
        0 <= digit_run(s) <= s.len(),
        all_digits(s.skip(s.len() - digit_run(s))),
        digit_run(s) < s.len() ==> !is_digit(s[s.len() - digit_run(s) - 1]),
    decreases s.len(),
{
    if s.len() > 0 && is_digit(s.last()) {
        let shorter = s.drop_last();
        lemma_digit_run(shorter);
        let n = digit_run(s);
        let tail = s.skip(s.len() - n);
        assert forall|i: int| 0 <= i < tail.len() implies is_digit(#[trigger] tail[i]) by {
            if i < tail.len() - 1 {
                assert(tail[i] == shorter.skip(shorter.len() - digit_run(shorter))[i]);
            }
        }
    }
}

/// A text that ends with the digits `digits` after something that does not
/// end with a digit has exactly these digits at its end.
pub proof fn lemma_digit_run_of(front: Seq<char>, digits: Seq<char>)
    requires
        all_digits(digits),
        front.len() == 0 || !is_digit(front.last()),
    ensures
        digit_run(front + digits) == digits.len(),
    decreases digits.len(),
{
    let s = front + digits;
    if digits.len() == 0 {
        assert(s =~= front);
    } else {
        let shorter = digits.drop_last();
        assert(s.last() == digits[digits.len() - 1]);
        assert(is_digit(digits[digits.len() - 1]));
        assert(s.drop_last() =~= front + shorter);
        assert forall|i: int| 0 <= i < shorter.len() implies is_digit(#[trigger] shorter[i]) by {
            assert(shorter[i] == digits[i]);
        }
        lemma_digit_run_of(front, shorter);
    }
}

/// A name that is made of anything, then `path-`, three numbers of at least
/// one digit each with `-` between them, and `.json`, is read as these three
/// numbers.
pub proof fn lemma_name_fields(
    directory: Seq<char>,
    iteration: Seq<char>,
    left: Seq<char>,
    right: Seq<char>,
)
    requires
        iteration.len() > 0 && all_digits(iteration),
        left.len() > 0 && all_digits(left),
        right.len() > 0 && all_digits(right),
    ensures
        name_fields(directory + path_name(iteration, left, right)) == Some(
            (iteration, left, right),
        ),
{
    let name = directory + path_name(iteration, left, right);
    let dash = seq!['-'];
    let f3 = directory + path_prefix();
    let f2 = f3 + iteration + dash;
    let f1 = f2 + left + dash;
    assert(name =~= f1 + right + json_suffix());
    assert(name.skip(name.len() - 5) =~= json_suffix());
    let s1 = name.take(name.len() - 5);
    assert(s1 =~= f1 + right);
    assert(f1.last() == '-');
    lemma_digit_run_of(f1, right);
    let r1 = s1.take(s1.len() - right.len());
    assert(r1 =~= f1);
    assert(s1.skip(s1.len() - right.len()) =~= right);
    let s2 = r1.drop_last();
    assert(s2 =~= f2 + left);
    assert(f2.last() == '-');
    lemma_digit_run_of(f2, left);
    let r2 = s2.take(s2.len() - left.len());
    assert(r2 =~= f2);
    assert(s2.skip(s2.len() - left.len()) =~= left);
    let s3 = r2.drop_last();
    assert(s3 =~= f3 + iteration);
    assert(f3.last() == '-');
    lemma_digit_run_of(f3, iteration);
    let r3 = s3.take(s3.len() - iteration.len());
    assert(r3 =~= f3);
    assert(s3.skip(s3.len() - iteration.len()) =~= iteration);
    assert(r3.skip(r3.len() - 5) =~= path_prefix());
}

/// What precedes `path-` in a name that is read as three numbers.
pub open spec fn name_directory(name: Seq<char>) -> Seq<char> {
    match name_fields(name) {
        None => name,
        Some((iteration, left, right)) => name.take(
            name.len() - path_name(iteration, left, right).len(),
        ),
    }
}

/// A name that is read as three numbers is made of something, then `path-`,
/// the three numbers, each of at least one digit and of digits only, with
/// `-` between them, and `.json`.
pub proof fn lemma_name_fields_sound(name: Seq<char>)
    requires
        name_fields(name) is Some,
    ensures
        ({
            let (iteration, left, right) = name_fields(name)->Some_0;
            &&& iteration.len() > 0 && all_digits(iteration)
            &&& left.len() > 0 && all_digits(left)
            &&& right.len() > 0 && all_digits(right)
            &&& name == name_directory(name) + path_name(iteration, left, right)
        }),
{
    let (iteration, left, right) = name_fields(name)->Some_0;
    let s1 = name.take(name.len() - 5);
    let n1 = digit_run(s1);
    let r1 = s1.take(s1.len() - n1);
    let s2 = r1.drop_last();
    let n2 = digit_run(s2);
    let r2 = s2.take(s2.len() - n2);
    let s3 = r2.drop_last();
    let n3 = digit_run(s3);
    let r3 = s3.take(s3.len() - n3);
    lemma_digit_run(s1);
    lemma_digit_run(s2);
    lemma_digit_run(s3);
    let directory = r3.take(r3.len() - 5);
    assert(r3 =~= directory + path_prefix());
    assert(s3 =~= r3 + iteration);
    assert(r2 =~= s3 + seq!['-']);
    assert(s2 =~= r2 + left);
    assert(r1 =~= s2 + seq!['-']);
    assert(s1 =~= r1 + right);
    assert(name =~= s1 + json_suffix());
    let written = path_name(iteration, left, right);
    assert(name =~= directory + written);
    assert(name.take(name.len() - written.len()) =~= directory);
}

/// The text of the name of the path of a state's window in a directory.
pub open spec fn path_file_text(directory: Seq<char>, state: DriverState) -> Seq<char> {
    directory + seq!['/'] + path_name(
        decimal(state.iteration as nat),
        decimal(state.left_start as nat),
        decimal(state.right_start as nat),
    )
}

/// The name under which a window's path is kept says which window it was:
/// read back, it gives the state that it was made from.
pub proof fn lemma_name_round_trip(directory: Seq<char>, state: DriverState)
    ensures
        parsed_name(path_file_text(directory, state)) == ParsedName::State(state),
{
    let iteration = decimal(state.iteration as nat);
    let left = decimal(state.left_start as nat);
    let right = decimal(state.right_start as nat);
    lemma_decimal(state.iteration as nat);
    lemma_decimal(state.left_start as nat);
    lemma_decimal(state.right_start as nat);
    lemma_name_fields(directory + seq!['/'], iteration, left, right);
    assert(path_file_text(directory, state) =~= (directory + seq!['/']) + path_name(
        iteration,
        left,
        right,
    ));
}

/// The characters `matrix-` that begin the name of a window's costs.
pub open spec fn matrix_prefix() -> Seq<char> {
    seq!['m', 'a', 't', 'r', 'i', 'x', '-']
}

/// The text of the name of the costs of a state's window in a directory.
pub open spec fn matrix_file_text(directory: Seq<char>, state: DriverState) -> Seq<char> {
    directory + seq!['/'] + matrix_prefix() + decimal(state.iteration as nat) + seq!['-']
        + decimal(state.left_start as nat) + seq!['-'] + decimal(state.right_start as nat)
        + json_suffix()
}

/// Appends the three numbers of a state with `-` between them.
fn append_state(text: &mut String, state: DriverState)
    ensures
        final(text)@ == old(text)@ + decimal(state.iteration as nat) + seq!['-'] + decimal(
            state.left_start as nat,
        ) + seq!['-'] + decimal(state.right_start as nat),
{
    append_decimal(text, state.iteration);
    text.push('-');
    append_decimal(text, state.left_start);
    text.push('-');
    append_decimal(text, state.right_start);
    proof {
        assert(text@ =~= old(text)@ + decimal(state.iteration as nat) + seq!['-'] + decimal(
            state.left_start as nat,
        ) + seq!['-'] + decimal(state.right_start as nat));
    }
}

/// The name under which the path of the window of `state` is kept in
/// `directory`.
pub fn path_file_name(directory: &str, state: DriverState) -> (name: String)
    ensures
        name@ == path_file_text(directory@, state),
        parsed_name(name@) == ParsedName::State(state),
{
    let mut name = String::from_str(directory);
    name.append("/path-");
    append_state(&mut name, state);
    name.append(".json");
    proof {
        reveal_strlit("/path-");
        reveal_strlit(".json");
        assert("/path-"@ =~= seq!['/'] + path_prefix());
        assert(".json"@ =~= json_suffix());
        assert(name@ =~= path_file_text(directory@, state));
        lemma_name_round_trip(directory@, state);
    }
    name
}

/// The name under which the costs of the window of `state` are kept in
/// `directory`.
pub fn matrix_file_name(directory: &str, state: DriverState) -> (name: String)
    ensures
        name@ == matrix_file_text(directory@, state),
{
    let mut name = String::from_str(directory);
    name.append("/matrix-");
    append_state(&mut name, state);
    name.append(".json");
    proof {
        reveal_strlit("/matrix-");
        reveal_strlit(".json");
        assert("/matrix-"@ =~= seq!['/'] + matrix_prefix());
        assert(".json"@ =~= json_suffix());
        assert(name@ =~= matrix_file_text(directory@, state));
    }
    name
}

/// The pattern that the names of all windows' paths in `directory` match,
/// with `*` for each of the three numbers.
pub fn path_file_pattern(directory: &str) -> (pattern: String)
    ensures
        pattern@ == directory@ + "/path-*-*-*.json"@,
{
    let mut pattern = String::from_str(directory);
    pattern.append("/path-*-*-*.json");
    pattern
}

/// The name of the file in `directory` that holds the joined path with the
/// two lists of sentences.
pub fn result_file_name(directory: &str) -> (name: String)
    ensures
        name@ == directory@ + "/result.json"@,
{
    let mut name = String::from_str(directory);
    name.append("/result.json");
    name
}

/// The name of the page in `directory` that shows the alignment in one, two
/// or three columns.
pub fn html_file_name(directory: &str, columns: usize) -> (name: String)
    requires
        1 <= columns <= 3,
    ensures
        name@ == directory@ + (if columns == 3 {
            "/3-columns.html"@
        } else if columns == 2 {
            "/2-columns.html"@
        } else {
            "/1-column.html"@
        }),
{
    let mut name = String::from_str(directory);
    if columns == 3 {
        name.append("/3-columns.html");
    } else if columns == 2 {
        name.append("/2-columns.html");
    } else {
        name.append("/1-column.html");
    }
    name
}

/// The index at which the digits at the end of `chars[..end]` begin.
fn digits_start(chars: &Vec<char>, end: usize) -> (start: usize)
    requires
        end <= chars.len(),
    ensures
        start <= end,
        start == end - digit_run(chars@.take(end as int)),
{
    let mut start = end;
    while start > 0 && value_of_digit(chars[start - 1]).is_some()
        invariant
            start <= end <= chars.len(),
            digit_run(chars@.take(end as int)) == (end - start) + digit_run(
                chars@.take(start as int),
            ),
        decreases start,
    {
        proof {
            let s = chars@.take(start as int);
            assert(s.last() == chars@[start - 1]);
            assert(s.drop_last() =~= chars@.take(start - 1));
        }
        start -= 1;
    }
    proof {
        let s = chars@.take(start as int);
        if start > 0 {
            assert(s.last() == chars@[start - 1]);
        }
    }
    start
}

/// Reads from a name which window's path it holds. The name may begin with
/// a directory; only its end counts.
pub fn parse_path_file_name(name: &str) -> (parsed: ParsedName)
    ensures
        parsed == parsed_name(name@),
{
    let chars = characters(name);
    let n = chars.len();
    let ghost text = chars@;
    if n < 5 || chars[n - 5] != '.' || chars[n - 4] != 'j' || chars[n - 3] != 's' || chars[n - 2]
        != 'o' || chars[n - 1] != 'n' {
        proof {
            if n >= 5 {
                let tail = text.skip(n - 5);
                assert(tail[0] == text[n - 5]);
                assert(tail[1] == text[n - 4]);
                assert(tail[2] == text[n - 3]);
                assert(tail[3] == text[n - 2]);
                assert(tail[4] == text[n - 1]);
            }
        }
        return ParsedName::Unrelated;
    }
    proof {
        assert(text.skip(n - 5) =~= json_suffix());
    }
    let end1 = n - 5;
    let start1 = digits_start(&chars, end1);
    let ghost s1 = text.take(end1 as int);
    proof {
        assert(s1.take(s1.len() - digit_run(s1)) =~= text.take(start1 as int));
        if start1 > 0 {
            assert(text.take(start1 as int).last() == text[start1 - 1]);
        }
    }
    if start1 == end1 || start1 == 0 || chars[start1 - 1] != '-' {
        return ParsedName::Unrelated;
    }
    let end2 = start1 - 1;
    let start2 = digits_start(&chars, end2);
    let ghost s2 = text.take(end2 as int);
    proof {
        assert(text.take(start1 as int).drop_last() =~= s2);
        assert(s2.take(s2.len() - digit_run(s2)) =~= text.take(start2 as int));
        if start2 > 0 {
            assert(text.take(start2 as int).last() == text[start2 - 1]);
        }
    }
    if start2 == end2 || start2 == 0 || chars[start2 - 1] != '-' {
        return ParsedName::Unrelated;
    }
    let end3 = start2 - 1;
    let start3 = digits_start(&chars, end3);
    let ghost s3 = text.take(end3 as int);
    let ghost r3 = text.take(start3 as int);
    proof {
        assert(text.take(start2 as int).drop_last() =~= s3);
        assert(s3.take(s3.len() - digit_run(s3)) =~= r3);
    }
    if start3 == end3 || start3 < 5 || chars[start3 - 5] != 'p' || chars[start3 - 4] != 'a'
        || chars[start3 - 3] != 't' || chars[start3 - 2] != 'h' || chars[start3 - 1] != '-' {
        proof {
            if start3 >= 5 {
                let tail = r3.skip(start3 - 5);
                assert(tail[0] == text[start3 - 5]);
                assert(tail[1] == text[start3 - 4]);
                assert(tail[2] == text[start3 - 3]);
                assert(tail[3] == text[start3 - 2]);
                assert(tail[4] == text[start3 - 1]);
            }
        }
        return ParsedName::Unrelated;
    }
    proof {
        assert(r3.skip(start3 - 5) =~= path_prefix());
        lemma_digit_run(s1);
        lemma_digit_run(s2);
        lemma_digit_run(s3);
        assert(s1.skip(s1.len() - digit_run(s1)) =~= text.subrange(start1 as int, end1 as int));
        assert(s2.skip(s2.len() - digit_run(s2)) =~= text.subrange(start2 as int, end2 as int));
        assert(s3.skip(s3.len() - digit_run(s3)) =~= text.subrange(start3 as int, end3 as int));
    }
    let iteration = read_number(slice_subrange(chars.as_slice(), start3, end3));
    let left_start = read_number(slice_subrange(chars.as_slice(), start2, end2));
    let right_start = read_number(slice_subrange(chars.as_slice(), start1, end1));
    match (iteration, left_start, right_start) {
        (Some(iteration), Some(left_start), Some(right_start)) => ParsedName::State(
            DriverState { iteration, left_start, right_start },
        ),
        _ => ParsedName::OutOfRange,
    }
}

} // verus!
