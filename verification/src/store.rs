//! What is kept of an alignment, as JSON text.
//!
//! The path of each window is kept as a JSON list of pairs of indices, and
//! the result of a run as a JSON list of the joined path and the two lists
//! of sentences. The text is written and read by `serde_json`; this module
//! says what is written and how what was read becomes a checkpoint.
//!
//! A path `[(0, 0), (1, 2)]` is written as `[[0,0],[1,2]]`.

use vstd::prelude::*;
use crate::decimal::decimal;
use crate::driver::DriverState;
use crate::stitch::Checkpoint;
use crate::text::texts;

verus! {

/// The error of `serde_json`, carried through as it is.
#[verifier::external_type_specification]
#[verifier::external_body]
pub struct ExJsonError(serde_json::Error);

/// One point as JSON: `[l,r]`, both indices in decimal notation.
pub open spec fn pair_json(p: (usize, usize)) -> Seq<char> {
    seq!['['] + decimal(p.0 as nat) + seq![','] + decimal(p.1 as nat) + seq![']']
}

/// The points of a path as JSON, with a comma between each two of them.
pub open spec fn pairs_json(path: Seq<(usize, usize)>) -> Seq<char>
    decreases path.len(),
{
    if path.len() == 0 {
        Seq::empty()
    } else if path.len() == 1 {
        pair_json(path[0])
    } else {
        pairs_json(path.drop_last()) + seq![','] + pair_json(path.last())
    }
}

/// A path as JSON: its points between `[` and `]`, without any white space.
pub open spec fn path_json(path: Seq<(usize, usize)>) -> Seq<char> {
    seq!['['] + pairs_json(path) + seq![']']
}

/// The list of pairs of indices that `serde_json::from_str` reads from a
/// text, if it reads one.
pub uninterp spec fn json_path(text: Seq<char>) -> Option<Seq<(usize, usize)>>;

/// The JSON text that `serde_json::to_string` gives for a path with two
/// lists of sentences.
pub uninterp spec fn result_json(
    path: Seq<(usize, usize)>,
    left: Seq<Seq<char>>,
    right: Seq<Seq<char>>,
) -> Seq<char>;

/// `serde_json::to_string` on a list of pairs of indices. It writes into a
/// vector of bytes, which takes all that is written, and neither a list nor
/// a pair nor an index refuses to be written: so it succeeds. Its compact
/// form writes a list as `[`, the members with `,` between them, and `]`, a
/// pair as a list of two, and an index in decimal notation.
#[verifier::external_body]
fn path_to_json(path: &Vec<(usize, usize)>) -> (json: Result<String, serde_json::Error>)
    ensures
        json is Ok,
        json matches Ok(text) ==> text@ == path_json(path@),
{
    serde_json::to_string(path)
}

/// `serde_json::from_str` for a list of pairs of indices. Whether it
/// succeeds and what it reads depends on the text alone.
#[verifier::external_body]
fn path_from_json(text: &str) -> (path: Result<Vec<(usize, usize)>, serde_json::Error>)
    ensures
        path is Ok <==> json_path(text@) is Some,
        path matches Ok(p) ==> json_path(text@) == Some(p@),
{
    serde_json::from_str(text)
}

/// `serde_json::to_string` on a path with two lists of sentences. It writes
/// into a vector of bytes, which takes all that is written, and neither a
/// list nor a pair nor an index nor a string refuses to be written: so it
/// succeeds. Its text depends on the three lists alone.
#[verifier::external_body]
fn result_to_json(path: &Vec<(usize, usize)>, left: &Vec<String>, right: &Vec<String>) -> (json:
    Result<String, serde_json::Error>)
    ensures
        json is Ok,
        json matches Ok(text) ==> text@ == result_json(path@, texts(left@), texts(right@)),
{
    serde_json::to_string(&(path, left, right))
}

/// Why a checkpoint was not read.
#[derive(Clone, Copy, Debug, PartialEq, Eq, Structural)]
pub enum StoreError {
    /// The text is not the JSON of a list of pairs of indices.
    Malformed,
}

/// The text under which a window's path is kept: the JSON list of its
/// points, each a list of the left and the right index.
pub fn path_text(path: &Vec<(usize, usize)>) -> (text: String)
    ensures
        text@ == path_json(path@),
{
    path_to_json(path).unwrap()
}

/// The text under which the result of a run is kept: the JSON list of the
/// joined path and the sentences of both sides.
pub fn result_text(path: &Vec<(usize, usize)>, left: &Vec<String>, right: &Vec<String>) -> (text:
    String)
    ensures
        text@ == result_json(path@, texts(left@), texts(right@)),
{
    result_to_json(path, left, right).unwrap()
}

/// The checkpoint of a window from what reading its path gave: the path
/// with the window's state, or an error where no path was read.
pub fn checkpoint_of(state: DriverState, read: Option<Vec<(usize, usize)>>) -> (checkpoint: Result<
    Checkpoint,
    StoreError,
>)
    ensures
        match read {
            Some(path) => checkpoint == Ok::<Checkpoint, StoreError>(Checkpoint { state, path }),
            None => checkpoint == Err::<Checkpoint, StoreError>(StoreError::Malformed),
        },
{
    match read {
        Some(path) => Ok(Checkpoint { state, path }),
        None => Err(StoreError::Malformed),
    }
}

/// Reads a window's path from the text under which it was kept.
pub fn read_path(text: &str) -> (path: Option<Vec<(usize, usize)>>)
    ensures
        path is Some <==> json_path(text@) is Some,
        path matches Some(p) ==> json_path(text@) == Some(p@),
{
    match path_from_json(text) {
        Ok(p) => Some(p),
        Err(_) => None,
    }
}

/// Reads the checkpoint of the window of `state` from the text under which
/// the window's path was kept.
pub fn load_checkpoint(state: DriverState, text: &str) -> (checkpoint: Result<
    Checkpoint,
    StoreError,
>)
    ensures
        match checkpoint {
            Ok(c) => c.state == state && json_path(text@) == Some(c.path@),
            Err(e) => e == StoreError::Malformed && json_path(text@) is None,
        },
{
    checkpoint_of(state, read_path(text))
}

} // verus!
