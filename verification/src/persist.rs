//! The board as text: written out as JSON, a list of three lists of three
//! small numbers, and read back with its shape checked.
use vstd::prelude::*;
use crate::grid::{is_board, is_grid};

verus! {

/// The error type of `serde_json`.
#[verifier::external_type_specification]
#[verifier::external_body]
pub struct ExJsonError(serde_json::Error);

/// The text that `serde_json::to_string` gives for rows of numbers; `None`
/// where it reports an error.
pub uninterp spec fn json_text(rows: Seq<Seq<usize>>) -> Option<Seq<char>>;

/// The rows of numbers that `serde_json::from_str` reads from a text; `None`
/// where it reports an error.
pub uninterp spec fn json_rows(text: Seq<char>) -> Option<Seq<Seq<usize>>>;

/// `serde_json::to_string` on rows of numbers. The contract gives its result
/// a name, `json_text`: the same rows give the same text or the same failure.
/// Nothing is said of what the text holds.
#[verifier::external_body]
fn rows_to_json(rows: &Vec<Vec<usize>>) -> (r: Result<String, serde_json::Error>)
    ensures
        match r {
            Ok(text) => json_text(rows.deep_view()) == Some(text@),
            Err(_) => json_text(rows.deep_view()).is_none(),
        },
{
    serde_json::to_string(rows)
}

/// `serde_json::from_str` for rows of numbers. The contract gives its result
/// a name, `json_rows`: the same text gives the same rows or the same
/// failure. Nothing is said of which texts are accepted.
#[verifier::external_body]
fn json_to_rows(text: &str) -> (r: Result<Vec<Vec<usize>>, serde_json::Error>)
    ensures
        match r {
            Ok(rows) => json_rows(text@) == Some(rows.deep_view()),
            Err(_) => json_rows(text@).is_none(),
        },
{
    serde_json::from_str(text)
}

/// Why a saved board was not taken.
#[derive(Clone, Copy, PartialEq, Eq, Debug)]
pub enum LoadError {
    /// The text is not a list of lists of numbers.
    Malformed,
    /// The rows do not make a board of three by three.
    WrongShape,
}

/// What is taken from a saved text: the rows it reads as, where it reads as
/// rows and they make a board.
pub open spec fn decoded(text: Seq<char>) -> Result<Seq<Seq<usize>>, LoadError> {
    match json_rows(text) {
        None => Err(LoadError::Malformed),
        Some(g) => if is_grid(g) {
            Ok(g)
        } else {
            Err(LoadError::WrongShape)
        },
    }
}

/// The board as JSON text, or `None` where the encoder fails.
pub fn encode_model(model: &Vec<Vec<usize>>) -> (text: Option<String>)
    ensures
        match text {
            Some(t) => json_text(model.deep_view()) == Some(t@),
            None => json_text(model.deep_view()).is_none(),
        },
{
    match rows_to_json(model) {
        Ok(t) => Some(t),
        Err(_) => None,
    }
}

/// Takes rows that were read from a file if they make a board of three by
/// three, and refuses them otherwise.
pub fn accept_rows(rows: Vec<Vec<usize>>) -> (r: Result<Vec<Vec<usize>>, LoadError>)
    ensures
        match r {
            Ok(model) => is_grid(rows.deep_view()) && model == rows,
            Err(e) => !is_grid(rows.deep_view()) && e == LoadError::WrongShape,
        },
{
    if is_board(&rows) {
        Ok(rows)
    } else {
        Err(LoadError::WrongShape)
    }
}

/// Reads a saved board. The text must read as rows of numbers, and the rows
/// must make a board of three by three.
pub fn decode_model(text: &str) -> (r: Result<Vec<Vec<usize>>, LoadError>)
    ensures
        match r {
            Ok(model) => decoded(text@) == Ok::<Seq<Seq<usize>>, LoadError>(model.deep_view()),
            Err(e) => decoded(text@) == Err::<Seq<Seq<usize>>, LoadError>(e),
        },
{
    match json_to_rows(text) {
        Ok(rows) => accept_rows(rows),
        Err(_) => Err(LoadError::Malformed),
    }
}

} // verus!
