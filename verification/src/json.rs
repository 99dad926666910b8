//! The reconstruction as JSON text, by way of `serde_json`.

use vstd::prelude::*;
use crate::attack::AttackError;
use crate::reconstruct::{nested_view, JpegReconstruct};

verus! {

/// The error type of `serde_json`.  Nothing is known of its values.
#[verifier::external_type_specification]
#[verifier::external_body]
pub struct ExJsonError(serde_json::Error);

/// The text that `serde_json::to_string_pretty` gives for nested arrays of
/// numbers: JSON with one element per line, indented by two spaces per
/// level.  The text depends on the numbers alone.
pub uninterp spec fn pretty_json(buffer: Seq<Seq<Seq<usize>>>) -> Seq<char>;

/// Calls `serde_json::to_string_pretty` on the buffer.  Trusted: the call
/// succeeds, and its text is the one that `pretty_json` names.  The
/// encoder writes into a vector of bytes, which takes whatever it is
/// given, and neither vectors nor numbers refuse to be encoded.
#[verifier::external_body]
fn to_string_pretty(buffer: &Vec<Vec<Vec<usize>>>) -> (result: Result<String, serde_json::Error>)
    ensures
        result is Ok,
        result matches Ok(text) ==> text@ == pretty_json(nested_view(*buffer)),
{
    serde_json::to_string_pretty(buffer)
}

/// What an attempt to encode the reconstruction comes to: the text if
/// there is one, and an unknown error otherwise.
pub fn encoded(attempt: Result<String, serde_json::Error>) -> (result: Result<String, AttackError>)
    ensures
        match attempt {
            Ok(text) => result == Ok::<String, AttackError>(text),
            Err(_) => result == Err::<String, AttackError>(AttackError::Unknown),
        },
{
    match attempt {
        Ok(text) => Ok(text),
        Err(_) => Err(AttackError::Unknown),
    }
}

/// The block values of the reconstruction as JSON text: an array of
/// channels, each an array of rows, each an array of numbers.  The
/// encoding always succeeds.
pub fn raw_output(reconstruct: &JpegReconstruct) -> (result: Result<String, AttackError>)
    ensures
        result is Ok,
        result matches Ok(text) ==> text@ == pretty_json(reconstruct@.buffer),
{
    encoded(to_string_pretty(reconstruct.raw_reconstruction()))
}

} // verus!
