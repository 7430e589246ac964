//! The calls into `serde_json` that the record codec is built on, and the
//! names under which their results appear in contracts.

use vstd::prelude::*;

verus! {

/// The error type of `serde_json`. Nothing is known of a value of it but the
/// message it renders.
#[verifier::external_type_specification]
#[verifier::external_body]
pub struct ExJsonError(serde_json::Error);

/// The JSON text that `serde_json::to_vec` writes for the string `s`, or
/// `None` where it reports an error.
pub uninterp spec fn json_string_text(s: Seq<char>) -> Option<Seq<u8>>;

/// The string that `serde_json::from_slice` reads from the whole of `text`,
/// or `None` where it reports an error.
pub uninterp spec fn json_string_value(text: Seq<u8>) -> Option<Seq<char>>;

/// Calls `serde_json::to_vec` on a string slice. Nothing is claimed of the
/// text beyond its being a function of the string: the same string always
/// gives the same bytes, or always an error.
#[verifier::external_body]
pub(crate) fn write_json_string(s: &str) -> (out: Result<Vec<u8>, serde_json::Error>)
    ensures
        match out {
            Ok(text) => json_string_text(s@) == Some(text@),
            Err(_) => json_string_text(s@) is None,
        },
{
    serde_json::to_vec(s)
}

/// Calls `serde_json::from_slice` to read one `String` from `text`, which
/// must hold the value and nothing after it. Nothing is claimed of the
/// string beyond its being a function of the bytes.
#[verifier::external_body]
pub(crate) fn read_json_string(text: &[u8]) -> (out: Result<String, serde_json::Error>)
    ensures
        match out {
            Ok(s) => json_string_value(text@) == Some(s@),
            Err(_) => json_string_value(text@) is None,
        },
{
    serde_json::from_slice::<String>(text)
}

/// Renders a `serde_json::Error` through its `Display` impl. Nothing is
/// claimed of the message.
#[verifier::external_body]
pub(crate) fn json_error_message(e: &serde_json::Error) -> (out: String)
{
    e.to_string()
}

} // verus!
