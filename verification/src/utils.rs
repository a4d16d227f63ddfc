//! Reading what a command printed.

use vstd::prelude::*;
use vstd::utf8::{encode_utf8, valid_utf8};

verus! {

/// `String::from_utf8` of the standard library: the bytes as a string, where
/// they are well-formed UTF-8, and nothing where they are not. The string
/// holds exactly the bytes that were handed in.
#[verifier::external_body]
fn string_from_utf8(bytes: Vec<u8>) -> (text: Option<String>)
    ensures
        text is Some <==> valid_utf8(bytes@),
        text matches Some(s) ==> encode_utf8(s@) == bytes@,
{
    match String::from_utf8(bytes) {
        Ok(s) => Some(s),
        Err(_) => None,
    }
}

/// The text that a command printed, given the bytes of its standard output:
/// `None` where the bytes are not well-formed UTF-8.
pub fn get_stdout(stdout: Vec<u8>) -> (text: Option<String>)
    ensures
        text is Some <==> valid_utf8(stdout@),
        text matches Some(s) ==> encode_utf8(s@) == stdout@,
{
    string_from_utf8(stdout)
}

} // verus!
