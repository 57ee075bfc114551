use vstd::prelude::*;
use vstd::utf8::{decode_utf8, valid_utf8};

verus! {

/// The text that bytes stand for, by `std::str::from_utf8`. It is taken on trust
/// that the function gives a text for exactly those bytes that are UTF-8, and
/// that it is the text that they encode.
#[verifier::external_body]
pub(crate) fn text_of(bytes: &[u8]) -> (r: Option<String>)
    ensures
        match r {
            Some(s) => valid_utf8(bytes@) && s@ == decode_utf8(bytes@),
            None => !valid_utf8(bytes@),
        },
{
    match std::str::from_utf8(bytes) {
        Ok(s) => Some(s.to_string()),
        Err(_) => None,
    }
}

} // verus!
