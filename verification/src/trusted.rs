//! The few calls into the standard library that carry text across the
//! byte boundary.  Each is a trusted wrapper: Verus believes the stated
//! contract and does not read the body.
use vstd::prelude::*;

use crate::wire::lossy_text;
use vstd::utf8::decode_utf8;
use vstd::utf8::valid_utf8;

verus! {

/// Relies on `String::from_utf8_lossy`: valid UTF-8 is decoded exactly;
/// any input yields the lossy replacement decoding, here named
/// [`lossy_text`].
#[verifier::external_body]
pub(crate) fn string_from_bytes_lossy(b: &[u8]) -> (r: String)
    ensures
        r@ == lossy_text(b@),
        valid_utf8(b@) ==> r@ == decode_utf8(b@),
{
    String::from_utf8_lossy(b).into_owned()
}

/// Relies on `String::from_utf8`: succeeds exactly on valid UTF-8 and
/// decodes it exactly.
#[verifier::external_body]
pub(crate) fn string_from_utf8(b: Vec<u8>) -> (r: Option<String>)
    ensures
        match r {
            Option::Some(s) => valid_utf8(b@) && s@ == decode_utf8(b@),
            Option::None => !valid_utf8(b@),
        },
{
    match String::from_utf8(b) {
        Ok(s) => Some(s),
        Err(_) => None,
    }
}

} // verus!
