//! Small bridges between this crate and std's string primitives.
//!
//! Everything here either carries an exact contract proved elsewhere in
//! vstd's terms, or is one of the two trusted wrappers around a std
//! function that vstd leaves unspecified.

use vstd::prelude::*;
use vstd::utf8::{decode_utf8, valid_utf8};

verus! {

/// What `String::from_utf8_lossy` returns on the given bytes; it depends
/// on the bytes alone.
pub uninterp spec fn utf8_lossy(bytes: Seq<u8>) -> Seq<char>;

/// Relies on `String::push`: it appends the given character to the end of
/// the string.
#[verifier::external_body]
pub(crate) fn push_char(s: &mut String, c: char)
    ensures
        final(s)@ == old(s)@.push(c),
{
    s.push(c);
}

/// Relies on `String::from_utf8_lossy`: it decodes valid UTF-8 exactly,
/// replaces invalid sequences with replacement markers, and its result
/// depends on the bytes alone.
#[verifier::external_body]
pub(crate) fn lossy_string(bytes: &[u8]) -> (r: String)
    ensures
        r@ == utf8_lossy(bytes@),
        valid_utf8(bytes@) ==> r@ == decode_utf8(bytes@),
{
    String::from_utf8_lossy(bytes).to_string()
}

} // verus!
