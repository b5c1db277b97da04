//! UTF-8 views of on-disk byte strings.

use vstd::prelude::*;
use std::borrow::Cow;
use vstd::utf8::{valid_utf8, decode_utf8};
use vstd::string::StringSliceAdditionalSpecFns;

verus! {

/// Calls `std::str::from_utf8`. Its documentation: the call succeeds
/// exactly when the bytes are valid UTF-8, and the string it returns
/// is those same bytes. The contract claims both: `Some` iff the
/// bytes are valid UTF-8 (the standard's rules, as `valid_utf8` spells
/// them out), and the result's UTF-8 bytes are the input bytes.
#[verifier::external_body]
pub(crate) fn str_from_utf8(bytes: &[u8]) -> (r: Option<&str>)
    ensures
        r is Some <==> valid_utf8(bytes@),
        r matches Some(s) ==> s.spec_bytes() == bytes@,
{
    std::str::from_utf8(bytes).ok()
}

/// What `String::from_utf8_lossy` makes of a byte sequence: the UTF-8
/// text, each invalid sequence replaced by U+FFFD.
pub uninterp spec fn lossy_utf8(bytes: Seq<u8>) -> Seq<char>;

/// Calls `String::from_utf8_lossy`. The contract names its result
/// `lossy_utf8` of the input, and states what its documentation says of
/// valid input: the text is returned as it is. How replacement
/// characters are placed in invalid input is left unsaid.
#[verifier::external_body]
pub(crate) fn str_from_utf8_lossy(bytes: &[u8]) -> (r: Cow<'_, str>)
    ensures
        r@ == lossy_utf8(bytes@),
        valid_utf8(bytes@) ==> r@ == decode_utf8(bytes@),
{
    String::from_utf8_lossy(bytes)
}

} // verus!
