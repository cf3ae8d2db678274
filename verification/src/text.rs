//! Bytes as text.

use vstd::prelude::*;
use vstd::string::*;
use vstd::utf8::valid_utf8;

verus! {

/// Whether `n` is how far `bytes` are UTF-8.
pub open spec fn is_valid_up_to(bytes: Seq<u8>, n: int) -> bool {
    &&& 0 <= n <= bytes.len()
    &&& valid_utf8(bytes.take(n))
    &&& forall|m: int| n < m <= bytes.len() ==> !valid_utf8(#[trigger] bytes.take(m))
}

/// Calls [`std::str::from_utf8`] and takes [`std::str::Utf8Error::valid_up_to`] of its error.
///
/// Claimed: bytes that are UTF-8 are given back as text, and for others the error gives the
/// greatest number of bytes from the start that are UTF-8.
#[verifier::external_body]
pub(crate) fn utf8_text(bytes: &[u8]) -> (text: Result<&str, usize>)
    ensures
        match text {
            Ok(text) => valid_utf8(bytes@) && text.spec_bytes() == bytes@,
            Err(n) => !valid_utf8(bytes@) && is_valid_up_to(bytes@, n as int),
        },
{
    std::str::from_utf8(bytes).map_err(|error| error.valid_up_to())
}

} // verus!
