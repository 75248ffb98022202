//! Base64, as the bridge to the screen carries it.
use base64::Engine;
use vstd::prelude::*;

verus! {

/// What base64 with the standard alphabet and padding makes of bytes.
pub uninterp spec fn b64_encode(bytes: Seq<u8>) -> Seq<char>;

/// The bytes that a base64 text writes; `None` where it writes none.
pub uninterp spec fn b64_decode(text: Seq<char>) -> Option<Seq<u8>>;

/// What an encoding of `n` bytes takes can be allocated.
pub open spec fn can_encode(n: nat) -> bool {
    (n + 2) / 3 * 4 <= isize::MAX
}

/// `base64::engine::general_purpose::STANDARD.encode`: the standard base64 text of `bytes`,
/// which the same engine decodes to `bytes` again. The engine refuses lengths whose text
/// could not be allocated.
#[verifier::external_body]
pub(crate) fn encode(bytes: &[u8]) -> (r: String)
    requires
        can_encode(bytes@.len()),
    ensures
        r@ == b64_encode(bytes@),
        b64_decode(r@) == Some(bytes@),
{
    base64::engine::general_purpose::STANDARD.encode(bytes)
}

/// `base64::engine::general_purpose::STANDARD.decode`: the bytes that `text` writes, or
/// `None` where the engine reports an error.
#[verifier::external_body]
pub(crate) fn decode(text: &str) -> (r: Option<Vec<u8>>)
    ensures
        (match r {
            Some(v) => b64_decode(text@) == Some(v@),
            None => b64_decode(text@) is None,
        }),
{
    base64::engine::general_purpose::STANDARD.decode(text).ok()
}

} // verus!
