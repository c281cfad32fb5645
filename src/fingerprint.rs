//! The content signature of a file: its MD5 digest in lowercase hex.
use vstd::prelude::*;

verus! {

/// The MD5 digest of `data`, written as 32 lowercase hex digits.
pub uninterp spec fn md5_hex(data: Seq<u8>) -> Seq<u8>;

pub open spec fn is_lower_hex(b: u8) -> bool {
    (48u8 <= b <= 57u8) || (97u8 <= b <= 102u8)
}

/// Relies on `md5::compute` and the `LowerHex` impl of `md5::Digest`, which
/// writes each of the sixteen digest bytes as two lowercase hex digits.
#[verifier::external_body]
pub(crate) fn md5_lower_hex(data: &[u8]) -> (r: Vec<u8>)
    ensures
        r@ == md5_hex(data@),
        r@.len() == 32,
        forall|i: int| 0 <= i < r@.len() ==> is_lower_hex(#[trigger] r@[i]),
{
    format!("{:x}", md5::compute(data)).into_bytes()
}

/// The signature and length of a file's contents.
pub fn fingerprint(content: &[u8]) -> (r: (Vec<u8>, u64))
    ensures
        r.0@ == md5_hex(content@),
        r.1 == content@.len(),
{
    (md5_lower_hex(content), content.len() as u64)
}

} // verus!
