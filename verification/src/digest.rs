//! The MD5 digest used by both cracking modes, behind a trusted wrapper
//! around the outside `md5` crate.

use vstd::prelude::*;
use vstd::string::StringSliceAdditionalSpecFns;

verus! {

/// The bytes of an ASCII string: each character's code point as one byte.
pub open spec fn ascii_bytes(s: Seq<char>) -> Seq<u8> {
    Seq::new(s.len(), |i: int| s[i] as u8)
}

/// The lowercase hexadecimal MD5 digest of a byte sequence, as the `md5`
/// crate computes it. The digest is a function of the input bytes alone; its
/// value is not written out here.
pub uninterp spec fn md5_hex_of(bytes: Seq<u8>) -> Seq<char>;

/// `c` is a lowercase hexadecimal digit.
pub open spec fn lower_hex_char(c: char) -> bool {
    ('0' <= c && c <= '9') || ('a' <= c && c <= 'f')
}

/// Relies on `md5::compute`: the digest depends on the input bytes alone, and
/// `{:x}` renders its 16 bytes as two lowercase hexadecimal digits each.
#[verifier::external_body]
pub(crate) fn md5_hex(data: &[u8]) -> (r: String)
    ensures
        r@ == md5_hex_of(data@),
        r@.len() == 32,
        forall|i: int| 0 <= i < r@.len() ==> lower_hex_char(#[trigger] r@[i]),
{
    format!("{:x}", md5::compute(data))
}

/// The lowercase hexadecimal MD5 digest of a piece of text, hashed as its
/// UTF-8 bytes.
pub fn md5_text(text: &str) -> (r: String)
    ensures
        r@ == md5_hex_of(text.spec_bytes()),
        r@.len() == 32,
        forall|i: int| 0 <= i < r@.len() ==> lower_hex_char(#[trigger] r@[i]),
{
    md5_hex(text.as_bytes())
}

} // verus!
