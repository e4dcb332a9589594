use vstd::prelude::*;
use crate::delta::chars_of;

verus! {

/// The lower-case hexadecimal MD5 digest of a text's UTF-8 encoding.
pub uninterp spec fn md5_hex(text: Seq<char>) -> Seq<char>;

/// Relies on `md5::compute` over the text's UTF-8 bytes and the digest's `LowerHex`
/// formatting, which writes each of its 16 bytes as two hex digits.
#[verifier::external_body]
fn md5_of_chars(text: &Vec<char>) -> (r: String)
    ensures
        r@ == md5_hex(text@),
        r@.len() == 32,
{
    let s: String = text.iter().collect();
    format!("{:x}", md5::compute(s.as_bytes()))
}

/// The checksum of a document's text.
pub fn checksum_of_chars(text: &Vec<char>) -> (r: String)
    ensures
        r@ == md5_hex(text@),
        r@.len() == 32,
{
    md5_of_chars(text)
}

/// The checksum of a text.
pub fn checksum_of_text(text: &str) -> (r: String)
    ensures
        r@ == md5_hex(text@),
        r@.len() == 32,
{
    let c = chars_of(text);
    md5_of_chars(&c)
}

} // verus!
