use vstd::prelude::*;
use vstd::utf8::{encode_scalar, encode_utf8, is_scalar};

verus! {

/// The UTF-8 encoding of a text has at least one byte per character.
pub proof fn lemma_encoding_covers_chars(chars: Seq<char>)
    ensures
        chars.len() <= encode_utf8(chars).len(),
    decreases chars.len(),
{
    if chars.len() > 0 {
        vstd::utf8::char_is_scalar(chars[0]);
        assert(encode_scalar(chars[0] as u32).len() >= 1);
        lemma_encoding_covers_chars(chars.drop_first());
    }
}

/// The byte length of `s`, which bounds its number of characters.
pub fn byte_len(s: &str) -> (n: usize)
    ensures
        s@.len() <= n,
{
    let bytes = s.as_bytes();
    proof {
        lemma_encoding_covers_chars(s@);
    }
    bytes.len()
}

/// Appends `c` to `s`.
///
/// Trusted: calls `String::push`, which std documents as appending the given
/// character to the end of the string.
#[verifier::external_body]
pub(crate) fn push_char(s: &mut String, c: char)
    ensures
        final(s)@ == old(s)@.push(c),
{
    s.push(c)
}

/// The character with the given code point.
///
/// Trusted: calls `char::from_u32`, which std documents as returning the
/// character for a Unicode scalar value and `None` for any other number.
#[verifier::external_body]
pub(crate) fn char_from_code(code: u32) -> (r: Option<char>)
    ensures
        r == (if is_scalar(code) {
            Some(code as char)
        } else {
            None
        }),
{
    char::from_u32(code)
}

} // verus!
