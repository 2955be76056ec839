//! Turning bytes into text.

use vstd::prelude::*;
#[allow(unused_imports)]
use vstd::utf8::*;

verus! {

/// `String::from_utf8`: succeeds exactly on valid UTF-8, and the string then
/// holds the characters that the bytes encode.
#[verifier::external_body]
pub fn string_from_utf8(bytes: Vec<u8>) -> (r: Option<String>)
    ensures
        r is Some <==> valid_utf8(bytes@),
        r matches Some(s) ==> s@ == decode_utf8(bytes@),
{
    String::from_utf8(bytes).ok()
}

/// What `String::from_utf8_lossy` makes of `bytes`: their characters, with
/// each invalid sequence replaced by U+FFFD.
pub uninterp spec fn utf8_lossy_spec(bytes: Seq<u8>) -> Seq<char>;

/// `String::from_utf8_lossy`, made an owned `String`: the result is named by
/// `utf8_lossy_spec`; on valid UTF-8 it is the characters that the bytes
/// encode. What stands in place of invalid sequences is left unsaid.
#[verifier::external_body]
pub fn string_from_utf8_lossy(bytes: &[u8]) -> (r: String)
    ensures
        r@ == utf8_lossy_spec(bytes@),
        valid_utf8(bytes@) ==> r@ == decode_utf8(bytes@),
{
    String::from_utf8_lossy(bytes).into_owned()
}

/// The characters of ASCII bytes.
pub open spec fn ascii_text(b: Seq<u8>) -> Seq<char> {
    b.map_values(|c: u8| c as char)
}

/// ASCII bytes are valid UTF-8, and stand for the characters of the same codes.
pub proof fn lemma_ascii_text(b: Seq<u8>)
    requires
        forall|i: int| 0 <= i < b.len() ==> #[trigger] b[i] < 128,
    ensures
        valid_utf8(b),
        decode_utf8(b) == ascii_text(b),
{
    let chars = ascii_text(b);
    assert forall|i: int| 0 <= i < chars.len() implies '\0' <= #[trigger] chars[i] <= '\u{7f}' by {
        assert(chars[i] == b[i] as char);
    }
    assert(is_ascii_chars(chars));
    is_ascii_chars_encode_utf8(chars);
    assert forall|i: int| 0 <= i < chars.len() implies #[trigger] encode_utf8(chars)[i] == b[i] by {
        assert(chars[i] == b[i] as char);
        assert(chars[i] as u8 == encode_utf8(chars)[i]);
    }
    assert(encode_utf8(chars) =~= b);
    encode_utf8_valid_utf8(chars);
    encode_utf8_decode_utf8(chars);
}

/// The lowercase hex digits of a byte, high then low.
pub fn hex_lower(b: u8) -> (r: (u8, u8))
    ensures
        r.0 == crate::extern_calls::hex_digit_lower(b as int / 16),
        r.1 == crate::extern_calls::hex_digit_lower(b as int % 16),
        r.0 < 128,
        r.1 < 128,
{
    let hi = b / 16;
    let lo = b % 16;
    let h = if hi < 10 { 48 + hi } else { 87 + hi };
    let l = if lo < 10 { 48 + lo } else { 87 + lo };
    (h, l)
}


/// A `String` of ASCII bytes.
pub fn ascii_string(bytes: Vec<u8>) -> (r: String)
    requires
        forall|i: int| 0 <= i < bytes@.len() ==> #[trigger] bytes@[i] < 128,
    ensures
        r@ == ascii_text(bytes@),
{
    proof {
        lemma_ascii_text(bytes@);
    }
    match string_from_utf8(bytes) {
        Some(s) => s,
        None => String::new(),
    }
}

/// The decimal spelling of `n`.
pub open spec fn decimal_text(n: nat) -> Seq<char> {
    ascii_text(crate::decimal::nat_digits(n))
}

/// The decimal spelling of `n`.
pub fn decimal_string(n: u64) -> (r: String)
    ensures
        r@ == decimal_text(n as nat),
{
    let mut out: Vec<u8> = Vec::new();
    crate::decimal::push_decimal_u64(&mut out, n);
    proof {
        crate::decimal::lemma_nat_digits_shape(n as nat);
        assert(out@ =~= crate::decimal::nat_digits(n as nat));
        assert forall|i: int| 0 <= i < out@.len() implies #[trigger] out@[i] < 128 by {
            assert(crate::decimal::is_digit(out@[i]));
        }
    }
    ascii_string(out)
}


} // verus!
