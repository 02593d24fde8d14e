//! Percent-decoding of request paths.

use vstd::prelude::*;
use vstd::utf8::{decode_utf8, valid_utf8};

verus! {

/// The value of an ASCII hexadecimal digit (`0-9`, `a-f`, `A-F`).
pub open spec fn hex_value(b: u8) -> Option<u8> {
    if 48 <= b <= 57 {
        Some((b - 48) as u8)
    } else if 97 <= b <= 102 {
        Some((b - 87) as u8)
    } else if 65 <= b <= 70 {
        Some((b - 55) as u8)
    } else {
        None
    }
}

/// Bytes with every `%` followed by two hexadecimal digits replaced by the
/// byte those digits spell; any other byte, a lone `%` included, is kept.
pub open spec fn percent_decoded(s: Seq<u8>) -> Seq<u8>
    decreases s.len(),
{
    if s.len() == 0 {
        Seq::empty()
    } else if s[0] == 37 && s.len() >= 3 && hex_value(s[1]) is Some && hex_value(s[2]) is Some {
        seq![(hex_value(s[1])->0 * 16 + hex_value(s[2])->0) as u8] + percent_decoded(s.skip(3))
    } else {
        seq![s[0]] + percent_decoded(s.skip(1))
    }
}

/// What `String::from_utf8_lossy` gives for bytes: their UTF-8 decoding, with
/// each invalid sequence replaced by U+FFFD.
pub uninterp spec fn utf8_lossy(bytes: Seq<u8>) -> Seq<char>;

/// `percent_encoding::percent_decode`, collected: reads each `%` followed by
/// two hexadecimal digits as the byte they spell and keeps every other byte
/// (the crate's `after_percent_sign` reads the two digits with
/// `char::to_digit(16)`).
#[verifier::external_body]
fn percent_decode_bytes(input: &[u8]) -> (out: Vec<u8>)
    ensures
        out@ == percent_decoded(input@),
{
    percent_encoding::percent_decode(input).collect()
}

/// `String::from_utf8_lossy`: valid UTF-8 is decoded as it stands; for other
/// input the result is named by `utf8_lossy` (the replacement rules are left
/// to the standard library).
#[verifier::external_body]
fn from_utf8_lossy(bytes: &[u8]) -> (s: String)
    ensures
        s@ == utf8_lossy(bytes@),
        valid_utf8(bytes@) ==> s@ == decode_utf8(bytes@),
{
    String::from_utf8_lossy(bytes).into_owned()
}

/// The text a request path stands for: percent-decoded, then read as UTF-8.
pub open spec fn decoded_path(path: Seq<char>) -> Seq<char> {
    utf8_lossy(percent_decoded(vstd::utf8::encode_utf8(path)))
}

/// Percent-decodes a request path and reads the bytes as UTF-8, replacing
/// invalid sequences.
pub fn decode_path(path: &str) -> (r: String)
    ensures
        r@ == decoded_path(path@),
        valid_utf8(percent_decoded(vstd::utf8::encode_utf8(path@))) ==> r@ == decode_utf8(
            percent_decoded(vstd::utf8::encode_utf8(path@)),
        ),
{
    let bytes = path.as_bytes();
    let decoded = percent_decode_bytes(bytes);
    from_utf8_lossy(decoded.as_slice())
}

/// Bytes without `%` decode to themselves.
pub proof fn lemma_percent_decoded_plain(s: Seq<u8>)
    requires
        forall|i: int| 0 <= i < s.len() ==> s[i] != 37,
    ensures
        percent_decoded(s) == s,
    decreases s.len(),
{
    if s.len() > 0 {
        lemma_percent_decoded_plain(s.skip(1));
        assert(seq![s[0]] + s.skip(1) =~= s);
    }
}

proof fn lemma_scalar_has_no_percent_byte(v: u32)
    requires
        v != 37,
    ensures
        forall|i: int|
            0 <= i < vstd::utf8::encode_scalar(v).len() ==> #[trigger] vstd::utf8::encode_scalar(
                v,
            )[i] != 37,
{
    assert(v <= 0x7F && v != 37 ==> (v & 0x7F) as u8 != 37) by (bit_vector);
    assert(0xC0u8 | ((v >> 6) & 0x1F) as u8 != 37) by (bit_vector);
    assert(0xE0u8 | ((v >> 12) & 0x0F) as u8 != 37) by (bit_vector);
    assert(0xF0u8 | ((v >> 18) & 0x7) as u8 != 37) by (bit_vector);
    assert(0x80u8 | (v & 0x3F) as u8 != 37) by (bit_vector);
    assert(0x80u8 | ((v >> 6) & 0x3F) as u8 != 37) by (bit_vector);
    assert(0x80u8 | ((v >> 12) & 0x3F) as u8 != 37) by (bit_vector);
}

proof fn lemma_encoding_has_no_percent_byte(path: Seq<char>)
    requires
        forall|i: int| 0 <= i < path.len() ==> path[i] != '%',
    ensures
        forall|i: int|
            0 <= i < vstd::utf8::encode_utf8(path).len() ==> #[trigger] vstd::utf8::encode_utf8(
                path,
            )[i] != 37,
    decreases path.len(),
{
    if path.len() > 0 {
        let head = vstd::utf8::encode_scalar(path[0] as u32);
        let rest = path.drop_first();
        assert(path[0] != '%');
        assert(path[0] as u32 != 37) by {
            vstd::utf8::char_u32_cast(path[0], path[0] as u32);
            assert('%' as u32 == 37);
        }
        lemma_scalar_has_no_percent_byte(path[0] as u32);
        lemma_encoding_has_no_percent_byte(rest);
        let all = vstd::utf8::encode_utf8(path);
        assert(all == head + vstd::utf8::encode_utf8(rest));
        assert forall|i: int| 0 <= i < all.len() implies #[trigger] all[i] != 37 by {
            if i < head.len() {
                assert(all[i] == head[i]);
            } else {
                assert(all[i] == vstd::utf8::encode_utf8(rest)[i - head.len()]);
            }
        }
    }
}

/// A path without `%` decodes to itself.
pub proof fn lemma_decoded_path_plain(path: Seq<char>)
    requires
        forall|i: int| 0 <= i < path.len() ==> path[i] != '%',
    ensures
        valid_utf8(percent_decoded(vstd::utf8::encode_utf8(path))),
        decode_utf8(percent_decoded(vstd::utf8::encode_utf8(path))) == path,
{
    let bytes = vstd::utf8::encode_utf8(path);
    lemma_encoding_has_no_percent_byte(path);
    lemma_percent_decoded_plain(bytes);
    vstd::utf8::encode_utf8_valid_utf8(path);
    vstd::utf8::encode_utf8_decode_utf8(path);
}

} // verus!
