use vstd::prelude::*;
use vstd::utf8::*;

verus! {

/// The value of an ASCII hexadecimal digit, either case.
pub open spec fn hex_value(b: u8) -> Option<u8> {
    if 0x30 <= b <= 0x39 {
        Some((b - 0x30) as u8)
    } else if 0x41 <= b <= 0x46 {
        Some((b - 0x41 + 10) as u8)
    } else if 0x61 <= b <= 0x66 {
        Some((b - 0x61 + 10) as u8)
    } else {
        None
    }
}

/// Percent-decoding of bytes: each `%` followed by two hexadecimal digits
/// becomes the byte they spell; every other byte, `+` and a `%` without two
/// digits behind it among them, stays as it is.
pub open spec fn percent_decode(bytes: Seq<u8>) -> Seq<u8>
    decreases bytes.len(),
{
    if bytes.len() == 0 {
        seq![]
    } else if bytes[0] == 0x25 && bytes.len() >= 3 && hex_value(bytes[1]) is Some && hex_value(
        bytes[2],
    ) is Some {
        seq![(hex_value(bytes[1]).unwrap() * 16 + hex_value(bytes[2]).unwrap()) as u8]
            + percent_decode(bytes.subrange(3, bytes.len() as int))
    } else {
        seq![bytes[0]] + percent_decode(bytes.drop_first())
    }
}

/// The text that a percent-encoded text stands for: its UTF-8 bytes are
/// percent-decoded and read back as UTF-8; `None` where they are not UTF-8.
pub open spec fn url_decoded(text: Seq<char>) -> Option<Seq<char>> {
    let bytes = percent_decode(encode_utf8(text));
    if valid_utf8(bytes) {
        Some(decode_utf8(bytes))
    } else {
        None
    }
}

/// `urlencoding::decode`. Its source percent-decodes the UTF-8 bytes of `text`
/// as `percent_decode` states (a `%` is kept where fewer than two bytes follow
/// it or either of them is not a hexadecimal digit, `+` is kept) and then reads
/// the bytes as UTF-8 with `String::from_utf8`, failing where they are not
/// UTF-8; where `text` holds no `%` it hands `text` back. The contract claims
/// that the result is exactly `url_decoded(text@)`; the UTF-8 error is dropped.
#[verifier::external_body]
pub(crate) fn url_decode(text: &str) -> (r: Option<String>)
    ensures
        r is Some <==> url_decoded(text@) is Some,
        r matches Some(t) ==> url_decoded(text@) == Some(t@),
{
    urlencoding::decode(text).ok().map(|t| t.into_owned())
}

/// The bytes of a character's UTF-8 encoding hold the byte `%` only where the
/// character is `%`.
proof fn lemma_encode_scalar_percent(c: char)
    ensures
        (c != '%') ==> !encode_scalar(c as u32).contains(0x25u8),
{
    let v = c as u32;
    broadcast use char_is_scalar;

    if has_width_1_encoding(v) {
        if c != '%' {
            assert(v != 0x25);
            assert(leading_byte_width_1(v) != 0x25u8) by (bit_vector)
                requires
                    has_width_1_encoding(v),
                    v != 0x25,
            ;
            assert(encode_scalar(v) == seq![leading_byte_width_1(v)]);
        }
    } else if has_width_2_encoding(v) {
        assert(leading_byte_width_2(v) >= 0x80 && last_continuation_byte(v) >= 0x80) by (bit_vector);
    } else if has_width_3_encoding(v) {
        assert(leading_byte_width_3(v) >= 0x80 && second_last_continuation_byte(v) >= 0x80
            && last_continuation_byte(v) >= 0x80) by (bit_vector);
    } else {
        assert(leading_byte_width_4(v) >= 0x80 && third_last_continuation_byte(v) >= 0x80
            && second_last_continuation_byte(v) >= 0x80 && last_continuation_byte(v) >= 0x80)
            by (bit_vector);
    }
}

/// A text without `%` has no `%` byte in its UTF-8 encoding.
proof fn lemma_encode_without_percent(text: Seq<char>)
    requires
        !text.contains('%'),
    ensures
        !encode_utf8(text).contains(0x25u8),
    decreases text.len(),
{
    if text.len() > 0 {
        lemma_encode_scalar_percent(text[0]);
        assert(!text.drop_first().contains('%')) by {
            if text.drop_first().contains('%') {
                let i = choose|i: int| 0 <= i < text.drop_first().len() && text.drop_first()[i] == '%';
                assert(text[i + 1] == '%');
            }
        }
        lemma_encode_without_percent(text.drop_first());
        let a = encode_scalar(text[0] as u32);
        let b = encode_utf8(text.drop_first());
        assert(encode_utf8(text) == a + b);
        if (a + b).contains(0x25u8) {
            let i = choose|i: int| 0 <= i < (a + b).len() && (a + b)[i] == 0x25u8;
            if i < a.len() {
                assert(a[i] == 0x25u8);
            } else {
                assert(b[i - a.len()] == 0x25u8);
            }
        }
    }
}

/// Bytes without `%` are left as they are by percent-decoding.
proof fn lemma_percent_decode_without_percent(bytes: Seq<u8>)
    requires
        !bytes.contains(0x25u8),
    ensures
        percent_decode(bytes) == bytes,
    decreases bytes.len(),
{
    if bytes.len() > 0 {
        assert(bytes[0] != 0x25u8);
        assert(!bytes.drop_first().contains(0x25u8)) by {
            if bytes.drop_first().contains(0x25u8) {
                let i = choose|i: int| 0 <= i < bytes.drop_first().len() && bytes.drop_first()[i] == 0x25u8;
                assert(bytes[i + 1] == 0x25u8);
            }
        }
        lemma_percent_decode_without_percent(bytes.drop_first());
        assert(bytes == seq![bytes[0]] + bytes.drop_first());
    }
}

/// A text holding no `%` decodes to itself.
pub proof fn law_decode_without_percent(text: Seq<char>)
    requires
        !text.contains('%'),
    ensures
        url_decoded(text) == Some(text),
{
    broadcast use encode_utf8_valid_utf8, encode_utf8_decode_utf8;

    lemma_encode_without_percent(text);
    lemma_percent_decode_without_percent(encode_utf8(text));
}

} // verus!
