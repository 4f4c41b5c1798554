//! Percent-encoding of URL components, as the `urlencoding` crate does it.
use vstd::prelude::*;
use vstd::utf8::{decode_utf8, encode_scalar, encode_utf8, valid_utf8};
use crate::text::digit_char;

verus! {

/// Bytes that `urlencoding::encode` leaves as they are.
pub open spec fn unreserved(b: u8) -> bool {
    ||| 48 <= b <= 57
    ||| 65 <= b <= 90
    ||| 97 <= b <= 122
    ||| b == 45
    ||| b == 46
    ||| b == 95
    ||| b == 126
}

/// Upper-case hexadecimal digit.
pub open spec fn hex_upper(d: nat) -> char {
    if d < 10 {
        digit_char(d)
    } else {
        (55 + d) as char
    }
}

/// How one byte is written: as itself, or `%` and two upper-case hex digits.
pub open spec fn pct_byte(b: u8) -> Seq<char> {
    if unreserved(b) {
        seq![b as char]
    } else {
        seq!['%', hex_upper((b / 16) as nat), hex_upper((b % 16) as nat)]
    }
}

/// Percent-encoding of a byte string.
pub open spec fn pct_encode(bs: Seq<u8>) -> Seq<char>
    decreases bs.len(),
{
    if bs.len() == 0 {
        Seq::empty()
    } else {
        pct_byte(bs[0]) + pct_encode(bs.drop_first())
    }
}

/// Percent-encoding of the UTF-8 bytes of a text.
pub open spec fn url_encoded(s: Seq<char>) -> Seq<char> {
    pct_encode(encode_utf8(s))
}

/// Value of a hexadecimal digit byte, either case.
pub open spec fn hex_val(b: u8) -> Option<u8> {
    if 48 <= b <= 57 {
        Some((b - 48) as u8)
    } else if 65 <= b <= 70 {
        Some((b - 55) as u8)
    } else if 97 <= b <= 102 {
        Some((b - 87) as u8)
    } else {
        None
    }
}

/// Percent-decoding of a byte string: each `%` followed by two hex digits
/// becomes the byte they spell; every other byte, a `%` without two hex
/// digits after it included, stays as it is. `+` is not touched.
pub open spec fn pct_decode(bs: Seq<u8>) -> Seq<u8>
    decreases bs.len(),
{
    if bs.len() == 0 {
        Seq::empty()
    } else if bs[0] == 37 && bs.len() >= 3 && hex_val(bs[1]) is Some && hex_val(bs[2]) is Some {
        seq![(hex_val(bs[1])->0 * 16 + hex_val(bs[2])->0) as u8] + pct_decode(bs.subrange(3, bs.len() as int))
    } else {
        seq![bs[0]] + pct_decode(bs.subrange(1, bs.len() as int))
    }
}

/// The text that percent-decoding gives, or `None` when the decoded bytes
/// are not UTF-8.
pub open spec fn url_decoded(s: Seq<char>) -> Option<Seq<char>> {
    let bs = pct_decode(encode_utf8(s));
    if valid_utf8(bs) {
        Some(decode_utf8(bs))
    } else {
        None
    }
}

/// The bytes of the text that [`pct_byte`] writes.
pub open spec fn pct_byte_bytes(b: u8) -> Seq<u8> {
    if unreserved(b) {
        seq![b]
    } else {
        seq![37u8, hex_upper((b / 16) as nat) as u8, hex_upper((b % 16) as nat) as u8]
    }
}

/// The bytes of the text that [`pct_encode`] writes.
pub open spec fn pct_encode_bytes(bs: Seq<u8>) -> Seq<u8>
    decreases bs.len(),
{
    if bs.len() == 0 {
        Seq::empty()
    } else {
        pct_byte_bytes(bs[0]) + pct_encode_bytes(bs.drop_first())
    }
}

proof fn lemma_encode_utf8_concat(a: Seq<char>, b: Seq<char>)
    ensures
        encode_utf8(a + b) == encode_utf8(a) + encode_utf8(b),
    decreases a.len(),
{
    if a.len() == 0 {
        assert(a + b =~= b);
    } else {
        assert((a + b).drop_first() =~= a.drop_first() + b);
        lemma_encode_utf8_concat(a.drop_first(), b);
        assert(encode_utf8(a + b) =~= encode_utf8(a) + encode_utf8(b));
    }
}

proof fn lemma_encode_ascii_char(c: char)
    requires
        (c as u32) < 128,
    ensures
        encode_utf8(seq![c]) == seq![(c as u32) as u8],
{
    let v = c as u32;
    assert((v & 0x7F) == v) by (bit_vector)
        requires
            v < 128,
    ;
    assert(seq![c].drop_first() =~= Seq::<char>::empty());
    assert(encode_utf8(Seq::<char>::empty()) == Seq::<u8>::empty());
    assert(encode_scalar(v) == seq![v as u8]);
    assert(encode_utf8(seq![c]) =~= seq![(c as u32) as u8]);
}

proof fn lemma_encode_pct_byte(b: u8)
    ensures
        encode_utf8(pct_byte(b)) == pct_byte_bytes(b),
{
    if unreserved(b) {
        lemma_encode_ascii_char(b as char);
    } else {
        let c1 = hex_upper((b / 16) as nat);
        let c2 = hex_upper((b % 16) as nat);
        assert(seq!['%', c1, c2] =~= seq!['%'] + (seq![c1] + seq![c2]));
        lemma_encode_utf8_concat(seq!['%'], seq![c1] + seq![c2]);
        lemma_encode_utf8_concat(seq![c1], seq![c2]);
        lemma_encode_ascii_char('%');
        lemma_encode_ascii_char(c1);
        lemma_encode_ascii_char(c2);
        assert(encode_utf8(pct_byte(b)) =~= pct_byte_bytes(b));
    }
}

proof fn lemma_encode_pct(bs: Seq<u8>)
    ensures
        encode_utf8(pct_encode(bs)) == pct_encode_bytes(bs),
    decreases bs.len(),
{
    if bs.len() > 0 {
        lemma_encode_utf8_concat(pct_byte(bs[0]), pct_encode(bs.drop_first()));
        lemma_encode_pct_byte(bs[0]);
        lemma_encode_pct(bs.drop_first());
    }
}

proof fn lemma_decode_pct(bs: Seq<u8>)
    ensures
        pct_decode(pct_encode_bytes(bs)) == bs,
    decreases bs.len(),
{
    if bs.len() > 0 {
        let b = bs[0];
        let rest = pct_encode_bytes(bs.drop_first());
        let e = pct_encode_bytes(bs);
        assert(e == pct_byte_bytes(b) + rest);
        lemma_decode_pct(bs.drop_first());
        if unreserved(b) {
            assert(e.subrange(1, e.len() as int) =~= rest);
        } else {
            assert(e.subrange(3, e.len() as int) =~= rest);
            assert(e[1] == hex_upper((b / 16) as nat) as u8);
            assert(e[2] == hex_upper((b % 16) as nat) as u8);
            assert(hex_val(e[1]) == Some((b / 16) as u8));
            assert(hex_val(e[2]) == Some((b % 16) as u8));
        }
        assert(pct_decode(e) =~= bs);
    }
}

/// Percent-decoding gives back what percent-encoding was given.
pub proof fn lemma_url_round_trip(s: Seq<char>)
    ensures
        url_decoded(url_encoded(s)) == Some(s),
{
    lemma_encode_pct(encode_utf8(s));
    lemma_decode_pct(encode_utf8(s));
    vstd::utf8::encode_utf8_valid_utf8(s);
    vstd::utf8::encode_utf8_decode_utf8(s);
}

/// `urlencoding::encode`: every UTF-8 byte of the text except ASCII letters,
/// digits and `- . _ ~` is written as `%` and two upper-case hex digits.
#[verifier::external_body]
pub(crate) fn url_encode(s: &str) -> (r: String)
    ensures
        r@ == url_encoded(s@),
{
    urlencoding::encode(s).into_owned()
}

/// `urlencoding::decode`: percent-decodes the UTF-8 bytes of the text and
/// reads the result as UTF-8; `None` when those bytes are not UTF-8.
#[verifier::external_body]
pub(crate) fn url_decode(s: &str) -> (r: Option<String>)
    ensures
        r matches Some(d) ==> url_decoded(s@) == Some(d@),
        r is None ==> url_decoded(s@) is None,
{
    urlencoding::decode(s).ok().map(|d| d.into_owned())
}

} // verus!
