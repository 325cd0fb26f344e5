//! Whitespace as characters: the bytes that trimming drops are the UTF-8
//! encodings of the characters with the Unicode property White_Space, so
//! that trimming the bytes of a string is trimming its characters.

use vstd::prelude::*;
use vstd::utf8::{
    char_is_scalar, decode_utf8, decode_utf8_encode_utf8, encode_scalar, encode_utf8,
    encode_utf8_decode_utf8, has_width_1_encoding, has_width_2_encoding, has_width_3_encoding,
    is_scalar, valid_utf8,
};
use crate::text::{
    is_ascii_space, is_space_2, is_space_3, leading_space_width, lemma_encode_concat,
    trailing_space_width, trim, trim_end, trim_start,
};

verus! {

/// Whether the scalar value has the property White_Space: U+0009 to U+000D,
/// U+0020, U+0085, U+00A0, U+1680, U+2000 to U+200A, U+2028, U+2029, U+202F,
/// U+205F and U+3000.
pub open spec fn is_space_scalar(u: u32) -> bool {
    ||| (0x09 <= u <= 0x0D)
    ||| u == 0x20
    ||| u == 0x85
    ||| u == 0xA0
    ||| u == 0x1680
    ||| (0x2000 <= u <= 0x200A)
    ||| u == 0x2028
    ||| u == 0x2029
    ||| u == 0x202F
    ||| u == 0x205F
    ||| u == 0x3000
}

/// Whether the character is whitespace.
pub open spec fn is_whitespace(c: char) -> bool {
    is_space_scalar(c as u32)
}

/// The characters without the whitespace they begin with.
pub open spec fn trim_start_chars(s: Seq<char>) -> Seq<char>
    decreases s.len(),
{
    if s.len() > 0 && is_whitespace(s[0]) {
        trim_start_chars(s.drop_first())
    } else {
        s
    }
}

/// The characters without the whitespace they end with.
pub open spec fn trim_end_chars(s: Seq<char>) -> Seq<char>
    decreases s.len(),
{
    if s.len() > 0 && is_whitespace(s.last()) {
        trim_end_chars(s.drop_last())
    } else {
        s
    }
}

/// The characters without surrounding whitespace.
pub open spec fn trim_chars(s: Seq<char>) -> Seq<char> {
    trim_end_chars(trim_start_chars(s))
}

proof fn lemma_bits_width_1(u: u32)
    by (bit_vector)
    requires
        u <= 0x7F,
    ensures
        (u & 0x7F) as u8 == u,
{
}

proof fn lemma_bits_width_2(u: u32)
    by (bit_vector)
    requires
        0x80 <= u <= 0x7FF,
    ensures
        ({
            let b0 = 0xC0u8 | ((u >> 6) & 0x1F) as u8;
            let b1 = 0x80u8 | (u & 0x3F) as u8;
            &&& 0xC0 <= b0 <= 0xDF
            &&& 0x80 <= b1 <= 0xBF
            &&& ((b0 == 0xC2 && (b1 == 0x85 || b1 == 0xA0)) <==> (u == 0x85 || u == 0xA0))
        }),
{
}

proof fn lemma_bits_width_3(u: u32)
    by (bit_vector)
    requires
        0x800 <= u <= 0xFFFF,
    ensures
        ({
            let b0 = 0xE0u8 | ((u >> 12) & 0x0F) as u8;
            let b1 = 0x80u8 | ((u >> 6) & 0x3F) as u8;
            let b2 = 0x80u8 | (u & 0x3F) as u8;
            &&& 0xE0 <= b0 <= 0xEF
            &&& 0x80 <= b1 <= 0xBF
            &&& 0x80 <= b2 <= 0xBF
            &&& ((b0 == 0xE1 && b1 == 0x9A && b2 == 0x80) <==> u == 0x1680)
            &&& ((b0 == 0xE2 && b1 == 0x80 && ((0x80 <= b2 && b2 <= 0x8A) || b2 == 0xA8 || b2
                == 0xA9 || b2 == 0xAF)) <==> ((0x2000 <= u && u <= 0x200A) || u == 0x2028 || u
                == 0x2029 || u == 0x202F))
            &&& ((b0 == 0xE2 && b1 == 0x81 && b2 == 0x9F) <==> u == 0x205F)
            &&& ((b0 == 0xE3 && b1 == 0x80 && b2 == 0x80) <==> u == 0x3000)
        }),
{
}

proof fn lemma_bits_width_4(u: u32)
    by (bit_vector)
    requires
        0x10000 <= u <= 0x10FFFF,
    ensures
        ({
            let b0 = 0xF0u8 | ((u >> 18) & 0x7) as u8;
            let b1 = 0x80u8 | ((u >> 12) & 0x3F) as u8;
            let b2 = 0x80u8 | ((u >> 6) & 0x3F) as u8;
            let b3 = 0x80u8 | (u & 0x3F) as u8;
            &&& 0xF0 <= b0 <= 0xF7
            &&& 0x80 <= b1 <= 0xBF
            &&& 0x80 <= b2 <= 0xBF
            &&& 0x80 <= b3 <= 0xBF
        }),
{
}

/// Whether the bytes are exactly one of the encodings that trimming drops.
pub open spec fn is_space_encoding(e: Seq<u8>) -> bool {
    ||| (e.len() == 1 && is_ascii_space(e[0]))
    ||| (e.len() == 2 && is_space_2(e[0], e[1]))
    ||| (e.len() == 3 && is_space_3(e[0], e[1], e[2]))
}

/// What the encoding of one scalar value looks like: one to four bytes, the
/// first of which tells their number and is no continuation byte, the
/// others continuation bytes.
pub open spec fn is_one_scalar(e: Seq<u8>) -> bool {
    &&& 1 <= e.len() <= 4
    &&& (e.len() == 1 ==> e[0] < 0x80)
    &&& (e.len() == 2 ==> 0xC0 <= e[0] <= 0xDF)
    &&& (e.len() == 3 ==> 0xE0 <= e[0] <= 0xEF)
    &&& (e.len() == 4 ==> 0xF0 <= e[0] <= 0xF7)
    &&& forall|i: int| 1 <= i < e.len() ==> 0x80 <= #[trigger] e[i] <= 0xBF
}

/// A scalar value is whitespace exactly if its encoding is one that
/// trimming drops.
pub proof fn lemma_space_encoding(u: u32)
    requires
        is_scalar(u),
    ensures
        is_one_scalar(encode_scalar(u)),
        is_space_scalar(u) <==> is_space_encoding(encode_scalar(u)),
{
    let e = encode_scalar(u);
    if has_width_1_encoding(u) {
        lemma_bits_width_1(u);
    } else if has_width_2_encoding(u) {
        lemma_bits_width_2(u);
    } else if has_width_3_encoding(u) {
        lemma_bits_width_3(u);
    } else {
        lemma_bits_width_4(u);
    }
}

/// Bytes that begin with the encoding of a character begin with whitespace
/// exactly if the character is whitespace.
pub proof fn lemma_leading_space(c: char, rest: Seq<u8>)
    ensures
        leading_space_width(encode_scalar(c as u32) + rest) == if is_whitespace(c) {
            encode_scalar(c as u32).len() as int
        } else {
            0
        },
{
    char_is_scalar(c);
    lemma_space_encoding(c as u32);
    let e = encode_scalar(c as u32);
    let s = e + rest;
    assert(s[0] == e[0]);
    if e.len() >= 2 {
        assert(s[1] == e[1]);
    }
    if e.len() >= 3 {
        assert(s[2] == e[2]);
    }
}

/// Bytes that end with the encoding of a character end with whitespace
/// exactly if the character is whitespace.
pub proof fn lemma_trailing_space(front: Seq<u8>, c: char)
    ensures
        trailing_space_width(front + encode_scalar(c as u32)) == if is_whitespace(c) {
            encode_scalar(c as u32).len() as int
        } else {
            0
        },
{
    char_is_scalar(c);
    lemma_space_encoding(c as u32);
    let e = encode_scalar(c as u32);
    let s = front + e;
    let n = s.len() as int;
    let k = e.len() as int;
    assert(s[n - 1] == e[k - 1]);
    if k >= 2 {
        assert(s[n - 2] == e[k - 2]);
    }
    if k >= 3 {
        assert(s[n - 3] == e[k - 3]);
    }
    if k >= 4 {
        assert(s[n - 4] == e[k - 4]);
    }
}

/// Dropping leading whitespace from the bytes of a string drops its leading
/// whitespace characters.
pub proof fn lemma_trim_start_chars(s: Seq<char>)
    ensures
        trim_start(encode_utf8(s)) == encode_utf8(trim_start_chars(s)),
    decreases s.len(),
{
    if s.len() > 0 {
        let rest = encode_utf8(s.drop_first());
        lemma_leading_space(s[0], rest);
        if is_whitespace(s[0]) {
            lemma_trim_start_chars(s.drop_first());
            assert(encode_utf8(s).skip(encode_scalar(s[0] as u32).len() as int) =~= rest);
        }
    }
}

/// Dropping trailing whitespace from the bytes of a string drops its
/// trailing whitespace characters.
pub proof fn lemma_trim_end_chars(s: Seq<char>)
    ensures
        trim_end(encode_utf8(s)) == encode_utf8(trim_end_chars(s)),
    decreases s.len(),
{
    if s.len() > 0 {
        let front = encode_utf8(s.drop_last());
        let last = seq![s.last()];
        lemma_encode_concat(s.drop_last(), last);
        assert(s.drop_last() + last =~= s);
        assert(last.drop_first() =~= Seq::<char>::empty());
        assert(encode_utf8(last.drop_first()) =~= Seq::<u8>::empty());
        assert(last[0] == s.last());
        assert(encode_utf8(last) =~= encode_scalar(s.last() as u32));
        lemma_trailing_space(front, s.last());
        if is_whitespace(s.last()) {
            lemma_trim_end_chars(s.drop_last());
            assert(encode_utf8(s).take(encode_utf8(s).len() - encode_scalar(
                s.last() as u32,
            ).len()) =~= front);
        }
    }
}

/// Trimming the bytes of a string is trimming its characters.
pub proof fn lemma_trim_chars(s: Seq<char>)
    ensures
        trim(encode_utf8(s)) == encode_utf8(trim_chars(s)),
{
    lemma_trim_start_chars(s);
    lemma_trim_end_chars(trim_start_chars(s));
}

/// Trimming valid UTF-8 is trimming the characters that it encodes.
pub proof fn lemma_trim_text(bytes: Seq<u8>)
    requires
        valid_utf8(bytes),
    ensures
        trim(bytes) == encode_utf8(trim_chars(decode_utf8(bytes))),
        trim_start(bytes) == encode_utf8(trim_start_chars(decode_utf8(bytes))),
        trim_end(bytes) == encode_utf8(trim_end_chars(decode_utf8(bytes))),
{
    decode_utf8_encode_utf8(bytes);
    lemma_trim_chars(decode_utf8(bytes));
    lemma_trim_start_chars(decode_utf8(bytes));
    lemma_trim_end_chars(decode_utf8(bytes));
}

/// A string whose bytes are the trimmed bytes of a text is the trimmed text:
/// what a contract says of a key or a value in bytes, it says of its
/// characters.
pub proof fn lemma_trimmed_string(s: Seq<char>, bytes: Seq<u8>)
    requires
        valid_utf8(bytes),
        encode_utf8(s) == trim(bytes),
    ensures
        s == trim_chars(decode_utf8(bytes)),
{
    lemma_trim_text(bytes);
    encode_utf8_decode_utf8(s);
    encode_utf8_decode_utf8(trim_chars(decode_utf8(bytes)));
}

} // verus!
