//! UTF-8 text viewed as bytes: character boundaries, substrings, lines and
//! whitespace trimming.
//!
//! Every offset in this crate is a byte offset into UTF-8 text, so the
//! specifications speak of `Seq<u8>`: the bytes of a `&str` are
//! `spec_bytes()`, those of a `String` are `encode_utf8` of its view.
//! Whitespace is what the standard library trims, the characters with the
//! Unicode property White_Space, given here by their encodings; that these
//! are the encodings of those characters is proved in `whitespace`.

use vstd::prelude::*;
use vstd::string::{StringExecFns, StringSliceAdditionalSpecFns};
use vstd::utf8::*;
use crate::scan::{find_byte, find_in as find_byte_in, lemma_find_byte};

verus! {

/// One-byte whitespace: tab, line feed, vertical tab, form feed, carriage
/// return and space.
pub open spec fn is_ascii_space(b: u8) -> bool {
    (0x09 <= b <= 0x0D) || b == 0x20
}

/// The two-byte encodings of whitespace: U+0085 and U+00A0.
pub open spec fn is_space_2(b0: u8, b1: u8) -> bool {
    b0 == 0xC2 && (b1 == 0x85 || b1 == 0xA0)
}

/// The three-byte encodings of whitespace: U+1680, U+2000 to U+200A,
/// U+2028, U+2029, U+202F, U+205F and U+3000.
pub open spec fn is_space_3(b0: u8, b1: u8, b2: u8) -> bool {
    ||| (b0 == 0xE1 && b1 == 0x9A && b2 == 0x80)
    ||| (b0 == 0xE2 && b1 == 0x80 && ((0x80 <= b2 <= 0x8A) || b2 == 0xA8 || b2 == 0xA9 || b2
        == 0xAF))
    ||| (b0 == 0xE2 && b1 == 0x81 && b2 == 0x9F)
    ||| (b0 == 0xE3 && b1 == 0x80 && b2 == 0x80)
}

/// Number of bytes of the whitespace character that `s` begins with, 0 when
/// it begins with none.
pub open spec fn leading_space_width(s: Seq<u8>) -> int {
    if s.len() >= 1 && is_ascii_space(s[0]) {
        1
    } else if s.len() >= 2 && is_space_2(s[0], s[1]) {
        2
    } else if s.len() >= 3 && is_space_3(s[0], s[1], s[2]) {
        3
    } else {
        0
    }
}

/// Number of bytes of the whitespace character that `s` ends with, 0 when it
/// ends with none.
pub open spec fn trailing_space_width(s: Seq<u8>) -> int {
    let n = s.len() as int;
    if n >= 1 && is_ascii_space(s[n - 1]) {
        1
    } else if n >= 2 && is_space_2(s[n - 2], s[n - 1]) {
        2
    } else if n >= 3 && is_space_3(s[n - 3], s[n - 2], s[n - 1]) {
        3
    } else {
        0
    }
}

/// `s` without the whitespace characters it begins with.
pub open spec fn trim_start(s: Seq<u8>) -> Seq<u8>
    decreases s.len(),
{
    let w = leading_space_width(s);
    if w > 0 {
        trim_start(s.skip(w))
    } else {
        s
    }
}

/// `s` without the whitespace characters it ends with.
pub open spec fn trim_end(s: Seq<u8>) -> Seq<u8>
    decreases s.len(),
{
    let w = trailing_space_width(s);
    if w > 0 {
        trim_end(s.take(s.len() - w))
    } else {
        s
    }
}

/// `s` without surrounding whitespace.
pub open spec fn trim(s: Seq<u8>) -> Seq<u8> {
    trim_end(trim_start(s))
}

/// The bytes of an optional string.
pub open spec fn option_bytes(s: Option<String>) -> Option<Seq<u8>> {
    match s {
        Some(s) => Some(encode_utf8(s@)),
        None => None,
    }
}

/// `start..end` is a range of `bytes` whose two ends fall between characters.
pub open spec fn is_char_range(bytes: Seq<u8>, start: int, end: int) -> bool {
    &&& 0 <= start <= end <= bytes.len()
    &&& is_char_boundary(bytes, start)
    &&& is_char_boundary(bytes, end)
}

/// A character boundary that is not the end of the text is followed by another
/// boundary exactly one encoded scalar later.
pub proof fn lemma_boundary_step(bytes: Seq<u8>, i: int)
    requires
        valid_utf8(bytes),
        is_char_boundary(bytes, i),
        0 <= i < bytes.len(),
    ensures
        valid_first_scalar(bytes.subrange(i, bytes.len() as int)),
        i + length_of_first_scalar(bytes.subrange(i, bytes.len() as int)) <= bytes.len(),
        is_char_boundary(bytes, i + length_of_first_scalar(bytes.subrange(i, bytes.len() as int))),
    decreases bytes.len(),
{
    let n = bytes.len() as int;
    let first = length_of_first_scalar(bytes);
    reveal_with_fuel(is_char_boundary, 2);
    if i == 0 {
        assert(bytes.subrange(0, n) =~= bytes);
    } else {
        let rest = pop_first_scalar(bytes);
        lemma_boundary_step(rest, i - first);
        assert(rest.subrange(i - first, rest.len() as int) =~= bytes.subrange(i, n));
    }
}

/// Every byte below 0x80 stands at a character boundary, and so does the
/// offset after it.
pub proof fn lemma_ascii_boundaries(bytes: Seq<u8>, i: int)
    requires
        valid_utf8(bytes),
        0 <= i < bytes.len(),
        bytes[i] < 0x80,
    ensures
        is_char_boundary(bytes, i),
        is_char_boundary(bytes, i + 1),
{
    is_char_boundary_iff_not_is_continuation_byte(bytes, i);
    lemma_boundary_step(bytes, i);
    assert(bytes.subrange(i, bytes.len() as int)[0] == bytes[i]);
}

/// A run of whole characters that starts at a character boundary ends at one.
pub proof fn lemma_chunk_boundary(bytes: Seq<u8>, start: int, end: int)
    requires
        valid_utf8(bytes),
        0 <= start <= end <= bytes.len(),
        is_char_boundary(bytes, start),
        valid_utf8(bytes.subrange(start, end)),
    ensures
        is_char_boundary(bytes, end),
    decreases end - start,
{
    if start < end {
        let chunk = bytes.subrange(start, end);
        let rest = bytes.subrange(start, bytes.len() as int);
        let width = length_of_first_scalar(chunk);
        assert(chunk[0] == rest[0]);
        lemma_boundary_step(bytes, start);
        assert(pop_first_scalar(chunk) =~= bytes.subrange(start + width, end));
        lemma_chunk_boundary(bytes, start + width, end);
    }
}

/// The bytes of a string are valid UTF-8, and their two ends are character
/// boundaries.
pub proof fn lemma_str_bytes(chars: Seq<char>)
    ensures
        valid_utf8(encode_utf8(chars)),
        is_char_range(encode_utf8(chars), 0, encode_utf8(chars).len() as int),
{
    encode_utf8_valid_utf8(chars);
    is_char_boundary_start_end_of_seq(encode_utf8(chars));
}

/// The bytes of two strings written one after the other are the bytes of the
/// one followed by the bytes of the other.
pub proof fn lemma_encode_concat(a: Seq<char>, b: Seq<char>)
    ensures
        encode_utf8(a + b) == encode_utf8(a) + encode_utf8(b),
    decreases a.len(),
{
    if a.len() == 0 {
        assert(a + b =~= b);
        assert(encode_utf8(a) + encode_utf8(b) =~= encode_utf8(b));
    } else {
        lemma_encode_concat(a.drop_first(), b);
        assert((a + b).drop_first() =~= a.drop_first() + b);
        assert(encode_utf8(a + b) =~= encode_utf8(a) + encode_utf8(b));
    }
}

/// Only the empty string has no bytes.
pub proof fn lemma_encode_empty(a: Seq<char>)
    ensures
        encode_utf8(a).len() == 0 <==> a.len() == 0,
{
    if a.len() > 0 {
        assert(encode_scalar(a[0] as u32).len() > 0);
    }
}

/// The text between two byte offsets that are character boundaries.
pub fn substring<'a>(text: &'a str, start: usize, end: usize) -> (r: &'a str)
    requires
        is_char_range(text.spec_bytes(), start as int, end as int),
    ensures
        r.spec_bytes() == text.spec_bytes().subrange(start as int, end as int),
{
    broadcast use group_utf8_lib;

    let (head, _) = text.split_at(end);
    proof {
        let b = text.spec_bytes();
        let h = b.subrange(0, end as int);
        if start < end {
            is_char_boundary_iff_not_is_continuation_byte(b, start as int);
            is_char_boundary_iff_not_is_continuation_byte(h, start as int);
        } else {
            is_char_boundary_start_end_of_seq(h);
        }
    }
    let (_, r) = head.split_at(start);
    assert(r.spec_bytes() =~= text.spec_bytes().subrange(start as int, end as int));
    r
}

/// Width of the whitespace character that starts at `i` and ends by `end`.
fn space_width_at(bytes: &[u8], i: usize, end: usize) -> (w: usize)
    requires
        i <= end <= bytes@.len(),
    ensures
        w == leading_space_width(bytes@.subrange(i as int, end as int)),
{
    let ghost s = bytes@.subrange(i as int, end as int);
    if i < end {
        let b0: u8 = bytes[i];
        assert(s[0] == b0);
        if (0x09 <= b0 && b0 <= 0x0D) || b0 == 0x20 {
            return 1;
        }
        if end - i >= 2 {
            let b1: u8 = bytes[i + 1];
            assert(s[1] == b1);
            if b0 == 0xC2 && (b1 == 0x85 || b1 == 0xA0) {
                return 2;
            }
            if end - i >= 3 {
                let b2: u8 = bytes[i + 2];
                assert(s[2] == b2);
                if is_space_3_exec(b0, b1, b2) {
                    return 3;
                }
            }
        }
    }
    0
}

/// Width of the whitespace character that ends at `j` and starts at or after
/// `start`.
fn space_width_before(bytes: &[u8], start: usize, j: usize) -> (w: usize)
    requires
        start <= j <= bytes@.len(),
    ensures
        w == trailing_space_width(bytes@.subrange(start as int, j as int)),
{
    let ghost s = bytes@.subrange(start as int, j as int);
    if start < j {
        let b0: u8 = bytes[j - 1];
        assert(s[s.len() - 1] == b0);
        if (0x09 <= b0 && b0 <= 0x0D) || b0 == 0x20 {
            return 1;
        }
        if j - start >= 2 {
            let b1: u8 = bytes[j - 2];
            assert(s[s.len() - 2] == b1);
            if b1 == 0xC2 && (b0 == 0x85 || b0 == 0xA0) {
                return 2;
            }
            if j - start >= 3 {
                let b2: u8 = bytes[j - 3];
                assert(s[s.len() - 3] == b2);
                if is_space_3_exec(b2, b1, b0) {
                    return 3;
                }
            }
        }
    }
    0
}

fn is_space_3_exec(b0: u8, b1: u8, b2: u8) -> (r: bool)
    ensures
        r == is_space_3(b0, b1, b2),
{
    (b0 == 0xE1 && b1 == 0x9A && b2 == 0x80) || (b0 == 0xE2 && b1 == 0x80 && ((0x80 <= b2 && b2
        <= 0x8A) || b2 == 0xA8 || b2 == 0xA9 || b2 == 0xAF)) || (b0 == 0xE2 && b1 == 0x81 && b2
        == 0x9F) || (b0 == 0xE3 && b1 == 0x80 && b2 == 0x80)
}

/// First offset of `start..end` that is left after the leading whitespace is
/// dropped.
pub fn trim_start_range(bytes: &[u8], start: usize, end: usize) -> (r: usize)
    requires
        start <= end <= bytes@.len(),
    ensures
        start <= r <= end,
        bytes@.subrange(r as int, end as int) == trim_start(
            bytes@.subrange(start as int, end as int),
        ),
        valid_utf8(bytes@) && is_char_boundary(bytes@, start as int) ==> is_char_boundary(
            bytes@,
            r as int,
        ),
{
    let mut i: usize = start;
    loop
        invariant
            start <= i <= end <= bytes@.len(),
            trim_start(bytes@.subrange(i as int, end as int)) == trim_start(
                bytes@.subrange(start as int, end as int),
            ),
            valid_utf8(bytes@) && is_char_boundary(bytes@, start as int) ==> is_char_boundary(
                bytes@,
                i as int,
            ),
        ensures
            start <= i <= end,
            bytes@.subrange(i as int, end as int) == trim_start(
                bytes@.subrange(start as int, end as int),
            ),
            valid_utf8(bytes@) && is_char_boundary(bytes@, start as int) ==> is_char_boundary(
                bytes@,
                i as int,
            ),
        decreases end - i,
    {
        let w: usize = space_width_at(bytes, i, end);
        if w == 0 {
            break ;
        }
        proof {
            let s = bytes@.subrange(i as int, end as int);
            assert(s.skip(w as int) =~= bytes@.subrange(i + w, end as int));
            if valid_utf8(bytes@) && is_char_boundary(bytes@, start as int) {
                lemma_boundary_step(bytes@, i as int);
                let rest = bytes@.subrange(i as int, bytes@.len() as int);
                assert(rest[0] == s[0]);
                assert(length_of_first_scalar(rest) == w);
            }
        }
        i = i + w;
    }
    i
}

/// End offset of `start..end` that is left after the trailing whitespace is
/// dropped.
pub fn trim_end_range(bytes: &[u8], start: usize, end: usize) -> (r: usize)
    requires
        start <= end <= bytes@.len(),
    ensures
        start <= r <= end,
        bytes@.subrange(start as int, r as int) == trim_end(
            bytes@.subrange(start as int, end as int),
        ),
        valid_utf8(bytes@) && is_char_boundary(bytes@, end as int) ==> is_char_boundary(
            bytes@,
            r as int,
        ),
{
    let mut j: usize = end;
    loop
        invariant
            start <= j <= end <= bytes@.len(),
            trim_end(bytes@.subrange(start as int, j as int)) == trim_end(
                bytes@.subrange(start as int, end as int),
            ),
            valid_utf8(bytes@) && is_char_boundary(bytes@, end as int) ==> is_char_boundary(
                bytes@,
                j as int,
            ),
        ensures
            start <= j <= end,
            bytes@.subrange(start as int, j as int) == trim_end(
                bytes@.subrange(start as int, end as int),
            ),
            valid_utf8(bytes@) && is_char_boundary(bytes@, end as int) ==> is_char_boundary(
                bytes@,
                j as int,
            ),
        decreases j - start,
    {
        let w: usize = space_width_before(bytes, start, j);
        if w == 0 {
            break ;
        }
        proof {
            let s = bytes@.subrange(start as int, j as int);
            assert(s.take(s.len() - w) =~= bytes@.subrange(start as int, j - w));
            assert(s[s.len() - w] == bytes@[j - w]);
            if valid_utf8(bytes@) {
                is_char_boundary_iff_not_is_continuation_byte(bytes@, j - w);
            }
        }
        j = j - w;
    }
    j
}

/// The range that is left of `start..end` after surrounding whitespace is
/// dropped.
pub fn trim_range(bytes: &[u8], start: usize, end: usize) -> (r: (usize, usize))
    requires
        start <= end <= bytes@.len(),
    ensures
        start <= r.0 <= r.1 <= end,
        bytes@.subrange(r.0 as int, r.1 as int) == trim(bytes@.subrange(start as int, end as int)),
        valid_utf8(bytes@) && is_char_range(bytes@, start as int, end as int) ==> is_char_range(
            bytes@,
            r.0 as int,
            r.1 as int,
        ),
{
    let a: usize = trim_start_range(bytes, start, end);
    let b: usize = trim_end_range(bytes, a, end);
    (a, b)
}

/// A copy of an optional string.
pub fn clone_option(s: &Option<String>) -> (r: Option<String>)
    ensures
        r == *s,
{
    match s {
        Some(s) => Some(s.clone()),
        None => None,
    }
}

/// Whether two strings are the same text.
pub fn str_eq(a: &str, b: &str) -> (r: bool)
    ensures
        r == (a@ == b@),
{
    let x: &[u8] = a.as_bytes();
    let y: &[u8] = b.as_bytes();
    proof {
        vstd::utf8::encode_utf8_decode_utf8(a@);
        vstd::utf8::encode_utf8_decode_utf8(b@);
    }
    if x.len() != y.len() {
        return false;
    }
    let mut i: usize = 0;
    while i < x.len()
        invariant
            i <= x.len(),
            x.len() == y.len(),
            x@ == encode_utf8(a@),
            y@ == encode_utf8(b@),
            forall|k: int| 0 <= k < i ==> x@[k] == y@[k],
        decreases x.len() - i,
    {
        if x[i] != y[i] {
            assert(x@[i as int] != y@[i as int]);
            return false;
        }
        i = i + 1;
    }
    assert(x@ =~= y@);
    true
}

/// The line that `from..end` holds, where a line feed or the end of the text
/// is at `end`: without the carriage return just before a line feed.
pub open spec fn line_body(s: Seq<u8>, from: int, end: int) -> Seq<u8> {
    if from < end < s.len() && s[end - 1] == 0x0D {
        s.subrange(from, end - 1)
    } else {
        s.subrange(from, end)
    }
}

/// The lines of `s` from offset `from` on. A line ends at a line feed, or at
/// a carriage return followed by a line feed, or at the end of the text;
/// after a final line ending no further line follows.
pub open spec fn lines_from(s: Seq<u8>, from: int) -> Seq<Seq<u8>>
    decreases s.len() - from,
{
    if from < 0 || from >= s.len() {
        Seq::empty()
    } else {
        let end = find_byte(s, from, 0x0A);
        if end >= s.len() {
            seq![line_body(s, from, end)]
        } else {
            proof {
                lemma_find_byte(s, from, 0x0A);
            }
            seq![line_body(s, from, end)] + lines_from(s, end + 1)
        }
    }
}

/// The lines of a text.
pub open spec fn lines_of(s: Seq<u8>) -> Seq<Seq<u8>> {
    lines_from(s, 0)
}

/// The ranges of the lines of `text`, whose bytes are `bytes`.
pub fn line_ranges(bytes: &[u8]) -> (r: Vec<(usize, usize)>)
    ensures
        r@.len() == lines_of(bytes@).len(),
        forall|i: int|
            0 <= i < r@.len() ==> {
                &&& (#[trigger] r@[i]).0 <= r@[i].1 <= bytes@.len()
                &&& bytes@.subrange(r@[i].0 as int, r@[i].1 as int) == lines_of(bytes@)[i]
                &&& (valid_utf8(bytes@) ==> is_char_range(bytes@, r@[i].0 as int, r@[i].1 as int))
            },
{
    let n: usize = bytes.len();
    let mut out: Vec<(usize, usize)> = Vec::new();
    let mut from: usize = 0;
    while from < n
        invariant
            from <= n,
            n == bytes@.len(),
            valid_utf8(bytes@) ==> is_char_boundary(bytes@, from as int),
            lines_of(bytes@) =~= Seq::new(
                out@.len(),
                |i: int| bytes@.subrange(out@[i].0 as int, out@[i].1 as int),
            ) + lines_from(bytes@, from as int),
            forall|i: int|
                0 <= i < out@.len() ==> {
                    &&& (#[trigger] out@[i]).0 <= out@[i].1 <= bytes@.len()
                    &&& (valid_utf8(bytes@) ==> is_char_range(
                        bytes@,
                        out@[i].0 as int,
                        out@[i].1 as int,
                    ))
                },
        decreases n - from,
    {
        let end: usize = find_byte_in(bytes, from, n, 0x0A);
        let stop: usize = if from < end && end < n && bytes[end - 1] == 0x0D {
            end - 1
        } else {
            end
        };
        proof {
            assert(bytes@.take(n as int) =~= bytes@);
            lemma_find_byte(bytes@, from as int, 0x0A);
            if valid_utf8(bytes@) {
                if end < n {
                    lemma_ascii_boundaries(bytes@, end as int);
                } else {
                    is_char_boundary_start_end_of_seq(bytes@);
                }
                if stop < end {
                    lemma_ascii_boundaries(bytes@, stop as int);
                }
            }
            let before = Seq::new(
                out@.len(),
                |i: int| bytes@.subrange(out@[i].0 as int, out@[i].1 as int),
            );
            let after = Seq::new(
                out@.push((from, stop)).len(),
                |i: int|
                    bytes@.subrange(
                        out@.push((from, stop))[i].0 as int,
                        out@.push((from, stop))[i].1 as int,
                    ),
            );
            assert(after =~= before + seq![line_body(bytes@, from as int, end as int)]);
            if end < n {
                assert(before + (seq![line_body(bytes@, from as int, end as int)] + lines_from(
                    bytes@,
                    end + 1,
                )) =~= after + lines_from(bytes@, end + 1));
            } else {
                assert(before + seq![line_body(bytes@, from as int, end as int)] =~= after
                    + lines_from(bytes@, n as int));
            }
        }
        out.push((from, stop));
        if end >= n {
            from = n;
        } else {
            from = end + 1;
        }
    }
    proof {
        let all = Seq::new(
            out@.len(),
            |i: int| bytes@.subrange(out@[i].0 as int, out@[i].1 as int),
        );
        assert(lines_of(bytes@) =~= all);
    }
    out
}

/// The decimal digits of `n`, the most significant first.
pub open spec fn decimal_digits(n: nat) -> Seq<char>
    decreases n,
{
    if n < 10 {
        seq![digit_char(n)]
    } else {
        decimal_digits(n / 10).push(digit_char(n % 10))
    }
}

/// The character of a digit.
pub open spec fn digit_char(d: nat) -> char {
    if d == 0 {
        '0'
    } else if d == 1 {
        '1'
    } else if d == 2 {
        '2'
    } else if d == 3 {
        '3'
    } else if d == 4 {
        '4'
    } else if d == 5 {
        '5'
    } else if d == 6 {
        '6'
    } else if d == 7 {
        '7'
    } else if d == 8 {
        '8'
    } else {
        '9'
    }
}

fn digit_str(d: usize) -> (r: &'static str)
    requires
        d < 10,
    ensures
        r@ == seq![digit_char(d as nat)],
{
    proof {
        reveal_strlit("0");
        reveal_strlit("1");
        reveal_strlit("2");
        reveal_strlit("3");
        reveal_strlit("4");
        reveal_strlit("5");
        reveal_strlit("6");
        reveal_strlit("7");
        reveal_strlit("8");
        reveal_strlit("9");
    }
    let r: &'static str = if d == 0 {
        "0"
    } else if d == 1 {
        "1"
    } else if d == 2 {
        "2"
    } else if d == 3 {
        "3"
    } else if d == 4 {
        "4"
    } else if d == 5 {
        "5"
    } else if d == 6 {
        "6"
    } else if d == 7 {
        "7"
    } else if d == 8 {
        "8"
    } else {
        "9"
    };
    assert(r@ =~= seq![digit_char(d as nat)]);
    r
}

/// `n` in decimal.
pub fn decimal(n: usize) -> (r: String)
    ensures
        r@ == decimal_digits(n as nat),
    decreases n,
{
    if n < 10 {
        digit_str(n).to_owned()
    } else {
        let mut out: String = decimal(n / 10);
        out.append(digit_str(n % 10));
        assert(out@ =~= decimal_digits(n as nat));
        out
    }
}

} // verus!
