//! Searching bytes: the primitives that the marker grammars are written in.

use vstd::prelude::*;

verus! {

pub const OPEN_BRACKET: u8 = 0x5B;

pub const CLOSE_BRACKET: u8 = 0x5D;

pub const AT_SIGN: u8 = 0x40;

pub const COMMA: u8 = 0x2C;

pub const SEMICOLON: u8 = 0x3B;

pub const OPEN_PAREN: u8 = 0x28;

pub const CLOSE_PAREN: u8 = 0x29;

pub const SPACE: u8 = 0x20;

pub const TAB: u8 = 0x09;

/// First offset, from `from` on, at which `s` holds `b`; the length of `s`
/// where it holds none.
pub open spec fn find_byte(s: Seq<u8>, from: int, b: u8) -> int
    decreases s.len() - from,
{
    if from < 0 || from >= s.len() {
        s.len() as int
    } else if s[from] == b {
        from
    } else {
        find_byte(s, from + 1, b)
    }
}

/// A byte that may stand in a citation key: any but the two brackets and the
/// comma.
pub open spec fn is_key_byte(b: u8) -> bool {
    b != OPEN_BRACKET && b != CLOSE_BRACKET && b != COMMA
}

/// First offset, from `from` on, at which `s` holds no key byte; the length
/// of `s` where key bytes run to its end.
pub open spec fn key_end(s: Seq<u8>, from: int) -> int
    decreases s.len() - from,
{
    if from < 0 || from >= s.len() {
        s.len() as int
    } else if !is_key_byte(s[from]) {
        from
    } else {
        key_end(s, from + 1)
    }
}

/// `find_byte` returns the first occurrence and nothing before it matches.
pub proof fn lemma_find_byte(s: Seq<u8>, from: int, b: u8)
    requires
        0 <= from <= s.len(),
    ensures
        from <= find_byte(s, from, b) <= s.len(),
        find_byte(s, from, b) < s.len() ==> s[find_byte(s, from, b)] == b,
        forall|k: int| from <= k < find_byte(s, from, b) ==> s[k] != b,
    decreases s.len() - from,
{
    if from < s.len() && s[from] != b {
        lemma_find_byte(s, from + 1, b);
    }
}

/// `key_end` returns the end of the longest run of key bytes.
pub proof fn lemma_key_end(s: Seq<u8>, from: int)
    requires
        0 <= from <= s.len(),
    ensures
        from <= key_end(s, from) <= s.len(),
        key_end(s, from) < s.len() ==> !is_key_byte(s[key_end(s, from)]),
        forall|k: int| from <= k < key_end(s, from) ==> is_key_byte(s[k]),
    decreases s.len() - from,
{
    if from < s.len() && is_key_byte(s[from]) {
        lemma_key_end(s, from + 1);
    }
}

/// First offset in `from..end` at which `bytes` holds `b`, or `end`.
pub fn find_in(bytes: &[u8], from: usize, end: usize, b: u8) -> (r: usize)
    requires
        from <= end <= bytes@.len(),
    ensures
        from <= r <= end,
        r == find_byte(bytes@.take(end as int), from as int, b),
        r - from == find_byte(bytes@.subrange(from as int, end as int), 0, b),
{
    let ghost whole = bytes@.take(end as int);
    let ghost part = bytes@.subrange(from as int, end as int);
    let mut i: usize = from;
    while i < end && bytes[i] != b
        invariant
            from <= i <= end <= bytes@.len(),
            whole == bytes@.take(end as int),
            part == bytes@.subrange(from as int, end as int),
            find_byte(whole, i as int, b) == find_byte(whole, from as int, b),
            find_byte(part, i - from, b) == find_byte(part, 0, b),
        decreases end - i,
    {
        assert(whole[i as int] == bytes@[i as int]);
        assert(part[i - from] == bytes@[i as int]);
        i = i + 1;
    }
    proof {
        if i < end {
            assert(whole[i as int] == bytes@[i as int]);
            assert(part[i - from] == bytes@[i as int]);
        }
    }
    i
}

/// End of the run of key bytes that starts at `from`.
pub fn key_end_in(bytes: &[u8], from: usize) -> (r: usize)
    requires
        from <= bytes@.len(),
    ensures
        from <= r <= bytes@.len(),
        r == key_end(bytes@, from as int),
{
    let mut i: usize = from;
    while i < bytes.len() && bytes[i] != OPEN_BRACKET && bytes[i] != CLOSE_BRACKET && bytes[i]
        != COMMA
        invariant
            from <= i <= bytes@.len(),
            key_end(bytes@, i as int) == key_end(bytes@, from as int),
        decreases bytes@.len() - i,
    {
        i = i + 1;
    }
    i
}

} // verus!
