//! Byte-level classification and scanning primitives shared by the parsers.
//!
//! The extractors never need to decode the input: every delimiter they look
//! for is a single ASCII byte, and in valid UTF-8 an ASCII byte can only
//! occur as the encoding of that very character.

use vstd::prelude::*;

verus! {

/// The bytes that `char::is_ascii_whitespace` accepts: space, tab, line
/// feed, form feed and carriage return.
pub open spec fn is_ascii_ws(b: u8) -> bool {
    b == 0x20 || b == 0x09 || b == 0x0a || b == 0x0c || b == 0x0d
}

/// An ASCII decimal digit, `'0'` through `'9'`.
pub open spec fn is_ascii_digit_byte(b: u8) -> bool {
    0x30 <= b <= 0x39
}

/// Position of the first occurrence of `b` in `t[from..to]`, if any.
pub open spec fn find_byte_in(t: Seq<u8>, from: int, to: int, b: u8) -> Option<int>
    decreases to - from,
{
    if from < 0 || from >= to || to > t.len() {
        None
    } else if t[from] == b {
        Some(from)
    } else {
        find_byte_in(t, from + 1, to, b)
    }
}

/// Position of the first byte at or after `from` that is not ASCII
/// whitespace, or `t.len()` when the rest of `t` is all whitespace.
pub open spec fn first_non_ws(t: Seq<u8>, from: int) -> int
    decreases t.len() - from,
{
    if from < 0 || from >= t.len() {
        t.len() as int
    } else if !is_ascii_ws(t[from]) {
        from
    } else {
        first_non_ws(t, from + 1)
    }
}

/// Position of the first ASCII whitespace byte at or after `from`, or
/// `t.len()` when none follows: the end of the token starting at `from`.
pub open spec fn token_end(t: Seq<u8>, from: int) -> int
    decreases t.len() - from,
{
    if from < 0 || from >= t.len() {
        t.len() as int
    } else if is_ascii_ws(t[from]) {
        from
    } else {
        token_end(t, from + 1)
    }
}

pub proof fn lemma_find_byte_in(t: Seq<u8>, from: int, to: int, b: u8)
    requires
        0 <= from <= to <= t.len(),
    ensures
        match find_byte_in(t, from, to, b) {
            Some(i) => from <= i < to && t[i] == b && (forall|j: int|
                from <= j < i ==> t[j] != b),
            None => forall|j: int| from <= j < to ==> t[j] != b,
        },
    decreases to - from,
{
    if from < to && t[from] != b {
        lemma_find_byte_in(t, from + 1, to, b);
    }
}

/// The first occurrence determines the search result.
pub proof fn lemma_find_byte_in_exact(t: Seq<u8>, from: int, to: int, b: u8, i: int)
    requires
        0 <= from <= i < to <= t.len(),
        t[i] == b,
        forall|j: int| from <= j < i ==> t[j] != b,
    ensures
        find_byte_in(t, from, to, b) == Some(i),
    decreases i - from,
{
    if from < i {
        lemma_find_byte_in_exact(t, from + 1, to, b, i);
    }
}

pub proof fn lemma_token_end(t: Seq<u8>, from: int)
    requires
        0 <= from <= t.len(),
    ensures
        from <= token_end(t, from) <= t.len(),
        forall|j: int| from <= j < token_end(t, from) ==> !is_ascii_ws(t[j]),
        token_end(t, from) < t.len() ==> is_ascii_ws(t[token_end(t, from)]),
    decreases t.len() - from,
{
    if from < t.len() && !is_ascii_ws(t[from]) {
        lemma_token_end(t, from + 1);
    }
}

/// Runtime test matching `is_ascii_ws`.
pub(crate) fn is_ws_byte(b: u8) -> (r: bool)
    ensures
        r == is_ascii_ws(b),
{
    b == 0x20 || b == 0x09 || b == 0x0a || b == 0x0c || b == 0x0d
}

/// Runtime test matching `is_ascii_digit_byte`.
pub(crate) fn is_digit_byte(b: u8) -> (r: bool)
    ensures
        r == is_ascii_digit_byte(b),
{
    0x30 <= b && b <= 0x39
}

/// Linear scan for the first occurrence of `b` in `s[from..to]`.
pub(crate) fn find_in(s: &[u8], from: usize, to: usize, b: u8) -> (r: Option<usize>)
    requires
        from <= to <= s@.len(),
    ensures
        match r {
            Some(i) => from <= i < to && find_byte_in(s@, from as int, to as int, b) == Some(
                i as int,
            ),
            None => find_byte_in(s@, from as int, to as int, b) is None,
        },
{
    let mut i = from;
    while i < to
        invariant
            from <= i <= to,
            find_byte_in(s@, from as int, to as int, b) == find_byte_in(
                s@,
                i as int,
                to as int,
                b,
            ),
        decreases to - i,
    {
        if s[i] == b {
            return Some(i);
        }
        i = i + 1;
    }
    None
}

/// Index of the first non-whitespace byte at or after `from`.
pub(crate) fn skip_ws_from(s: &[u8], from: usize) -> (r: usize)
    requires
        from <= s@.len(),
    ensures
        r == first_non_ws(s@, from as int),
        from <= r <= s@.len(),
{
    let n = s.len();
    let mut i = from;
    while i < n
        invariant
            from <= i <= n,
            first_non_ws(s@, from as int) == first_non_ws(s@, i as int),
        decreases n - i,
    {
        if !is_ws_byte(s[i]) {
            return i;
        }
        i = i + 1;
    }
    i
}

/// Index one past the last byte of the token starting at `from`.
pub(crate) fn token_end_from(s: &[u8], from: usize) -> (r: usize)
    requires
        from <= s@.len(),
    ensures
        r == token_end(s@, from as int),
        from <= r <= s@.len(),
{
    let n = s.len();
    let mut i = from;
    while i < n
        invariant
            from <= i <= n,
            token_end(s@, from as int) == token_end(s@, i as int),
        decreases n - i,
    {
        if is_ws_byte(s[i]) {
            return i;
        }
        i = i + 1;
    }
    i
}

} // verus!
