//! Frame-count extractors for the progress lines of four encoder families.
//!
//! Every extractor is total: a line that does not match the expected format
//! yields `None`, never a panic or an out-of-bounds read.  Each contract
//! equates the result with a spec-level model of the extraction over the
//! UTF-8 bytes of the line, so the result is a function of the input alone.

use vstd::prelude::*;
use vstd::utf8::encode_utf8;

use crate::bytes::find_byte_in;
use crate::bytes::find_in;
use crate::bytes::first_non_ws;
use crate::bytes::is_ascii_ws;
use crate::bytes::is_ws_byte;
use crate::bytes::skip_ws_from;
use crate::bytes::token_end;
use crate::bytes::token_end_from;
use crate::digits::parse_u64_digits;
use crate::digits::parse_u64_spec;

verus! {

/// Byte length of the fixed `"Pass x/x frame    x/"` prefix that an
/// aomenc/vpxenc progress line starts with.  Only its length matters: the
/// `/` before the encoded-frame count is never earlier than one byte
/// before the end of this prefix.
pub const AOM_VPX_PREFIX_LEN: usize = 20;

/// The aomenc/vpxenc extraction: the pair after the prefix reads
/// `buffered/encoded`, and the number between the first `/` at or after
/// byte 19 and the following space is the encoded-frame count.
pub open spec fn aom_vpx_frames_spec(t: Seq<u8>) -> Option<u64> {
    match find_byte_in(t, AOM_VPX_PREFIX_LEN - 1, t.len() as int, 0x2f) {
        None => None,
        Some(slash) => match find_byte_in(t, slash + 1, t.len() as int, 0x20) {
            None => None,
            Some(space) => parse_u64_spec(t.subrange(slash + 1, space)),
        },
    }
}

/// A prefix match on raw bytes.
pub open spec fn starts_with_bytes(t: Seq<u8>, p: Seq<u8>) -> bool {
    t.len() >= p.len() && t.subrange(0, p.len() as int) == p
}

/// The bytes of `"encoded "`.
pub open spec fn rav1e_prefix() -> Seq<u8> {
    seq![0x65u8, 0x6e, 0x63, 0x6f, 0x64, 0x65, 0x64, 0x20]
}

/// The bytes of `"Encoding frame"`.
pub open spec fn svt_av1_prefix() -> Seq<u8> {
    seq![0x45u8, 0x6e, 0x63, 0x6f, 0x64, 0x69, 0x6e, 0x67, 0x20, 0x66, 0x72, 0x61, 0x6d, 0x65]
}

/// Value of the first whitespace-delimited token at or after `from`.
/// When `split_slash` is set, only the part before the first `/` of the
/// token is parsed (a `current/total` pair reports the current count).
pub open spec fn first_token_value(t: Seq<u8>, from: int, split_slash: bool) -> Option<u64> {
    let a = first_non_ws(t, from);
    if a == t.len() {
        None
    } else {
        let e = token_end(t, a);
        let cut = if split_slash {
            match find_byte_in(t, a, e, 0x2f) {
                Some(k) => k,
                None => e,
            }
        } else {
            e
        };
        parse_u64_spec(t.subrange(a, cut))
    }
}

/// The rav1e extraction: after the literal `"encoded "` prefix, the first
/// token (up to a `/`, if any) is the frame count.
pub open spec fn rav1e_frames_spec(t: Seq<u8>) -> Option<u64> {
    if !starts_with_bytes(t, rav1e_prefix()) {
        None
    } else {
        first_token_value(t, rav1e_prefix().len() as int, true)
    }
}

/// The SVT-AV1 extraction: after the literal `"Encoding frame"` prefix,
/// the first token is the frame count.
pub open spec fn svt_av1_frames_spec(t: Seq<u8>) -> Option<u64> {
    if !starts_with_bytes(t, svt_av1_prefix()) {
        None
    } else {
        first_token_value(t, svt_av1_prefix().len() as int, false)
    }
}

/// Start of the first token that does not begin with `[`, scanning from a
/// position that is not inside a token.
pub open spec fn x26x_token_start(t: Seq<u8>, from: int) -> Option<int>
    decreases t.len() - from, 0int,
{
    if from < 0 || from >= t.len() {
        None
    } else if is_ascii_ws(t[from]) {
        x26x_token_start(t, from + 1)
    } else if t[from] != 0x5b {
        Some(from)
    } else {
        x26x_skip_token(t, from + 1)
    }
}

/// Helper for `x26x_token_start`: skips the rest of a token that began
/// with `[`.
pub open spec fn x26x_skip_token(t: Seq<u8>, from: int) -> Option<int>
    decreases t.len() - from, 1int,
{
    if from < 0 || from >= t.len() {
        None
    } else if is_ascii_ws(t[from]) {
        x26x_token_start(t, from)
    } else {
        x26x_skip_token(t, from + 1)
    }
}

/// The x264/x265 extraction: the first token that does not begin with a
/// bracketed stage indicator, up to a `/` if any, is the frame count.
pub open spec fn x26x_frames_spec(t: Seq<u8>) -> Option<u64> {
    match x26x_token_start(t, 0) {
        None => None,
        Some(a) => {
            let e = token_end(t, a);
            let cut = match find_byte_in(t, a, e, 0x2f) {
                Some(k) => k,
                None => e,
            };
            parse_u64_spec(t.subrange(a, cut))
        },
    }
}

/// Runtime prefix check matching `starts_with_bytes`.
pub(crate) fn has_prefix(s: &[u8], p: &[u8]) -> (r: bool)
    ensures
        r == starts_with_bytes(s@, p@),
{
    let m = p.len();
    if s.len() < m {
        return false;
    }
    let mut i: usize = 0;
    while i < m
        invariant
            i <= m <= s@.len(),
            forall|j: int| 0 <= j < i ==> s@[j] == p@[j],
        decreases m - i,
    {
        if s[i] != p[i] {
            proof {
                assert(s@.subrange(0, m as int)[i as int] == s@[i as int]);
            }
            return false;
        }
        i = i + 1;
    }
    proof {
        assert(s@.subrange(0, m as int) =~= p@);
    }
    true
}

/// Shared worker: the whole aomenc/vpxenc extraction over raw bytes.
pub(crate) fn aom_vpx_scan(s: &[u8]) -> (r: Option<u64>)
    ensures
        r == aom_vpx_frames_spec(s@),
{
    let n = s.len();
    if n < AOM_VPX_PREFIX_LEN - 1 {
        return None;
    }
    let slash = match find_in(s, AOM_VPX_PREFIX_LEN - 1, n, 0x2f) {
        Some(i) => i,
        None => {
            return None;
        },
    };
    let space = match find_in(s, slash + 1, n, 0x20) {
        Some(i) => i,
        None => {
            return None;
        },
    };
    parse_u64_digits(&s[slash + 1..space])
}

/// Shared worker for the prefix-then-first-token extractors.
fn token_value(s: &[u8], from: usize, split_slash: bool) -> (r: Option<u64>)
    requires
        from <= s@.len(),
    ensures
        r == first_token_value(s@, from as int, split_slash),
{
    let a = skip_ws_from(s, from);
    let n = s.len();
    if a == n {
        return None;
    }
    let e = token_end_from(s, a);
    let cut = if split_slash {
        match find_in(s, a, e, 0x2f) {
            Some(k) => k,
            None => e,
        }
    } else {
        e
    };
    parse_u64_digits(&s[a..cut])
}

/// Extracts the number of encoded frames from one line of aomenc or
/// vpxenc progress output, or returns `None` when the line does not hold
/// one.
pub fn parse_aom_vpx_frames(s: &str) -> (r: Option<u64>)
    ensures
        r == aom_vpx_frames_spec(encode_utf8(s@)),
{
    aom_vpx_scan(s.as_bytes())
}

/// Extracts the number of encoded frames from one line of rav1e progress
/// output, or returns `None` when the line does not hold one.
pub fn parse_rav1e_frames(s: &str) -> (r: Option<u64>)
    ensures
        r == rav1e_frames_spec(encode_utf8(s@)),
{
    let b = s.as_bytes();
    let p: Vec<u8> = vec![0x65u8, 0x6e, 0x63, 0x6f, 0x64, 0x65, 0x64, 0x20];
    proof {
        assert(p@ =~= rav1e_prefix());
    }
    if !has_prefix(b, p.as_slice()) {
        return None;
    }
    token_value(b, 8, true)
}

/// Extracts the number of encoded frames from one line of SVT-AV1
/// progress output, or returns `None` when the line does not hold one.
pub fn parse_svt_av1_frames(s: &str) -> (r: Option<u64>)
    ensures
        r == svt_av1_frames_spec(encode_utf8(s@)),
{
    let b = s.as_bytes();
    let p: Vec<u8> = vec![
        0x45u8,
        0x6e,
        0x63,
        0x6f,
        0x64,
        0x69,
        0x6e,
        0x67,
        0x20,
        0x66,
        0x72,
        0x61,
        0x6d,
        0x65,
    ];
    proof {
        assert(p@ =~= svt_av1_prefix());
    }
    if !has_prefix(b, p.as_slice()) {
        return None;
    }
    token_value(b, 14, false)
}

/// Finds the start of the first token that does not begin with `[`.
fn x26x_pick(s: &[u8]) -> (r: Option<usize>)
    ensures
        match r {
            Some(a) => x26x_token_start(s@, 0) == Some(a as int) && a < s@.len(),
            None => x26x_token_start(s@, 0) is None,
        },
{
    let n = s.len();
    let mut i: usize = 0;
    while i < n
        invariant
            i <= n,
            x26x_token_start(s@, 0) == x26x_token_start(s@, i as int),
        decreases n - i,
    {
        if is_ws_byte(s[i]) {
            i = i + 1;
        } else if s[i] != 0x5b {
            return Some(i);
        } else {
            let ghost i0 = i;
            i = i + 1;
            while i < n
                invariant
                    i0 < i <= n,
                    x26x_token_start(s@, 0) == x26x_skip_token(s@, i as int),
                decreases n - i,
            {
                if is_ws_byte(s[i]) {
                    break ;
                }
                i = i + 1;
            }
        }
    }
    None
}

/// Extracts the number of encoded frames from one line of x264 or x265
/// progress output, or returns `None` when the line does not hold one.
pub fn parse_x26x_frames(s: &str) -> (r: Option<u64>)
    ensures
        r == x26x_frames_spec(encode_utf8(s@)),
{
    let b = s.as_bytes();
    match x26x_pick(b) {
        None => None,
        Some(a) => {
            let e = token_end_from(b, a);
            let cut = match find_in(b, a, e, 0x2f) {
                Some(k) => k,
                None => e,
            };
            parse_u64_digits(&b[a..cut])
        },
    }
}

} // verus!
