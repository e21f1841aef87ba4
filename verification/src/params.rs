//! The help-text tokenizer: which flag spellings a help text advertises.
//!
//! The help text is split at ASCII whitespace; every token that starts
//! with `-` contributes flag spellings according to a small set of rules
//! that mirror documented quirks of the encoders' own help output:
//!
//! * x265 writes short/long pairs such as `-m/--subme`: the short flag is
//!   recorded separately and the rest of the token is processed on its
//!   own.
//! * a token beginning with `--[no-]` advertises both the plain and the
//!   `--no-` spelling; a stray extra dash right after the marker (a known
//!   x265 help bug) is dropped first.
//! * otherwise the token is cut at its first byte that cannot be part of
//!   a flag name (not alphanumeric, `-` or `_`), provided the cut leaves
//!   more than one byte; with no such byte the token itself is the flag,
//!   except that for vpxenc a trailing dash (a truncation artifact of its
//!   help output) is removed.
//!
//! A bare `-` or `--` (or an empty remainder) is never recorded.

use vstd::prelude::*;
use vstd::string::StringExecFns;
use vstd::utf8::encode_utf8;
use vstd::utf8::is_ascii_chars;
use vstd::utf8::is_ascii_chars_encode_utf8;
use vstd::utf8::is_char_boundary;
use vstd::utf8::is_continuation_byte;
use vstd::utf8::valid_utf8;

use crate::bytes::is_ascii_ws;
use crate::bytes::is_ws_byte;
use crate::bytes::lemma_token_end;
use crate::bytes::token_end;
use crate::bytes::token_end_from;
use crate::frames::starts_with_bytes;
use crate::text::copy_range;
use crate::text::lemma_ascii_byte_boundaries;
use crate::text::lemma_encode_utf8_concat;
use crate::text::lemma_non_continuation_boundary;

verus! {

broadcast use vstd::string::axiom_str_literal_len, vstd::string::axiom_str_literal_get_char;

/// The encoders whose output this crate understands.  Only `Vpx` and
/// `X265` change how help text is tokenized; the others are listed so
/// that callers can dispatch uniformly.
#[derive(Clone, Copy, Debug, PartialEq, Eq, Structural)]
pub enum Encoder {
    Aom,
    Rav1e,
    Vpx,
    SvtAv1,
    X264,
    X265,
}

/// Bytes that may appear in a flag name: ASCII alphanumerics, `-`, `_`.
pub open spec fn is_flag_name_byte(b: u8) -> bool {
    (0x30 <= b <= 0x39) || (0x41 <= b <= 0x5a) || (0x61 <= b <= 0x7a) || b == 0x2d || b == 0x5f
}

/// Position of the first byte in `t[from..to]` that cannot be part of a
/// flag name, if any.
pub open spec fn first_non_flag_in(t: Seq<u8>, from: int, to: int) -> Option<int>
    decreases to - from,
{
    if from < 0 || from >= to || to > t.len() {
        None
    } else if !is_flag_name_byte(t[from]) {
        Some(from)
    } else {
        first_non_flag_in(t, from + 1, to)
    }
}

pub proof fn lemma_first_non_flag_in(t: Seq<u8>, from: int, to: int)
    requires
        0 <= from <= to <= t.len(),
    ensures
        match first_non_flag_in(t, from, to) {
            Some(i) => from <= i < to && !is_flag_name_byte(t[i]) && (forall|j: int|
                from <= j < i ==> is_flag_name_byte(#[trigger] t[j])),
            None => forall|j: int| from <= j < to ==> is_flag_name_byte(#[trigger] t[j]),
        },
    decreases to - from,
{
    if from < to && is_flag_name_byte(t[from]) {
        lemma_first_non_flag_in(t, from + 1, to);
    }
}

/// Searching a subrange finds the same byte, shifted.
pub proof fn lemma_first_non_flag_shift(t: Seq<u8>, from: int, to: int)
    requires
        0 <= from <= to <= t.len(),
    ensures
        first_non_flag_in(t.subrange(from, to), 0, to - from) == match first_non_flag_in(
            t,
            from,
            to,
        ) {
            Some(i) => Some(i - from),
            None => None::<int>,
        },
{
    let u = t.subrange(from, to);
    lemma_first_non_flag_in(t, from, to);
    lemma_first_non_flag_in(u, 0, u.len() as int);
    match first_non_flag_in(t, from, to) {
        Some(i) => {
            match first_non_flag_in(u, 0, u.len() as int) {
                Some(j) => {
                    assert(u[j] == t[from + j]);
                    assert(u[i - from] == t[i]);
                },
                None => {
                    assert(u[i - from] == t[i]);
                },
            }
        },
        None => {
            match first_non_flag_in(u, 0, u.len() as int) {
                Some(j) => {
                    assert(u[j] == t[from + j]);
                },
                None => {},
            }
        },
    }
}

/// `i` starts a whitespace-delimited token of `t`.
pub open spec fn is_token_start(t: Seq<u8>, i: int) -> bool {
    0 <= i < t.len() && !is_ascii_ws(t[i]) && (i == 0 || is_ascii_ws(t[i - 1]))
}

/// The token beginning at position `i`.
pub open spec fn token_at(t: Seq<u8>, i: int) -> Seq<u8> {
    t.subrange(i, token_end(t, i))
}

/// Values that are never recorded: the empty string and bare dashes.
pub open spec fn banned_param(p: Seq<u8>) -> bool {
    p.len() == 0 || p == seq![0x2du8] || p == seq![0x2du8, 0x2d]
}

/// The contribution of one candidate spelling: itself, unless banned.
pub open spec fn flag_record(p: Seq<u8>) -> Set<Seq<u8>> {
    if banned_param(p) {
        Set::empty()
    } else {
        set![p]
    }
}

/// An x265 short/long pair: the long flag's two dashes sit right after
/// the three bytes `-`, the short character, `/`.
pub open spec fn x265_short_split(tok: Seq<u8>) -> bool {
    tok.len() >= 5 && tok[3] == 0x2d && tok[4] == 0x2d
}

/// The short flag of a pair: the dash plus the following character (two
/// bytes of it when it is a two-byte character).
pub open spec fn short_flag(tok: Seq<u8>) -> Seq<u8> {
    if 3 <= tok.len() && is_continuation_byte(tok[2]) {
        tok.subrange(0, 3)
    } else {
        tok.subrange(0, 2)
    }
}

/// The bytes of `"--[no-]"`.
pub open spec fn no_marker() -> Seq<u8> {
    seq![0x2du8, 0x2d, 0x5b, 0x6e, 0x6f, 0x2d, 0x5d]
}

/// The bytes of `"--"`.
pub open spec fn double_dash() -> Seq<u8> {
    seq![0x2du8, 0x2d]
}

/// The bytes of `"--no-"`.
pub open spec fn double_dash_no() -> Seq<u8> {
    seq![0x2du8, 0x2d, 0x6e, 0x6f, 0x2d]
}

/// Both spellings advertised by a `--[no-]...` token: the remainder after
/// the marker, less one stray dash, prefixed with `--` and with `--no-`.
pub open spec fn no_pair_params(u: Seq<u8>) -> Set<Seq<u8>> {
    let rest = u.subrange(7, u.len() as int);
    let arg = if rest.len() > 0 && rest[0] == 0x2d {
        rest.drop_first()
    } else {
        rest
    };
    flag_record(double_dash() + arg).union(flag_record(double_dash_no() + arg))
}

/// The generic rule: cut at the first non-name byte when that leaves more
/// than one byte; otherwise take the token whole, less a trailing dash
/// for vpxenc.
pub open spec fn generic_params(u: Seq<u8>, enc: Encoder) -> Set<Seq<u8>> {
    match first_non_flag_in(u, 0, u.len() as int) {
        Some(k) => if k > 1 {
            flag_record(u.subrange(0, k))
        } else {
            Set::empty()
        },
        None => if enc == Encoder::Vpx && u.len() > 0 && u.last() == 0x2d {
            flag_record(u.drop_last())
        } else {
            flag_record(u)
        },
    }
}

/// All flag spellings one token contributes.
pub open spec fn token_params(tok: Seq<u8>, enc: Encoder) -> Set<Seq<u8>> {
    if tok.len() == 0 || tok[0] != 0x2d {
        Set::empty()
    } else if tok.len() == 1 || tok == seq![0x2du8, 0x2d] {
        Set::empty()
    } else {
        let split = enc == Encoder::X265 && x265_short_split(tok);
        let shorts = if split {
            flag_record(short_flag(tok))
        } else {
            Set::empty()
        };
        let u = if split {
            tok.subrange(3, tok.len() as int)
        } else {
            tok
        };
        if starts_with_bytes(u, no_marker()) {
            shorts.union(no_pair_params(u))
        } else {
            shorts.union(generic_params(u, enc))
        }
    }
}

/// The set of flag spellings (as UTF-8 bytes) a help text advertises.
pub open spec fn valid_params_spec(t: Seq<u8>, enc: Encoder) -> Set<Seq<u8>> {
    Set::new(
        |p: Seq<u8>|
            exists|i: int|
                #[trigger] is_token_start(t, i) && token_params(token_at(t, i), enc).contains(p),
    )
}

/// Some recorded string has exactly these bytes.
pub open spec fn recorded(ps: Seq<String>, p: Seq<u8>) -> bool {
    exists|k: int| 0 <= k < ps.len() && encode_utf8(#[trigger] ps[k]@) == p
}

/// No two recorded strings are equal.
pub open spec fn distinct_views(ps: Seq<String>) -> bool {
    forall|k1: int, k2: int| 0 <= k1 < k2 < ps.len() ==> ps[k1]@ != ps[k2]@
}

/// `post` records exactly what `pre` records plus the values in `extra`.
pub open spec fn extended_by(pre: Seq<String>, post: Seq<String>, extra: Set<Seq<u8>>) -> bool {
    forall|p: Seq<u8>| #[trigger] recorded(post, p) <==> recorded(pre, p) || extra.contains(p)
}

/// Two extension steps compose into one with the union of the extras.
pub proof fn lemma_extended_by_union(
    s0: Seq<String>,
    s1: Seq<String>,
    s2: Seq<String>,
    a: Set<Seq<u8>>,
    b: Set<Seq<u8>>,
)
    requires
        extended_by(s0, s1, a),
        extended_by(s1, s2, b),
    ensures
        extended_by(s0, s2, a.union(b)),
{
    assert forall|p: Seq<u8>| #[trigger] recorded(s2, p) <==> recorded(s0, p) || a.union(
        b,
    ).contains(p) by {
        assert(recorded(s1, p) <==> recorded(s0, p) || a.contains(p));
        assert(recorded(s2, p) <==> recorded(s1, p) || b.contains(p));
    }
}

/// Appends `s` unless an equal string is already present.
fn push_unique(params: &mut Vec<String>, s: String)
    requires
        distinct_views(old(params)@),
    ensures
        distinct_views(final(params)@),
        extended_by(old(params)@, final(params)@, set![encode_utf8(s@)]),
{
    let ghost s_view = s@;
    let ghost old_ps = old(params)@;
    let n = params.len();
    let mut k: usize = 0;
    while k < n
        invariant
            k <= n,
            forall|j: int| 0 <= j < k ==> params@[j]@ != s_view,
        decreases n - k,
    {
        if params[k].eq(&s) {
            proof {
                assert(recorded(params@, encode_utf8(s_view))) by {
                    assert(encode_utf8(params@[k as int]@) == encode_utf8(s_view));
                }
                assert forall|p: Seq<u8>| #[trigger] recorded(params@, p) <==> recorded(
                    old_ps,
                    p,
                ) || set![encode_utf8(s_view)].contains(p) by {}
                assert(extended_by(old_ps, params@, set![encode_utf8(s_view)]));
            }
            return ;
        }
        k = k + 1;
    }
    params.push(s);
    proof {
        assert(old_ps.len() == n);
        assert forall|p: Seq<u8>| #[trigger] recorded(params@, p) <==> recorded(old_ps, p)
            || set![encode_utf8(s_view)].contains(p) by {
            if recorded(params@, p) {
                let j = choose|j: int|
                    0 <= j < params@.len() && encode_utf8(#[trigger] params@[j]@) == p;
                if j < old_ps.len() {
                    assert(params@[j] == old_ps[j]);
                    assert(recorded(old_ps, p));
                } else {
                    assert(params@[j]@ == s_view);
                }
            }
            if recorded(old_ps, p) {
                let j = choose|j: int|
                    0 <= j < old_ps.len() && encode_utf8(#[trigger] old_ps[j]@) == p;
                assert(params@[j] == old_ps[j]);
                assert(encode_utf8(params@[j]@) == p);
                assert(recorded(params@, p));
            }
            if p == encode_utf8(s_view) {
                assert(encode_utf8(params@[old_ps.len() as int]@) == p);
                assert(recorded(params@, p));
            }
        }
        assert(extended_by(old_ps, params@, set![encode_utf8(s_view)]));
    }
}

/// Runtime test matching `is_continuation_byte`.
fn is_cont(b: u8) -> (r: bool)
    ensures
        r == is_continuation_byte(b),
{
    0x80 <= b && b <= 0xbf
}

/// Runtime test matching `is_flag_name_byte`.
fn is_flag_byte(b: u8) -> (r: bool)
    ensures
        r == is_flag_name_byte(b),
{
    (0x30 <= b && b <= 0x39) || (0x41 <= b && b <= 0x5a) || (0x61 <= b && b <= 0x7a) || b == 0x2d
        || b == 0x5f
}

/// Linear scan for the first byte of `s[from..to]` that cannot be part
/// of a flag name.
fn find_non_flag(s: &[u8], from: usize, to: usize) -> (r: Option<usize>)
    requires
        from <= to <= s@.len(),
    ensures
        match r {
            Some(i) => from <= i < to && first_non_flag_in(s@, from as int, to as int) == Some(
                i as int,
            ),
            None => first_non_flag_in(s@, from as int, to as int) is None,
        },
{
    let mut i = from;
    while i < to
        invariant
            from <= i <= to,
            first_non_flag_in(s@, from as int, to as int) == first_non_flag_in(
                s@,
                i as int,
                to as int,
            ),
        decreases to - i,
    {
        if !is_flag_byte(s[i]) {
            return Some(i);
        }
        i = i + 1;
    }
    None
}

/// Records the bytes `a..b` of the help text, unless that value is a
/// bare dash or empty.
fn push_range_param(params: &mut Vec<String>, help_text: &str, a: usize, b: usize)
    requires
        valid_utf8(encode_utf8(help_text@)),
        a <= b <= encode_utf8(help_text@).len(),
        is_char_boundary(encode_utf8(help_text@), a as int),
        is_char_boundary(encode_utf8(help_text@), b as int),
        distinct_views(old(params)@),
    ensures
        distinct_views(final(params)@),
        extended_by(
            old(params)@,
            final(params)@,
            flag_record(encode_utf8(help_text@).subrange(a as int, b as int)),
        ),
{
    let ghost t = encode_utf8(help_text@);
    let ghost piece = t.subrange(a as int, b as int);
    let hb = help_text.as_bytes();
    let len = b - a;
    let banned = len == 0 || (len == 1 && hb[a] == 0x2d) || (len == 2 && hb[a] == 0x2d && hb[a
        + 1] == 0x2d);
    proof {
        assert(hb@ == t);
        if len == 1 && t[a as int] == 0x2d {
            assert(piece =~= seq![0x2du8]);
        }
        if len == 2 && t[a as int] == 0x2d && t[a as int + 1] == 0x2d {
            assert(piece =~= seq![0x2du8, 0x2d]);
        }
        if piece == seq![0x2du8] {
            assert(piece.len() == 1 && piece[0] == 0x2d);
        }
        if piece == seq![0x2du8, 0x2d] {
            assert(piece.len() == 2 && piece[0] == 0x2d && piece[1] == 0x2d);
        }
        assert(banned == banned_param(piece));
    }
    if banned {
        proof {
            assert forall|p: Seq<u8>| #[trigger] recorded(params@, p) <==> recorded(
                old(params)@,
                p,
            ) || flag_record(piece).contains(p) by {
                assert(!flag_record(piece).contains(p));
            }
            assert(extended_by(old(params)@, params@, flag_record(piece)));
        }
        return ;
    }
    let sstr = copy_range(help_text, a, b);
    proof {
        assert(flag_record(piece) =~= set![encode_utf8(sstr@)]);
    }
    push_unique(params, sstr);
}

/// Records `"--"` (or, with `no_variant`, `"--no-"`) followed by the
/// bytes `a..b` of the help text; the bare `"--"` that an empty range
/// would give is never recorded.
fn push_prefixed_param(
    params: &mut Vec<String>,
    help_text: &str,
    no_variant: bool,
    a: usize,
    b: usize,
)
    requires
        valid_utf8(encode_utf8(help_text@)),
        a <= b <= encode_utf8(help_text@).len(),
        is_char_boundary(encode_utf8(help_text@), a as int),
        is_char_boundary(encode_utf8(help_text@), b as int),
        distinct_views(old(params)@),
    ensures
        distinct_views(final(params)@),
        extended_by(
            old(params)@,
            final(params)@,
            flag_record(
                (if no_variant {
                    double_dash_no()
                } else {
                    double_dash()
                }) + encode_utf8(help_text@).subrange(a as int, b as int),
            ),
        ),
{
    let ghost t = encode_utf8(help_text@);
    let ghost arg = t.subrange(a as int, b as int);
    let ghost full = (if no_variant {
        double_dash_no()
    } else {
        double_dash()
    }) + arg;
    if !no_variant && a == b {
        proof {
            assert(full =~= seq![0x2du8, 0x2d]);
            assert(banned_param(full));
            assert forall|p: Seq<u8>| #[trigger] recorded(params@, p) <==> recorded(
                old(params)@,
                p,
            ) || flag_record(full).contains(p) by {
                assert(!flag_record(full).contains(p));
            }
            assert(extended_by(old(params)@, params@, flag_record(full)));
        }
        return ;
    }
    let arg_str = copy_range(help_text, a, b);
    let mut flag = if no_variant {
        String::from_str("--no-")
    } else {
        String::from_str("--")
    };
    proof {
        reveal_strlit("--no-");
        reveal_strlit("--");
        if no_variant {
            assert(flag@ =~= "--no-"@);
            assert(is_ascii_chars("--no-"@)) by {
                assert("--no-"@[0] == '-' && "--no-"@[1] == '-' && "--no-"@[2] == 'n' && "--no-"@[3]
                    == 'o' && "--no-"@[4] == '-');
            }
            is_ascii_chars_encode_utf8("--no-"@);
            assert(encode_utf8("--no-"@) =~= double_dash_no());
        } else {
            assert(flag@ =~= "--"@);
            assert(is_ascii_chars("--"@)) by {
                assert("--"@[0] == '-' && "--"@[1] == '-');
            }
            is_ascii_chars_encode_utf8("--"@);
            assert(encode_utf8("--"@) =~= double_dash());
        }
    }
    let ghost prefix_view = flag@;
    flag.append(arg_str.as_str());
    proof {
        lemma_encode_utf8_concat(prefix_view, arg_str@);
        assert(encode_utf8(flag@) == full);
        assert(!banned_param(full)) by {
            if no_variant {
                assert(full.len() >= 5);
            } else {
                assert(full.len() >= 3);
            }
        }
        assert(flag_record(full) =~= set![encode_utf8(flag@)]);
    }
    push_unique(params, flag);
}

/// A step that records nothing extends the record set by nothing.
proof fn lemma_extend_nothing(ps: Seq<String>, extra: Set<Seq<u8>>)
    requires
        extra == Set::<Seq<u8>>::empty(),
    ensures
        extended_by(ps, ps, extra),
{
    assert forall|p: Seq<u8>| #[trigger] recorded(ps, p) <==> recorded(ps, p) || extra.contains(
        p,
    ) by {
        assert(!extra.contains(p));
    }
}

/// Records every flag spelling contributed by the token `a..e`.
#[verifier::rlimit(100)]
fn process_token(params: &mut Vec<String>, help_text: &str, a: usize, e: usize, encoder: Encoder)
    requires
        valid_utf8(encode_utf8(help_text@)),
        is_token_start(encode_utf8(help_text@), a as int),
        e == token_end(encode_utf8(help_text@), a as int),
        distinct_views(old(params)@),
    ensures
        distinct_views(final(params)@),
        extended_by(
            old(params)@,
            final(params)@,
            token_params(token_at(encode_utf8(help_text@), a as int), encoder),
        ),
{
    let ghost t = encode_utf8(help_text@);
    let ghost a_i = a as int;
    let ghost tok = token_at(t, a_i);
    let ghost ps0 = old(params)@;
    let hb = help_text.as_bytes();
    proof {
        assert(hb@ == t);
        lemma_token_end(t, a_i);
        assert(a < e) by {
            if e == a {
                assert(is_ascii_ws(t[a_i]));
            }
        }
        assert(tok =~= t.subrange(a_i, e as int));
        assert forall|j: int| 0 <= j < tok.len() implies tok[j] == t[a_i + j] by {}
        if a > 0 {
            lemma_ascii_byte_boundaries(t, a_i - 1);
        }
        assert(is_char_boundary(t, a_i));
        if (e as int) < t.len() {
            assert(!is_continuation_byte(t[e as int]));
        }
        lemma_non_continuation_boundary(t, e as int);
    }
    if hb[a] != 0x2d {
        proof {
            assert(tok[0] == t[a_i]);
            assert(token_params(tok, encoder) =~= Set::<Seq<u8>>::empty());
            lemma_extend_nothing(params@, token_params(tok, encoder));
        }
        return ;
    }
    if e - a == 1 {
        proof {
            assert(token_params(tok, encoder) =~= Set::<Seq<u8>>::empty());
            lemma_extend_nothing(params@, token_params(tok, encoder));
        }
        return ;
    }
    if e - a == 2 && hb[a + 1] == 0x2d {
        proof {
            assert(tok =~= seq![0x2du8, 0x2d]);
            assert(token_params(tok, encoder) =~= Set::<Seq<u8>>::empty());
            lemma_extend_nothing(params@, token_params(tok, encoder));
        }
        return ;
    }
    proof {
        assert(tok.len() >= 2);
        assert(tok[0] == 0x2d);
        assert(tok != seq![0x2du8, 0x2d]) by {
            if tok == seq![0x2du8, 0x2d] {
                assert(tok.len() == 2 && tok[1] == 0x2d);
            }
        }
    }
    let split = encoder == Encoder::X265 && e - a >= 5 && hb[a + 3] == 0x2d && hb[a + 4] == 0x2d;
    proof {
        if e - a >= 5 {
            assert(tok[3] == t[a_i + 3] && tok[4] == t[a_i + 4]);
        }
        assert(split == (encoder == Encoder::X265 && x265_short_split(tok)));
    }
    let ghost shorts = if split {
        flag_record(short_flag(tok))
    } else {
        Set::<Seq<u8>>::empty()
    };
    let ustart: usize;
    if split {
        let send = if is_cont(hb[a + 2]) {
            a + 3
        } else {
            a + 2
        };
        proof {
            assert(tok[2] == t[a_i + 2]);
            assert(short_flag(tok) =~= t.subrange(a_i, send as int));
            if send == a + 2 {
                lemma_non_continuation_boundary(t, send as int);
            } else {
                lemma_ascii_byte_boundaries(t, a_i + 3);
            }
        }
        push_range_param(params, help_text, a, send);
        proof {
            assert(extended_by(ps0, params@, shorts));
        }
        ustart = a + 3;
    } else {
        proof {
            lemma_extend_nothing(params@, shorts);
            assert(extended_by(ps0, params@, shorts));
        }
        ustart = a;
    }
    let ghost ps1 = params@;
    proof {
        if split {
            lemma_ascii_byte_boundaries(t, a_i + 3);
        }
        assert(is_char_boundary(t, ustart as int));
    }
    let ghost u = if split {
        tok.subrange(3, tok.len() as int)
    } else {
        tok
    };
    proof {
        assert(u =~= t.subrange(ustart as int, e as int));
        assert forall|j: int| 0 <= j < u.len() implies u[j] == t[ustart + j] by {}
        assert(u.len() == e - ustart);
        assert(u.len() >= 2);
        assert(u[0] == 0x2d);
    }
    let has_no = e - ustart >= 7 && hb[ustart] == 0x2d && hb[ustart + 1] == 0x2d && hb[ustart + 2]
        == 0x5b && hb[ustart + 3] == 0x6e && hb[ustart + 4] == 0x6f && hb[ustart + 5] == 0x2d && hb[
        ustart + 6] == 0x5d;
    proof {
        if has_no {
            assert(u.subrange(0, 7) =~= no_marker());
            assert(starts_with_bytes(u, no_marker()));
        } else if u.len() >= 7 {
            if starts_with_bytes(u, no_marker()) {
                let m = u.subrange(0, 7);
                assert(m[0] == u[0] && m[1] == u[1] && m[2] == u[2] && m[3] == u[3] && m[4] == u[4]
                    && m[5] == u[5] && m[6] == u[6]);
                assert(false);
            }
        }
        assert(has_no == starts_with_bytes(u, no_marker()));
    }
    if has_no {
        let argstart = if e - ustart >= 8 && hb[ustart + 7] == 0x2d {
            ustart + 8
        } else {
            ustart + 7
        };
        proof {
            let rest = u.subrange(7, u.len() as int);
            assert(rest =~= t.subrange(ustart as int + 7, e as int));
            if rest.len() > 0 {
                assert(rest[0] == t[ustart + 7]);
            }
            let arg = if rest.len() > 0 && rest[0] == 0x2d {
                rest.drop_first()
            } else {
                rest
            };
            assert(arg =~= t.subrange(argstart as int, e as int));
            lemma_ascii_byte_boundaries(t, ustart as int + 6);
            if argstart == ustart + 8 {
                lemma_ascii_byte_boundaries(t, ustart as int + 7);
            }
        }
        push_prefixed_param(params, help_text, false, argstart, e);
        let ghost ps2 = params@;
        push_prefixed_param(params, help_text, true, argstart, e);
        proof {
            let arg = t.subrange(argstart as int, e as int);
            lemma_extended_by_union(
                ps1,
                ps2,
                params@,
                flag_record(double_dash() + arg),
                flag_record(double_dash_no() + arg),
            );
            lemma_extended_by_union(
                ps0,
                ps1,
                params@,
                shorts,
                flag_record(double_dash() + arg).union(flag_record(double_dash_no() + arg)),
            );
            assert(no_pair_params(u) =~= flag_record(double_dash() + arg).union(
                flag_record(double_dash_no() + arg),
            )) by {
                let rest = u.subrange(7, u.len() as int);
                assert(rest =~= t.subrange(ustart as int + 7, e as int));
                if rest.len() > 0 {
                    assert(rest[0] == t[ustart + 7]);
                }
                let arg2 = if rest.len() > 0 && rest[0] == 0x2d {
                    rest.drop_first()
                } else {
                    rest
                };
                assert(arg2 =~= arg);
            }
            assert(shorts.union(
                flag_record(double_dash() + arg).union(flag_record(double_dash_no() + arg)),
            ) =~= token_params(tok, encoder));
            assert(extended_by(ps0, params@, token_params(tok, encoder)));
        }
        return ;
    }
    let found = find_non_flag(hb, ustart, e);
    proof {
        lemma_first_non_flag_shift(t, ustart as int, e as int);
    }
    match found {
        Some(k) => {
            proof {
                assert(first_non_flag_in(u, 0, u.len() as int) == Some(k - ustart));
            }
            if k - ustart > 1 {
                proof {
                    lemma_first_non_flag_in(t, ustart as int, e as int);
                    assert(is_flag_name_byte(t[k as int - 1]));
                    lemma_ascii_byte_boundaries(t, k as int - 1);
                    assert(is_char_boundary(t, k as int));
                }
                push_range_param(params, help_text, ustart, k);
                proof {
                    assert(u.subrange(0, k - ustart) =~= t.subrange(ustart as int, k as int));
                    lemma_extended_by_union(
                        ps0,
                        ps1,
                        params@,
                        shorts,
                        flag_record(t.subrange(ustart as int, k as int)),
                    );
                    assert(shorts.union(flag_record(t.subrange(ustart as int, k as int))) =~= token_params(
                        tok,
                        encoder,
                    ));
                    assert(extended_by(ps0, params@, token_params(tok, encoder)));
                }
            } else {
                proof {
                    assert(token_params(tok, encoder) =~= shorts);
                    assert(extended_by(ps0, params@, token_params(tok, encoder)));
                }
            }
        },
        None => {
            proof {
                assert(first_non_flag_in(u, 0, u.len() as int) is None);
                assert(u.last() == t[e as int - 1]);
            }
            if encoder == Encoder::Vpx && hb[e - 1] == 0x2d {
                proof {
                    lemma_non_continuation_boundary(t, e as int - 1);
                    assert(u.drop_last() =~= t.subrange(ustart as int, e as int - 1));
                }
                push_range_param(params, help_text, ustart, e - 1);
                proof {
                    lemma_extended_by_union(
                        ps0,
                        ps1,
                        params@,
                        shorts,
                        flag_record(t.subrange(ustart as int, e as int - 1)),
                    );
                    assert(shorts.union(flag_record(t.subrange(ustart as int, e as int - 1)))
                        =~= token_params(tok, encoder));
                    assert(extended_by(ps0, params@, token_params(tok, encoder)));
                }
            } else {
                push_range_param(params, help_text, ustart, e);
                proof {
                    lemma_extended_by_union(
                        ps0,
                        ps1,
                        params@,
                        shorts,
                        flag_record(t.subrange(ustart as int, e as int)),
                    );
                    assert(shorts.union(flag_record(t.subrange(ustart as int, e as int)))
                        =~= token_params(tok, encoder));
                    assert(extended_by(ps0, params@, token_params(tok, encoder)));
                }
            }
        },
    }
}

/// Returns the set of flag spellings a help text advertises for the
/// given encoder: exactly the values of `valid_params_spec` over the
/// text's UTF-8 bytes, each spelling listed once.
pub fn valid_params(help_text: &str, encoder: Encoder) -> (r: Vec<String>)
    ensures
        forall|p: Seq<u8>|
            #[trigger] recorded(r@, p) <==> valid_params_spec(
                encode_utf8(help_text@),
                encoder,
            ).contains(p),
        distinct_views(r@),
{
    let ghost t = encode_utf8(help_text@);
    let hb = help_text.as_bytes();
    proof {
        vstd::utf8::encode_utf8_valid_utf8(help_text@);
        assert(hb@ == t);
    }
    let n = hb.len();
    let mut params: Vec<String> = Vec::new();
    let mut i: usize = 0;
    proof {
        assert forall|j: int, p: Seq<u8>|
            is_token_start(t, j) && token_end(t, j) <= 0 && #[trigger] token_params(
                token_at(t, j),
                encoder,
            ).contains(p) implies recorded(params@, p) by {
            lemma_token_end(t, j);
            assert(false);
        }
    }
    while i < n
        invariant
            i <= n,
            distinct_views(params@),
            forall|p: Seq<u8>|
                #[trigger] recorded(params@, p) ==> valid_params_spec(t, encoder).contains(p),
            forall|j: int, p: Seq<u8>|
                is_token_start(t, j) && token_end(t, j) <= i as int && #[trigger] token_params(
                    token_at(t, j),
                    encoder,
                ).contains(p) ==> recorded(params@, p),
            i == 0 || i == n || is_ascii_ws(t[i as int]) || is_ascii_ws(t[i as int - 1]),
        decreases n - i,
    {
        if is_ws_byte(hb[i]) {
            proof {
                assert forall|j: int, p: Seq<u8>|
                    is_token_start(t, j) && token_end(t, j) <= i as int + 1
                        && #[trigger] token_params(token_at(t, j), encoder).contains(
                        p,
                    ) implies recorded(params@, p) by {
                    lemma_token_end(t, j);
                    if token_end(t, j) == i as int + 1 {
                        assert(!is_ascii_ws(t[i as int]));
                        assert(false);
                    }
                }
            }
            i = i + 1;
        } else {
            proof {
                assert(is_token_start(t, i as int));
            }
            let e = token_end_from(hb, i);
            let ghost ps_pre = params@;
            process_token(&mut params, help_text, i, e, encoder);
            proof {
                lemma_token_end(t, i as int);
                assert forall|p: Seq<u8>| #[trigger] recorded(params@, p) implies valid_params_spec(
                    t,
                    encoder,
                ).contains(p) by {
                    if !recorded(ps_pre, p) {
                        assert(token_params(token_at(t, i as int), encoder).contains(p));
                        assert(is_token_start(t, i as int));
                        assert(valid_params_spec(t, encoder).contains(p));
                    }
                }
                assert forall|j: int, p: Seq<u8>|
                    is_token_start(t, j) && token_end(t, j) <= e as int && #[trigger] token_params(
                        token_at(t, j),
                        encoder,
                    ).contains(p) implies recorded(params@, p) by {
                    if j == i as int {
                        assert(recorded(params@, p));
                    } else {
                        lemma_token_end(t, j);
                        assert(j < token_end(t, j)) by {
                            if token_end(t, j) == j {
                                assert(is_ascii_ws(t[j]));
                            }
                        }
                        if j > i as int {
                            assert(!is_ascii_ws(t[j - 1]));
                            assert(false);
                        } else {
                            if token_end(t, j) > i as int {
                                assert(!is_ascii_ws(t[i as int - 1]));
                                assert(false);
                            }
                            assert(recorded(ps_pre, p));
                        }
                    }
                }
            }
            i = e;
        }
    }
    proof {
        assert forall|p: Seq<u8>|
            valid_params_spec(t, encoder).contains(p) implies recorded(params@, p) by {
            let j = choose|j: int|
                #[trigger] is_token_start(t, j) && token_params(token_at(t, j), encoder).contains(
                    p,
                );
            lemma_token_end(t, j);
            assert(token_params(token_at(t, j), encoder).contains(p));
        }
    }
    params
}

} // verus!
