//! Properties of the extractors that hold for whole classes of inputs,
//! stated and proved over the same models the executable contracts use.

use vstd::prelude::*;

use crate::bytes::find_byte_in;
use crate::bytes::is_ascii_ws;
use crate::bytes::lemma_find_byte_in;
use crate::frames::aom_vpx_frames_spec;
use crate::frames::rav1e_frames_spec;
use crate::frames::rav1e_prefix;
use crate::frames::starts_with_bytes;
use crate::frames::svt_av1_frames_spec;
use crate::frames::svt_av1_prefix;
use crate::frames::x26x_frames_spec;
use crate::frames::x26x_skip_token;
use crate::frames::x26x_token_start;
use crate::params::Encoder;
use crate::params::banned_param;
use crate::params::double_dash;
use crate::params::double_dash_no;
use crate::params::first_non_flag_in;
use crate::params::flag_record;
use crate::params::is_token_start;
use crate::params::lemma_first_non_flag_in;
use crate::params::no_marker;
use crate::params::short_flag;
use crate::params::token_at;
use crate::params::token_params;
use crate::params::valid_params_spec;
use crate::params::x265_short_split;

verus! {

/// A line shorter than the ignored aomenc/vpxenc prefix never yields a
/// frame count.
pub proof fn lemma_aom_vpx_short_line_none(t: Seq<u8>)
    requires
        t.len() <= 19,
    ensures
        aom_vpx_frames_spec(t) is None,
{
}

/// A line with no `/` at or after byte 19 — any unrelated text — never
/// yields an aomenc/vpxenc frame count.
pub proof fn lemma_aom_vpx_no_slash_none(t: Seq<u8>)
    requires
        forall|j: int| 19 <= j < t.len() ==> t[j] != 0x2f,
    ensures
        aom_vpx_frames_spec(t) is None,
{
    if t.len() > 19 {
        lemma_find_byte_in(t, 19, t.len() as int, 0x2f);
        if find_byte_in(t, 19, t.len() as int, 0x2f) is Some {
            let i = find_byte_in(t, 19, t.len() as int, 0x2f)->Some_0;
            assert(t[i] == 0x2f);
        }
    }
}

/// A line that does not start with `"encoded "` never yields a rav1e
/// frame count.
pub proof fn lemma_rav1e_requires_prefix(t: Seq<u8>)
    requires
        !starts_with_bytes(t, rav1e_prefix()),
    ensures
        rav1e_frames_spec(t) is None,
{
}

/// A line that does not start with `"Encoding frame"` never yields an
/// SVT-AV1 frame count.
pub proof fn lemma_svt_av1_requires_prefix(t: Seq<u8>)
    requires
        !starts_with_bytes(t, svt_av1_prefix()),
    ensures
        svt_av1_frames_spec(t) is None,
{
}

/// A line whose every token begins with `[` — an x264/x265 log banner —
/// never yields a frame count; neither does an empty or all-whitespace
/// line, which has no token at all.
pub proof fn lemma_x26x_all_brackets_none(t: Seq<u8>)
    requires
        forall|j: int| is_token_start(t, j) ==> t[j] == 0x5b,
    ensures
        x26x_frames_spec(t) is None,
{
    lemma_x26x_pick_brackets(t, 0);
}

proof fn lemma_x26x_pick_brackets(t: Seq<u8>, i: int)
    requires
        forall|j: int| is_token_start(t, j) ==> t[j] == 0x5b,
        0 <= i <= t.len(),
        i < t.len() && !is_ascii_ws(t[i]) ==> is_token_start(t, i),
    ensures
        x26x_token_start(t, i) is None,
    decreases t.len() - i, 0int,
{
    if i < t.len() {
        if is_ascii_ws(t[i]) {
            lemma_x26x_pick_brackets(t, i + 1);
        } else {
            assert(t[i] == 0x5b);
            lemma_x26x_skip_brackets(t, i + 1);
        }
    }
}

proof fn lemma_x26x_skip_brackets(t: Seq<u8>, i: int)
    requires
        forall|j: int| is_token_start(t, j) ==> t[j] == 0x5b,
        0 <= i <= t.len(),
    ensures
        x26x_skip_token(t, i) is None,
    decreases t.len() - i, 1int,
{
    if i < t.len() {
        if is_ascii_ws(t[i]) {
            lemma_x26x_pick_brackets(t, i);
        } else {
            lemma_x26x_skip_brackets(t, i + 1);
        }
    }
}

/// Every flag spelling the tokenizer can produce starts with a dash, has
/// at least two bytes, and is never the bare `-` or `--`.
pub proof fn lemma_valid_params_well_formed(t: Seq<u8>, enc: Encoder, p: Seq<u8>)
    requires
        valid_params_spec(t, enc).contains(p),
    ensures
        !banned_param(p),
        p.len() >= 2,
        p[0] == 0x2d,
{
    let j = choose|j: int|
        #[trigger] is_token_start(t, j) && token_params(token_at(t, j), enc).contains(p);
    let tok = token_at(t, j);
    lemma_token_params_well_formed(tok, enc, p);
    if p.len() == 1 {
        assert(p =~= seq![0x2du8]);
    }
}

/// Every spelling one token contributes starts with a dash and is not
/// banned.
pub proof fn lemma_token_params_well_formed(tok: Seq<u8>, enc: Encoder, p: Seq<u8>)
    requires
        token_params(tok, enc).contains(p),
    ensures
        !banned_param(p),
        p.len() >= 1,
        p[0] == 0x2d,
{
    assert(tok.len() >= 2 && tok[0] == 0x2d) by {
        if tok.len() == 0 || tok[0] != 0x2d || tok.len() == 1 || tok == seq![0x2du8, 0x2d] {
            assert(!token_params(tok, enc).contains(p));
        }
    }
    let split = enc == Encoder::X265 && x265_short_split(tok);
    let shorts = if split {
        flag_record(short_flag(tok))
    } else {
        Set::<Seq<u8>>::empty()
    };
    let u = if split {
        tok.subrange(3, tok.len() as int)
    } else {
        tok
    };
    assert(u.len() >= 2);
    assert(u[0] == 0x2d);
    if shorts.contains(p) {
        assert(split);
        assert(p == short_flag(tok));
        assert(!banned_param(p));
        assert(p[0] == tok[0]);
    } else if starts_with_bytes(u, no_marker()) {
        let rest = u.subrange(7, u.len() as int);
        let arg = if rest.len() > 0 && rest[0] == 0x2d {
            rest.drop_first()
        } else {
            rest
        };
        if flag_record(double_dash() + arg).contains(p) {
            assert(p == double_dash() + arg);
            assert(!banned_param(p));
            assert(p[0] == 0x2d);
        } else {
            assert(flag_record(double_dash_no() + arg).contains(p));
            assert(p == double_dash_no() + arg);
            assert(!banned_param(p));
            assert(p[0] == 0x2d);
        }
    } else {
        match first_non_flag_in(u, 0, u.len() as int) {
            Some(k) => {
                lemma_first_non_flag_in(u, 0, u.len() as int);
                assert(k > 1) by {
                    if k <= 1 {
                        assert(!token_params(tok, enc).contains(p));
                    }
                }
                assert(flag_record(u.subrange(0, k)).contains(p));
                assert(p == u.subrange(0, k));
                assert(!banned_param(p));
                assert(p[0] == u[0]);
            },
            None => {
                if enc == Encoder::Vpx && u.len() > 0 && u.last() == 0x2d {
                    assert(flag_record(u.drop_last()).contains(p));
                    assert(p == u.drop_last());
                    assert(!banned_param(p));
                    assert(p.len() >= 1);
                    assert(p[0] == u[0]);
                } else {
                    assert(flag_record(u).contains(p));
                    assert(p == u);
                    assert(!banned_param(p));
                    assert(p[0] == u[0]);
                }
            },
        }
    }
}

} // verus!
