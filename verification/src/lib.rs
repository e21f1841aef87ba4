//! Parsers for the live progress output and the `--help` text of several
//! video encoders.
//!
//! Each frame-count extractor takes one line of encoder output and returns
//! the cumulative number of encoded frames, or `None` when the line does not
//! match the encoder's progress format.  `valid_params` tokenizes a full
//! help text into the set of flag spellings the encoder recognizes.
//!
//! All of the logic is byte-oriented: every contract is stated over the
//! UTF-8 encoding of the input string, which is how `str::as_bytes` is
//! modeled by `vstd`.
#![verifier::loop_isolation(false)]

mod bytes;
mod chunked;
mod digits;
mod frames;
mod laws;
mod params;
mod text;

pub use bytes::find_byte_in;
pub use bytes::first_non_ws;
pub use bytes::is_ascii_digit_byte;
pub use bytes::is_ascii_ws;
pub use bytes::token_end;
pub use chunked::CHUNK_WIDTH;
pub use chunked::parse_aom_vpx_frames_chunked;
pub use digits::all_digits;
pub use digits::digits_value;
pub use digits::parse_u64_spec;
pub use digits::pow10;
pub use frames::AOM_VPX_PREFIX_LEN;
pub use frames::aom_vpx_frames_spec;
pub use frames::first_token_value;
pub use frames::parse_aom_vpx_frames;
pub use frames::parse_rav1e_frames;
pub use frames::parse_svt_av1_frames;
pub use frames::parse_x26x_frames;
pub use frames::rav1e_frames_spec;
pub use frames::rav1e_prefix;
pub use frames::starts_with_bytes;
pub use frames::svt_av1_frames_spec;
pub use frames::svt_av1_prefix;
pub use frames::x26x_frames_spec;
pub use frames::x26x_skip_token;
pub use frames::x26x_token_start;
pub use laws::lemma_aom_vpx_no_slash_none;
pub use laws::lemma_aom_vpx_short_line_none;
pub use laws::lemma_rav1e_requires_prefix;
pub use laws::lemma_svt_av1_requires_prefix;
pub use laws::lemma_token_params_well_formed;
pub use laws::lemma_valid_params_well_formed;
pub use laws::lemma_x26x_all_brackets_none;
pub use params::Encoder;
pub use params::banned_param;
pub use params::distinct_views;
pub use params::double_dash;
pub use params::double_dash_no;
pub use params::extended_by;
pub use params::first_non_flag_in;
pub use params::flag_record;
pub use params::generic_params;
pub use params::is_flag_name_byte;
pub use params::is_token_start;
pub use params::lemma_extended_by_union;
pub use params::no_marker;
pub use params::no_pair_params;
pub use params::recorded;
pub use params::short_flag;
pub use params::token_at;
pub use params::token_params;
pub use params::valid_params;
pub use params::valid_params_spec;
pub use params::x265_short_split;
pub use text::lemma_ascii_byte_boundaries;
pub use text::lemma_boundary_in_suffix;
pub use text::lemma_encode_utf8_concat;
pub use text::lemma_non_continuation_boundary;
