use av1an_parse::Encoder;
use av1an_parse::parse_aom_vpx_frames;
use av1an_parse::parse_aom_vpx_frames_chunked;
use av1an_parse::parse_rav1e_frames;
use av1an_parse::parse_svt_av1_frames;
use av1an_parse::parse_x26x_frames;
use av1an_parse::valid_params;

fn has(v: &Vec<String>, s: &str) -> bool {
    v.iter().any(|x| x.as_str() == s)
}

#[test]
fn aom_vpx_small_counts() {
    assert_eq!(
        parse_aom_vpx_frames("Pass 1/1 frame    3/2       2131B    5997 us 500.25 fps [ETA  unknown]"),
        Some(2)
    );
}

#[test]
fn aom_vpx_large_counts() {
    assert_eq!(
        parse_aom_vpx_frames(
            "Pass 1/1 frame 102262/102261 136473850B  131502 ms 777.65 fps [ETA  unknown]"
        ),
        Some(102261)
    );
}

#[test]
fn aom_vpx_mid_counts() {
    assert_eq!(
        parse_aom_vpx_frames("Pass 1/1 frame  142/141   156465B  208875 us 679.83 fps [ETA  unknown]"),
        Some(141)
    );
}

#[test]
fn aom_vpx_unrelated_lines() {
    assert_eq!(parse_aom_vpx_frames(""), None);
    assert_eq!(parse_aom_vpx_frames("Pass 1/1"), None);
    assert_eq!(parse_aom_vpx_frames("irrelevant log banner without any progress"), None);
    assert_eq!(parse_aom_vpx_frames("Pass 1/1 frame    3/x       2131B"), None);
}

#[test]
fn chunked_matches_scalar_on_real_lines() {
    let lines = [
        "Pass 1/1 frame    3/2       2131B    5997 us 500.25 fps [ETA  unknown]",
        "Pass 1/1 frame   84/83     81091B  132314 us 634.85 fps [ETA  unknown]",
        "Pass 1/1 frame  142/141   156465B  208875 us 679.83 fps [ETA  unknown]",
        "Pass 1/1 frame 4232/4231 5622510B 5518075 us 766.93 fps [ETA  unknown]",
        "Pass 1/1 frame 13380/13379 17860525B   16760 ms 798.31 fps [ETA  unknown]",
        "Pass 1/1 frame 102262/102261 136473850B  131502 ms 777.65 fps [ETA  unknown]",
        "Pass 1/1 frame 1022621/1022611 136473850B  131502 ms 777.65 fps [ETA  unknown]",
    ];
    for line in lines {
        assert_eq!(
            parse_aom_vpx_frames_chunked(line.as_bytes()),
            parse_aom_vpx_frames(line),
            "disagreement on: {line}"
        );
    }
}

#[test]
fn chunked_matches_scalar_on_garbage() {
    let lines = [
        "aaaaaaaaaaaaaaaaaaaaaaaaaaaaaaaaaaaaaaaaaaaaa",
        "Pass 1/1 frame    3/x       2131B    5997 us",
        "Pass 1/1 frame    3/+2      2131B    5997 us",
        "//////////////////////////////////////////////",
        "                                              ",
        "Pass 1/1 frame    3 2       2131B    5997 us",
        "????????????????????/ 123 456 789 ?????????????",
    ];
    for line in lines {
        assert_eq!(
            parse_aom_vpx_frames_chunked(line.as_bytes()),
            parse_aom_vpx_frames(line),
            "disagreement on: {line}"
        );
    }
}

#[test]
fn chunked_full_width_count() {
    // Fifteen digits fill the fold window completely.
    let line = "Pass 1/1 frame    3/123456789012345 2131B";
    assert_eq!(parse_aom_vpx_frames(line), Some(123456789012345));
    assert_eq!(parse_aom_vpx_frames_chunked(line.as_bytes()), Some(123456789012345));
    // Sixteen digits push the closing space past the window.
    let line = "Pass 1/1 frame    3/1234567890123456 2131B";
    assert_eq!(parse_aom_vpx_frames(line), Some(1234567890123456));
    assert_eq!(parse_aom_vpx_frames_chunked(line.as_bytes()), Some(1234567890123456));
}

#[test]
fn chunked_rejects_short_input() {
    // The fixed-width variant needs prefix + 16 bytes; below that it
    // reports no match even where the scalar extractor finds one.
    let line = "Pass 1/1 frame    3/2 ";
    assert_eq!(parse_aom_vpx_frames(line), Some(2));
    assert_eq!(parse_aom_vpx_frames_chunked(line.as_bytes()), None);
    assert_eq!(parse_aom_vpx_frames_chunked(b""), None);
}

#[test]
fn rav1e_with_total() {
    assert_eq!(
        parse_rav1e_frames("encoded 12/240 frames, 126.416 fps, 16.32 Kb/s, elap. time: 1m 36s"),
        Some(12)
    );
}

#[test]
fn rav1e_without_total() {
    assert_eq!(
        parse_rav1e_frames("encoded 12207 frames, 126.416 fps, 16.32 Kb/s, elap. time: 1m 36s"),
        Some(12207)
    );
}

#[test]
fn rav1e_unrelated_lines() {
    assert_eq!(parse_rav1e_frames(""), None);
    assert_eq!(parse_rav1e_frames("encoding 12 frames"), None);
    assert_eq!(parse_rav1e_frames("encoded"), None);
    assert_eq!(parse_rav1e_frames("encoded  "), None);
    assert_eq!(parse_rav1e_frames("encoded x frames"), None);
}

#[test]
fn rav1e_overflowing_count() {
    assert_eq!(parse_rav1e_frames("encoded 99999999999999999999999 frames"), None);
}

#[test]
fn svt_av1_progress() {
    assert_eq!(parse_svt_av1_frames("Encoding frame   87  ..."), Some(87));
}

#[test]
fn svt_av1_unrelated_lines() {
    assert_eq!(parse_svt_av1_frames(""), None);
    assert_eq!(parse_svt_av1_frames("Encoding fram 87"), None);
    assert_eq!(parse_svt_av1_frames("Encoding frame"), None);
    assert_eq!(parse_svt_av1_frames("Encoding frame x"), None);
}

#[test]
fn x26x_progress() {
    assert_eq!(parse_x26x_frames("[64.7%] 931/1440 frames, 120.4 fps, ..."), Some(931));
}

#[test]
fn x26x_without_stage_indicator() {
    assert_eq!(parse_x26x_frames("931/1440 frames, 120.4 fps"), Some(931));
    assert_eq!(parse_x26x_frames("77 frames"), Some(77));
}

#[test]
fn x26x_unrelated_lines() {
    assert_eq!(parse_x26x_frames(""), None);
    assert_eq!(parse_x26x_frames("[info]:"), None);
    assert_eq!(parse_x26x_frames("[64.7%] x/1440 frames"), None);
    assert_eq!(parse_x26x_frames("    "), None);
}

#[test]
fn extractors_are_pure() {
    let aom_line = "Pass 1/1 frame    3/2       2131B    5997 us 500.25 fps [ETA  unknown]";
    assert_eq!(parse_aom_vpx_frames(aom_line), parse_aom_vpx_frames(aom_line));
    assert_eq!(
        parse_aom_vpx_frames_chunked(aom_line.as_bytes()),
        parse_aom_vpx_frames_chunked(aom_line.as_bytes())
    );
    let rav1e_line = "encoded 12/240 frames";
    assert_eq!(parse_rav1e_frames(rav1e_line), parse_rav1e_frames(rav1e_line));
    let svt_line = "Encoding frame   87";
    assert_eq!(parse_svt_av1_frames(svt_line), parse_svt_av1_frames(svt_line));
    let x26x_line = "[64.7%] 931/1440 frames";
    assert_eq!(parse_x26x_frames(x26x_line), parse_x26x_frames(x26x_line));
    let help = "-o --tune=psnr --[no-]lag-in-frames";
    assert_eq!(valid_params(help, Encoder::Vpx), valid_params(help, Encoder::Vpx));
}

#[test]
fn valid_params_vpx_like() {
    let params = valid_params("-o --tune=psnr --[no-]lag-in-frames", Encoder::Vpx);
    assert!(has(&params, "-o"));
    assert!(has(&params, "--tune"));
    assert!(has(&params, "--lag-in-frames"));
    assert!(has(&params, "--no-lag-in-frames"));
    assert!(!has(&params, "-"));
    assert!(!has(&params, "--"));
    assert!(!has(&params, ""));
}

#[test]
fn valid_params_x265_short_long_pair() {
    let params = valid_params("-m/--subme <integer>", Encoder::X265);
    assert!(has(&params, "-m"));
    assert!(has(&params, "--subme"));
}

#[test]
fn valid_params_x265_doubled_dash_bug() {
    let params = valid_params("--[no-]-hrd-concat", Encoder::X265);
    assert!(has(&params, "--hrd-concat"));
    assert!(has(&params, "--no-hrd-concat"));
}

#[test]
fn valid_params_x265_short_with_no_pair() {
    let params = valid_params("-w/--[no-]weightp", Encoder::X265);
    assert!(has(&params, "-w"));
    assert!(has(&params, "--weightp"));
    assert!(has(&params, "--no-weightp"));
}

#[test]
fn valid_params_vpx_trailing_dash() {
    let params = valid_params("--foo- text", Encoder::Vpx);
    assert!(has(&params, "--foo"));
    assert!(!has(&params, "--foo-"));
    let params = valid_params("--foo- text", Encoder::Aom);
    assert!(has(&params, "--foo-"));
}

#[test]
fn valid_params_never_holds_bare_dashes() {
    for enc in [Encoder::Aom, Encoder::Vpx, Encoder::X264, Encoder::X265] {
        let params = valid_params("- -- --=x --- -= -x prose", enc);
        assert!(!has(&params, ""));
        assert!(!has(&params, "-"));
        assert!(!has(&params, "--"));
        assert!(has(&params, "-x"));
    }
}

#[test]
fn valid_params_no_duplicates() {
    let params = valid_params("--tune=a --tune=b --tune", Encoder::Aom);
    assert_eq!(params.iter().filter(|p| p.as_str() == "--tune").count(), 1);
}
