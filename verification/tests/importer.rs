use distract_engine::importer::{
    parse_args_from, parse_cell, parse_row_counts, validate_source_choice, Args, DEFAULT_BG_TOLERANCE,
};
use distract_engine::text::float_text;

fn args(flags: &[&str]) -> Vec<String> {
    flags.iter().map(|flag| flag.to_string()).collect()
}

#[test]
fn requires_exactly_one_of_gif_or_frames() {
    let neither = parse_args_from(args(&["--name", "x"]));
    assert!(neither.is_err());

    let both = parse_args_from(args(&["--gif", "a.gif", "--frames", "dir", "--name", "x"]));
    assert!(both.is_err());
}

#[test]
fn a_spritesheet_source_counts_as_the_one_source_and_needs_its_grid() {
    let without_grid = parse_args_from(args(&["--spritesheet", "atlas.webp", "--name", "x"]));
    assert!(without_grid.is_err());

    let with_grid = parse_args_from(args(&[
        "--spritesheet",
        "atlas.webp",
        "--cell",
        "192x208",
        "--row-counts",
        "7,8,8",
        "--name",
        "dog",
    ]))
    .expect("parse");
    assert_eq!(with_grid.cell, Some((192, 208)));
    assert_eq!(with_grid.row_counts, Some(vec![7, 8, 8]));

    let alongside_gif = parse_args_from(args(&[
        "--gif",
        "a.gif",
        "--spritesheet",
        "atlas.webp",
        "--cell",
        "1x1",
        "--row-counts",
        "1",
        "--name",
        "x",
    ]));
    assert!(alongside_gif.is_err());
}

#[test]
fn a_grid_flag_without_a_spritesheet_is_rejected() {
    let result = parse_args_from(args(&["--gif", "a.gif", "--cell", "8x8", "--name", "x"]));
    assert!(result.is_err());
}

#[test]
fn malformed_grid_flags_are_rejected() {
    assert!(parse_cell("192-208").is_err());
    assert!(parse_cell("192xwide").is_err());
    assert!(parse_row_counts("7,eight").is_err());
    assert_eq!(parse_cell("192x208"), Ok((192, 208)));
    assert_eq!(parse_row_counts(" 7 , 8 "), Ok(vec![7, 8]));
}

#[test]
fn defaults_out_and_manifest_out_from_name() {
    let parsed = parse_args_from(args(&["--gif", "a.gif", "--name", "cat_walking"])).expect("parse");
    assert_eq!(parsed.out, "assets/cat_walking");
    assert_eq!(parsed.manifest_out, "lua/distract/manifests/cat_walking.lua");
    assert_eq!(parsed.bg_tolerance, DEFAULT_BG_TOLERANCE);
    assert_eq!(parsed.bg_tolerance.parse::<f32>(), Ok(0.12));
}

#[test]
fn explicit_flags_override_defaults() {
    let parsed = parse_args_from(args(&[
        "--frames",
        "dir",
        "--name",
        "x",
        "--out",
        "/tmp/out",
        "--manifest-out",
        "/tmp/x.lua",
        "--bg-tolerance",
        "0.2",
    ]))
    .expect("parse");
    assert_eq!(parsed.out, "/tmp/out");
    assert_eq!(parsed.manifest_out, "/tmp/x.lua");
    assert_eq!(parsed.bg_tolerance.parse::<f32>(), Ok(0.2));
}

#[test]
fn the_refusals_say_what_is_wrong() {
    assert_eq!(parse_cell("192-208"), Err("--cell '192-208' is not WxH".to_string()));
    assert_eq!(
        parse_cell("192xwide"),
        Err("--cell height 'wide' is not a number".to_string())
    );
    assert_eq!(
        parse_cell(" ax4"),
        Err("--cell width ' a' is not a number".to_string())
    );
    assert_eq!(
        parse_row_counts("7,eight"),
        Err("--row-counts entry 'eight' is not a number".to_string())
    );
    assert_eq!(
        parse_args_from(args(&["--wobble"])).err(),
        Some("unknown flag '--wobble'".to_string())
    );
    assert_eq!(
        parse_args_from(args(&["--gif"])).err(),
        Some("--gif needs a value".to_string())
    );
    assert_eq!(
        parse_args_from(args(&["--gif", "a.gif"])).err(),
        Some("--name is required".to_string())
    );
    assert_eq!(
        parse_args_from(args(&["--name", "x"])).err(),
        Some("exactly one of --gif, --frames or --spritesheet is required".to_string())
    );
    assert_eq!(
        parse_args_from(args(&["--spritesheet", "s.png", "--cell", "4x4", "--name", "x"])).err(),
        Some("--spritesheet needs both --cell and --row-counts".to_string())
    );
    assert_eq!(
        parse_args_from(args(&["--gif", "a.gif", "--row-counts", "1", "--name", "x"])).err(),
        Some("--cell and --row-counts only apply to --spritesheet".to_string())
    );
}

#[test]
fn a_later_flag_replaces_an_earlier_one() {
    let parsed = parse_args_from(args(&["--gif", "a.gif", "--gif", "b.gif", "--name", "x", "--name", "y"]))
        .expect("parse");
    assert_eq!(parsed.gif, Some("b.gif".to_string()));
    assert_eq!(parsed.name, "y");
    assert_eq!(parsed.out, "assets/y");
}

#[test]
fn a_cell_value_may_carry_a_plus_sign_and_spaces() {
    assert_eq!(parse_cell(" +3 x 4 "), Ok((3, 4)));
    assert!(parse_cell("4294967296x1").is_err());
    assert_eq!(parse_cell("4294967295x1"), Ok((4294967295, 1)));
}

#[test]
fn validating_a_hand_built_command_line() {
    let args = Args {
        gif: None,
        frames_dir: Some("dir".to_string()),
        spritesheet: None,
        cell: None,
        row_counts: None,
        name: "x".to_string(),
        states: None,
        out: "o".to_string(),
        manifest_out: "m".to_string(),
        bg_tolerance: DEFAULT_BG_TOLERANCE.to_string(),
    };
    assert_eq!(validate_source_choice(&args), Ok(()));
}

#[test]
fn a_tolerance_that_is_no_number_is_refused_where_it_is_read() {
    assert_eq!(
        parse_args_from(args(&["--bg-tolerance", "lots", "--name", "x"])).err(),
        Some("--bg-tolerance needs a number".to_string())
    );
    assert_eq!(
        parse_args_from(args(&["--bg-tolerance", "lots", "--bogus", "1"])).err(),
        Some("--bg-tolerance needs a number".to_string())
    );
}

#[test]
fn tolerance_text_follows_the_float_grammar() {
    for text in [
        "0.12", "1", "1.", ".5", "+3", "-0.0", "1e5", "1E-3", "2.5e+7", "inf", "-Infinity", "NaN",
        "INF",
    ] {
        assert!(float_text(text), "{text}");
        assert!(text.parse::<f32>().is_ok(), "{text}");
    }
    for text in ["", ".", "e5", "1e", "1e+", "0x1", " 1", "1 ", "1.2.3", "++1", "infinit", "nan1", "1_0"] {
        assert!(!float_text(text), "{text}");
        assert!(text.parse::<f32>().is_err(), "{text}");
    }
}
