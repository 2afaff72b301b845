use distract_engine::export::{
    asset_frames, contact_sheet, frame_stem, frame_stems, render_gallery, render_svg, sheet_grid,
    sheet_slots, sorted_states, AssetFrames, SCRIPT_BLOCK, STYLE_BLOCK,
};
use distract_engine::parity::SpriteSet;
use distract_engine::raster::Image;

fn solid(width: u32, height: u32, rgba: [u8; 4]) -> Image {
    let mut pixels = Vec::new();
    for _ in 0..(width * height) {
        pixels.extend_from_slice(&rgba);
    }
    Image::from_raw(width, height, pixels).unwrap()
}

fn layout(entries: &[(&str, &[usize])]) -> Vec<(String, Vec<usize>)> {
    entries
        .iter()
        .map(|(name, indices)| (name.to_string(), indices.to_vec()))
        .collect()
}

#[test]
fn svg_draws_one_square_per_visible_pixel() {
    let pixels: Vec<u8> = vec![
        255, 0, 0, 255, 0, 0, 0, 0, //
        1, 2, 3, 128, 9, 8, 7, 1,
    ];
    let frame = Image::from_raw(2, 2, pixels).unwrap();
    let expected = r#"<svg xmlns="http://www.w3.org/2000/svg" viewBox="0 0 2 2" shape-rendering="crispEdges">
<rect x="0" y="0" width="1" height="1" fill="rgba(255,0,0,1.000)"/>
<rect x="0" y="1" width="1" height="1" fill="rgba(1,2,3,0.502)"/>
<rect x="1" y="1" width="1" height="1" fill="rgba(9,8,7,0.004)"/>
</svg>
"#;
    assert_eq!(render_svg(&frame, 2, 2), expected);
}

#[test]
fn svg_opacity_matches_three_decimal_formatting() {
    for alpha in 1..=255u8 {
        let frame = solid(1, 1, [0, 0, 0, alpha]);
        let svg = render_svg(&frame, 1, 1);
        let wanted = format!("rgba(0,0,0,{:.3})", alpha as f32 / 255.0);
        assert!(svg.contains(&wanted), "alpha {} gave {}", alpha, svg);
    }
}

#[test]
fn svg_of_a_clear_frame_has_only_the_frame() {
    let frame = solid(3, 1, [5, 5, 5, 0]);
    assert_eq!(
        render_svg(&frame, 3, 1),
        "<svg xmlns=\"http://www.w3.org/2000/svg\" viewBox=\"0 0 3 1\" shape-rendering=\"crispEdges\">\n</svg>\n"
    );
}

#[test]
fn states_are_listed_by_first_frame_and_ties_keep_their_order() {
    let states = layout(&[("walk", &[4, 5]), ("idle", &[0, 1]), ("run", &[4]), ("sleep", &[2])]);
    let sorted = sorted_states(&states);
    let names: Vec<&str> = sorted.iter().map(|(name, _)| name.as_str()).collect();
    assert_eq!(names, vec!["idle", "sleep", "walk", "run"]);
    assert_eq!(sorted[2].1, vec![4, 5]);
}

#[test]
fn sheet_is_eight_frames_wide_at_most() {
    assert_eq!(sheet_grid(1), (1, 1));
    assert_eq!(sheet_grid(5), (5, 1));
    assert_eq!(sheet_grid(8), (8, 1));
    assert_eq!(sheet_grid(9), (8, 2));
    assert_eq!(sheet_grid(20), (8, 3));
}

#[test]
fn sheet_slots_follow_the_states_in_turn() {
    let sorted = layout(&[("idle", &[0, 1]), ("walk", &[2, 3, 4])]);
    assert_eq!(sheet_slots(&sorted), vec![0, 1, 2, 3, 4]);
}

#[test]
fn frame_files_are_named_by_state_and_place() {
    assert_eq!(frame_stem("idle", 0), "idle_0");
    assert_eq!(frame_stem("walk", 12), "walk_12");
    let stems = frame_stems(&layout(&[("idle", &[3, 4]), ("run", &[7])]));
    assert_eq!(stems.len(), 2);
    assert_eq!(stems[0].0, "idle");
    assert_eq!(stems[0].1, vec!["idle_0".to_string(), "idle_1".to_string()]);
    assert_eq!(stems[1].1, vec!["run_0".to_string()]);
}

#[test]
fn contact_sheet_enlarges_each_frame_into_its_cell() {
    let red = [200, 10, 20, 255];
    let blue = [5, 15, 250, 255];
    let set = SpriteSet {
        frames: vec![solid(1, 1, red), solid(1, 1, blue)],
        layout: layout(&[("blue", &[1]), ("red", &[0])]),
        width: 1,
        height: 1,
    };
    let sorted = sorted_states(&set.layout);
    let sheet = contact_sheet(&set, &sorted);
    assert_eq!((sheet.width(), sheet.height()), (16, 8));
    assert_eq!(sheet.get_pixel(0, 0), red);
    assert_eq!(sheet.get_pixel(7, 7), red);
    assert_eq!(sheet.get_pixel(8, 0), blue);
    assert_eq!(sheet.get_pixel(15, 7), blue);
}

fn expected_panel(index: usize, name: &str, states: &[(&str, usize)]) -> String {
    let hidden = if index == 0 { "" } else { " hidden" };
    let groups: Vec<String> = states
        .iter()
        .map(|(state, count)| {
            let cells: String = (0..*count)
                .map(|offset| {
                    format!(
                        "<div class=\"frame-cell\" data-asset=\"{n}\" data-state=\"{s}\" data-frame=\"{o}\">\n<img src=\"{n}/svg/{s}_{o}.svg\" alt=\"{n} {s} frame {o}\">\n<span class=\"frame-label\">#{o}</span>\n</div>",
                        n = name,
                        s = state,
                        o = offset
                    )
                })
                .collect();
            format!(
                "<div class=\"state-group\">\n<h3>{}</h3>\n<div class=\"frame-grid\">{}</div>\n</div>",
                state, cells
            )
        })
        .collect();
    format!(
        r#"<section class="panel{}" data-asset="{}">
<div class="controls">
<button class="btn-play" data-playing="false">&#9654; Play</button>
<button class="btn-step">Step &raquo;</button>
<select class="speed-select">
<option value="0.5">0.5x</option>
<option value="1" selected>1x</option>
<option value="2">2x</option>
</select>
</div>
<div class="preview-strip" data-asset="{}"></div>
{}</section>"#,
        hidden,
        name,
        name,
        groups.join("\n")
    )
}

#[test]
fn gallery_has_a_tab_and_a_panel_per_asset() {
    let cat = SpriteSet {
        frames: vec![solid(1, 1, [1, 1, 1, 255]); 3],
        layout: layout(&[("walk", &[1, 2]), ("idle", &[0])]),
        width: 1,
        height: 1,
    };
    let sun = SpriteSet {
        frames: vec![solid(1, 1, [9, 9, 9, 255])],
        layout: layout(&[("shine", &[0])]),
        width: 1,
        height: 1,
    };
    let assets: Vec<AssetFrames> = vec![asset_frames("cat", &cat), asset_frames("sun", &sun)];
    let page = render_gallery(&assets, "{\"cat\":{}}");
    let tabs = "<button class=\"tab active\" data-asset=\"cat\">cat</button>\n<button class=\"tab\" data-asset=\"sun\">sun</button>";
    let panels = format!(
        "{}\n{}",
        expected_panel(0, "cat", &[("idle", 1), ("walk", 2)]),
        expected_panel(1, "sun", &[("shine", 1)])
    );
    let expected = format!(
        "<!DOCTYPE html>\n<html lang=\"en\">\n<head>\n<meta charset=\"utf-8\">\n<meta name=\"viewport\" content=\"width=device-width, initial-scale=1\">\n<title>distract.nvim Sprite Gallery</title>\n{}\n</head>\n<body>\n<header>\n<h1>distract.nvim Sprite Gallery</h1>\n<p class=\"subtitle\">Procedurally generated assets &mdash; all states and frames</p>\n</header>\n<nav id=\"tabs\">{}</nav>\n<main id=\"panels\">{}</main>\n<script>\nconst MANIFEST = {};\n{}\n</script>\n</body>\n</html>\n",
        STYLE_BLOCK, tabs, panels, "{\"cat\":{}}", SCRIPT_BLOCK
    );
    assert_eq!(page, expected);
}
