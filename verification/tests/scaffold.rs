use distract_engine::importer::parse_args_from;
use distract_engine::scaffold::{
    build_manifest_text, default_state, parse_states_arg, render_manifest, ManifestParams,
    SheetLayout, StateSpec,
};

#[test]
fn parse_states_arg_reads_one_or_more_ranges() {
    let states = parse_states_arg("walk:0-31,idle:32-35", 36).expect("parse");
    assert_eq!(states.len(), 2);
    assert_eq!(states[0].name, "walk");
    assert_eq!(states[0].start, 0);
    assert_eq!(states[0].end, 31);
    assert_eq!(states[1].name, "idle");
}

#[test]
fn parse_states_arg_rejects_a_range_past_the_frame_count() {
    assert!(parse_states_arg("walk:0-99", 10).is_err());
}

#[test]
fn default_state_covers_every_frame() {
    let states = default_state(5);
    assert_eq!(states.len(), 1);
    assert_eq!(states[0].name, "default");
    assert_eq!((states[0].start, states[0].end), (0, 4));
}

#[test]
fn a_state_range_refusal_names_the_state_and_the_frame_count() {
    assert_eq!(
        parse_states_arg("walk:0-99", 10).err(),
        Some("state 'walk' range 0-99 is out of bounds for 10 frames".to_string())
    );
    assert_eq!(
        parse_states_arg("walk:5-2", 10).err(),
        Some("state 'walk' range 5-2 is out of bounds for 10 frames".to_string())
    );
}

#[test]
fn each_malformed_entry_gets_its_own_refusal() {
    assert_eq!(
        parse_states_arg("walk", 10).err(),
        Some("'walk' is not name:start-end".to_string())
    );
    assert_eq!(
        parse_states_arg("walk:3", 10).err(),
        Some("'3' is not start-end".to_string())
    );
    assert_eq!(
        parse_states_arg("walk:x-3", 10).err(),
        Some("'x' is not a number".to_string())
    );
    assert_eq!(
        parse_states_arg("walk:1-y", 10).err(),
        Some("'y' is not a number".to_string())
    );
}

#[test]
fn entries_are_trimmed() {
    let states = parse_states_arg(" walk : 0 - 1 , idle:2-2", 3).expect("parse");
    assert_eq!(states.len(), 2);
    assert_eq!(states[0].name, "walk ");
    assert_eq!((states[0].start, states[0].end), (0, 1));
    assert_eq!((states[1].start, states[1].end), (2, 2));
}

#[test]
fn a_sheet_with_no_frames_still_gets_one_state() {
    let states = default_state(0);
    assert_eq!((states[0].start, states[0].end), (0, 0));
}

#[test]
fn the_scaffold_names_the_sheet_and_plays_each_state() {
    let states = vec![
        StateSpec {
            name: "walk".to_string(),
            start: 0,
            end: 2,
        },
        StateSpec {
            name: "idle".to_string(),
            start: 3,
            end: 3,
        },
    ];
    let params = ManifestParams {
        name: "pet",
        sheet_path: "out/pet_sheet.png",
        native_path: "out/pet_frames.rgba",
        frame_width: 24,
        frame_height: 16,
        columns: 4,
        rows: 1,
        states: &states,
        fps: "12.0",
    };
    let text = render_manifest(&params);
    let expected = "local M = {
  name = \"pet\",
  asset_type = \"sprite\",
  spritesheet = {
    path = \"out/pet_sheet.png\",
    native_path = \"out/pet_frames.rgba\",
    frame_width = 24,
    frame_height = 16,
    columns = 4,
    rows = 1,
  },
  anchor = \"bottom\",
  initial_state = \"walk\",
  locomotion = \"grounded\",
  capabilities = { locomotion = { \"grounded\" } },
  states = {
    walk = {
      animation = { frames = { 0, 1, 2 }, fps = 12.0, loop_anim = true, flip_x = false },
      physics = { target_vx = 2.0, target_vy = 0.0, wrap_mode = \"wrap\" }, -- placeholder: tune per asset
      transitions = { on_event = {} },
    },
    idle = {
      animation = { frames = { 3 }, fps = 12.0, loop_anim = true, flip_x = false },
      physics = { target_vx = 2.0, target_vy = 0.0, wrap_mode = \"wrap\" }, -- placeholder: tune per asset
      transitions = { on_event = {} },
    },
  },
}

return M
";
    assert_eq!(text, expected);
}

#[test]
fn an_import_without_states_gets_one_default_state() {
    let args = parse_args_from(vec![
        "--gif".to_string(),
        "pet.gif".to_string(),
        "--name".to_string(),
        "pet".to_string(),
    ])
    .unwrap();
    let layout = SheetLayout {
        frame_width: 8,
        frame_height: 8,
        frame_count: 3,
        columns: 3,
        rows: 1,
        sheet_path_text: "a.png".to_string(),
        native_path_text: "a.rgba".to_string(),
    };
    let text = build_manifest_text(&args, &layout, "10.0").unwrap();
    assert!(text.contains("initial_state = \"default\""));
    assert!(text.contains("frames = { 0, 1, 2 }, fps = 10.0"));
}

#[test]
fn a_bad_states_flag_stops_the_scaffold() {
    let args = parse_args_from(vec![
        "--gif".to_string(),
        "pet.gif".to_string(),
        "--name".to_string(),
        "pet".to_string(),
        "--states".to_string(),
        "walk:0-9".to_string(),
    ])
    .unwrap();
    let layout = SheetLayout {
        frame_width: 8,
        frame_height: 8,
        frame_count: 3,
        columns: 3,
        rows: 1,
        sheet_path_text: "a.png".to_string(),
        native_path_text: "a.rgba".to_string(),
    };
    assert_eq!(
        build_manifest_text(&args, &layout, "10.0").unwrap_err(),
        "state 'walk' range 0-9 is out of bounds for 3 frames"
    );
}

#[test]
fn render_manifest_includes_every_state_and_the_native_path() {
    let states = vec![StateSpec {
        name: "walk".to_string(),
        start: 0,
        end: 1,
    }];
    let fps = format!("{:.1}", 12.0f32);
    let params = ManifestParams {
        name: "cat_walking",
        sheet_path: "assets/cat_walking/cat_walking_sheet.png",
        native_path: "assets/cat_walking/cat_walking_frames.rgba",
        frame_width: 128,
        frame_height: 72,
        columns: 8,
        rows: 4,
        states: &states,
        fps: &fps,
    };

    let manifest = render_manifest(&params);

    assert!(manifest.contains("name = \"cat_walking\""));
    assert!(manifest.contains("native_path = \"assets/cat_walking/cat_walking_frames.rgba\""));
    assert!(manifest.contains("walk = {"));
    assert!(manifest.contains("frames = { 0, 1 }"));
    assert!(manifest.contains("initial_state = \"walk\""));
}
