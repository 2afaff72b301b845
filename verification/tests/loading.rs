use std::io::Cursor;

use distract_engine::asset_cache::AssetCache;
use distract_engine::asset_decode::{load_asset_file, missing_file_error};
use distract_engine::redraw::{redraw_step, LoopAction, LoopEvent, RenderOutcome};
use distract_engine::asset_decode::{
    check_budget, decode_frames, decode_gif_frames, load_gif, load_spritesheet, loader_for,
    Loader, SpritesheetConfig,
};
use distract_engine::manifest::CustomActionConfig;
use distract_engine::state_machine::{event_transitions, plan_action, EntityKey};
use image::codecs::gif::GifEncoder;
use image::{Delay, Frame, ImageOutputFormat, Rgba, RgbaImage};

fn png_bytes(width: u32, height: u32, colour: [u8; 4]) -> Vec<u8> {
    let image = RgbaImage::from_pixel(width, height, Rgba(colour));
    let mut bytes = Cursor::new(Vec::new());
    image.write_to(&mut bytes, ImageOutputFormat::Png).unwrap();
    bytes.into_inner()
}

fn gif_bytes(frames: &[([u8; 4], u32)], width: u32, height: u32) -> Vec<u8> {
    let mut bytes = Vec::new();
    {
        let mut encoder = GifEncoder::new(&mut bytes);
        for (colour, ms) in frames {
            let image = RgbaImage::from_pixel(width, height, Rgba(*colour));
            encoder
                .encode_frame(Frame::from_parts(image, 0, 0, Delay::from_numer_denom_ms(*ms, 1)))
                .unwrap();
        }
    }
    bytes
}

#[test]
fn a_gif_path_is_chosen_whatever_its_case() {
    assert!(matches!(loader_for("assets/Cat.GIF"), Loader::Gif));
    assert!(matches!(loader_for("a.gif"), Loader::Gif));
    assert!(matches!(loader_for("cat.png"), Loader::Spritesheet));
    assert!(matches!(loader_for("gif"), Loader::Spritesheet));
}

#[test]
fn a_spritesheet_file_is_decoded_then_sliced() {
    let bytes = png_bytes(8, 4, [10, 20, 30, 255]);
    let sheet = SpritesheetConfig {
        frame_width: Some(4),
        frame_height: Some(4),
        ..SpritesheetConfig::default()
    };
    let (frames, fw, fh) = load_spritesheet(&bytes, "sheet.png", &sheet).unwrap().unwrap();
    assert_eq!((frames.len(), fw, fh), (2, 4, 4));
    assert_eq!(frames[1].get_pixel(3, 3), [10, 20, 30, 255]);
}

#[test]
fn bytes_that_are_no_image_are_refused_naming_the_file() {
    let error = load_spritesheet(b"not a png", "sheet.png", &SpritesheetConfig::default())
        .unwrap()
        .unwrap_err();
    assert!(error.starts_with("Could not decode 'sheet.png': "), "{error}");
}

#[test]
fn a_gif_loads_frame_by_frame_with_its_delays() {
    let bytes = gif_bytes(&[([255, 0, 0, 255], 100), ([0, 0, 255, 255], 50)], 4, 3);
    let gif = load_gif(&bytes, "cat.gif", None).unwrap().unwrap();
    assert_eq!((gif.width, gif.height), (4, 3));
    assert_eq!(gif.frames.len(), 2);
    assert_eq!(gif.delays_ms, vec![100, 50]);
    assert_eq!(gif.frames[1].get_pixel(0, 0), [0, 0, 255, 255]);
}

#[test]
fn a_gif_is_resampled_to_its_declared_frame_size() {
    let bytes = gif_bytes(&[([9, 9, 9, 255], 100)], 8, 8);
    let gif = load_gif(&bytes, "cat.gif", Some((4, 2))).unwrap().unwrap();
    assert_eq!((gif.width, gif.height), (4, 2));
    assert_eq!(gif.frames[0].get_pixel(1, 1), [9, 9, 9, 255]);
}

#[test]
fn bytes_that_are_no_gif_are_refused() {
    let error = load_gif(b"GIF? no", "cat.gif", None).unwrap().unwrap_err();
    assert!(error.starts_with("Could not decode 'cat.gif' as a GIF: "), "{error}");
    let error = decode_gif_frames(b"nothing", "in.gif").unwrap_err();
    assert!(error.starts_with("in.gif: "), "{error}");
}

#[test]
fn the_importer_reads_every_gif_frame_with_its_delay() {
    let bytes = gif_bytes(&[([1, 2, 3, 255], 40), ([4, 5, 6, 255], 60)], 2, 2);
    let frames = decode_gif_frames(&bytes, "in.gif").unwrap();
    assert_eq!(frames.len(), 2);
    assert_eq!(frames[0].1, 40);
    assert_eq!(frames[1].1, 60);
}

#[test]
fn folder_frames_come_in_name_order() {
    let files = vec![
        ("dir/b.png".to_string(), png_bytes(1, 1, [2, 2, 2, 255])),
        ("dir/a.png".to_string(), png_bytes(1, 1, [1, 1, 1, 255])),
    ];
    let frames = decode_frames("dir", &files).unwrap();
    assert_eq!(frames[0].get_pixel(0, 0), [1, 1, 1, 255]);
    assert_eq!(frames[1].get_pixel(0, 0), [2, 2, 2, 255]);
    assert_eq!(decode_frames("dir", &Vec::new()).unwrap_err(), "dir: no PNG frames found");
    let broken = vec![("dir/a.png".to_string(), b"junk".to_vec())];
    assert!(decode_frames("dir", &broken).unwrap_err().starts_with("dir/a.png: "));
}

#[test]
fn a_budget_past_any_u64_is_refused_not_overflowed() {
    assert_eq!(
        check_budget(512, u32::MAX, u32::MAX),
        Err("asset would decode to 36028797002186752 MiB, over the 256 MiB limit".to_string())
    );
}

#[test]
fn an_unchanged_manifest_is_not_loaded_twice() {
    let mut cache = AssetCache::new();
    assert!(cache.needs_reload("cat", 7));
    cache.loaded("cat", 7);
    assert_eq!(cache.generation(), 1);
    assert!(!cache.needs_reload("cat", 7));
    assert!(cache.needs_reload("cat", 8));
    assert!(cache.needs_reload("crab", 7));
    cache.loaded("cat", 8);
    assert_eq!(cache.generation(), 2);
    assert!(!cache.needs_reload("cat", 8));
}

fn entity(id: usize, asset: &str, state: &str, locked: bool) -> EntityKey {
    EntityKey {
        id,
        asset_name: asset.to_string(),
        state: state.to_string(),
        locked,
    }
}

fn jump(target: &str, is_locked: Option<bool>) -> CustomActionConfig {
    CustomActionConfig {
        target_state: target.to_string(),
        duration_ms: None,
        return_state: None,
        is_locked,
    }
}

#[test]
fn an_action_reaches_the_entities_it_names() {
    let entities = vec![entity(1, "cat", "idle", false), entity(2, "crab", "idle", false), entity(3, "cat", "walk", false)];
    let actions = vec![
        ("cat".to_string(), vec![("jump".to_string(), jump("jump", None))]),
        ("crab".to_string(), vec![("dig".to_string(), jump("burrow", Some(false)))]),
    ];
    let all = plan_action(&entities, &actions, None, None, "jump").unwrap();
    let ids: Vec<usize> = all.iter().map(|t| t.id).collect();
    assert_eq!(ids, vec![1, 3]);
    assert!(all[0].locked);
    assert_eq!(all[0].target_state, "jump");
    let one = plan_action(&entities, &actions, Some(3), Some("crab"), "jump").unwrap();
    assert_eq!(one.len(), 1);
    assert_eq!(one[0].id, 3);
    let dig = plan_action(&entities, &actions, None, Some("crab"), "dig").unwrap();
    assert_eq!((dig[0].id, dig[0].locked), (2, false));
    assert_eq!(
        plan_action(&entities, &actions, None, Some("crab"), "jump").unwrap_err(),
        "Action 'jump' not found or matched no active entities"
    );
}

#[test]
fn an_event_moves_every_free_entity_whose_state_names_it() {
    let entities = vec![entity(1, "cat", "idle", false), entity(2, "cat", "idle", true), entity(3, "cat", "walk", false)];
    let transitions = vec![(
        "cat".to_string(),
        vec![
            ("idle".to_string(), vec![("typing".to_string(), "walk_fast".to_string())]),
            ("walk".to_string(), vec![("typing".to_string(), "walk".to_string())]),
        ],
    )];
    let moves = event_transitions(&entities, &transitions, "typing");
    assert_eq!(moves, vec![(1, "walk_fast".to_string(), true), (3, "walk".to_string(), false)]);
    assert!(event_transitions(&entities, &transitions, "scrolling").is_empty());
}

#[test]
fn an_asset_file_is_read_by_its_extension() {
    let sheet = SpritesheetConfig {
        frame_width: Some(2),
        frame_height: Some(2),
        ..SpritesheetConfig::default()
    };
    let gif = gif_bytes(&[([7, 7, 7, 255], 30)], 2, 2);
    let loaded = load_asset_file(&gif, "pets/Cat.Gif", &sheet).unwrap().unwrap();
    assert_eq!((loaded.width, loaded.height, loaded.delays_ms.clone()), (2, 2, vec![30]));
    let png = png_bytes(4, 2, [1, 1, 1, 255]);
    let loaded = load_asset_file(&png, "pets/cat.png", &sheet).unwrap().unwrap();
    assert_eq!((loaded.frames.len(), loaded.width, loaded.height), (2, 2, 2));
    assert!(loaded.delays_ms.is_empty());
}

#[test]
fn a_missing_file_is_an_error_only_without_a_fallback() {
    assert_eq!(
        missing_file_error("a.png", "spritesheet", false),
        Some("Spritesheet file not found at path 'a.png'".to_string())
    );
    assert_eq!(missing_file_error("a.png", "procedural", false), None);
    assert_eq!(missing_file_error("a.png", "spritesheet", true), None);
}

#[test]
fn an_idle_overlay_asks_for_no_frames() {
    let (wanted, action) = redraw_step(true, LoopEvent::Rendered(RenderOutcome::Presented));
    assert!(!wanted && matches!(action, LoopAction::Nothing));
    let idle = LoopEvent::Tick { due: true, despawned: 0, quiescent: true };
    let (wanted, action) = redraw_step(wanted, idle);
    assert!(!wanted && matches!(action, LoopAction::Nothing));
    let (wanted, _) = redraw_step(false, LoopEvent::Command);
    assert!(wanted);
    let (_, action) = redraw_step(wanted, LoopEvent::Tick { due: true, despawned: 0, quiescent: true });
    assert!(matches!(action, LoopAction::RequestRedraw));
    let (_, action) = redraw_step(false, LoopEvent::Tick { due: true, despawned: 0, quiescent: false });
    assert!(matches!(action, LoopAction::RequestRedraw));
    let (wanted, action) = redraw_step(false, LoopEvent::Rendered(RenderOutcome::SurfaceStale));
    assert!(wanted && matches!(action, LoopAction::Reconfigure));
    let (wanted, action) = redraw_step(true, LoopEvent::Rendered(RenderOutcome::OutOfMemory));
    assert!(!wanted && matches!(action, LoopAction::Exit));
}
