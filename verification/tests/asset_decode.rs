use distract_engine::asset_decode::{
    check_budget, check_dimensions, declared_frame_size, flip_image_horizontal, resample_gif_frame,
    slice_spritesheet,
    GifFrames, SpritesheetConfig, MAX_FRAMES,
};
use distract_engine::raster::Image;

fn sheet_with(frame_width: Option<u32>, frame_height: Option<u32>) -> SpritesheetConfig {
    SpritesheetConfig {
        frame_width,
        frame_height,
        ..SpritesheetConfig::default()
    }
}

#[test]
fn a_frame_needs_two_sides_and_neither_over_the_limit() {
    assert_eq!(
        check_dimensions(0, 4, "GIF"),
        Err("GIF has a zero dimension (0x4)".to_string())
    );
    assert_eq!(
        check_dimensions(2000, 4, "spritesheet frame"),
        Err(
            "spritesheet frame is 2000x4, over the 1024px per-side limit. Scale the asset down before using it."
                .to_string()
        )
    );
    assert_eq!(check_dimensions(1024, 1024, "GIF"), Ok(()));
}

#[test]
fn the_budget_counts_frames_and_bytes() {
    assert_eq!(
        check_budget(MAX_FRAMES + 1, 1, 1),
        Err("asset has more than 512 frames; refusing to decode the rest".to_string())
    );
    assert_eq!(
        check_budget(512, 1024, 1024),
        Err("asset would decode to 2048 MiB, over the 256 MiB limit".to_string())
    );
    assert_eq!(check_budget(64, 1024, 1024), Ok(()));
    assert!(check_budget(65, 1024, 1024).is_err());
}

#[test]
fn only_a_complete_declared_size_counts() {
    assert_eq!(declared_frame_size(&sheet_with(Some(8), Some(6))), Some((8, 6)));
    assert_eq!(declared_frame_size(&sheet_with(Some(8), None)), None);
}

fn striped(width: u32, height: u32) -> Image {
    let mut image = Image::new(width, height);
    for y in 0..height {
        for x in 0..width {
            image.put_pixel(x, y, [x as u8, y as u8, 0, 255]);
        }
    }
    image
}

#[test]
fn a_declared_grid_is_cut_into_its_cells() {
    let config = SpritesheetConfig {
        frame_width: Some(2),
        frame_height: Some(2),
        ..SpritesheetConfig::default()
    };
    let (frames, fw, fh) = slice_spritesheet(&striped(4, 4), &config, "s.png").expect("slice");
    assert_eq!((fw, fh), (2, 2));
    assert_eq!(frames.len(), 4);
    assert_eq!(frames[1].get_pixel(0, 0), [2, 0, 0, 255]);
    assert_eq!(frames[2].get_pixel(1, 1), [1, 3, 0, 255]);
}

#[test]
fn with_nothing_declared_a_sheet_is_four_frames_across() {
    let (frames, fw, fh) =
        slice_spritesheet(&striped(8, 3), &SpritesheetConfig::default(), "s.png").expect("slice");
    assert_eq!((fw, fh), (2, 3));
    assert_eq!(frames.len(), 4);
    assert_eq!(frames[3].get_pixel(0, 0), [6, 0, 0, 255]);
}

#[test]
fn margins_and_spacing_move_the_cells() {
    let config = SpritesheetConfig {
        frame_width: Some(2),
        frame_height: Some(2),
        margin_x: Some(1),
        spacing_x: Some(1),
        ..SpritesheetConfig::default()
    };
    let (frames, _, _) = slice_spritesheet(&striped(7, 2), &config, "s.png").expect("slice");
    assert_eq!(frames.len(), 2);
    assert_eq!(frames[0].get_pixel(0, 0), [1, 0, 0, 255]);
    assert_eq!(frames[1].get_pixel(0, 0), [4, 0, 0, 255]);
}

#[test]
fn a_sheet_too_small_for_its_grid_is_refused() {
    let config = SpritesheetConfig {
        frame_width: Some(8),
        frame_height: Some(8),
        columns: Some(1),
        rows: Some(1),
        ..SpritesheetConfig::default()
    };
    assert_eq!(
        slice_spritesheet(&striped(4, 4), &config, "s.png").err(),
        Some("spritesheet 's.png' is 4x4, too small for a 1x1 grid of 8x8 frames".to_string())
    );
}

#[test]
fn a_gif_canvas_over_the_source_limit_is_refused() {
    assert_eq!(
        resample_gif_frame(Image::new(5000, 1), None).err(),
        Some("GIF is 5000x1, over the 4096px source limit".to_string())
    );
}

#[test]
fn a_gif_frame_is_kept_when_it_already_has_the_declared_size() {
    let frame = striped(3, 2);
    let kept = resample_gif_frame(frame.clone(), Some((3, 2))).expect("kept");
    assert_eq!(kept, frame);
    let undeclared = resample_gif_frame(frame.clone(), None).expect("kept");
    assert_eq!(undeclared, frame);
}

#[test]
fn a_gif_frame_is_resampled_to_the_declared_size() {
    let resized = resample_gif_frame(striped(8, 8), Some((4, 2))).expect("resampled");
    assert_eq!((resized.width(), resized.height()), (4, 2));
    assert_eq!(
        resample_gif_frame(striped(8, 8), Some((0, 2))).err(),
        Some("declared GIF frame has a zero dimension (0x2)".to_string())
    );
}

#[test]
fn gif_frames_must_agree_on_their_size() {
    let mut frames = GifFrames::new(None);
    assert_eq!(frames.push_frame(striped(2, 2), 100, 1), Ok(()));
    assert_eq!(
        frames.push_frame(striped(3, 2), 100, 1),
        Err("GIF frame 1 is 3x2 but frame 0 is 2x2; frames must agree".to_string())
    );
}

#[test]
fn a_gif_keeps_its_frames_and_their_delays() {
    let mut frames = GifFrames::new(None);
    assert_eq!(frames.push_frame(striped(2, 2), 100, 1), Ok(()));
    assert_eq!(frames.push_frame(striped(2, 2), 7, 0), Ok(()));
    let gif = frames.finish("a.gif").expect("frames");
    assert_eq!((gif.width, gif.height), (2, 2));
    assert_eq!(gif.delays_ms, vec![100, 0]);
    assert_eq!(gif.frames.len(), 2);
}

#[test]
fn an_empty_gif_is_refused() {
    let frames = GifFrames::new(None);
    assert_eq!(
        frames.finish("a.gif").err().map(|e| e),
        Some("GIF 'a.gif' contains no frames".to_string())
    );
}

#[test]
fn flipping_mirrors_each_row_and_keeps_the_size() {
    let pixels: Vec<u8> = vec![
        1, 2, 3, 4, 5, 6, 7, 8, 9, 10, 11, 12, //
        13, 14, 15, 16, 17, 18, 19, 20, 21, 22, 23, 24,
    ];
    let image = Image::from_raw(3, 2, pixels).unwrap();
    let flipped = flip_image_horizontal(&image);
    assert_eq!((flipped.width(), flipped.height()), (3, 2));
    assert_eq!(
        flipped.as_raw(),
        &vec![
            9, 10, 11, 12, 5, 6, 7, 8, 1, 2, 3, 4, //
            21, 22, 23, 24, 17, 18, 19, 20, 13, 14, 15, 16,
        ]
    );
    let back = flip_image_horizontal(&flipped);
    assert_eq!(back.as_raw(), image.as_raw());
}
