use distract_engine::atlas::{plan_atlas, try_pack, Atlas, PADDING};
use distract_engine::raster::Image;

/// A frame whose every pixel is distinct, so a misplaced copy shows.
fn frame(width: u32, height: u32, seed: u8) -> Image {
    let mut image = Image::new(width, height);
    for y in 0..height {
        for x in 0..width {
            image.put_pixel(x, y, [seed, x as u8, y as u8, 255]);
        }
    }
    image
}

fn asset(name: &str, width: u32, height: u32, count: u8) -> (String, Vec<Image>) {
    (
        name.to_string(),
        (0..count).map(|i| frame(width, height, i * 10 + 1)).collect(),
    )
}

/// Three pets the size of the built-in ones.
fn pets() -> Vec<(String, Vec<Image>)> {
    vec![
        asset("cat", 24, 16, 6),
        asset("crab", 20, 12, 5),
        asset("sun", 16, 16, 4),
    ]
}

fn uv(atlas: &Atlas, asset: &str, frame: usize, flip_x: bool) -> Option<[f32; 4]> {
    let (w, h) = (atlas.width() as f32, atlas.height() as f32);
    atlas
        .rect(asset, frame, flip_x)
        .map(|r| [r[0] as f32 / w, r[1] as f32 / h, r[2] as f32 / w, r[3] as f32 / h])
}

#[test]
fn packs_every_frame_of_every_builtin() {
    let assets = pets();
    let atlas = Atlas::build(&assets, 8192).unwrap();

    for (name, frames) in assets.iter() {
        let rects = &atlas
            .rects
            .iter()
            .find(|(entry, _)| entry == name)
            .unwrap()
            .1;
        assert_eq!(rects.len(), frames.len(), "{}", name);
    }
}

#[test]
fn every_rect_is_inside_the_atlas_and_has_area() {
    let atlas = Atlas::build(&pets(), 8192).unwrap();

    for (name, rects) in &atlas.rects {
        for (i, r) in rects.iter().enumerate() {
            assert!(r[2] <= atlas.width() && r[3] <= atlas.height(), "{} frame {}", name, i);
            assert!(r[2] > r[0] && r[3] > r[1], "{} frame {} is empty", name, i);
        }
    }
}

#[test]
fn rects_do_not_overlap() {
    let atlas = Atlas::build(&pets(), 8192).unwrap();

    let mut boxes: Vec<[u32; 4]> = Vec::new();
    for (_, rects) in &atlas.rects {
        boxes.extend(rects.iter().copied());
    }
    for i in 0..boxes.len() {
        for j in (i + 1)..boxes.len() {
            let (a, b) = (boxes[i], boxes[j]);
            let overlap = a[0] < b[2] && b[0] < a[2] && a[1] < b[3] && b[1] < a[3];
            assert!(!overlap, "{:?} overlaps {:?}", a, b);
        }
    }
}

#[test]
fn packed_pixels_match_the_source_frame() {
    let assets = pets();
    let atlas = Atlas::build(&assets, 8192).unwrap();
    let cat = &assets[0].1;

    let r = atlas.rect("cat", 3, false).unwrap();
    for y in 0..16 {
        for x in 0..24 {
            assert_eq!(
                atlas.image.get_pixel(r[0] + x, r[1] + y),
                cat[3].get_pixel(x, y),
                "mismatch at {},{}",
                x,
                y
            );
        }
    }
}

#[test]
fn flipping_swaps_the_horizontal_bounds_only() {
    let atlas = Atlas::build(&pets(), 8192).unwrap();

    let normal = uv(&atlas, "cat", 0, false).unwrap();
    let flipped = uv(&atlas, "cat", 0, true).unwrap();
    assert_eq!(flipped[0], normal[2]);
    assert_eq!(flipped[2], normal[0]);
    assert_eq!(flipped[1], normal[1]);
    assert_eq!(flipped[3], normal[3]);
}

#[test]
fn out_of_range_frame_indices_wrap_rather_than_vanish() {
    let assets = pets();
    let atlas = Atlas::build(&assets, 8192).unwrap();
    let n = assets[0].1.len();
    assert_eq!(atlas.rect("cat", n, false), atlas.rect("cat", 0, false));
}

#[test]
fn unknown_asset_has_no_rectangle() {
    let atlas = Atlas::build(&pets(), 8192).unwrap();
    assert!(atlas.rect("no_such_asset", 0, false).is_none());
}

#[test]
fn an_atlas_that_cannot_fit_reports_rather_than_truncating() {
    let err = Atlas::build(&pets(), 32).unwrap_err();
    assert!(err.contains("does not fit"), "unexpected message: {}", err);
    assert_eq!(
        err,
        "sprite atlas does not fit in 32x32px; reduce frame sizes or frame counts"
    );
}

#[test]
fn a_custom_asset_joins_the_atlas() {
    let mut assets = pets();
    assets.push(asset("second_crab", 20, 12, 5));

    let atlas = Atlas::build(&assets, 8192).unwrap();
    assert!(atlas.rect("second_crab", 0, false).is_some());
    assert!(atlas.rect("cat", 0, false).is_some());
}

#[test]
fn no_frames_make_a_single_transparent_pixel() {
    let assets = vec![("empty".to_string(), Vec::new())];
    let atlas = Atlas::build(&assets, 8192).unwrap();
    assert_eq!((atlas.width(), atlas.height()), (1, 1));
    assert_eq!(atlas.image.get_pixel(0, 0), [0, 0, 0, 0]);
    assert!(atlas.rects.is_empty());
}

#[test]
fn the_tallest_frame_is_packed_first_inside_the_gutter() {
    let assets = vec![
        asset("small", 4, 4, 1),
        asset("tall", 4, 10, 1),
    ];
    let atlas = Atlas::build(&assets, 64).unwrap();
    assert_eq!(atlas.rect("tall", 0, false), Some([PADDING, PADDING, PADDING + 4, PADDING + 10]));
    assert_eq!(
        atlas.rect("small", 0, false),
        Some([2 * PADDING + 4, PADDING, 2 * PADDING + 8, PADDING + 4])
    );
    // The gutter between them stays transparent.
    assert_eq!(atlas.image.get_pixel(PADDING + 4, PADDING), [0, 0, 0, 0]);
}

#[test]
fn shelves_wrap_to_a_new_row_when_the_width_runs_out() {
    let items = [("a", 0usize, 6u32, 4u32), ("a", 1, 6, 4), ("a", 2, 6, 4)];
    let (height, placements) = try_pack(&items, 16, 64).unwrap();
    assert_eq!(placements, vec![(1, 1), (8, 1), (1, 6)]);
    assert_eq!(height, 16);
    assert!(try_pack(&items, 16, 8).is_none());
}

#[test]
fn the_plan_doubles_the_width_until_everything_fits() {
    let items = [("a", 0usize, 12u32, 3u32), ("a", 1, 4, 30), ("a", 2, 26, 29)];
    let plan = plan_atlas(&items, 64).unwrap();
    assert_eq!(plan.order, vec![1, 2, 0]);
    assert_eq!((plan.width, plan.height), (64, 32));
    assert_eq!(plan.placements, vec![(1, 1), (6, 1), (33, 1)]);
}

#[test]
fn frames_as_wide_as_a_shelf_stack_on_new_shelves() {
    let items = [("a", 0usize, 30u32, 2u32), ("a", 1, 30, 2)];
    let plan = plan_atlas(&items, 256).unwrap();
    assert_eq!((plan.width, plan.height), (32, 8));
    assert_eq!(plan.placements, vec![(1, 1), (1, 4)]);
}

#[test]
fn shelves_pack_across_the_whole_u32_range() {
    let items = [("wide", 0usize, 3_000_000_000u32, 1u32), ("next", 1usize, 1_000_000_000u32, 2u32)];
    let (height, placements) = try_pack(&items, u32::MAX, u32::MAX).unwrap();
    assert_eq!(placements, vec![(1, 1), (3_000_000_002, 1)]);
    assert_eq!(height, 4);
    let (height, placements) = try_pack(&items, 3_000_000_002, u32::MAX).unwrap();
    assert_eq!(placements, vec![(1, 1), (1, 3)]);
    assert_eq!(height, 8);
    assert!(try_pack(&items[..1], 3_000_000_001, u32::MAX).is_none());
}
