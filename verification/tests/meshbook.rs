use distract_engine::meshbook::{MeshBook, MAX_VERTICES};
use distract_engine::raster::Image;
use distract_engine::voxel::{VoxelOptions, DEFAULT_DEPTH, DEFAULT_MAX_WIDTH};

/// A frame with a filled oval and a hole punched in it, shifted by `phase`
/// so that each frame of an asset differs.
fn pet_frame(width: u32, height: u32, phase: u32) -> Image {
    let mut frame = Image::new(width, height);
    let cx = width as i64 / 2;
    let cy = height as i64 / 2;
    for y in 0..height {
        for x in 0..width {
            let dx = x as i64 - cx;
            let dy = y as i64 - cy;
            let inside = dx * dx * (height as i64) * (height as i64) / 4
                + dy * dy * (width as i64) * (width as i64) / 4
                <= (width as i64) * (width as i64) * (height as i64) * (height as i64) / 16;
            let hole = (x + phase) % 7 == 0 && y % 5 == 0;
            if inside && !hole {
                frame.put_pixel(x, y, [(x * 3) as u8, (y * 5) as u8, phase as u8, 255]);
            }
        }
    }
    frame
}

fn asset(name: &str, width: u32, height: u32, frames: u32) -> (String, Vec<Image>) {
    (
        name.to_string(),
        (0..frames).map(|phase| pet_frame(width, height, phase)).collect(),
    )
}

/// Three pets the size of the built-in ones, registered out of name order.
fn pets() -> Vec<(String, Vec<Image>)> {
    vec![
        asset("sun", 32, 32, 4),
        asset("cat", 32, 32, 6),
        asset("crab", 40, 24, 5),
    ]
}

#[test]
fn every_frame_of_every_builtin_gets_its_own_range() {
    let assets = pets();
    let book = MeshBook::build(&assets, VoxelOptions::default());

    assert_eq!(book.asset_count(), assets.len());
    for (name, frames) in assets.iter() {
        for frame in 0..frames.len() {
            assert!(book.range(name, frame).is_some(), "{} frame {}", name, frame);
        }
    }
}

#[test]
fn the_ranges_partition_the_index_buffer_without_overlapping() {
    let assets = pets();
    let book = MeshBook::build(&assets, VoxelOptions::default());

    let mut spans: Vec<(u32, u32)> = Vec::new();
    for (name, frames) in assets.iter() {
        for frame in 0..frames.len() {
            let range = book.range(name, frame).expect("a range per frame");
            spans.push((range.first_index, range.first_index + range.index_count));
        }
    }
    spans.sort();

    let mut previous_end = 0;
    for (first, end) in spans {
        assert_eq!(first, previous_end, "a gap or an overlap in the index buffer");
        previous_end = end;
    }
    assert_eq!(previous_end as usize, book.indices.len());
}

#[test]
fn indices_address_the_shared_vertex_buffer_directly() {
    let book = MeshBook::build(&pets(), VoxelOptions::default());
    let highest = book.indices.iter().copied().max().expect("geometry");
    assert_eq!(highest as usize, book.vertices.len() - 1);
}

#[test]
fn a_frame_index_past_the_end_wraps_rather_than_drawing_nothing() {
    let assets = pets();
    let book = MeshBook::build(&assets, VoxelOptions::default());
    let frame_count = assets
        .iter()
        .find(|(name, _)| name == "cat")
        .expect("the cat")
        .1
        .len();
    assert_eq!(book.range("cat", frame_count + 1), book.range("cat", 1));
}

#[test]
fn an_unknown_asset_has_no_range() {
    let book = MeshBook::build(&pets(), VoxelOptions::default());
    assert!(book.range("no_such_pet", 0).is_none());
}

#[test]
fn nothing_is_skipped_at_the_built_in_scale() {
    let book = MeshBook::build(&pets(), VoxelOptions::default());
    assert_eq!(book.skipped_frames, 0);
    assert!(!book.is_empty());
    assert!(book.vertices.len() <= MAX_VERTICES);
}

#[test]
fn the_extent_is_carried_so_the_instance_transform_can_reach_pixels() {
    let assets = pets();
    let book = MeshBook::build(&assets, VoxelOptions::default());
    let cat_width = 32u32;
    let range = book.range("cat", 0).expect("a range");

    assert_eq!(range.extent[0], cat_width.min(DEFAULT_MAX_WIDTH));
    assert_eq!(range.extent[2], DEFAULT_DEPTH);
}

#[test]
fn a_thicker_slab_produces_the_same_ranges_at_a_different_depth() {
    let thin = MeshBook::build(
        &pets(),
        VoxelOptions {
            max_width: 48,
            depth: 2,
        },
    );
    let thick = MeshBook::build(
        &pets(),
        VoxelOptions {
            max_width: 48,
            depth: 8,
        },
    );

    assert_eq!(
        thin.indices.len(),
        thick.indices.len(),
        "depth is not a face count"
    );
    assert_eq!(thin.range("cat", 0).map(|range| range.extent[2]), Some(2));
    assert_eq!(thick.range("cat", 0).map(|range| range.extent[2]), Some(8));
}

#[test]
fn assets_are_laid_out_in_name_order() {
    let book = MeshBook::build(&pets(), VoxelOptions::default());
    let cat = book.range("cat", 0).expect("cat");
    let crab = book.range("crab", 0).expect("crab");
    let sun = book.range("sun", 0).expect("sun");
    assert_eq!(cat.first_index, 0);
    assert!(cat.first_index < crab.first_index);
    assert!(crab.first_index < sun.first_index);
    let names: Vec<&str> = book.ranges.iter().map(|(name, _)| name.as_str()).collect();
    assert_eq!(names, vec!["cat", "crab", "sun"]);
}

#[test]
fn a_single_voxel_frame_takes_six_quads_of_the_buffer() {
    let mut dot = Image::new(1, 1);
    dot.put_pixel(0, 0, [9, 9, 9, 255]);
    let assets = vec![("dot".to_string(), vec![dot])];
    let book = MeshBook::build(&assets, VoxelOptions::default());
    let range = book.range("dot", 0).expect("dot");
    assert_eq!(range.first_index, 0);
    assert_eq!(range.index_count, 36);
    assert_eq!(range.extent, [1, 1, DEFAULT_DEPTH]);
    assert_eq!(book.vertices.len(), 24);
    assert_eq!(book.indices.len(), 36);
}

#[test]
fn an_asset_without_frames_has_no_range() {
    let assets = vec![("empty".to_string(), Vec::new())];
    let book = MeshBook::build(&assets, VoxelOptions::default());
    assert_eq!(book.asset_count(), 1);
    assert!(book.range("empty", 0).is_none());
    assert!(book.is_empty());
}
