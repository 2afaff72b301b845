use distract_engine::raster::Image;
use distract_engine::sheet::{
    grid_dimensions, pack_spritesheet, pad_to_common_canvas, slice_grid, validate_frame_size,
    validate_grid, GridSpec,
};

const CELL: u32 = 4;

fn fixture_atlas() -> Image {
    let colors = [
        [10u8, 0, 0, 255],
        [0, 20, 0, 255],
        [0, 0, 30, 255],
        [40, 40, 40, 255],
    ];
    let mut atlas = Image::new(CELL * 2, CELL * 2);
    for (index, color) in colors.iter().enumerate() {
        let origin_x = (index as u32 % 2) * CELL;
        let origin_y = (index as u32 / 2) * CELL;
        for y in 0..CELL {
            for x in 0..CELL {
                atlas.put_pixel(origin_x + x, origin_y + y, *color);
            }
        }
    }
    atlas
}

fn grid(row_counts: &[usize]) -> GridSpec<'_> {
    GridSpec {
        cell_width: CELL,
        cell_height: CELL,
        row_counts,
    }
}

#[test]
fn grid_dimensions_caps_columns_at_eight() {
    assert_eq!(grid_dimensions(32), (8, 4));
    assert_eq!(grid_dimensions(3), (3, 1));
    assert_eq!(grid_dimensions(1), (1, 1));
}

#[test]
fn grid_dimensions_rounds_a_partial_row_up_and_never_has_zero_columns() {
    assert_eq!(grid_dimensions(9), (8, 2));
    assert_eq!(grid_dimensions(17), (8, 3));
    assert_eq!(grid_dimensions(0), (1, 0));
}

#[test]
fn padding_bottom_aligns_and_centers_a_narrower_shorter_frame() {
    let mut tall = Image::new(2, 4);
    tall.put_pixel(0, 3, [1, 1, 1, 255]);
    let narrow = Image::new(2, 2);

    let (padded, width, height) = pad_to_common_canvas(&vec![tall, narrow]);

    assert_eq!((width, height), (2, 4));
    assert_eq!(padded[0].get_pixel(0, 3), [1, 1, 1, 255]);
    assert_eq!((padded[1].width(), padded[1].height()), (2, 4));
    assert_eq!(padded[1].get_pixel(0, 3)[3], 0, "padding is transparent");
}

#[test]
fn a_narrow_frame_is_centred_and_rests_on_the_bottom_edge() {
    let mut dot = Image::new(1, 1);
    dot.put_pixel(0, 0, [9, 9, 9, 255]);
    let wide = Image::new(5, 3);
    let (padded, width, height) = pad_to_common_canvas(&vec![wide, dot]);
    assert_eq!((width, height), (5, 3));
    assert_eq!(padded[1].get_pixel(2, 2), [9, 9, 9, 255]);
    assert_eq!(padded[1].get_pixel(2, 1)[3], 0);
    assert_eq!(padded[1].get_pixel(1, 2)[3], 0);
}

#[test]
fn pack_spritesheet_places_frames_left_to_right_top_to_bottom() {
    let mut first = Image::new(2, 2);
    first.put_pixel(0, 0, [255, 0, 0, 255]);
    let mut second = Image::new(2, 2);
    second.put_pixel(0, 0, [0, 255, 0, 255]);

    let sheet = pack_spritesheet(&vec![first, second], 2, 2, 2);

    assert_eq!((sheet.width(), sheet.height()), (4, 2));
    assert_eq!(sheet.get_pixel(0, 0), [255, 0, 0, 255]);
    assert_eq!(sheet.get_pixel(2, 0), [0, 255, 0, 255]);
}

#[test]
fn a_third_frame_starts_the_second_row() {
    let frames: Vec<Image> = (0..3u8)
        .map(|i| {
            let mut frame = Image::new(1, 1);
            frame.put_pixel(0, 0, [i, 0, 0, 255]);
            frame
        })
        .collect();
    let sheet = pack_spritesheet(&frames, 2, 1, 1);
    assert_eq!((sheet.width(), sheet.height()), (2, 2));
    assert_eq!(sheet.get_pixel(0, 1), [2, 0, 0, 255]);
    assert_eq!(sheet.get_pixel(1, 1)[3], 0);
}

#[test]
fn decode_spritesheet_grid_slices_row_major_and_drops_unused_trailing_cells() {
    let frames = slice_grid(&fixture_atlas(), &grid(&[2, 1]), "atlas.png").expect("decode");

    assert_eq!(frames.len(), 3);
    assert_eq!((frames[0].width(), frames[0].height()), (CELL, CELL));
    assert_eq!(frames[0].get_pixel(0, 0), [10, 0, 0, 255]);
    assert_eq!(frames[1].get_pixel(0, 0), [0, 20, 0, 255]);
    assert_eq!(frames[2].get_pixel(0, 0), [0, 0, 30, 255]);
}

#[test]
fn decode_spritesheet_grid_rejects_a_cell_size_the_image_is_not_a_multiple_of() {
    let spec = GridSpec {
        cell_width: 3,
        cell_height: CELL,
        row_counts: &[2, 1],
    };
    assert!(slice_grid(&fixture_atlas(), &spec, "atlas.png").is_err());
}

#[test]
fn decode_spritesheet_grid_rejects_a_row_count_list_of_the_wrong_length() {
    assert!(slice_grid(&fixture_atlas(), &grid(&[2, 2, 2]), "atlas.png").is_err());
}

#[test]
fn decode_spritesheet_grid_rejects_a_row_claiming_more_frames_than_columns() {
    assert!(slice_grid(&fixture_atlas(), &grid(&[5, 1]), "atlas.png").is_err());
}

#[test]
fn grid_refusals_name_the_file_and_the_numbers() {
    let atlas = fixture_atlas();
    let zero = GridSpec {
        cell_width: 0,
        cell_height: 4,
        row_counts: &[1],
    };
    assert_eq!(
        validate_grid(&atlas, &zero, "a.png"),
        Err("--cell needs a non-zero width and height".to_string())
    );
    let odd = GridSpec {
        cell_width: 3,
        cell_height: 4,
        row_counts: &[1, 1],
    };
    assert_eq!(
        validate_grid(&atlas, &odd, "a.png"),
        Err("a.png: 8x8 is not a whole number of 3x4 cells".to_string())
    );
    assert_eq!(
        validate_grid(&atlas, &grid(&[2, 2, 2]), "a.png"),
        Err("a.png: --row-counts has 3 entries but the image has 2 rows".to_string())
    );
    assert_eq!(
        validate_grid(&atlas, &grid(&[2, 5]), "a.png"),
        Err("a.png: row 1 claims 5 frames but there are only 2 columns".to_string())
    );
    assert_eq!(validate_grid(&atlas, &grid(&[2, 0]), "a.png"), Ok((2, 2)));
}

#[test]
fn a_grid_that_selects_nothing_is_refused() {
    assert_eq!(
        slice_grid(&fixture_atlas(), &grid(&[0, 0]), "a.png").err(),
        Some("a.png: no frames selected".to_string())
    );
}

#[test]
fn a_padded_frame_has_to_have_a_size_and_fit_the_budget() {
    assert_eq!(
        validate_frame_size(0, 4),
        Err("decoded frames have a zero dimension".to_string())
    );
    assert_eq!(
        validate_frame_size(5000, 4),
        Err("padded frame 5000x4 exceeds the 4096px budget".to_string())
    );
    assert_eq!(validate_frame_size(4096, 4096), Ok(()));
}
