use distract_engine::background::{corners, is_already_cutout, neighbors, remove_background, Pixel};
use distract_engine::raster::Image;

/// The importer's classification: distance from the corner colour against a
/// tolerance, feathered over `feather` beyond it.
fn classifier(frame: &Image, tolerance: f32, feather: f32) -> impl Fn(Pixel) -> (u8, bool) {
    let (w, h) = (frame.width(), frame.height());
    let mut sum = [0.0f32; 3];
    for (x, y) in corners(w, h) {
        let p = frame.get_pixel(x, y);
        for c in 0..3 {
            sum[c] += p[c] as f32;
        }
    }
    let reference = [sum[0] / 4.0, sum[1] / 4.0, sum[2] / 4.0];
    move |p: Pixel| {
        let dr = (p.0 as f32 - reference[0]) / 255.0;
        let dg = (p.1 as f32 - reference[1]) / 255.0;
        let db = (p.2 as f32 - reference[2]) / 255.0;
        let distance = (dr * dr + dg * dg + db * db).sqrt() / 3.0f32.sqrt();
        let alpha = if distance <= tolerance {
            0.0
        } else {
            ((distance - tolerance) / feather).min(1.0)
        };
        ((alpha * 255.0).round() as u8, distance <= tolerance + feather)
    }
}

fn filled(w: u32, h: u32, color: [u8; 4]) -> Image {
    let mut frame = Image::new(w, h);
    for y in 0..h {
        for x in 0..w {
            frame.put_pixel(x, y, color);
        }
    }
    frame
}

#[test]
fn a_uniform_background_becomes_fully_transparent_and_the_subject_stays_opaque() {
    let mut frame = filled(4, 4, [10, 10, 10, 255]);
    frame.put_pixel(2, 2, [255, 0, 0, 255]);

    let output = remove_background(&frame, &classifier(&frame, 0.12, 0.04));

    assert_eq!(output.get_pixel(0, 0)[3], 0);
    assert_eq!(output.get_pixel(2, 2), [255, 0, 0, 255]);
}

#[test]
fn a_disconnected_background_colored_pixel_inside_the_subject_is_not_erased() {
    let mut frame = filled(5, 5, [255, 0, 0, 255]);
    for x in 0..5 {
        frame.put_pixel(x, 0, [10, 10, 10, 255]);
        frame.put_pixel(x, 4, [10, 10, 10, 255]);
    }
    for y in 0..5 {
        frame.put_pixel(0, y, [10, 10, 10, 255]);
        frame.put_pixel(4, y, [10, 10, 10, 255]);
    }
    frame.put_pixel(2, 2, [10, 10, 10, 255]);

    let output = remove_background(&frame, &classifier(&frame, 0.12, 0.04));

    assert_eq!(output.get_pixel(0, 0)[3], 0);
    assert_eq!(
        output.get_pixel(2, 2)[3],
        255,
        "isolated same-colored pixel must stay opaque"
    );
}

#[test]
fn is_already_cutout_reads_the_four_corners_alpha() {
    let opaque = filled(4, 4, [10, 10, 10, 255]);
    assert!(!is_already_cutout(&opaque));

    let mut cutout = filled(4, 4, [0, 0, 0, 0]);
    cutout.put_pixel(2, 2, [255, 0, 0, 255]);
    assert!(is_already_cutout(&cutout));

    cutout.put_pixel(0, 0, [0, 0, 0, 1]);
    assert!(
        !is_already_cutout(&cutout),
        "one non-transparent corner is enough to disqualify a frame"
    );
}

#[test]
fn a_pixel_just_past_tolerance_gets_a_feathered_not_binary_alpha() {
    let mut frame = Image::new(3, 1);
    frame.put_pixel(0, 0, [0, 0, 0, 255]);
    frame.put_pixel(1, 0, [15, 15, 15, 255]);
    frame.put_pixel(2, 0, [0, 0, 0, 255]);

    let output = remove_background(&frame, &classifier(&frame, 0.0, 0.5));

    let middle_alpha = output.get_pixel(1, 0)[3];
    assert!(
        middle_alpha > 0 && middle_alpha < 255,
        "expected a feathered value, got {middle_alpha}"
    );
}

#[test]
fn the_fill_stops_at_a_pixel_that_does_not_carry_it() {
    let mut frame = filled(3, 1, [1, 1, 1, 255]);
    frame.put_pixel(1, 0, [9, 9, 9, 200]);
    let wall = |p: Pixel| (0u8, p.0 == 1);
    let output = remove_background(&frame, &wall);
    assert_eq!(output.get_pixel(0, 0), [1, 1, 1, 0]);
    assert_eq!(output.get_pixel(1, 0), [9, 9, 9, 0]);
    assert_eq!(output.get_pixel(2, 0), [1, 1, 1, 0]);

    let mut tall = filled(1, 5, [1, 1, 1, 255]);
    tall.put_pixel(0, 1, [9, 9, 9, 255]);
    tall.put_pixel(0, 3, [9, 9, 9, 255]);
    let output = remove_background(&tall, &wall);
    assert_eq!(output.get_pixel(0, 2), [1, 1, 1, 255], "walled off from both corners");
    assert_eq!(output.get_pixel(0, 1)[3], 0);
}

#[test]
fn corners_and_neighbours_stay_inside_the_frame() {
    assert_eq!(corners(3, 2), [(0, 0), (2, 0), (0, 1), (2, 1)]);
    assert_eq!(neighbors(0, 0, 3, 2), vec![(1, 0), (0, 1)]);
    assert_eq!(neighbors(1, 1, 3, 2), vec![(0, 1), (2, 1), (1, 0)]);
}
