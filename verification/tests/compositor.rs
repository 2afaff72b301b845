use distract_engine::compositor::Compositor;
use distract_engine::raster::Image;

type Px = (u8, u8, u8, u8);

/// Source-over for a partly transparent pixel onto a non-empty one, in the
/// same arithmetic the engine's drawing uses.
fn source_over(s: Px, d: Px) -> Px {
    let sa_f = s.3 as f32 / 255.0;
    let da_f = d.3 as f32 / 255.0;
    let out_a_f = sa_f + da_f * (1.0 - sa_f);
    let mix = |sc: u8, dc: u8| {
        ((sc as f32 * sa_f + dc as f32 * da_f * (1.0 - sa_f)) / out_a_f).round() as u8
    };
    (
        mix(s.0, d.0),
        mix(s.1, d.1),
        mix(s.2, d.2),
        (out_a_f * 255.0).round() as u8,
    )
}

#[test]
fn test_clear_buffer() {
    let mut frame = vec![255u8; 16];
    Compositor::clear(&mut frame);
    for byte in frame {
        assert_eq!(byte, 0);
    }
}

#[test]
fn test_blend_sprite_opaque_and_transparent() {
    let mut frame = vec![0u8; 4 * 4 * 4];
    let mut sprite = Image::new(2, 2);
    sprite.put_pixel(0, 0, [255, 100, 50, 255]);
    sprite.put_pixel(1, 0, [0, 0, 0, 0]);

    Compositor::blend_sprite(&mut frame, 4, 4, &sprite, 0, 0, &source_over);

    assert_eq!(&frame[0..4], &[255, 100, 50, 255]);
    assert_eq!(&frame[4..8], &[0, 0, 0, 0]);
}

#[test]
fn test_blend_sprite_clipping() {
    let mut frame = vec![0u8; 4 * 4 * 4];
    let mut sprite = Image::new(2, 2);
    sprite.put_pixel(0, 0, [255, 255, 255, 255]);

    Compositor::blend_sprite(&mut frame, 4, 4, &sprite, -1, -1, &source_over);
    Compositor::blend_sprite(&mut frame, 4, 4, &sprite, 3, 3, &source_over);
    assert_eq!(&frame[60..64], &[255, 255, 255, 255]);
}

#[test]
fn blend_mirrors_without_a_second_copy_of_the_frame() {
    let mut sprite = Image::new(2, 1);
    sprite.put_pixel(0, 0, [255, 0, 0, 255]);
    sprite.put_pixel(1, 0, [0, 0, 255, 255]);

    let mut frame = vec![0u8; 2 * 4];
    Compositor::blend_sprite_ex(&mut frame, 2, 1, &sprite, 0, 0, true, 1, 1, &source_over);

    assert_eq!(&frame[0..4], &[0, 0, 255, 255]);
    assert_eq!(&frame[4..8], &[255, 0, 0, 255]);
}

#[test]
fn scaling_replicates_each_source_pixel_as_a_block() {
    let mut sprite = Image::new(1, 1);
    sprite.put_pixel(0, 0, [10, 20, 30, 255]);

    let mut frame = vec![0u8; 3 * 3 * 4];
    Compositor::blend_sprite_ex(&mut frame, 3, 3, &sprite, 0, 0, false, 3, 3, &source_over);

    for i in 0..9 {
        assert_eq!(&frame[i * 4..i * 4 + 4], &[10, 20, 30, 255], "pixel {}", i);
    }
}

#[test]
fn test_alpha_compositing() {
    let mut frame = vec![0u8; 4 * 4 * 4];

    let mut sprite = Image::new(2, 2);
    sprite.put_pixel(0, 0, [255, 0, 0, 255]);
    sprite.put_pixel(1, 0, [0, 255, 0, 128]);

    Compositor::blend_sprite(&mut frame, 4, 4, &sprite, 0, 0, &source_over);

    assert_eq!(&frame[0..4], &[255, 0, 0, 255]);
    assert_eq!(&frame[4..8], &[0, 255, 0, 128]);
}

#[test]
fn a_translucent_pixel_over_a_painted_one_is_mixed() {
    let mut frame = vec![0u8; 4];
    frame.copy_from_slice(&[0, 0, 255, 255]);
    let mut sprite = Image::new(1, 1);
    sprite.put_pixel(0, 0, [255, 0, 0, 128]);
    Compositor::blend_sprite(&mut frame, 1, 1, &sprite, 0, 0, &source_over);
    assert_eq!(&frame[0..4], &[128, 0, 127, 255]);
}

#[test]
fn a_buffer_shorter_than_the_window_is_written_only_where_it_has_room() {
    let mut frame = vec![7u8; 6];
    let mut sprite = Image::new(2, 1);
    sprite.put_pixel(0, 0, [1, 2, 3, 255]);
    sprite.put_pixel(1, 0, [4, 5, 6, 255]);
    Compositor::blend_sprite(&mut frame, 2, 1, &sprite, 0, 0, &source_over);
    assert_eq!(frame, vec![1, 2, 3, 255, 7, 7]);
}

#[test]
fn a_zero_scale_counts_as_one() {
    let mut sprite = Image::new(1, 1);
    sprite.put_pixel(0, 0, [10, 20, 30, 255]);
    let mut frame = vec![0u8; 2 * 4];
    Compositor::blend_sprite_ex(&mut frame, 2, 1, &sprite, 0, 0, false, 0, 0, &source_over);
    assert_eq!(frame, vec![10, 20, 30, 255, 0, 0, 0, 0]);
}
