use distract_engine::raster::Image;
use distract_engine::sidecar::{decode_sidecar, encode_sidecar, read_u32_le};

#[test]
fn a_written_sidecar_reads_back_pixel_for_pixel() {
    let mut frame_one = Image::new(2, 2);
    frame_one.put_pixel(0, 0, [255, 0, 0, 200]);
    let mut frame_two = Image::new(2, 2);
    frame_two.put_pixel(1, 1, [0, 255, 0, 100]);
    let frames = vec![frame_one, frame_two];

    let bytes = encode_sidecar(2, 2, &frames);
    let (width, height, read_frames) = decode_sidecar(&bytes, "frames.rgba").expect("read");

    assert_eq!((width, height), (2, 2));
    assert_eq!(read_frames, frames);
}

#[test]
fn a_truncated_file_is_rejected_not_panicked_on() {
    assert!(decode_sidecar(b"DRGB", "frames.rgba").is_err());
}

#[test]
fn bad_magic_is_rejected() {
    assert!(decode_sidecar(&[0u8; 20], "frames.rgba").is_err());
}

#[test]
fn the_header_is_magic_version_and_three_little_endian_words() {
    let frame = Image::new(1, 1);
    let bytes = encode_sidecar(1, 1, &vec![frame]);
    assert_eq!(
        bytes,
        vec![b'D', b'R', b'G', b'B', 1, 1, 0, 0, 0, 1, 0, 0, 0, 1, 0, 0, 0, 0, 0, 0, 0]
    );
}

#[test]
fn each_refusal_names_the_file_and_the_fault() {
    assert_eq!(
        decode_sidecar(b"DRGB", "f.rgba").err(),
        Some("f.rgba: truncated header".to_string())
    );
    assert_eq!(
        decode_sidecar(&[0u8; 20], "f.rgba").err(),
        Some("f.rgba: bad magic".to_string())
    );
    let mut wrong_version = encode_sidecar(1, 1, &vec![Image::new(1, 1)]);
    wrong_version[4] = 2;
    assert_eq!(
        decode_sidecar(&wrong_version, "f.rgba").err(),
        Some("f.rgba: unsupported version 2".to_string())
    );
    let mut short = encode_sidecar(1, 1, &vec![Image::new(1, 1)]);
    short.pop();
    assert_eq!(
        decode_sidecar(&short, "f.rgba").err(),
        Some("f.rgba: declares 4 frame bytes, has 3".to_string())
    );
}

#[test]
fn a_little_endian_word_reads_low_byte_first() {
    let bytes = [0u8, 0x78, 0x56, 0x34, 0x12];
    assert_eq!(read_u32_le(&bytes, 1), Ok(0x1234_5678));
    assert_eq!(read_u32_le(&bytes, 2), Err("truncated header".to_string()));
}
