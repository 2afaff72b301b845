use distract_engine::raster::Image;

#[test]
fn a_new_image_is_transparent() {
    let image = Image::new(3, 2);
    assert_eq!(image.as_raw().len(), 24);
    assert!(image.as_raw().iter().all(|b| *b == 0));
}

#[test]
fn a_pixel_written_is_the_pixel_read() {
    let mut image = Image::new(3, 2);
    image.put_pixel(2, 1, [1, 2, 3, 4]);
    assert_eq!(image.get_pixel(2, 1), [1, 2, 3, 4]);
    assert_eq!(image.get_pixel(1, 1), [0, 0, 0, 0]);
    assert_eq!(&image.as_raw()[20..24], &[1, 2, 3, 4]);
}

#[test]
fn a_buffer_of_the_wrong_length_is_no_image() {
    assert!(Image::from_raw(2, 2, vec![0; 15]).is_none());
    assert!(Image::from_raw(2, 2, vec![0; 17]).is_none());
    let image = Image::from_raw(2, 2, vec![9; 16]).expect("image");
    assert_eq!(image.get_pixel(1, 1), [9, 9, 9, 9]);
    assert_eq!(image.into_raw(), vec![9; 16]);
}

#[test]
fn a_crop_copies_its_region() {
    let mut image = Image::new(4, 3);
    for y in 0..3 {
        for x in 0..4 {
            image.put_pixel(x, y, [x as u8, y as u8, 7, 255]);
        }
    }
    let part = image.crop(1, 1, 2, 2);
    assert_eq!((part.width(), part.height()), (2, 2));
    assert_eq!(part.get_pixel(0, 0), [1, 1, 7, 255]);
    assert_eq!(part.get_pixel(1, 1), [2, 2, 7, 255]);
}
