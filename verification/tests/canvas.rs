use distract_engine::canvas::Canvas;

#[test]
fn canvas_writes_are_one_based_and_clipped() {
    let mut c = Canvas::new(8, 4);
    c.set_cell(0, 0, [1, 2, 3]);
    c.set_cell(9, 4, [1, 2, 3]);
    assert_eq!(c.px.iter().flatten().count(), 0);
}

#[test]
fn the_first_cell_is_one_one_and_the_last_is_w_h() {
    let mut c = Canvas::new(3, 2);
    c.set_cell(1, 1, [1, 2, 3]);
    c.set_cell(3, 2, [4, 5, 6]);
    assert_eq!(c.get_cell(1, 1), Some([1, 2, 3]));
    assert_eq!(c.get_cell(3, 2), Some([4, 5, 6]));
    assert_eq!(c.get_cell(2, 1), None);
    assert_eq!(c.get_cell(4, 1), None);
    assert_eq!(c.px[0], Some([1, 2, 3]));
    assert_eq!(c.px[5], Some([4, 5, 6]));
}

#[test]
fn a_canvas_becomes_an_image_of_its_own_size() {
    let mut c = Canvas::new(2, 2);
    c.set_cell(2, 1, [9, 8, 7]);
    let image = c.to_image();
    assert_eq!((image.width(), image.height()), (2, 2));
    assert_eq!(image.get_pixel(1, 0), [9, 8, 7, 255]);
    assert_eq!(image.get_pixel(0, 0), [0, 0, 0, 0]);
    assert_eq!(image.get_pixel(1, 1), [0, 0, 0, 0]);
}
