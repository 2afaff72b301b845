use distract_engine::parity::{
    assert_pixels, assert_shape, dump, frame_dump, verify_manifest_dimensions, AssetDump,
    SpriteSet, TRANSPARENT,
};
use distract_engine::raster::Image;

fn two_by_two(seed: u8) -> Image {
    let mut frame = Image::new(2, 2);
    frame.put_pixel(0, 0, [0xff, 0x00, seed, 255]);
    frame.put_pixel(1, 1, [0x0a, 0xb0, 0x01, 7]);
    frame
}

fn set() -> SpriteSet {
    SpriteSet {
        frames: vec![two_by_two(0x10), two_by_two(0x20), two_by_two(0x30)],
        layout: vec![
            ("walk".to_string(), vec![1, 2]),
            ("idle".to_string(), vec![0]),
        ],
        width: 2,
        height: 2,
    }
}

#[test]
fn a_frame_reads_as_rows_of_hex_pixels() {
    let text = frame_dump(&two_by_two(0x10), 2, 2);
    assert_eq!(text, format!("ff0010,{TRANSPARENT};{TRANSPARENT},0ab001"));
}

#[test]
fn a_dump_lists_the_layout_by_state_name() {
    let dumped = dump("pet", &set());
    assert_eq!(dumped.name, "pet");
    assert_eq!((dumped.width, dumped.height), (2, 2));
    assert_eq!(dumped.frames.len(), 3);
    assert_eq!(dumped.frames[2], "ff0030,------;------,0ab001");
    assert_eq!(
        dumped.layout,
        vec![("idle".to_string(), vec![0]), ("walk".to_string(), vec![1, 2])]
    );
}

#[test]
fn a_missing_state_animates_through_the_first_frame() {
    let pets = set();
    assert_eq!(pets.frames_for("walk"), vec![1, 2]);
    assert_eq!(pets.frames_for("sleep"), vec![0]);
}

#[test]
fn identical_dumps_pass_both_checks() {
    let golden = dump("pet", &set());
    let fresh = dump("pet", &set());
    assert!(assert_shape("pet", &golden, &fresh).is_ok());
    assert!(assert_pixels("pet", &golden, &fresh).is_ok());
}

#[test]
fn a_shape_change_is_named() {
    let golden = dump("pet", &set());
    let mut wider = dump("pet", &set());
    wider.width = 3;
    assert_eq!(
        assert_shape("pet", &golden, &wider).unwrap_err(),
        "pet: golden is 2 wide, generator produced 3"
    );

    let mut relaid = dump("pet", &set());
    relaid.layout[0].1 = vec![2];
    assert_eq!(
        assert_shape("pet", &golden, &relaid).unwrap_err(),
        "pet: the state-to-frame layout changed"
    );

    let mut fewer = dump("pet", &set());
    fewer.frames.pop();
    assert_eq!(
        assert_shape("pet", &golden, &fewer).unwrap_err(),
        "pet: golden has 3 frames, generator produced 2"
    );
}

#[test]
fn the_first_differing_pixel_is_named_by_column_and_row() {
    let golden = dump("pet", &set());
    let mut changed = set();
    changed.frames[1].put_pixel(1, 1, [1, 2, 3, 255]);
    let fresh = dump("pet", &changed);
    assert_eq!(
        assert_pixels("pet", &golden, &fresh).unwrap_err(),
        "pet frame 1: pixel at (1, 1) is 0ab001 in the golden and 010203 from the generator"
    );
}

#[test]
fn a_set_is_checked_against_its_declared_dimensions() {
    let pets = set();
    assert!(verify_manifest_dimensions("pet", &pets, 2, 2, 3, 2).is_ok());
    assert_eq!(
        verify_manifest_dimensions("pet", &pets, 4, 2, 3, 2).unwrap_err(),
        "pet is not 4 sprite pixels wide"
    );
    assert_eq!(
        verify_manifest_dimensions("pet", &pets, 2, 2, 3, 5).unwrap_err(),
        "pet does not declare 5 states"
    );

    let mut broken = set();
    broken.layout[1].1 = vec![0, 7];
    assert_eq!(
        verify_manifest_dimensions("pet", &broken, 2, 2, 3, 2).unwrap_err(),
        "pet state idle indexes frame 7 of 3"
    );
    broken.layout[0].1 = Vec::new();
    assert_eq!(
        verify_manifest_dimensions("pet", &broken, 2, 2, 3, 2).unwrap_err(),
        "pet state walk animates through no frames"
    );
}

#[test]
fn a_dump_built_by_hand_compares_like_a_generated_one() {
    let golden = AssetDump {
        name: "pet".to_string(),
        width: 2,
        height: 2,
        layout: vec![("idle".to_string(), vec![0])],
        frames: vec!["000000,------;------,------".to_string()],
    };
    let mut frame = Image::new(2, 2);
    frame.put_pixel(0, 0, [0, 0, 0, 1]);
    let fresh = dump(
        "pet",
        &SpriteSet {
            frames: vec![frame],
            layout: vec![("idle".to_string(), vec![0])],
            width: 2,
            height: 2,
        },
    );
    assert!(assert_shape("pet", &golden, &fresh).is_ok());
    assert!(assert_pixels("pet", &golden, &fresh).is_ok());
}

#[test]
fn unknown_state_falls_back_to_the_first_frame() {
    assert_eq!(set().frames_for("no_such_state"), vec![0]);
}
