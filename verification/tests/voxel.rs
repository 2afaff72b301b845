use distract_engine::raster::Image;
use distract_engine::voxel::{build, exposed_faces, Face, VoxelGrid, VoxelOptions};

fn single_pixel() -> Image {
    let mut frame = Image::new(1, 1);
    frame.put_pixel(0, 0, [10, 20, 30, 255]);
    frame
}

#[test]
fn a_lone_opaque_pixel_is_a_closed_box() {
    let mesh = build(&single_pixel(), VoxelOptions::default());
    assert_eq!(mesh.quad_count(), 6);
    assert_eq!(mesh.vertices.len(), 24);
    assert_eq!(mesh.indices.len(), 36);
    assert_eq!(mesh.extent, [1, 1, 4]);
    assert!(mesh.vertices.iter().all(|v| v.colour == [10, 20, 30, 255]));
}

#[test]
fn indices_address_the_vertex_buffer() {
    let mut frame = Image::new(3, 2);
    frame.put_pixel(0, 0, [1, 1, 1, 255]);
    frame.put_pixel(1, 0, [1, 1, 1, 255]);
    frame.put_pixel(2, 1, [1, 1, 1, 255]);
    let mesh = build(&frame, VoxelOptions::default());
    assert!(mesh.indices.iter().all(|i| (*i as usize) < mesh.vertices.len()));
}

#[test]
fn a_shared_side_between_two_voxels_is_not_drawn() {
    let mut frame = Image::new(2, 1);
    frame.put_pixel(0, 0, [1, 1, 1, 255]);
    frame.put_pixel(1, 0, [1, 1, 1, 255]);
    let mesh = build(&frame, VoxelOptions::default());
    assert_eq!(mesh.quad_count(), 10);
}

#[test]
fn a_transparent_frame_has_no_geometry() {
    let mesh = build(&Image::new(4, 4), VoxelOptions::default());
    assert!(mesh.is_empty());
}

#[test]
fn pixels_below_the_alpha_threshold_are_empty_voxels() {
    let mut frame = Image::new(2, 1);
    frame.put_pixel(0, 0, [1, 1, 1, 127]);
    frame.put_pixel(1, 0, [1, 1, 1, 128]);
    let grid = VoxelGrid::fit(&frame, 48);
    assert!(!grid.is_opaque(0, 0));
    assert!(grid.is_opaque(1, 0));
    assert!(!grid.is_opaque(-1, 0));
    assert_eq!(grid.colour(0, 0), [0, 0, 0, 0]);
}

#[test]
fn a_voxel_shows_only_the_faces_nothing_hides() {
    let mut frame = Image::new(2, 1);
    frame.put_pixel(0, 0, [1, 1, 1, 255]);
    frame.put_pixel(1, 0, [1, 1, 1, 255]);
    let grid = VoxelGrid::fit(&frame, 48);
    let faces = exposed_faces(&grid, 0, 0);
    assert_eq!(faces, vec![Face::Front, Face::Back, Face::Left, Face::Top, Face::Bottom]);
}

#[test]
fn a_wide_frame_is_resampled_to_the_width_limit() {
    let mut frame = Image::new(100, 10);
    for x in 0..100 {
        frame.put_pixel(x, 0, [5, 5, 5, 255]);
    }
    let grid = VoxelGrid::fit(&frame, 48);
    assert_eq!(grid.cols, 48);
    let mesh = build(&frame, VoxelOptions { max_width: 48, depth: 2 });
    assert_eq!(mesh.extent[0], 48);
    assert_eq!(mesh.extent[2], 2);
}

#[test]
fn the_face_normals_point_out_of_the_box() {
    assert_eq!(Face::Front.normal(), [0, 0, 127, 0]);
    assert_eq!(Face::Top.normal(), [0, -127, 0, 0]);
    assert_eq!(Face::Right.normal(), [127, 0, 0, 0]);
}
