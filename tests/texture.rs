use reflection::texture::{PixelCoord2D, Texture2D};

#[test]
fn pixel_index_is_row_major() {
    assert_eq!(PixelCoord2D { x: 0, y: 0 }.to_pixel_index(4), 0);
    assert_eq!(PixelCoord2D { x: 3, y: 0 }.to_pixel_index(4), 3);
    assert_eq!(PixelCoord2D { x: 1, y: 2 }.to_pixel_index(4), 9);
}

#[test]
fn texture_cell_rows_flip_by_height() {
    // a 4 wide, 2 high texture: the lower row of cells is pixel row 1
    assert_eq!(PixelCoord2D::from_texture_cell(0, 0, 4, 2), PixelCoord2D { x: 0, y: 1 });
    assert_eq!(PixelCoord2D::from_texture_cell(3, 1, 4, 2), PixelCoord2D { x: 3, y: 0 });
    // a 2 wide, 4 high texture stays inside its rows
    assert_eq!(PixelCoord2D::from_texture_cell(1, 0, 2, 4), PixelCoord2D { x: 1, y: 3 });
    assert_eq!(PixelCoord2D::from_texture_cell(0, 3, 2, 4), PixelCoord2D { x: 0, y: 0 });
}

#[test]
fn texture_cell_past_the_edge_clamps() {
    assert_eq!(PixelCoord2D::from_texture_cell(4, 2, 4, 2), PixelCoord2D { x: 3, y: 0 });
    assert_eq!(PixelCoord2D::from_texture_cell(u32::MAX, u32::MAX, 1, 1), PixelCoord2D { x: 0, y: 0 });
}

#[test]
fn new_texture_is_default_filled() {
    let t: Texture2D<u32> = Texture2D::new(3, 2);
    assert_eq!(t.width(), 3);
    assert_eq!(t.height(), 2);
    assert_eq!(t.pixels(), &[0u32; 6][..]);
}

#[test]
fn new_from_repeats_value() {
    let t = Texture2D::new_from(2, 2, 7u8);
    assert_eq!(t.into_pixels(), vec![7u8; 4]);
}

#[test]
fn empty_texture_has_no_pixels() {
    let t: Texture2D<u8> = Texture2D::new(0, 5);
    assert_eq!(t.pixels().len(), 0);
}

#[test]
fn new_from_pixels_keeps_order() {
    let t = Texture2D::new_from_pixels(2, 3, vec![1, 2, 3, 4, 5, 6]);
    assert_eq!(t.read_pixel(PixelCoord2D { x: 0, y: 0 }), 1);
    assert_eq!(t.read_pixel(PixelCoord2D { x: 1, y: 0 }), 2);
    assert_eq!(t.read_pixel(PixelCoord2D { x: 0, y: 2 }), 5);
    assert_eq!(*t.pixel(PixelCoord2D { x: 1, y: 2 }), 6);
}

#[test]
fn write_pixel_changes_one_value() {
    let mut t = Texture2D::new_from(3, 2, 0i32);
    t.write_pixel(PixelCoord2D { x: 2, y: 1 }, 9);
    assert_eq!(t.pixels(), &[0, 0, 0, 0, 0, 9][..]);
    t.write_pixel(PixelCoord2D { x: 0, y: 0 }, -1);
    assert_eq!(t.into_pixels(), vec![-1, 0, 0, 0, 0, 9]);
}
