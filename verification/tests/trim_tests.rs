use sprite_atlas::bitmap::{Bitmap, Pixel};
use sprite_atlas::trim::trim;

fn opaque() -> Pixel {
    Pixel { r: 255, g: 255, b: 255, a: 255 }
}

fn clear() -> Pixel {
    Pixel { r: 0, g: 0, b: 0, a: 0 }
}

fn bitmap_from(width: u32, height: u32, content: &[(u32, u32)]) -> Bitmap {
    let mut pixels = vec![clear(); (width * height) as usize];
    for &(x, y) in content {
        pixels[(y * width + x) as usize] = opaque();
    }
    Bitmap::from_raw(width, height, pixels).expect("dimensions match pixel count")
}

fn solid(width: u32, height: u32) -> Bitmap {
    let pixels = vec![opaque(); (width * height) as usize];
    Bitmap::from_raw(width, height, pixels).expect("dimensions match pixel count")
}

#[test]
fn trim_fully_opaque_is_identity() {
    let b = solid(4, 4);
    let t = trim(&b);
    assert_eq!(t.bitmap.width(), 4);
    assert_eq!(t.bitmap.height(), 4);
    assert_eq!(t.top_left_offset_x, 0);
    assert_eq!(t.top_left_offset_y, 0);
    assert_eq!(t.center_offset_x, 2);
    assert_eq!(t.center_offset_y, 2);
    for y in 0..4 {
        for x in 0..4 {
            assert_eq!(t.bitmap.get_pixel(x, y), opaque());
        }
    }
}

#[test]
fn trim_twice_is_stable() {
    // Content touches all four edges after the first trim, so the second
    // trim changes nothing and reports zero top-left offsets.
    let b = bitmap_from(6, 6, &[(2, 2), (4, 2), (2, 4), (4, 4)]);
    let t1 = trim(&b);
    assert_eq!(t1.bitmap.width(), 3);
    assert_eq!(t1.bitmap.height(), 3);
    let t2 = trim(&t1.bitmap);
    assert_eq!(t2.bitmap.width(), 3);
    assert_eq!(t2.bitmap.height(), 3);
    assert_eq!(t2.top_left_offset_x, 0);
    assert_eq!(t2.top_left_offset_y, 0);
    for y in 0..3 {
        for x in 0..3 {
            assert_eq!(t2.bitmap.get_pixel(x, y), t1.bitmap.get_pixel(x, y));
        }
    }
}

#[test]
fn trim_transparent_halves_dimensions() {
    let b = bitmap_from(8, 6, &[]);
    let t = trim(&b);
    assert_eq!(t.bitmap.width(), 4);
    assert_eq!(t.bitmap.height(), 3);
    assert_eq!(t.top_left_offset_x, 4);
    assert_eq!(t.top_left_offset_y, 3);
    for y in 0..3 {
        for x in 0..4 {
            assert_eq!(t.bitmap.get_pixel(x, y).a, 0);
        }
    }
}

#[test]
fn trim_crops_to_content_box() {
    // Content occupies exactly [1,3] x [2,4] in a 5x5 bitmap.
    let b = bitmap_from(5, 5, &[(1, 2), (3, 2), (1, 4), (3, 4), (2, 3)]);
    let t = trim(&b);
    assert_eq!(t.bitmap.width(), 3);
    assert_eq!(t.bitmap.height(), 3);
    assert_eq!(t.top_left_offset_x, 1);
    assert_eq!(t.top_left_offset_y, 2);
    // center_offset = original/2 - min: 5/2 - 1 = 1 and 5/2 - 2 = 0.
    assert_eq!(t.center_offset_x, 1);
    assert_eq!(t.center_offset_y, 0);
    assert_eq!(t.bitmap.get_pixel(0, 0), opaque());
    assert_eq!(t.bitmap.get_pixel(1, 1), opaque());
    assert_eq!(t.bitmap.get_pixel(2, 0), opaque());
    assert_eq!(t.bitmap.get_pixel(1, 0).a, 0);
}

#[test]
fn trim_keeps_content_in_last_column() {
    // A single content pixel in the last column must survive the trim.
    let b = bitmap_from(5, 1, &[(4, 0)]);
    let t = trim(&b);
    assert_eq!(t.bitmap.width(), 1);
    assert_eq!(t.bitmap.height(), 1);
    assert_eq!(t.top_left_offset_x, 4);
    assert_eq!(t.top_left_offset_y, 0);
    assert_eq!(t.center_offset_x, 2 - 4);
    assert_eq!(t.center_offset_y, 0);
    assert_eq!(t.bitmap.get_pixel(0, 0), opaque());
}

#[test]
fn trim_negative_center_offset() {
    // Content right of the half-width gives a negative x centre offset.
    let b = bitmap_from(10, 2, &[(8, 0), (9, 1)]);
    let t = trim(&b);
    assert_eq!(t.top_left_offset_x, 8);
    assert_eq!(t.center_offset_x, 5 - 8);
    assert_eq!(t.bitmap.width(), 2);
    assert_eq!(t.bitmap.height(), 2);
}
