use sprite_atlas::bitmap::{Bitmap, Pixel};
use sprite_atlas::sheet::{SaveError, SpriteSheetBuilder};

fn px(r: u8, g: u8, b: u8, a: u8) -> Pixel {
    Pixel { r, g, b, a }
}

fn solid(width: u32, height: u32, p: Pixel) -> Bitmap {
    Bitmap::from_raw(width, height, vec![p; (width * height) as usize])
        .expect("dimensions match pixel count")
}

#[test]
fn single_opaque_sprite_fills_origin() {
    let mut b = SpriteSheetBuilder::new("demo".to_string());
    b.add_sprite("A".to_string(), solid(4, 4, px(9, 8, 7, 255)));
    let atlas = b.compose().expect("composition succeeds");
    assert!(atlas.sheet.width >= 4);
    assert!(atlas.sheet.height >= 4);
    assert_eq!(atlas.sheet.name, "demo");
    assert_eq!(atlas.sheet.sprites.len(), 1);
    assert_eq!(atlas.sheet.sprites[0].key, "A");
    let f = atlas.sheet.sprites[0].frames[0];
    assert_eq!(f.x, 0);
    assert_eq!(f.y, 0);
    assert_eq!(f.width, 4);
    assert_eq!(f.height, 4);
    assert_eq!(f.original_width, 4);
    assert_eq!(f.original_height, 4);
    assert_eq!(f.top_left_offset_x, 0);
    assert_eq!(f.top_left_offset_y, 0);
    // The canvas holds the sprite's pixels at the placed corner.
    for y in 0..4 {
        for x in 0..4 {
            assert_eq!(atlas.canvas.get_pixel(x, y), px(9, 8, 7, 255));
        }
    }
}

#[test]
fn group_key_reuse_appends_in_call_order() {
    let mut b = SpriteSheetBuilder::new("anim".to_string());
    b.add_sprite("walk".to_string(), solid(2, 2, px(1, 1, 1, 255)));
    b.add_sprite("walk".to_string(), solid(3, 1, px(2, 2, 2, 255)));
    let atlas = b.compose().expect("composition succeeds");
    assert_eq!(atlas.sheet.sprites.len(), 1);
    assert_eq!(atlas.sheet.sprites[0].key, "walk");
    let frames = &atlas.sheet.sprites[0].frames;
    assert_eq!(frames.len(), 2);
    assert_eq!(frames[0].width, 2);
    assert_eq!(frames[0].height, 2);
    assert_eq!(frames[1].width, 3);
    assert_eq!(frames[1].height, 1);
}

#[test]
fn metadata_keeps_insertion_order_while_placement_sorts() {
    // Heights 10, 5, 20 are added in that order; the packer places the
    // tallest first, but the frame sequence stays in call order.
    let mut b = SpriteSheetBuilder::new("s".to_string());
    b.add_sprite("g".to_string(), solid(3, 10, px(1, 0, 0, 255)));
    b.add_sprite("g".to_string(), solid(3, 5, px(2, 0, 0, 255)));
    b.add_sprite("g".to_string(), solid(3, 20, px(3, 0, 0, 255)));
    let atlas = b.compose().expect("composition succeeds");
    let frames = &atlas.sheet.sprites[0].frames;
    assert_eq!(frames.len(), 3);
    assert_eq!(frames[0].height, 10);
    assert_eq!(frames[1].height, 5);
    assert_eq!(frames[2].height, 20);
    // The tallest sprite went to the origin.
    assert_eq!((frames[2].x, frames[2].y), (0, 0));
    assert_eq!((frames[0].x, frames[0].y), (3, 0));
    assert_eq!((frames[1].x, frames[1].y), (0, 20));
}

#[test]
fn frames_never_overlap() {
    let mut b = SpriteSheetBuilder::new("many".to_string());
    for (i, (w, h)) in [(7, 3), (2, 9), (5, 5), (1, 1), (8, 2), (3, 3), (6, 4)]
        .iter()
        .enumerate()
    {
        b.add_sprite(format!("k{}", i), solid(*w, *h, px(i as u8, 0, 0, 255)));
    }
    let atlas = b.compose().expect("composition succeeds");
    let mut rects: Vec<(u32, u32, u32, u32)> = Vec::new();
    for g in &atlas.sheet.sprites {
        for f in &g.frames {
            assert!(f.x + f.width <= atlas.sheet.width);
            assert!(f.y + f.height <= atlas.sheet.height);
            rects.push((f.x, f.y, f.width, f.height));
        }
    }
    for i in 0..rects.len() {
        for j in 0..i {
            let (ax, ay, aw, ah) = rects[i];
            let (bx, by, bw, bh) = rects[j];
            let disjoint = ax + aw <= bx || bx + bw <= ax || ay + ah <= by || by + bh <= ay;
            assert!(disjoint, "frames {} and {} overlap", i, j);
        }
    }
}

#[test]
fn save_path_with_extension_is_rejected() {
    let mut b = SpriteSheetBuilder::new("x".to_string());
    b.add_sprite("A".to_string(), solid(4, 4, px(0, 0, 0, 255)));
    let r = b.save_plan("out.png");
    assert!(matches!(r, Err(SaveError::PathHasExtension)));
}

#[test]
fn save_extensionless_path_is_accepted() {
    let mut b = SpriteSheetBuilder::new("x".to_string());
    b.add_sprite("A".to_string(), solid(4, 4, px(0, 0, 0, 255)));
    let r = b.save_plan("out_dir");
    assert!(r.is_ok());
}

#[test]
fn transparent_sprite_occupies_half_slot() {
    let mut b = SpriteSheetBuilder::new("ws".to_string());
    b.add_sprite("space".to_string(), solid(8, 6, px(0, 0, 0, 0)));
    let atlas = b.compose().expect("composition succeeds");
    let f = atlas.sheet.sprites[0].frames[0];
    assert_eq!(f.width, 4);
    assert_eq!(f.height, 3);
    assert_eq!(f.original_width, 8);
    assert_eq!(f.original_height, 6);
    assert_eq!(f.top_left_offset_x, 4);
    assert_eq!(f.top_left_offset_y, 3);
}

#[test]
fn untouched_canvas_stays_transparent() {
    let mut b = SpriteSheetBuilder::new("t".to_string());
    b.add_sprite("A".to_string(), solid(2, 4, px(5, 5, 5, 255)));
    b.add_sprite("B".to_string(), solid(2, 2, px(6, 6, 6, 255)));
    let atlas = b.compose().expect("composition succeeds");
    // Canvas 4x4: the tall sprite fills columns 0-1, the short one the top
    // of columns 2-3; below it the canvas keeps its transparent fill.
    assert_eq!(atlas.canvas.width(), 4);
    assert_eq!(atlas.canvas.height(), 4);
    assert_eq!(atlas.canvas.get_pixel(0, 0), px(5, 5, 5, 255));
    assert_eq!(atlas.canvas.get_pixel(2, 0), px(6, 6, 6, 255));
    assert_eq!(atlas.canvas.get_pixel(2, 2).a, 0);
    assert_eq!(atlas.canvas.get_pixel(3, 3).a, 0);
}

#[test]
fn identical_histories_compose_identically() {
    let build = || {
        let mut b = SpriteSheetBuilder::new("same".to_string());
        b.add_sprite("a".to_string(), solid(3, 7, px(1, 2, 3, 255)));
        b.add_sprite("b".to_string(), solid(5, 2, px(4, 5, 6, 128)));
        b.add_sprite("a".to_string(), solid(2, 2, px(7, 8, 9, 255)));
        b.compose().expect("composition succeeds")
    };
    let a1 = build();
    let a2 = build();
    assert_eq!(sprite_atlas::json::to_json(&a1.sheet), sprite_atlas::json::to_json(&a2.sheet));
    assert_eq!(a1.canvas.width(), a2.canvas.width());
    assert_eq!(a1.canvas.height(), a2.canvas.height());
    for y in 0..a1.canvas.height() {
        for x in 0..a1.canvas.width() {
            assert_eq!(a1.canvas.get_pixel(x, y), a2.canvas.get_pixel(x, y));
        }
    }
}
