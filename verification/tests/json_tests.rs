use sprite_atlas::bitmap::{Bitmap, Pixel};
use sprite_atlas::json::to_json;
use sprite_atlas::sheet::SpriteSheetBuilder;

fn solid(width: u32, height: u32) -> Bitmap {
    let p = Pixel { r: 1, g: 2, b: 3, a: 255 };
    Bitmap::from_raw(width, height, vec![p; (width * height) as usize])
        .expect("dimensions match pixel count")
}

#[test]
fn empty_sheet_serializes_exactly() {
    let b = SpriteSheetBuilder::new("empty".to_string());
    let atlas = b.compose().expect("composition succeeds");
    let bytes = to_json(&atlas.sheet);
    let text = String::from_utf8(bytes).expect("valid utf-8");
    assert_eq!(
        text,
        "{\n  \"width\": 0,\n  \"height\": 0,\n  \"name\": \"empty\",\n  \"sprites\": {}\n}"
    );
}

#[test]
fn single_frame_serializes_exactly() {
    let mut b = SpriteSheetBuilder::new("one".to_string());
    b.add_sprite("A".to_string(), solid(4, 4));
    let atlas = b.compose().expect("composition succeeds");
    let text = String::from_utf8(to_json(&atlas.sheet)).expect("valid utf-8");
    let expected = "{\n  \"width\": 4,\n  \"height\": 4,\n  \"name\": \"one\",\n  \"sprites\": {\n    \"A\": [\n      {\n        \"x\": 0,\n        \"y\": 0,\n        \"width\": 4,\n        \"height\": 4,\n        \"original_width\": 4,\n        \"original_height\": 4,\n        \"top_left_offset_x\": 0,\n        \"top_left_offset_y\": 0,\n        \"center_offset_x\": 2,\n        \"center_offset_y\": 2\n      }\n    ]\n  }\n}";
    assert_eq!(text, expected);
}

#[test]
fn output_parses_as_json_with_expected_values() {
    let mut b = SpriteSheetBuilder::new("parse-me".to_string());
    b.add_sprite("walk".to_string(), solid(3, 10));
    b.add_sprite("walk".to_string(), solid(3, 5));
    b.add_sprite("idle".to_string(), solid(3, 20));
    let atlas = b.compose().expect("composition succeeds");
    let text = String::from_utf8(to_json(&atlas.sheet)).expect("valid utf-8");
    let v: serde_json::Value = serde_json::from_str(&text).expect("output is valid JSON");
    assert_eq!(v["width"].as_u64().unwrap() as u32, atlas.sheet.width);
    assert_eq!(v["height"].as_u64().unwrap() as u32, atlas.sheet.height);
    assert_eq!(v["name"].as_str().unwrap(), "parse-me");
    let walk = v["sprites"]["walk"].as_array().unwrap();
    assert_eq!(walk.len(), 2);
    assert_eq!(walk[0]["height"].as_u64().unwrap(), 10);
    assert_eq!(walk[1]["height"].as_u64().unwrap(), 5);
    let idle = v["sprites"]["idle"].as_array().unwrap();
    assert_eq!(idle.len(), 1);
    assert_eq!(idle[0]["height"].as_u64().unwrap(), 20);
    assert_eq!(idle[0]["x"].as_u64().unwrap(), 0);
    assert_eq!(idle[0]["y"].as_u64().unwrap(), 0);
}

#[test]
fn names_are_escaped() {
    let b = SpriteSheetBuilder::new("a\"b\\c\nd".to_string());
    let atlas = b.compose().expect("composition succeeds");
    let text = String::from_utf8(to_json(&atlas.sheet)).expect("valid utf-8");
    let v: serde_json::Value = serde_json::from_str(&text).expect("output is valid JSON");
    assert_eq!(v["name"].as_str().unwrap(), "a\"b\\c\nd");
    assert!(text.contains("\\\"") && text.contains("\\\\") && text.contains("\\n"));
}

#[test]
fn negative_center_offsets_serialize_with_sign() {
    // Content sits right of centre, so the centre offset is negative.
    let mut pixels = vec![Pixel { r: 0, g: 0, b: 0, a: 0 }; 10];
    pixels[8] = Pixel { r: 0, g: 0, b: 0, a: 255 };
    let bmp = Bitmap::from_raw(10, 1, pixels).expect("dimensions match pixel count");
    let mut b = SpriteSheetBuilder::new("neg".to_string());
    b.add_sprite("A".to_string(), bmp);
    let atlas = b.compose().expect("composition succeeds");
    let text = String::from_utf8(to_json(&atlas.sheet)).expect("valid utf-8");
    assert!(text.contains("\"center_offset_x\": -3"));
    let v: serde_json::Value = serde_json::from_str(&text).expect("output is valid JSON");
    assert_eq!(v["sprites"]["A"][0]["center_offset_x"].as_i64().unwrap(), -3);
}

#[test]
fn unicode_names_pass_through() {
    let b = SpriteSheetBuilder::new("日本語 zeichen".to_string());
    let atlas = b.compose().expect("composition succeeds");
    let text = String::from_utf8(to_json(&atlas.sheet)).expect("valid utf-8");
    let v: serde_json::Value = serde_json::from_str(&text).expect("output is valid JSON");
    assert_eq!(v["name"].as_str().unwrap(), "日本語 zeichen");
}
