use sprite_atlas::bitmap::{Bitmap, Pixel};
use sprite_atlas::blend2sheet;
use sprite_atlas::blend2sheet::Blend2SheetError;
use sprite_atlas::mega_sheet;
use sprite_atlas::mega_sheet::MegaSheetError;
use sprite_atlas::paths::{path_extension, path_has_extension};
use sprite_atlas::spritesheet_gen::{find_value, make_group_key, sheet_name_for, AnimationNaming};

#[test]
fn extension_detection() {
    assert!(path_has_extension("out.png"));
    assert!(path_has_extension("a/b.c"));
    assert!(path_has_extension("dir.with.dots/file.tar.gz"));
    assert!(!path_has_extension("out"));
    assert!(!path_has_extension("a.b/c"));
    assert!(!path_has_extension(".."));
    assert!(!path_has_extension(".bashrc"));
    assert!(!path_has_extension("trailing/"));
    assert!(!path_has_extension(""));
}

#[test]
fn extension_value() {
    assert_eq!(path_extension("model.blend"), Some("blend"));
    assert_eq!(path_extension("a/b/c.tar.gz"), Some("gz"));
    assert_eq!(path_extension("plain"), None);
    assert_eq!(path_extension(".bashrc"), None);
}

#[test]
fn blend2sheet_validate_errors() {
    let ok = |f: &str, fe, ff, oe, od, w, h, r| {
        blend2sheet::validate(f, fe, ff, oe, od, w, h, r)
    };
    assert_eq!(
        ok("m.blend", false, false, false, false, 1, 1, 1),
        Err(Blend2SheetError::BlenderFileMissing)
    );
    assert_eq!(
        ok("m.blend", true, false, false, false, 1, 1, 1),
        Err(Blend2SheetError::BlenderFileNotAFile)
    );
    assert_eq!(
        ok("m.txt", true, true, false, false, 1, 1, 1),
        Err(Blend2SheetError::BlenderFileNotBlend)
    );
    assert_eq!(
        ok("m", true, true, false, false, 1, 1, 1),
        Err(Blend2SheetError::BlenderFileNotBlend)
    );
    assert_eq!(
        ok("m.blend", true, true, true, false, 1, 1, 1),
        Err(Blend2SheetError::OutputDirectoryNotADirectory)
    );
    assert_eq!(
        ok("m.blend", true, true, true, true, 0, 1, 1),
        Err(Blend2SheetError::SpriteWidthZero)
    );
    assert_eq!(
        ok("m.blend", true, true, false, false, 1, 0, 1),
        Err(Blend2SheetError::SpriteHeightZero)
    );
    assert_eq!(
        ok("m.blend", true, true, true, true, 1, 1, 0),
        Err(Blend2SheetError::NumRotationsZero)
    );
    assert_eq!(ok("m.blend", true, true, true, true, 32, 32, 8), Ok(()));
}

#[test]
fn mega_sheet_validate_errors() {
    let v = |n: &str, se, sd, oe, od, w, h, r| {
        mega_sheet::validate(n, se, sd, oe, od, w, h, r)
    };
    assert_eq!(v("", true, true, true, true, 1, 1, 1), Err(MegaSheetError::OutputNameEmpty));
    assert_eq!(
        v("s", false, false, true, true, 1, 1, 1),
        Err(MegaSheetError::SourceDirectoryMissing)
    );
    assert_eq!(
        v("s", true, false, true, true, 1, 1, 1),
        Err(MegaSheetError::SourceNotADirectory)
    );
    assert_eq!(
        v("s", true, true, true, false, 1, 1, 1),
        Err(MegaSheetError::OutputDirectoryNotADirectory)
    );
    assert_eq!(v("s", true, true, false, false, 0, 1, 1), Err(MegaSheetError::SpriteWidthZero));
    assert_eq!(v("s", true, true, true, true, 1, 0, 1), Err(MegaSheetError::SpriteHeightZero));
    assert_eq!(v("s", true, true, true, true, 1, 1, 0), Err(MegaSheetError::NumRotationsZero));
    assert_eq!(v("s", true, true, true, true, 64, 64, 8), Ok(()));
}

#[test]
fn find_value_extracts_token() {
    let name = "render[VIEWTYPE-Isometric][FILE-hero][ANIMATION-walk][PERSPECTIVE-0].png";
    assert_eq!(find_value("[VIEWTYPE-", name).as_deref(), Some("Isometric"));
    assert_eq!(find_value("[FILE-", name).as_deref(), Some("hero"));
    assert_eq!(find_value("[ANIMATION-", name).as_deref(), Some("walk"));
    assert_eq!(find_value("[PERSPECTIVE-", name).as_deref(), Some("0"));
    assert_eq!(find_value("[MISSING-", name), None);
}

#[test]
fn find_value_trims_blanks() {
    assert_eq!(find_value("[FILE-", "x[FILE- hero ]y").as_deref(), Some("hero"));
    assert_eq!(find_value("[FILE-", "x[FILE-]y").as_deref(), Some(""));
}

#[test]
fn find_value_without_closing_bracket_reads_to_end() {
    assert_eq!(find_value("[FILE-", "x[FILE-hero").as_deref(), Some("hero"));
}

#[test]
fn group_key_joins_with_dots() {
    let k = make_group_key("hero", "Isometric", "walk", "0");
    assert_eq!(k, "hero.Isometric.walk.0");
}

#[test]
fn sheet_names_follow_convention() {
    assert_eq!(
        sheet_name_for(AnimationNaming::SingleObject, Some("hero".to_string())),
        "hero"
    );
    assert_eq!(sheet_name_for(AnimationNaming::SingleObject, None), "");
    assert_eq!(sheet_name_for(AnimationNaming::MultiObject, None), "MegaSheet");
}

#[test]
fn from_raw_checks_pixel_count() {
    let p = Pixel { r: 0, g: 0, b: 0, a: 0 };
    assert!(Bitmap::from_raw(2, 2, vec![p; 4]).is_some());
    assert!(Bitmap::from_raw(2, 2, vec![p; 3]).is_none());
    let b = Bitmap::from_raw(3, 1, vec![p; 3]).unwrap();
    assert_eq!(b.width(), 3);
    assert_eq!(b.height(), 1);
}

#[test]
fn blit_copies_rectangle() {
    let clear = Pixel { r: 0, g: 0, b: 0, a: 0 };
    let red = Pixel { r: 200, g: 0, b: 0, a: 255 };
    let mut canvas = Bitmap::new(4, 4);
    let sprite = Bitmap::from_raw(2, 2, vec![red; 4]).unwrap();
    canvas.blit(1, 1, &sprite);
    assert_eq!(canvas.get_pixel(0, 0), clear);
    assert_eq!(canvas.get_pixel(1, 1), red);
    assert_eq!(canvas.get_pixel(2, 2), red);
    assert_eq!(canvas.get_pixel(3, 3), clear);
}
