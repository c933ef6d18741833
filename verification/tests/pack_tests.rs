use sprite_atlas::pack::{pack, PackError, Packing, SpriteDim};

fn dims(list: &[(u32, u32)]) -> Vec<SpriteDim> {
    list.iter().map(|&(w, h)| SpriteDim { width: w, height: h }).collect()
}

fn overlap(p: &Packing, d: &[SpriteDim], i: usize, j: usize) -> bool {
    let (a, b) = (&p.placements[i], &p.placements[j]);
    let (da, db) = (&d[i], &d[j]);
    if da.width == 0 || da.height == 0 || db.width == 0 || db.height == 0 {
        return false;
    }
    a.x < b.x + db.width
        && b.x < a.x + da.width
        && a.y < b.y + db.height
        && b.y < a.y + da.height
}

#[test]
fn pack_empty_is_zero_canvas() {
    let p = pack(&Vec::new()).expect("empty packing succeeds");
    assert_eq!(p.width, 0);
    assert_eq!(p.height, 0);
    assert!(p.placements.is_empty());
}

#[test]
fn pack_single_sprite_at_origin() {
    let d = dims(&[(4, 4)]);
    let p = pack(&d).expect("packing succeeds");
    assert_eq!(p.width, 4);
    assert_eq!(p.height, 4);
    assert_eq!(p.placements[0].x, 0);
    assert_eq!(p.placements[0].y, 0);
}

#[test]
fn pack_sorts_by_height_descending() {
    // Heights 10, 5, 20: the tallest is placed first, at the origin.
    let d = dims(&[(3, 10), (3, 5), (3, 20)]);
    let p = pack(&d).expect("packing succeeds");
    assert_eq!(p.width, 8);
    assert_eq!(p.height, 32);
    assert_eq!((p.placements[2].x, p.placements[2].y), (0, 0));
    assert_eq!((p.placements[0].x, p.placements[0].y), (3, 0));
    assert_eq!((p.placements[1].x, p.placements[1].y), (0, 20));
}

#[test]
fn pack_equal_heights_keep_input_order() {
    let d = dims(&[(2, 4), (3, 4), (4, 4)]);
    let p = pack(&d).expect("packing succeeds");
    // All the same height: placed left to right in input order; the third
    // sprite no longer fits the 8-wide canvas row and wraps below.
    assert_eq!(p.width, 8);
    assert_eq!((p.placements[0].x, p.placements[0].y), (0, 0));
    assert_eq!((p.placements[1].x, p.placements[1].y), (2, 0));
    assert_eq!((p.placements[2].x, p.placements[2].y), (0, 4));
}

#[test]
fn pack_placements_disjoint_and_contained() {
    let d = dims(&[(7, 3), (2, 9), (5, 5), (1, 1), (8, 2), (3, 3), (6, 4)]);
    let p = pack(&d).expect("packing succeeds");
    assert_eq!(p.placements.len(), d.len());
    for i in 0..d.len() {
        assert!(p.placements[i].x + d[i].width <= p.width);
        assert!(p.placements[i].y + d[i].height <= p.height);
        for j in 0..i {
            assert!(!overlap(&p, &d, i, j), "sprites {} and {} overlap", i, j);
        }
    }
}

#[test]
fn pack_wide_sprite_grows_width() {
    // A single sprite far wider than the average-derived target still fits.
    let d = dims(&[(100, 2), (2, 2), (2, 2), (2, 2)]);
    let p = pack(&d).expect("packing succeeds");
    assert!(p.width >= 100);
    for i in 0..d.len() {
        assert!(p.placements[i].x + d[i].width <= p.width);
        assert!(p.placements[i].y + d[i].height <= p.height);
    }
}

#[test]
fn pack_is_deterministic() {
    let d = dims(&[(3, 10), (4, 5), (5, 20), (3, 10)]);
    let p1 = pack(&d).expect("packing succeeds");
    let p2 = pack(&d).expect("packing succeeds");
    assert_eq!(p1.width, p2.width);
    assert_eq!(p1.height, p2.height);
    assert_eq!(p1.placements, p2.placements);
}

#[test]
fn pack_reports_oversized_atlas() {
    // A sprite as wide as the coordinate space forces the canvas width to
    // the next power of two, which no longer fits `u32` dimensions.
    let d = dims(&[(u32::MAX, 2)]);
    assert!(matches!(pack(&d), Err(PackError::AtlasTooLarge)));
}
