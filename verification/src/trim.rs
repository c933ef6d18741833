//! Trimming a bitmap to the tight bounding box of its opaque content.
//!
//! A pixel is content when its alpha channel is non-zero. Trimming crops a
//! bitmap to the smallest rectangle that holds all of its content and records
//! how far that rectangle sits from the original top-left corner and from the
//! original centre. A bitmap without any content trims to a fully transparent
//! placeholder of half the original width and half the original height, so
//! that whitespace glyphs still occupy a sized slot in an atlas.

use vstd::prelude::*;
use crate::bitmap::{Bitmap, BitmapView, is_content};

verus! {

/// True when column `x` of `b` holds a content pixel.
pub open spec fn col_has_content(b: BitmapView, x: int) -> bool {
    exists|y: int| 0 <= y < b.height && is_content(#[trigger] b.pix(x, y))
}

/// True when row `y` of `b` holds a content pixel.
pub open spec fn row_has_content(b: BitmapView, y: int) -> bool {
    exists|x: int| 0 <= x < b.width && is_content(#[trigger] b.pix(x, y))
}

/// The first column at or after `x` that holds content; `b.width` when none
/// does.
pub open spec fn first_content_col_from(b: BitmapView, x: int) -> int
    decreases b.width - x,
{
    if x < 0 || x >= b.width {
        b.width
    } else if col_has_content(b, x) {
        x
    } else {
        first_content_col_from(b, x + 1)
    }
}

/// The last column at or before `x` that holds content; `-1` when none does.
pub open spec fn last_content_col_from(b: BitmapView, x: int) -> int
    decreases x + 1,
{
    if x < 0 || x >= b.width {
        -1
    } else if col_has_content(b, x) {
        x
    } else {
        last_content_col_from(b, x - 1)
    }
}

/// The first row at or after `y` that holds content; `b.height` when none
/// does.
pub open spec fn first_content_row_from(b: BitmapView, y: int) -> int
    decreases b.height - y,
{
    if y < 0 || y >= b.height {
        b.height
    } else if row_has_content(b, y) {
        y
    } else {
        first_content_row_from(b, y + 1)
    }
}

/// The last row at or before `y` that holds content; `-1` when none does.
pub open spec fn last_content_row_from(b: BitmapView, y: int) -> int
    decreases y + 1,
{
    if y < 0 || y >= b.height {
        -1
    } else if row_has_content(b, y) {
        y
    } else {
        last_content_row_from(b, y - 1)
    }
}

/// The leftmost content column of `b`, or `b.width` when `b` has none.
pub open spec fn min_content_col(b: BitmapView) -> int {
    first_content_col_from(b, 0)
}

/// The rightmost content column of `b`, or `-1` when `b` has none.
pub open spec fn max_content_col(b: BitmapView) -> int {
    last_content_col_from(b, b.width - 1)
}

/// The topmost content row of `b`, or `b.height` when `b` has none.
pub open spec fn min_content_row(b: BitmapView) -> int {
    first_content_row_from(b, 0)
}

/// The bottommost content row of `b`, or `-1` when `b` has none.
pub open spec fn max_content_row(b: BitmapView) -> int {
    last_content_row_from(b, b.height - 1)
}

/// The `w × h` sub-rectangle of `b` whose top-left corner is `(x0, y0)`.
pub open spec fn crop_spec(b: BitmapView, x0: int, y0: int, w: int, h: int) -> BitmapView {
    BitmapView {
        width: w,
        height: h,
        rows: Seq::new(h as nat, |r: int| Seq::new(w as nat, |c: int| b.pix(x0 + c, y0 + r))),
    }
}

proof fn lemma_first_content_col_props(b: BitmapView, lo: int)
    requires
        0 <= lo <= b.width,
    ensures
        lo <= first_content_col_from(b, lo) <= b.width,
        first_content_col_from(b, lo) < b.width ==> col_has_content(b, first_content_col_from(b, lo)),
        forall|j: int| lo <= j < first_content_col_from(b, lo) ==> !col_has_content(b, j),
    decreases b.width - lo,
{
    if lo < b.width && !col_has_content(b, lo) {
        lemma_first_content_col_props(b, lo + 1);
    }
}

proof fn lemma_last_content_col_props(b: BitmapView, hi: int)
    requires
        -1 <= hi < b.width,
    ensures
        -1 <= last_content_col_from(b, hi) <= hi,
        last_content_col_from(b, hi) >= 0 ==> col_has_content(b, last_content_col_from(b, hi)),
        forall|j: int| last_content_col_from(b, hi) < j <= hi ==> !col_has_content(b, j),
    decreases hi + 1,
{
    if hi >= 0 && !col_has_content(b, hi) {
        lemma_last_content_col_props(b, hi - 1);
    }
}

proof fn lemma_first_content_row_props(b: BitmapView, lo: int)
    requires
        0 <= lo <= b.height,
    ensures
        lo <= first_content_row_from(b, lo) <= b.height,
        first_content_row_from(b, lo) < b.height ==> row_has_content(b, first_content_row_from(b, lo)),
        forall|j: int| lo <= j < first_content_row_from(b, lo) ==> !row_has_content(b, j),
    decreases b.height - lo,
{
    if lo < b.height && !row_has_content(b, lo) {
        lemma_first_content_row_props(b, lo + 1);
    }
}

proof fn lemma_last_content_row_props(b: BitmapView, hi: int)
    requires
        -1 <= hi < b.height,
    ensures
        -1 <= last_content_row_from(b, hi) <= hi,
        last_content_row_from(b, hi) >= 0 ==> row_has_content(b, last_content_row_from(b, hi)),
        forall|j: int| last_content_row_from(b, hi) < j <= hi ==> !row_has_content(b, j),
    decreases hi + 1,
{
    if hi >= 0 && !row_has_content(b, hi) {
        lemma_last_content_row_props(b, hi - 1);
    }
}

/// A bitmap has content exactly when some column (equivalently, some row)
/// holds a content pixel; the scans agree with that.
pub proof fn lemma_has_content_bounds(b: BitmapView)
    requires
        b.width >= 0,
        b.height >= 0,
    ensures
        b.has_content() <==> min_content_col(b) < b.width,
        b.has_content() <==> min_content_row(b) < b.height,
        b.has_content() ==> {
            &&& 0 <= min_content_col(b) <= max_content_col(b) < b.width
            &&& 0 <= min_content_row(b) <= max_content_row(b) < b.height
            &&& col_has_content(b, min_content_col(b))
            &&& col_has_content(b, max_content_col(b))
            &&& row_has_content(b, min_content_row(b))
            &&& row_has_content(b, max_content_row(b))
            &&& forall|j: int| 0 <= j < min_content_col(b) ==> !col_has_content(b, j)
            &&& forall|j: int| max_content_col(b) < j < b.width ==> !col_has_content(b, j)
            &&& forall|j: int| 0 <= j < min_content_row(b) ==> !row_has_content(b, j)
            &&& forall|j: int| max_content_row(b) < j < b.height ==> !row_has_content(b, j)
        },
{
    lemma_first_content_col_props(b, 0);
    lemma_last_content_col_props(b, b.width - 1);
    lemma_first_content_row_props(b, 0);
    lemma_last_content_row_props(b, b.height - 1);
    if b.has_content() {
        let (x, y) = choose|x: int, y: int| b.in_bounds(x, y) && is_content(b.pix(x, y));
        assert(col_has_content(b, x));
        assert(row_has_content(b, y));
        assert(min_content_col(b) <= x) by {
            if min_content_col(b) > x {
                assert(!col_has_content(b, x));
            }
        }
        assert(max_content_col(b) >= x) by {
            if max_content_col(b) < x {
                assert(!col_has_content(b, x));
            }
        }
        assert(min_content_row(b) <= y) by {
            if min_content_row(b) > y {
                assert(!row_has_content(b, y));
            }
        }
        assert(max_content_row(b) >= y) by {
            if max_content_row(b) < y {
                assert(!row_has_content(b, y));
            }
        }
    } else {
        if min_content_col(b) < b.width {
            let mx = min_content_col(b);
            assert(col_has_content(b, mx));
            let y = choose|y: int| 0 <= y < b.height && is_content(b.pix(mx, y));
            assert(b.in_bounds(mx, y) && is_content(b.pix(mx, y)));
        }
        if min_content_row(b) < b.height {
            let my = min_content_row(b);
            assert(row_has_content(b, my));
            let x = choose|x: int| 0 <= x < b.width && is_content(b.pix(x, my));
            assert(b.in_bounds(x, my) && is_content(b.pix(x, my)));
        }
    }
}

/// The result of trimming, as a mathematical value.
pub ghost struct TrimView {
    pub bitmap: BitmapView,
    pub top_left_offset_x: int,
    pub top_left_offset_y: int,
    pub center_offset_x: int,
    pub center_offset_y: int,
}

/// What trimming returns: for a bitmap with content, the crop to the
/// inclusive content rectangle together with its top-left corner and the
/// signed distance from the original half-size centre to that corner; for a
/// bitmap without content, a fully transparent placeholder of half the
/// original dimensions.
pub open spec fn trim_spec(b: BitmapView) -> TrimView {
    if b.has_content() {
        let min_x = min_content_col(b);
        let max_x = max_content_col(b);
        let min_y = min_content_row(b);
        let max_y = max_content_row(b);
        TrimView {
            bitmap: crop_spec(b, min_x, min_y, max_x - min_x + 1, max_y - min_y + 1),
            top_left_offset_x: min_x,
            top_left_offset_y: min_y,
            center_offset_x: b.width / 2 - min_x,
            center_offset_y: b.height / 2 - min_y,
        }
    } else {
        TrimView {
            bitmap: BitmapView::transparent(b.width / 2, b.height / 2),
            top_left_offset_x: b.width / 2,
            top_left_offset_y: b.height / 2,
            center_offset_x: b.width / 2 - (if b.width > 0 { b.width - 1 } else { 0 }),
            center_offset_y: b.height / 2 - (if b.height > 0 { b.height - 1 } else { 0 }),
        }
    }
}

/// The result of trimming a bitmap.
pub struct TrimOutput {
    /// The cropped (or placeholder) bitmap.
    pub bitmap: Bitmap,
    /// Distance from the original left edge to the trimmed region.
    pub top_left_offset_x: u32,
    /// Distance from the original top edge to the trimmed region.
    pub top_left_offset_y: u32,
    /// Signed distance from the original horizontal half-width to the
    /// trimmed region's left edge.
    pub center_offset_x: i32,
    /// Signed distance from the original vertical half-height to the trimmed
    /// region's top edge.
    pub center_offset_y: i32,
}

impl View for TrimOutput {
    type V = TrimView;

    open spec fn view(&self) -> TrimView {
        TrimView {
            bitmap: self.bitmap@,
            top_left_offset_x: self.top_left_offset_x as int,
            top_left_offset_y: self.top_left_offset_y as int,
            center_offset_x: self.center_offset_x as int,
            center_offset_y: self.center_offset_y as int,
        }
    }
}

/// Reports whether column `x` of `img` holds a content pixel.
fn col_has_content_exec(img: &Bitmap, x: u32) -> (r: bool)
    requires
        img.valid(),
        0 <= x < img@.width,
    ensures
        r == col_has_content(img@, x as int),
{
    let h = img.height();
    let mut y: u32 = 0;
    while y < h
        invariant
            img.valid(),
            x < img@.width,
            h == img@.height,
            y <= h,
            forall|j: int| 0 <= j < y ==> !is_content(#[trigger] img@.pix(x as int, j)),
        decreases h - y,
    {
        if img.get_pixel(x, y).a != 0 {
            return true;
        }
        y = y + 1;
    }
    false
}

/// Reports whether row `y` of `img` holds a content pixel.
fn row_has_content_exec(img: &Bitmap, y: u32) -> (r: bool)
    requires
        img.valid(),
        0 <= y < img@.height,
    ensures
        r == row_has_content(img@, y as int),
{
    let w = img.width();
    let mut x: u32 = 0;
    while x < w
        invariant
            img.valid(),
            y < img@.height,
            w == img@.width,
            x <= w,
            forall|j: int| 0 <= j < x ==> !is_content(#[trigger] img@.pix(j, y as int)),
        decreases w - x,
    {
        if img.get_pixel(x, y).a != 0 {
            return true;
        }
        x = x + 1;
    }
    false
}

/// Finds the leftmost content column, or `img.width` when there is none.
fn find_min_col(img: &Bitmap) -> (r: u32)
    requires
        img.valid(),
    ensures
        r as int == min_content_col(img@),
        r <= img@.width,
{
    let w = img.width();
    let mut x: u32 = 0;
    while x < w
        invariant
            img.valid(),
            w == img@.width,
            x <= w,
            forall|j: int| 0 <= j < x ==> !col_has_content(img@, j),
        decreases w - x,
    {
        if col_has_content_exec(img, x) {
            proof {
                lemma_first_content_col_props(img@, 0);
                if min_content_col(img@) < x {
                    assert(col_has_content(img@, min_content_col(img@)));
                }
                if min_content_col(img@) > x {
                    assert(!col_has_content(img@, x as int));
                }
            }
            return x;
        }
        x = x + 1;
    }
    proof {
        lemma_first_content_col_props(img@, 0);
        if min_content_col(img@) < w {
            assert(col_has_content(img@, min_content_col(img@)));
        }
    }
    w
}

/// Finds the rightmost content column; may only be called when one exists.
fn find_max_col(img: &Bitmap) -> (r: u32)
    requires
        img.valid(),
        img@.has_content(),
    ensures
        r as int == max_content_col(img@),
{
    proof {
        lemma_has_content_bounds(img@);
    }
    let w = img.width();
    let mut x: u32 = w - 1;
    loop
        invariant
            img.valid(),
            w == img@.width,
            0 <= x < w,
            max_content_col(img@) <= x,
            0 <= max_content_col(img@),
        ensures
            x as int == max_content_col(img@),
        decreases x,
    {
        if col_has_content_exec(img, x) {
            proof {
                lemma_last_content_col_props(img@, img@.width - 1);
                if max_content_col(img@) < x {
                    assert(!col_has_content(img@, x as int));
                }
            }
            break;
        }
        proof {
            lemma_last_content_col_props(img@, img@.width - 1);
            if max_content_col(img@) == x {
                assert(col_has_content(img@, x as int));
            }
        }
        x = x - 1;
    }
    x
}

/// Finds the topmost content row, or `img.height` when there is none.
fn find_min_row(img: &Bitmap) -> (r: u32)
    requires
        img.valid(),
    ensures
        r as int == min_content_row(img@),
        r <= img@.height,
{
    let h = img.height();
    let mut y: u32 = 0;
    while y < h
        invariant
            img.valid(),
            h == img@.height,
            y <= h,
            forall|j: int| 0 <= j < y ==> !row_has_content(img@, j),
        decreases h - y,
    {
        if row_has_content_exec(img, y) {
            proof {
                lemma_first_content_row_props(img@, 0);
                if min_content_row(img@) < y {
                    assert(row_has_content(img@, min_content_row(img@)));
                }
                if min_content_row(img@) > y {
                    assert(!row_has_content(img@, y as int));
                }
            }
            return y;
        }
        y = y + 1;
    }
    proof {
        lemma_first_content_row_props(img@, 0);
        if min_content_row(img@) < h {
            assert(row_has_content(img@, min_content_row(img@)));
        }
    }
    h
}

/// Finds the bottommost content row; may only be called when one exists.
fn find_max_row(img: &Bitmap) -> (r: u32)
    requires
        img.valid(),
        img@.has_content(),
    ensures
        r as int == max_content_row(img@),
{
    proof {
        lemma_has_content_bounds(img@);
    }
    let h = img.height();
    let mut y: u32 = h - 1;
    loop
        invariant
            img.valid(),
            h == img@.height,
            0 <= y < h,
            max_content_row(img@) <= y,
            0 <= max_content_row(img@),
        ensures
            y as int == max_content_row(img@),
        decreases y,
    {
        if row_has_content_exec(img, y) {
            proof {
                lemma_last_content_row_props(img@, img@.height - 1);
                if max_content_row(img@) < y {
                    assert(!row_has_content(img@, y as int));
                }
            }
            break;
        }
        proof {
            lemma_last_content_row_props(img@, img@.height - 1);
            if max_content_row(img@) == y {
                assert(row_has_content(img@, y as int));
            }
        }
        y = y - 1;
    }
    y
}

/// Crops `img` to the tight bounding box of its content, or produces the
/// transparent half-size placeholder when it has none.
pub fn trim(img: &Bitmap) -> (r: TrimOutput)
    requires
        img.valid(),
    ensures
        r.bitmap.valid(),
        r@ == trim_spec(img@),
{
    proof {
        img.lemma_valid_wf();
        lemma_has_content_bounds(img@);
    }
    let w = img.width();
    let h = img.height();
    let min_x = find_min_col(img);
    if min_x == w {
        let pw = w / 2;
        let ph = h / 2;
        proof {
            assert((pw as int) * (ph as int) <= (w as int) * (h as int)) by (nonlinear_arith)
                requires
                    0 <= pw <= w,
                    0 <= ph <= h;
        }
        let bitmap = Bitmap::new(pw, ph);
        let cox: i32 = (pw as i64 - (if w > 0 { (w - 1) as i64 } else { 0i64 })) as i32;
        let coy: i32 = (ph as i64 - (if h > 0 { (h - 1) as i64 } else { 0i64 })) as i32;
        TrimOutput {
            bitmap,
            top_left_offset_x: pw,
            top_left_offset_y: ph,
            center_offset_x: cox,
            center_offset_y: coy,
        }
    } else {
        let max_x = find_max_col(img);
        let min_y = find_min_row(img);
        let max_y = find_max_row(img);
        let cw = max_x - min_x + 1;
        let ch = max_y - min_y + 1;
        proof {
            assert((cw as int) * (ch as int) <= (w as int) * (h as int)) by (nonlinear_arith)
                requires
                    0 <= cw <= w,
                    0 <= ch <= h;
        }
        let mut bitmap = Bitmap::new(cw, ch);
        bitmap.copy_rect(0, 0, img, min_x, min_y, cw, ch);
        proof {
            let cs = crop_spec(img@, min_x as int, min_y as int, cw as int, ch as int);
            assert forall|r: int| 0 <= r < ch implies bitmap@.rows[r] =~= cs.rows[r] by {
                assert forall|c: int| 0 <= c < cw implies bitmap@.rows[r][c] == cs.rows[r][c] by {
                    assert(bitmap@.pix(c, r) == img@.pix(min_x + c, min_y + r));
                }
            }
            assert(bitmap@.rows =~= cs.rows);
        }
        let cox: i32 = ((w / 2) as i64 - min_x as i64) as i32;
        let coy: i32 = ((h / 2) as i64 - min_y as i64) as i32;
        TrimOutput {
            bitmap,
            top_left_offset_x: min_x,
            top_left_offset_y: min_y,
            center_offset_x: cox,
            center_offset_y: coy,
        }
    }
}

/// Trimming an already-trimmed bitmap — one whose content touches all four
/// edges — returns it unchanged, with zero top-left offsets and centre
/// offsets equal to the half dimensions.
pub proof fn lemma_trim_idempotent(b: BitmapView)
    requires
        b.wf(),
        col_has_content(b, 0),
        col_has_content(b, b.width - 1),
        row_has_content(b, 0),
        row_has_content(b, b.height - 1),
    ensures
        trim_spec(b).bitmap == b,
        trim_spec(b).top_left_offset_x == 0,
        trim_spec(b).top_left_offset_y == 0,
        trim_spec(b).center_offset_x == b.width / 2,
        trim_spec(b).center_offset_y == b.height / 2,
{
    let y = choose|y: int| 0 <= y < b.height && is_content(b.pix(0, y));
    assert(b.in_bounds(0, y) && is_content(b.pix(0, y)));
    assert(b.has_content());
    lemma_has_content_bounds(b);
    assert(min_content_col(b) == 0);
    assert(min_content_row(b) == 0);
    assert(max_content_col(b) == b.width - 1);
    assert(max_content_row(b) == b.height - 1);
    let cs = crop_spec(b, 0, 0, b.width, b.height);
    assert forall|r: int| 0 <= r < b.height implies cs.rows[r] =~= b.rows[r] by {
        assert forall|c: int| 0 <= c < b.width implies cs.rows[r][c] == b.rows[r][c] by {
            assert(cs.rows[r][c] == b.pix(c, r));
        }
    }
    assert(cs.rows =~= b.rows);
}

/// A fully transparent bitmap trims to a fully transparent bitmap of half
/// the width and half the height, with top-left offsets equal to those half
/// dimensions.
pub proof fn lemma_trim_transparent(b: BitmapView)
    requires
        b.wf(),
        !b.has_content(),
    ensures
        trim_spec(b).bitmap == BitmapView::transparent(b.width / 2, b.height / 2),
        !trim_spec(b).bitmap.has_content(),
        trim_spec(b).top_left_offset_x == b.width / 2,
        trim_spec(b).top_left_offset_y == b.height / 2,
{
    let t = BitmapView::transparent(b.width / 2, b.height / 2);
    if t.has_content() {
        let (x, y) = choose|x: int, y: int| t.in_bounds(x, y) && is_content(t.pix(x, y));
        assert(t.pix(x, y) == crate::bitmap::transparent_pixel());
    }
}


/// Centre-offset correctness: for a bitmap whose content occupies exactly
/// the columns from `min_content_col` to `max_content_col` and the rows
/// from `min_content_row` to `max_content_row`, the centre offsets are the
/// half dimensions minus the content minima, and the top-left offsets are
/// the minima themselves.
pub proof fn lemma_center_offsets(b: BitmapView)
    requires
        b.wf(),
        b.has_content(),
    ensures
        trim_spec(b).center_offset_x == b.width / 2 - min_content_col(b),
        trim_spec(b).center_offset_y == b.height / 2 - min_content_row(b),
        trim_spec(b).top_left_offset_x == min_content_col(b),
        trim_spec(b).top_left_offset_y == min_content_row(b),
        trim_spec(b).bitmap.width == max_content_col(b) - min_content_col(b) + 1,
        trim_spec(b).bitmap.height == max_content_row(b) - min_content_row(b) + 1,
{
}

} // verus!

