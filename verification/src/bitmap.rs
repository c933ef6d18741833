//! RGBA bitmaps modelled as rectangular pixel grids.
//!
//! A [`Bitmap`] stores its pixels in a flat row-major vector; its view is a
//! [`BitmapView`], a sequence of rows, so that contracts can speak of the
//! pixel in column `x` of row `y` without any index arithmetic.

use vstd::prelude::*;

verus! {

/// A single RGBA pixel; the alpha channel decides whether the pixel counts
/// as content when a bitmap is trimmed.
#[derive(Clone, Copy, PartialEq, Eq, Structural, Debug)]
pub struct Pixel {
    pub r: u8,
    pub g: u8,
    pub b: u8,
    pub a: u8,
}

/// The fully transparent black pixel that fills fresh canvases.
pub open spec fn transparent_pixel() -> Pixel {
    Pixel { r: 0, g: 0, b: 0, a: 0 }
}

/// A pixel counts as content exactly when its alpha channel is non-zero.
pub open spec fn is_content(p: Pixel) -> bool {
    p.a != 0
}

impl Pixel {
    /// The fully transparent black pixel.
    pub fn transparent() -> (p: Pixel)
        ensures
            p == transparent_pixel(),
    {
        Pixel { r: 0, g: 0, b: 0, a: 0 }
    }
}

/// The mathematical value of a bitmap: its dimensions and its pixels, row by
/// row.
pub ghost struct BitmapView {
    pub width: int,
    pub height: int,
    pub rows: Seq<Seq<Pixel>>,
}

impl BitmapView {
    /// A well-formed bitmap value: every row has the bitmap's width, there is
    /// one row per unit of height, and the dimensions fit the machine.
    pub open spec fn wf(self) -> bool {
        &&& 0 <= self.width <= u32::MAX
        &&& 0 <= self.height <= u32::MAX
        &&& self.width * self.height <= usize::MAX
        &&& self.rows.len() == self.height
        &&& forall|r: int| 0 <= r < self.height ==> (#[trigger] self.rows[r]).len() == self.width
    }

    /// True when `(x, y)` addresses a pixel of the bitmap.
    pub open spec fn in_bounds(self, x: int, y: int) -> bool {
        0 <= x < self.width && 0 <= y < self.height
    }

    /// The pixel in column `x` of row `y`.
    pub open spec fn pix(self, x: int, y: int) -> Pixel
        recommends
            self.in_bounds(x, y),
    {
        self.rows[y][x]
    }

    /// True when some pixel of the bitmap is content.
    pub open spec fn has_content(self) -> bool {
        exists|x: int, y: int| self.in_bounds(x, y) && is_content(self.pix(x, y))
    }

    /// The fully transparent bitmap of the given dimensions.
    pub open spec fn transparent(width: int, height: int) -> BitmapView {
        BitmapView {
            width,
            height,
            rows: Seq::new(height as nat, |r: int| Seq::new(width as nat, |c: int| transparent_pixel())),
        }
    }
}

/// The value of a canvas after `src` has been copied onto `dst` with its
/// top-left corner at `(x, y)`: inside the pasted rectangle the pixels of
/// `src`, elsewhere the pixels of `dst`.
pub open spec fn blit_spec(dst: BitmapView, x: int, y: int, src: BitmapView) -> BitmapView {
    BitmapView {
        width: dst.width,
        height: dst.height,
        rows: Seq::new(dst.height as nat, |r: int| Seq::new(dst.width as nat, |c: int|
            if x <= c < x + src.width && y <= r < y + src.height {
                src.pix(c - x, r - y)
            } else {
                dst.pix(c, r)
            })),
    }
}

/// In a `width`-column row-major layout, distinct coordinates give distinct
/// flat indices, and every index stays below `height * width`.
proof fn lemma_row_major(width: int, height: int, x: int, y: int) by (nonlinear_arith)
    requires
        0 <= x < width,
        0 <= y < height,
    ensures
        0 <= y * width + x < height * width,
        0 <= y * width + x < width * height,
        y * width <= (height - 1) * width,
{
}

/// Distinct coordinates occupy distinct flat indices in a row-major layout.
proof fn lemma_row_major_injective(width: int, x1: int, y1: int, x2: int, y2: int) by (nonlinear_arith)
    requires
        0 <= x1 < width,
        0 <= x2 < width,
        0 <= y1,
        0 <= y2,
        y1 * width + x1 == y2 * width + x2,
    ensures
        x1 == x2 && y1 == y2,
{
}

/// An RGBA bitmap: a rectangular grid of pixels stored row by row.
pub struct Bitmap {
    width: u32,
    height: u32,
    pixels: Vec<Pixel>,
}

impl View for Bitmap {
    type V = BitmapView;

    closed spec fn view(&self) -> BitmapView {
        BitmapView {
            width: self.width as int,
            height: self.height as int,
            rows: Seq::new(self.height as nat, |r: int| Seq::new(self.width as nat, |c: int|
                self.pixels@[r * (self.width as int) + c])),
        }
    }
}

impl Bitmap {
    /// The internal consistency of a bitmap: the pixel store holds exactly
    /// one pixel per grid cell. Constructors establish it and every method
    /// preserves it.
    pub closed spec fn valid(self) -> bool {
        &&& self.pixels@.len() == (self.width as int) * (self.height as int)
        &&& self.pixels@.len() <= usize::MAX
    }

    /// A bitmap that is internally consistent has a well-formed view.
    pub proof fn lemma_valid_wf(&self)
        requires
            self.valid(),
        ensures
            self@.wf(),
    {
    }

    /// Creates a fully transparent bitmap of the given dimensions.
    pub fn new(width: u32, height: u32) -> (r: Bitmap)
        requires
            width * height <= usize::MAX,
        ensures
            r.valid(),
            r@ == BitmapView::transparent(width as int, height as int),
            r@.wf(),
    {
        let n: usize = (width as usize) * (height as usize);
        let mut pixels: Vec<Pixel> = Vec::new();
        while pixels.len() < n
            invariant
                pixels@.len() <= n,
                forall|i: int| 0 <= i < pixels@.len() ==> pixels@[i] == transparent_pixel(),
            decreases n - pixels@.len(),
        {
            pixels.push(Pixel::transparent());
        }
        let r = Bitmap { width, height, pixels };
        proof {
            assert(r@.rows =~~= BitmapView::transparent(width as int, height as int).rows) by {
                assert forall|y: int| 0 <= y < height implies r@.rows[y] =~=
                    BitmapView::transparent(width as int, height as int).rows[y] by {
                    assert forall|x: int| 0 <= x < width implies r@.rows[y][x] == transparent_pixel() by {
                        lemma_row_major(width as int, height as int, x, y);
                    }
                }
            }
        }
        r
    }

    /// Builds a bitmap from row-major pixels; returns `None` exactly when the
    /// pixel count does not match the dimensions.
    pub fn from_raw(width: u32, height: u32, pixels: Vec<Pixel>) -> (r: Option<Bitmap>)
        ensures
            r is Some <==> pixels@.len() == (width as int) * (height as int),
            match r {
                Some(b) => {
                    &&& b.valid()
                    &&& b@.wf()
                    &&& b@.width == width
                    &&& b@.height == height
                    &&& forall|x: int, y: int| b@.in_bounds(x, y) ==>
                        #[trigger] b@.pix(x, y) == pixels@[y * (width as int) + x]
                },
                None => true,
            },
    {
        proof {
            assert((width as int) * (height as int) <= u64::MAX) by (nonlinear_arith)
                requires
                    width <= u32::MAX,
                    height <= u32::MAX;
        }
        let expected: u64 = (width as u64) * (height as u64);
        if (pixels.len() as u64) == expected {
            let r = Bitmap { width, height, pixels };
            proof {
                assert forall|x: int, y: int| r@.in_bounds(x, y) implies
                    #[trigger] r@.pix(x, y) == r.pixels@[y * (width as int) + x] by {
                    lemma_row_major(width as int, height as int, x, y);
                }
            }
            Some(r)
        } else {
            None
        }
    }

    /// The width of the bitmap in pixels.
    pub fn width(&self) -> (w: u32)
        ensures
            w == self@.width,
    {
        self.width
    }

    /// The height of the bitmap in pixels.
    pub fn height(&self) -> (h: u32)
        ensures
            h == self@.height,
    {
        self.height
    }

    /// Reads the pixel in column `x` of row `y`.
    pub fn get_pixel(&self, x: u32, y: u32) -> (p: Pixel)
        requires
            self.valid(),
            self@.in_bounds(x as int, y as int),
        ensures
            p == self@.pix(x as int, y as int),
    {
        proof {
            lemma_row_major(self.width as int, self.height as int, x as int, y as int);
        }
        let idx: usize = (y as usize) * (self.width as usize) + (x as usize);
        self.pixels[idx]
    }

    /// Writes the pixel in column `x` of row `y`.
    pub fn set_pixel(&mut self, x: u32, y: u32, p: Pixel)
        requires
            old(self).valid(),
            old(self)@.in_bounds(x as int, y as int),
        ensures
            final(self).valid(),
            final(self)@.wf(),
            final(self)@.width == old(self)@.width,
            final(self)@.height == old(self)@.height,
            final(self)@.pix(x as int, y as int) == p,
            forall|c: int, r: int| old(self)@.in_bounds(c, r) && !(c == x as int && r == y as int)
                ==> #[trigger] final(self)@.pix(c, r) == old(self)@.pix(c, r),
    {
        proof {
            lemma_row_major(self.width as int, self.height as int, x as int, y as int);
        }
        let idx: usize = (y as usize) * (self.width as usize) + (x as usize);
        self.pixels.set(idx, p);
        proof {
            assert forall|c: int, r: int| old(self)@.in_bounds(c, r) && !(c == x as int && r == y as int)
                implies #[trigger] self@.pix(c, r) == old(self)@.pix(c, r) by {
                lemma_row_major(self.width as int, self.height as int, c, r);
                if r * (self.width as int) + c == (y as int) * (self.width as int) + (x as int) {
                    lemma_row_major_injective(self.width as int, c, r, x as int, y as int);
                }
            }
        }
    }

    /// Copies the `w × h` rectangle of `src` whose top-left corner is
    /// `(sx, sy)` onto this bitmap with its top-left corner at `(dx, dy)`.
    pub fn copy_rect(&mut self, dx: u32, dy: u32, src: &Bitmap, sx: u32, sy: u32, w: u32, h: u32)
        requires
            old(self).valid(),
            src.valid(),
            dx + w <= old(self)@.width,
            dy + h <= old(self)@.height,
            sx + w <= src@.width,
            sy + h <= src@.height,
        ensures
            final(self).valid(),
            final(self)@.wf(),
            final(self)@.width == old(self)@.width,
            final(self)@.height == old(self)@.height,
            forall|c: int, r: int| old(self)@.in_bounds(c, r) ==> #[trigger] final(self)@.pix(c, r) == (
                if dx <= c < dx + w && dy <= r < dy + h {
                    src@.pix(sx + c - dx, sy + r - dy)
                } else {
                    old(self)@.pix(c, r)
                }),
    {
        let ghost dst0 = self@;
        let mut row: u32 = 0;
        while row < h
            invariant
                self.valid(),
                src.valid(),
                row <= h,
                dx + w <= dst0.width,
                dy + h <= dst0.height,
                sx + w <= src@.width,
                sy + h <= src@.height,
                self@.width == dst0.width,
                self@.height == dst0.height,
                forall|c: int, r: int| dst0.in_bounds(c, r) ==> #[trigger] self@.pix(c, r) == (
                    if dx <= c < dx + w && dy <= r < dy + row {
                        src@.pix(sx + c - dx, sy + r - dy)
                    } else {
                        dst0.pix(c, r)
                    }),
            decreases h - row,
        {
            let mut col: u32 = 0;
            while col < w
                invariant
                    self.valid(),
                    src.valid(),
                    col <= w,
                    row < h,
                    dx + w <= dst0.width,
                    dy + h <= dst0.height,
                    sx + w <= src@.width,
                    sy + h <= src@.height,
                    self@.width == dst0.width,
                    self@.height == dst0.height,
                    forall|c: int, r: int| dst0.in_bounds(c, r) ==> #[trigger] self@.pix(c, r) == (
                        if dx <= c < dx + w && dy <= r < dy + row {
                            src@.pix(sx + c - dx, sy + r - dy)
                        } else if r == dy + row && dx <= c < dx + col {
                            src@.pix(sx + c - dx, sy + r - dy)
                        } else {
                            dst0.pix(c, r)
                        }),
                decreases w - col,
            {
                let p = src.get_pixel(sx + col, sy + row);
                self.set_pixel(dx + col, dy + row, p);
                col = col + 1;
            }
            row = row + 1;
        }
    }

    /// Copies every pixel of `src` onto this bitmap with the top-left corner
    /// at `(x, y)`. The packer guarantees the paste rectangle stays inside
    /// the canvas, so the out-of-bounds case is ruled out by contract.
    pub fn blit(&mut self, x: u32, y: u32, src: &Bitmap)
        requires
            old(self).valid(),
            src.valid(),
            x + src@.width <= old(self)@.width,
            y + src@.height <= old(self)@.height,
        ensures
            final(self).valid(),
            final(self)@.wf(),
            final(self)@ == blit_spec(old(self)@, x as int, y as int, src@),
    {
        let ghost dst0 = self@;
        let src_w = src.width();
        let src_h = src.height();
        self.copy_rect(x, y, src, 0, 0, src_w, src_h);
        proof {
            let bs = blit_spec(dst0, x as int, y as int, src@);
            assert forall|r: int| 0 <= r < dst0.height implies self@.rows[r] =~= bs.rows[r] by {
                assert forall|c: int| 0 <= c < dst0.width implies self@.rows[r][c] == bs.rows[r][c] by {
                    assert(dst0.in_bounds(c, r));
                    assert(self@.pix(c, r) == (if x <= c < x + src@.width && y <= r < y + src@.height {
                        src@.pix(c - x, r - y)
                    } else {
                        dst0.pix(c, r)
                    }));
                }
            }
            assert(self@.rows =~= bs.rows);
        }
    }
}

} // verus!
