//! The pixel buffer and the packing of colors.

use crate::frame::{band_cells, blit, drawn, frame_cells, lemma_drawn_concat};
use crate::scalar::Scalar;
use vstd::prelude::*;

verus! {

/// A channel kept within its range: `max` where it is above, `min` where
/// it is below, and the channel itself otherwise.
pub open spec fn capped(c: Scalar, min: Scalar, max: Scalar) -> Scalar {
    if c.gt(max) {
        max
    } else if c.lt(min) {
        min
    } else {
        c
    }
}

/// Keeps a channel within `min` and `max`.
pub fn cap(c: Scalar, min: Scalar, max: Scalar) -> (r: Scalar)
    ensures
        r == capped(c, min, max),
        min.le(max) && !c.is_nan() ==> min.le(r) && r.le(max),
{
    if c.gt(max) {
        return max;
    }
    if c.lt(min) {
        return min;
    }
    c
}

/// The packed color of three channels: red in bits 16 to 23, green in bits
/// 8 to 15, blue in bits 0 to 7.
pub open spec fn packed(r: u8, g: u8, b: u8) -> int {
    r * 65536 + g * 256 + b
}

/// Packs three channels, each already scaled to 0..=255, into one 24-bit
/// color.
pub fn color(r: u8, g: u8, b: u8) -> (c: u32)
    ensures
        c == packed(r, g, b),
        c < 0x100_0000,
{
    let mut color: u32 = r as u32;
    color = color * 256;
    color = color + g as u32;
    color = color * 256;
    color = color + b as u32;
    color
}

/// Splits a packed color into its red, green and blue channels. Bits above
/// the 24th are ignored.
pub fn color_to_rgb(color: u32) -> (rgb: (u8, u8, u8))
    ensures
        rgb.0 == (color / 65536) % 256,
        rgb.1 == (color / 256) % 256,
        rgb.2 == color % 256,
{
    let b: u32 = color % 256;
    let g: u32 = (color / 256) % 256;
    let r: u32 = (color / 65536) % 256;
    (r as u8, g as u8, b as u8)
}

/// Packing and then splitting gives the channels back.
pub proof fn lemma_color_round_trip(r: u8, g: u8, b: u8)
    ensures
        (packed(r, g, b) / 65536) % 256 == r,
        (packed(r, g, b) / 256) % 256 == g,
        packed(r, g, b) % 256 == b,
{
}

/// The place of pixel `(x, y)` in a row-major buffer `w` pixels wide.
pub open spec fn offset(w: int, x: int, y: int) -> int {
    x + y * w
}

/// A pixel inside a `w` by `h` buffer has its place inside `w * h`, and
/// the place gives the pixel back.
pub proof fn lemma_offset(w: int, h: int, x: int, y: int)
    requires
        0 <= x < w,
        0 <= y < h,
    ensures
        0 <= offset(w, x, y) < w * h,
        offset(w, x, y) % w == x,
        offset(w, x, y) / w == y,
{
    assert(0 <= y * w && y * w + w <= h * w && h * w == w * h) by (nonlinear_arith)
        requires
            0 <= y < h,
            0 < w,
    ;
    vstd::arithmetic::div_mod::lemma_fundamental_div_mod_converse(x + y * w, w, y, x);
}

/// A place inside a `w` by `h` buffer is the place of exactly one pixel.
pub proof fn lemma_pixel_of(w: int, h: int, i: int)
    requires
        0 < w,
        0 <= i < w * h,
    ensures
        0 <= i % w < w,
        0 <= i / w < h,
        i == offset(w, i % w, i / w),
{
    vstd::arithmetic::div_mod::lemma_fundamental_div_mod(i, w);
    let q = i / w;
    let r = i % w;
    assert(0 <= q < h) by (nonlinear_arith)
        requires
            0 < w,
            0 <= i < w * h,
            i == w * q + r,
            0 <= r < w,
    ;
    assert(w * q == q * w) by (nonlinear_arith);
}

/// A block that begins beyond the right or the lower edge of the buffer
/// holds none of its pixels: filling it changes nothing.
pub proof fn lemma_blit_outside(p: Seq<u32>, w: int, h: int, x: int, y: int, s: int, c: u32)
    requires
        0 <= w,
        0 <= h,
        p.len() == w * h,
        x * s >= w || y * s >= h,
    ensures
        blit(p, w, x, y, s, c) == p,
{
    assert forall|i: int| 0 <= i < p.len() implies blit(p, w, x, y, s, c)[i] == p[i] by {
        if w > 0 {
            lemma_pixel_of(w, h, i);
        }
    }
    assert(blit(p, w, x, y, s, c) =~= p);
}

/// A grid of packed colors, `w` wide and `h` high, stored row by row.
pub struct Pixels {
    pixels: Vec<u32>,
    w: usize,
    h: usize,
}

impl View for Pixels {
    type V = Seq<u32>;

    /// The colors, row by row.
    closed spec fn view(&self) -> Seq<u32> {
        self.pixels@
    }
}

impl Pixels {
    /// The buffer holds exactly one color for each pixel. Every buffer that
    /// `new` makes is well formed, and every method keeps it so.
    pub closed spec fn wf(&self) -> bool {
        self.pixels.len() == self.w * self.h
    }

    /// The number of pixels in a row.
    pub closed spec fn spec_width(&self) -> usize {
        self.w
    }

    /// The number of rows.
    pub closed spec fn spec_height(&self) -> usize {
        self.h
    }

    /// A well-formed buffer has `width * height` colors.
    pub proof fn lemma_len(&self)
        requires
            self.wf(),
        ensures
            self@.len() == self.spec_width() * self.spec_height(),
    {
    }

    /// The color of pixel `(x, y)`.
    pub open spec fn at(&self, x: int, y: int) -> u32 {
        self@[offset(self.spec_width() as int, x, y)]
    }

    /// A buffer of `w` by `h` pixels, all black.
    pub fn new(w: usize, h: usize) -> (p: Pixels)
        requires
            w * h <= usize::MAX,
        ensures
            p.wf(),
            p.spec_width() == w,
            p.spec_height() == h,
            p@ == Seq::new((w * h) as nat, |i: int| 0u32),
    {
        let n: usize = w * h;
        let mut pixels: Vec<u32> = Vec::with_capacity(n);
        for i in 0..n
            invariant
                pixels.len() == i,
                forall|j: int| 0 <= j < i ==> pixels[j] == 0,
        {
            pixels.push(0);
        }
        Pixels { pixels, w, h }
    }

    /// The number of pixels in a row.
    #[verifier::when_used_as_spec(spec_width)]
    pub fn width(&self) -> (w: usize)
        ensures
            w == self.spec_width(),
    {
        self.w
    }

    /// The number of rows.
    #[verifier::when_used_as_spec(spec_height)]
    pub fn height(&self) -> (h: usize)
        ensures
            h == self.spec_height(),
    {
        self.h
    }

    /// The colors, row by row.
    pub fn as_vec(&self) -> (v: &Vec<u32>)
        ensures
            v@ == self@,
    {
        &self.pixels
    }

    /// The color of pixel `(x, y)`, or `None` where the buffer has no such
    /// pixel.
    pub fn get_pixel(&self, x: usize, y: usize) -> (c: Option<u32>)
        requires
            self.wf(),
        ensures
            c == if x < self.width() && y < self.height() {
                Some(self.at(x as int, y as int))
            } else {
                None
            },
    {
        if x >= self.w || y >= self.h {
            return None;
        }
        proof {
            lemma_offset(self.w as int, self.h as int, x as int, y as int);
        }
        Some(self.pixels[x + y * self.w])
    }

    /// Sets pixel `(x, y)` to a color. Outside the buffer nothing is
    /// written and the call fails.
    pub fn set_pixel(&mut self, x: usize, y: usize, color: u32) -> (r: Result<(), &'static str>)
        requires
            old(self).wf(),
        ensures
            final(self).wf(),
            final(self).width() == old(self).width(),
            final(self).height() == old(self).height(),
            x < old(self).width() && y < old(self).height() ==> r is Ok && final(self)@ == old(
                self,
            )@.update(offset(old(self).width() as int, x as int, y as int), color),
            x >= old(self).width() || y >= old(self).height() ==> r is Err && r->Err_0@
                == "Out of bouds"@ && final(self)@ == old(self)@,
    {
        if x >= self.w || y >= self.h {
            return Err("Out of bouds");
        }
        proof {
            lemma_offset(self.w as int, self.h as int, x as int, y as int);
        }
        self.pixels.set(x + y * self.w, color);
        Ok(())
    }

    /// Sets the color of all pixels to black.
    pub fn clear(&mut self)
        requires
            old(self).wf(),
        ensures
            final(self).wf(),
            final(self).width() == old(self).width(),
            final(self).height() == old(self).height(),
            final(self)@ == Seq::new(old(self)@.len(), |i: int| 0u32),
    {
        self.fill_color(0);
    }

    /// Sets the color of all pixels to the input color.
    pub fn fill_color(&mut self, color: u32)
        requires
            old(self).wf(),
        ensures
            final(self).wf(),
            final(self).width() == old(self).width(),
            final(self).height() == old(self).height(),
            final(self)@ == Seq::new(old(self)@.len(), |i: int| color),
    {
        let n: usize = self.pixels.len();
        for i in 0..n
            invariant
                self.w == old(self).w,
                self.h == old(self).h,
                self.pixels.len() == n,
                n == old(self).pixels.len(),
                n == self.w * self.h,
                forall|j: int| 0 <= j < i ==> self.pixels[j] == color,
        {
            self.pixels.set(i, color);
        }
    }

    /// Fills the block of cell `(x, y)` of the coarse grid with a color:
    /// the `scale` by `scale` pixels from `(x * scale, y * scale)` on, as
    /// far as they lie inside the buffer.
    pub fn fill_block(&mut self, x: usize, y: usize, scale: usize, color: u32)
        requires
            old(self).wf(),
        ensures
            final(self).wf(),
            final(self).width() == old(self).width(),
            final(self).height() == old(self).height(),
            final(self)@ == blit(
                old(self)@,
                old(self).width() as int,
                x as int,
                y as int,
                scale as int,
                color,
            ),
    {
        let w: usize = self.w;
        let h: usize = self.h;
        let n: usize = self.pixels.len();
        let ghost before = self.pixels@;
        let ghost goal = blit(before, w as int, x as int, y as int, scale as int, color);
        let x0: usize = match x.checked_mul(scale) {
            Some(v) => v,
            None => {
                proof {
                    lemma_blit_outside(before, w as int, h as int, x as int, y as int, scale as int, color);
                }
                return ;
            },
        };
        let y0: usize = match y.checked_mul(scale) {
            Some(v) => v,
            None => {
                proof {
                    lemma_blit_outside(before, w as int, h as int, x as int, y as int, scale as int, color);
                }
                return ;
            },
        };
        if x0 >= w || y0 >= h {
            proof {
                lemma_blit_outside(before, w as int, h as int, x as int, y as int, scale as int, color);
            }
            return ;
        }
        let x1: usize = if scale >= w - x0 {
            w
        } else {
            x0 + scale
        };
        let y1: usize = if scale >= h - y0 {
            h
        } else {
            y0 + scale
        };
        let mut py: usize = y0;
        while py < y1
            invariant
                self.w == w,
                self.h == h,
                self.pixels.len() == n,
                n == w * h,
                0 < w,
                x0 < w,
                x0 <= x1 <= w,
                y0 <= py <= y1 <= h,
                forall|i: int|
                    0 <= i < n ==> #[trigger] self.pixels[i] == if x0 <= i % (w as int) < x1 && y0
                        <= i / (w as int) < py {
                        color
                    } else {
                        before[i]
                    },
            decreases y1 - py,
        {
            let mut px: usize = x0;
            while px < x1
                invariant
                    self.w == w,
                    self.h == h,
                    self.pixels.len() == n,
                    n == w * h,
                    0 < w,
                    x0 <= px <= x1 <= w,
                    y0 <= py < y1 <= h,
                    forall|i: int|
                        0 <= i < n ==> #[trigger] self.pixels[i] == if x0 <= i % (w as int) < x1
                            && (y0 <= i / (w as int) < py || (i / (w as int) == py && i % (
                        w as int) < px)) {
                            color
                        } else {
                            before[i]
                        },
                decreases x1 - px,
            {
                let ghost prev = self.pixels@;
                proof {
                    lemma_offset(w as int, h as int, px as int, py as int);
                }
                self.pixels.set(px + py * w, color);
                px = px + 1;
                assert forall|i: int| 0 <= i < n implies #[trigger] self.pixels[i] == if x0 <= i % (
                w as int) < x1 && (y0 <= i / (w as int) < py || (i / (w as int) == py && i % (
                w as int) < px)) {
                    color
                } else {
                    before[i]
                } by {
                    lemma_pixel_of(w as int, h as int, i);
                    assert(self.pixels[i] == if i == px - 1 + py * w {
                        color
                    } else {
                        prev[i]
                    });
                }
            }
            py = py + 1;
        }
        assert forall|i: int| 0 <= i < n implies self.pixels@[i] == goal[i] by {
            lemma_pixel_of(w as int, h as int, i);
        }
        assert(self.pixels@ =~= goal);
    }

    /// Draws one band: row `y` of the coarse grid, whose cells from left to
    /// right have the colors of `band`, each filling its block.
    pub fn draw_band(&mut self, y: usize, band: &Vec<u32>, scale: usize)
        requires
            old(self).wf(),
        ensures
            final(self).wf(),
            final(self).width() == old(self).width(),
            final(self).height() == old(self).height(),
            final(self)@ == drawn(
                old(self)@,
                old(self).width() as int,
                scale as int,
                band_cells(y as int, band@),
            ),
    {
        let ghost before = self.pixels@;
        let ghost w = self.w as int;
        let ghost cells = band_cells(y as int, band@);
        for x in 0..band.len()
            invariant
                self.wf(),
                self.w == w,
                self.h == old(self).h,
                cells == band_cells(y as int, band@),
                self.pixels@ == drawn(before, w, scale as int, cells.take(x as int)),
        {
            proof {
                let next = cells.take(x + 1);
                assert(next.drop_last() == cells.take(x as int));
                assert(next.last() == (x as int, y as int, band@[x as int]));
            }
            self.fill_block(x, y, scale, band[x]);
        }
        assert(cells.take(band.len() as int) == cells);
    }

    /// Draws a whole frame: band after band from the top, band `y` being
    /// row `y` of the coarse grid.
    pub fn draw_frame(&mut self, bands: &Vec<Vec<u32>>, scale: usize)
        requires
            old(self).wf(),
        ensures
            final(self).wf(),
            final(self).width() == old(self).width(),
            final(self).height() == old(self).height(),
            final(self)@ == drawn(
                old(self)@,
                old(self).width() as int,
                scale as int,
                frame_cells(bands.deep_view()),
            ),
    {
        let ghost before = self.pixels@;
        let ghost w = self.w as int;
        let ghost rows = bands.deep_view();
        for y in 0..bands.len()
            invariant
                self.wf(),
                self.w == w,
                self.h == old(self).h,
                rows == bands.deep_view(),
                rows.len() == bands.len(),
                self.pixels@ == drawn(before, w, scale as int, frame_cells(rows.take(y as int))),
        {
            let ghost done = frame_cells(rows.take(y as int));
            proof {
                let next = rows.take(y + 1);
                assert(next.drop_last() == rows.take(y as int));
                assert(next.last() == rows[y as int]);
                assert(rows[y as int] == bands[y as int]@);
                lemma_drawn_concat(before, w, scale as int, done, band_cells(y as int, bands[y as int]@));
            }
            self.draw_band(y, &bands[y], scale);
        }
        assert(rows.take(bands.len() as int) == rows);
    }
}

} // verus!
