//! The image raster: its dimensions and the row-major order of its pixels.
//!
//! A pixel is named by its column `i` and its row `j`, written `(i, j)`.
//! Raster order runs through the rows from top to bottom and through each
//! row from left to right, so pixel `(i, j)` has the position
//! `j * width + i`.

use vstd::prelude::*;
use vstd::arithmetic::div_mod::*;

verus! {

/// The pixels of a `width` by `height` image in raster order.
pub open spec fn raster_order(width: nat, height: nat) -> Seq<(u32, u32)> {
    Seq::new(width * height, |k: int| ((k % (width as int)) as u32, (k / (width as int)) as u32))
}

/// Row-major comparison of two pixels: by row first, then by column.
pub open spec fn row_major_le(a: (u32, u32), b: (u32, u32)) -> bool {
    a.1 < b.1 || (a.1 == b.1 && a.0 <= b.0)
}

/// Position `k` of a raster of the given width lies in row `k / width`
/// and column `k % width`, both within the raster.
pub proof fn lemma_position_in_bounds(width: nat, height: nat, k: int)
    requires
        0 <= k < width * height,
    ensures
        width > 0,
        0 <= k % (width as int) < width,
        0 <= k / (width as int) < height,
        k == (k / (width as int)) * width + k % (width as int),
{
    if width == 0 {
        assert(width * height == 0) by (nonlinear_arith)
            requires
                width == 0,
        ;
    }
    let w = width as int;
    lemma_fundamental_div_mod(k, w);
    lemma_mod_bound(k, w);
    lemma_div_pos_is_pos(k, w);
    if k / w >= height {
        assert(w * (k / w) >= w * height) by (nonlinear_arith)
            requires
                w > 0,
                k / w >= height,
        ;
    }
    assert((k / w) * w == w * (k / w)) by (nonlinear_arith);
}

/// Pixel `(i, j)` inside the raster sits at position `j * width + i`.
pub proof fn lemma_pixel_position(width: nat, height: nat, i: int, j: int)
    requires
        0 <= i < width,
        0 <= j < height,
    ensures
        0 <= j * width + i < width * height,
        (j * width + i) % (width as int) == i,
        (j * width + i) / (width as int) == j,
{
    let w = width as int;
    assert(j * w + i < w * height) by (nonlinear_arith)
        requires
            0 <= i < w,
            0 <= j < height,
    ;
    assert(0 <= j * w + i) by (nonlinear_arith)
        requires
            0 <= i,
            0 <= j,
            0 < w,
    ;
    lemma_fundamental_div_mod_converse(j * w + i, w, j, i);
}

/// Raster order is strictly increasing in the row-major comparison.
pub proof fn lemma_raster_order_increasing(width: nat, height: nat, a: int, b: int)
    requires
        0 <= a < b < width * height,
        width <= u32::MAX,
        height <= u32::MAX,
    ensures
        row_major_le(raster_order(width, height)[a], raster_order(width, height)[b]),
        raster_order(width, height)[a] != raster_order(width, height)[b],
{
    lemma_position_in_bounds(width, height, a);
    lemma_position_in_bounds(width, height, b);
    let w = width as int;
    if a / w > b / w {
        assert((a / w) * w >= (b / w) * w + w) by (nonlinear_arith)
            requires
                a / w >= b / w + 1,
                w > 0,
        ;
    }
}

/// The row-major comparison orders any two pixels, and orders them one way
/// only.
pub proof fn lemma_row_major_is_total_order()
    ensures
        vstd::relations::total_ordering(|a: (u32, u32), b: (u32, u32)| row_major_le(a, b)),
{
}

/// Raster order is sorted by the row-major comparison.
pub proof fn lemma_raster_order_sorted(width: nat, height: nat)
    requires
        width <= u32::MAX,
        height <= u32::MAX,
    ensures
        vstd::relations::sorted_by(
            raster_order(width, height),
            |a: (u32, u32), b: (u32, u32)| row_major_le(a, b),
        ),
{
    let order = raster_order(width, height);
    assert forall|a: int, b: int| 0 <= a < b < order.len() implies row_major_le(
        #[trigger] order[a],
        #[trigger] order[b],
    ) by {
        lemma_raster_order_increasing(width, height, a, b);
    }
}

/// The dimensions of an image. The height is never zero.
#[derive(Clone, Copy, Debug)]
pub struct Raster {
    width: u32,
    height: u32,
}

impl Raster {
    #[verifier::type_invariant]
    spec fn height_is_positive(self) -> bool {
        self.height >= 1
    }

    /// Number of pixel columns.
    pub closed spec fn spec_width(&self) -> u32 {
        self.width
    }

    /// Number of pixel rows.
    pub closed spec fn spec_height(&self) -> u32 {
        self.height
    }

    /// Number of pixels in the image.
    pub open spec fn spec_pixel_count(&self) -> nat {
        (self.spec_width() * self.spec_height()) as nat
    }

    /// The pixels of the image in raster order.
    pub open spec fn order(&self) -> Seq<(u32, u32)> {
        raster_order(self.spec_width() as nat, self.spec_height() as nat)
    }

    /// Whether `(i, j)` names a pixel of the image.
    pub open spec fn spec_holds(&self, i: u32, j: u32) -> bool {
        i < self.spec_width() && j < self.spec_height()
    }

    /// A raster of the given width. A height of zero is raised to one row.
    pub fn new(width: u32, height: u32) -> (r: Raster)
        ensures
            r.spec_width() == width,
            r.spec_height() == if height == 0 { 1u32 } else { height },
    {
        Raster { width, height: if height == 0 { 1 } else { height } }
    }

    /// Number of pixel columns.
    #[verifier::when_used_as_spec(spec_width)]
    pub fn width(&self) -> (w: u32)
        ensures
            w == self.spec_width(),
    {
        self.width
    }

    /// Number of pixel rows, at least one.
    #[verifier::when_used_as_spec(spec_height)]
    pub fn height(&self) -> (h: u32)
        ensures
            h == self.spec_height(),
            h >= 1,
    {
        proof {
            use_type_invariant(self);
        }
        self.height
    }

    /// Number of pixels in the image.
    pub fn pixel_count(&self) -> (n: u64)
        ensures
            n == self.spec_pixel_count(),
    {
        assert(self.width * self.height <= u64::MAX) by (nonlinear_arith)
            requires
                self.width <= u32::MAX,
                self.height <= u32::MAX,
        ;
        self.width as u64 * self.height as u64
    }

    /// Whether `(i, j)` names a pixel of the image.
    #[verifier::when_used_as_spec(spec_holds)]
    pub fn holds(&self, i: u32, j: u32) -> (b: bool)
        ensures
            b == self.spec_holds(i, j),
    {
        i < self.width && j < self.height
    }

    /// The position of pixel `(i, j)` in raster order, if the image holds it.
    pub fn index_of(&self, i: u32, j: u32) -> (k: Option<u64>)
        ensures
            k.is_some() <==> self.spec_holds(i, j),
            k matches Some(n) ==> n == j * self.spec_width() + i && n < self.spec_pixel_count()
                && self.order()[n as int] == (i, j),
    {
        if i < self.width && j < self.height {
            proof {
                lemma_pixel_position(self.width as nat, self.height as nat, i as int, j as int);
                assert(self.width * self.height <= u64::MAX) by (nonlinear_arith)
                    requires
                        self.width <= u32::MAX,
                        self.height <= u32::MAX,
                ;
                assert(0 <= j * self.width) by (nonlinear_arith);
            }
            Some(j as u64 * self.width as u64 + i as u64)
        } else {
            None
        }
    }

    /// The pixel at position `k` of raster order, if there is one.
    pub fn pixel_at(&self, k: u64) -> (p: Option<(u32, u32)>)
        ensures
            p.is_some() <==> k < self.spec_pixel_count(),
            p matches Some(pixel) ==> pixel == self.order()[k as int] && self.spec_holds(
                pixel.0,
                pixel.1,
            ),
    {
        if k < self.pixel_count() {
            proof {
                lemma_position_in_bounds(self.width as nat, self.height as nat, k as int);
            }
            let w: u64 = self.width as u64;
            Some(((k % w) as u32, (k / w) as u32))
        } else {
            None
        }
    }

    /// All pixels of the image, listed in raster order.
    pub fn pixels(&self) -> (out: Vec<(u32, u32)>)
        ensures
            out@ == self.order(),
    {
        let mut out: Vec<(u32, u32)> = Vec::new();
        let mut j: u32 = 0;
        while j < self.height
            invariant
                j <= self.height,
                out@ == raster_order(self.width as nat, j as nat),
            decreases self.height - j,
        {
            let mut i: u32 = 0;
            while i < self.width
                invariant
                    i <= self.width,
                    j < self.height,
                    out@.len() == j * self.width + i,
                    forall|k: int|
                        0 <= k < out@.len() ==> out@[k] == (
                            (k % (self.width as int)) as u32,
                            (k / (self.width as int)) as u32,
                        ),
                decreases self.width - i,
            {
                proof {
                    lemma_pixel_position(self.width as nat, (j + 1) as nat, i as int, j as int);
                }
                out.push((i, j));
                i += 1;
            }
            proof {
                assert(j * self.width + self.width == (j + 1) * self.width) by (nonlinear_arith);
                assert(self.width * (j + 1) == (j + 1) * self.width) by (nonlinear_arith);
                assert(out@ =~= raster_order(self.width as nat, (j + 1) as nat));
            }
            j += 1;
        }
        out
    }

    /// Position and pixel determine each other: the pixel at position
    /// `j * width + i` is `(i, j)`, and no other position holds it.
    pub proof fn lemma_order_is_bijective(&self, i: u32, j: u32, k: int)
        requires
            self.spec_holds(i, j),
            0 <= k < self.spec_pixel_count(),
        ensures
            self.order()[k] == (i, j) <==> k == j * self.spec_width() + i,
    {
        let w = self.spec_width() as nat;
        let h = self.spec_height() as nat;
        lemma_pixel_position(w, h, i as int, j as int);
        lemma_position_in_bounds(w, h, k);
    }
}

} // verus!
