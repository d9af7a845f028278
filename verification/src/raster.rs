//! Grayscale pictures and their mathematical model.

use vstd::arithmetic::div_mod::{lemma_fundamental_div_mod, lemma_fundamental_div_mod_converse};
use vstd::prelude::*;

verus! {

/// A grayscale picture as a mathematical object: `pixels` lists the rows one
/// after another, top row first, each row from left to right.
pub struct Raster {
    pub width: nat,
    pub height: nat,
    pub pixels: Seq<u8>,
}

impl Raster {
    /// The pixel list has exactly one entry per position.
    pub open spec fn wf(self) -> bool {
        self.pixels.len() == self.width * self.height
    }

    /// `(x, y)` names a position of the picture.
    pub open spec fn contains(self, x: int, y: int) -> bool {
        0 <= x < self.width && 0 <= y < self.height
    }

    /// The intensity at column `x` of row `y`.
    pub open spec fn at(self, x: int, y: int) -> u8 {
        self.pixels[y * self.width + x]
    }

    /// The picture of `width` by `height` pixels whose intensity at `(x, y)`
    /// is `f(x, y)`.
    pub open spec fn from_fn(width: nat, height: nat, f: spec_fn(int, int) -> u8) -> Raster {
        Raster {
            width,
            height,
            pixels: Seq::new(width * height, |i: int| f(i % width as int, i / width as int)),
        }
    }
}

/// A picture given by a function holds at each of its positions what the
/// function gives there.
pub proof fn lemma_from_fn_at(
    width: nat,
    height: nat,
    f: spec_fn(int, int) -> u8,
    x: int,
    y: int,
)
    requires
        0 <= x < width,
        0 <= y < height,
    ensures
        Raster::from_fn(width, height, f).at(x, y) == f(x, y),
        Raster::from_fn(width, height, f).wf(),
{
    lemma_index_in_bounds(x, y, width as int, height as int);
    lemma_fundamental_div_mod_converse(y * width + x, width as int, y, x);
}

/// The place of `(x, y)` in a row-major list of rows of length `width` lies
/// inside the list.
pub proof fn lemma_index_in_bounds(x: int, y: int, width: int, height: int)
    requires
        0 <= x < width,
        0 <= y < height,
    ensures
        0 <= y * width + x < width * height,
        y * width + x < (y + 1) * width,
        (y + 1) * width <= width * height,
{
    assert(y * width >= 0) by (nonlinear_arith)
        requires
            y >= 0,
            width > 0,
    ;
    assert((y + 1) * width == y * width + width) by (nonlinear_arith);
    assert((y + 1) * width <= width * height) by (nonlinear_arith)
        requires
            y + 1 <= height,
            width > 0,
    ;
}

/// Every place in a row-major list of `height` rows of length `width` is
/// that of one position.
pub proof fn lemma_position_of(i: int, width: int, height: int)
    requires
        0 <= i < width * height,
        0 <= height,
    ensures
        0 <= i % width < width,
        0 <= i / width < height,
        (i / width) * width + i % width == i,
{
    assert(width > 0) by (nonlinear_arith)
        requires
            0 <= i < width * height,
            0 <= height,
    ;
    lemma_fundamental_div_mod(i, width);
    let q = i / width;
    let m = i % width;
    assert(width * q == q * width) by (nonlinear_arith);
    assert(0 <= q < height) by (nonlinear_arith)
        requires
            q * width + m == i,
            0 <= m < width,
            0 <= i < width * height,
    ;
}

/// Two pictures of one size that agree at every position are the same.
pub proof fn lemma_rasters_equal(a: Raster, b: Raster)
    requires
        a.wf(),
        b.wf(),
        a.width == b.width,
        a.height == b.height,
        forall|x: int, y: int| a.contains(x, y) ==> a.at(x, y) == b.at(x, y),
    ensures
        a == b,
{
    assert forall|i: int| 0 <= i < a.pixels.len() implies a.pixels[i] == b.pixels[i] by {
        lemma_position_of(i, a.width as int, a.height as int);
        let x = i % a.width as int;
        let y = i / a.width as int;
        assert(a.contains(x, y));
        assert(a.at(x, y) == b.at(x, y));
    }
    assert(a.pixels =~= b.pixels);
}

/// An 8-bit grayscale picture of `width` by `height` pixels.
pub struct GrayImage {
    width: u32,
    height: u32,
    pixels: Vec<u8>,
}

impl View for GrayImage {
    type V = Raster;

    closed spec fn view(&self) -> Raster {
        Raster { width: self.width as nat, height: self.height as nat, pixels: self.pixels@ }
    }
}

impl GrayImage {
    #[verifier::type_invariant]
    spec fn inv(&self) -> bool {
        self.pixels@.len() == self.width * self.height
    }

    /// Builds a picture from its rows laid end to end; `None` unless `pixels`
    /// holds exactly `width * height` entries.
    pub fn from_raw(width: u32, height: u32, pixels: Vec<u8>) -> (out: Option<GrayImage>)
        ensures
            out is Some <==> pixels@.len() == width * height,
            out matches Some(img) ==> img@ == (Raster {
                width: width as nat,
                height: height as nat,
                pixels: pixels@,
            }),
    {
        assert(width * height <= u64::MAX) by (nonlinear_arith)
            requires
                width <= u32::MAX,
                height <= u32::MAX,
        ;
        let area: u64 = (width as u64) * (height as u64);
        if pixels.len() as u64 == area {
            Some(GrayImage { width, height, pixels })
        } else {
            None
        }
    }

    /// Builds a picture from rows that are known to fill it.
    pub(crate) fn from_parts(width: u32, height: u32, pixels: Vec<u8>) -> (out: GrayImage)
        requires
            pixels@.len() == width * height,
        ensures
            out@ == (Raster { width: width as nat, height: height as nat, pixels: pixels@ }),
    {
        GrayImage { width, height, pixels }
    }

    /// Number of columns.
    pub fn width(&self) -> (w: u32)
        ensures
            w == self@.width,
            self@.wf(),
    {
        proof {
            use_type_invariant(self);
        }
        self.width
    }

    /// Number of rows.
    pub fn height(&self) -> (h: u32)
        ensures
            h == self@.height,
            self@.wf(),
    {
        proof {
            use_type_invariant(self);
        }
        self.height
    }

    /// The intensity at column `x` of row `y`.
    pub fn get_pixel(&self, x: u32, y: u32) -> (p: u8)
        requires
            self@.contains(x as int, y as int),
        ensures
            p == self@.at(x as int, y as int),
    {
        let len: usize = self.pixels.len();
        proof {
            use_type_invariant(self);
            lemma_index_in_bounds(x as int, y as int, self.width as int, self.height as int);
            assert(y * self.width >= 0) by (nonlinear_arith)
                requires
                    y >= 0,
                    self.width >= 0,
            ;
        }
        self.pixels[(y as usize) * (self.width as usize) + (x as usize)]
    }

    /// The rows laid end to end.
    pub fn as_raw(&self) -> (pixels: &Vec<u8>)
        ensures
            pixels@ == self@.pixels,
            self@.wf(),
    {
        proof {
            use_type_invariant(self);
        }
        &self.pixels
    }

    /// Gives up the picture for its rows laid end to end.
    pub fn into_raw(self) -> (pixels: Vec<u8>)
        ensures
            pixels@ == self@.pixels,
            self@.wf(),
    {
        proof {
            use_type_invariant(&self);
        }
        self.pixels
    }
}

} // verus!
