//! Edge detection with the Sobel operator.
//!
//! Every position that has a full ring of neighbours gets the strength of
//! the edge that runs through it, so the result is two pixels smaller each
//! way. The strength is the length of the gradient, rounded down and capped
//! at the brightest intensity.

use crate::raster::{GrayImage, Raster};
use vstd::arithmetic::div_mod::lemma_fundamental_div_mod_converse;
use vstd::prelude::*;

verus! {

/// The horizontal gradient around the 3 by 3 neighbourhood whose top left
/// corner is `(x, y)`: right column minus left column, middle row twice.
pub open spec fn gradient_x(r: Raster, x: int, y: int) -> int {
    (r.at(x + 2, y) - r.at(x, y)) + 2 * (r.at(x + 2, y + 1) - r.at(x, y + 1)) + (r.at(x + 2, y + 2)
        - r.at(x, y + 2))
}

/// The vertical gradient around the same neighbourhood: bottom row minus
/// top row, middle column twice.
pub open spec fn gradient_y(r: Raster, x: int, y: int) -> int {
    (r.at(x, y + 2) - r.at(x, y)) + 2 * (r.at(x + 1, y + 2) - r.at(x + 1, y)) + (r.at(x + 2, y + 2)
        - r.at(x + 2, y))
}

/// The largest number up to `k` whose square does not exceed `square`.
pub open spec fn root_up_to(square: int, k: nat) -> nat
    decreases k,
{
    if k == 0 {
        0
    } else if k * k <= square {
        k
    } else {
        root_up_to(square, (k - 1) as nat)
    }
}

/// The square root of `square`, rounded down and capped at 255.
pub open spec fn magnitude(square: int) -> u8 {
    root_up_to(square, 255) as u8
}

/// The strength of the edge at the middle of the neighbourhood whose top
/// left corner is `(x, y)`.
pub open spec fn edge_at(r: Raster, x: int, y: int) -> u8 {
    magnitude(gradient_x(r, x, y) * gradient_x(r, x, y) + gradient_y(r, x, y) * gradient_y(r, x, y))
}

/// The edges of a picture; a picture too small to hold one neighbourhood is
/// left as it is.
pub open spec fn sobel_of(r: Raster) -> Raster {
    if r.width < 3 || r.height < 3 {
        r
    } else {
        Raster::from_fn(
            (r.width - 2) as nat,
            (r.height - 2) as nat,
            |x: int, y: int| edge_at(r, x, y),
        )
    }
}

/// A number up to `k` whose square does not exceed `square`, while the
/// square of the next one does or there is no next one, is the root.
pub proof fn lemma_root_is_unique(square: int, k: nat, m: nat)
    requires
        m <= k,
        m * m <= square,
        m == k || (m + 1) * (m + 1) > square,
    ensures
        root_up_to(square, k) == m,
    decreases k,
{
    if k > m {
        assert(k * k > square) by (nonlinear_arith)
            requires
                k >= m + 1,
                (m + 1) * (m + 1) > square,
        ;
        lemma_root_is_unique(square, (k - 1) as nat, m);
    }
}

/// The root is what its name says: a number up to 255 whose square does not
/// exceed `square`, and the largest such.
pub proof fn lemma_magnitude_is_root(square: int)
    requires
        square >= 0,
    ensures
        magnitude(square) * magnitude(square) <= square,
        magnitude(square) == 255 || (magnitude(square) + 1) * (magnitude(square) + 1) > square,
{
    lemma_root_up_to(square, 255);
}

proof fn lemma_root_up_to(square: int, k: nat)
    requires
        square >= 0,
    ensures
        root_up_to(square, k) <= k,
        root_up_to(square, k) * root_up_to(square, k) <= square,
        root_up_to(square, k) == k || (root_up_to(square, k) + 1) * (root_up_to(square, k) + 1)
            > square,
    decreases k,
{
    if k == 0 {
        assert(root_up_to(square, k) == 0);
    } else if k * k > square {
        lemma_root_up_to(square, (k - 1) as nat);
    } else {
        assert(root_up_to(square, k) == k);
    }
}

/// The square root of `square`, rounded down and capped at 255.
pub fn magnitude_of(square: u32) -> (m: u8)
    ensures
        m == magnitude(square as int),
{
    let mut low: u32 = 0;
    let mut high: u32 = 256;
    while high - low > 1
        invariant
            low < high <= 256,
            low * low <= square,
            high == 256 || high * high > square,
        decreases high - low,
    {
        let mid: u32 = low + (high - low) / 2;
        assert(mid * mid <= 255 * 255) by (nonlinear_arith)
            requires
                0 <= mid <= 255,
        ;
        if mid * mid <= square {
            low = mid;
        } else {
            high = mid;
        }
    }
    proof {
        lemma_root_is_unique(square as int, 255, low as nat);
    }
    low as u8
}

/// Classic edge detection.
pub fn sobel(input: &GrayImage) -> (out: GrayImage)
    ensures
        out@ == sobel_of(input@),
{
    let width: u32 = input.width();
    let height: u32 = input.height();
    let ghost r = input@;
    if width < 3 || height < 3 {
        let pixels = input.as_raw().clone();
        assert(pixels@ == r.pixels);
        return GrayImage::from_parts(width, height, pixels);
    }
    let out_w: u32 = width - 2;
    let out_h: u32 = height - 2;
    let mut pixels: Vec<u8> = Vec::new();
    let mut y: u32 = 0;
    while y < out_h
        invariant
            r == input@,
            r.wf(),
            width == r.width,
            height == r.height,
            out_w == width - 2,
            out_h == height - 2,
            width >= 3,
            height >= 3,
            y <= out_h,
            pixels@.len() == y * out_w,
            forall|i: int|
                0 <= i < pixels@.len() ==> #[trigger] pixels@[i] == edge_at(
                    r,
                    i % out_w as int,
                    i / out_w as int,
                ),
        decreases out_h - y,
    {
        let mut x: u32 = 0;
        while x < out_w
            invariant
                r == input@,
                r.wf(),
                width == r.width,
                height == r.height,
                out_w == width - 2,
                out_h == height - 2,
                width >= 3,
                height >= 3,
                y < out_h,
                x <= out_w,
                pixels@.len() == y * out_w + x,
                forall|i: int|
                    0 <= i < pixels@.len() ==> #[trigger] pixels@[i] == edge_at(
                        r,
                        i % out_w as int,
                        i / out_w as int,
                    ),
            decreases out_w - x,
        {
            let nw: i32 = input.get_pixel(x, y) as i32;
            let north: i32 = input.get_pixel(x + 1, y) as i32;
            let ne: i32 = input.get_pixel(x + 2, y) as i32;
            let west: i32 = input.get_pixel(x, y + 1) as i32;
            let east: i32 = input.get_pixel(x + 2, y + 1) as i32;
            let sw: i32 = input.get_pixel(x, y + 2) as i32;
            let south: i32 = input.get_pixel(x + 1, y + 2) as i32;
            let se: i32 = input.get_pixel(x + 2, y + 2) as i32;

            // Sobel kernel in x and y direction
            let gx: i32 = (ne - nw) + 2 * (east - west) + (se - sw);
            let gy: i32 = (sw - nw) + 2 * (south - north) + (se - ne);
            assert(0 <= gx * gx <= 1020 * 1020 && 0 <= gy * gy <= 1020 * 1020) by (nonlinear_arith)
                requires
                    -1020 <= gx <= 1020,
                    -1020 <= gy <= 1020,
            ;
            let square: u32 = (gx * gx + gy * gy) as u32;
            let edge: u8 = magnitude_of(square);
            proof {
                assert(gx == gradient_x(r, x as int, y as int));
                assert(gy == gradient_y(r, x as int, y as int));
                assert(edge == edge_at(r, x as int, y as int));
                lemma_fundamental_div_mod_converse(
                    y * out_w + x,
                    out_w as int,
                    y as int,
                    x as int,
                );
            }
            pixels.push(edge);
            x = x + 1;
        }
        proof {
            assert((y + 1) * out_w == y * out_w + out_w) by (nonlinear_arith);
        }
        y = y + 1;
    }
    proof {
        assert(out_h * out_w == out_w * out_h) by (nonlinear_arith);
        assert(pixels@ =~= sobel_of(r).pixels);
    }
    GrayImage::from_parts(out_w, out_h, pixels)
}

} // verus!
