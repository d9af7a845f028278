//! Turning, mirroring and cropping pictures.
//!
//! What each operation does is stated on the model of a picture, position
//! by position. The pixels themselves are moved by the `image` crate.

use crate::image_op::ImageOp;
use crate::raster::{lemma_from_fn_at, lemma_rasters_equal, GrayImage, Raster};
use vstd::prelude::*;

verus! {

/// Why an operation could not be applied.
#[derive(Clone, Copy, Debug, PartialEq, Eq, Structural)]
pub enum OpError {
    /// A crop reaches beyond the picture, which has the given size.
    CropOutOfBounds { width: u32, height: u32 },
}

/// `r` turned by a quarter clockwise: its left column becomes the top row.
pub open spec fn rotated90(r: Raster) -> Raster {
    Raster::from_fn(r.height, r.width, |x: int, y: int| r.at(y, r.height - 1 - x))
}

/// `r` turned upside down.
pub open spec fn rotated180(r: Raster) -> Raster {
    Raster::from_fn(r.width, r.height, |x: int, y: int| r.at(r.width - 1 - x, r.height - 1 - y))
}

/// `r` with left and right exchanged.
pub open spec fn flipped_horizontal(r: Raster) -> Raster {
    Raster::from_fn(r.width, r.height, |x: int, y: int| r.at(r.width - 1 - x, y))
}

/// `r` with top and bottom exchanged.
pub open spec fn flipped_vertical(r: Raster) -> Raster {
    Raster::from_fn(r.width, r.height, |x: int, y: int| r.at(x, r.height - 1 - y))
}

/// The part of `r` that is `w` wide and `h` high and has its top left corner
/// at `(x, y)`.
pub open spec fn cropped(r: Raster, x: nat, y: nat, w: nat, h: nat) -> Raster {
    Raster::from_fn(w, h, |i: int, j: int| r.at(x + i, y + j))
}

/// A crop lies within the picture.
pub open spec fn crop_fits(r: Raster, x: nat, y: nat, w: nat, h: nat) -> bool {
    x + w <= r.width && y + h <= r.height
}

/// What one operation makes of a picture.
pub open spec fn applied(r: Raster, op: ImageOp) -> Result<Raster, OpError> {
    match op {
        ImageOp::Rotate90 => Ok(rotated90(r)),
        ImageOp::Rotate180 => Ok(rotated180(r)),
        ImageOp::FlipHorizontal => Ok(flipped_horizontal(r)),
        ImageOp::FlipVertical => Ok(flipped_vertical(r)),
        ImageOp::Crop { x, y, w, h } => if crop_fits(r, x as nat, y as nat, w as nat, h as nat) {
            Ok(cropped(r, x as nat, y as nat, w as nat, h as nat))
        } else {
            Err(OpError::CropOutOfBounds { width: r.width as u32, height: r.height as u32 })
        },
    }
}

/// How far a row of operations gets: the picture after the last operation
/// that could be applied, and the error of the one that could not, if any.
/// Nothing after a failure is tried.
pub struct Outcome {
    pub picture: Raster,
    pub failure: Option<OpError>,
}

/// What the first `n` operations of `ops` make of a picture, in order.
pub open spec fn applied_all(r: Raster, ops: Seq<ImageOp>, n: nat) -> Outcome
    decreases n,
{
    if n == 0 {
        Outcome { picture: r, failure: None }
    } else {
        let before = applied_all(r, ops, (n - 1) as nat);
        match before.failure {
            Some(_) => before,
            None => match applied(before.picture, ops[n - 1]) {
                Ok(next) => Outcome { picture: next, failure: None },
                Err(e) => Outcome { picture: before.picture, failure: Some(e) },
            },
        }
    }
}

/// Turning by a quarter exchanges width and height and puts at `(x, y)`
/// what stood at `(y, height - 1 - x)`.
pub proof fn lemma_rotated90_at(r: Raster, x: int, y: int)
    requires
        0 <= x < r.height,
        0 <= y < r.width,
    ensures
        rotated90(r).wf(),
        rotated90(r).width == r.height,
        rotated90(r).height == r.width,
        rotated90(r).at(x, y) == r.at(y, r.height - 1 - x),
{
    lemma_from_fn_at(r.height, r.width, |x: int, y: int| r.at(y, r.height - 1 - x), x, y);
}

/// Turning upside down keeps the size and puts at `(x, y)` what stood at
/// `(width - 1 - x, height - 1 - y)`.
pub proof fn lemma_rotated180_at(r: Raster, x: int, y: int)
    requires
        r.contains(x, y),
    ensures
        rotated180(r).wf(),
        rotated180(r).width == r.width,
        rotated180(r).height == r.height,
        rotated180(r).at(x, y) == r.at(r.width - 1 - x, r.height - 1 - y),
{
    lemma_from_fn_at(
        r.width,
        r.height,
        |x: int, y: int| r.at(r.width - 1 - x, r.height - 1 - y),
        x,
        y,
    );
}

/// Mirroring left to right keeps the size and puts at `(x, y)` what stood
/// at `(width - 1 - x, y)`.
pub proof fn lemma_flipped_horizontal_at(r: Raster, x: int, y: int)
    requires
        r.contains(x, y),
    ensures
        flipped_horizontal(r).wf(),
        flipped_horizontal(r).width == r.width,
        flipped_horizontal(r).height == r.height,
        flipped_horizontal(r).at(x, y) == r.at(r.width - 1 - x, y),
{
    lemma_from_fn_at(r.width, r.height, |x: int, y: int| r.at(r.width - 1 - x, y), x, y);
}

/// Mirroring top to bottom keeps the size and puts at `(x, y)` what stood
/// at `(x, height - 1 - y)`.
pub proof fn lemma_flipped_vertical_at(r: Raster, x: int, y: int)
    requires
        r.contains(x, y),
    ensures
        flipped_vertical(r).wf(),
        flipped_vertical(r).width == r.width,
        flipped_vertical(r).height == r.height,
        flipped_vertical(r).at(x, y) == r.at(x, r.height - 1 - y),
{
    lemma_from_fn_at(r.width, r.height, |x: int, y: int| r.at(x, r.height - 1 - y), x, y);
}

/// A crop has the size asked for and holds at `(i, j)` what stood at
/// `(x + i, y + j)`.
pub proof fn lemma_cropped_at(r: Raster, x: nat, y: nat, w: nat, h: nat, i: int, j: int)
    requires
        0 <= i < w,
        0 <= j < h,
    ensures
        cropped(r, x, y, w, h).wf(),
        cropped(r, x, y, w, h).width == w,
        cropped(r, x, y, w, h).height == h,
        cropped(r, x, y, w, h).at(i, j) == r.at(x + i, y + j),
{
    lemma_from_fn_at(w, h, |i: int, j: int| r.at(x + i, y + j), i, j);
}

/// Every operation that can be applied gives a picture whose rows fill it.
pub proof fn lemma_applied_is_wf(r: Raster, op: ImageOp)
    requires
        applied(r, op) is Ok,
    ensures
        applied(r, op).unwrap().wf(),
{
}

/// Turned upside down twice, a picture is as before.
pub proof fn lemma_rotated180_twice(r: Raster)
    requires
        r.wf(),
    ensures
        rotated180(rotated180(r)) == r,
{
    let once = rotated180(r);
    let twice = rotated180(once);
    assert forall|x: int, y: int| twice.contains(x, y) implies twice.at(x, y) == r.at(x, y) by {
        lemma_rotated180_at(once, x, y);
        lemma_rotated180_at(r, r.width - 1 - x, r.height - 1 - y);
    }
    lemma_rasters_equal(twice, r);
}

/// Mirrored left to right twice, a picture is as before.
pub proof fn lemma_flipped_horizontal_twice(r: Raster)
    requires
        r.wf(),
    ensures
        flipped_horizontal(flipped_horizontal(r)) == r,
{
    let once = flipped_horizontal(r);
    let twice = flipped_horizontal(once);
    assert forall|x: int, y: int| twice.contains(x, y) implies twice.at(x, y) == r.at(x, y) by {
        lemma_flipped_horizontal_at(once, x, y);
        lemma_flipped_horizontal_at(r, r.width - 1 - x, y);
    }
    lemma_rasters_equal(twice, r);
}

/// Mirrored top to bottom twice, a picture is as before.
pub proof fn lemma_flipped_vertical_twice(r: Raster)
    requires
        r.wf(),
    ensures
        flipped_vertical(flipped_vertical(r)) == r,
{
    let once = flipped_vertical(r);
    let twice = flipped_vertical(once);
    assert forall|x: int, y: int| twice.contains(x, y) implies twice.at(x, y) == r.at(x, y) by {
        lemma_flipped_vertical_at(once, x, y);
        lemma_flipped_vertical_at(r, x, r.height - 1 - y);
    }
    lemma_rasters_equal(twice, r);
}

/// Two quarter turns are a half turn.
pub proof fn lemma_rotated90_twice(r: Raster)
    requires
        r.wf(),
    ensures
        rotated90(rotated90(r)) == rotated180(r),
{
    let once = rotated90(r);
    let twice = rotated90(once);
    let half = rotated180(r);
    assert(r.width * r.height == r.height * r.width) by (nonlinear_arith);
    assert forall|x: int, y: int| twice.contains(x, y) implies twice.at(x, y) == half.at(x, y) by {
        lemma_rotated90_at(once, x, y);
        lemma_rotated90_at(r, y, once.height - 1 - x);
        lemma_rotated180_at(r, x, y);
    }
    lemma_rasters_equal(twice, half);
}

/// Mirroring both ways is a half turn.
pub proof fn lemma_flipped_both_ways(r: Raster)
    requires
        r.wf(),
    ensures
        flipped_vertical(flipped_horizontal(r)) == rotated180(r),
{
    let once = flipped_horizontal(r);
    let both = flipped_vertical(once);
    let half = rotated180(r);
    assert forall|x: int, y: int| both.contains(x, y) implies both.at(x, y) == half.at(x, y) by {
        lemma_flipped_vertical_at(once, x, y);
        lemma_flipped_horizontal_at(r, x, r.height - 1 - y);
        lemma_rotated180_at(r, x, y);
    }
    lemma_rasters_equal(both, half);
}

/// The crop that takes all of a picture changes nothing.
pub proof fn lemma_cropped_whole(r: Raster)
    requires
        r.wf(),
    ensures
        cropped(r, 0, 0, r.width, r.height) == r,
{
    let whole = cropped(r, 0, 0, r.width, r.height);
    assert forall|x: int, y: int| whole.contains(x, y) implies whole.at(x, y) == r.at(x, y) by {
        lemma_cropped_at(r, 0, 0, r.width, r.height, x, y);
    }
    lemma_rasters_equal(whole, r);
}

/// The model of the picture with the given size and rows.
pub open spec fn raster_of(width: u32, height: u32, pixels: Seq<u8>) -> Raster {
    Raster { width: width as nat, height: height as nat, pixels }
}

/// Calls `image::imageops::rotate90` on the picture with the given size and
/// rows and hands back the rows of the result. The contract states what the
/// crate's source shows: the result is `height` wide and the pixel at
/// `(x, y)` of the picture lands at `(height - 1 - y, x)`.
#[verifier::external_body]
fn rotate90_rows(width: u32, height: u32, pixels: &Vec<u8>) -> (out: Vec<u8>)
    requires
        pixels@.len() == width * height,
    ensures
        out@ == rotated90(raster_of(width, height, pixels@)).pixels,
{
    let picture = image::GrayImage::from_raw(width, height, pixels.clone()).unwrap();
    image::imageops::rotate90(&picture).into_raw()
}

/// Calls `image::imageops::rotate180`, which sends the pixel at `(x, y)` to
/// `(width - 1 - x, height - 1 - y)` of a picture of the same size.
#[verifier::external_body]
fn rotate180_rows(width: u32, height: u32, pixels: &Vec<u8>) -> (out: Vec<u8>)
    requires
        pixels@.len() == width * height,
    ensures
        out@ == rotated180(raster_of(width, height, pixels@)).pixels,
{
    let picture = image::GrayImage::from_raw(width, height, pixels.clone()).unwrap();
    image::imageops::rotate180(&picture).into_raw()
}

/// Calls `image::imageops::flip_horizontal`, which sends the pixel at
/// `(x, y)` to `(width - 1 - x, y)` of a picture of the same size.
#[verifier::external_body]
fn flip_horizontal_rows(width: u32, height: u32, pixels: &Vec<u8>) -> (out: Vec<u8>)
    requires
        pixels@.len() == width * height,
    ensures
        out@ == flipped_horizontal(raster_of(width, height, pixels@)).pixels,
{
    let picture = image::GrayImage::from_raw(width, height, pixels.clone()).unwrap();
    image::imageops::flip_horizontal(&picture).into_raw()
}

/// Calls `image::imageops::flip_vertical`, which sends the pixel at `(x, y)`
/// to `(x, height - 1 - y)` of a picture of the same size.
#[verifier::external_body]
fn flip_vertical_rows(width: u32, height: u32, pixels: &Vec<u8>) -> (out: Vec<u8>)
    requires
        pixels@.len() == width * height,
    ensures
        out@ == flipped_vertical(raster_of(width, height, pixels@)).pixels,
{
    let picture = image::GrayImage::from_raw(width, height, pixels.clone()).unwrap();
    image::imageops::flip_vertical(&picture).into_raw()
}

/// Calls `image::imageops::crop` and copies the view it gives with
/// `SubImage::to_image`. For a crop within the picture the crate leaves the
/// four numbers as they are, and the copy holds at `(i, j)` the pixel at
/// `(x + i, y + j)` of the picture.
#[verifier::external_body]
fn crop_rows(width: u32, height: u32, pixels: &Vec<u8>, x: u32, y: u32, w: u32, h: u32) -> (out:
    Vec<u8>)
    requires
        pixels@.len() == width * height,
        x + w <= width,
        y + h <= height,
    ensures
        out@ == cropped(
            raster_of(width, height, pixels@),
            x as nat,
            y as nat,
            w as nat,
            h as nat,
        ).pixels,
{
    let mut picture = image::GrayImage::from_raw(width, height, pixels.clone()).unwrap();
    image::imageops::crop(&mut picture, x, y, w, h).to_image().into_raw()
}

/// Applies one operation to a picture.
pub fn apply_op(image: &GrayImage, op: ImageOp) -> (out: Result<GrayImage, OpError>)
    ensures
        match applied(image@, op) {
            Ok(r) => out matches Ok(picture) && picture@ == r,
            Err(e) => out == Err::<GrayImage, OpError>(e),
        },
{
    let width: u32 = image.width();
    let height: u32 = image.height();
    let pixels = image.as_raw();
    assert(image@ == raster_of(width, height, pixels@));
    assert(pixels@.len() == width * height);
    match op {
        ImageOp::Rotate90 => {
            let rows = rotate90_rows(width, height, pixels);
            assert(width * height == height * width) by (nonlinear_arith);
            Ok(GrayImage::from_parts(height, width, rows))
        },
        ImageOp::Rotate180 => {
            let rows = rotate180_rows(width, height, pixels);
            Ok(GrayImage::from_parts(width, height, rows))
        },
        ImageOp::FlipHorizontal => {
            let rows = flip_horizontal_rows(width, height, pixels);
            Ok(GrayImage::from_parts(width, height, rows))
        },
        ImageOp::FlipVertical => {
            let rows = flip_vertical_rows(width, height, pixels);
            Ok(GrayImage::from_parts(width, height, rows))
        },
        ImageOp::Crop { x, y, w, h } => {
            if x as u64 + w as u64 > width as u64 || y as u64 + h as u64 > height as u64 {
                Err(OpError::CropOutOfBounds { width, height })
            } else {
                let rows = crop_rows(width, height, pixels, x, y, w, h);
                Ok(GrayImage::from_parts(w, h, rows))
            }
        },
    }
}

/// Applies the operations to `image` in their order. At the first one that
/// cannot be applied the picture stays as the operations before it have made
/// it.
pub fn apply_ops(image: &mut GrayImage, ops: &[ImageOp]) -> (out: Result<(), OpError>)
    ensures
        final(image)@ == applied_all(old(image)@, ops@, ops@.len()).picture,
        match applied_all(old(image)@, ops@, ops@.len()).failure {
            Some(e) => out == Err::<(), OpError>(e),
            None => out == Ok::<(), OpError>(()),
        },
{
    let mut i: usize = 0;
    while i < ops.len()
        invariant
            i <= ops@.len(),
            applied_all(old(image)@, ops@, i as nat).failure is None,
            image@ == applied_all(old(image)@, ops@, i as nat).picture,
        decreases ops.len() - i,
    {
        match apply_op(image, ops[i]) {
            Ok(next) => {
                *image = next;
            },
            Err(e) => {
                proof {
                    lemma_failure_stays(old(image)@, ops@, (i + 1) as nat, ops@.len());
                }
                return Err(e);
            },
        }
        i = i + 1;
    }
    Ok(())
}

/// After a failure nothing changes any more.
proof fn lemma_failure_stays(r: Raster, ops: Seq<ImageOp>, n: nat, m: nat)
    requires
        n <= m,
        applied_all(r, ops, n).failure is Some,
    ensures
        applied_all(r, ops, m) == applied_all(r, ops, n),
    decreases m,
{
    if n < m {
        lemma_failure_stays(r, ops, n, (m - 1) as nat);
    }
}

} // verus!
