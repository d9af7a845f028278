//! The exact side of normalised cross-correlation.
//!
//! A template is held against every window of a picture by multiplying the
//! two in the frequency domain, on a canvas large enough that nothing wraps
//! around. What can be said in whole numbers stands here: the size and
//! layout of the canvas, the placements that count, the statistics by which
//! a score is normalised, and the strongest score of a column.

use crate::integral::{
    lemma_rect_sum_bound, lemma_rect_sum_of_equal_windows, lemma_tables_fit, rect_sum, row_sum,
    same_pixel, tables_fit, weight, IntegralTables, MAX_SQUARE,
};
use crate::locator::{Score, SCORE_ONE};
use crate::raster::{GrayImage, Raster};
use vstd::arithmetic::div_mod::lemma_fundamental_div_mod_converse;
use vstd::prelude::*;

verus! {

/// The size of the canvas on which a picture and the templates are
/// multiplied: the picture's size plus that of the largest template.
#[derive(Clone, Copy, Debug, PartialEq, Eq, Structural)]
pub struct PaddedSize {
    pub width: usize,
    pub height: usize,
}

impl PaddedSize {
    /// The number of cells can be counted in a `usize`.
    pub open spec fn wf(self) -> bool {
        self.width * self.height <= usize::MAX
    }

    /// The canvas for a picture of the given size and templates of at most
    /// the given size; `None` where its sides or its cells cannot be
    /// counted.
    pub fn new(
        haystack_width: u32,
        haystack_height: u32,
        max_needle_width: u32,
        max_needle_height: u32,
    ) -> (out: Option<PaddedSize>)
        ensures
            out is Some <==> {
                &&& haystack_width + max_needle_width <= usize::MAX
                &&& haystack_height + max_needle_height <= usize::MAX
                &&& (haystack_width + max_needle_width) * (haystack_height + max_needle_height)
                    <= usize::MAX
            },
            out matches Some(size) ==> {
                &&& size.wf()
                &&& size.width == haystack_width + max_needle_width
                &&& size.height == haystack_height + max_needle_height
            },
    {
        let width: u64 = haystack_width as u64 + max_needle_width as u64;
        let height: u64 = haystack_height as u64 + max_needle_height as u64;
        assert(0 <= width * height <= 0x2_0000_0000 * 0x2_0000_0000) by (nonlinear_arith)
            requires
                0 <= width < 0x2_0000_0000,
                0 <= height < 0x2_0000_0000,
        ;
        let cells: u128 = (width as u128) * (height as u128);
        if cells > usize::MAX as u128 || width > usize::MAX as u64 || height > usize::MAX as u64 {
            return None;
        }
        Some(PaddedSize { width: width as usize, height: height as usize })
    }

    /// The number of cells.
    pub fn len(&self) -> (n: usize)
        requires
            self.wf(),
        ensures
            n == self.width * self.height,
    {
        self.width * self.height
    }

    /// The place of the cell at column `x` of row `y` in a canvas laid out
    /// row by row.
    pub fn index(&self, x: usize, y: usize) -> (i: usize)
        requires
            self.wf(),
            x < self.width,
            y < self.height,
        ensures
            i == y * self.width + x,
            i < self.width * self.height,
    {
        proof {
            crate::raster::lemma_index_in_bounds(
                x as int,
                y as int,
                self.width as int,
                self.height as int,
            );
            assert(y * self.width >= 0) by (nonlinear_arith)
                requires
                    y >= 0,
                    self.width >= 0,
            ;
        }
        y * self.width + x
    }
}

/// `r` in the top left corner of a canvas of zeros. What does not fit on
/// the canvas is left out.
pub open spec fn on_canvas(r: Raster, width: nat, height: nat) -> Raster {
    Raster::from_fn(
        width,
        height,
        |x: int, y: int|
            if r.contains(x, y) {
                r.at(x, y)
            } else {
                0u8
            },
    )
}

/// The cells of the canvas of the given size with `img` in its top left
/// corner and zeros elsewhere, row by row.
pub fn canvas(img: &GrayImage, size: PaddedSize) -> (cells: Vec<u8>)
    requires
        size.wf(),
    ensures
        cells@ == on_canvas(img@, size.width as nat, size.height as nat).pixels,
{
    let width: u32 = img.width();
    let height: u32 = img.height();
    let ghost r = img@;
    let mut cells: Vec<u8> = Vec::new();
    let mut y: usize = 0;
    while y < size.height
        invariant
            r == img@,
            width == r.width,
            height == r.height,
            y <= size.height,
            cells@.len() == y * size.width,
            forall|i: int|
                0 <= i < cells@.len() ==> #[trigger] cells@[i] == on_canvas(
                    r,
                    size.width as nat,
                    size.height as nat,
                ).pixels[i],
        decreases size.height - y,
    {
        let mut x: usize = 0;
        while x < size.width
            invariant
                r == img@,
                width == r.width,
                height == r.height,
                y < size.height,
                x <= size.width,
                cells@.len() == y * size.width + x,
                forall|i: int|
                    0 <= i < cells@.len() ==> #[trigger] cells@[i] == on_canvas(
                        r,
                        size.width as nat,
                        size.height as nat,
                    ).pixels[i],
            decreases size.width - x,
        {
            let cell: u8 = if x < width as usize && y < height as usize {
                img.get_pixel(x as u32, y as u32)
            } else {
                0
            };
            proof {
                crate::raster::lemma_index_in_bounds(
                    x as int,
                    y as int,
                    size.width as int,
                    size.height as int,
                );
                lemma_fundamental_div_mod_converse(
                    y * size.width + x,
                    size.width as int,
                    y as int,
                    x as int,
                );
            }
            cells.push(cell);
            x = x + 1;
        }
        proof {
            assert((y + 1) * size.width == y * size.width + size.width) by (nonlinear_arith);
        }
        y = y + 1;
    }
    proof {
        assert(size.height * size.width == size.width * size.height) by (nonlinear_arith);
        assert(cells@ =~= on_canvas(r, size.width as nat, size.height as nat).pixels);
    }
    cells
}

/// How many placements of a template `needle` long fit into a picture
/// `haystack` long along one axis, the last full overlap left out; none
/// where the template is as long as the picture or longer.
pub open spec fn placements(haystack: nat, needle: nat) -> nat {
    if needle < haystack {
        (haystack - needle) as nat
    } else {
        0
    }
}

/// How many placements count along an axis on which the picture is
/// `haystack` long and the template `needle`.
pub fn placement_count(haystack: u32, needle: u32) -> (n: usize)
    ensures
        n == placements(haystack as nat, needle as nat),
{
    if needle < haystack {
        (haystack - needle) as usize
    } else {
        0
    }
}

/// A template placed where it counts lies within the picture, and within
/// the canvas so does every cell it covers: nothing wraps around.
pub proof fn lemma_placement_stays_inside(
    haystack: nat,
    needle: nat,
    canvas: nat,
    at: nat,
    offset: nat,
)
    requires
        at < placements(haystack, needle),
        offset < needle,
        haystack + needle <= canvas,
    ensures
        at + needle <= haystack,
        at + offset < haystack,
        at + offset < canvas,
{
}

/// The energy of `count` numbers with the given sum and sum of squares:
/// `count` times the sum of their squared distances from their mean, which
/// is `count` times the sum of squares less the square of the sum. Sums
/// that belong to no numbers may give less than nothing; that counts as
/// nothing.
pub open spec fn energy(count: int, sum: int, sum_sq: int) -> int {
    if count * sum_sq >= sum * sum {
        count * sum_sq - sum * sum
    } else {
        0
    }
}

/// The energy of the window of `r` that is `w` wide and `h` high and starts
/// at `(x, y)`.
pub open spec fn energy_of_window(r: Raster, x: int, y: int, w: nat, h: nat) -> int {
    energy(
        (w * h) as int,
        rect_sum(r, x, y, w, h, false) as int,
        rect_sum(r, x, y, w, h, true) as int,
    )
}

/// The energy of `count` numbers with the given sum and sum of squares.
pub fn energy_of(count: u64, sum: u64, sum_sq: u64) -> (e: u128)
    ensures
        e == energy(count as int, sum as int, sum_sq as int),
{
    assert(0 <= count * sum_sq <= u64::MAX * u64::MAX) by (nonlinear_arith)
        requires
            0 <= count <= u64::MAX,
            0 <= sum_sq <= u64::MAX,
    ;
    assert(0 <= sum * sum <= u64::MAX * u64::MAX) by (nonlinear_arith)
        requires
            0 <= sum <= u64::MAX,
    ;
    let spread: u128 = (count as u128) * (sum_sq as u128);
    let square: u128 = (sum as u128) * (sum as u128);
    if spread >= square {
        spread - square
    } else {
        0
    }
}

/// Squared distances from `p` add up: where those of two groups of numbers
/// come to no less than nothing each, so do those of both groups together.
proof fn lemma_distances_add(
    n0: int,
    s0: int,
    t0: int,
    n1: int,
    s1: int,
    t1: int,
    n: int,
    s: int,
    t: int,
    p: int,
)
    by (nonlinear_arith)
    requires
        n == n0 + n1,
        s == s0 + s1,
        t == t0 + t1,
        t0 - 2 * p * s0 + n0 * (p * p) >= 0,
        t1 - 2 * p * s1 + n1 * (p * p) >= 0,
    ensures
        t - 2 * p * s + n * (p * p) >= 0,
{
}

/// The squared distance of one number `q` from `p` is no less than nothing.
proof fn lemma_distance_of_one(q: int, p: int)
    by (nonlinear_arith)
    ensures
        q * q - 2 * p * q + 1 * (p * p) >= 0,
{
    assert((q - p) * (q - p) >= 0);
    assert((q - p) * (q - p) == q * q - 2 * p * q + p * p);
}

/// For any number `p`, the squared distances from `p` of the pixels in a
/// stretch of a row add up to no less than nothing.
proof fn lemma_row_distance(r: Raster, x: int, y: int, n: nat, p: int)
    ensures
        row_sum(r, x, y, n, true) - 2 * p * row_sum(r, x, y, n, false) + n * (p * p) >= 0,
    decreases n,
{
    if n == 0 {
        assert(n * (p * p) == 0) by (nonlinear_arith)
            requires
                n == 0,
        ;
        assert(2 * p * row_sum(r, x, y, n, false) == 0) by (nonlinear_arith)
            requires
                row_sum(r, x, y, n, false) == 0,
        ;
    } else {
        lemma_row_distance(r, x, y, (n - 1) as nat, p);
        let q = r.at(x + n - 1, y) as int;
        lemma_distance_of_one(q, p);
        assert(weight(r.at(x + n - 1, y), true) == q * q);
        lemma_distances_add(
            n - 1,
            row_sum(r, x, y, (n - 1) as nat, false) as int,
            row_sum(r, x, y, (n - 1) as nat, true) as int,
            1,
            q,
            q * q,
            n as int,
            row_sum(r, x, y, n, false) as int,
            row_sum(r, x, y, n, true) as int,
            p,
        );
    }
}

/// For any number `p`, the squared distances from `p` of the pixels in a
/// rectangle add up to no less than nothing.
proof fn lemma_rect_distance(r: Raster, x: int, y: int, w: nat, h: nat, p: int)
    ensures
        rect_sum(r, x, y, w, h, true) - 2 * p * rect_sum(r, x, y, w, h, false) + (w * h) * (p * p)
            >= 0,
    decreases h,
{
    if h == 0 {
        assert((w * h) * (p * p) == 0) by (nonlinear_arith)
            requires
                h == 0,
        ;
        assert(2 * p * rect_sum(r, x, y, w, h, false) == 0) by (nonlinear_arith)
            requires
                rect_sum(r, x, y, w, h, false) == 0,
        ;
    } else {
        lemma_rect_distance(r, x, y, w, (h - 1) as nat, p);
        lemma_row_distance(r, x, y + h - 1, w, p);
        assert(w * (h - 1) + w == w * h) by (nonlinear_arith);
        lemma_distances_add(
            w * (h - 1),
            rect_sum(r, x, y, w, (h - 1) as nat, false) as int,
            rect_sum(r, x, y, w, (h - 1) as nat, true) as int,
            w as int,
            row_sum(r, x, y + h - 1, w, false) as int,
            row_sum(r, x, y + h - 1, w, true) as int,
            (w * h) as int,
            rect_sum(r, x, y, w, h, false) as int,
            rect_sum(r, x, y, w, h, true) as int,
            p,
        );
    }
}

/// The square of a sum of `n + 1` numbers is at most `n + 1` times the sum of
/// their squares, where that holds of the first `n` and the last lies no
/// further from them than they lie apart.
proof fn lemma_one_more(n: int, s: int, t: int, p: int)
    requires
        n >= 0,
        s * s <= n * t,
        t - 2 * p * s + n * (p * p) >= 0,
    ensures
        (s + p) * (s + p) <= (n + 1) * (t + p * p),
{
    assert((n + 1) * (t + p * p) - (s + p) * (s + p) == (n * t - s * s) + (t - 2 * p * s + n * (p
        * p))) by (nonlinear_arith);
}

/// The square of the sum over the first `h` rows of a rectangle and the
/// first `k` pixels of its next row is at most their number times the sum
/// of their squares.
proof fn lemma_sum_square_partial(r: Raster, x: int, y: int, w: nat, h: nat, k: nat)
    requires
        k <= w,
    ensures
        ({
            let s = rect_sum(r, x, y, w, h, false) + row_sum(r, x, y + h, k, false);
            let t = rect_sum(r, x, y, w, h, true) + row_sum(r, x, y + h, k, true);
            s * s <= (w * h + k) * t
        }),
    decreases h, k,
{
    let s = (rect_sum(r, x, y, w, h, false) + row_sum(r, x, y + h, k, false)) as int;
    let t = (rect_sum(r, x, y, w, h, true) + row_sum(r, x, y + h, k, true)) as int;
    if k == 0 {
        if h == 0 {
            assert(s == 0 && t == 0);
            assert(s * s <= (w * h + k) * t) by (nonlinear_arith)
                requires
                    s == 0,
                    t == 0,
            ;
        } else {
            lemma_sum_square_partial(r, x, y, w, (h - 1) as nat, w);
            assert(w * (h - 1) + w == w * h + k) by (nonlinear_arith)
                requires
                    k == 0,
            ;
            assert(y + (h - 1) == y + h - 1);
        }
    } else {
        lemma_sum_square_partial(r, x, y, w, h, (k - 1) as nat);
        let p = r.at(x + k - 1, y + h) as int;
        let s0 = (rect_sum(r, x, y, w, h, false) + row_sum(
            r,
            x,
            y + h,
            (k - 1) as nat,
            false,
        )) as int;
        let t0 = (rect_sum(r, x, y, w, h, true) + row_sum(
            r,
            x,
            y + h,
            (k - 1) as nat,
            true,
        )) as int;
        lemma_rect_distance(r, x, y, w, h, p);
        lemma_row_distance(r, x, y + h, (k - 1) as nat, p);
        let n0 = w * h + k - 1;
        lemma_distances_add(
            (w * h) as int,
            rect_sum(r, x, y, w, h, false) as int,
            rect_sum(r, x, y, w, h, true) as int,
            k - 1,
            row_sum(r, x, y + h, (k - 1) as nat, false) as int,
            row_sum(r, x, y + h, (k - 1) as nat, true) as int,
            n0,
            s0,
            t0,
            p,
        );
        assert(s0 * s0 <= n0 * t0);
        lemma_one_more(n0, s0, t0, p);
        assert(weight(r.at(x + k - 1, y + h), true) == p * p);
        assert(s == s0 + p);
        assert(t == t0 + p * p);
    }
}

/// The square of the sum over a rectangle is at most the number of its
/// pixels times the sum of their squares: the energy of a window is what
/// its definition says, with nothing cut off.
pub proof fn lemma_sum_square(r: Raster, x: int, y: int, w: nat, h: nat)
    ensures
        rect_sum(r, x, y, w, h, false) * rect_sum(r, x, y, w, h, false) <= (w * h) * rect_sum(
            r,
            x,
            y,
            w,
            h,
            true,
        ),
        energy_of_window(r, x, y, w, h) == (w * h) * rect_sum(r, x, y, w, h, true) - rect_sum(
            r,
            x,
            y,
            w,
            h,
            false,
        ) * rect_sum(r, x, y, w, h, false),
{
    lemma_sum_square_partial(r, x, y, w, h, 0);
}

/// A window that shows a template has the template's sums and energy,
/// wherever in the picture it lies.
pub proof fn lemma_matching_window(haystack: Raster, x: int, y: int, needle: Raster)
    requires
        forall|i: int, j: int|
            0 <= i < needle.width && 0 <= j < needle.height ==> #[trigger] same_pixel(
                haystack,
                x,
                y,
                needle,
                0,
                0,
                i,
                j,
            ),
    ensures
        rect_sum(haystack, x, y, needle.width, needle.height, false) == rect_sum(
            needle,
            0,
            0,
            needle.width,
            needle.height,
            false,
        ),
        rect_sum(haystack, x, y, needle.width, needle.height, true) == rect_sum(
            needle,
            0,
            0,
            needle.width,
            needle.height,
            true,
        ),
        energy_of_window(haystack, x, y, needle.width, needle.height) == energy_of_window(
            needle,
            0,
            0,
            needle.width,
            needle.height,
        ),
{
    lemma_rect_sum_of_equal_windows(
        haystack,
        x,
        y,
        needle,
        0,
        0,
        needle.width,
        needle.height,
        false,
    );
    lemma_rect_sum_of_equal_windows(
        haystack,
        x,
        y,
        needle,
        0,
        0,
        needle.width,
        needle.height,
        true,
    );
}

/// The size of a template and the sums over its pixels.
#[derive(Clone, Copy, Debug, PartialEq, Eq, Structural)]
pub struct NeedleStats {
    pub width: u32,
    pub height: u32,
    pub pixel_count: u64,
    pub sum: u64,
    pub sum_sq: u64,
}

/// The statistics of the template `r`.
pub open spec fn stats_of(r: Raster) -> NeedleStats {
    NeedleStats {
        width: r.width as u32,
        height: r.height as u32,
        pixel_count: (r.width * r.height) as u64,
        sum: rect_sum(r, 0, 0, r.width, r.height, false) as u64,
        sum_sq: rect_sum(r, 0, 0, r.width, r.height, true) as u64,
    }
}

/// Takes the statistics of a template; `None` where its sums cannot be
/// held.
pub fn needle_stats(needle: &GrayImage) -> (out: Option<NeedleStats>)
    ensures
        out is Some <==> tables_fit(needle@),
        out matches Some(s) ==> s == stats_of(needle@) && energy(
            s.pixel_count as int,
            s.sum as int,
            s.sum_sq as int,
        ) == energy_of_window(needle@, 0, 0, needle@.width, needle@.height),
{
    let width: u32 = needle.width();
    let height: u32 = needle.height();
    match IntegralTables::new(needle) {
        None => None,
        Some(tables) => {
            let sums = tables.get_window_stats(0, 0, width as usize, height as usize);
            proof {
                lemma_rect_sum_bound(needle@, 0, 0, needle@.width, needle@.height, false);
                lemma_rect_sum_bound(needle@, 0, 0, needle@.width, needle@.height, true);
                assert(0 <= width * height) by (nonlinear_arith)
                    requires
                        width >= 0,
                        height >= 0,
                ;
                assert(width * height <= MAX_SQUARE * (width * height)) by (nonlinear_arith)
                    requires
                        width * height >= 0,
                        MAX_SQUARE == 65025,
                ;
                assert(width * height <= u64::MAX);
            }
            Some(
                NeedleStats {
                    width,
                    height,
                    pixel_count: (width as u64) * (height as u64),
                    sum: sums.0,
                    sum_sq: sums.1,
                },
            )
        },
    }
}

impl IntegralTables {
    /// The energy of the window of `nw` columns from `x` on and `nh` rows
    /// from `y` on: the number of its pixels times the sum of their squares,
    /// less the square of their sum.
    pub fn window_energy(&self, x: usize, y: usize, nw: usize, nh: usize) -> (e: u128)
        requires
            x + nw <= self.source().width,
            y + nh <= self.source().height,
        ensures
            e == energy_of_window(self.source(), x as int, y as int, nw as nat, nh as nat),
            e == (nw * nh) * rect_sum(self.source(), x as int, y as int, nw as nat, nh as nat, true)
                - rect_sum(self.source(), x as int, y as int, nw as nat, nh as nat, false)
                * rect_sum(self.source(), x as int, y as int, nw as nat, nh as nat, false),
    {
        let w: usize = self.width();
        let h: usize = self.height();
        let sums = self.get_window_stats(x, y, nw, nh);
        proof {
            lemma_sum_square(self.source(), x as int, y as int, nw as nat, nh as nat);
            lemma_tables_fit(*self);
            assert(0 <= nw * nh <= w * h) by (nonlinear_arith)
                requires
                    0 <= nw <= w,
                    0 <= nh <= h,
            ;
            assert(w * h <= MAX_SQUARE * (w * h)) by (nonlinear_arith)
                requires
                    w * h >= 0,
                    MAX_SQUARE == 65025,
            ;
        }
        let count: u64 = (nw as u64) * (nh as u64);
        energy_of(count, sums.0, sums.1)
    }
}

/// The strongest of the scores up to `n` in `scores`, none of them counted
/// as more than a perfect match, and nothing as less than no match.
pub open spec fn strongest(scores: Seq<i32>, n: nat) -> Score
    decreases n,
{
    if n == 0 {
        0
    } else {
        let before = strongest(scores, (n - 1) as nat);
        let s = scores[n - 1];
        if s > SCORE_ONE {
            SCORE_ONE
        } else if s > before {
            s as Score
        } else {
            before
        }
    }
}

/// The score of a column: the strongest of the scores that the placements
/// in the column have, on the scale of [`SCORE_ONE`]; 0 where all of them
/// are negative or the column has no placement.
pub fn column_score(scores: &Vec<i32>) -> (best: Score)
    ensures
        best == strongest(scores@, scores@.len()),
        best <= SCORE_ONE,
{
    let mut best: Score = 0;
    let mut i: usize = 0;
    while i < scores.len()
        invariant
            i <= scores@.len(),
            best == strongest(scores@, i as nat),
            best <= SCORE_ONE,
        decreases scores.len() - i,
    {
        let s: i32 = scores[i];
        if s > SCORE_ONE as i32 {
            best = SCORE_ONE;
        } else if s > 0 && s as u32 > best {
            best = s as u32;
        }
        i = i + 1;
    }
    best
}

/// A column score lies between no match and a perfect match, no score of
/// the column is stronger unless it is beyond a perfect match, and the
/// column score is one of the scores, or stands for one beyond a perfect
/// match, or is 0.
pub proof fn lemma_strongest_is_in_range(scores: Seq<i32>, n: nat)
    requires
        n <= scores.len(),
    ensures
        0 <= strongest(scores, n) <= SCORE_ONE,
        forall|i: int|
            0 <= i < n ==> #[trigger] scores[i] <= strongest(scores, n) || scores[i] > SCORE_ONE,
        strongest(scores, n) == 0 || exists|i: int|
            0 <= i < n && (#[trigger] scores[i] == strongest(scores, n) || (scores[i] > SCORE_ONE
                && strongest(scores, n) == SCORE_ONE)),
    decreases n,
{
    if n > 0 {
        lemma_strongest_is_in_range(scores, (n - 1) as nat);
        let before = strongest(scores, (n - 1) as nat);
        let now = strongest(scores, n);
        if now != 0 {
            if now == before {
                let i = choose|i: int|
                    0 <= i < n - 1 && (#[trigger] scores[i] == before || (scores[i] > SCORE_ONE
                        && before == SCORE_ONE));
                assert(0 <= i < n && (scores[i] == now || (scores[i] > SCORE_ONE && now
                    == SCORE_ONE)));
            } else {
                assert(scores[n - 1] == now || (scores[n - 1] > SCORE_ONE && now == SCORE_ONE));
            }
        }
    }
}

} // verus!
