//! Summed-area tables: sums of intensities and of squared intensities over
//! any rectangle of a picture, from four table entries.

use crate::raster::{lemma_index_in_bounds, GrayImage, Raster};
use vstd::prelude::*;

verus! {

/// What one pixel adds to a sum: its intensity, or the square of it.
pub open spec fn weight(p: u8, squared: bool) -> nat {
    if squared {
        (p * p) as nat
    } else {
        p as nat
    }
}

/// The sum over the `n` pixels of row `y` that start at column `x`.
pub open spec fn row_sum(r: Raster, x: int, y: int, n: nat, squared: bool) -> nat
    decreases n,
{
    if n == 0 {
        0
    } else {
        row_sum(r, x, y, (n - 1) as nat, squared) + weight(r.at(x + n - 1, y), squared)
    }
}

/// The sum over the rectangle of `w` columns from `x` on and `h` rows from
/// `y` on, taken pixel by pixel.
pub open spec fn rect_sum(r: Raster, x: int, y: int, w: nat, h: nat, squared: bool) -> nat
    decreases h,
{
    if h == 0 {
        0
    } else {
        rect_sum(r, x, y, w, (h - 1) as nat, squared) + row_sum(r, x, y + h - 1, w, squared)
    }
}

/// Largest value of a squared intensity.
pub const MAX_SQUARE: u64 = 65025;

/// Both tables of a picture can be held: their entries can be counted in a
/// `usize` and the largest possible sum of squares fits 64 bits.
pub open spec fn tables_fit(r: Raster) -> bool {
    &&& (r.width + 1) * (r.height + 1) <= usize::MAX
    &&& MAX_SQUARE * (r.width * r.height) <= u64::MAX
}

/// A stretch of a row splits into its left and right part.
pub proof fn lemma_row_sum_split(r: Raster, x: int, y: int, a: nat, b: nat, squared: bool)
    ensures
        row_sum(r, x, y, a + b, squared) == row_sum(r, x, y, a, squared) + row_sum(
            r,
            x + a,
            y,
            b,
            squared,
        ),
    decreases b,
{
    if b > 0 {
        lemma_row_sum_split(r, x, y, a, (b - 1) as nat, squared);
        assert(x + (a + b) - 1 == (x + a) + b - 1);
    }
}

/// A rectangle splits into its left and right part.
pub proof fn lemma_rect_sum_split_columns(
    r: Raster,
    x: int,
    y: int,
    a: nat,
    b: nat,
    h: nat,
    squared: bool,
)
    ensures
        rect_sum(r, x, y, a + b, h, squared) == rect_sum(r, x, y, a, h, squared) + rect_sum(
            r,
            x + a,
            y,
            b,
            h,
            squared,
        ),
    decreases h,
{
    if h > 0 {
        lemma_rect_sum_split_columns(r, x, y, a, b, (h - 1) as nat, squared);
        lemma_row_sum_split(r, x, y + h - 1, a, b, squared);
    }
}

/// A rectangle splits into its upper and lower part.
pub proof fn lemma_rect_sum_split_rows(
    r: Raster,
    x: int,
    y: int,
    w: nat,
    a: nat,
    b: nat,
    squared: bool,
)
    ensures
        rect_sum(r, x, y, w, a + b, squared) == rect_sum(r, x, y, w, a, squared) + rect_sum(
            r,
            x,
            y + a,
            w,
            b,
            squared,
        ),
    decreases b,
{
    if b > 0 {
        lemma_rect_sum_split_rows(r, x, y, w, a, (b - 1) as nat, squared);
        assert(y + (a + b) - 1 == (y + a) + b - 1);
    }
}

/// The pixel `(i, j)` steps from `(ax, ay)` in `a` is the pixel as many
/// steps from `(bx, by)` in `b`.
pub open spec fn same_pixel(
    a: Raster,
    ax: int,
    ay: int,
    b: Raster,
    bx: int,
    by: int,
    i: int,
    j: int,
) -> bool {
    a.at(ax + i, ay + j) == b.at(bx + i, by + j)
}

/// Stretches of rows that hold the same pixels have the same sum, wherever
/// they lie and in whichever picture.
proof fn lemma_row_sum_of_equal_rows(
    a: Raster,
    ax: int,
    ay: int,
    b: Raster,
    bx: int,
    by: int,
    n: nat,
    j: int,
    squared: bool,
)
    requires
        forall|i: int| 0 <= i < n ==> #[trigger] same_pixel(a, ax, ay, b, bx, by, i, j),
    ensures
        row_sum(a, ax, ay + j, n, squared) == row_sum(b, bx, by + j, n, squared),
    decreases n,
{
    if n > 0 {
        lemma_row_sum_of_equal_rows(a, ax, ay, b, bx, by, (n - 1) as nat, j, squared);
        assert(same_pixel(a, ax, ay, b, bx, by, n - 1, j));
    }
}

/// Windows that hold the same pixels have the same sum, wherever they lie
/// and in whichever picture: moving a pattern does not change what is
/// summed over it.
pub proof fn lemma_rect_sum_of_equal_windows(
    a: Raster,
    ax: int,
    ay: int,
    b: Raster,
    bx: int,
    by: int,
    w: nat,
    h: nat,
    squared: bool,
)
    requires
        forall|i: int, j: int|
            0 <= i < w && 0 <= j < h ==> #[trigger] same_pixel(a, ax, ay, b, bx, by, i, j),
    ensures
        rect_sum(a, ax, ay, w, h, squared) == rect_sum(b, bx, by, w, h, squared),
    decreases h,
{
    if h > 0 {
        lemma_rect_sum_of_equal_windows(a, ax, ay, b, bx, by, w, (h - 1) as nat, squared);
        assert forall|i: int| 0 <= i < w implies #[trigger] same_pixel(
            a,
            ax,
            ay,
            b,
            bx,
            by,
            i,
            h - 1,
        ) by {}
        lemma_row_sum_of_equal_rows(a, ax, ay, b, bx, by, w, h - 1, squared);
        assert(ay + (h - 1) == ay + h - 1 && by + (h - 1) == by + h - 1);
    }
}

/// The sum over a rectangle is what inclusion and exclusion make of the sums
/// over the four rectangles that reach from the origin to its corners.
pub proof fn lemma_inclusion_exclusion(
    r: Raster,
    x: nat,
    y: nat,
    w: nat,
    h: nat,
    squared: bool,
)
    ensures
        rect_sum(r, x as int, y as int, w, h, squared) == rect_sum(r, 0, 0, x + w, y + h, squared)
            - rect_sum(r, 0, 0, x, y + h, squared) - rect_sum(r, 0, 0, x + w, y, squared)
            + rect_sum(r, 0, 0, x, y, squared),
        rect_sum(r, 0, 0, x, y + h, squared) <= rect_sum(r, 0, 0, x + w, y + h, squared),
        rect_sum(r, 0, 0, x, y, squared) <= rect_sum(r, 0, 0, x + w, y, squared),
{
    lemma_rect_sum_split_columns(r, 0, 0, x, w, y + h, squared);
    lemma_rect_sum_split_columns(r, 0, 0, x, w, y, squared);
    lemma_rect_sum_split_rows(r, x as int, 0, w, y, h, squared);
}

/// No sum over `w * h` pixels exceeds that many largest squares.
pub proof fn lemma_rect_sum_bound(r: Raster, x: int, y: int, w: nat, h: nat, squared: bool)
    ensures
        rect_sum(r, x, y, w, h, squared) <= MAX_SQUARE * (w * h),
    decreases h,
{
    if h == 0 {
        assert(w * h == 0) by (nonlinear_arith)
            requires
                h == 0,
        ;
    } else {
        lemma_rect_sum_bound(r, x, y, w, (h - 1) as nat, squared);
        lemma_row_sum_bound(r, x, y + h - 1, w, squared);
        assert(MAX_SQUARE * (w * (h - 1)) + MAX_SQUARE * w == MAX_SQUARE * (w * h))
            by (nonlinear_arith);
    }
}

/// No sum over `n` pixels of a row exceeds that many largest squares.
pub proof fn lemma_row_sum_bound(r: Raster, x: int, y: int, n: nat, squared: bool)
    ensures
        row_sum(r, x, y, n, squared) <= MAX_SQUARE * n,
    decreases n,
{
    if n > 0 {
        lemma_row_sum_bound(r, x, y, (n - 1) as nat, squared);
        let p = r.at(x + n - 1, y);
        assert(p * p <= 65025) by (nonlinear_arith)
            requires
                0 <= p <= 255,
        ;
    }
}

/// The entry at column `x` of row `y` in a table laid out row by row with
/// `columns` entries per row.
pub open spec fn entry_of(table: Seq<u64>, columns: int, x: int, y: int) -> u64 {
    table[y * columns + x]
}

/// In a row-by-row layout, an entry of an earlier row, or one further left in
/// the same row, comes first.
proof fn lemma_cell_order(x1: int, y1: int, x2: int, y2: int, columns: int)
    requires
        0 <= x1 < columns,
        0 <= x2 < columns,
        0 <= y1,
        0 <= y2,
        y1 < y2 || (y1 == y2 && x1 < x2),
    ensures
        y1 * columns + x1 < y2 * columns + x2,
{
    if y1 < y2 {
        assert((y1 + 1) * columns <= y2 * columns) by (nonlinear_arith)
            requires
                y1 + 1 <= y2,
                columns > 0,
        ;
        assert((y1 + 1) * columns == y1 * columns + columns) by (nonlinear_arith);
    }
}

/// Every entry of the rows `0..=rows` of `table` is the sum that its place
/// stands for.
spec fn rows_hold(table: Seq<u64>, r: Raster, squared: bool, rows: int) -> bool {
    forall|x: int, y: int|
        0 <= x <= r.width && 0 <= y <= rows ==> #[trigger] entry_of(table, r.width as int + 1, x, y)
            == rect_sum(r, 0, 0, x as nat, y as nat, squared)
}

/// The entries `0..=columns` of row `y` of `table` are the sums that their
/// places stand for.
spec fn row_holds(table: Seq<u64>, r: Raster, squared: bool, y: int, columns: int) -> bool {
    forall|x: int|
        0 <= x <= columns ==> #[trigger] entry_of(table, r.width as int + 1, x, y) == rect_sum(
            r,
            0,
            0,
            x as nat,
            y as nat,
            squared,
        )
}

/// Column 0 of `table` holds zero in every row.
spec fn first_column_is_zero(table: Seq<u64>, r: Raster) -> bool {
    forall|y: int| 0 <= y <= r.height ==> #[trigger] entry_of(table, r.width as int + 1, 0, y) == 0
}

/// A sum over no columns is zero.
proof fn lemma_rect_sum_of_no_columns(r: Raster, x: int, y: int, h: nat, squared: bool)
    ensures
        rect_sum(r, x, y, 0, h, squared) == 0,
{
    lemma_rect_sum_bound(r, x, y, 0, h, squared);
    assert(0 * h == 0) by (nonlinear_arith);
}

/// Writing the entry at `(x + 1, y + 1)` keeps what was known of the rows
/// above, of the entries to its left, and of column 0.
proof fn lemma_write_keeps(
    before: Seq<u64>,
    after: Seq<u64>,
    r: Raster,
    squared: bool,
    x: int,
    y: int,
    value: u64,
)
    requires
        0 <= x < r.width,
        0 <= y < r.height,
        before.len() == (r.width + 1) * (r.height + 1),
        after == before.update((y + 1) * (r.width + 1) + (x + 1), value),
        rows_hold(before, r, squared, y),
        row_holds(before, r, squared, y + 1, x),
        first_column_is_zero(before, r),
        value == rect_sum(r, 0, 0, (x + 1) as nat, (y + 1) as nat, squared),
    ensures
        rows_hold(after, r, squared, y),
        row_holds(after, r, squared, y + 1, x + 1),
        first_column_is_zero(after, r),
{
    let columns: int = r.width as int + 1;
    lemma_index_in_bounds(x + 1, y + 1, columns, r.height as int + 1);
    assert forall|i: int, j: int| 0 <= i <= r.width && 0 <= j <= y implies #[trigger] entry_of(
        after,
        columns,
        i,
        j,
    ) == rect_sum(r, 0, 0, i as nat, j as nat, squared) by {
        lemma_cell_order(i, j, x + 1, y + 1, columns);
        lemma_index_in_bounds(i, j, columns, r.height as int + 1);
        assert(entry_of(before, columns, i, j) == rect_sum(r, 0, 0, i as nat, j as nat, squared));
    }
    assert forall|i: int| 0 <= i <= x + 1 implies #[trigger] entry_of(after, columns, i, y + 1)
        == rect_sum(r, 0, 0, i as nat, (y + 1) as nat, squared) by {
        if i <= x {
            lemma_cell_order(i, y + 1, x + 1, y + 1, columns);
            lemma_index_in_bounds(i, y + 1, columns, r.height as int + 1);
            assert(entry_of(before, columns, i, y + 1) == rect_sum(
                r,
                0,
                0,
                i as nat,
                (y + 1) as nat,
                squared,
            ));
        }
    }
    assert forall|j: int| 0 <= j <= r.height implies #[trigger] entry_of(after, columns, 0, j)
        == 0 by {
        if j <= y + 1 {
            lemma_cell_order(0, j, x + 1, y + 1, columns);
        } else {
            lemma_cell_order(x + 1, y + 1, 0, j, columns);
        }
        lemma_index_in_bounds(0, j, columns, r.height as int + 1);
        assert(entry_of(before, columns, 0, j) == 0);
    }
}

/// The two summed-area tables of one picture. Each has one row and one
/// column more than the picture; the entry at `(x, y)` is the sum over the
/// `x` columns to the left of column `x` in the `y` rows above row `y`.
pub struct IntegralTables {
    sum: Vec<u64>,
    sum_sq: Vec<u64>,
    columns: usize,
    rows: usize,
    source: Ghost<Raster>,
}

impl IntegralTables {
    /// The picture that the tables were built from.
    pub closed spec fn source(&self) -> Raster {
        self.source@
    }

    /// The entry of the table of sums at column `x` of row `y`.
    pub closed spec fn sum_at(&self, x: int, y: int) -> u64 {
        self.sum@[y * self.columns + x]
    }

    /// The entry of the table of sums of squares at column `x` of row `y`.
    pub closed spec fn sum_sq_at(&self, x: int, y: int) -> u64 {
        self.sum_sq@[y * self.columns + x]
    }

    /// The tables belong to their picture: sizes agree and every entry is the
    /// sum that its place stands for.
    pub closed spec fn wf(&self) -> bool {
        let r = self.source@;
        &&& r.wf()
        &&& tables_fit(r)
        &&& self.columns == r.width + 1
        &&& self.rows == r.height + 1
        &&& self.sum@.len() == self.columns * self.rows
        &&& self.sum_sq@.len() == self.columns * self.rows
        &&& rows_hold(self.sum@, r, false, r.height as int)
        &&& rows_hold(self.sum_sq@, r, true, r.height as int)
    }

    #[verifier::type_invariant]
    spec fn inv(&self) -> bool {
        self.wf()
    }

    /// Builds both tables of `img`; `None` where they cannot be held.
    pub fn new(img: &GrayImage) -> (out: Option<IntegralTables>)
        ensures
            out is Some <==> tables_fit(img@),
            out matches Some(t) ==> t.wf() && t.source() == img@,
    {
        let w32: u32 = img.width();
        let h32: u32 = img.height();
        let ghost r = img@;
        assert((w32 + 1) * (h32 + 1) <= 0x1_0000_0000 * 0x1_0000_0000) by (nonlinear_arith)
            requires
                0 <= w32 < 0x1_0000_0000,
                0 <= h32 < 0x1_0000_0000,
        ;
        assert(0 <= w32 * h32 <= 0x1_0000_0000 * 0x1_0000_0000) by (nonlinear_arith)
            requires
                0 <= w32 < 0x1_0000_0000,
                0 <= h32 < 0x1_0000_0000,
        ;
        let cells: u128 = (w32 as u128 + 1) * (h32 as u128 + 1);
        let worst: u128 = (MAX_SQUARE as u128) * ((w32 as u128) * (h32 as u128));
        if cells > usize::MAX as u128 || worst > u64::MAX as u128 {
            return None;
        }
        assert(w32 + 1 <= (w32 + 1) * (h32 + 1) && h32 + 1 <= (w32 + 1) * (h32 + 1))
            by (nonlinear_arith)
            requires
                w32 >= 0,
                h32 >= 0,
        ;
        let w: usize = w32 as usize;
        let h: usize = h32 as usize;
        let columns: usize = w + 1;
        let rows: usize = h + 1;
        let mut sum: Vec<u64> = vec![0u64; columns * rows];
        let mut sum_sq: Vec<u64> = vec![0u64; columns * rows];
        proof {
            assert forall|x: int, y: int| 0 <= x <= w && 0 <= y <= h implies #[trigger] entry_of(
                sum@,
                r.width as int + 1,
                x,
                y,
            ) == 0 by {
                lemma_index_in_bounds(x, y, columns as int, rows as int);
            }
            assert forall|x: int, y: int| 0 <= x <= w && 0 <= y <= h implies #[trigger] entry_of(
                sum_sq@,
                r.width as int + 1,
                x,
                y,
            ) == 0 by {
                lemma_index_in_bounds(x, y, columns as int, rows as int);
            }
            assert(rows_hold(sum@, r, false, 0));
            assert(rows_hold(sum_sq@, r, true, 0));
            assert(first_column_is_zero(sum@, r));
            assert(first_column_is_zero(sum_sq@, r));
        }
        let mut y: usize = 0;
        while y < h
            invariant
                r == img@,
                r.wf(),
                tables_fit(r),
                w == r.width,
                h == r.height,
                columns == w + 1,
                rows == h + 1,
                columns * rows <= usize::MAX,
                w <= u32::MAX,
                h <= u32::MAX,
                y <= h,
                sum@.len() == columns * rows,
                sum_sq@.len() == columns * rows,
                rows_hold(sum@, r, false, y as int),
                rows_hold(sum_sq@, r, true, y as int),
                first_column_is_zero(sum@, r),
                first_column_is_zero(sum_sq@, r),
            decreases h - y,
        {
            let mut row: u64 = 0;
            let mut row_sq: u64 = 0;
            let mut x: usize = 0;
            proof {
                lemma_rect_sum_of_no_columns(r, 0, 0, (y + 1) as nat, false);
                lemma_rect_sum_of_no_columns(r, 0, 0, (y + 1) as nat, true);
                assert(entry_of(sum@, r.width as int + 1, 0, y + 1) == 0);
                assert(entry_of(sum_sq@, r.width as int + 1, 0, y + 1) == 0);
            }
            while x < w
                invariant
                    r == img@,
                    r.wf(),
                    tables_fit(r),
                    w == r.width,
                    h == r.height,
                    columns == w + 1,
                    rows == h + 1,
                    columns * rows <= usize::MAX,
                    w <= u32::MAX,
                    h <= u32::MAX,
                    y < h,
                    x <= w,
                    sum@.len() == columns * rows,
                    sum_sq@.len() == columns * rows,
                    rows_hold(sum@, r, false, y as int),
                    rows_hold(sum_sq@, r, true, y as int),
                    row_holds(sum@, r, false, y + 1, x as int),
                    row_holds(sum_sq@, r, true, y + 1, x as int),
                    first_column_is_zero(sum@, r),
                    first_column_is_zero(sum_sq@, r),
                    row == row_sum(r, 0, y as int, x as nat, false),
                    row_sq == row_sum(r, 0, y as int, x as nat, true),
                decreases w - x,
            {
                let pixel: u64 = img.get_pixel(x as u32, y as u32) as u64;
                proof {
                    lemma_index_in_bounds(x + 1, y + 1, columns as int, rows as int);
                    lemma_index_in_bounds(x + 1, y as int, columns as int, rows as int);
                    assert(y * columns >= 0 && (y + 1) * columns >= 0) by (nonlinear_arith)
                        requires
                            y >= 0,
                            columns >= 0,
                    ;
                }
                let at: usize = (y + 1) * columns + (x + 1);
                let above: usize = y * columns + (x + 1);
                proof {
                    assert(entry_of(sum@, r.width as int + 1, x + 1, y as int)
                        == sum@[above as int]);
                    assert(entry_of(sum_sq@, r.width as int + 1, x + 1, y as int)
                        == sum_sq@[above as int]);
                    lemma_rect_sum_bound(r, 0, 0, (x + 1) as nat, (y + 1) as nat, false);
                    lemma_rect_sum_bound(r, 0, 0, (x + 1) as nat, (y + 1) as nat, true);
                    assert(MAX_SQUARE * ((x + 1) * (y + 1)) <= MAX_SQUARE * (w * h))
                        by (nonlinear_arith)
                        requires
                            0 <= x + 1 <= w,
                            0 <= y + 1 <= h,
                    ;
                    assert(pixel * pixel <= 65025) by (nonlinear_arith)
                        requires
                            0 <= pixel <= 255,
                    ;
                }
                row = row + pixel;
                row_sq = row_sq + pixel * pixel;
                let total: u64 = row + sum[above];
                let total_sq: u64 = row_sq + sum_sq[above];
                let ghost sum_before = sum@;
                let ghost sum_sq_before = sum_sq@;
                sum.set(at, total);
                sum_sq.set(at, total_sq);
                proof {
                    lemma_write_keeps(sum_before, sum@, r, false, x as int, y as int, total);
                    lemma_write_keeps(
                        sum_sq_before,
                        sum_sq@,
                        r,
                        true,
                        x as int,
                        y as int,
                        total_sq,
                    );
                }
                x = x + 1;
            }
            proof {
                assert forall|i: int, j: int|
                    0 <= i <= r.width && 0 <= j <= y + 1 implies #[trigger] entry_of(
                    sum@,
                    r.width as int + 1,
                    i,
                    j,
                ) == rect_sum(r, 0, 0, i as nat, j as nat, false) by {
                    if j <= y {
                        assert(rows_hold(sum@, r, false, y as int));
                    } else {
                        assert(row_holds(sum@, r, false, y + 1, x as int));
                    }
                }
                assert forall|i: int, j: int|
                    0 <= i <= r.width && 0 <= j <= y + 1 implies #[trigger] entry_of(
                    sum_sq@,
                    r.width as int + 1,
                    i,
                    j,
                ) == rect_sum(r, 0, 0, i as nat, j as nat, true) by {
                    if j <= y {
                        assert(rows_hold(sum_sq@, r, true, y as int));
                    } else {
                        assert(row_holds(sum_sq@, r, true, y + 1, x as int));
                    }
                }
            }
            y = y + 1;
        }
        Some(IntegralTables { sum, sum_sq, columns, rows, source: Ghost(r) })
    }

    /// Width of the picture behind the tables.
    pub fn width(&self) -> (w: usize)
        ensures
            w == self.source().width,
            self.wf(),
    {
        proof {
            use_type_invariant(self);
        }
        self.columns - 1
    }

    /// Height of the picture behind the tables.
    pub fn height(&self) -> (h: usize)
        ensures
            h == self.source().height,
            self.wf(),
    {
        proof {
            use_type_invariant(self);
        }
        self.rows - 1
    }

    /// Both entries at column `x` of row `y`: the sum, then the sum of
    /// squares, over the `x` by `y` pixels next to the origin.
    pub fn entry(&self, x: usize, y: usize) -> (e: (u64, u64))
        requires
            x <= self.source().width,
            y <= self.source().height,
        ensures
            e.0 == self.sum_at(x as int, y as int),
            e.1 == self.sum_sq_at(x as int, y as int),
            e.0 == rect_sum(self.source(), 0, 0, x as nat, y as nat, false),
            e.1 == rect_sum(self.source(), 0, 0, x as nat, y as nat, true),
    {
        let len: usize = self.sum.len();
        proof {
            use_type_invariant(self);
            lemma_index_in_bounds(x as int, y as int, self.columns as int, self.rows as int);
            assert(y * self.columns >= 0) by (nonlinear_arith)
                requires
                    y >= 0,
                    self.columns >= 0,
            ;
            lemma_tables_hold_prefix_sums(*self, x as int, y as int);
        }
        let at: usize = y * self.columns + x;
        (self.sum[at], self.sum_sq[at])
    }

    /// The sum and the sum of squares of the intensities in the rectangle of
    /// `nw` columns from `x` on and `nh` rows from `y` on.
    pub fn get_window_stats(&self, x: usize, y: usize, nw: usize, nh: usize) -> (s: (u64, u64))
        requires
            x + nw <= self.source().width,
            y + nh <= self.source().height,
        ensures
            s.0 == rect_sum(self.source(), x as int, y as int, nw as nat, nh as nat, false),
            s.1 == rect_sum(self.source(), x as int, y as int, nw as nat, nh as nat, true),
            s.0 == self.sum_at(x + nw, y + nh) - self.sum_at(x as int, y + nh) - self.sum_at(
                x + nw,
                y as int,
            ) + self.sum_at(x as int, y as int),
            s.1 == self.sum_sq_at(x + nw, y + nh) - self.sum_sq_at(x as int, y + nh)
                - self.sum_sq_at(x + nw, y as int) + self.sum_sq_at(x as int, y as int),
    {
        let w: usize = self.width();
        let h: usize = self.height();
        let x2: usize = x + nw;
        let y2: usize = y + nh;
        let far = self.entry(x2, y2);
        let left = self.entry(x, y2);
        let above = self.entry(x2, y);
        let corner = self.entry(x, y);
        proof {
            let r = self.source();
            lemma_inclusion_exclusion(r, x as nat, y as nat, nw as nat, nh as nat, false);
            lemma_inclusion_exclusion(r, x as nat, y as nat, nw as nat, nh as nat, true);
        }
        ((far.0 - left.0) - (above.0 - corner.0), (far.1 - left.1) - (above.1 - corner.1))
    }
}

/// Tables exist only of pictures whose tables can be held.
pub proof fn lemma_tables_fit(t: IntegralTables)
    requires
        t.wf(),
    ensures
        t.source().wf(),
        tables_fit(t.source()),
{
}

/// Row 0 and column 0 of both tables hold zero.
pub proof fn lemma_tables_border_is_zero(t: IntegralTables, x: int, y: int)
    requires
        t.wf(),
        0 <= x <= t.source().width,
        0 <= y <= t.source().height,
    ensures
        t.sum_at(x, 0) == 0,
        t.sum_sq_at(x, 0) == 0,
        t.sum_at(0, y) == 0,
        t.sum_sq_at(0, y) == 0,
{
    let r = t.source();
    lemma_tables_hold_prefix_sums(t, x, 0);
    lemma_tables_hold_prefix_sums(t, 0, y);
    lemma_rect_sum_of_no_columns(r, 0, 0, y as nat, false);
    lemma_rect_sum_of_no_columns(r, 0, 0, y as nat, true);
}

/// Every entry of the tables is the sum over the pixels to the left of its
/// column in the rows above its row.
pub proof fn lemma_tables_hold_prefix_sums(t: IntegralTables, x: int, y: int)
    requires
        t.wf(),
        0 <= x <= t.source().width,
        0 <= y <= t.source().height,
    ensures
        t.sum_at(x, y) == rect_sum(t.source(), 0, 0, x as nat, y as nat, false),
        t.sum_sq_at(x, y) == rect_sum(t.source(), 0, 0, x as nat, y as nat, true),
{
    let r = t.source();
    let columns: int = r.width as int + 1;
    assert(entry_of(t.sum@, columns, x, y) == rect_sum(r, 0, 0, x as nat, y as nat, false));
    assert(entry_of(t.sum_sq@, columns, x, y) == rect_sum(r, 0, 0, x as nat, y as nat, true));
}

} // verus!
