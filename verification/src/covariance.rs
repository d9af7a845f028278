//! What the normalised score is, in exact arithmetic.
//!
//! The score of a template at a window of a picture is their covariance
//! over the root of the product of their energies. Covariance and energy
//! are taken times the number of pixels here, which makes them whole
//! numbers and leaves the score what it is. What is proved of them holds of
//! the score that floating-point arithmetic approximates.

use crate::correlation::{energy_of_window, lemma_sum_square};
use crate::integral::{
    lemma_rect_sum_bound, lemma_rect_sum_of_equal_windows, rect_sum, row_sum, same_pixel, weight,
};
use crate::raster::Raster;
use vstd::prelude::*;

verus! {

/// The sum of the products of the `n` pixels of a row of `a` that start at
/// `(ax, ay)` with the `n` pixels of a row of `b` that start at `(bx, by)`.
pub open spec fn row_dot(a: Raster, ax: int, ay: int, b: Raster, bx: int, by: int, n: nat) -> nat
    decreases n,
{
    if n == 0 {
        0
    } else {
        row_dot(a, ax, ay, b, bx, by, (n - 1) as nat) + (a.at(ax + n - 1, ay) * b.at(
            bx + n - 1,
            by,
        )) as nat
    }
}

/// The sum of the products of the pixels of a window of `a` with those of
/// a window of `b` of the same size, position by position.
pub open spec fn rect_dot(
    a: Raster,
    ax: int,
    ay: int,
    b: Raster,
    bx: int,
    by: int,
    w: nat,
    h: nat,
) -> nat
    decreases h,
{
    if h == 0 {
        0
    } else {
        rect_dot(a, ax, ay, b, bx, by, w, (h - 1) as nat) + row_dot(
            a,
            ax,
            ay + h - 1,
            b,
            bx,
            by + h - 1,
            w,
        )
    }
}

/// The covariance of the template `needle` and the window of `haystack` at
/// `(x, y)`: the number of pixels times the sum, over the window, of the
/// products of the distances of the two pixels from their means. That is
/// the number of pixels times the sum of the products, less the product of
/// the sums; and it is the number of pixels times what multiplying the
/// picture with the template less its mean comes to at that window.
pub open spec fn covariance(haystack: Raster, x: int, y: int, needle: Raster) -> int {
    (needle.width * needle.height) * rect_dot(
        haystack,
        x,
        y,
        needle,
        0,
        0,
        needle.width,
        needle.height,
    ) - rect_sum(haystack, x, y, needle.width, needle.height, false) * rect_sum(
        needle,
        0,
        0,
        needle.width,
        needle.height,
        false,
    )
}

/// The sum over `n` pairs of numbers of the squares of `u * p - v * q - c`,
/// written out in the sums over the pairs: `sa` and `qa` are the sum and
/// the sum of squares of the first numbers, `sb` and `qb` those of the
/// second, and `m` is the sum of the products.
spec fn spread(
    u: int,
    v: int,
    c: int,
    n: int,
    sa: int,
    qa: int,
    sb: int,
    qb: int,
    m: int,
) -> int {
    (u * u) * qa + (v * v) * qb + (c * c) * n - 2 * ((u * v) * m) - 2 * ((u * c) * sa) + 2 * ((v
        * c) * sb)
}

/// Factors of a product of two products may change places.
proof fn lemma_shuffle(a: int, b: int, c: int, d: int)
    by (nonlinear_arith)
    ensures
        (a * b) * (c * d) == (a * c) * (b * d),
{
}

/// The square of a difference of three numbers, written out.
proof fn lemma_square_of_three(x: int, y: int, c: int)
    by (nonlinear_arith)
    ensures
        (x - y - c) * (x - y - c) == x * x + y * y + c * c - 2 * (x * y) - 2 * (x * c) + 2 * (y
            * c),
        (x - y - c) * (x - y - c) >= 0,
{
}

proof fn lemma_spread_of_one(u: int, v: int, c: int, p: int, q: int)
    ensures
        spread(u, v, c, 1, p, p * p, q, q * q, p * q) >= 0,
{
    let x = u * p;
    let y = v * q;
    lemma_square_of_three(x, y, c);
    lemma_shuffle(u, p, u, p);
    lemma_shuffle(v, q, v, q);
    lemma_shuffle(u, p, v, q);
    assert(x * c == (u * c) * p) by (nonlinear_arith)
        requires
            x == u * p,
    ;
    assert(y * c == (v * c) * q) by (nonlinear_arith)
        requires
            y == v * q,
    ;
    assert((c * c) * 1 == c * c) by (nonlinear_arith);
}

proof fn lemma_spread_adds(
    u: int,
    v: int,
    c: int,
    n0: int,
    sa0: int,
    qa0: int,
    sb0: int,
    qb0: int,
    m0: int,
    n1: int,
    sa1: int,
    qa1: int,
    sb1: int,
    qb1: int,
    m1: int,
)
    ensures
        spread(u, v, c, n0 + n1, sa0 + sa1, qa0 + qa1, sb0 + sb1, qb0 + qb1, m0 + m1) == spread(
            u,
            v,
            c,
            n0,
            sa0,
            qa0,
            sb0,
            qb0,
            m0,
        ) + spread(u, v, c, n1, sa1, qa1, sb1, qb1, m1),
{
    let uu = u * u;
    let vv = v * v;
    let cc = c * c;
    let uv = u * v;
    let uc = u * c;
    let vc = v * c;
    assert(uu * (qa0 + qa1) == uu * qa0 + uu * qa1) by (nonlinear_arith);
    assert(vv * (qb0 + qb1) == vv * qb0 + vv * qb1) by (nonlinear_arith);
    assert(cc * (n0 + n1) == cc * n0 + cc * n1) by (nonlinear_arith);
    assert(uv * (m0 + m1) == uv * m0 + uv * m1) by (nonlinear_arith);
    assert(uc * (sa0 + sa1) == uc * sa0 + uc * sa1) by (nonlinear_arith);
    assert(vc * (sb0 + sb1) == vc * sb0 + vc * sb1) by (nonlinear_arith);
}

/// The spread of the pairs of pixels in two stretches of rows.
spec fn row_spread(
    a: Raster,
    ax: int,
    ay: int,
    b: Raster,
    bx: int,
    by: int,
    n: nat,
    u: int,
    v: int,
    c: int,
) -> int {
    spread(
        u,
        v,
        c,
        n as int,
        row_sum(a, ax, ay, n, false) as int,
        row_sum(a, ax, ay, n, true) as int,
        row_sum(b, bx, by, n, false) as int,
        row_sum(b, bx, by, n, true) as int,
        row_dot(a, ax, ay, b, bx, by, n) as int,
    )
}

/// The spread of the pairs of pixels in two windows.
spec fn rect_spread(
    a: Raster,
    ax: int,
    ay: int,
    b: Raster,
    bx: int,
    by: int,
    w: nat,
    h: nat,
    u: int,
    v: int,
    c: int,
) -> int {
    spread(
        u,
        v,
        c,
        (w * h) as int,
        rect_sum(a, ax, ay, w, h, false) as int,
        rect_sum(a, ax, ay, w, h, true) as int,
        rect_sum(b, bx, by, w, h, false) as int,
        rect_sum(b, bx, by, w, h, true) as int,
        rect_dot(a, ax, ay, b, bx, by, w, h) as int,
    )
}

proof fn lemma_spread_of_nothing(u: int, v: int, c: int)
    ensures
        spread(u, v, c, 0, 0, 0, 0, 0, 0) == 0,
{
    assert((u * u) * 0 == 0 && (v * v) * 0 == 0 && (c * c) * 0 == 0 && 2 * (u * v) * 0 == 0 && 2
        * (u * c) * 0 == 0 && 2 * (v * c) * 0 == 0) by (nonlinear_arith);
}

proof fn lemma_row_spread(
    a: Raster,
    ax: int,
    ay: int,
    b: Raster,
    bx: int,
    by: int,
    n: nat,
    u: int,
    v: int,
    c: int,
)
    ensures
        row_spread(a, ax, ay, b, bx, by, n, u, v, c) >= 0,
    decreases n,
{
    if n == 0 {
        lemma_spread_of_nothing(u, v, c);
    } else {
        let k = (n - 1) as nat;
        lemma_row_spread(a, ax, ay, b, bx, by, k, u, v, c);
        let p = a.at(ax + n - 1, ay) as int;
        let q = b.at(bx + n - 1, by) as int;
        lemma_spread_of_one(u, v, c, p, q);
        assert(weight(a.at(ax + n - 1, ay), true) == p * p);
        assert(weight(b.at(bx + n - 1, by), true) == q * q);
        assert(p * q >= 0) by (nonlinear_arith)
            requires
                p >= 0,
                q >= 0,
        ;
        lemma_spread_adds(
            u,
            v,
            c,
            k as int,
            row_sum(a, ax, ay, k, false) as int,
            row_sum(a, ax, ay, k, true) as int,
            row_sum(b, bx, by, k, false) as int,
            row_sum(b, bx, by, k, true) as int,
            row_dot(a, ax, ay, b, bx, by, k) as int,
            1,
            p,
            p * p,
            q,
            q * q,
            p * q,
        );
    }
}

proof fn lemma_rect_spread(
    a: Raster,
    ax: int,
    ay: int,
    b: Raster,
    bx: int,
    by: int,
    w: nat,
    h: nat,
    u: int,
    v: int,
    c: int,
)
    ensures
        rect_spread(a, ax, ay, b, bx, by, w, h, u, v, c) >= 0,
    decreases h,
{
    if h == 0 {
        lemma_spread_of_nothing(u, v, c);
        assert(w * h == 0) by (nonlinear_arith)
            requires
                h == 0,
        ;
    } else {
        let k = (h - 1) as nat;
        lemma_rect_spread(a, ax, ay, b, bx, by, w, k, u, v, c);
        lemma_row_spread(a, ax, ay + h - 1, b, bx, by + h - 1, w, u, v, c);
        assert(w * k + w == w * h) by (nonlinear_arith)
            requires
                k == h - 1,
        ;
        lemma_spread_adds(
            u,
            v,
            c,
            (w * k) as int,
            rect_sum(a, ax, ay, w, k, false) as int,
            rect_sum(a, ax, ay, w, k, true) as int,
            rect_sum(b, bx, by, w, k, false) as int,
            rect_sum(b, bx, by, w, k, true) as int,
            rect_dot(a, ax, ay, b, bx, by, w, k) as int,
            w as int,
            row_sum(a, ax, ay + h - 1, w, false) as int,
            row_sum(a, ax, ay + h - 1, w, true) as int,
            row_sum(b, bx, by + h - 1, w, false) as int,
            row_sum(b, bx, by + h - 1, w, true) as int,
            row_dot(a, ax, ay + h - 1, b, bx, by + h - 1, w) as int,
        );
    }
}

/// With the numbers taken from their means, the spread is the number of
/// pairs times a form in the two energies and the covariance.
proof fn lemma_centred_spread(
    u: int,
    v: int,
    n: int,
    sa: int,
    qa: int,
    sb: int,
    qb: int,
    m: int,
)
    ensures
        spread(n * u, n * v, u * sa - v * sb, n, sa, qa, sb, qb, m) == n * ((u * u) * (n * qa - sa
            * sa) - 2 * ((u * v) * (n * m - sa * sb)) + (v * v) * (n * qb - sb * sb)),
{
    let c = u * sa - v * sb;
    let uu = u * u;
    let vv = v * v;
    let uv = u * v;
    let aa = sa * sa;
    let bb = sb * sb;
    let ab = sa * sb;
    let t1 = uu * qa;
    let t2 = vv * qb;
    let t3 = uv * m;
    let t4 = uu * aa;
    let t5 = vv * bb;
    let t6 = uv * ab;
    let nu = n * u;
    let nv = n * v;

    // The three terms in which the spread holds the sums of squares and of products.
    lemma_shuffle(n, u, n, u);
    lemma_shuffle(n, v, n, v);
    lemma_shuffle(n, u, n, v);
    assert(((n * n) * uu) * qa == n * (n * t1)) by (nonlinear_arith)
        requires
            t1 == uu * qa,
    ;
    assert(((n * n) * vv) * qb == n * (n * t2)) by (nonlinear_arith)
        requires
            t2 == vv * qb,
    ;
    assert(((n * n) * uv) * m == n * (n * t3)) by (nonlinear_arith)
        requires
            t3 == uv * m,
    ;

    // The square of what the numbers are taken from.
    let x = u * sa;
    let y = v * sb;
    assert(c * c == x * x - 2 * (x * y) + y * y) by (nonlinear_arith)
        requires
            c == x - y,
    ;
    lemma_shuffle(u, sa, u, sa);
    lemma_shuffle(v, sb, v, sb);
    lemma_shuffle(u, sa, v, sb);
    assert(c * c == t4 - 2 * t6 + t5);
    assert((c * c) * n == n * t4 - 2 * (n * t6) + n * t5) by (nonlinear_arith)
        requires
            c * c == t4 - 2 * t6 + t5,
    ;

    // The two terms in which the spread holds the sums.
    assert(u * x == uu * sa) by (nonlinear_arith)
        requires
            x == u * sa,
            uu == u * u,
    ;
    assert(u * y == uv * sb) by (nonlinear_arith)
        requires
            y == v * sb,
            uv == u * v,
    ;
    assert(v * x == uv * sa) by (nonlinear_arith)
        requires
            x == u * sa,
            uv == u * v,
    ;
    assert(v * y == vv * sb) by (nonlinear_arith)
        requires
            y == v * sb,
            vv == v * v,
    ;
    let uc = u * c;
    let vc = v * c;
    assert(uc == uu * sa - uv * sb) by (nonlinear_arith)
        requires
            uc == u * c,
            c == x - y,
            u * x == uu * sa,
            u * y == uv * sb,
    ;
    assert(vc == uv * sa - vv * sb) by (nonlinear_arith)
        requires
            vc == v * c,
            c == x - y,
            v * x == uv * sa,
            v * y == vv * sb,
    ;
    assert((uu * sa) * sa == t4) by (nonlinear_arith)
        requires
            t4 == uu * aa,
            aa == sa * sa,
    ;
    assert((uv * sb) * sa == t6) by (nonlinear_arith)
        requires
            t6 == uv * ab,
            ab == sa * sb,
    ;
    assert((uv * sa) * sb == t6) by (nonlinear_arith)
        requires
            t6 == uv * ab,
            ab == sa * sb,
    ;
    assert((vv * sb) * sb == t5) by (nonlinear_arith)
        requires
            t5 == vv * bb,
            bb == sb * sb,
    ;
    assert(uc * sa == t4 - t6) by (nonlinear_arith)
        requires
            uc == uu * sa - uv * sb,
            (uu * sa) * sa == t4,
            (uv * sb) * sa == t6,
    ;
    assert(vc * sb == t6 - t5) by (nonlinear_arith)
        requires
            vc == uv * sa - vv * sb,
            (uv * sa) * sb == t6,
            (vv * sb) * sb == t5,
    ;
    assert((nu * c) * sa == n * (uc * sa)) by (nonlinear_arith)
        requires
            nu == n * u,
            uc == u * c,
    ;
    assert((nv * c) * sb == n * (vc * sb)) by (nonlinear_arith)
        requires
            nv == n * v,
            vc == v * c,
    ;
    assert(n * (t4 - t6) == n * t4 - n * t6) by (nonlinear_arith);
    assert(n * (t6 - t5) == n * t6 - n * t5) by (nonlinear_arith);

    // The form, term by term.
    assert(uu * (n * qa - aa) == n * t1 - t4) by (nonlinear_arith)
        requires
            t1 == uu * qa,
            t4 == uu * aa,
    ;
    assert(vv * (n * qb - bb) == n * t2 - t5) by (nonlinear_arith)
        requires
            t2 == vv * qb,
            t5 == vv * bb,
    ;
    assert(uv * (n * m - ab) == n * t3 - t6) by (nonlinear_arith)
        requires
            t3 == uv * m,
            t6 == uv * ab,
    ;
    let form = uu * (n * qa - aa) - 2 * (uv * (n * m - ab)) + vv * (n * qb - bb);
    assert(form == n * t1 - t4 - 2 * (n * t3 - t6) + n * t2 - t5);
    assert(n * form == n * (n * t1) - n * t4 - 2 * (n * (n * t3)) + 2 * (n * t6) + n * (n * t2) - n
        * t5) by (nonlinear_arith)
        requires
            form == n * t1 - t4 - 2 * (n * t3 - t6) + n * t2 - t5,
    ;
}

/// Whatever two whole numbers `u` and `v` are, `u * u` times the first
/// energy, less twice `u * v` times the covariance, plus `v * v` times the
/// second energy is no less than nothing.
proof fn lemma_form_is_positive(
    a: Raster,
    ax: int,
    ay: int,
    b: Raster,
    bx: int,
    by: int,
    w: nat,
    h: nat,
    u: int,
    v: int,
)
    ensures
        ({
            let n = (w * h) as int;
            let sa = rect_sum(a, ax, ay, w, h, false) as int;
            let qa = rect_sum(a, ax, ay, w, h, true) as int;
            let sb = rect_sum(b, bx, by, w, h, false) as int;
            let qb = rect_sum(b, bx, by, w, h, true) as int;
            let m = rect_dot(a, ax, ay, b, bx, by, w, h) as int;
            (u * u) * (n * qa - sa * sa) - 2 * ((u * v) * (n * m - sa * sb)) + (v * v) * (n * qb
                - sb * sb) >= 0
        }),
{
    let n = (w * h) as int;
    let sa = rect_sum(a, ax, ay, w, h, false) as int;
    let qa = rect_sum(a, ax, ay, w, h, true) as int;
    let sb = rect_sum(b, bx, by, w, h, false) as int;
    let qb = rect_sum(b, bx, by, w, h, true) as int;
    let m = rect_dot(a, ax, ay, b, bx, by, w, h) as int;
    let form = (u * u) * (n * qa - sa * sa) - 2 * ((u * v) * (n * m - sa * sb)) + (v * v) * (n * qb
        - sb * sb);
    if n == 0 {
        lemma_nothing_in_no_pixels(a, ax, ay, b, bx, by, w, h);
        assert(form == 0) by (nonlinear_arith)
            requires
                n == 0,
                sa == 0,
                qa == 0,
                sb == 0,
                qb == 0,
                m == 0,
                form == (u * u) * (n * qa - sa * sa) - 2 * ((u * v) * (n * m - sa * sb)) + (v * v)
                    * (n * qb - sb * sb),
        ;
    } else {
        lemma_rect_spread(a, ax, ay, b, bx, by, w, h, n * u, n * v, u * sa - v * sb);
        lemma_centred_spread(u, v, n, sa, qa, sb, qb, m);
        assert(form >= 0) by (nonlinear_arith)
            requires
                n > 0,
                n * form >= 0,
        ;
    }
}

/// Over no pixels every sum is nothing.
proof fn lemma_nothing_in_no_pixels(
    a: Raster,
    ax: int,
    ay: int,
    b: Raster,
    bx: int,
    by: int,
    w: nat,
    h: nat,
)
    requires
        w * h == 0,
    ensures
        rect_sum(a, ax, ay, w, h, false) == 0,
        rect_sum(a, ax, ay, w, h, true) == 0,
        rect_sum(b, bx, by, w, h, false) == 0,
        rect_sum(b, bx, by, w, h, true) == 0,
        rect_dot(a, ax, ay, b, bx, by, w, h) == 0,
    decreases h,
{
    lemma_rect_sum_bound(a, ax, ay, w, h, false);
    lemma_rect_sum_bound(a, ax, ay, w, h, true);
    lemma_rect_sum_bound(b, bx, by, w, h, false);
    lemma_rect_sum_bound(b, bx, by, w, h, true);
    if h > 0 {
        assert(w == 0) by (nonlinear_arith)
            requires
                w * h == 0,
                h > 0,
                w >= 0,
        ;
        assert(w * (h - 1) == 0) by (nonlinear_arith)
            requires
                w == 0,
        ;
        lemma_nothing_in_no_pixels(a, ax, ay, b, bx, by, w, (h - 1) as nat);
    }
}

/// From a form that is never negative to the bound on its middle term: the
/// square of the covariance is at most the product of the energies.
proof fn lemma_discriminant(ea: int, eb: int, cv: int)
    requires
        ea >= 0,
        eb >= 0,
        ea - 2 * cv + eb >= 0,
        ea + 2 * cv + eb >= 0,
        (cv * cv) * ea - 2 * ((cv * ea) * cv) + (ea * ea) * eb >= 0,
        (eb * eb) * ea - 2 * ((eb * cv) * cv) + (cv * cv) * eb >= 0,
    ensures
        cv * cv <= ea * eb,
{
    if ea > 0 {
        assert(ea * (ea * eb - cv * cv) == (cv * cv) * ea - 2 * ((cv * ea) * cv) + (ea * ea) * eb)
            by (nonlinear_arith);
        assert(ea * eb - cv * cv >= 0) by (nonlinear_arith)
            requires
                ea > 0,
                ea * (ea * eb - cv * cv) >= 0,
        ;
    } else if eb > 0 {
        assert(eb * (ea * eb - cv * cv) == (eb * eb) * ea - 2 * ((eb * cv) * cv) + (cv * cv) * eb)
            by (nonlinear_arith);
        assert(ea * eb - cv * cv >= 0) by (nonlinear_arith)
            requires
                eb > 0,
                eb * (ea * eb - cv * cv) >= 0,
        ;
    } else {
        assert(cv == 0);
        assert(cv * cv <= ea * eb) by (nonlinear_arith)
            requires
                cv == 0,
                ea == 0,
                eb == 0,
        ;
    }
}

/// The square of the covariance of a template and a window is at most the
/// product of their energies: the normalised score, which is the
/// covariance over the root of that product, lies between -1 and 1.
pub proof fn lemma_score_is_in_range(haystack: Raster, x: int, y: int, needle: Raster)
    ensures
        covariance(haystack, x, y, needle) * covariance(haystack, x, y, needle) <= energy_of_window(
            haystack,
            x,
            y,
            needle.width,
            needle.height,
        ) * energy_of_window(needle, 0, 0, needle.width, needle.height),
{
    let w = needle.width;
    let h = needle.height;
    let n = (w * h) as int;
    let sa = rect_sum(haystack, x, y, w, h, false) as int;
    let qa = rect_sum(haystack, x, y, w, h, true) as int;
    let sb = rect_sum(needle, 0, 0, w, h, false) as int;
    let qb = rect_sum(needle, 0, 0, w, h, true) as int;
    let m = rect_dot(haystack, x, y, needle, 0, 0, w, h) as int;
    let ea = n * qa - sa * sa;
    let eb = n * qb - sb * sb;
    let cv = n * m - sa * sb;
    lemma_sum_square(haystack, x, y, w, h);
    lemma_sum_square(needle, 0, 0, w, h);
    assert(ea == energy_of_window(haystack, x, y, w, h));
    assert(eb == energy_of_window(needle, 0, 0, w, h));
    assert(cv == covariance(haystack, x, y, needle));
    lemma_form_is_positive(haystack, x, y, needle, 0, 0, w, h, 1, 1);
    lemma_form_is_positive(haystack, x, y, needle, 0, 0, w, h, 1, -1);
    lemma_form_is_positive(haystack, x, y, needle, 0, 0, w, h, cv, ea);
    lemma_form_is_positive(haystack, x, y, needle, 0, 0, w, h, eb, cv);
    assert((1 * 1) * ea - 2 * ((1 * 1) * cv) + (1 * 1) * eb == ea - 2 * cv + eb)
        by (nonlinear_arith);
    assert((1 * 1) * ea - 2 * ((1 * (-1)) * cv) + ((-1) * (-1)) * eb == ea + 2 * cv + eb)
        by (nonlinear_arith);
    lemma_discriminant(ea, eb, cv);
}

/// Rows that hold the same pixels have the sum of their squares for the
/// sum of their products.
proof fn lemma_row_dot_of_equal_rows(
    a: Raster,
    ax: int,
    ay: int,
    b: Raster,
    bx: int,
    by: int,
    n: nat,
    j: int,
)
    requires
        forall|i: int| 0 <= i < n ==> #[trigger] same_pixel(a, ax, ay, b, bx, by, i, j),
    ensures
        row_dot(a, ax, ay + j, b, bx, by + j, n) == row_sum(b, bx, by + j, n, true),
    decreases n,
{
    if n > 0 {
        lemma_row_dot_of_equal_rows(a, ax, ay, b, bx, by, (n - 1) as nat, j);
        assert(same_pixel(a, ax, ay, b, bx, by, n - 1, j));
    }
}

/// Windows that hold the same pixels have the sum of their squares for the
/// sum of their products.
proof fn lemma_rect_dot_of_equal_windows(
    a: Raster,
    ax: int,
    ay: int,
    b: Raster,
    bx: int,
    by: int,
    w: nat,
    h: nat,
)
    requires
        forall|i: int, j: int|
            0 <= i < w && 0 <= j < h ==> #[trigger] same_pixel(a, ax, ay, b, bx, by, i, j),
    ensures
        rect_dot(a, ax, ay, b, bx, by, w, h) == rect_sum(b, bx, by, w, h, true),
    decreases h,
{
    if h > 0 {
        lemma_rect_dot_of_equal_windows(a, ax, ay, b, bx, by, w, (h - 1) as nat);
        assert forall|i: int| 0 <= i < w implies #[trigger] same_pixel(
            a,
            ax,
            ay,
            b,
            bx,
            by,
            i,
            h - 1,
        ) by {}
        lemma_row_dot_of_equal_rows(a, ax, ay, b, bx, by, w, h - 1);
        assert(ay + (h - 1) == ay + h - 1 && by + (h - 1) == by + h - 1);
    }
}

/// Where a window shows the template, wherever in the picture, their
/// covariance is the energy of the template, and so is the energy of the
/// window: the normalised score is 1, the most it can be, unless the
/// template is flat and has no score.
pub proof fn lemma_match_scores_one(haystack: Raster, x: int, y: int, needle: Raster)
    requires
        forall|i: int, j: int|
            0 <= i < needle.width && 0 <= j < needle.height ==> #[trigger] same_pixel(
                haystack,
                x,
                y,
                needle,
                0,
                0,
                i,
                j,
            ),
    ensures
        covariance(haystack, x, y, needle) == energy_of_window(
            needle,
            0,
            0,
            needle.width,
            needle.height,
        ),
        energy_of_window(haystack, x, y, needle.width, needle.height) == energy_of_window(
            needle,
            0,
            0,
            needle.width,
            needle.height,
        ),
        covariance(haystack, x, y, needle) >= 0,
{
    let w = needle.width;
    let h = needle.height;
    lemma_rect_sum_of_equal_windows(haystack, x, y, needle, 0, 0, w, h, false);
    lemma_rect_sum_of_equal_windows(haystack, x, y, needle, 0, 0, w, h, true);
    lemma_rect_dot_of_equal_windows(haystack, x, y, needle, 0, 0, w, h);
    lemma_sum_square(needle, 0, 0, w, h);
}

} // verus!
