//! What filling a triangle covers, beyond the bare list of its spans: every
//! pixel strictly inside the triangle, no pixel more than a column outside
//! it, and the same pixels whatever the order of the corners.

use vstd::prelude::*;
use crate::raster::{
    edge_x, halves_pixels, lemma_edge_x_bounds, lemma_round_div_bounds, lemma_sorted_by_y,
    on_screen, paint, pixel_index, round_div, rows_pixels, sorted_by_y, split_x, triangle_pixels,
    Point, Tri,
};

verus! {

/// Twice the signed area of the triangle `a`, `b`, `p`: positive where `p`
/// lies to the left of the line from `a` to `b`, negative to its right, and
/// zero on the line.
pub open spec fn orient(ax: int, ay: int, bx: int, by: int, px: int, py: int) -> int {
    (bx - ax) * (py - ay) - (by - ay) * (px - ax)
}

/// Whether the pixel `(x, y)` lies strictly inside `tri`: on the same side
/// of all three edges, and on none of them.
pub open spec fn strictly_inside(tri: Tri, x: int, y: int) -> bool {
    let o1 = orient(tri.p1.x as int, tri.p1.y as int, tri.p2.x as int, tri.p2.y as int, x, y);
    let o2 = orient(tri.p2.x as int, tri.p2.y as int, tri.p3.x as int, tri.p3.y as int, x, y);
    let o3 = orient(tri.p3.x as int, tri.p3.y as int, tri.p1.x as int, tri.p1.y as int, x, y);
    (o1 > 0 && o2 > 0 && o3 > 0) || (o1 < 0 && o2 < 0 && o3 < 0)
}

/// A quotient below `x` and a half rounds to at most `x`.
proof fn lemma_round_div_le(n: int, d: int, x: int)
    requires
        d > 0,
        2 * n + d < 2 * (d * x) + 2 * d,
    ensures
        round_div(n, d) <= x,
{
    let q = round_div(n, d);
    lemma_round_div_bounds(n, d);
    assert(q <= x) by (nonlinear_arith)
        requires
            d > 0,
            2 * (d * q) < 2 * (d * x) + 2 * d,
    ;
}

/// A quotient of at least `x` less a half rounds to at least `x`.
proof fn lemma_round_div_ge(n: int, d: int, x: int)
    requires
        d > 0,
        2 * n + d >= 2 * (d * x),
    ensures
        round_div(n, d) >= x,
{
    let q = round_div(n, d);
    lemma_round_div_bounds(n, d);
    assert(q >= x) by (nonlinear_arith)
        requires
            d > 0,
            2 * (d * x) < 2 * (d * q) + 2 * d,
    ;
}

/// An edge between two columns `c0` and `c1`, each within a half of the exact
/// crossings `r0 / hh` and `r1 / hh`, stays within a half of the exact edge
/// between those crossings, on every row in between.
proof fn lemma_rounded_edge_near(hh: int, h: int, i: int, c0: int, c1: int, r0: int, r1: int)
    requires
        hh > 0,
        h > 0,
        0 <= i <= h,
        2 * (hh * c0) <= 2 * r0 + hh < 2 * (hh * c0) + 2 * hh,
        2 * (hh * c1) <= 2 * r1 + hh < 2 * (hh * c1) + 2 * hh,
    ensures
        2 * (r0 * (h - i) + r1 * i) - hh * h < 2 * (hh * (c0 * (h - i) + c1 * i)) <= 2 * (r0 * (h
            - i) + r1 * i) + hh * h,
{
    let a = h - i;
    let u0 = 2 * (hh * c0);
    let u1 = 2 * (hh * c1);
    assert((2 * r0 - hh + 1) * a <= u0 * a <= (2 * r0 + hh) * a) by (nonlinear_arith)
        requires
            a >= 0,
            2 * r0 - hh + 1 <= u0 <= 2 * r0 + hh,
    ;
    assert((2 * r1 - hh + 1) * i <= u1 * i <= (2 * r1 + hh) * i) by (nonlinear_arith)
        requires
            i >= 0,
            2 * r1 - hh + 1 <= u1 <= 2 * r1 + hh,
    ;
    assert(u0 * a + u1 * i == 2 * (hh * (c0 * a + c1 * i))) by (nonlinear_arith)
        requires
            u0 == 2 * (hh * c0),
            u1 == 2 * (hh * c1),
    ;
    assert((2 * r0 - hh + 1) * a + (2 * r1 - hh + 1) * i == 2 * (r0 * a + r1 * i) - hh * h + h)
        by (nonlinear_arith)
        requires
            a + i == h,
    ;
    assert((2 * r0 + hh) * a + (2 * r1 + hh) * i == 2 * (r0 * a + r1 * i) + hh * h)
        by (nonlinear_arith)
        requires
            a + i == h,
    ;
}

/// A positive multiple of `t` has the sign of `t`.
proof fn lemma_sign_of_multiple(k: int, t: int)
    requires
        k > 0,
    ensures
        k * t > 0 <==> t > 0,
        k * t < 0 <==> t < 0,
        k * t == 0 <==> t == 0,
{
    assert(k * t > 0 <==> t > 0) by (nonlinear_arith)
        requires
            k > 0,
    ;
    assert(k * t < 0 <==> t < 0) by (nonlinear_arith)
        requires
            k > 0,
    ;
}

/// One row of one half of a triangle. The half spans `h` rows, the whole
/// triangle `hh`; the row is the `i`-th of the half. Its span runs between
/// two edges. The first joins two corners, in the columns `a0` and `a1`. The
/// second stands for the long edge of the triangle: it joins the columns
/// `c0` and `c1`, the nearest to where the long edge crosses the first and
/// the last row of the half, at `r0 / hh` and `r1 / hh`.
pub struct HalfRow {
    pub hh: int,
    pub h: int,
    pub i: int,
    pub a0: int,
    pub a1: int,
    pub c0: int,
    pub c1: int,
    pub r0: int,
    pub r1: int,
}

impl HalfRow {
    /// The column in which the first edge crosses the row.
    pub open spec fn first(self) -> int {
        edge_x(self.a0, self.a1, self.i, self.h)
    }

    /// The column in which the second edge crosses the row.
    pub open spec fn second(self) -> int {
        edge_x(self.c0, self.c1, self.i, self.h)
    }

    /// Whether the column `x` lies in the span of the row.
    pub open spec fn spans(self, x: int) -> bool {
        self.first() <= x <= self.second() || self.second() <= x <= self.first()
    }

    /// Whether the row is what it is said to be, for a column `x`: the ends
    /// of the second edge are the nearest columns to the long edge, `o_a` is
    /// the edge function of the first edge at `x`, and `o_l` that of the long
    /// edge.
    pub open spec fn fits(self, x: int, o_a: int, o_l: int) -> bool {
        &&& self.hh > 0
        &&& self.h > 0
        &&& 0 <= self.i <= self.h
        &&& 2 * (self.hh * self.c0) <= 2 * self.r0 + self.hh < 2 * (self.hh * self.c0) + 2 * self.hh
        &&& 2 * (self.hh * self.c1) <= 2 * self.r1 + self.hh < 2 * (self.hh * self.c1) + 2 * self.hh
        &&& o_a == self.h * x - (self.a0 * (self.h - self.i) + self.a1 * self.i)
        &&& self.h * o_l == (self.r0 * (self.h - self.i) + self.r1 * self.i) - self.hh * (self.h
            * x)
    }
}

/// A column strictly between the first edge and the long edge, as the signs
/// of the two edge functions say, lies in the span of the row.
proof fn lemma_row_covers(row: HalfRow, x: int, o_a: int, o_l: int)
    requires
        row.fits(x, o_a, o_l),
        (o_a > 0 && o_l > 0) || (o_a < 0 && o_l < 0),
    ensures
        row.spans(x),
{
    let (hh, h, i) = (row.hh, row.h, row.i);
    let (a0, a1, c0, c1, r0, r1) = (row.a0, row.a1, row.c0, row.c1, row.r0, row.r1);
    let n1 = a0 * (h - i) + a1 * i;
    let np = c0 * (h - i) + c1 * i;
    let r = r0 * (h - i) + r1 * i;
    let hx = h * x;
    lemma_rounded_edge_near(hh, h, i, c0, c1, r0, r1);
    lemma_sign_of_multiple(h, o_l);
    // hh * (2 np + h - 2 h x) stands between the two bounds
    let t = 2 * np + h - 2 * hx;
    assert(hh * t == 2 * (hh * np) + hh * h - 2 * (hh * hx)) by (nonlinear_arith)
        requires
            t == 2 * np + h - 2 * hx,
    ;
    lemma_sign_of_multiple(hh, t);
    let s = 2 * np - h - 2 * hx;
    assert(hh * s == 2 * (hh * np) - hh * h - 2 * (hh * hx)) by (nonlinear_arith)
        requires
            s == 2 * np - h - 2 * hx,
    ;
    lemma_sign_of_multiple(hh, s);
    if o_a > 0 {
        // n1 < h x, and r > hh h x
        lemma_round_div_le(n1, h, x);
        assert(t > 0);
        lemma_round_div_ge(np, h, x);
    } else {
        lemma_round_div_ge(n1, h, x);
        assert(s < 0);
        lemma_round_div_le(np, h, x);
    }
}

/// Walking an edge the other way round exchanges its two sides.
proof fn lemma_orient_swap(ax: int, ay: int, bx: int, by: int, px: int, py: int)
    ensures
        orient(bx, by, ax, ay, px, py) == -orient(ax, ay, bx, by, px, py),
{
    let u = bx - ax;
    let v = by - ay;
    let p = px - ax;
    let q = py - ay;
    assert((0 - u) * (q - v) == u * v - u * q) by (nonlinear_arith);
    assert((0 - v) * (p - u) == v * u - v * p) by (nonlinear_arith);
    assert(u * v == v * u) by (nonlinear_arith);
}

/// The edge function of the edge from column `x0` to column `x1`, `h` rows
/// higher, at the point in column `x`, `i` rows above the lower end.
proof fn lemma_orient_edge(x0: int, x1: int, h: int, i: int, x: int)
    ensures
        (x1 - x0) * i - h * (x - x0) == (x0 * (h - i) + x1 * i) - h * x,
{
    assert((x1 - x0) * i == x1 * i - x0 * i) by (nonlinear_arith);
    assert(h * (x - x0) == h * x - h * x0) by (nonlinear_arith);
    assert(x0 * (h - i) == x0 * h - x0 * i) by (nonlinear_arith);
    assert(h * x0 == x0 * h) by (nonlinear_arith);
}

/// The crossings of a straight edge with three rows: the middle one is the
/// weighted mean of the outer two.
proof fn lemma_edge_interpolates(p: int, q: int, hh: int, k0: int, h: int, i: int)
    ensures
        (p * (hh - k0) + q * k0) * (h - i) + (p * (hh - (k0 + h)) + q * (k0 + h)) * i == h * (p * (
        hh - (k0 + i)) + q * (k0 + i)),
{
    let s = q - p;
    let l0 = p * hh;
    // every crossing is l0 + s k
    assert(p * (hh - k0) + q * k0 == l0 + s * k0) by (nonlinear_arith)
        requires
            s == q - p,
            l0 == p * hh,
    ;
    assert(p * (hh - (k0 + h)) + q * (k0 + h) == l0 + s * (k0 + h)) by (nonlinear_arith)
        requires
            s == q - p,
            l0 == p * hh,
    ;
    assert(p * (hh - (k0 + i)) + q * (k0 + i) == l0 + s * (k0 + i)) by (nonlinear_arith)
        requires
            s == q - p,
            l0 == p * hh,
    ;
    let a0 = l0 + s * k0;
    let sh = s * h;
    let si = s * i;
    assert(s * (k0 + h) == s * k0 + sh) by (nonlinear_arith)
        requires
            sh == s * h,
    ;
    assert(s * (k0 + i) == s * k0 + si) by (nonlinear_arith)
        requires
            si == s * i,
    ;
    assert(a0 * (h - i) + (a0 + sh) * i == a0 * h + sh * i) by (nonlinear_arith);
    assert(h * (a0 + si) == a0 * h + h * si) by (nonlinear_arith);
    assert(sh * i == h * si) by (nonlinear_arith)
        requires
            sh == s * h,
            si == s * i,
    ;
}

/// Turning the plane upside down exchanges the two sides of every edge.
proof fn lemma_orient_reflect(ax: int, ay: int, bx: int, by: int, px: int, py: int)
    ensures
        orient(ax, -ay, bx, -by, px, -py) == -orient(ax, ay, bx, by, px, py),
{
    let u = bx - ax;
    let v = by - ay;
    let p = px - ax;
    let q = py - ay;
    assert(u * (0 - q) == -(u * q)) by (nonlinear_arith);
    assert((0 - v) * p == -(v * p)) by (nonlinear_arith);
}

/// The three edge functions of a triangle with a corner at the origin sum to
/// twice its signed area.
proof fn lemma_area_sum(a: int, b: int, c: int, d: int, xx: int, yy: int)
    ensures
        (a * yy - b * xx) + ((c - a) * (yy - b) - (d - b) * (xx - a)) + (d * xx - c * yy) == a * d
            - b * c,
{
    assert((c - a) * (yy - b) == c * yy - c * b - a * yy + a * b) by (nonlinear_arith);
    assert((d - b) * (xx - a) == d * xx - d * a - b * xx + b * a) by (nonlinear_arith);
    assert(a * b == b * a) by (nonlinear_arith);
    assert(c * b == b * c) by (nonlinear_arith);
    assert(d * a == a * d) by (nonlinear_arith);
}

/// A triangle with one corner at the origin and the others, `(a, b)` and
/// `(c, d)`, not above it: a point `(xx, yy)` strictly between the two edges
/// that meet at the origin lies below the origin. `o1` and `o3` are the edge
/// functions of those two edges, `area` twice the signed area.
proof fn lemma_below_apex(
    a: int,
    b: int,
    c: int,
    d: int,
    xx: int,
    yy: int,
    o1: int,
    o3: int,
    area: int,
)
    requires
        b <= 0,
        d <= 0,
        o1 == a * yy - b * xx,
        o3 == d * xx - c * yy,
        area == a * d - b * c,
        (o1 > 0 && o3 > 0 && area > 0) || (o1 < 0 && o3 < 0 && area < 0),
    ensures
        yy < 0,
{
    let ay = a * yy;
    let bx = b * xx;
    let dx = d * xx;
    let cy = c * yy;
    assert(d * o1 == d * ay - d * bx) by (nonlinear_arith)
        requires
            o1 == ay - bx,
    ;
    assert(b * o3 == b * dx - b * cy) by (nonlinear_arith)
        requires
            o3 == dx - cy,
    ;
    assert(area * yy == (a * d) * yy - (b * c) * yy) by (nonlinear_arith)
        requires
            area == a * d - b * c,
    ;
    assert(d * ay == (a * d) * yy) by (nonlinear_arith)
        requires
            ay == a * yy,
    ;
    assert(d * bx == b * dx) by (nonlinear_arith)
        requires
            bx == b * xx,
            dx == d * xx,
    ;
    assert(b * cy == (b * c) * yy) by (nonlinear_arith)
        requires
            cy == c * yy,
    ;
    assert(area * yy == d * o1 + b * o3);
    if d == 0 && b == 0 {
        assert(a * d - b * c == 0) by (nonlinear_arith)
            requires
                d == 0,
                b == 0,
        ;
    }
    let p = d * o1;
    let q = b * o3;
    if o1 > 0 {
        assert(p <= 0 && q <= 0 && (d < 0 ==> p < 0) && (b < 0 ==> q < 0)) by (nonlinear_arith)
            requires
                p == d * o1,
                q == b * o3,
                d <= 0,
                b <= 0,
                o1 > 0,
                o3 > 0,
        ;
        assert(yy < 0) by (nonlinear_arith)
            requires
                area > 0,
                area * yy < 0,
        ;
    } else {
        assert(p >= 0 && q >= 0 && (d < 0 ==> p > 0) && (b < 0 ==> q > 0)) by (nonlinear_arith)
            requires
                p == d * o1,
                q == b * o3,
                d <= 0,
                b <= 0,
                o1 < 0,
                o3 < 0,
        ;
        assert(yy < 0) by (nonlinear_arith)
            requires
                area < 0,
                area * yy > 0,
        ;
    }
}

/// A point strictly inside a triangle lies strictly below the row of a
/// corner that no other corner is above.
proof fn lemma_inside_below_top(
    tx: int,
    ty: int,
    mx: int,
    my: int,
    bx: int,
    by: int,
    x: int,
    y: int,
)
    requires
        ty >= my,
        ty >= by,
        ({
            let o1 = orient(tx, ty, mx, my, x, y);
            let o2 = orient(mx, my, bx, by, x, y);
            let o3 = orient(bx, by, tx, ty, x, y);
            (o1 > 0 && o2 > 0 && o3 > 0) || (o1 < 0 && o2 < 0 && o3 < 0)
        }),
    ensures
        y < ty,
{
    let o1 = orient(tx, ty, mx, my, x, y);
    let o3 = orient(bx, by, tx, ty, x, y);
    lemma_orient_swap(bx, by, tx, ty, x, y);
    lemma_area_sum(mx - tx, my - ty, bx - tx, by - ty, x - tx, y - ty);
    let area = (mx - tx) * (by - ty) - (my - ty) * (bx - tx);
    lemma_below_apex(mx - tx, my - ty, bx - tx, by - ty, x - tx, y - ty, o1, o3, area);
}

/// A point strictly inside a triangle lies strictly between the rows of its
/// highest and its lowest corner.
proof fn lemma_inside_rows(
    tx: int,
    ty: int,
    mx: int,
    my: int,
    bx: int,
    by: int,
    x: int,
    y: int,
)
    requires
        ty >= my >= by,
        ({
            let o1 = orient(tx, ty, mx, my, x, y);
            let o2 = orient(mx, my, bx, by, x, y);
            let o3 = orient(bx, by, tx, ty, x, y);
            (o1 > 0 && o2 > 0 && o3 > 0) || (o1 < 0 && o2 < 0 && o3 < 0)
        }),
    ensures
        by < y < ty,
{
    lemma_inside_below_top(tx, ty, mx, my, bx, by, x, y);
    // Upside down, the lowest corner is the highest.
    lemma_orient_reflect(bx, by, tx, ty, x, y);
    lemma_orient_reflect(tx, ty, mx, my, x, y);
    lemma_orient_reflect(mx, my, bx, by, x, y);
    lemma_inside_below_top(bx, -by, tx, -ty, mx, -my, x, -y);
}

/// The row `y` of a triangle whose corners are given from the top down, as
/// a row of the half that it belongs to: of the upper half from the row of
/// `mid` on, of the lower half below it.
pub open spec fn row_of_half(top: Point, mid: Point, bottom: Point, y: int) -> HalfRow {
    let hh = top.y - bottom.y;
    let j = mid.y - bottom.y;
    let n4 = bottom.x * (hh - j) + top.x * j;
    let q4 = split_x(top, mid, bottom);
    if y >= mid.y {
        HalfRow {
            hh,
            h: top.y - mid.y,
            i: y - mid.y,
            a0: mid.x as int,
            a1: top.x as int,
            c0: q4,
            c1: top.x as int,
            r0: n4,
            r1: top.x * hh,
        }
    } else {
        HalfRow {
            hh,
            h: mid.y - bottom.y,
            i: y - bottom.y,
            a0: bottom.x as int,
            a1: mid.x as int,
            c0: bottom.x as int,
            c1: q4,
            r0: bottom.x * hh,
            r1: n4,
        }
    }
}

/// The edge function, at `(x, y)`, of the short edge of the half that the
/// row `y` belongs to: the edge from `top` to `mid` in the upper half, from
/// `mid` to `bottom` in the lower.
pub open spec fn short_side(top: Point, mid: Point, bottom: Point, x: int, y: int) -> int {
    if y >= mid.y {
        orient(top.x as int, top.y as int, mid.x as int, mid.y as int, x, y)
    } else {
        orient(mid.x as int, mid.y as int, bottom.x as int, bottom.y as int, x, y)
    }
}

/// The edge function, at `(x, y)`, of the long edge, from `bottom` to `top`.
pub open spec fn long_side(top: Point, bottom: Point, x: int, y: int) -> int {
    orient(bottom.x as int, bottom.y as int, top.x as int, top.y as int, x, y)
}

/// On a row between the bottom and the top corner, what is filled is the
/// span of `row_of_half`, as far as it is on the screen; and that row is
/// what `HalfRow::fits` asks for.
proof fn lemma_row_of_half(top: Point, mid: Point, bottom: Point, x: int, y: int)
    requires
        top.y >= mid.y >= bottom.y,
        bottom.y <= y < top.y,
    ensures
        row_of_half(top, mid, bottom, y).fits(
            x,
            short_side(top, mid, bottom, x, y),
            long_side(top, bottom, x, y),
        ),
        halves_pixels(top, mid, bottom).contains((x, y)) <==> on_screen(x, y) && row_of_half(
            top,
            mid,
            bottom,
            y,
        ).spans(x),
{
    let (tx, ty) = (top.x as int, top.y as int);
    let (mx, my) = (mid.x as int, mid.y as int);
    let (bx, by) = (bottom.x as int, bottom.y as int);
    let row = row_of_half(top, mid, bottom, y);
    let (h, i) = (row.h, row.i);
    let o_bt = long_side(top, bottom, x, y);

    // The long edge crosses the row of the middle corner at n4 / hh, and the
    // split point lies in the column nearest to that.
    let hh = ty - by;
    let j = my - by;
    let n4 = bx * (hh - j) + tx * j;
    let q4 = split_x(top, mid, bottom);
    lemma_edge_x_bounds(bx, tx, j, hh);
    assert(q4 == round_div(n4, hh));
    lemma_round_div_bounds(n4, hh);
    assert(hh * tx == tx * hh) by (nonlinear_arith);
    assert(hh * bx == bx * hh) by (nonlinear_arith);
    assert(bx * (hh - 0) + tx * 0 == bx * hh) by (nonlinear_arith);
    assert(bx * (hh - hh) + tx * hh == tx * hh) by (nonlinear_arith);
    lemma_orient_edge(bx, tx, hh, y - by, x);
    let n2 = bx * (hh - (y - by)) + tx * (y - by);
    assert(o_bt == n2 - hh * x);
    assert(h * o_bt == h * n2 - hh * (h * x)) by (nonlinear_arith)
        requires
            o_bt == n2 - hh * x,
    ;
    if y >= my {
        lemma_orient_swap(mx, my, tx, ty, x, y);
        lemma_orient_edge(mx, tx, h, i, x);
        lemma_edge_interpolates(bx, tx, hh, j, h, i);
        assert(h * n2 == n4 * (h - i) + (tx * hh) * i);
    } else {
        lemma_orient_swap(bx, by, mx, my, x, y);
        lemma_orient_edge(bx, mx, h, i, x);
        lemma_edge_interpolates(bx, tx, hh, 0, h, i);
        assert(h * n2 == (bx * hh) * (h - i) + n4 * i);
    }
}

/// Filling a triangle covers every pixel of the screen that lies strictly
/// inside it, wherever the corners of the triangle are.
pub proof fn lemma_fill_covers_interior(tri: Tri, x: int, y: int)
    requires
        on_screen(x, y),
        strictly_inside(tri, x, y),
    ensures
        triangle_pixels(tri).contains((x, y)),
{
    let s = sorted_by_y(tri.p1, tri.p2, tri.p3);
    let (tx, ty) = (s.0.x as int, s.0.y as int);
    let (mx, my) = (s.1.x as int, s.1.y as int);
    let (bx, by) = (s.2.x as int, s.2.y as int);
    lemma_sorted_by_y(tri.p1, tri.p2, tri.p3);
    let o_tm = orient(tx, ty, mx, my, x, y);
    let o_mb = orient(mx, my, bx, by, x, y);
    let o_bt = orient(bx, by, tx, ty, x, y);
    assert((o_tm > 0 && o_mb > 0 && o_bt > 0) || (o_tm < 0 && o_mb < 0 && o_bt < 0)) by {
        let (x1, y1) = (tri.p1.x as int, tri.p1.y as int);
        let (x2, y2) = (tri.p2.x as int, tri.p2.y as int);
        let (x3, y3) = (tri.p3.x as int, tri.p3.y as int);
        lemma_orient_swap(x1, y1, x2, y2, x, y);
        lemma_orient_swap(x2, y2, x3, y3, x, y);
        lemma_orient_swap(x3, y3, x1, y1, x, y);
    }
    lemma_inside_rows(tx, ty, mx, my, bx, by, x, y);
    lemma_row_of_half(s.0, s.1, s.2, x, y);
    lemma_row_covers(
        row_of_half(s.0, s.1, s.2, y),
        x,
        short_side(s.0, s.1, s.2, x, y),
        long_side(s.0, s.2, x, y),
    );
}

/// After a triangle has been filled, every pixel of the screen strictly
/// inside it that the buffer holds shows the fill colour.
pub proof fn lemma_fill_paints_interior(buf: Seq<u32>, tri: Tri, colour: u32, x: int, y: int)
    requires
        on_screen(x, y),
        strictly_inside(tri, x, y),
        pixel_index(x, y) < buf.len(),
    ensures
        paint(buf, triangle_pixels(tri), colour)[pixel_index(x, y)] == colour,
{
    lemma_fill_covers_interior(tri, x, y);
}

/// Filling a triangle covers no pixel outside the columns and rows that its
/// corners span.
pub proof fn lemma_fill_within_corners(tri: Tri, x: int, y: int)
    requires
        triangle_pixels(tri).contains((x, y)),
    ensures
        ({
            let s = sorted_by_y(tri.p1, tri.p2, tri.p3);
            &&& s.2.y <= y < s.0.y
            &&& tri.p1.x <= x || tri.p2.x <= x || tri.p3.x <= x
            &&& x <= tri.p1.x || x <= tri.p2.x || x <= tri.p3.x
        }),
{
    let s = sorted_by_y(tri.p1, tri.p2, tri.p3);
    let (tx, ty) = (s.0.x as int, s.0.y as int);
    let (mx, my) = (s.1.x as int, s.1.y as int);
    let (bx, by) = (s.2.x as int, s.2.y as int);
    lemma_sorted_by_y(tri.p1, tri.p2, tri.p3);
    let q4 = split_x(s.0, s.1, s.2);
    assert(ty > by);
    lemma_edge_x_bounds(bx, tx, my - by, ty - by);
    if rows_pixels(my, ty, mx, tx, q4, tx).contains((x, y)) {
        lemma_edge_x_bounds(mx, tx, y - my, ty - my);
        lemma_edge_x_bounds(q4, tx, y - my, ty - my);
    } else {
        assert(rows_pixels(by, my, bx, mx, bx, q4).contains((x, y)));
        lemma_edge_x_bounds(bx, mx, y - by, my - by);
        lemma_edge_x_bounds(bx, q4, y - by, my - by);
    }
}

/// Two corners on the same row can change places without changing what is
/// filled.
proof fn lemma_halves_of_level_corners(top: Point, mid: Point, bottom: Point)
    requires
        top.y >= mid.y >= bottom.y,
    ensures
        top.y == mid.y ==> halves_pixels(top, mid, bottom) == halves_pixels(mid, top, bottom),
        mid.y == bottom.y ==> halves_pixels(top, mid, bottom) == halves_pixels(top, bottom, mid),
{
    if top.y > bottom.y {
        let hh = top.y - bottom.y;
        if top.y == mid.y {
            // Both split points are the upper corner that is not the middle one.
            lemma_edge_x_bounds(bottom.x as int, top.x as int, hh, hh);
            lemma_edge_x_bounds(bottom.x as int, mid.x as int, hh, hh);
            assert(split_x(top, mid, bottom) == top.x);
            assert(split_x(mid, top, bottom) == mid.x);
            assert(halves_pixels(top, mid, bottom) =~= halves_pixels(mid, top, bottom));
        }
        if mid.y == bottom.y {
            // Both split points are the lower corner that is not the middle one.
            lemma_edge_x_bounds(bottom.x as int, top.x as int, 0, hh);
            lemma_edge_x_bounds(mid.x as int, top.x as int, 0, hh);
            assert(split_x(top, mid, bottom) == bottom.x);
            assert(split_x(top, bottom, mid) == mid.x);
            assert(halves_pixels(top, mid, bottom) =~= halves_pixels(top, bottom, mid));
        }
    } else {
        assert(halves_pixels(top, mid, bottom) =~= Set::<(int, int)>::empty());
        assert(halves_pixels(mid, top, bottom) =~= Set::<(int, int)>::empty());
        assert(halves_pixels(top, bottom, mid) =~= Set::<(int, int)>::empty());
    }
}

/// What is filled depends on the three corners only, not on the order in
/// which the triangle names them.
pub proof fn lemma_fill_ignores_corner_order(a: Point, b: Point, c: Point)
    ensures
        triangle_pixels(Tri { p1: a, p2: b, p3: c }) == triangle_pixels(Tri { p1: b, p2: a, p3: c }),
        triangle_pixels(Tri { p1: a, p2: b, p3: c }) == triangle_pixels(Tri { p1: a, p2: c, p3: b }),
{
    let s = sorted_by_y(a, b, c);
    lemma_sorted_by_y(a, b, c);
    assert(triangle_pixels(Tri { p1: a, p2: b, p3: c }) == halves_pixels(s.0, s.1, s.2));
    lemma_halves_of_level_corners(s.0, s.1, s.2);
    let u = sorted_by_y(b, a, c);
    assert(triangle_pixels(Tri { p1: b, p2: a, p3: c }) == halves_pixels(u.0, u.1, u.2));
    let v = sorted_by_y(a, c, b);
    assert(triangle_pixels(Tri { p1: a, p2: c, p3: b }) == halves_pixels(v.0, v.1, v.2));
    if s.0.y == s.2.y {
        assert(halves_pixels(s.0, s.1, s.2) =~= Set::<(int, int)>::empty());
        assert(halves_pixels(u.0, u.1, u.2) =~= Set::<(int, int)>::empty());
        assert(halves_pixels(v.0, v.1, v.2) =~= Set::<(int, int)>::empty());
    }
}

/// The converse of `lemma_row_covers`: a column in the span of a row lies no
/// more than half a column outside the first edge and no more than one
/// column outside the long edge.
proof fn lemma_row_stays_near(row: HalfRow, x: int, o_a: int, o_l: int)
    requires
        row.fits(x, o_a, o_l),
        row.spans(x),
    ensures
        (-row.h <= 2 * o_a && -row.hh <= o_l) || (2 * o_a <= row.h && o_l <= row.hh),
{
    let (hh, h, i) = (row.hh, row.h, row.i);
    let (a0, a1, c0, c1, r0, r1) = (row.a0, row.a1, row.c0, row.c1, row.r0, row.r1);
    let n1 = a0 * (h - i) + a1 * i;
    let np = c0 * (h - i) + c1 * i;
    let r = r0 * (h - i) + r1 * i;
    let hx = h * x;
    let e1 = edge_x(a0, a1, i, h);
    let e2 = edge_x(c0, c1, i, h);
    lemma_rounded_edge_near(hh, h, i, c0, c1, r0, r1);
    lemma_round_div_bounds(n1, h);
    lemma_round_div_bounds(np, h);
    // hh (2 np + h - 2 h x) and hh (2 np - h - 2 h x), as in `lemma_row_covers`
    let t = 2 * np + h - 2 * hx;
    assert(hh * t == 2 * (hh * np) + hh * h - 2 * (hh * hx)) by (nonlinear_arith)
        requires
            t == 2 * np + h - 2 * hx,
    ;
    let s = 2 * np - h - 2 * hx;
    assert(hh * s == 2 * (hh * np) - hh * h - 2 * (hh * hx)) by (nonlinear_arith)
        requires
            s == 2 * np - h - 2 * hx,
    ;
    assert(h * (o_l + hh) == h * o_l + hh * h) by (nonlinear_arith);
    assert(h * (o_l - hh) == h * o_l - hh * h) by (nonlinear_arith);
    lemma_sign_of_multiple(h, o_l + hh);
    lemma_sign_of_multiple(h, o_l - hh);
    if e1 <= x <= e2 {
        assert(h * e1 <= hx <= h * e2) by (nonlinear_arith)
            requires
                h > 0,
                e1 <= x <= e2,
                hx == h * x,
        ;
        assert(t >= 0);
        assert(hh * t >= 0) by (nonlinear_arith)
            requires
                hh > 0,
                t >= 0,
        ;
    } else {
        assert(h * e2 <= hx <= h * e1) by (nonlinear_arith)
            requires
                h > 0,
                e2 <= x <= e1,
                hx == h * x,
        ;
        assert(s < 0);
        assert(hh * s < 0) by (nonlinear_arith)
            requires
                hh > 0,
                s < 0,
        ;
    }
}

/// Filling a triangle covers no pixel far outside it. With the corners
/// sorted into top, middle and bottom, a filled pixel is on the screen, on a
/// row from the bottom corner up to, not including, the top corner; it lies
/// no more than half a column outside the short edge of its half, and no
/// more than one column outside the long edge. Edge functions measure the
/// distances: the edge function of an edge that climbs `h` rows is `h` times
/// the distance in columns.
pub proof fn lemma_fill_stays_near(tri: Tri, x: int, y: int)
    requires
        triangle_pixels(tri).contains((x, y)),
    ensures
        on_screen(x, y),
        ({
            let s = sorted_by_y(tri.p1, tri.p2, tri.p3);
            let row = row_of_half(s.0, s.1, s.2, y);
            let short = short_side(s.0, s.1, s.2, x, y);
            let long = long_side(s.0, s.2, x, y);
            &&& s.2.y <= y < s.0.y
            &&& (-row.h <= 2 * short && -row.hh <= long) || (2 * short <= row.h && long <= row.hh)
        }),
{
    let s = sorted_by_y(tri.p1, tri.p2, tri.p3);
    lemma_sorted_by_y(tri.p1, tri.p2, tri.p3);
    assert(s.2.y <= y < s.0.y);
    lemma_row_of_half(s.0, s.1, s.2, x, y);
    lemma_row_stays_near(
        row_of_half(s.0, s.1, s.2, y),
        x,
        short_side(s.0, s.1, s.2, x, y),
        long_side(s.0, s.2, x, y),
    );
}

} // verus!
