//! Pixel addressing and the line, span and triangle rasterisers.
//!
//! The frame buffer is a flat `Vec<u32>` of packed colours. Logical row 0 is
//! the bottom of the screen, so the pixel `(x, y)` lives at index
//! `(HEIGHT - y - 1) * WIDTH + x`. Every drawing routine is described by the
//! set of pixels it covers; `paint` says what covering a set does to a buffer.

use vstd::prelude::*;
use crate::{HEIGHT, WIDTH, NUM_PIXELS};

verus! {

/// A point of the screen, in pixels. Row 0 is the bottom row.
#[derive(Debug, Clone, Copy, PartialEq, Eq, Structural)]
pub struct Point {
    pub x: u32,
    pub y: u32,
}

/// A triangle of the screen, given by its three corners.
#[derive(Debug, Clone, Copy)]
pub struct Tri {
    pub p1: Point,
    pub p2: Point,
    pub p3: Point,
}

/// Buffer index of the pixel `(x, y)`.
pub open spec fn pixel_index(x: int, y: int) -> int {
    (HEIGHT as int - y - 1) * (WIDTH as int) + x
}

/// The pixel that the buffer index `i` shows, the inverse of `pixel_index`.
pub open spec fn pixel_at(i: int) -> (int, int) {
    (i % (WIDTH as int), HEIGHT as int - 1 - i / (WIDTH as int))
}

/// Whether `(x, y)` lies on the screen.
pub open spec fn on_screen(x: int, y: int) -> bool {
    0 <= x < WIDTH && 0 <= y < HEIGHT
}

/// The buffer `buf` after every on-screen pixel of `pixels` that the buffer
/// holds has been set to `colour`. Pixels off the screen, and indices past
/// the end of the buffer, are skipped.
pub open spec fn paint(buf: Seq<u32>, pixels: Set<(int, int)>, colour: u32) -> Seq<u32> {
    Seq::new(
        buf.len(),
        |i: int|
            if i < NUM_PIXELS && pixels.contains(pixel_at(i)) {
                colour
            } else {
                buf[i]
            },
    )
}

/// `pixel_at` inverts `pixel_index` on the screen, and every index below
/// `NUM_PIXELS` shows an on-screen pixel.
pub proof fn lemma_pixel_index_inverse(x: int, y: int)
    requires
        on_screen(x, y),
    ensures
        0 <= pixel_index(x, y) < NUM_PIXELS,
        pixel_at(pixel_index(x, y)) == (x, y),
{
}

/// Every index below `NUM_PIXELS` shows exactly one on-screen pixel.
pub proof fn lemma_pixel_at_inverse(i: int)
    requires
        0 <= i < NUM_PIXELS,
    ensures
        on_screen(pixel_at(i).0, pixel_at(i).1),
        pixel_index(pixel_at(i).0, pixel_at(i).1) == i,
{
}

/// Painting two sets of pixels in the same colour, one after the other, is
/// painting their union.
pub proof fn lemma_paint_union(buf: Seq<u32>, s: Set<(int, int)>, t: Set<(int, int)>, colour: u32)
    ensures
        paint(paint(buf, s, colour), t, colour) == paint(buf, s.union(t), colour),
{
}

/// Painting no pixel leaves the buffer as it was.
pub proof fn lemma_paint_empty(buf: Seq<u32>, colour: u32)
    ensures
        paint(buf, Set::empty(), colour) == buf,
{
}

/// Maps the pixel `(x, y)` to its index in the frame buffer.
pub fn two_d_to_1d(x: i32, y: i32) -> (index: usize)
    requires
        0 <= x,
        0 <= y < HEIGHT,
    ensures
        index == pixel_index(x as int, y as int),
{
    (HEIGHT - (y as usize) - 1) * WIDTH + (x as usize)
}

/// Whether a span lies on the screen as a whole: `y` is a row of the screen
/// and both ends, `from` and `to`, are columns of it.
pub open spec fn span_in_bounds(from: int, to: int, y: int) -> bool {
    y < HEIGHT && from < WIDTH && to < WIDTH
}

/// The pixels of the horizontal span between `x1` and `x2`, both included, on
/// row `y`: those of its pixels that are on the screen. What lies beyond an
/// edge of the screen is left out pixel by pixel, whatever the rest does.
pub open spec fn span_pixels(x1: int, x2: int, y: int) -> Set<(int, int)> {
    Set::new(
        |p: (int, int)| p.1 == y && on_screen(p.0, p.1) && (x1 <= p.0 <= x2 || x2 <= p.0 <= x1),
    )
}

/// Tells whether a span lies on the screen as a whole: `y` is a row of the
/// screen and both ends are columns of it.
pub fn check_bounds(from: u32, to: u32, y: u32) -> (ok: bool)
    ensures
        ok == span_in_bounds(from as int, to as int, y as int),
{
    (y as usize) < HEIGHT && (from as usize) < WIDTH && (to as usize) < WIDTH
}

/// Fills the horizontal span between `x1` and `x2`, both included, on row `y`.
/// Every pixel of the span is guarded on its own: one beyond an edge of the
/// screen, or at an index past the end of the buffer, is skipped, and the
/// others are drawn.
pub fn draw_horiz_line(buffer: &mut Vec<u32>, x1: u32, x2: u32, y: u32, colour: u32)
    ensures
        final(buffer)@ == paint(old(buffer)@, span_pixels(x1 as int, x2 as int, y as int), colour),
{
    let lo: u32 = if x1 > x2 { x2 } else { x1 };
    let hi: u32 = if x1 > x2 { x1 } else { x2 };
    // Cut at the right edge of the screen, the span ends in column `last`;
    // what is left of it is on the screen as a whole, or nothing is.
    let last: u32 = if (hi as usize) < WIDTH { hi } else { (WIDTH - 1) as u32 };
    if check_bounds(lo, last, y) {
        let y_offset: usize = (HEIGHT - (y as usize) - 1) * WIDTH;
        let mut i: usize = lo as usize;
        while i <= last as usize
            invariant
                lo <= i <= last + 1,
                last < WIDTH,
                y < HEIGHT,
                y_offset == pixel_index(0, y as int),
                buffer@ == paint(
                    old(buffer)@,
                    Set::new(|p: (int, int)| p.1 == y && lo <= p.0 < i),
                    colour,
                ),
            decreases last + 1 - i,
        {
            let index: usize = y_offset + i;
            if index < buffer.len() {
                buffer.set(index, colour);
            }
            i += 1;
        }
    }
    assert(buffer@ == paint(old(buffer)@, span_pixels(x1 as int, x2 as int, y as int), colour));
}

/// Distance between two coordinates.
pub open spec fn abs_diff(a: int, b: int) -> int {
    if a >= b {
        a - b
    } else {
        b - a
    }
}

/// The coordinate `k` steps away from `from` in the direction of `to`.
pub open spec fn advance(from: int, to: int, k: int) -> int {
    if to > from {
        from + k
    } else {
        from - k
    }
}

/// The quotient `n / d` rounded to the nearest integer, a half rounded up.
pub open spec fn round_div(n: int, d: int) -> int {
    if d <= 0 {
        0
    } else {
        (2 * n + d) / (2 * d)
    }
}

/// Number of steps of the line from `(x1, y1)` to `(x2, y2)`: the longer of
/// its two extents. The line has one pixel more than it has steps.
pub open spec fn line_steps(x1: int, y1: int, x2: int, y2: int) -> int {
    if abs_diff(x2, x1) >= abs_diff(y2, y1) {
        abs_diff(x2, x1)
    } else {
        abs_diff(y2, y1)
    }
}

/// The pixel of the line from `(x1, y1)` to `(x2, y2)` after `k` steps. The
/// line advances one pixel per step along its longer extent; along the
/// shorter one it follows the ideal line, rounded to the nearest pixel.
pub open spec fn line_point(x1: int, y1: int, x2: int, y2: int, k: int) -> (int, int) {
    let dx = abs_diff(x2, x1);
    let dy = abs_diff(y2, y1);
    if dx >= dy {
        (advance(x1, x2, k), advance(y1, y2, round_div(dy * k, dx)))
    } else {
        (advance(x1, x2, round_div(dx * k, dy)), advance(y1, y2, k))
    }
}

/// The first `m` pixels of the line from `(x1, y1)` to `(x2, y2)`.
pub open spec fn line_prefix(x1: int, y1: int, x2: int, y2: int, m: int) -> Set<(int, int)> {
    Set::new(|p: (int, int)| exists|k: int| 0 <= k < m && #[trigger] line_point(x1, y1, x2, y2, k) == p)
}

/// All pixels of the line from `(x1, y1)` to `(x2, y2)`, both ends included.
pub open spec fn line_pixels(x1: int, y1: int, x2: int, y2: int) -> Set<(int, int)> {
    line_prefix(x1, y1, x2, y2, line_steps(x1, y1, x2, y2) + 1)
}

/// `q` is `round_div(n, d)` as soon as `n / d` lies within a half of it.
proof fn lemma_round_div_unique(n: int, d: int, q: int)
    requires
        d > 0,
        2 * (d * q) <= 2 * n + d < 2 * (d * q) + 2 * d,
    ensures
        round_div(n, d) == q,
{
    let r = 2 * n + d - 2 * (d * q);
    assert(q * (2 * d) == 2 * (d * q)) by (nonlinear_arith);
    vstd::arithmetic::div_mod::lemma_fundamental_div_mod_converse(2 * n + d, 2 * d, q, r);
}

/// Where the error accumulator stands after `a` steps along x and `b` steps
/// along y, the pixel reached is the `k`-th of the line, and it is the last
/// one exactly when both ends agree.
proof fn lemma_line_at(x1: int, y1: int, x2: int, y2: int, k: int, a: int, b: int, err: int)
    requires
        0 <= k <= line_steps(x1, y1, x2, y2),
        0 <= a <= k,
        0 <= b <= k,
        err == abs_diff(x2, x1) * (b + 1) - abs_diff(y2, y1) * (a + 1),
        abs_diff(x2, x1) >= abs_diff(y2, y1) ==> a == k,
        abs_diff(x2, x1) >= abs_diff(y2, y1) && abs_diff(x2, x1) > 0 ==> abs_diff(x2, x1) - 2
            * abs_diff(y2, y1) < 2 * err <= 3 * abs_diff(x2, x1) - 2 * abs_diff(y2, y1),
        abs_diff(x2, x1) < abs_diff(y2, y1) ==> b == k && 2 * abs_diff(x2, x1) - 3 * abs_diff(
            y2,
            y1,
        ) <= 2 * err < 2 * abs_diff(x2, x1) - abs_diff(y2, y1),
    ensures
        line_point(x1, y1, x2, y2, k) == (advance(x1, x2, a), advance(y1, y2, b)),
        k == line_steps(x1, y1, x2, y2) <==> advance(x1, x2, a) == x2 && advance(y1, y2, b) == y2,
{
    let dx = abs_diff(x2, x1);
    let dy = abs_diff(y2, y1);
    assert(dx * (b + 1) == dx * b + dx) by (nonlinear_arith);
    assert(dy * (a + 1) == dy * a + dy) by (nonlinear_arith);
    if dx >= dy {
        if dx > 0 {
            lemma_round_div_unique(dy * k, dx, b);
            if k == dx {
                // 2 dx b <= 2 dy dx + dx < 2 dx (b + 1) pins b to dy
                assert(b == dy) by (nonlinear_arith)
                    requires
                        dx > 0,
                        2 * (dx * b) <= 2 * (dy * dx) + dx < 2 * (dx * b) + 2 * dx,
                ;
            }
        }
    } else {
        lemma_round_div_unique(dx * k, dy, a);
        if k == dy {
            assert(a == dx) by (nonlinear_arith)
                requires
                    dy > 0,
                    2 * (dy * a) <= 2 * (dx * dy) + dy < 2 * (dy * a) + 2 * dy,
            ;
        }
    }
}

/// A rounded quotient lies within a half of the exact one.
pub proof fn lemma_round_div_bounds(n: int, d: int)
    requires
        d > 0,
    ensures
        2 * (d * round_div(n, d)) <= 2 * n + d < 2 * (d * round_div(n, d)) + 2 * d,
{
    let q = round_div(n, d);
    vstd::arithmetic::div_mod::lemma_fundamental_div_mod(2 * n + d, 2 * d);
    vstd::arithmetic::div_mod::lemma_mod_bound(2 * n + d, 2 * d);
    assert((2 * d) * q == 2 * (d * q)) by (nonlinear_arith);
}

/// A line starts on its first end and stops on its second.
pub proof fn lemma_line_ends(x1: int, y1: int, x2: int, y2: int)
    ensures
        line_point(x1, y1, x2, y2, 0) == (x1, y1),
        line_point(x1, y1, x2, y2, line_steps(x1, y1, x2, y2)) == (x2, y2),
        line_pixels(x1, y1, x2, y2).contains((x1, y1)),
        line_pixels(x1, y1, x2, y2).contains((x2, y2)),
{
    let dx = abs_diff(x2, x1);
    let dy = abs_diff(y2, y1);
    let n = line_steps(x1, y1, x2, y2);
    assert(dx * 0 == 0) by (nonlinear_arith);
    assert(dy * 0 == 0) by (nonlinear_arith);
    if dx >= dy {
        if dx > 0 {
            lemma_round_div_exact(0, dx);
            lemma_round_div_exact(dy, dx);
        }
    } else {
        lemma_round_div_exact(0, dy);
        lemma_round_div_exact(dx, dy);
    }
    assert(0 <= 0 < n + 1 && line_point(x1, y1, x2, y2, 0) == (x1, y1));
    assert(0 <= n < n + 1 && line_point(x1, y1, x2, y2, n) == (x2, y2));
}

/// Every pixel of a line is the nearest to the ideal line. The `k`-th pixel
/// lies `k` pixels from the start along the longer extent of the line; how
/// far it lies along the shorter extent, times the longer extent, differs
/// from `k` times the shorter extent by no more than half the longer extent.
pub proof fn lemma_line_is_nearest(x1: int, y1: int, x2: int, y2: int, k: int)
    requires
        0 <= k <= line_steps(x1, y1, x2, y2),
        line_steps(x1, y1, x2, y2) > 0,
    ensures
        ({
            let dx = abs_diff(x2, x1);
            let dy = abs_diff(y2, y1);
            let p = line_point(x1, y1, x2, y2, k);
            if dx >= dy {
                &&& abs_diff(p.0, x1) == k
                &&& -dx < 2 * (dx * abs_diff(p.1, y1) - dy * k) <= dx
            } else {
                &&& abs_diff(p.1, y1) == k
                &&& -dy < 2 * (dy * abs_diff(p.0, x1) - dx * k) <= dy
            }
        }),
{
    let dx = abs_diff(x2, x1);
    let dy = abs_diff(y2, y1);
    if dx >= dy {
        lemma_round_div_bounds(dy * k, dx);
        let m = round_div(dy * k, dx);
        assert(m >= 0) by (nonlinear_arith)
            requires
                dx > 0,
                dy >= 0,
                k >= 0,
                2 * (dy * k) + dx < 2 * (dx * m) + 2 * dx,
        ;
    } else {
        lemma_round_div_bounds(dx * k, dy);
        let m = round_div(dx * k, dy);
        assert(m >= 0) by (nonlinear_arith)
            requires
                dy > 0,
                dx >= 0,
                k >= 0,
                2 * (dx * k) + dy < 2 * (dy * m) + 2 * dy,
        ;
    }
}

/// One more pixel of a line: the prefix grows by `line_point(.., m)`.
proof fn lemma_line_prefix_step(x1: int, y1: int, x2: int, y2: int, m: int)
    requires
        0 <= m,
    ensures
        line_prefix(x1, y1, x2, y2, m + 1) == line_prefix(x1, y1, x2, y2, m).union(
            set![line_point(x1, y1, x2, y2, m)],
        ),
{
    let a = line_prefix(x1, y1, x2, y2, m + 1);
    let b = line_prefix(x1, y1, x2, y2, m).union(set![line_point(x1, y1, x2, y2, m)]);
    assert forall|p: (int, int)| a.contains(p) <==> b.contains(p) by {
        if a.contains(p) {
            let k = choose|k: int| 0 <= k < m + 1 && #[trigger] line_point(x1, y1, x2, y2, k) == p;
            if k < m {
                assert(line_prefix(x1, y1, x2, y2, m).contains(p));
            }
        }
        if b.contains(p) {
            if line_prefix(x1, y1, x2, y2, m).contains(p) {
                let k = choose|k: int| 0 <= k < m && #[trigger] line_point(x1, y1, x2, y2, k) == p;
                assert(0 <= k < m + 1 && line_point(x1, y1, x2, y2, k) == p);
            } else {
                assert(0 <= m < m + 1 && line_point(x1, y1, x2, y2, m) == p);
            }
        }
    }
    assert(a =~= b);
}

/// Sets the pixel `(x, y)`, unless it is off the screen or past the end of
/// the buffer.
fn put_pixel(buffer: &mut Vec<u32>, x: i64, y: i64, colour: u32)
    ensures
        final(buffer)@ == paint(old(buffer)@, set![(x as int, y as int)], colour),
{
    if 0 <= x && x < WIDTH as i64 && 0 <= y && y < HEIGHT as i64 {
        let index: usize = two_d_to_1d(x as i32, y as i32);
        if index < buffer.len() {
            buffer.set(index, colour);
        }
    }
    assert(buffer@ =~= paint(old(buffer)@, set![(x as int, y as int)], colour));
}

/// Draws the line from `(x1, y1)` to `(x2, y2)`, both ends included, by
/// Bresenham's error accumulation. Pixels off the screen are skipped.
pub fn draw_line(buffer: &mut Vec<u32>, x1: u32, y1: u32, x2: u32, y2: u32, colour: u32)
    ensures
        final(buffer)@ == paint(
            old(buffer)@,
            line_pixels(x1 as int, y1 as int, x2 as int, y2 as int),
            colour,
        ),
{
    let mut x: i64 = x1 as i64;
    let mut y: i64 = y1 as i64;
    let x_end: i64 = x2 as i64;
    let y_end: i64 = y2 as i64;

    let sign_x: i64 = if x_end > x { 1 } else { -1 };
    let sign_y: i64 = if y_end > y { 1 } else { -1 };

    let dx: i64 = if x_end > x { x_end - x } else { x - x_end };
    let dy: i64 = if y_end > y { y - y_end } else { y_end - y };

    let mut err: i64 = dx + dy;

    let ghost steps = line_steps(x1 as int, y1 as int, x2 as int, y2 as int);
    // Steps taken so far in all, along x and along y.
    let ghost mut k: int = 0;
    let ghost mut a: int = 0;
    let ghost mut b: int = 0;

    let ghost ady = abs_diff(y2 as int, y1 as int);
    proof {
        assert(dx * (0 + 1) == dx) by (nonlinear_arith);
        assert(ady * (0 + 1) == ady) by (nonlinear_arith);
        assert(line_prefix(x1 as int, y1 as int, x2 as int, y2 as int, 0) =~= Set::empty());
        lemma_paint_empty(buffer@, colour);
    }

    loop
        invariant
            dx == abs_diff(x2 as int, x1 as int),
            ady == abs_diff(y2 as int, y1 as int),
            dy == -ady,
            x_end == x2,
            y_end == y2,
            sign_x == if x2 > x1 { 1i64 } else { -1i64 },
            sign_y == if y2 > y1 { 1i64 } else { -1i64 },
            steps == line_steps(x1 as int, y1 as int, x2 as int, y2 as int),
            0 <= k <= steps,
            0 <= a <= k,
            0 <= b <= k,
            x == advance(x1 as int, x2 as int, a),
            y == advance(y1 as int, y2 as int, b),
            err == dx * (b + 1) - ady * (a + 1),
            dx >= ady ==> a == k,
            dx >= ady && dx > 0 ==> dx - 2 * ady < 2 * err <= 3 * dx - 2 * ady,
            dx < ady ==> b == k && 2 * dx - 3 * ady <= 2 * err < 2 * dx - ady,
            buffer@ == paint(
                old(buffer)@,
                line_prefix(x1 as int, y1 as int, x2 as int, y2 as int, k),
                colour,
            ),
        decreases steps - k,
    {
        proof {
            lemma_line_at(x1 as int, y1 as int, x2 as int, y2 as int, k, a, b, err as int);
            lemma_line_prefix_step(x1 as int, y1 as int, x2 as int, y2 as int, k);
            lemma_paint_union(
                old(buffer)@,
                line_prefix(x1 as int, y1 as int, x2 as int, y2 as int, k),
                set![(x as int, y as int)],
                colour,
            );
        }
        put_pixel(buffer, x, y, colour);

        if x == x_end && y == y_end {
            return ;
        }
        let e2: i64 = 2 * err;
        proof {
            assert(dx * (b + 1 + 1) == dx * (b + 1) + dx) by (nonlinear_arith);
            assert(ady * (a + 1 + 1) == ady * (a + 1) + ady) by (nonlinear_arith);
        }
        if e2 >= dy {
            err += dy;
            x += sign_x;
            proof {
                a = a + 1;
            }
        }
        if e2 <= dx {
            err += dx;
            y += sign_y;
            proof {
                b = b + 1;
            }
        }
        proof {
            k = k + 1;
        }
    }
}

/// The three points in the order in which `sort_points_by_y` returns them:
/// the first is exchanged with the second, then with the third, then the
/// second with the third, each time only if the later one lies strictly higher.
pub open spec fn sorted_by_y(p1: Point, p2: Point, p3: Point) -> (Point, Point, Point) {
    let (a, b) = if p2.y > p1.y { (p2, p1) } else { (p1, p2) };
    let (a, c) = if p3.y > a.y { (p3, a) } else { (a, p3) };
    let (b, c) = if c.y > b.y { (c, b) } else { (b, c) };
    (a, b, c)
}

/// Sorts three points by decreasing `y`: the result is a rearrangement of the
/// arguments with the highest point first and the lowest last.
pub fn sort_points_by_y(p1: Point, p2: Point, p3: Point) -> (sorted: (Point, Point, Point))
    ensures
        sorted == sorted_by_y(p1, p2, p3),
        sorted.0.y >= sorted.1.y >= sorted.2.y,
        seq![sorted.0, sorted.1, sorted.2].to_multiset() == seq![p1, p2, p3].to_multiset(),
{
    let mut pmax = p1;
    let mut pmid = p2;
    let mut pmin = p3;

    if pmid.y > pmax.y {
        let t = pmax;
        pmax = pmid;
        pmid = t;
    }
    if pmin.y > pmax.y {
        let t = pmax;
        pmax = pmin;
        pmin = t;
    }
    // The highest point is in place; order the other two.
    if pmin.y > pmid.y {
        let t = pmid;
        pmid = pmin;
        pmin = t;
    }
    proof {
        lemma_sorted_by_y(p1, p2, p3);
    }
    (pmax, pmid, pmin)
}

/// `sorted_by_y` orders its arguments by decreasing `y` and only rearranges them.
pub proof fn lemma_sorted_by_y(p1: Point, p2: Point, p3: Point)
    ensures
        sorted_by_y(p1, p2, p3).0.y >= sorted_by_y(p1, p2, p3).1.y >= sorted_by_y(p1, p2, p3).2.y,
        seq![sorted_by_y(p1, p2, p3).0, sorted_by_y(p1, p2, p3).1, sorted_by_y(p1, p2, p3).2].to_multiset()
            == seq![p1, p2, p3].to_multiset(),
{
    let s = sorted_by_y(p1, p2, p3);
    let e = Seq::<Point>::empty();
    vstd::seq_lib::to_multiset_build(e, s.0);
    vstd::seq_lib::to_multiset_build(e.push(s.0), s.1);
    vstd::seq_lib::to_multiset_build(e.push(s.0).push(s.1), s.2);
    vstd::seq_lib::to_multiset_build(e, p1);
    vstd::seq_lib::to_multiset_build(e.push(p1), p2);
    vstd::seq_lib::to_multiset_build(e.push(p1).push(p2), p3);
    assert(seq![s.0, s.1, s.2] =~= e.push(s.0).push(s.1).push(s.2));
    assert(seq![p1, p2, p3] =~= e.push(p1).push(p2).push(p3));
    assert(seq![s.0, s.1, s.2].to_multiset() =~= seq![p1, p2, p3].to_multiset());
}

/// The pixels of the three edges of `tri`.
pub open spec fn outline_pixels(tri: Tri) -> Set<(int, int)> {
    line_pixels(tri.p1.x as int, tri.p1.y as int, tri.p2.x as int, tri.p2.y as int).union(
        line_pixels(tri.p2.x as int, tri.p2.y as int, tri.p3.x as int, tri.p3.y as int),
    ).union(line_pixels(tri.p3.x as int, tri.p3.y as int, tri.p1.x as int, tri.p1.y as int))
}

/// Draws the three edges of `tri`: from `p1` to `p2`, on to `p3` and back.
pub fn draw_outlined_triangle(buffer: &mut Vec<u32>, tri: &Tri, colour: u32)
    ensures
        final(buffer)@ == paint(old(buffer)@, outline_pixels(*tri), colour),
{
    let ghost e1 = line_pixels(tri.p1.x as int, tri.p1.y as int, tri.p2.x as int, tri.p2.y as int);
    let ghost e2 = line_pixels(tri.p2.x as int, tri.p2.y as int, tri.p3.x as int, tri.p3.y as int);
    let ghost e3 = line_pixels(tri.p3.x as int, tri.p3.y as int, tri.p1.x as int, tri.p1.y as int);
    draw_line(buffer, tri.p1.x, tri.p1.y, tri.p2.x, tri.p2.y, colour);
    draw_line(buffer, tri.p2.x, tri.p2.y, tri.p3.x, tri.p3.y, colour);
    draw_line(buffer, tri.p3.x, tri.p3.y, tri.p1.x, tri.p1.y, colour);
    proof {
        lemma_paint_union(old(buffer)@, e1, e2, colour);
        lemma_paint_union(old(buffer)@, e1.union(e2), e3, colour);
    }
}

/// Where the edge that runs from column `xa` on its first row to column `xb`,
/// `h` rows higher, crosses the row `i` rows above the first: the exact
/// crossing, rounded to the nearest column, a half rounded up.
pub open spec fn edge_x(xa: int, xb: int, i: int, h: int) -> int {
    round_div(xa * (h - i) + xb * i, h)
}

/// An edge stays between the columns of its two ends, and starts and ends
/// exactly on them.
pub proof fn lemma_edge_x_bounds(xa: int, xb: int, i: int, h: int)
    requires
        0 <= xa,
        0 <= xb,
        0 <= i <= h,
        0 < h,
    ensures
        xa <= xb ==> xa <= edge_x(xa, xb, i, h) <= xb,
        xb <= xa ==> xb <= edge_x(xa, xb, i, h) <= xa,
        edge_x(xa, xb, 0, h) == xa,
        edge_x(xa, xb, h, h) == xb,
        0 <= xa * (h - i) + xb * i,
        xa <= xb ==> xa * (h - i) + xb * i <= xb * h,
        xb <= xa ==> xa * (h - i) + xb * i <= xa * h,
{
    let n = xa * (h - i) + xb * i;
    let lo = if xa <= xb { xa } else { xb };
    let hi = if xa <= xb { xb } else { xa };
    assert(lo * h <= n <= hi * h) by (nonlinear_arith)
        requires
            n == xa * (h - i) + xb * i,
            lo <= xa <= hi,
            lo <= xb <= hi,
            0 <= i <= h,
    ;
    assert(0 <= lo * h) by (nonlinear_arith)
        requires
            0 <= lo,
            0 < h,
    ;
    lemma_round_div_exact(lo, h);
    lemma_round_div_exact(hi, h);
    vstd::arithmetic::div_mod::lemma_div_is_ordered(2 * (lo * h) + h, 2 * n + h, 2 * h);
    vstd::arithmetic::div_mod::lemma_div_is_ordered(2 * n + h, 2 * (hi * h) + h, 2 * h);
    assert(xa * (h - 0) + xb * 0 == xa * h) by (nonlinear_arith);
    assert(xa * (h - h) + xb * h == xb * h) by (nonlinear_arith);
    lemma_round_div_exact(xa, h);
    lemma_round_div_exact(xb, h);
}

/// A whole number is its own rounding.
proof fn lemma_round_div_exact(q: int, d: int)
    requires
        d > 0,
    ensures
        round_div(q * d, d) == q,
{
    assert(d * q == q * d) by (nonlinear_arith);
    lemma_round_div_unique(q * d, d, q);
}

/// Computes `edge_x`.
fn edge_at(xa: u32, xb: u32, i: u32, h: u32) -> (x: u32)
    requires
        i <= h,
        0 < h,
    ensures
        x == edge_x(xa as int, xb as int, i as int, h as int),
{
    proof {
        lemma_edge_x_bounds(xa as int, xb as int, i as int, h as int);
        assert(0 <= (xa as int) * (h - i) <= 0xffff_ffff * 0xffff_ffff) by (nonlinear_arith)
            requires
                0 <= xa <= 0xffff_ffff,
                0 <= h - i <= 0xffff_ffff,
        ;
        assert(0 <= (xb as int) * (i as int) <= 0xffff_ffff * 0xffff_ffff) by (nonlinear_arith)
            requires
                0 <= xb <= 0xffff_ffff,
                0 <= i <= 0xffff_ffff,
        ;
    }
    let n: u128 = (xa as u128) * ((h - i) as u128) + (xb as u128) * (i as u128);
    let q: u128 = (2 * n + (h as u128)) / (2 * (h as u128));
    q as u32
}

/// The column at which the long edge, from `bottom` to `top`, crosses the row
/// of `mid`. On a vertical long edge it is the column of `top`; where all
/// three points share one row there is no crossing, and it is 0.
pub open spec fn split_x(top: Point, mid: Point, bottom: Point) -> int {
    if top.x == bottom.x {
        top.x as int
    } else if top.y <= bottom.y {
        0
    } else {
        edge_x(bottom.x as int, top.x as int, mid.y - bottom.y, top.y - bottom.y)
    }
}

/// Finds the point that splits a triangle into a flat-bottomed and a
/// flat-topped half: the point of the long edge on the row of `mid`.
pub fn split_point(top: Point, mid: Point, bottom: Point) -> (p4: Point)
    requires
        top.y >= mid.y >= bottom.y,
    ensures
        p4.y == mid.y,
        p4.x == split_x(top, mid, bottom),
        top.x == bottom.x ==> p4.x == top.x,
{
    proof {
        if top.y > bottom.y {
            lemma_edge_x_bounds(
                bottom.x as int,
                top.x as int,
                mid.y - bottom.y,
                top.y - bottom.y,
            );
        }
    }
    let p4x: u32 = if top.x == bottom.x {
        top.x
    } else if top.y == bottom.y {
        0
    } else {
        edge_at(bottom.x, top.x, mid.y - bottom.y, top.y - bottom.y)
    };
    Point { x: p4x, y: mid.y }
}

/// The pixels of the rows from `y0` up to, not including, `y1`, each filled
/// between two edges: one runs from column `from0` on row `y0` to column
/// `from1` on row `y1`, the other from `to0` to `to1`.
pub open spec fn rows_pixels(y0: int, y1: int, from0: int, from1: int, to0: int, to1: int) -> Set<
    (int, int),
> {
    Set::new(
        |p: (int, int)|
            y0 <= p.1 < y1 && span_pixels(
                edge_x(from0, from1, p.1 - y0, y1 - y0),
                edge_x(to0, to1, p.1 - y0, y1 - y0),
                p.1,
            ).contains(p),
    )
}

/// Fills the rows from `y0` up to, not including, `y1` between two edges.
fn fill_rows(
    buffer: &mut Vec<u32>,
    y0: u32,
    y1: u32,
    from0: u32,
    from1: u32,
    to0: u32,
    to1: u32,
    colour: u32,
)
    ensures
        final(buffer)@ == paint(
            old(buffer)@,
            rows_pixels(
                y0 as int,
                y1 as int,
                from0 as int,
                from1 as int,
                to0 as int,
                to1 as int,
            ),
            colour,
        ),
{
    let ghost all = rows_pixels(
        y0 as int,
        y1 as int,
        from0 as int,
        from1 as int,
        to0 as int,
        to1 as int,
    );
    if y0 >= y1 {
        assert(all =~= Set::empty());
        assert(buffer@ =~= paint(old(buffer)@, all, colour));
        return ;
    }
    let h: u32 = y1 - y0;
    let mut y: u32 = y0;
    assert(all.intersect(Set::new(|p: (int, int)| p.1 < y)) =~= Set::empty());
    assert(buffer@ =~= paint(old(buffer)@, Set::empty(), colour));
    while y < y1
        invariant
            y0 <= y <= y1,
            h == y1 - y0,
            all == rows_pixels(
                y0 as int,
                y1 as int,
                from0 as int,
                from1 as int,
                to0 as int,
                to1 as int,
            ),
            buffer@ == paint(
                old(buffer)@,
                all.intersect(Set::new(|p: (int, int)| p.1 < y)),
                colour,
            ),
        decreases y1 - y,
    {
        let from: u32 = edge_at(from0, from1, y - y0, h);
        let to: u32 = edge_at(to0, to1, y - y0, h);
        let ghost done = all.intersect(Set::new(|p: (int, int)| p.1 < y));
        let ghost row = span_pixels(from as int, to as int, y as int);
        draw_horiz_line(buffer, from, to, y, colour);
        proof {
            lemma_paint_union(old(buffer)@, done, row, colour);
            assert(done.union(row) =~= all.intersect(Set::new(|p: (int, int)| p.1 < y + 1)));
        }
        y += 1;
    }
    assert(all.intersect(Set::new(|p: (int, int)| p.1 < y)) =~= all);
}

/// The pixels of the flat-bottomed triangle with its apex at `p1` and its
/// base from `p2x` to `p3x` on row `p23y`: the rows from the base up to, not
/// including, the apex.
pub open spec fn flat_bottom_pixels(p1: Point, p2x: int, p3x: int, p23y: int) -> Set<(int, int)> {
    rows_pixels(p23y, p1.y as int, p2x, p1.x as int, p3x, p1.x as int)
}

/// The pixels of the flat-topped triangle with its apex at `p1` and its base
/// from `p2x` to `p3x` on row `p23y`: the rows from the apex up to, not
/// including, the base.
pub open spec fn flat_top_pixels(p1: Point, p2x: int, p3x: int, p23y: int) -> Set<(int, int)> {
    rows_pixels(p1.y as int, p23y, p1.x as int, p2x, p1.x as int, p3x)
}

/// Fills a flat-bottomed triangle from its base upwards, one span per row,
/// the spans narrowing towards the apex `p1`.
fn draw_flat_bottom_triangle(
    buffer: &mut Vec<u32>,
    p1: Point,
    p2x: u32,
    p3x: u32,
    p23y: u32,
    colour: u32,
)
    ensures
        final(buffer)@ == paint(
            old(buffer)@,
            flat_bottom_pixels(p1, p2x as int, p3x as int, p23y as int),
            colour,
        ),
{
    fill_rows(buffer, p23y, p1.y, p2x, p1.x, p3x, p1.x, colour);
}

/// Fills a flat-topped triangle from its apex `p1` upwards, one span per row,
/// the spans widening towards the base.
fn draw_flat_top_triangle(
    buffer: &mut Vec<u32>,
    p1: Point,
    p2x: u32,
    p3x: u32,
    p23y: u32,
    colour: u32,
)
    ensures
        final(buffer)@ == paint(
            old(buffer)@,
            flat_top_pixels(p1, p2x as int, p3x as int, p23y as int),
            colour,
        ),
{
    fill_rows(buffer, p1.y, p23y, p1.x, p2x, p1.x, p3x, colour);
}

/// The pixels that filling `tri` covers: with the corners sorted into top,
/// middle and bottom, the flat-bottomed half above the row of the middle
/// corner and the flat-topped half below it. The top row is not covered.
pub open spec fn triangle_pixels(tri: Tri) -> Set<(int, int)> {
    let (top, mid, bottom) = sorted_by_y(tri.p1, tri.p2, tri.p3);
    halves_pixels(top, mid, bottom)
}

/// The pixels of the two halves of a triangle whose corners are given from
/// the top down: the two halves meet on the row of `mid`, where the split
/// point faces `mid` on the long edge.
pub open spec fn halves_pixels(top: Point, mid: Point, bottom: Point) -> Set<(int, int)> {
    let p4x = split_x(top, mid, bottom);
    flat_bottom_pixels(top, mid.x as int, p4x, mid.y as int).union(
        flat_top_pixels(bottom, mid.x as int, p4x, mid.y as int),
    )
}

/// A triangle whose corners share one row has no height: filling it covers
/// no pixel.
pub proof fn lemma_flat_triangle_is_empty(tri: Tri)
    requires
        tri.p1.y == tri.p2.y,
        tri.p2.y == tri.p3.y,
    ensures
        triangle_pixels(tri) == Set::<(int, int)>::empty(),
{
    assert(triangle_pixels(tri) =~= Set::<(int, int)>::empty());
}

/// Where the long edge is vertical, the split point lies in its column.
pub proof fn lemma_vertical_edge_split(top: Point, mid: Point, bottom: Point)
    requires
        top.x == bottom.x,
    ensures
        split_x(top, mid, bottom) == top.x,
{
}

/// Fills `tri` by scanlines. The triangle is cut on the row of its middle
/// corner into a flat-bottomed and a flat-topped half, and each half is
/// filled row by row between its two edges.
///
/// ```text
///  +y
///   ^                       . top
///   |                  .       .
///   |            .           .
///   |      mid -------------- split
///   |         .           .
///   |           .      .
///   |            bottom
///   +-------------------------> +x
/// ```
pub fn draw_filled_triangle(buffer: &mut Vec<u32>, tri: &Tri, colour: u32)
    ensures
        final(buffer)@ == paint(old(buffer)@, triangle_pixels(*tri), colour),
        tri.p1.y == tri.p2.y && tri.p2.y == tri.p3.y ==> final(buffer)@ == old(buffer)@,
{
    proof {
        if tri.p1.y == tri.p2.y && tri.p2.y == tri.p3.y {
            lemma_flat_triangle_is_empty(*tri);
            lemma_paint_empty(buffer@, colour);
        }
    }
    let sorted = sort_points_by_y(tri.p1, tri.p2, tri.p3);
    let p4 = split_point(sorted.0, sorted.1, sorted.2);
    draw_flat_bottom_triangle(buffer, sorted.0, sorted.1.x, p4.x, p4.y, colour);
    draw_flat_top_triangle(buffer, sorted.2, sorted.1.x, p4.x, p4.y, colour);
    proof {
        lemma_paint_union(
            old(buffer)@,
            flat_bottom_pixels(sorted.0, sorted.1.x as int, p4.x as int, p4.y as int),
            flat_top_pixels(sorted.2, sorted.1.x as int, p4.x as int, p4.y as int),
            colour,
        );
    }
}

} // verus!
