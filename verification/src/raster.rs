//! Pixel-level drawing decisions of the offline map renderer: which pixels a
//! line covers, which of them land inside the frame, and the colour of each
//! settlement class.

use vstd::prelude::*;
use crate::locations::LocationClass;

verus! {

/// Largest span, on either axis, of a line that `line_pixels` walks:
/// `i64::MAX / 3`. Twice the walk's error term reaches up to three times the
/// longer span, and must stay representable in 64 bits.
pub const LINE_SPAN_LIMIT: i64 = 3_074_457_345_618_258_602;

/// Distance between two coordinates on one axis.
pub open spec fn span_of(a: int, b: int) -> int {
    if a <= b { b - a } else { a - b }
}

/// Where `steps` unit moves from `start` towards `end` arrive.
pub open spec fn toward(start: int, end: int, steps: int) -> int {
    if start < end { start + steps } else { start - steps }
}

/// The nearest integer to `minor * k / major`, halves rounding up.
pub open spec fn rounded_share(minor: int, major: int, k: int) -> int {
    if major <= 0 { 0 } else { (2 * minor * k + major) / (2 * major) }
}

/// Number of steps of the line: its span along the longer axis.
pub open spec fn line_steps(from: (i64, i64), to: (i64, i64)) -> int {
    let dx = span_of(from.0 as int, to.0 as int);
    let dy = span_of(from.1 as int, to.1 as int);
    if dx >= dy { dx } else { dy }
}

/// Steps taken along the x axis by the `k`-th pixel of a line with spans
/// `dx` and `dy`.
pub open spec fn steps_x(dx: int, dy: int, k: int) -> int {
    if dx >= dy { k } else { rounded_share(dx, dy, k) }
}

/// Steps taken along the y axis by the `k`-th pixel of a line with spans
/// `dx` and `dy`.
pub open spec fn steps_y(dx: int, dy: int, k: int) -> int {
    if dx >= dy { rounded_share(dy, dx, k) } else { k }
}

/// The `k`-th pixel of the line from `from` to `to`: one pixel per step along
/// the longer axis, while the shorter axis follows the ideal line rounded to
/// the nearest pixel.
pub open spec fn line_point(from: (i64, i64), to: (i64, i64), k: int) -> (int, int) {
    let dx = span_of(from.0 as int, to.0 as int);
    let dy = span_of(from.1 as int, to.1 as int);
    (
        toward(from.0 as int, to.0 as int, steps_x(dx, dy, k)),
        toward(from.1 as int, to.1 as int, steps_y(dx, dy, k)),
    )
}

/// `rounded_share` is the integer `s` with
/// `2 * major * s <= 2 * minor * k + major < 2 * major * (s + 1)`.
proof fn lemma_share_bounds(minor: int, major: int, k: int)
    requires
        0 <= minor <= major,
        0 < major,
        0 <= k,
    ensures
        0 <= rounded_share(minor, major, k),
        (2 * major) * rounded_share(minor, major, k) <= 2 * minor * k + major,
        2 * minor * k + major < (2 * major) * rounded_share(minor, major, k) + 2 * major,
{
    let n = 2 * minor * k + major;
    let d = 2 * major;
    assert(0 <= 2 * minor * k) by (nonlinear_arith)
        requires
            0 <= minor,
            0 <= k,
    ;
    vstd::arithmetic::div_mod::lemma_fundamental_div_mod(n, d);
    vstd::arithmetic::div_mod::lemma_mod_pos_bound(n, d);
    assert(0 <= n / d) by (nonlinear_arith)
        requires
            0 <= n,
            0 < d,
            n == d * (n / d) + (n % d),
            0 <= n % d < d,
    ;
}

/// The integer that the bounds of `lemma_share_bounds` pin down.
proof fn lemma_share_unique(minor: int, major: int, k: int, s: int)
    requires
        0 <= minor <= major,
        0 < major,
        0 <= k,
        (2 * major) * s <= 2 * minor * k + major,
        2 * minor * k + major < (2 * major) * s + 2 * major,
    ensures
        rounded_share(minor, major, k) == s,
{
    let n = 2 * minor * k + major;
    let d = 2 * major;
    let r = n - d * s;
    assert(n == s * d + r) by (nonlinear_arith)
        requires
            r == n - d * s,
    ;
    vstd::arithmetic::div_mod::lemma_fundamental_div_mod_converse(n, d, s, r);
}

/// One step along the major axis: the minor axis advances by one exactly when
/// the ideal line has passed the next half pixel.
proof fn lemma_share_step(minor: int, major: int, k: int)
    requires
        0 <= minor <= major,
        0 < major,
        0 <= k,
    ensures
        ({
            let s = rounded_share(minor, major, k);
            rounded_share(minor, major, k + 1) == if (2 * major) * s + 2 * major <= 2 * minor * (k
                + 1) + major {
                s + 1
            } else {
                s
            }
        }),
{
    let s = rounded_share(minor, major, k);
    lemma_share_bounds(minor, major, k);
    assert(2 * minor * (k + 1) == 2 * minor * k + 2 * minor) by (nonlinear_arith);
    if (2 * major) * s + 2 * major <= 2 * minor * (k + 1) + major {
        assert((2 * major) * (s + 1) == (2 * major) * s + 2 * major) by (nonlinear_arith);
        lemma_share_unique(minor, major, k + 1, s + 1);
    } else {
        lemma_share_unique(minor, major, k + 1, s);
    }
}

/// After `major` steps the minor axis has covered its whole span.
proof fn lemma_share_end(minor: int, major: int)
    requires
        0 <= minor <= major,
        0 < major,
    ensures
        rounded_share(minor, major, major) == minor,
{
    assert((2 * major) * minor == 2 * minor * major) by (nonlinear_arith);
    lemma_share_unique(minor, major, major, minor);
}

/// Before the last step the minor axis stays within its span.
proof fn lemma_share_below(minor: int, major: int, k: int)
    requires
        0 <= minor <= major,
        0 < major,
        0 <= k <= major,
    ensures
        rounded_share(minor, major, k) <= minor,
{
    lemma_share_bounds(minor, major, k);
    let s = rounded_share(minor, major, k);
    assert(2 * minor * k <= 2 * minor * major) by (nonlinear_arith)
        requires
            0 <= minor,
            k <= major,
    ;
    assert((2 * major) * minor == 2 * minor * major) by (nonlinear_arith);
    assert(s <= minor) by (nonlinear_arith)
        requires
            (2 * major) * s <= (2 * major) * minor + major,
            0 < major,
    ;
}

/// The position reached after `k` steps of a line with spans `dx` and `dy`:
/// within the spans, at the far end exactly at the last step, and with an
/// error term small enough for 64-bit arithmetic.
proof fn lemma_line_state(dx: int, dy: int, k: int)
    requires
        0 <= dx,
        0 <= dy,
        0 <= k <= (if dx >= dy { dx } else { dy }),
    ensures
        ({
            let n = if dx >= dy { dx } else { dy };
            let a = steps_x(dx, dy, k);
            let b = steps_y(dx, dy, k);
            &&& 0 <= a <= dx
            &&& 0 <= b <= dy
            &&& k == 0 ==> a == 0 && b == 0 && dx * (b + 1) - dy * (a + 1) == dx - dy
            &&& (a == dx && b == dy) <==> k == n
            &&& -3 * n <= 2 * (dx * (b + 1) - dy * (a + 1)) <= 3 * n
        }),
{
    if dx >= dy {
        if dx > 0 {
            let b = rounded_share(dy, dx, k);
            lemma_share_bounds(dy, dx, k);
            lemma_share_below(dy, dx, k);
            if k == dx {
                lemma_share_end(dy, dx);
            }
            if k == 0 {
                assert(2 * dy * 0 == 0 && (2 * dx) * 0 == 0) by (nonlinear_arith);
                lemma_share_unique(dy, dx, 0, 0);
                assert(dx * (0 + 1) - dy * (0 + 1) == dx - dy) by (nonlinear_arith);
            }
            assert(2 * (dx * (b + 1) - dy * (k + 1)) == (2 * dx) * b + 2 * dx - 2 * dy * k - 2 * dy)
                by (nonlinear_arith);
        }
    } else {
        let a = rounded_share(dx, dy, k);
        lemma_share_bounds(dx, dy, k);
        lemma_share_below(dx, dy, k);
        if k == dy {
            lemma_share_end(dx, dy);
        }
        if k == 0 {
            assert(2 * dx * 0 == 0 && (2 * dy) * 0 == 0) by (nonlinear_arith);
            lemma_share_unique(dx, dy, 0, 0);
            assert(dx * (0 + 1) - dy * (0 + 1) == dx - dy) by (nonlinear_arith);
        }
        assert(2 * (dx * (k + 1) - dy * (a + 1)) == 2 * dx * k + 2 * dx - (2 * dy) * a - 2 * dy)
            by (nonlinear_arith);
    }
}

/// One step of the line: which axes advance, read off the error term, and how
/// the error term follows.
proof fn lemma_line_move(dx: int, dy: int, k: int)
    requires
        0 <= dx,
        0 <= dy,
        0 <= k < (if dx >= dy { dx } else { dy }),
    ensures
        ({
            let a = steps_x(dx, dy, k);
            let b = steps_y(dx, dy, k);
            let e = dx * (b + 1) - dy * (a + 1);
            let a1 = steps_x(dx, dy, k + 1);
            let b1 = steps_y(dx, dy, k + 1);
            &&& a1 == if 2 * e >= -dy { a + 1 } else { a }
            &&& b1 == if 2 * e <= dx { b + 1 } else { b }
            &&& dx * (b1 + 1) - dy * (a1 + 1) == e - (if 2 * e >= -dy { dy } else { 0 }) + (if 2
                * e <= dx {
                dx
            } else {
                0
            })
        }),
{
    if dx >= dy {
        let b = rounded_share(dy, dx, k);
        lemma_share_bounds(dy, dx, k);
        lemma_share_step(dy, dx, k);
        assert(2 * (dx * (b + 1) - dy * (k + 1)) == (2 * dx) * b + 2 * dx - 2 * dy * k - 2 * dy)
            by (nonlinear_arith);
        assert(2 * dy * (k + 1) == 2 * dy * k + 2 * dy) by (nonlinear_arith);
        assert(dx * (b + 2) == dx * (b + 1) + dx) by (nonlinear_arith);
        assert(dy * (k + 2) == dy * (k + 1) + dy) by (nonlinear_arith);
    } else {
        let a = rounded_share(dx, dy, k);
        lemma_share_bounds(dx, dy, k);
        lemma_share_step(dx, dy, k);
        assert(2 * (dx * (k + 1) - dy * (a + 1)) == 2 * dx * k + 2 * dx - (2 * dy) * a - 2 * dy)
            by (nonlinear_arith);
        assert(2 * dx * (k + 1) == 2 * dx * k + 2 * dx) by (nonlinear_arith);
        assert(dy * (a + 2) == dy * (a + 1) + dy) by (nonlinear_arith);
        assert(dx * (k + 2) == dx * (k + 1) + dx) by (nonlinear_arith);
    }
}

/// The pixels of the straight line from `from` to `to`, both ends included, in
/// walking order (Bresenham's algorithm): one pixel per step along the longer
/// axis, the shorter axis rounded to the pixel nearest the ideal line.
pub fn line_pixels(from: (i64, i64), to: (i64, i64)) -> (pixels: Vec<(i64, i64)>)
    requires
        span_of(from.0 as int, to.0 as int) <= LINE_SPAN_LIMIT,
        span_of(from.1 as int, to.1 as int) <= LINE_SPAN_LIMIT,
    ensures
        pixels.len() == line_steps(from, to) + 1,
        forall|k: int|
            0 <= k < pixels.len() ==> (#[trigger] pixels[k].0 as int, pixels[k].1 as int)
                == line_point(from, to, k),
{
    let (mut x0, mut y0) = from;
    let (x1, y1) = to;
    let dx: i64 = if x0 <= x1 { x1 - x0 } else { x0 - x1 };
    let dy: i64 = if y0 <= y1 { y0 - y1 } else { y1 - y0 };
    let sx: i64 = if x0 < x1 { 1 } else { -1 };
    let sy: i64 = if y0 < y1 { 1 } else { -1 };
    let mut err: i64 = dx + dy;
    let mut pixels: Vec<(i64, i64)> = Vec::new();
    let ghost span_x: int = dx as int;
    let ghost span_y: int = -(dy as int);
    let ghost n: int = line_steps(from, to);
    let ghost mut k: int = 0;
    proof {
        lemma_line_state(span_x, span_y, 0);
    }
    loop
        invariant_except_break
            pixels.len() == k,
            forall|i: int|
                0 <= i < pixels.len() ==> (#[trigger] pixels[i].0 as int, pixels[i].1 as int)
                    == line_point(from, to, i),
        invariant
            x1 == to.0,
            y1 == to.1,
            span_x == span_of(from.0 as int, to.0 as int),
            span_y == span_of(from.1 as int, to.1 as int),
            dx == span_x,
            dy == -span_y,
            span_x <= LINE_SPAN_LIMIT,
            span_y <= LINE_SPAN_LIMIT,
            n == line_steps(from, to),
            n == (if span_x >= span_y { span_x } else { span_y }),
            sx == (if from.0 < to.0 { 1int } else { -1int }),
            sy == (if from.1 < to.1 { 1int } else { -1int }),
            0 <= k <= n,
            x0 == toward(from.0 as int, to.0 as int, steps_x(span_x, span_y, k)),
            y0 == toward(from.1 as int, to.1 as int, steps_y(span_x, span_y, k)),
            -3 * n <= 2 * err <= 3 * n,
            err == span_x * (steps_y(span_x, span_y, k) + 1) - span_y * (steps_x(
                span_x,
                span_y,
                k,
            ) + 1),
        ensures
            pixels.len() == n + 1,
            forall|i: int|
                0 <= i < pixels.len() ==> (#[trigger] pixels[i].0 as int, pixels[i].1 as int)
                    == line_point(from, to, i),
        decreases n - k,
    {
        proof {
            lemma_line_state(span_x, span_y, k);
        }
        pixels.push((x0, y0));
        if x0 == x1 && y0 == y1 {
            break;
        }
        proof {
            lemma_line_move(span_x, span_y, k);
            lemma_line_state(span_x, span_y, k + 1);
        }
        let e2 = 2 * err;
        if e2 >= dy {
            err = err + dy;
            x0 = x0 + sx;
        }
        if e2 <= dx {
            err = err + dx;
            y0 = y0 + sy;
        }
        proof {
            k = k + 1;
        }
    }
    pixels
}

/// A line starts at its first end point and arrives at the second one.
pub proof fn lemma_line_joins_ends(from: (i64, i64), to: (i64, i64))
    ensures
        line_point(from, to, 0) == (from.0 as int, from.1 as int),
        line_point(from, to, line_steps(from, to)) == (to.0 as int, to.1 as int),
{
    let dx = span_of(from.0 as int, to.0 as int);
    let dy = span_of(from.1 as int, to.1 as int);
    lemma_line_state(dx, dy, 0);
    lemma_line_state(dx, dy, line_steps(from, to));
}

/// A line has no gaps: each pixel touches the previous one (sides or
/// corners), and every step advances one pixel along the longer axis.
pub proof fn lemma_line_is_connected(from: (i64, i64), to: (i64, i64), k: int)
    requires
        0 <= k < line_steps(from, to),
    ensures
        ({
            let p = line_point(from, to, k);
            let q = line_point(from, to, k + 1);
            let dx = span_of(from.0 as int, to.0 as int);
            let dy = span_of(from.1 as int, to.1 as int);
            &&& span_of(p.0, q.0) <= 1
            &&& span_of(p.1, q.1) <= 1
            &&& dx >= dy ==> span_of(p.0, q.0) == 1
            &&& dx < dy ==> span_of(p.1, q.1) == 1
        }),
{
    let dx = span_of(from.0 as int, to.0 as int);
    let dy = span_of(from.1 as int, to.1 as int);
    lemma_line_move(dx, dy, k);
}

/// The image coordinates of the pixel `(x, y)` when it lies inside a frame of
/// `width` by `height` pixels; pixels outside the frame are dropped.
pub fn frame_pixel(x: i64, y: i64, width: u32, height: u32) -> (pixel: Option<(u32, u32)>)
    ensures
        pixel == (if 0 <= x < width && 0 <= y < height {
            Some((x as u32, y as u32))
        } else {
            None
        }),
{
    if x < 0 || y < 0 {
        return None;
    }
    if x < width as i64 && y < height as i64 {
        Some((x as u32, y as u32))
    } else {
        None
    }
}

/// The RGBA colour in which a settlement of `class` is drawn.
pub open spec fn class_rgba(class: LocationClass) -> Seq<u8> {
    match class {
        LocationClass::Farm => seq![255u8, 255u8, 0u8, 255u8],
        LocationClass::Hamlet => seq![255u8, 165u8, 0u8, 255u8],
        LocationClass::Village => seq![255u8, 0u8, 0u8, 255u8],
        LocationClass::Town => seq![255u8, 0u8, 255u8, 255u8],
        LocationClass::City => seq![0u8, 128u8, 255u8, 255u8],
    }
}

/// The RGBA colour of a settlement class: yellow, orange, red, magenta and
/// blue from the smallest class to the largest.
pub fn class_color(class: LocationClass) -> (color: [u8; 4])
    ensures
        color@ == class_rgba(class),
{
    let color: [u8; 4] = match class {
        LocationClass::Farm => [255, 255, 0, 255],
        LocationClass::Hamlet => [255, 165, 0, 255],
        LocationClass::Village => [255, 0, 0, 255],
        LocationClass::Town => [255, 0, 255, 255],
        LocationClass::City => [0, 128, 255, 255],
    };
    proof {
        assert(color@ =~= class_rgba(class));
    }
    color
}

} // verus!
