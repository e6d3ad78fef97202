use vstd::prelude::*;
use crate::color::{Color, packed, blend_spec};

verus! {

// ── Pixel arithmetic ─────────────────────────────────────────────────────────

/// Index of pixel (x, y) in a row-major buffer `w` pixels wide.
pub open spec fn pixel_index(w: int, x: int, y: int) -> int {
    y * w + x
}

/// The opaque colour stored in a packed `0x00RRGGBB` pixel.
pub open spec fn unpack(p: u32) -> Color {
    Color {
        r: ((p as int / 65536) % 256) as u8,
        g: ((p as int / 256) % 256) as u8,
        b: (p as int % 256) as u8,
        a: 255,
    }
}

/// A packed pixel after `c` is painted over it: an opaque colour replaces
/// it, a fully transparent one leaves it, anything else is blended.
pub open spec fn shade(p: u32, c: Color) -> u32 {
    if c.a == 255 {
        packed(c.r, c.g, c.b)
    } else if c.a > 0 {
        let m = blend_spec(unpack(p), c);
        packed(m.r, m.g, m.b)
    } else {
        p
    }
}

/// `buf` (a `w` × `h` image) after painting `c` at (x, y); a point off the
/// image changes nothing.
pub open spec fn plot(buf: Seq<u32>, w: int, h: int, x: int, y: int, c: Color) -> Seq<u32> {
    if 0 <= x < w && 0 <= y < h {
        buf.update(pixel_index(w, x, y), shade(buf[pixel_index(w, x, y)], c))
    } else {
        buf
    }
}

/// `buf` after painting `c` at each point of `pts`, in order.
pub open spec fn paint(buf: Seq<u32>, w: int, h: int, pts: Seq<(int, int)>, c: Color) -> Seq<u32>
    decreases pts.len(),
{
    if pts.len() == 0 {
        buf
    } else {
        let p = pts.last();
        plot(paint(buf, w, h, pts.drop_last(), c), w, h, p.0, p.1, c)
    }
}

/// Painting two point lists one after the other is painting their
/// concatenation.
pub proof fn lemma_paint_append(buf: Seq<u32>, w: int, h: int, s1: Seq<(int, int)>, s2: Seq<(int, int)>, c: Color)
    ensures
        paint(buf, w, h, s1 + s2, c) == paint(paint(buf, w, h, s1, c), w, h, s2, c),
    decreases s2.len(),
{
    if s2.len() == 0 {
        assert(s1 + s2 =~= s1);
    } else {
        lemma_paint_append(buf, w, h, s1, s2.drop_last(), c);
        assert((s1 + s2).drop_last() =~= s1 + s2.drop_last());
    }
}

pub proof fn lemma_pixel_index_bounds(w: int, h: int, x: int, y: int)
    requires
        0 <= x < w,
        0 <= y < h,
    ensures
        0 <= pixel_index(w, x, y) < w * h,
{
    assert(0 <= y * w + x < w * h) by (nonlinear_arith)
        requires
            0 <= x < w,
            0 <= y < h,
    ;
}

pub proof fn lemma_pixel_index_injective(w: int, x1: int, y1: int, x2: int, y2: int)
    requires
        0 <= x1 < w,
        0 <= x2 < w,
        0 <= y1,
        0 <= y2,
        pixel_index(w, x1, y1) == pixel_index(w, x2, y2),
    ensures
        x1 == x2,
        y1 == y2,
{
    assert(y1 == y2) by (nonlinear_arith)
        requires
            0 <= x1 < w,
            0 <= x2 < w,
            0 <= y1,
            0 <= y2,
            y1 * w + x1 == y2 * w + x2,
    ;
}

/// Packing a colour into a pixel and reading it back gives the colour,
/// made opaque.
pub proof fn law_pack_unpack(c: Color)
    ensures
        unpack(packed(c.r, c.g, c.b)) == (Color { r: c.r, g: c.g, b: c.b, a: 255 }),
{
    let v = c.r as int * 65536 + c.g as int * 256 + c.b as int;
    assert(0 <= v < 0x1000000);
    assert(packed(c.r, c.g, c.b) as int == v);
    assert(v / 65536 == c.r as int) by (nonlinear_arith)
        requires
            v == c.r as int * 65536 + c.g as int * 256 + c.b as int,
            0 <= c.g < 256,
            0 <= c.b < 256,
    ;
    assert((v / 256) % 256 == c.g as int) by (nonlinear_arith)
        requires
            v == c.r as int * 65536 + c.g as int * 256 + c.b as int,
            0 <= c.r < 256,
            0 <= c.g < 256,
            0 <= c.b < 256,
    ;
    assert(v % 256 == c.b as int) by (nonlinear_arith)
        requires
            v == c.r as int * 65536 + c.g as int * 256 + c.b as int,
            0 <= c.b < 256,
    ;
}

/// Painting one pixel changes that pixel only: an opaque colour leaves its
/// packed value there, a fully transparent one changes nothing, and a point
/// off the image changes nothing.
pub proof fn law_plot_one_pixel(buf: Seq<u32>, w: int, h: int, x: int, y: int, c: Color)
    requires
        buf.len() == w * h,
    ensures
        !(0 <= x < w && 0 <= y < h) ==> plot(buf, w, h, x, y, c) == buf,
        c.a == 0 ==> plot(buf, w, h, x, y, c) == buf,
        0 <= x < w && 0 <= y < h && c.a == 255 ==> plot(buf, w, h, x, y, c)[pixel_index(w, x, y)]
            == packed(c.r, c.g, c.b),
        forall|px: int, py: int|
            0 <= px < w && 0 <= py < h && (px != x || py != y) ==> #[trigger] plot(
                buf,
                w,
                h,
                x,
                y,
                c,
            )[pixel_index(w, px, py)] == buf[pixel_index(w, px, py)],
{
    if 0 <= x < w && 0 <= y < h {
        lemma_pixel_index_bounds(w, h, x, y);
        assert(buf.update(pixel_index(w, x, y), buf[pixel_index(w, x, y)]) =~= buf);
        assert forall|px: int, py: int|
            0 <= px < w && 0 <= py < h && (px != x || py != y) implies #[trigger] plot(
            buf,
            w,
            h,
            x,
            y,
            c,
        )[pixel_index(w, px, py)] == buf[pixel_index(w, px, py)] by {
            lemma_pixel_index_bounds(w, h, px, py);
            if pixel_index(w, px, py) == pixel_index(w, x, y) {
                lemma_pixel_index_injective(w, px, py, x, y);
            }
        }
    }
}

// ── Painting a region in row-major order ─────────────────────────────────────

/// Point (px, py) comes before (cx, cy) in row-major order.
pub open spec fn before(px: int, py: int, cx: int, cy: int) -> bool {
    py < cy || (py == cy && px < cx)
}

/// `now` is `orig` with every on-canvas point of `region` that comes before
/// (cx, cy) painted once with `c`, and every other pixel untouched.
pub open spec fn painted_upto(
    now: Seq<u32>,
    orig: Seq<u32>,
    w: int,
    h: int,
    region: spec_fn(int, int) -> bool,
    cx: int,
    cy: int,
    c: Color,
) -> bool {
    &&& now.len() == orig.len()
    &&& forall|px: int, py: int|
        0 <= px < w && 0 <= py < h ==> #[trigger] now[pixel_index(w, px, py)] == if region(px, py)
            && before(px, py, cx, cy) {
            shade(orig[pixel_index(w, px, py)], c)
        } else {
            orig[pixel_index(w, px, py)]
        }
}

/// `now` is `orig` with every on-canvas point of `region` painted once with
/// `c`, and every other pixel untouched.
pub open spec fn painted(
    now: Seq<u32>,
    orig: Seq<u32>,
    w: int,
    h: int,
    region: spec_fn(int, int) -> bool,
    c: Color,
) -> bool {
    painted_upto(now, orig, w, h, region, 0, h, c)
}

proof fn lemma_painted_plot(
    now: Seq<u32>,
    orig: Seq<u32>,
    w: int,
    h: int,
    region: spec_fn(int, int) -> bool,
    cx: int,
    cy: int,
    c: Color,
)
    requires
        orig.len() == w * h,
        painted_upto(now, orig, w, h, region, cx, cy, c),
        region(cx, cy),
    ensures
        painted_upto(plot(now, w, h, cx, cy, c), orig, w, h, region, cx + 1, cy, c),
{
    let next = plot(now, w, h, cx, cy, c);
    if 0 <= cx < w && 0 <= cy < h {
        lemma_pixel_index_bounds(w, h, cx, cy);
        assert forall|px: int, py: int| 0 <= px < w && 0 <= py < h implies #[trigger] next[pixel_index(
            w,
            px,
            py,
        )] == if region(px, py) && before(px, py, cx + 1, cy) {
            shade(orig[pixel_index(w, px, py)], c)
        } else {
            orig[pixel_index(w, px, py)]
        } by {
            lemma_pixel_index_bounds(w, h, px, py);
            if px != cx || py != cy {
                if pixel_index(w, px, py) == pixel_index(w, cx, cy) {
                    lemma_pixel_index_injective(w, px, py, cx, cy);
                }
            }
        }
    }
}

proof fn lemma_painted_skip(
    now: Seq<u32>,
    orig: Seq<u32>,
    w: int,
    h: int,
    region: spec_fn(int, int) -> bool,
    cx: int,
    cy: int,
    c: Color,
)
    requires
        painted_upto(now, orig, w, h, region, cx, cy, c),
        !region(cx, cy),
    ensures
        painted_upto(now, orig, w, h, region, cx + 1, cy, c),
{
    assert forall|px: int, py: int| 0 <= px < w && 0 <= py < h implies #[trigger] now[pixel_index(
        w,
        px,
        py,
    )] == if region(px, py) && before(px, py, cx + 1, cy) {
        shade(orig[pixel_index(w, px, py)], c)
    } else {
        orig[pixel_index(w, px, py)]
    } by {
        if px == cx && py == cy {
        }
    }
}

proof fn lemma_painted_next_row(
    now: Seq<u32>,
    orig: Seq<u32>,
    w: int,
    h: int,
    region: spec_fn(int, int) -> bool,
    x_lo: int,
    x_hi: int,
    cx: int,
    cy: int,
    c: Color,
)
    requires
        painted_upto(now, orig, w, h, region, cx, cy, c),
        x_hi <= cx,
        forall|px: int, py: int| #[trigger] region(px, py) ==> x_lo <= px < x_hi,
    ensures
        painted_upto(now, orig, w, h, region, x_lo, cy + 1, c),
{
    assert forall|px: int, py: int| 0 <= px < w && 0 <= py < h implies #[trigger] now[pixel_index(
        w,
        px,
        py,
    )] == if region(px, py) && before(px, py, x_lo, cy + 1) {
        shade(orig[pixel_index(w, px, py)], c)
    } else {
        orig[pixel_index(w, px, py)]
    } by {
        if region(px, py) {
            assert(x_lo <= px < x_hi);
        }
    }
}

// ── Lines ────────────────────────────────────────────────────────────────────

/// Bresenham's error term after `i` steps along x and `j` along y, for a
/// line spanning `d` columns and `a` rows.
pub open spec fn line_err(d: int, a: int, i: int, j: int) -> int {
    d - a + d * j - a * i
}

/// Whether Bresenham steps along x from step counts (i, j).
pub open spec fn line_steps_x(d: int, a: int, i: int, j: int) -> bool {
    2 * line_err(d, a, i, j) >= -a
}

/// Whether Bresenham steps along y from step counts (i, j).
pub open spec fn line_steps_y(d: int, a: int, i: int, j: int) -> bool {
    2 * line_err(d, a, i, j) <= d
}

pub proof fn lemma_line_step(d: int, a: int, i: int, j: int)
    requires
        0 <= i <= d,
        0 <= j <= a,
        !(i == d && j == a),
    ensures
        line_steps_x(d, a, i, j) || line_steps_y(d, a, i, j),
        i == d ==> !line_steps_x(d, a, i, j),
        j == a ==> !line_steps_y(d, a, i, j),
{
    if i == d {
        assert(2 * (d - a + d * j - a * d) < -a) by (nonlinear_arith)
            requires
                0 <= j < a,
                0 <= d,
        ;
    }
    if j == a {
        assert(2 * (d - a + d * a - a * i) > d) by (nonlinear_arith)
            requires
                0 <= i < d,
                0 <= a,
        ;
    }
}

/// The points Bresenham's algorithm visits from step counts (i, j) to the
/// end of a line from (x0, y0) spanning `d` columns in direction `sx` and
/// `a` rows in direction `sy`.
pub open spec fn line_tail(x0: int, y0: int, sx: int, sy: int, d: int, a: int, i: int, j: int) -> Seq<(int, int)>
    decreases (d - i) + (a - j),
    when 0 <= i <= d && 0 <= j <= a
{
    let here = (x0 + sx * i, y0 + sy * j);
    if i == d && j == a {
        seq![here]
    } else {
        proof {
            lemma_line_step(d, a, i, j);
        }
        let ni = if line_steps_x(d, a, i, j) { i + 1 } else { i };
        let nj = if line_steps_y(d, a, i, j) { j + 1 } else { j };
        seq![here] + line_tail(x0, y0, sx, sy, d, a, ni, nj)
    }
}

/// Bresenham keeps |2 (d j - a i)| <= d + a, i.e. it never strays from the
/// ideal line by more than half a pixel in the steeper direction.
pub proof fn lemma_line_err_bounded(d: int, a: int, i: int, j: int)
    requires
        0 <= i <= d,
        0 <= j <= a,
        !(i == d && j == a),
        -(d + a) <= 2 * (d * j - a * i) <= d + a,
    ensures
        ({
            let ni = if line_steps_x(d, a, i, j) { i + 1 } else { i };
            let nj = if line_steps_y(d, a, i, j) { j + 1 } else { j };
            -(d + a) <= 2 * (d * nj - a * ni) <= d + a
        }),
{
    lemma_line_step(d, a, i, j);
    let f = d * j - a * i;
    assert(d * (j + 1) - a * i == f + d) by (nonlinear_arith)
        requires
            f == d * j - a * i,
    ;
    assert(d * j - a * (i + 1) == f - a) by (nonlinear_arith)
        requires
            f == d * j - a * i,
    ;
    assert(d * (j + 1) - a * (i + 1) == f + d - a) by (nonlinear_arith)
        requires
            f == d * j - a * i,
    ;
}

/// Along the major axis Bresenham steps every time: for a flat line
/// (d >= a) x always advances, for a steep one (a >= d) y always advances.
pub proof fn lemma_line_major_axis(d: int, a: int, i: int, j: int)
    requires
        0 <= i <= d,
        0 <= j <= a,
        !(i == d && j == a),
        d >= a ==> 2 * (d * j - a * i) >= -d,
        a >= d ==> 2 * (d * j - a * i) <= a,
    ensures
        d >= a ==> line_steps_x(d, a, i, j),
        a >= d ==> line_steps_y(d, a, i, j),
        ({
            let ni = if line_steps_x(d, a, i, j) { i + 1 } else { i };
            let nj = if line_steps_y(d, a, i, j) { j + 1 } else { j };
            &&& d >= a ==> 2 * (d * nj - a * ni) >= -d
            &&& a >= d ==> 2 * (d * nj - a * ni) <= a
        }),
{
    lemma_line_step(d, a, i, j);
    let f = d * j - a * i;
    assert(d * (j + 1) - a * i == f + d) by (nonlinear_arith)
        requires
            f == d * j - a * i,
    ;
    assert(d * j - a * (i + 1) == f - a) by (nonlinear_arith)
        requires
            f == d * j - a * i,
    ;
    assert(d * (j + 1) - a * (i + 1) == f + d - a) by (nonlinear_arith)
        requires
            f == d * j - a * i,
    ;
}

/// From a state on Bresenham's path, the remaining points start at the
/// current point, end at the far end of the line, number one more than the
/// steps left along the major axis, and each is a king's move (one step in
/// x, in y, or both, in the line's directions) from the one before.
pub proof fn lemma_line_tail_shape(x0: int, y0: int, sx: int, sy: int, d: int, a: int, i: int, j: int)
    requires
        0 <= i <= d,
        0 <= j <= a,
        -(d + a) <= 2 * (d * j - a * i) <= d + a,
        d >= a ==> 2 * (d * j - a * i) >= -d,
        a >= d ==> 2 * (d * j - a * i) <= a,
        sx != 0,
        sy != 0,
    ensures
        ({
            let t = line_tail(x0, y0, sx, sy, d, a, i, j);
            &&& t.len() == (if d >= a { d - i + 1 } else { a - j + 1 })
            &&& t[0] == (x0 + sx * i, y0 + sy * j)
            &&& t[t.len() - 1] == (x0 + sx * d, y0 + sy * a)
            &&& forall|k: int|
                0 <= k < t.len() - 1 ==> {
                    let p = #[trigger] t[k];
                    let q = t[k + 1];
                    &&& (q.0 == p.0 || q.0 == p.0 + sx)
                    &&& (q.1 == p.1 || q.1 == p.1 + sy)
                    &&& q != p
                }
        }),
    decreases (d - i) + (a - j),
{
    let t = line_tail(x0, y0, sx, sy, d, a, i, j);
    let here = (x0 + sx * i, y0 + sy * j);
    if i == d && j == a {
        assert(t == seq![here]);
    } else {
        lemma_line_step(d, a, i, j);
        lemma_line_err_bounded(d, a, i, j);
        lemma_line_major_axis(d, a, i, j);
        let ni = if line_steps_x(d, a, i, j) { i + 1 } else { i };
        let nj = if line_steps_y(d, a, i, j) { j + 1 } else { j };
        if d >= a && i == d {
            assert(2 * (d * j - a * d) < -d) by (nonlinear_arith)
                requires
                    0 <= j < a,
                    a <= d,
            ;
        }
        if a >= d && j == a {
            assert(2 * (d * a - a * i) > a) by (nonlinear_arith)
                requires
                    0 <= i < d,
                    d <= a,
            ;
        }
        lemma_line_tail_shape(x0, y0, sx, sy, d, a, ni, nj);
        let rest = line_tail(x0, y0, sx, sy, d, a, ni, nj);
        assert(t == seq![here] + rest);
        assert(rest[0] == (x0 + sx * ni, y0 + sy * nj));
        assert(sx * (i + 1) == sx * i + sx) by (nonlinear_arith);
        assert(sy * (j + 1) == sy * j + sy) by (nonlinear_arith);
        assert forall|k: int| 0 <= k < t.len() - 1 implies {
            let p = #[trigger] t[k];
            let q = t[k + 1];
            &&& (q.0 == p.0 || q.0 == p.0 + sx)
            &&& (q.1 == p.1 || q.1 == p.1 + sy)
            &&& q != p
        } by {
            if k > 0 {
                assert(t[k] == rest[k - 1]);
                assert(t[k + 1] == rest[k]);
            } else {
                assert(t[0] == here);
                assert(t[1] == rest[0]);
            }
        }
    }
}

pub open spec fn fits_i32(v: int) -> bool {
    i32::MIN <= v <= i32::MAX
}

/// The i32 arithmetic of Bresenham's step from step counts (i, j) stays in
/// range: the doubled error, the error after an x step, and the error after
/// a y step.
pub open spec fn line_step_fits(d: int, a: int, i: int, j: int) -> bool {
    let err = line_err(d, a, i, j);
    let after_x = if line_steps_x(d, a, i, j) { err - a } else { err };
    &&& fits_i32(2 * err)
    &&& fits_i32(after_x)
    &&& (line_steps_y(d, a, i, j) ==> fits_i32(after_x + d))
}

/// Every remaining step of Bresenham's algorithm from (i, j) stays in i32.
pub open spec fn line_fits_from(d: int, a: int, i: int, j: int) -> bool
    decreases (d - i) + (a - j),
    when 0 <= i <= d && 0 <= j <= a
{
    if i == d && j == a {
        true
    } else {
        proof {
            lemma_line_step(d, a, i, j);
        }
        let ni = if line_steps_x(d, a, i, j) { i + 1 } else { i };
        let nj = if line_steps_y(d, a, i, j) { j + 1 } else { j };
        line_step_fits(d, a, i, j) && line_fits_from(d, a, ni, nj)
    }
}

/// Bresenham's i32 arithmetic for the line from (x0, y0) to (x1, y1) never
/// overflows: both spans fit in i32 and so does every error value along the
/// way. These are exactly the lines the algorithm can draw in i32.
pub open spec fn line_fits_i32(x0: int, y0: int, x1: int, y1: int) -> bool {
    &&& abs_diff(x0, x1) <= i32::MAX
    &&& abs_diff(y0, y1) <= i32::MAX
    &&& line_fits_from(abs_diff(x0, x1), abs_diff(y0, y1), 0, 0)
}

proof fn lemma_line_fits_from(d: int, a: int, i: int, j: int)
    requires
        0 <= i <= d,
        0 <= j <= a,
        -(d + a) <= 2 * (d * j - a * i) <= d + a,
        3 * d <= i32::MAX,
        3 * a <= i32::MAX,
    ensures
        line_fits_from(d, a, i, j),
    decreases (d - i) + (a - j),
{
    if !(i == d && j == a) {
        lemma_line_step(d, a, i, j);
        lemma_line_err_bounded(d, a, i, j);
        let ni = if line_steps_x(d, a, i, j) { i + 1 } else { i };
        let nj = if line_steps_y(d, a, i, j) { j + 1 } else { j };
        lemma_line_fits_from(d, a, ni, nj);
    }
}

/// A line whose longer span is at most a third of `i32::MAX` (for instance
/// any line with both ends within ±2^28) never overflows Bresenham's i32
/// arithmetic: the doubled error never exceeds three times that span.
pub proof fn law_line_fits_short_spans(x0: int, y0: int, x1: int, y1: int)
    requires
        3 * abs_diff(x0, x1) <= i32::MAX,
        3 * abs_diff(y0, y1) <= i32::MAX,
    ensures
        line_fits_i32(x0, y0, x1, y1),
{
    let d = abs_diff(x0, x1);
    let a = abs_diff(y0, y1);
    assert(d * 0 - a * 0 == 0) by (nonlinear_arith);
    lemma_line_fits_from(d, a, 0, 0);
}

proof fn lemma_diagonal_fits_from(d: int, i: int)
    requires
        0 <= i <= d <= i32::MAX,
    ensures
        line_fits_from(d, d, i, i),
    decreases d - i,
{
    if i < d {
        assert(line_err(d, d, i, i) == 0) by (nonlinear_arith);
        lemma_line_step(d, d, i, i);
        lemma_diagonal_fits_from(d, i + 1);
    }
}

/// Every 45-degree diagonal whose span fits in i32 can be drawn: on it the
/// error term stays at zero.
pub proof fn law_line_fits_diagonal(x0: int, y0: int, x1: int, y1: int)
    requires
        abs_diff(x0, x1) == abs_diff(y0, y1),
        abs_diff(x0, x1) <= i32::MAX,
    ensures
        line_fits_i32(x0, y0, x1, y1),
{
    lemma_diagonal_fits_from(abs_diff(x0, x1), 0);
}

/// Whether `Canvas::draw_line` can draw the line from (x0, y0) to (x1, y1)
/// without i32 overflow; works the error values out in i64.
pub fn line_fits(x0: i32, y0: i32, x1: i32, y1: i32) -> (ok: bool)
    ensures
        ok == line_fits_i32(x0 as int, y0 as int, x1 as int, y1 as int),
{
    let d: i64 = if x1 >= x0 { x1 as i64 - x0 as i64 } else { x0 as i64 - x1 as i64 };
    let a: i64 = if y1 >= y0 { y1 as i64 - y0 as i64 } else { y0 as i64 - y1 as i64 };
    if d > i32::MAX as i64 || a > i32::MAX as i64 {
        return false;
    }
    let ghost full = line_fits_from(d as int, a as int, 0, 0);
    let mut i: i64 = 0;
    let mut j: i64 = 0;
    let mut err: i64 = d - a;
    assert(d * 0 - a * 0 == 0) by (nonlinear_arith);
    while !(i == d && j == a)
        invariant
            0 <= d <= i32::MAX,
            0 <= a <= i32::MAX,
            0 <= i <= d,
            0 <= j <= a,
            err == line_err(d as int, a as int, i as int, j as int),
            -(d + a) <= 2 * (d * j - a * i) <= d + a,
            full == line_fits_from(d as int, a as int, i as int, j as int),
            full == line_fits_from(d as int, a as int, 0, 0),
            d == abs_diff(x0 as int, x1 as int),
            a == abs_diff(y0 as int, y1 as int),
        decreases (d - i) + (a - j),
    {
        proof {
            lemma_line_step(d as int, a as int, i as int, j as int);
            lemma_line_err_bounded(d as int, a as int, i as int, j as int);
        }
        let e2 = 2 * err;
        let sx = e2 >= -a;
        let sy = e2 <= d;
        let after_x = if sx { err - a } else { err };
        let fits = i32::MIN as i64 <= e2 && e2 <= i32::MAX as i64 && i32::MIN as i64 <= after_x
            && after_x <= i32::MAX as i64 && (!sy || (i32::MIN as i64 <= after_x + d && after_x + d
            <= i32::MAX as i64));
        assert(fits == line_step_fits(d as int, a as int, i as int, j as int));
        if !fits {
            return false;
        }
        let ghost (i0, j0) = (i as int, j as int);
        err = after_x;
        if sx {
            i = i + 1;
        }
        if sy {
            err = err + d;
            j = j + 1;
        }
        assert(err == line_err(d as int, a as int, i as int, j as int)) by (nonlinear_arith)
            requires
                i == i0 || i == i0 + 1,
                j == j0 || j == j0 + 1,
                err == line_err(d as int, a as int, i0, j0) + (if i == i0 + 1 { -a } else { 0 }) + (
                if j == j0 + 1 {
                    d
                } else {
                    0
                }),
        ;
    }
    true
}

/// Direction of travel from `a` to `b` along one axis, as Bresenham picks it.
pub open spec fn step_dir(a: int, b: int) -> int {
    if a < b { 1 } else { -1 }
}

pub open spec fn abs_diff(a: int, b: int) -> int {
    if a <= b { b - a } else { a - b }
}

/// The pixels of the line from (x0, y0) to (x1, y1), in drawing order.
pub open spec fn line_points(x0: int, y0: int, x1: int, y1: int) -> Seq<(int, int)> {
    line_tail(
        x0,
        y0,
        step_dir(x0, x1),
        step_dir(y0, y1),
        abs_diff(x0, x1),
        abs_diff(y0, y1),
        0,
        0,
    )
}

/// A line starts at its first end point, finishes at the other, has one
/// pixel per column of a flat line (per row of a steep one), and every pixel
/// touches the previous one, stepping towards the far end.
pub proof fn law_line_shape(x0: int, y0: int, x1: int, y1: int)
    ensures
        ({
            let pts = line_points(x0, y0, x1, y1);
            let d = abs_diff(x0, x1);
            let a = abs_diff(y0, y1);
            &&& pts.len() == (if d >= a { d + 1 } else { a + 1 })
            &&& pts[0] == (x0, y0)
            &&& pts[pts.len() - 1] == (x1, y1)
            &&& forall|k: int|
                0 <= k < pts.len() - 1 ==> {
                    let p = #[trigger] pts[k];
                    let q = pts[k + 1];
                    &&& (q.0 == p.0 || q.0 == p.0 + step_dir(x0, x1))
                    &&& (q.1 == p.1 || q.1 == p.1 + step_dir(y0, y1))
                    &&& q != p
                }
        }),
{
    let d = abs_diff(x0, x1);
    let a = abs_diff(y0, y1);
    let sx = step_dir(x0, x1);
    let sy = step_dir(y0, y1);
    assert(d * 0 - a * 0 == 0) by (nonlinear_arith);
    lemma_line_tail_shape(x0, y0, sx, sy, d, a, 0, 0);
    assert(sx * 0 == 0 && sy * 0 == 0) by (nonlinear_arith);
    assert(x0 + sx * d == x1) by (nonlinear_arith)
        requires
            sx == (if x0 < x1 { 1int } else { -1int }),
            d == (if x0 <= x1 { x1 - x0 } else { x0 - x1 }),
    ;
    assert(y0 + sy * a == y1) by (nonlinear_arith)
        requires
            sy == (if y0 < y1 { 1int } else { -1int }),
            a == (if y0 <= y1 { y1 - y0 } else { y0 - y1 }),
    ;
}

// ── Circles ──────────────────────────────────────────────────────────────────

/// The eight points symmetric to (cx + x, cy + y) about the centre, in the
/// order the midpoint algorithm paints them.
pub open spec fn octant_points(cx: int, cy: int, x: int, y: int) -> Seq<(int, int)> {
    seq![
        (cx + x, cy + y),
        (cx - x, cy + y),
        (cx + x, cy - y),
        (cx - x, cy - y),
        (cx + y, cy + x),
        (cx - y, cy + x),
        (cx + y, cy - x),
        (cx - y, cy - x),
    ]
}

/// The next (x, y, err) state of the midpoint circle algorithm.
pub open spec fn circle_next(x: int, y: int, err: int) -> (int, int, int) {
    let ny = y + 1;
    let e1 = err + 2 * ny - 1;
    if 2 * e1 + 1 - 2 * x > 0 {
        (x - 1, ny, e1 + 1 - 2 * (x - 1))
    } else {
        (x, ny, e1)
    }
}

/// The points the midpoint circle algorithm paints from state (x, y, err)
/// on, around centre (cx, cy).
pub open spec fn circle_tail(cx: int, cy: int, x: int, y: int, err: int) -> Seq<(int, int)>
    decreases x - y + 2,
{
    if x < y {
        Seq::empty()
    } else {
        let n = circle_next(x, y, err);
        octant_points(cx, cy, x, y) + circle_tail(cx, cy, n.0, n.1, n.2)
    }
}

/// The points of the circle outline of radius `r` around (cx, cy), in
/// drawing order.
pub open spec fn circle_points(cx: int, cy: int, r: int) -> Seq<(int, int)> {
    circle_tail(cx, cy, r, 0, 0)
}

/// Mirror images of a point about a centre: across the vertical axis,
/// across the horizontal axis, and across the diagonal.
pub open spec fn mirror_x(cx: int, p: (int, int)) -> (int, int) {
    (2 * cx - p.0, p.1)
}

pub open spec fn mirror_y(cy: int, p: (int, int)) -> (int, int) {
    (p.0, 2 * cy - p.1)
}

pub open spec fn mirror_diagonal(cx: int, cy: int, p: (int, int)) -> (int, int) {
    (cx + (p.1 - cy), cy + (p.0 - cx))
}

proof fn lemma_concat_contains<A>(s1: Seq<A>, s2: Seq<A>, p: A)
    ensures
        (s1 + s2).contains(p) <==> s1.contains(p) || s2.contains(p),
{
    if (s1 + s2).contains(p) {
        let k = choose|k: int| 0 <= k < (s1 + s2).len() && (s1 + s2)[k] == p;
        if k < s1.len() {
            assert(s1[k] == p);
        } else {
            assert(s2[k - s1.len()] == p);
        }
    }
    if s1.contains(p) {
        let k = choose|k: int| 0 <= k < s1.len() && s1[k] == p;
        assert((s1 + s2)[k] == p);
    }
    if s2.contains(p) {
        let k = choose|k: int| 0 <= k < s2.len() && s2[k] == p;
        assert((s1 + s2)[k + s1.len()] == p);
    }
}

proof fn lemma_circle_tail_point_symmetric(cx: int, cy: int, x: int, y: int, err: int, k: int)
    requires
        0 <= k < circle_tail(cx, cy, x, y, err).len(),
    ensures
        ({
            let t = circle_tail(cx, cy, x, y, err);
            &&& t.contains(mirror_x(cx, t[k]))
            &&& t.contains(mirror_y(cy, t[k]))
            &&& t.contains(mirror_diagonal(cx, cy, t[k]))
        }),
    decreases x - y + 2,
{
    let t = circle_tail(cx, cy, x, y, err);
    let n = circle_next(x, y, err);
    let oct = octant_points(cx, cy, x, y);
    let rest = circle_tail(cx, cy, n.0, n.1, n.2);
    assert(t == oct + rest);
    let p = t[k];
    if k < 8 {
        let (a, b, c) = if k == 0 {
            (1int, 2int, 4int)
        } else if k == 1 {
            (0, 3, 6)
        } else if k == 2 {
            (3, 0, 5)
        } else if k == 3 {
            (2, 1, 7)
        } else if k == 4 {
            (5, 6, 0)
        } else if k == 5 {
            (4, 7, 2)
        } else if k == 6 {
            (7, 4, 1)
        } else {
            (6, 5, 3)
        };
        assert(t[k] == oct[k] && t[a] == oct[a] && t[b] == oct[b] && t[c] == oct[c]);
        assert(t[a] == mirror_x(cx, p));
        assert(t[b] == mirror_y(cy, p));
        assert(t[c] == mirror_diagonal(cx, cy, p));
    } else {
        assert(rest[k - 8] == p);
        lemma_circle_tail_point_symmetric(cx, cy, n.0, n.1, n.2, k - 8);
        lemma_concat_contains(oct, rest, mirror_x(cx, p));
        lemma_concat_contains(oct, rest, mirror_y(cy, p));
        lemma_concat_contains(oct, rest, mirror_diagonal(cx, cy, p));
    }
}

/// A circle outline is symmetric: with every point it also holds its mirror
/// images across the vertical, horizontal and diagonal lines through the
/// centre (so all eight octants match).
pub proof fn law_circle_symmetric(cx: int, cy: int, r: int)
    ensures
        ({
            let pts = circle_points(cx, cy, r);
            forall|k: int|
                0 <= k < pts.len() ==> {
                    &&& lists_point(pts, mirror_x(cx, #[trigger] pts[k]))
                    &&& lists_point(pts, mirror_y(cy, pts[k]))
                    &&& lists_point(pts, mirror_diagonal(cx, cy, pts[k]))
                }
        }),
{
    let pts = circle_points(cx, cy, r);
    assert forall|k: int| 0 <= k < pts.len() implies {
        &&& lists_point(pts, mirror_x(cx, #[trigger] pts[k]))
        &&& lists_point(pts, mirror_y(cy, pts[k]))
        &&& lists_point(pts, mirror_diagonal(cx, cy, pts[k]))
    } by {
        reveal(lists_point);
        lemma_circle_tail_point_symmetric(cx, cy, r, 0, 0, k);
    }
}

/// The i32 arithmetic of one round of the midpoint circle algorithm from
/// state (x, y, err) stays in range: the eight painted coordinates, the
/// update of y and of the error, the decision value, and the step of x.
pub open spec fn circle_step_fits(cx: int, cy: int, x: int, y: int, err: int) -> bool {
    let ny = y + 1;
    let e1 = err + (2 * ny - 1);
    let t = 2 * e1 + 1 - 2 * x;
    &&& fits_i32(cx + x) && fits_i32(cx - x) && fits_i32(cy + y) && fits_i32(cy - y)
    &&& fits_i32(cx + y) && fits_i32(cx - y) && fits_i32(cy + x) && fits_i32(cy - x)
    &&& fits_i32(ny) && fits_i32(2 * ny) && fits_i32(2 * ny - 1) && fits_i32(e1)
    &&& fits_i32(2 * e1) && fits_i32(2 * e1 + 1) && fits_i32(2 * x) && fits_i32(t)
    &&& (t > 0 ==> fits_i32(x - 1) && fits_i32(2 * (x - 1)) && fits_i32(1 - 2 * (x - 1))
        && fits_i32(e1 + (1 - 2 * (x - 1))))
}

/// Every remaining round of the midpoint circle algorithm from (x, y, err)
/// stays in i32.
pub open spec fn circle_fits_from(cx: int, cy: int, x: int, y: int, err: int) -> bool
    decreases x - y + 2,
{
    if x < y {
        true
    } else {
        let n = circle_next(x, y, err);
        circle_step_fits(cx, cy, x, y, err) && circle_fits_from(cx, cy, n.0, n.1, n.2)
    }
}

/// The midpoint algorithm's i32 arithmetic for the circle of radius `r`
/// around (cx, cy) never overflows. These are exactly the circles
/// `Canvas::stroke_circle` can draw.
pub open spec fn circle_fits_i32(cx: int, cy: int, r: int) -> bool {
    circle_fits_from(cx, cy, r, 0, 0)
}

/// The bounds the midpoint algorithm keeps on its state while it draws the
/// circle of radius `r`: the error term equals x² + y² - r² + 2 (r - x) and
/// stays between -x and x + 5y.
pub open spec fn circle_state_ok(r: int, x: int, y: int, err: int) -> bool {
    &&& 0 <= y
    &&& x <= r
    &&& y <= x + 2
    &&& -x <= err <= x + 5 * y
    &&& err == x * x + y * y - r * r + 2 * (r - x)
}

proof fn lemma_circle_state_next(r: int, x: int, y: int, err: int)
    requires
        circle_state_ok(r, x, y, err),
        x >= y,
    ensures
        ({
            let n = circle_next(x, y, err);
            circle_state_ok(r, n.0, n.1, n.2)
        }),
{
    let ny = y + 1;
    let e1 = err + 2 * ny - 1;
    assert(e1 == x * x + ny * ny - r * r + 2 * (r - x)) by (nonlinear_arith)
        requires
            err == x * x + y * y - r * r + 2 * (r - x),
            e1 == err + 2 * ny - 1,
            ny == y + 1,
    ;
    assert(e1 + 1 - 2 * (x - 1) == (x - 1) * (x - 1) + ny * ny - r * r + 2 * (r - (x - 1))) by (nonlinear_arith)
        requires
            e1 == x * x + ny * ny - r * r + 2 * (r - x),
    ;
}

proof fn lemma_circle_fits_small(cx: int, cy: int, r: int, x: int, y: int, err: int)
    requires
        circle_state_ok(r, x, y, err),
        r <= 0x7FF_FFFF,
        x >= y ==> fits_i32(cx - r) && fits_i32(cx + r) && fits_i32(cy - r) && fits_i32(cy + r),
    ensures
        circle_fits_from(cx, cy, x, y, err),
    decreases x - y + 2,
{
    if x >= y {
        let n = circle_next(x, y, err);
        lemma_circle_state_next(r, x, y, err);
        lemma_circle_fits_small(cx, cy, r, n.0, n.1, n.2);
    }
}

/// A circle whose radius is below 2^27 and whose bounding box lies within
/// i32 can always be drawn.
pub proof fn law_circle_fits_small(cx: int, cy: int, r: int)
    requires
        r <= 0x7FF_FFFF,
        r >= 0 ==> fits_i32(cx - r) && fits_i32(cx + r) && fits_i32(cy - r) && fits_i32(cy + r),
    ensures
        circle_fits_i32(cx, cy, r),
{
    if r >= 0 {
        assert(r * r - r * r == 0) by (nonlinear_arith);
        lemma_circle_fits_small(cx, cy, r, r, 0, 0);
    }
}

/// Point `p` lies within a pixel or so of the circle of radius `r` around
/// (cx, cy): its squared distance from the centre is between r² - 2r and
/// r² + 6r, and it lies in the circle's bounding box.
pub open spec fn near_radius(cx: int, cy: int, r: int, p: (int, int)) -> bool {
    let dx = p.0 - cx;
    let dy = p.1 - cy;
    &&& r * r - 2 * r <= dx * dx + dy * dy <= r * r + 6 * r
    &&& -r <= dx <= r
    &&& -r <= dy <= r
}

proof fn lemma_circle_tail_near(cx: int, cy: int, r: int, x: int, y: int, err: int)
    requires
        circle_state_ok(r, x, y, err),
    ensures
        ({
            let t = circle_tail(cx, cy, x, y, err);
            forall|k: int| 0 <= k < t.len() ==> near_radius(cx, cy, r, #[trigger] t[k])
        }),
    decreases x - y + 2,
{
    let t = circle_tail(cx, cy, x, y, err);
    if x >= y {
        let n = circle_next(x, y, err);
        let oct = octant_points(cx, cy, x, y);
        let rest = circle_tail(cx, cy, n.0, n.1, n.2);
        lemma_circle_state_next(r, x, y, err);
        lemma_circle_tail_near(cx, cy, r, n.0, n.1, n.2);
        assert(t == oct + rest);
        let s = x * x + y * y;
        assert(r * r - 2 * r <= s <= r * r + 6 * r) by (nonlinear_arith)
            requires
                0 <= y <= x <= r,
                -x <= err <= x + 5 * y,
                err == x * x + y * y - r * r + 2 * (r - x),
                s == x * x + y * y,
        ;
        assert((-x) * (-x) == x * x && (-y) * (-y) == y * y) by (nonlinear_arith);
        assert(y * y + x * x == s && (-y) * (-y) + x * x == s);
        assert forall|k: int| 0 <= k < t.len() implies near_radius(cx, cy, r, #[trigger] t[k]) by {
            if k < 8 {
                assert(t[k] == oct[k]);
            } else {
                assert(t[k] == rest[k - 8]);
            }
        }
    }
}

/// Every point of a circle outline lies within a pixel or so of the
/// radius: its squared distance from the centre is between r² - 2r and
/// r² + 6r, and it lies in the circle's bounding box.
pub proof fn law_circle_near_radius(cx: int, cy: int, r: int)
    ensures
        ({
            let pts = circle_points(cx, cy, r);
            forall|k: int| 0 <= k < pts.len() ==> near_radius(cx, cy, r, #[trigger] pts[k])
        }),
{
    if r >= 0 {
        assert(r * r - r * r == 0) by (nonlinear_arith);
        lemma_circle_tail_near(cx, cy, r, r, 0, 0);
    } else {
        assert(circle_points(cx, cy, r) =~= Seq::<(int, int)>::empty());
    }
}

/// The state (x, y, err) of the midpoint circle recurrence `n` rounds after
/// state (x, y, err): each round raises y by one, adds 2y - 1 to the
/// error, and steps x in by one (adding 1 - 2x to the error) when
/// 2 err + 1 - 2x is positive.
pub open spec fn midpoint_after(x: int, y: int, err: int, n: nat) -> (int, int, int)
    decreases n,
{
    if n == 0 {
        (x, y, err)
    } else {
        let ny = y + 1;
        let e = err + 2 * ny - 1;
        if 2 * e + 1 - 2 * x > 0 {
            midpoint_after(x - 1, ny, e + 1 - 2 * (x - 1), (n - 1) as nat)
        } else {
            midpoint_after(x, ny, e, (n - 1) as nat)
        }
    }
}

proof fn lemma_midpoint_gap_shrinks(x: int, y: int, err: int, n: nat)
    ensures
        midpoint_after(x, y, err, n).0 - midpoint_after(x, y, err, n).1 <= x - y - n,
    decreases n,
{
    if n > 0 {
        let ny = y + 1;
        let e = err + 2 * ny - 1;
        if 2 * e + 1 - 2 * x > 0 {
            lemma_midpoint_gap_shrinks(x - 1, ny, e + 1 - 2 * (x - 1), (n - 1) as nat);
        } else {
            lemma_midpoint_gap_shrinks(x, ny, e, (n - 1) as nat);
        }
    }
}

proof fn lemma_tail_holds_later_states(cx: int, cy: int, x: int, y: int, err: int, n: nat)
    requires
        midpoint_after(x, y, err, n).0 >= midpoint_after(x, y, err, n).1,
    ensures
        ({
            let s = midpoint_after(x, y, err, n);
            let t = circle_tail(cx, cy, x, y, err);
            &&& t.contains((cx + s.0, cy + s.1))
            &&& t.contains((cx - s.0, cy + s.1))
            &&& t.contains((cx + s.0, cy - s.1))
            &&& t.contains((cx - s.0, cy - s.1))
            &&& t.contains((cx + s.1, cy + s.0))
            &&& t.contains((cx - s.1, cy + s.0))
            &&& t.contains((cx + s.1, cy - s.0))
            &&& t.contains((cx - s.1, cy - s.0))
        }),
    decreases n,
{
    lemma_midpoint_gap_shrinks(x, y, err, n);
    let t = circle_tail(cx, cy, x, y, err);
    let nx = circle_next(x, y, err);
    let oct = octant_points(cx, cy, x, y);
    let rest = circle_tail(cx, cy, nx.0, nx.1, nx.2);
    assert(t == oct + rest);
    let s = midpoint_after(x, y, err, n);
    let imgs = seq![
        (cx + s.0, cy + s.1),
        (cx - s.0, cy + s.1),
        (cx + s.0, cy - s.1),
        (cx - s.0, cy - s.1),
        (cx + s.1, cy + s.0),
        (cx - s.1, cy + s.0),
        (cx + s.1, cy - s.0),
        (cx - s.1, cy - s.0),
    ];
    if n == 0 {
        assert forall|i: int| 0 <= i < 8 implies t.contains(#[trigger] imgs[i]) by {
            assert(t[i] == oct[i]);
        }
    } else {
        assert(midpoint_after(x, y, err, n) == midpoint_after(nx.0, nx.1, nx.2, (n - 1) as nat));
        lemma_tail_holds_later_states(cx, cy, nx.0, nx.1, nx.2, (n - 1) as nat);
        assert forall|i: int| 0 <= i < 8 implies t.contains(#[trigger] imgs[i]) by {
            lemma_concat_contains(oct, rest, imgs[i]);
        }
    }
    assert(t.contains(imgs[0]) && t.contains(imgs[1]) && t.contains(imgs[2]) && t.contains(imgs[3]));
    assert(t.contains(imgs[4]) && t.contains(imgs[5]) && t.contains(imgs[6]) && t.contains(imgs[7]));
}

/// The outline has no gaps: every state (x, y) that the midpoint
/// recurrence reaches from (r, 0, 0) while x >= y, the 45-degree state
/// where x meets y included, is drawn in all eight octants.
pub proof fn law_circle_every_state_drawn(cx: int, cy: int, r: int, n: nat)
    requires
        midpoint_after(r, 0, 0, n).0 >= midpoint_after(r, 0, 0, n).1,
    ensures
        ({
            let s = midpoint_after(r, 0, 0, n);
            let pts = circle_points(cx, cy, r);
            &&& pts.contains((cx + s.0, cy + s.1))
            &&& pts.contains((cx - s.0, cy + s.1))
            &&& pts.contains((cx + s.0, cy - s.1))
            &&& pts.contains((cx - s.0, cy - s.1))
            &&& pts.contains((cx + s.1, cy + s.0))
            &&& pts.contains((cx - s.1, cy + s.0))
            &&& pts.contains((cx + s.1, cy - s.0))
            &&& pts.contains((cx - s.1, cy - s.0))
        }),
{
    lemma_tail_holds_later_states(cx, cy, r, 0, 0, n);
}

/// Point `p` is one of the eight mirror images of (cx + x, cy + y) about
/// the centre (cx, cy).
pub open spec fn octant_image(cx: int, cy: int, x: int, y: int, p: (int, int)) -> bool {
    ||| p == (cx + x, cy + y)
    ||| p == (cx - x, cy + y)
    ||| p == (cx + x, cy - y)
    ||| p == (cx - x, cy - y)
    ||| p == (cx + y, cy + x)
    ||| p == (cx - y, cy + x)
    ||| p == (cx + y, cy - x)
    ||| p == (cx - y, cy - x)
}

proof fn lemma_tail_point_from_state(cx: int, cy: int, x: int, y: int, err: int, k: int) -> (n: nat)
    requires
        0 <= k < circle_tail(cx, cy, x, y, err).len(),
    ensures
        ({
            let s = midpoint_after(x, y, err, n);
            &&& s.0 >= s.1
            &&& octant_image(cx, cy, s.0, s.1, circle_tail(cx, cy, x, y, err)[k])
        }),
    decreases x - y + 2,
{
    let t = circle_tail(cx, cy, x, y, err);
    let nx = circle_next(x, y, err);
    let oct = octant_points(cx, cy, x, y);
    let rest = circle_tail(cx, cy, nx.0, nx.1, nx.2);
    assert(t == oct + rest);
    if k < 8 {
        assert(t[k] == oct[k]);
        0
    } else {
        assert(t[k] == rest[k - 8]);
        let m = lemma_tail_point_from_state(cx, cy, nx.0, nx.1, nx.2, k - 8);
        assert(midpoint_after(x, y, err, m + 1) == midpoint_after(nx.0, nx.1, nx.2, m));
        m + 1
    }
}

/// The outline holds nothing else: every drawn point is a mirror image of
/// a state (x, y) with x >= y that the midpoint recurrence reaches from
/// (r, 0, 0).
pub proof fn law_circle_only_reached_states(cx: int, cy: int, r: int, k: int)
    requires
        0 <= k < circle_points(cx, cy, r).len(),
    ensures
        exists|n: nat|
            {
                let s = #[trigger] midpoint_after(r, 0, 0, n);
                &&& s.0 >= s.1
                &&& octant_image(cx, cy, s.0, s.1, circle_points(cx, cy, r)[k])
            },
{
    let n = lemma_tail_point_from_state(cx, cy, r, 0, 0, k);
    assert(midpoint_after(r, 0, 0, n).0 >= midpoint_after(r, 0, 0, n).1);
}

/// Some point of `pts` lies in row `y`.
#[verifier::opaque]
pub open spec fn row_listed(pts: Seq<(int, int)>, y: int) -> bool {
    exists|k: int| 0 <= k < pts.len() && pts[k].1 == y
}

/// Some point of `pts` lies in column `x`.
#[verifier::opaque]
pub open spec fn column_listed(pts: Seq<(int, int)>, x: int) -> bool {
    exists|k: int| 0 <= k < pts.len() && pts[k].0 == x
}

proof fn lemma_listed_in_concat(s1: Seq<(int, int)>, s2: Seq<(int, int)>, v: int)
    ensures
        row_listed(s1, v) || row_listed(s2, v) ==> row_listed(s1 + s2, v),
        column_listed(s1, v) || column_listed(s2, v) ==> column_listed(s1 + s2, v),
{
    reveal(row_listed);
    reveal(column_listed);
    let t = s1 + s2;
    if row_listed(s1, v) {
        let k = choose|k: int| 0 <= k < s1.len() && s1[k].1 == v;
        assert(t[k] == s1[k]);
    } else if row_listed(s2, v) {
        let k = choose|k: int| 0 <= k < s2.len() && s2[k].1 == v;
        assert(t[k + s1.len()] == s2[k]);
    }
    if column_listed(s1, v) {
        let k = choose|k: int| 0 <= k < s1.len() && s1[k].0 == v;
        assert(t[k] == s1[k]);
    } else if column_listed(s2, v) {
        let k = choose|k: int| 0 <= k < s2.len() && s2[k].0 == v;
        assert(t[k + s1.len()] == s2[k]);
    }
}

proof fn lemma_tail_rows(cx: int, cy: int, x: int, y: int, err: int, v: int)
    requires
        y <= v <= x,
    ensures
        ({
            let t = circle_tail(cx, cy, x, y, err);
            &&& row_listed(t, cy + v)
            &&& row_listed(t, cy - v)
            &&& column_listed(t, cx + v)
            &&& column_listed(t, cx - v)
        }),
    decreases x - y + 2,
{
    let t = circle_tail(cx, cy, x, y, err);
    let nx = circle_next(x, y, err);
    let oct = octant_points(cx, cy, x, y);
    let rest = circle_tail(cx, cy, nx.0, nx.1, nx.2);
    assert(t == oct + rest);
    if v == y || v == x {
        reveal(row_listed);
        reveal(column_listed);
        assert(oct[0] == (cx + x, cy + y) && oct[1] == (cx - x, cy + y));
        assert(oct[2] == (cx + x, cy - y) && oct[4] == (cx + y, cy + x));
        assert(oct[5] == (cx - y, cy + x) && oct[6] == (cx + y, cy - x));
        lemma_listed_in_concat(oct, rest, cy + v);
        lemma_listed_in_concat(oct, rest, cy - v);
        lemma_listed_in_concat(oct, rest, cx + v);
        lemma_listed_in_concat(oct, rest, cx - v);
    } else {
        lemma_tail_rows(cx, cy, nx.0, nx.1, nx.2, v);
        lemma_listed_in_concat(oct, rest, cy + v);
        lemma_listed_in_concat(oct, rest, cy - v);
        lemma_listed_in_concat(oct, rest, cx + v);
        lemma_listed_in_concat(oct, rest, cx - v);
    }
}

/// The outline crosses every row and every column of its bounding box: for
/// each offset v from -r to r there is a drawn point in row cy + v and one
/// in column cx + v.
pub proof fn law_circle_fills_every_row_and_column(cx: int, cy: int, r: int, v: int)
    requires
        -r <= v <= r,
    ensures
        row_listed(circle_points(cx, cy, r), cy + v),
        column_listed(circle_points(cx, cy, r), cx + v),
{
    if v >= 0 {
        lemma_tail_rows(cx, cy, r, 0, 0, v);
    } else {
        lemma_tail_rows(cx, cy, r, 0, 0, -v);
    }
}

/// `pts` lists point `p` (kept opaque so that facts about many points do
/// not unfold into one another).
#[verifier::opaque]
pub open spec fn lists_point(pts: Seq<(int, int)>, p: (int, int)) -> bool {
    pts.contains(p)
}

// ── Bitmap font ──────────────────────────────────────────────────────────────

/// The built-in 6×8 font: eight rows per character, the six low bits of
/// each row byte are its columns, most significant bit leftmost. Letters
/// share one glyph per case; anything unknown is blank.
pub open spec fn glyph(ch: char) -> Seq<u8> {
    match ch {
        ' ' => seq![0u8, 0u8, 0u8, 0u8, 0u8, 0u8, 0u8, 0u8],
        '!' => seq![0o10u8, 0o10u8, 0o10u8, 0o10u8, 0o10u8, 0u8, 0o10u8, 0u8],
        '"' => seq![0o24u8, 0o24u8, 0u8, 0u8, 0u8, 0u8, 0u8, 0u8],
        '-' => seq![0u8, 0u8, 0u8, 0o76u8, 0u8, 0u8, 0u8, 0u8],
        '.' => seq![0u8, 0u8, 0u8, 0u8, 0u8, 0u8, 0o10u8, 0u8],
        ',' => seq![0u8, 0u8, 0u8, 0u8, 0u8, 0o10u8, 0o10u8, 0o20u8],
        '/' => seq![0o02u8, 0o04u8, 0o10u8, 0o20u8, 0o40u8, 0u8, 0u8, 0u8],
        '+' => seq![0u8, 0o10u8, 0o10u8, 0o76u8, 0o10u8, 0o10u8, 0u8, 0u8],
        '=' => seq![0u8, 0u8, 0o76u8, 0u8, 0o76u8, 0u8, 0u8, 0u8],
        ':' => seq![0u8, 0o10u8, 0o10u8, 0u8, 0o10u8, 0o10u8, 0u8, 0u8],
        '0' => seq![0o34u8, 0o42u8, 0o46u8, 0o52u8, 0o62u8, 0o42u8, 0o34u8, 0u8],
        '1' => seq![0o10u8, 0o30u8, 0o10u8, 0o10u8, 0o10u8, 0o10u8, 0o34u8, 0u8],
        '2' => seq![0o34u8, 0o42u8, 0o02u8, 0o04u8, 0o10u8, 0o20u8, 0o76u8, 0u8],
        '3' => seq![0o76u8, 0o04u8, 0o10u8, 0o04u8, 0o02u8, 0o42u8, 0o34u8, 0u8],
        '4' => seq![0o04u8, 0o14u8, 0o24u8, 0o44u8, 0o76u8, 0o04u8, 0o04u8, 0u8],
        '5' => seq![0o76u8, 0o40u8, 0o74u8, 0o02u8, 0o02u8, 0o42u8, 0o34u8, 0u8],
        '6' => seq![0o14u8, 0o20u8, 0o40u8, 0o74u8, 0o42u8, 0o42u8, 0o34u8, 0u8],
        '7' => seq![0o76u8, 0o02u8, 0o04u8, 0o10u8, 0o20u8, 0o20u8, 0o20u8, 0u8],
        '8' => seq![0o34u8, 0o42u8, 0o42u8, 0o34u8, 0o42u8, 0o42u8, 0o34u8, 0u8],
        '9' => seq![0o34u8, 0o42u8, 0o42u8, 0o36u8, 0o02u8, 0o04u8, 0o30u8, 0u8],
        'A' | 'a' => seq![0o34u8, 0o42u8, 0o42u8, 0o76u8, 0o42u8, 0o42u8, 0o42u8, 0u8],
        'B' | 'b' => seq![0o74u8, 0o42u8, 0o42u8, 0o74u8, 0o42u8, 0o42u8, 0o74u8, 0u8],
        'C' | 'c' => seq![0o34u8, 0o42u8, 0o40u8, 0o40u8, 0o40u8, 0o42u8, 0o34u8, 0u8],
        'D' | 'd' => seq![0o74u8, 0o42u8, 0o42u8, 0o42u8, 0o42u8, 0o42u8, 0o74u8, 0u8],
        'E' | 'e' => seq![0o76u8, 0o40u8, 0o40u8, 0o74u8, 0o40u8, 0o40u8, 0o76u8, 0u8],
        'F' | 'f' => seq![0o76u8, 0o40u8, 0o40u8, 0o74u8, 0o40u8, 0o40u8, 0o40u8, 0u8],
        'G' | 'g' => seq![0o34u8, 0o42u8, 0o40u8, 0o46u8, 0o42u8, 0o42u8, 0o34u8, 0u8],
        'H' | 'h' => seq![0o42u8, 0o42u8, 0o42u8, 0o76u8, 0o42u8, 0o42u8, 0o42u8, 0u8],
        'I' | 'i' => seq![0o34u8, 0o10u8, 0o10u8, 0o10u8, 0o10u8, 0o10u8, 0o34u8, 0u8],
        'J' | 'j' => seq![0o16u8, 0o02u8, 0o02u8, 0o02u8, 0o02u8, 0o42u8, 0o34u8, 0u8],
        'K' | 'k' => seq![0o42u8, 0o44u8, 0o50u8, 0o60u8, 0o50u8, 0o44u8, 0o42u8, 0u8],
        'L' | 'l' => seq![0o40u8, 0o40u8, 0o40u8, 0o40u8, 0o40u8, 0o40u8, 0o76u8, 0u8],
        'M' | 'm' => seq![0o42u8, 0o66u8, 0o52u8, 0o42u8, 0o42u8, 0o42u8, 0o42u8, 0u8],
        'N' | 'n' => seq![0o42u8, 0o62u8, 0o52u8, 0o46u8, 0o42u8, 0o42u8, 0o42u8, 0u8],
        'O' | 'o' => seq![0o34u8, 0o42u8, 0o42u8, 0o42u8, 0o42u8, 0o42u8, 0o34u8, 0u8],
        'P' | 'p' => seq![0o74u8, 0o42u8, 0o42u8, 0o74u8, 0o40u8, 0o40u8, 0o40u8, 0u8],
        'Q' | 'q' => seq![0o34u8, 0o42u8, 0o42u8, 0o42u8, 0o52u8, 0o44u8, 0o32u8, 0u8],
        'R' | 'r' => seq![0o74u8, 0o42u8, 0o42u8, 0o74u8, 0o50u8, 0o44u8, 0o42u8, 0u8],
        'S' | 's' => seq![0o34u8, 0o42u8, 0o40u8, 0o34u8, 0o02u8, 0o42u8, 0o34u8, 0u8],
        'T' | 't' => seq![0o76u8, 0o10u8, 0o10u8, 0o10u8, 0o10u8, 0o10u8, 0o10u8, 0u8],
        'U' | 'u' => seq![0o42u8, 0o42u8, 0o42u8, 0o42u8, 0o42u8, 0o42u8, 0o34u8, 0u8],
        'V' | 'v' => seq![0o42u8, 0o42u8, 0o42u8, 0o42u8, 0o24u8, 0o10u8, 0u8, 0u8],
        'W' | 'w' => seq![0o42u8, 0o42u8, 0o42u8, 0o52u8, 0o52u8, 0o66u8, 0o42u8, 0u8],
        'X' | 'x' => seq![0o42u8, 0o24u8, 0o10u8, 0o10u8, 0o24u8, 0o42u8, 0u8, 0u8],
        'Y' | 'y' => seq![0o42u8, 0o24u8, 0o10u8, 0o10u8, 0o10u8, 0o10u8, 0o10u8, 0u8],
        'Z' | 'z' => seq![0o76u8, 0o04u8, 0o10u8, 0o20u8, 0o40u8, 0o76u8, 0u8, 0u8],
        _ => seq![0u8, 0u8, 0u8, 0u8, 0u8, 0u8, 0u8, 0u8],
    }
}

/// Column `col` (0 = leftmost) of a glyph row byte is lit.
pub open spec fn glyph_lit(row: u8, col: int) -> bool {
    (row >> ((5 - col) as u8)) & 1u8 == 1u8
}

/// Letters look the same in either case.
pub proof fn law_glyph_ignores_case()
    ensures
        glyph('A') == glyph('a'),
        glyph('B') == glyph('b'),
        glyph('C') == glyph('c'),
        glyph('D') == glyph('d'),
        glyph('E') == glyph('e'),
        glyph('F') == glyph('f'),
        glyph('G') == glyph('g'),
        glyph('H') == glyph('h'),
        glyph('I') == glyph('i'),
        glyph('J') == glyph('j'),
        glyph('K') == glyph('k'),
        glyph('L') == glyph('l'),
        glyph('M') == glyph('m'),
        glyph('N') == glyph('n'),
        glyph('O') == glyph('o'),
        glyph('P') == glyph('p'),
        glyph('Q') == glyph('q'),
        glyph('R') == glyph('r'),
        glyph('S') == glyph('s'),
        glyph('T') == glyph('t'),
        glyph('U') == glyph('u'),
        glyph('V') == glyph('v'),
        glyph('W') == glyph('w'),
        glyph('X') == glyph('x'),
        glyph('Y') == glyph('y'),
        glyph('Z') == glyph('z'),
{
}

/// A glyph's rows packed six bits a row into one number, top row lowest.
spec fn glyph_code(g: Seq<u8>) -> int {
    g[0] as int + 64 * (g[1] as int) + 4096 * (g[2] as int) + 262144 * (g[3] as int) + 16777216 * (
    g[4] as int) + 1073741824 * (g[5] as int) + 68719476736 * (g[6] as int) + 4398046511104 * (
    g[7] as int)
}

/// The character, upper case for letters, whose glyph has code `code`
/// (zero when no glyph has it).
spec fn glyph_owner(code: int) -> int {
    if code == 549892162056 {
        33
    } else if code == 1300 {
        34
    } else if code == 16252928 {
        45
    } else if code == 549755813888 {
        46
    } else if code == 70927089926144 {
        44
    } else if code == 541098242 {
        47
    } else if code == 8740438528 {
        43
    } else if code == 1040441344 {
        61
    } else if code == 8724185600 {
        58
    } else if code == 1961502599324 {
        48
    } else if code == 1932871632392 {
        49
    } else if code == 4277922703516 {
        50
    } else if code == 1960687206718 {
        51
    } else if code == 280222581508 {
        52
    } else if code == 1960686897214 {
        53
    } else if code == 1961238856716 {
        54
    } else if code == 1116962046142 {
        55
    } else if code == 1961230477468 {
        56
    } else if code == 1653603969180 {
        57
    } else if code == 2373556250780 {
        65
    } else if code == 4160262121660 {
        66
    } else if code == 1961197963420 {
        67
    } else if code == 4160255305916 {
        68
    } else if code == 4295520028734 {
        69
    } else if code == 2233935726654 {
        70
    } else if code == 1961233090716 {
        71
    } else if code == 2373556250786 {
        72
    } else if code == 1932871631388 {
        73
    } else if code == 1960686657678 {
        74
    } else if code == 2375800752418 {
        75
    } else if code == 4295512688672 {
        76
    } else if code == 2373548944802 {
        77
    } else if code == 2373549993122 {
        78
    } else if code == 1961232050332 {
        79
    } else if code == 2233935734972 {
        80
    } else if code == 1826074798236 {
        81
    } else if code == 2375803873468 {
        82
    } else if code == 1960693598364 {
        83
    } else if code == 558482096702 {
        84
    } else if code == 1961232050338 {
        85
    } else if code == 8934533282 {
        86
    } else if code == 2395160062114 {
        87
    } else if code == 36844897570 {
        88
    } else if code == 558482097442 {
        89
    } else if code == 67113091390 {
        90
    } else {
        0
    }
}

/// The empty glyph, drawn for a space and for characters the font lacks.
pub open spec fn blank_glyph() -> Seq<u8> {
    seq![0u8, 0u8, 0u8, 0u8, 0u8, 0u8, 0u8, 0u8]
}

/// An ASCII letter, either case.
pub open spec fn is_letter(c: char) -> bool {
    (65 <= c as int <= 90) || (97 <= c as int <= 122)
}

/// The character with lower-case letters raised to upper case.
spec fn case_folded(c: char) -> int {
    if 97 <= c as int <= 122 {
        c as int - 32
    } else {
        c as int
    }
}

#[verifier::rlimit(50)]
proof fn lemma_glyph_owner(ch: char)
    ensures
        glyph(ch) != blank_glyph() ==> glyph_owner(glyph_code(glyph(ch))) == case_folded(ch),
{
    let c = ch as int;
    if c < 48 {
        assert(glyph(ch) != blank_glyph() ==> glyph_owner(glyph_code(glyph(ch))) == case_folded(ch));
    } else if c < 65 {
        assert(glyph(ch) != blank_glyph() ==> glyph_owner(glyph_code(glyph(ch))) == case_folded(ch));
    } else if c < 78 {
        assert(glyph(ch) != blank_glyph() ==> glyph_owner(glyph_code(glyph(ch))) == case_folded(ch));
    } else if c < 97 {
        assert(glyph(ch) != blank_glyph() ==> glyph_owner(glyph_code(glyph(ch))) == case_folded(ch));
    } else if c < 110 {
        assert(glyph(ch) != blank_glyph() ==> glyph_owner(glyph_code(glyph(ch))) == case_folded(ch));
    } else {
        assert(glyph(ch) != blank_glyph() ==> glyph_owner(glyph_code(glyph(ch))) == case_folded(ch));
    }
}

/// No two characters share a visible glyph unless they are the same letter
/// in two cases: every drawn digit, letter and sign can be told apart.
pub proof fn law_glyphs_distinct(a: char, b: char)
    ensures
        glyph(a) != blank_glyph() && glyph(a) == glyph(b) ==> a == b || (is_letter(a) && is_letter(b)
            && (a as int - b as int == 32 || b as int - a as int == 32)),
{
    lemma_glyph_owner(a);
    lemma_glyph_owner(b);
}

/// The digits are drawn with exactly these rows.
pub proof fn law_glyph_digits()
    ensures
        glyph('0') == seq![0o34u8, 0o42u8, 0o46u8, 0o52u8, 0o62u8, 0o42u8, 0o34u8, 0u8],
        glyph('1') == seq![0o10u8, 0o30u8, 0o10u8, 0o10u8, 0o10u8, 0o10u8, 0o34u8, 0u8],
        glyph('2') == seq![0o34u8, 0o42u8, 0o2u8, 0o4u8, 0o10u8, 0o20u8, 0o76u8, 0u8],
        glyph('3') == seq![0o76u8, 0o4u8, 0o10u8, 0o4u8, 0o2u8, 0o42u8, 0o34u8, 0u8],
        glyph('4') == seq![0o4u8, 0o14u8, 0o24u8, 0o44u8, 0o76u8, 0o4u8, 0o4u8, 0u8],
        glyph('5') == seq![0o76u8, 0o40u8, 0o74u8, 0o2u8, 0o2u8, 0o42u8, 0o34u8, 0u8],
        glyph('6') == seq![0o14u8, 0o20u8, 0o40u8, 0o74u8, 0o42u8, 0o42u8, 0o34u8, 0u8],
        glyph('7') == seq![0o76u8, 0o2u8, 0o4u8, 0o10u8, 0o20u8, 0o20u8, 0o20u8, 0u8],
        glyph('8') == seq![0o34u8, 0o42u8, 0o42u8, 0o34u8, 0o42u8, 0o42u8, 0o34u8, 0u8],
        glyph('9') == seq![0o34u8, 0o42u8, 0o42u8, 0o36u8, 0o2u8, 0o4u8, 0o30u8, 0u8],
{
}

/// The letters (upper case; lower case draws the same, law_glyph_ignores_case)
/// and signs are drawn with exactly these rows.
pub proof fn law_glyph_letters_and_signs()
    ensures
        glyph(' ') == seq![0u8, 0u8, 0u8, 0u8, 0u8, 0u8, 0u8, 0u8],
        glyph('!') == seq![0o10u8, 0o10u8, 0o10u8, 0o10u8, 0o10u8, 0u8, 0o10u8, 0u8],
        glyph('\"') == seq![0o24u8, 0o24u8, 0u8, 0u8, 0u8, 0u8, 0u8, 0u8],
        glyph('-') == seq![0u8, 0u8, 0u8, 0o76u8, 0u8, 0u8, 0u8, 0u8],
        glyph('.') == seq![0u8, 0u8, 0u8, 0u8, 0u8, 0u8, 0o10u8, 0u8],
        glyph(',') == seq![0u8, 0u8, 0u8, 0u8, 0u8, 0o10u8, 0o10u8, 0o20u8],
        glyph('/') == seq![0o2u8, 0o4u8, 0o10u8, 0o20u8, 0o40u8, 0u8, 0u8, 0u8],
        glyph('+') == seq![0u8, 0o10u8, 0o10u8, 0o76u8, 0o10u8, 0o10u8, 0u8, 0u8],
        glyph('=') == seq![0u8, 0u8, 0o76u8, 0u8, 0o76u8, 0u8, 0u8, 0u8],
        glyph(':') == seq![0u8, 0o10u8, 0o10u8, 0u8, 0o10u8, 0o10u8, 0u8, 0u8],
        glyph('A') == seq![0o34u8, 0o42u8, 0o42u8, 0o76u8, 0o42u8, 0o42u8, 0o42u8, 0u8],
        glyph('B') == seq![0o74u8, 0o42u8, 0o42u8, 0o74u8, 0o42u8, 0o42u8, 0o74u8, 0u8],
        glyph('C') == seq![0o34u8, 0o42u8, 0o40u8, 0o40u8, 0o40u8, 0o42u8, 0o34u8, 0u8],
        glyph('D') == seq![0o74u8, 0o42u8, 0o42u8, 0o42u8, 0o42u8, 0o42u8, 0o74u8, 0u8],
        glyph('E') == seq![0o76u8, 0o40u8, 0o40u8, 0o74u8, 0o40u8, 0o40u8, 0o76u8, 0u8],
        glyph('F') == seq![0o76u8, 0o40u8, 0o40u8, 0o74u8, 0o40u8, 0o40u8, 0o40u8, 0u8],
        glyph('G') == seq![0o34u8, 0o42u8, 0o40u8, 0o46u8, 0o42u8, 0o42u8, 0o34u8, 0u8],
        glyph('H') == seq![0o42u8, 0o42u8, 0o42u8, 0o76u8, 0o42u8, 0o42u8, 0o42u8, 0u8],
        glyph('I') == seq![0o34u8, 0o10u8, 0o10u8, 0o10u8, 0o10u8, 0o10u8, 0o34u8, 0u8],
        glyph('J') == seq![0o16u8, 0o2u8, 0o2u8, 0o2u8, 0o2u8, 0o42u8, 0o34u8, 0u8],
        glyph('K') == seq![0o42u8, 0o44u8, 0o50u8, 0o60u8, 0o50u8, 0o44u8, 0o42u8, 0u8],
        glyph('L') == seq![0o40u8, 0o40u8, 0o40u8, 0o40u8, 0o40u8, 0o40u8, 0o76u8, 0u8],
        glyph('M') == seq![0o42u8, 0o66u8, 0o52u8, 0o42u8, 0o42u8, 0o42u8, 0o42u8, 0u8],
        glyph('N') == seq![0o42u8, 0o62u8, 0o52u8, 0o46u8, 0o42u8, 0o42u8, 0o42u8, 0u8],
        glyph('O') == seq![0o34u8, 0o42u8, 0o42u8, 0o42u8, 0o42u8, 0o42u8, 0o34u8, 0u8],
        glyph('P') == seq![0o74u8, 0o42u8, 0o42u8, 0o74u8, 0o40u8, 0o40u8, 0o40u8, 0u8],
        glyph('Q') == seq![0o34u8, 0o42u8, 0o42u8, 0o42u8, 0o52u8, 0o44u8, 0o32u8, 0u8],
        glyph('R') == seq![0o74u8, 0o42u8, 0o42u8, 0o74u8, 0o50u8, 0o44u8, 0o42u8, 0u8],
        glyph('S') == seq![0o34u8, 0o42u8, 0o40u8, 0o34u8, 0o2u8, 0o42u8, 0o34u8, 0u8],
        glyph('T') == seq![0o76u8, 0o10u8, 0o10u8, 0o10u8, 0o10u8, 0o10u8, 0o10u8, 0u8],
        glyph('U') == seq![0o42u8, 0o42u8, 0o42u8, 0o42u8, 0o42u8, 0o42u8, 0o34u8, 0u8],
        glyph('V') == seq![0o42u8, 0o42u8, 0o42u8, 0o42u8, 0o24u8, 0o10u8, 0u8, 0u8],
        glyph('W') == seq![0o42u8, 0o42u8, 0o42u8, 0o52u8, 0o52u8, 0o66u8, 0o42u8, 0u8],
        glyph('X') == seq![0o42u8, 0o24u8, 0o10u8, 0o10u8, 0o24u8, 0o42u8, 0u8, 0u8],
        glyph('Y') == seq![0o42u8, 0o24u8, 0o10u8, 0o10u8, 0o10u8, 0o10u8, 0o10u8, 0u8],
        glyph('Z') == seq![0o76u8, 0o4u8, 0o10u8, 0o20u8, 0o40u8, 0o76u8, 0u8, 0u8],
{
}

/// Every glyph is eight rows of six columns: no row byte uses more than its
/// six low bits.
pub proof fn law_glyph_six_columns(ch: char)
    ensures
        glyph(ch).len() == 8,
        forall|row: int| 0 <= row < 8 ==> #[trigger] glyph(ch)[row] < 64,
{
}

/// The eight row bytes of `ch` in the built-in font.
pub fn glyph_for(ch: char) -> (g: [u8; 8])
    ensures
        g@ == glyph(ch),
{
    let g: [u8; 8] = match ch {
        ' ' => [0, 0, 0, 0, 0, 0, 0, 0],
        '!' => [0o10, 0o10, 0o10, 0o10, 0o10, 0, 0o10, 0],
        '"' => [0o24, 0o24, 0, 0, 0, 0, 0, 0],
        '-' => [0, 0, 0, 0o76, 0, 0, 0, 0],
        '.' => [0, 0, 0, 0, 0, 0, 0o10, 0],
        ',' => [0, 0, 0, 0, 0, 0o10, 0o10, 0o20],
        '/' => [0o02, 0o04, 0o10, 0o20, 0o40, 0, 0, 0],
        '+' => [0, 0o10, 0o10, 0o76, 0o10, 0o10, 0, 0],
        '=' => [0, 0, 0o76, 0, 0o76, 0, 0, 0],
        ':' => [0, 0o10, 0o10, 0, 0o10, 0o10, 0, 0],
        '0' => [0o34, 0o42, 0o46, 0o52, 0o62, 0o42, 0o34, 0],
        '1' => [0o10, 0o30, 0o10, 0o10, 0o10, 0o10, 0o34, 0],
        '2' => [0o34, 0o42, 0o02, 0o04, 0o10, 0o20, 0o76, 0],
        '3' => [0o76, 0o04, 0o10, 0o04, 0o02, 0o42, 0o34, 0],
        '4' => [0o04, 0o14, 0o24, 0o44, 0o76, 0o04, 0o04, 0],
        '5' => [0o76, 0o40, 0o74, 0o02, 0o02, 0o42, 0o34, 0],
        '6' => [0o14, 0o20, 0o40, 0o74, 0o42, 0o42, 0o34, 0],
        '7' => [0o76, 0o02, 0o04, 0o10, 0o20, 0o20, 0o20, 0],
        '8' => [0o34, 0o42, 0o42, 0o34, 0o42, 0o42, 0o34, 0],
        '9' => [0o34, 0o42, 0o42, 0o36, 0o02, 0o04, 0o30, 0],
        'A' | 'a' => [0o34, 0o42, 0o42, 0o76, 0o42, 0o42, 0o42, 0],
        'B' | 'b' => [0o74, 0o42, 0o42, 0o74, 0o42, 0o42, 0o74, 0],
        'C' | 'c' => [0o34, 0o42, 0o40, 0o40, 0o40, 0o42, 0o34, 0],
        'D' | 'd' => [0o74, 0o42, 0o42, 0o42, 0o42, 0o42, 0o74, 0],
        'E' | 'e' => [0o76, 0o40, 0o40, 0o74, 0o40, 0o40, 0o76, 0],
        'F' | 'f' => [0o76, 0o40, 0o40, 0o74, 0o40, 0o40, 0o40, 0],
        'G' | 'g' => [0o34, 0o42, 0o40, 0o46, 0o42, 0o42, 0o34, 0],
        'H' | 'h' => [0o42, 0o42, 0o42, 0o76, 0o42, 0o42, 0o42, 0],
        'I' | 'i' => [0o34, 0o10, 0o10, 0o10, 0o10, 0o10, 0o34, 0],
        'J' | 'j' => [0o16, 0o02, 0o02, 0o02, 0o02, 0o42, 0o34, 0],
        'K' | 'k' => [0o42, 0o44, 0o50, 0o60, 0o50, 0o44, 0o42, 0],
        'L' | 'l' => [0o40, 0o40, 0o40, 0o40, 0o40, 0o40, 0o76, 0],
        'M' | 'm' => [0o42, 0o66, 0o52, 0o42, 0o42, 0o42, 0o42, 0],
        'N' | 'n' => [0o42, 0o62, 0o52, 0o46, 0o42, 0o42, 0o42, 0],
        'O' | 'o' => [0o34, 0o42, 0o42, 0o42, 0o42, 0o42, 0o34, 0],
        'P' | 'p' => [0o74, 0o42, 0o42, 0o74, 0o40, 0o40, 0o40, 0],
        'Q' | 'q' => [0o34, 0o42, 0o42, 0o42, 0o52, 0o44, 0o32, 0],
        'R' | 'r' => [0o74, 0o42, 0o42, 0o74, 0o50, 0o44, 0o42, 0],
        'S' | 's' => [0o34, 0o42, 0o40, 0o34, 0o02, 0o42, 0o34, 0],
        'T' | 't' => [0o76, 0o10, 0o10, 0o10, 0o10, 0o10, 0o10, 0],
        'U' | 'u' => [0o42, 0o42, 0o42, 0o42, 0o42, 0o42, 0o34, 0],
        'V' | 'v' => [0o42, 0o42, 0o42, 0o42, 0o24, 0o10, 0, 0],
        'W' | 'w' => [0o42, 0o42, 0o42, 0o52, 0o52, 0o66, 0o42, 0],
        'X' | 'x' => [0o42, 0o24, 0o10, 0o10, 0o24, 0o42, 0, 0],
        'Y' | 'y' => [0o42, 0o24, 0o10, 0o10, 0o10, 0o10, 0o10, 0],
        'Z' | 'z' => [0o76, 0o04, 0o10, 0o20, 0o40, 0o76, 0, 0],
        _ => [0; 8],
    };
    assert(g@ =~= glyph(ch));
    g
}

/// Whether pixel (col, row) of `ch` is lit in the built-in font.
pub fn glyph_pixel(ch: char, row: usize, col: usize) -> (lit: bool)
    requires
        row < 8,
        col < 6,
    ensures
        lit == glyph_lit(glyph(ch)[row as int], col as int),
{
    let g = glyph_for(ch);
    let bits = g[row];
    let shift = 5 - col as u8;
    (bits >> shift) & 1u8 == 1u8
}

// ── Texture ──────────────────────────────────────────────────────────────────

/// An RGBA image, stored row-major, that can be drawn onto the canvas.
#[derive(Debug, Clone)]
pub struct Texture {
    pub width: usize,
    pub height: usize,
    pixels: Vec<Color>,
}

impl Texture {
    /// The pixels, row after row.
    pub closed spec fn pixels(&self) -> Seq<Color> {
        self.pixels@
    }

    /// Width in pixels.
    pub closed spec fn width_of(&self) -> usize {
        self.width
    }

    /// Height in pixels.
    pub closed spec fn height_of(&self) -> usize {
        self.height
    }

    /// Holds exactly one pixel per position.
    pub open spec fn wf(&self) -> bool {
        self.pixels().len() == self.width_of() * self.height_of()
    }

    /// Width in pixels (the `width` field).
    pub fn width(&self) -> (w: usize)
        ensures
            w == self.width_of(),
    {
        self.width
    }

    /// Height in pixels (the `height` field).
    pub fn height(&self) -> (h: usize)
        ensures
            h == self.height_of(),
    {
        self.height
    }

    /// A fully transparent `width` × `height` texture.
    pub fn new(width: usize, height: usize) -> (t: Self)
        requires
            width * height <= usize::MAX,
        ensures
            t.wf(),
            t.width_of() == width,
            t.height_of() == height,
            t.pixels().len() == width * height,
            forall|i: int| 0 <= i < t.pixels().len() ==> #[trigger] t.pixels()[i] == (Color { r: 0, g: 0, b: 0, a: 0 }),
    {
        let n = width * height;
        let mut pixels: Vec<Color> = Vec::new();
        let mut i: usize = 0;
        while i < n
            invariant
                i <= n,
                pixels@.len() == i,
                forall|j: int| 0 <= j < i ==> #[trigger] pixels@[j] == (Color { r: 0, g: 0, b: 0, a: 0 }),
            decreases n - i,
        {
            pixels.push(Color::transparent());
            i = i + 1;
        }
        Texture { width, height, pixels }
    }

    /// A texture whose pixel (x, y) is `f(x, y)`; `f` is called row by row.
    pub fn from_fn<F: Fn(usize, usize) -> Color>(width: usize, height: usize, f: F) -> (t: Self)
        requires
            width * height <= usize::MAX,
            forall|x: usize, y: usize| x < width && y < height ==> call_requires(f, (x, y)),
        ensures
            t.wf(),
            t.width_of() == width,
            t.height_of() == height,
            t.pixels().len() == width * height,
            forall|x: usize, y: usize|
                x < width && y < height ==> call_ensures(
                    f,
                    (x, y),
                    #[trigger] t.pixels()[pixel_index(width as int, x as int, y as int)],
                ),
    {
        let mut pixels: Vec<Color> = Vec::new();
        let mut y: usize = 0;
        while y < height
            invariant
                y <= height,
                width * height <= usize::MAX,
                forall|x: usize, y: usize| x < width && y < height ==> call_requires(f, (x, y)),
                pixels@.len() == y * width,
                forall|px: usize, py: usize|
                    px < width && py < y ==> call_ensures(
                        f,
                        (px, py),
                        #[trigger] pixels@[pixel_index(width as int, px as int, py as int)],
                    ),
            decreases height - y,
        {
            let mut x: usize = 0;
            while x < width
                invariant
                    x <= width,
                    y < height,
                    width * height <= usize::MAX,
                    forall|x: usize, y: usize| x < width && y < height ==> call_requires(f, (x, y)),
                    pixels@.len() == y * width + x,
                    forall|px: usize, py: usize|
                        px < width && py < y ==> call_ensures(
                            f,
                            (px, py),
                            #[trigger] pixels@[pixel_index(width as int, px as int, py as int)],
                        ),
                    forall|px: usize|
                        px < x ==> call_ensures(
                            f,
                            (px, y),
                            #[trigger] pixels@[pixel_index(width as int, px as int, y as int)],
                        ),
                decreases width - x,
            {
                proof {
                    lemma_pixel_index_bounds(width as int, height as int, x as int, y as int);
                }
                let c = f(x, y);
                let ghost prev = pixels@;
                pixels.push(c);
                proof {
                    assert forall|px: usize, py: usize|
                        px < width && py < y implies call_ensures(
                        f,
                        (px, py),
                        #[trigger] pixels@[pixel_index(width as int, px as int, py as int)],
                    ) by {
                        lemma_pixel_index_bounds(width as int, y as int, px as int, py as int);
                        assert(width * y == y * width) by (nonlinear_arith);
                        assert(pixels@[pixel_index(width as int, px as int, py as int)]
                            == prev[pixel_index(width as int, px as int, py as int)]);
                    }
                    assert forall|px: usize| px < x + 1 implies call_ensures(
                        f,
                        (px, y),
                        #[trigger] pixels@[pixel_index(width as int, px as int, y as int)],
                    ) by {
                        if px < x {
                            assert(pixels@[pixel_index(width as int, px as int, y as int)]
                                == prev[pixel_index(width as int, px as int, y as int)]);
                        }
                    }
                }
                x = x + 1;
            }
            proof {
                assert(pixels@.len() == (y + 1) * width) by (nonlinear_arith)
                    requires
                        pixels@.len() == y * width + width,
                ;
            }
            y = y + 1;
        }
        assert(height * width == width * height) by (nonlinear_arith);
        Texture { width, height, pixels }
    }

    /// The pixel at (x, y).
    pub fn get(&self, x: usize, y: usize) -> (c: Color)
        requires
            pixel_index(self.width_of() as int, x as int, y as int) < self.pixels().len(),
        ensures
            c == self.pixels()[pixel_index(self.width_of() as int, x as int, y as int)],
    {
        let len = self.pixels.len();
        assert(y * self.width <= y * self.width + x < len);
        self.pixels[y * self.width + x]
    }

    /// Overwrite the pixel at (x, y).
    pub fn set(&mut self, x: usize, y: usize, color: Color)
        requires
            pixel_index(old(self).width_of() as int, x as int, y as int) < old(self).pixels().len(),
        ensures
            final(self).width_of() == old(self).width_of(),
            final(self).height_of() == old(self).height_of(),
            old(self).wf() ==> final(self).wf(),
            final(self).pixels() == old(self).pixels().update(
                pixel_index(old(self).width_of() as int, x as int, y as int),
                color,
            ),
    {
        let len = self.pixels.len();
        assert(y * self.width <= y * self.width + x < len);
        let i = y * self.width + x;
        self.pixels.set(i, color);
    }
}

/// Reading a texture pixel back after setting it gives the colour set.
pub proof fn law_texture_set_then_get(before: Texture, after: Texture, x: usize, y: usize, color: Color)
    requires
        pixel_index(before.width_of() as int, x as int, y as int) < before.pixels().len(),
        after.width_of() == before.width_of(),
        after.pixels() == before.pixels().update(
            pixel_index(before.width_of() as int, x as int, y as int),
            color,
        ),
    ensures
        after.pixels()[pixel_index(after.width_of() as int, x as int, y as int)] == color,
{
}

// ── Canvas ───────────────────────────────────────────────────────────────────

/// A software pixel canvas: a row-major buffer of packed `0x00RRGGBB`
/// pixels that can be handed to a window as it is.
pub struct Canvas {
    pub width: usize,
    pub height: usize,
    buffer: Vec<u32>,
}

impl Canvas {
    /// Width in pixels.
    pub closed spec fn width_of(&self) -> usize {
        self.width
    }

    /// Height in pixels.
    pub closed spec fn height_of(&self) -> usize {
        self.height
    }

    /// The pixel buffer, row after row.
    pub closed spec fn pixels(&self) -> Seq<u32> {
        self.buffer@
    }

    /// Holds exactly one pixel per position.
    pub open spec fn wf(&self) -> bool {
        self.pixels().len() == self.width_of() * self.height_of()
    }

    /// Width in pixels (the `width` field).
    pub fn width(&self) -> (w: usize)
        ensures
            w == self.width_of(),
    {
        self.width
    }

    /// Height in pixels (the `height` field).
    pub fn height(&self) -> (h: usize)
        ensures
            h == self.height_of(),
    {
        self.height
    }

    /// The canvas after painting `c` at (x, y).
    pub open spec fn plotted(&self, x: int, y: int, c: Color) -> Seq<u32> {
        plot(self.pixels(), self.width_of() as int, self.height_of() as int, x, y, c)
    }

    /// A black `width` × `height` canvas.
    pub fn new(width: usize, height: usize) -> (c: Self)
        requires
            width * height <= usize::MAX,
        ensures
            c.wf(),
            c.width_of() == width,
            c.height_of() == height,
            c.pixels().len() == width * height,
            forall|i: int| 0 <= i < c.pixels().len() ==> #[trigger] c.pixels()[i] == 0,
    {
        let n = width * height;
        let mut buffer: Vec<u32> = Vec::new();
        let mut i: usize = 0;
        while i < n
            invariant
                i <= n,
                buffer@.len() == i,
                forall|j: int| 0 <= j < i ==> #[trigger] buffer@[j] == 0,
            decreases n - i,
        {
            buffer.push(0);
            i = i + 1;
        }
        Canvas { width, height, buffer }
    }

    /// The raw pixel buffer, e.g. for presenting in a window.
    pub fn buffer(&self) -> (b: &[u32])
        ensures
            b@ == self.pixels(),
    {
        self.buffer.as_slice()
    }

    /// Paint one pixel in canvas coordinates, blending by the colour's alpha;
    /// a point off the canvas is ignored.
    pub fn put_pixel_raw(&mut self, x: i32, y: i32, color: Color)
        requires
            old(self).wf(),
        ensures
            final(self).wf(),
            final(self).width_of() == old(self).width_of(),
            final(self).height_of() == old(self).height_of(),
            final(self).pixels() == old(self).plotted(x as int, y as int, color),
    {
        if x < 0 || y < 0 || x as usize >= self.width || y as usize >= self.height {
            return;
        }
        let xu = x as usize;
        let yu = y as usize;
        let len = self.buffer.len();
        proof {
            lemma_pixel_index_bounds(self.width as int, self.height as int, xu as int, yu as int);
        }
        assert(yu * self.width + xu < len);
        let idx = yu * self.width + xu;
        if color.a == 255 {
            self.buffer.set(idx, color.to_u32());
        } else if color.a > 0 {
            let p = self.buffer[idx];
            assert(((p >> 16u32) & 0xFFu32) == (p / 65536) % 256) by (bit_vector);
            assert(((p >> 8u32) & 0xFFu32) == (p / 256) % 256) by (bit_vector);
            assert((p & 0xFFu32) == p % 256) by (bit_vector);
            let r = ((p >> 16u32) & 0xFFu32) as u8;
            let g = ((p >> 8u32) & 0xFFu32) as u8;
            let b = (p & 0xFFu32) as u8;
            let bg = Color::rgb(r, g, b);
            self.buffer.set(idx, bg.blend(color).to_u32());
        }
    }

    /// Fill the whole canvas with `color` (its alpha is ignored).
    pub fn clear(&mut self, color: Color)
        requires
            old(self).wf(),
        ensures
            final(self).wf(),
            final(self).width_of() == old(self).width_of(),
            final(self).height_of() == old(self).height_of(),
            final(self).pixels().len() == old(self).pixels().len(),
            forall|i: int|
                0 <= i < final(self).pixels().len() ==> #[trigger] final(self).pixels()[i] == packed(
                    color.r,
                    color.g,
                    color.b,
                ),
    {
        let v = color.to_u32();
        let n = self.buffer.len();
        let mut i: usize = 0;
        while i < n
            invariant
                i <= n,
                n == self.buffer@.len(),
                self.buffer@.len() == self.width * self.height,
                self.width == old(self).width,
                self.height == old(self).height,
                forall|j: int| 0 <= j < i ==> #[trigger] self.buffer@[j] == v,
            decreases n - i,
        {
            self.buffer.set(i, v);
            i = i + 1;
        }
    }

    /// Paint every pixel of the `w` × `h` rectangle whose top-left corner is
    /// (x0, y0), clipped to the canvas, once each.
    pub fn fill_rect(&mut self, x0: i32, y0: i32, w: i32, h: i32, color: Color)
        requires
            old(self).wf(),
            i32::MIN <= x0 + w <= i32::MAX,
            i32::MIN <= y0 + h <= i32::MAX,
        ensures
            final(self).wf(),
            final(self).width_of() == old(self).width_of(),
            final(self).height_of() == old(self).height_of(),
            painted(
                final(self).pixels(),
                old(self).pixels(),
                old(self).width_of() as int,
                old(self).height_of() as int,
                |px: int, py: int| x0 <= px < x0 + w && y0 <= py < y0 + h,
                color,
            ),
    {
        let ghost orig = self.buffer@;
        let ghost cw = self.width as int;
        let ghost ch = self.height as int;
        let x1 = x0 + w;
        let y1 = y0 + h;
        let x_lo: i32 = if x0 > 0 { x0 } else { 0 };
        let y_lo: i32 = if y0 > 0 { y0 } else { 0 };
        let x_hi: i32 = if x1 >= 0 && x1 as usize > self.width { self.width as i32 } else { x1 };
        let y_hi: i32 = if y1 >= 0 && y1 as usize > self.height { self.height as i32 } else { y1 };
        let ghost region = |px: int, py: int|
            x0 <= px < x1 && y0 <= py < y1 && 0 <= px < cw && 0 <= py < ch;
        assert(painted_upto(self.buffer@, orig, cw, ch, region, x_lo as int, y_lo as int, color));
        let mut y = y_lo;
        while y < y_hi
            invariant
                self.wf(),
                self.width == cw,
                self.height == ch,
                orig.len() == cw * ch,
                y_lo <= y,
                y_lo >= 0,
                x_lo >= 0,
                x_lo >= x0,
                y_lo >= y0,
                x_hi <= x1,
                x_hi <= cw,
                y_hi <= y1,
                y_hi <= ch,
                forall|px: int, py: int| #[trigger] region(px, py) ==> x_lo <= px < x_hi,
                forall|px: int, py: int|
                    #[trigger] region(px, py) <==> (x0 <= px < x1 && y0 <= py < y1 && 0 <= px < cw
                        && 0 <= py < ch),
                forall|px: int, py: int| #[trigger] region(px, py) ==> y_lo <= py < y_hi,
                painted_upto(self.buffer@, orig, cw, ch, region, x_lo as int, y as int, color),
            decreases y_hi - y,
        {
            let mut x = x_lo;
            while x < x_hi
                invariant
                    self.wf(),
                    self.width == cw,
                    self.height == ch,
                    orig.len() == cw * ch,
                    x_lo <= x,
                    x_lo >= 0,
                    y_lo <= y < y_hi,
                    y_lo >= 0,
                    x_lo >= x0,
                    y_lo >= y0,
                    x_hi <= x1,
                    x_hi <= cw,
                    y_hi <= y1,
                    y_hi <= ch,
                    forall|px: int, py: int| #[trigger] region(px, py) ==> x_lo <= px < x_hi,
                    forall|px: int, py: int|
                        #[trigger] region(px, py) <==> (x0 <= px < x1 && y0 <= py < y1 && 0 <= px
                            < cw && 0 <= py < ch),
                    painted_upto(self.buffer@, orig, cw, ch, region, x as int, y as int, color),
                decreases x_hi - x,
            {
                proof {
                    lemma_painted_plot(self.buffer@, orig, cw, ch, region, x as int, y as int, color);
                }
                self.put_pixel_raw(x, y, color);
                x = x + 1;
            }
            proof {
                lemma_painted_next_row(
                    self.buffer@,
                    orig,
                    cw,
                    ch,
                    region,
                    x_lo as int,
                    x_hi as int,
                    x as int,
                    y as int,
                    color,
                );
            }
            y = y + 1;
        }
        proof {
            let rect = |px: int, py: int| x0 <= px < x0 + w && y0 <= py < y0 + h;
            assert forall|px: int, py: int| 0 <= px < cw && 0 <= py < ch implies #[trigger] self.buffer@[pixel_index(
                cw,
                px,
                py,
            )] == if rect(px, py) && before(px, py, 0, ch) {
                shade(orig[pixel_index(cw, px, py)], color)
            } else {
                orig[pixel_index(cw, px, py)]
            } by {
                if region(px, py) {
                    assert(py < y);
                }
            }
        }
    }

    /// Paint the disc of squared radius `r2` around (cx, cy): every point
    /// (cx + dx, cy + dy) with |dx|, |dy| <= r and dx² + dy² <= r2, once each.
    pub fn fill_circle(&mut self, cx: i32, cy: i32, r: i32, r2: i32, color: Color)
        requires
            old(self).wf(),
            i32::MIN < r <= 32767,
            r >= 0 ==> i32::MIN <= cx - r && cx + r <= i32::MAX && i32::MIN <= cy - r && cy + r
                <= i32::MAX,
        ensures
            final(self).wf(),
            final(self).width_of() == old(self).width_of(),
            final(self).height_of() == old(self).height_of(),
            painted(
                final(self).pixels(),
                old(self).pixels(),
                old(self).width_of() as int,
                old(self).height_of() as int,
                |px: int, py: int|
                    -r <= px - cx <= r && -r <= py - cy <= r && (px - cx) * (px - cx) + (py - cy) * (
                    py - cy) <= r2,
                color,
            ),
    {
        let ghost orig = self.buffer@;
        let ghost cw = self.width as int;
        let ghost ch = self.height as int;
        let ghost region = |px: int, py: int|
            -r <= px - cx <= r && -r <= py - cy <= r && (px - cx) * (px - cx) + (py - cy) * (py
                - cy) <= r2;
        if r < 0 {
            // The disc is empty: -r <= dx <= r has no solution.
            return;
        }
        assert(painted_upto(self.buffer@, orig, cw, ch, region, cx - r, cy - r, color));
        let mut dy: i32 = -r;
        while dy <= r
            invariant
                self.wf(),
                self.width == cw,
                self.height == ch,
                orig.len() == cw * ch,
                -r <= dy,
                r <= 32767,
                dy <= r + 1,
                r >= 0,
                i32::MIN <= cx - r && cx + r <= i32::MAX && i32::MIN <= cy - r && cy + r
                    <= i32::MAX,
                forall|px: int, py: int|
                    #[trigger] region(px, py) <==> (-r <= px - cx <= r && -r <= py - cy <= r && (px
                        - cx) * (px - cx) + (py - cy) * (py - cy) <= r2),
                painted_upto(self.buffer@, orig, cw, ch, region, cx - r, cy + dy, color),
            decreases r + 1 - dy,
        {
            let mut dx: i32 = -r;
            while dx <= r
                invariant
                    self.wf(),
                    self.width == cw,
                    self.height == ch,
                    orig.len() == cw * ch,
                    -r <= dy <= r,
                    -r <= dx <= r + 1,
                    r <= 32767,
                    i32::MIN <= cx - r && cx + r <= i32::MAX && i32::MIN <= cy - r && cy + r
                        <= i32::MAX,
                    forall|px: int, py: int|
                        #[trigger] region(px, py) <==> (-r <= px - cx <= r && -r <= py - cy <= r
                            && (px - cx) * (px - cx) + (py - cy) * (py - cy) <= r2),
                    painted_upto(self.buffer@, orig, cw, ch, region, cx + dx, cy + dy, color),
                decreases r + 1 - dx,
            {
                assert(dx * dx <= 32767 * 32767 && dy * dy <= 32767 * 32767) by (nonlinear_arith)
                    requires
                        -32767 <= dx <= 32767,
                        -32767 <= dy <= 32767,
                ;
                assert(0 <= dx * dx && 0 <= dy * dy) by (nonlinear_arith);
                if dx * dx + dy * dy <= r2 {
                    proof {
                        lemma_painted_plot(
                            self.buffer@,
                            orig,
                            cw,
                            ch,
                            region,
                            cx + dx,
                            cy + dy,
                            color,
                        );
                    }
                    self.put_pixel_raw(cx + dx, cy + dy, color);
                } else {
                    proof {
                        lemma_painted_skip(
                            self.buffer@,
                            orig,
                            cw,
                            ch,
                            region,
                            cx + dx,
                            cy + dy,
                            color,
                        );
                    }
                }
                dx = dx + 1;
            }
            proof {
                lemma_painted_next_row(
                    self.buffer@,
                    orig,
                    cw,
                    ch,
                    region,
                    cx - r,
                    cx + r + 1,
                    cx + dx,
                    cy + dy,
                    color,
                );
            }
            dy = dy + 1;
        }
        proof {
            let disc = |px: int, py: int|
                -r <= px - cx <= r && -r <= py - cy <= r && (px - cx) * (px - cx) + (py - cy) * (py
                    - cy) <= r2;
            assert forall|px: int, py: int| 0 <= px < cw && 0 <= py < ch implies #[trigger] self.buffer@[pixel_index(
                cw,
                px,
                py,
            )] == if disc(px, py) && before(px, py, 0, ch) {
                shade(orig[pixel_index(cw, px, py)], color)
            } else {
                orig[pixel_index(cw, px, py)]
            } by {
                if region(px, py) {
                    assert(py < cy + dy);
                }
            }
        }
    }

    /// Draw the line from (x0, y0) to (x1, y1) with Bresenham's algorithm,
    /// painting each of its points in order.
    pub fn draw_line(&mut self, x0: i32, y0: i32, x1: i32, y1: i32, color: Color)
        requires
            old(self).wf(),
            line_fits_i32(x0 as int, y0 as int, x1 as int, y1 as int),
        ensures
            final(self).wf(),
            final(self).width_of() == old(self).width_of(),
            final(self).height_of() == old(self).height_of(),
            final(self).pixels() == paint(
                old(self).pixels(),
                old(self).width_of() as int,
                old(self).height_of() as int,
                line_points(x0 as int, y0 as int, x1 as int, y1 as int),
                color,
            ),
    {
        let ghost orig = self.buffer@;
        let ghost cw = self.width as int;
        let ghost ch = self.height as int;
        let ghost all = line_points(x0 as int, y0 as int, x1 as int, y1 as int);
        let dx: i32 = if x1 >= x0 { x1 - x0 } else { x0 - x1 };
        let dy: i32 = -(if y1 >= y0 { y1 - y0 } else { y0 - y1 });
        let sx: i32 = if x0 < x1 { 1 } else { -1 };
        let sy: i32 = if y0 < y1 { 1 } else { -1 };
        let ghost d = dx as int;
        let ghost a = -dy;
        let mut err = dx + dy;
        let mut x = x0;
        let mut y = y0;
        let ghost mut i: int = 0;
        let ghost mut j: int = 0;
        let ghost mut done: Seq<(int, int)> = Seq::empty();
        assert(all =~= done + line_tail(x0 as int, y0 as int, sx as int, sy as int, d, a, 0, 0));
        loop
            invariant_except_break
                all == done + line_tail(x0 as int, y0 as int, sx as int, sy as int, d, a, i, j),
            invariant
                self.wf(),
                self.width == cw,
                self.height == ch,
                d == abs_diff(x0 as int, x1 as int),
                a == abs_diff(y0 as int, y1 as int),
                dx == d,
                dy == -a,
                d <= i32::MAX,
                a <= i32::MAX,
                line_fits_from(d, a, i, j),
                sx == step_dir(x0 as int, x1 as int),
                sy == step_dir(y0 as int, y1 as int),
                all == line_points(x0 as int, y0 as int, x1 as int, y1 as int),
                0 <= i <= d,
                0 <= j <= a,
                x == x0 + sx * i,
                y == y0 + sy * j,
                err == line_err(d, a, i, j),
                self.buffer@ == paint(orig, cw, ch, done, color),
            ensures
                self.wf(),
                self.width == cw,
                self.height == ch,
                self.buffer@ == paint(orig, cw, ch, all, color),
            decreases (d - i) + (a - j),
        {
            let ghost here = (x as int, y as int);
            self.put_pixel_raw(x, y, color);
            proof {
                let prev = done;
                done = done.push(here);
                assert(done.drop_last() =~= prev);
            }
            let at_end = x == x1 && y == y1;
            proof {
                if sx == 1 {
                    assert(x == x0 + i);
                } else {
                    assert(x == x0 - i);
                }
                if sy == 1 {
                    assert(y == y0 + j);
                } else {
                    assert(y == y0 - j);
                }
                assert(at_end <==> (i == d && j == a));
            }
            if at_end {
                assert(all =~= done);
                break;
            }
            proof {
                lemma_line_step(d, a, i, j);
                let ni = if line_steps_x(d, a, i, j) { i + 1 } else { i };
                let nj = if line_steps_y(d, a, i, j) { j + 1 } else { j };
                assert(line_tail(x0 as int, y0 as int, sx as int, sy as int, d, a, i, j) == seq![here]
                    + line_tail(x0 as int, y0 as int, sx as int, sy as int, d, a, ni, nj));
                assert(all =~= done + line_tail(x0 as int, y0 as int, sx as int, sy as int, d, a, ni, nj));
                assert(line_step_fits(d, a, i, j) && line_fits_from(d, a, ni, nj));
            }
            let ghost (i0, j0, err0) = (i, j, err as int);
            let e2 = 2 * err;
            if e2 >= dy {
                err = err + dy;
                x = x + sx;
                proof {
                    i = i + 1;
                }
            }
            if e2 <= dx {
                err = err + dx;
                y = y + sy;
                proof {
                    j = j + 1;
                }
            }
            proof {
                assert(err == line_err(d, a, i, j)) by (nonlinear_arith)
                    requires
                        err0 == line_err(d, a, i0, j0),
                        i == i0 || i == i0 + 1,
                        j == j0 || j == j0 + 1,
                        err == err0 + (if i == i0 + 1 { -a } else { 0 }) + (if j == j0 + 1 {
                            d
                        } else {
                            0
                        }),
                ;
            }
        }
    }

    fn plot_octants(&mut self, cx: i32, cy: i32, x: i32, y: i32, color: Color)
        requires
            old(self).wf(),
            0 <= y <= x,
            i32::MIN <= cx - x && cx + x <= i32::MAX,
            i32::MIN <= cx - y && cx + y <= i32::MAX,
            i32::MIN <= cy - x && cy + x <= i32::MAX,
            i32::MIN <= cy - y && cy + y <= i32::MAX,
        ensures
            final(self).wf(),
            final(self).width == old(self).width,
            final(self).height == old(self).height,
            final(self).buffer@ == paint(
                old(self).buffer@,
                old(self).width as int,
                old(self).height as int,
                octant_points(cx as int, cy as int, x as int, y as int),
                color,
            ),
    {
        let ghost pts = octant_points(cx as int, cy as int, x as int, y as int);
        let ghost w = self.width as int;
        let ghost h = self.height as int;
        let ghost b0 = self.buffer@;
        self.put_pixel_raw(cx + x, cy + y, color);
        self.put_pixel_raw(cx - x, cy + y, color);
        self.put_pixel_raw(cx + x, cy - y, color);
        self.put_pixel_raw(cx - x, cy - y, color);
        self.put_pixel_raw(cx + y, cy + x, color);
        self.put_pixel_raw(cx - y, cy + x, color);
        self.put_pixel_raw(cx + y, cy - x, color);
        self.put_pixel_raw(cx - y, cy - x, color);
        proof {
            assert(pts.drop_last().drop_last().drop_last().drop_last().drop_last().drop_last().drop_last().drop_last() =~= Seq::<(int, int)>::empty());
            reveal_with_fuel(paint, 9);
        }
    }

    /// Draw the outline of the circle of radius `r` around (cx, cy) with the
    /// midpoint algorithm, painting its points in order.
    pub fn stroke_circle(&mut self, cx: i32, cy: i32, r: i32, color: Color)
        requires
            old(self).wf(),
            circle_fits_i32(cx as int, cy as int, r as int),
        ensures
            final(self).wf(),
            final(self).width_of() == old(self).width_of(),
            final(self).height_of() == old(self).height_of(),
            final(self).pixels() == paint(
                old(self).pixels(),
                old(self).width_of() as int,
                old(self).height_of() as int,
                circle_points(cx as int, cy as int, r as int),
                color,
            ),
    {
        let ghost orig = self.buffer@;
        let ghost cw = self.width as int;
        let ghost ch = self.height as int;
        let ghost all = circle_points(cx as int, cy as int, r as int);
        if r < 0 {
            // No point satisfies x >= y: nothing is drawn.
            assert(all =~= Seq::<(int, int)>::empty());
            return;
        }
        let mut x = r;
        let mut y: i32 = 0;
        let mut err: i32 = 0;
        let ghost mut done: Seq<(int, int)> = Seq::empty();
        assert(all =~= done + circle_tail(cx as int, cy as int, x as int, y as int, err as int));
        while x >= y
            invariant
                self.wf(),
                self.width == cw,
                self.height == ch,
                0 <= y,
                y <= x + 2,
                circle_fits_from(cx as int, cy as int, x as int, y as int, err as int),
                all == circle_points(cx as int, cy as int, r as int),
                all == done + circle_tail(cx as int, cy as int, x as int, y as int, err as int),
                self.buffer@ == paint(orig, cw, ch, done, color),
            decreases x - y + 2,
        {
            let ghost oct = octant_points(cx as int, cy as int, x as int, y as int);
            let ghost n = circle_next(x as int, y as int, err as int);
            assert(circle_step_fits(cx as int, cy as int, x as int, y as int, err as int));
            self.plot_octants(cx, cy, x, y, color);
            proof {
                lemma_paint_append(orig, cw, ch, done, oct, color);
                assert(circle_tail(cx as int, cy as int, x as int, y as int, err as int) == oct
                    + circle_tail(cx as int, cy as int, n.0, n.1, n.2));
                assert(all =~= (done + oct) + circle_tail(cx as int, cy as int, n.0, n.1, n.2));
                done = done + oct;
            }
            y = y + 1;
            err = err + (2 * y - 1);
            if 2 * err + 1 - 2 * x > 0 {
                x = x - 1;
                err = err + (1 - 2 * x);
            }
            assert(x == n.0 && y == n.1 && err == n.2);
        }
        assert(all =~= done);
    }
}

fn fits_in_i32(v: i64) -> (ok: bool)
    ensures
        ok == fits_i32(v as int),
{
    i32::MIN as i64 <= v && v <= i32::MAX as i64
}

/// Whether `Canvas::stroke_circle` can draw the circle of radius `r` around
/// (cx, cy) without i32 overflow; runs the algorithm's arithmetic in i64.
pub fn circle_fits(cx: i32, cy: i32, r: i32) -> (ok: bool)
    ensures
        ok == circle_fits_i32(cx as int, cy as int, r as int),
{
    let px = cx as i64;
    let py = cy as i64;
    let mut x: i64 = r as i64;
    let mut y: i64 = 0;
    let mut err: i64 = 0;
    if x < y {
        return true;
    }
    while x >= y
        invariant
            fits_i32(px as int) && fits_i32(py as int),
            fits_i32(x as int) && fits_i32(err as int),
            0 <= y <= x + 2,
            y <= i32::MAX,
            circle_fits_from(px as int, py as int, x as int, y as int, err as int)
                == circle_fits_i32(cx as int, cy as int, r as int),
        decreases x - y + 2,
    {
        let ny = y + 1;
        let e1 = err + (2 * ny - 1);
        let t = 2 * e1 + 1 - 2 * x;
        let coords = fits_in_i32(px + x) && fits_in_i32(px - x) && fits_in_i32(py + y)
            && fits_in_i32(py - y) && fits_in_i32(px + y) && fits_in_i32(px - y) && fits_in_i32(
            py + x,
        ) && fits_in_i32(py - x);
        let update = fits_in_i32(ny) && fits_in_i32(2 * ny) && fits_in_i32(2 * ny - 1)
            && fits_in_i32(e1) && fits_in_i32(2 * e1) && fits_in_i32(2 * e1 + 1) && fits_in_i32(
            2 * x,
        ) && fits_in_i32(t);
        let shrink = t <= 0 || (fits_in_i32(x - 1) && fits_in_i32(2 * (x - 1)) && fits_in_i32(
            1 - 2 * (x - 1),
        ) && fits_in_i32(e1 + (1 - 2 * (x - 1))));
        assert((coords && update && shrink) == circle_step_fits(
            px as int,
            py as int,
            x as int,
            y as int,
            err as int,
        ));
        if !(coords && update && shrink) {
            return false;
        }
        y = ny;
        err = e1;
        if t > 0 {
            x = x - 1;
            err = err + (1 - 2 * x);
        }
    }
    true
}

} // verus!
