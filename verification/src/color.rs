use vstd::prelude::*;

verus! {

/// An RGBA colour, 8 bits per channel.
#[derive(Debug, Clone, Copy, PartialEq, Eq, Structural, Default)]
pub struct Color {
    pub r: u8,
    pub g: u8,
    pub b: u8,
    pub a: u8,
}

/// The packed `0x00RRGGBB` form of a colour (alpha is dropped).
pub open spec fn packed(r: u8, g: u8, b: u8) -> u32 {
    (r as int * 65536 + g as int * 256 + b as int) as u32
}

/// One channel of `bg` covered by `fg` with opacity `a` (out of 255).
pub open spec fn mix_channel(bg: u8, fg: u8, a: u8) -> u8 {
    ((bg as int * (255 - a as int) + fg as int * a as int) / 255) as u8
}

/// The colour seen when `over` is painted on top of `base`.
pub open spec fn blend_spec(base: Color, over: Color) -> Color {
    if over.a == 255 {
        over
    } else if over.a == 0 {
        base
    } else {
        Color {
            r: mix_channel(base.r, over.r, over.a),
            g: mix_channel(base.g, over.g, over.a),
            b: mix_channel(base.b, over.b, over.a),
            a: 255,
        }
    }
}

proof fn lemma_mix_fits(bg: u8, fg: u8, a: u8)
    ensures
        0 <= (bg as int * (255 - a as int) + fg as int * a as int) / 255 <= 255,
{
    assert(0 <= bg as int * (255 - a as int) + fg as int * a as int <= 255 * 255) by (nonlinear_arith)
        requires
            0 <= bg <= 255,
            0 <= fg <= 255,
            0 <= a <= 255,
    ;
}

impl Color {
    pub fn rgba(r: u8, g: u8, b: u8, a: u8) -> (c: Self)
        ensures
            c == (Color { r, g, b, a }),
    {
        Color { r, g, b, a }
    }

    pub fn rgb(r: u8, g: u8, b: u8) -> (c: Self)
        ensures
            c == (Color { r, g, b, a: 255 }),
    {
        Self::rgba(r, g, b, 255)
    }

    /// Pack into `0x00RRGGBB`, the pixel format of the canvas buffer.
    pub fn to_u32(self) -> (v: u32)
        ensures
            v == packed(self.r, self.g, self.b),
            v as int == self.r as int * 65536 + self.g as int * 256 + self.b as int,
    {
        let r = self.r as u32;
        let g = self.g as u32;
        let b = self.b as u32;
        assert(((r << 16u32) | (g << 8u32) | b) == r * 65536 + g * 256 + b) by (bit_vector)
            requires
                r < 256,
                g < 256,
                b < 256,
        ;
        (r << 16u32) | (g << 8u32) | b
    }

    /// Alpha-blend `over` (foreground) on top of `self` (background).
    /// An opaque `over` replaces the background, a fully transparent one
    /// leaves it, anything in between mixes each channel and is opaque.
    pub fn blend(self, over: Color) -> (c: Color)
        ensures
            c == blend_spec(self, over),
    {
        if over.a == 255 {
            return over;
        }
        if over.a == 0 {
            return self;
        }
        let a = over.a as u32;
        let ia = 255 - a;
        proof {
            lemma_mix_fits(self.r, over.r, over.a);
            lemma_mix_fits(self.g, over.g, over.a);
            lemma_mix_fits(self.b, over.b, over.a);
        }
        assert(self.r as u32 * ia + over.r as u32 * a <= 255 * 255) by (nonlinear_arith)
            requires
                self.r <= 255, over.r <= 255, a <= 255, ia == 255 - a,
        ;
        assert(self.g as u32 * ia + over.g as u32 * a <= 255 * 255) by (nonlinear_arith)
            requires
                self.g <= 255, over.g <= 255, a <= 255, ia == 255 - a,
        ;
        assert(self.b as u32 * ia + over.b as u32 * a <= 255 * 255) by (nonlinear_arith)
            requires
                self.b <= 255, over.b <= 255, a <= 255, ia == 255 - a,
        ;
        Color::rgb(
            ((self.r as u32 * ia + over.r as u32 * a) / 255) as u8,
            ((self.g as u32 * ia + over.g as u32 * a) / 255) as u8,
            ((self.b as u32 * ia + over.b as u32 * a) / 255) as u8,
        )
    }

    // ── Palette ──

    pub fn transparent() -> (c: Color)
        ensures
            c == (Color { r: 0, g: 0, b: 0, a: 0 }),
    {
        Color { r: 0, g: 0, b: 0, a: 0 }
    }
    pub fn black() -> (c: Color)
        ensures
            c == (Color { r: 0, g: 0, b: 0, a: 255 }),
    {
        Color { r: 0, g: 0, b: 0, a: 255 }
    }
    pub fn white() -> (c: Color)
        ensures
            c == (Color { r: 255, g: 255, b: 255, a: 255 }),
    {
        Color { r: 255, g: 255, b: 255, a: 255 }
    }
    pub fn red() -> (c: Color)
        ensures
            c == (Color { r: 220, g: 50, b: 50, a: 255 }),
    {
        Color { r: 220, g: 50, b: 50, a: 255 }
    }
    pub fn green() -> (c: Color)
        ensures
            c == (Color { r: 50, g: 200, b: 80, a: 255 }),
    {
        Color { r: 50, g: 200, b: 80, a: 255 }
    }
    pub fn blue() -> (c: Color)
        ensures
            c == (Color { r: 60, g: 120, b: 220, a: 255 }),
    {
        Color { r: 60, g: 120, b: 220, a: 255 }
    }
    pub fn yellow() -> (c: Color)
        ensures
            c == (Color { r: 255, g: 220, b: 0, a: 255 }),
    {
        Color { r: 255, g: 220, b: 0, a: 255 }
    }
    pub fn orange() -> (c: Color)
        ensures
            c == (Color { r: 255, g: 140, b: 0, a: 255 }),
    {
        Color { r: 255, g: 140, b: 0, a: 255 }
    }
    pub fn cyan() -> (c: Color)
        ensures
            c == (Color { r: 0, g: 230, b: 230, a: 255 }),
    {
        Color { r: 0, g: 230, b: 230, a: 255 }
    }
    pub fn magenta() -> (c: Color)
        ensures
            c == (Color { r: 200, g: 50, b: 200, a: 255 }),
    {
        Color { r: 200, g: 50, b: 200, a: 255 }
    }
    pub fn purple() -> (c: Color)
        ensures
            c == (Color { r: 130, g: 60, b: 200, a: 255 }),
    {
        Color { r: 130, g: 60, b: 200, a: 255 }
    }
    pub fn pink() -> (c: Color)
        ensures
            c == (Color { r: 255, g: 150, b: 180, a: 255 }),
    {
        Color { r: 255, g: 150, b: 180, a: 255 }
    }
    pub fn gray() -> (c: Color)
        ensures
            c == (Color { r: 128, g: 128, b: 128, a: 255 }),
    {
        Color { r: 128, g: 128, b: 128, a: 255 }
    }
    pub fn dark_gray() -> (c: Color)
        ensures
            c == (Color { r: 50, g: 50, b: 50, a: 255 }),
    {
        Color { r: 50, g: 50, b: 50, a: 255 }
    }
    pub fn light_gray() -> (c: Color)
        ensures
            c == (Color { r: 200, g: 200, b: 200, a: 255 }),
    {
        Color { r: 200, g: 200, b: 200, a: 255 }
    }
    pub fn sky_blue() -> (c: Color)
        ensures
            c == (Color { r: 30, g: 144, b: 255, a: 255 }),
    {
        Color { r: 30, g: 144, b: 255, a: 255 }
    }
    pub fn dark_green() -> (c: Color)
        ensures
            c == (Color { r: 0, g: 100, b: 50, a: 255 }),
    {
        Color { r: 0, g: 100, b: 50, a: 255 }
    }
    pub fn gold() -> (c: Color)
        ensures
            c == (Color { r: 255, g: 195, b: 0, a: 255 }),
    {
        Color { r: 255, g: 195, b: 0, a: 255 }
    }
}

/// Painting an opaque colour hides the background completely; painting a
/// fully transparent one leaves the background as it was; anything painted
/// with some opacity comes out opaque.
pub proof fn law_blend_extremes(base: Color, over: Color)
    ensures
        over.a == 255 ==> blend_spec(base, over) == over,
        over.a == 0 ==> blend_spec(base, over) == base,
        over.a > 0 ==> blend_spec(base, over).a == 255,
{
}

/// Blending an opaque-background colour with a partly transparent one gives
/// each channel between the two inputs' values.
pub proof fn law_blend_between(base: Color, over: Color)
    requires
        0 < over.a < 255,
    ensures
        ({
            let m = blend_spec(base, over);
            &&& min_u8(base.r, over.r) <= m.r <= max_u8(base.r, over.r)
            &&& min_u8(base.g, over.g) <= m.g <= max_u8(base.g, over.g)
            &&& min_u8(base.b, over.b) <= m.b <= max_u8(base.b, over.b)
        }),
{
    lemma_mix_between(base.r, over.r, over.a);
    lemma_mix_between(base.g, over.g, over.a);
    lemma_mix_between(base.b, over.b, over.a);
}

/// How far apart two channel values are.
pub open spec fn channel_gap(p: u8, q: u8) -> int {
    if p <= q { q as int - p as int } else { p as int - q as int }
}

/// `over` with its opacity replaced by `a`.
pub open spec fn with_alpha(over: Color, a: u8) -> Color {
    Color { r: over.r, g: over.g, b: over.b, a }
}

proof fn lemma_mix_monotone(bg: u8, fg: u8, a1: u8, a2: u8)
    requires
        a1 <= a2,
    ensures
        channel_gap(blend_spec(Color { r: bg, g: 0, b: 0, a: 255 }, Color { r: fg, g: 0, b: 0, a: a2 }).r, fg)
            <= channel_gap(blend_spec(Color { r: bg, g: 0, b: 0, a: 255 }, Color { r: fg, g: 0, b: 0, a: a1 }).r, fg),
{
    let n1 = bg as int * (255 - a1 as int) + fg as int * a1 as int;
    let n2 = bg as int * (255 - a2 as int) + fg as int * a2 as int;
    lemma_mix_fits(bg, fg, a1);
    lemma_mix_fits(bg, fg, a2);
    assert(bg as int * (255 - 0) + fg as int * 0 == bg as int * 255) by (nonlinear_arith);
    assert(bg as int * (255 - 255) + fg as int * 255 == fg as int * 255) by (nonlinear_arith);
    assert((bg as int * 255) / 255 == bg as int && (fg as int * 255) / 255 == fg as int) by (nonlinear_arith);
    if fg >= bg {
        assert(n1 <= n2 <= fg as int * 255) by (nonlinear_arith)
            requires
                bg <= fg,
                a1 <= a2 <= 255,
                n1 == bg as int * (255 - a1 as int) + fg as int * a1 as int,
                n2 == bg as int * (255 - a2 as int) + fg as int * a2 as int,
        ;
        assert(n1 / 255 <= n2 / 255 <= fg as int) by (nonlinear_arith)
            requires
                0 <= n1 <= n2 <= fg as int * 255,
        ;
    } else {
        assert(fg as int * 255 <= n2 <= n1) by (nonlinear_arith)
            requires
                fg < bg,
                a1 <= a2 <= 255,
                n1 == bg as int * (255 - a1 as int) + fg as int * a1 as int,
                n2 == bg as int * (255 - a2 as int) + fg as int * a2 as int,
        ;
        assert(fg as int <= n2 / 255 <= n1 / 255) by (nonlinear_arith)
            requires
                fg as int * 255 <= n2 <= n1,
        ;
    }
}

/// Raising the opacity of the painted colour never moves the result away
/// from it: in every channel the blend with the higher alpha is at least as
/// close to the foreground as the blend with the lower one.
pub proof fn law_blend_monotone_in_alpha(base: Color, over: Color, a1: u8, a2: u8)
    requires
        a1 <= a2,
    ensures
        ({
            let lo = blend_spec(base, with_alpha(over, a1));
            let hi = blend_spec(base, with_alpha(over, a2));
            &&& channel_gap(hi.r, over.r) <= channel_gap(lo.r, over.r)
            &&& channel_gap(hi.g, over.g) <= channel_gap(lo.g, over.g)
            &&& channel_gap(hi.b, over.b) <= channel_gap(lo.b, over.b)
        }),
{
    lemma_mix_monotone(base.r, over.r, a1, a2);
    lemma_mix_monotone(base.g, over.g, a1, a2);
    lemma_mix_monotone(base.b, over.b, a1, a2);
}

proof fn lemma_mix_leans(bg: u8, fg: u8, a: u8)
    requires
        0 < a < 255,
    ensures
        a >= 128 ==> channel_gap(mix_channel(bg, fg, a), fg) <= channel_gap(mix_channel(bg, fg, a), bg) + 1,
        a <= 127 ==> channel_gap(mix_channel(bg, fg, a), bg) <= channel_gap(mix_channel(bg, fg, a), fg) + 1,
{
    lemma_mix_fits(bg, fg, a);
    let n = bg as int * (255 - a as int) + fg as int * a as int;
    let m = n / 255;
    assert(m * 255 <= n < m * 255 + 255) by (nonlinear_arith)
        requires
            m == n / 255,
            n >= 0,
    ;
    assert(a >= 128 ==> (if fg >= bg { 2 * m >= bg + fg - 1 } else { 2 * m <= bg + fg })) by (nonlinear_arith)
        requires
            m * 255 <= n < m * 255 + 255,
            n == bg as int * (255 - a as int) + fg as int * a as int,
            0 < a < 255,
            0 <= bg <= 255,
            0 <= fg <= 255,
    ;
    assert(a <= 127 ==> (if fg >= bg { 2 * m <= bg + fg } else { 2 * m >= bg + fg - 1 })) by (nonlinear_arith)
        requires
            m * 255 <= n < m * 255 + 255,
            n == bg as int * (255 - a as int) + fg as int * a as int,
            0 < a < 255,
            0 <= bg <= 255,
            0 <= fg <= 255,
    ;
    lemma_mix_between(bg, fg, a);
}

/// A colour painted at least half opaque leaves each channel nearer the
/// painted value than the background value (up to rounding by one); one
/// painted at most half opaque leaves it nearer the background.
pub proof fn law_blend_leans_to_stronger(base: Color, over: Color)
    requires
        0 < over.a < 255,
    ensures
        ({
            let m = blend_spec(base, over);
            &&& over.a >= 128 ==> channel_gap(m.r, over.r) <= channel_gap(m.r, base.r) + 1
                && channel_gap(m.g, over.g) <= channel_gap(m.g, base.g) + 1 && channel_gap(m.b, over.b)
                <= channel_gap(m.b, base.b) + 1
            &&& over.a <= 127 ==> channel_gap(m.r, base.r) <= channel_gap(m.r, over.r) + 1
                && channel_gap(m.g, base.g) <= channel_gap(m.g, over.g) + 1 && channel_gap(m.b, base.b)
                <= channel_gap(m.b, over.b) + 1
        }),
{
    lemma_mix_leans(base.r, over.r, over.a);
    lemma_mix_leans(base.g, over.g, over.a);
    lemma_mix_leans(base.b, over.b, over.a);
}

/// Each channel of a partly transparent blend is the alpha-weighted
/// average of background and foreground, rounded down: 255 times the result
/// is at most bg (255 - a) + fg a and less than 255 more.
pub proof fn law_blend_weighted_average(base: Color, over: Color)
    requires
        0 < over.a < 255,
    ensures
        ({
            let m = blend_spec(base, over);
            let a = over.a as int;
            &&& 255 * (m.r as int) <= base.r as int * (255 - a) + over.r as int * a < 255 * (m.r as int + 1)
            &&& 255 * (m.g as int) <= base.g as int * (255 - a) + over.g as int * a < 255 * (m.g as int + 1)
            &&& 255 * (m.b as int) <= base.b as int * (255 - a) + over.b as int * a < 255 * (m.b as int + 1)
        }),
{
    lemma_mix_fits(base.r, over.r, over.a);
    lemma_mix_fits(base.g, over.g, over.a);
    lemma_mix_fits(base.b, over.b, over.a);
    let a = over.a as int;
    let nr = base.r as int * (255 - a) + over.r as int * a;
    let ng = base.g as int * (255 - a) + over.g as int * a;
    let nb = base.b as int * (255 - a) + over.b as int * a;
    assert(255 * (nr / 255) <= nr < 255 * (nr / 255 + 1)) by (nonlinear_arith) requires nr >= 0;
    assert(255 * (ng / 255) <= ng < 255 * (ng / 255 + 1)) by (nonlinear_arith) requires ng >= 0;
    assert(255 * (nb / 255) <= nb < 255 * (nb / 255 + 1)) by (nonlinear_arith) requires nb >= 0;
}

pub open spec fn min_u8(x: u8, y: u8) -> u8 {
    if x <= y { x } else { y }
}

pub open spec fn max_u8(x: u8, y: u8) -> u8 {
    if x <= y { y } else { x }
}

proof fn lemma_mix_between(bg: u8, fg: u8, a: u8)
    requires
        0 < a < 255,
    ensures
        min_u8(bg, fg) <= mix_channel(bg, fg, a) <= max_u8(bg, fg),
{
    lemma_mix_fits(bg, fg, a);
    let lo = min_u8(bg, fg) as int;
    let hi = max_u8(bg, fg) as int;
    let s = bg as int * (255 - a as int) + fg as int * a as int;
    assert(lo * 255 <= s <= hi * 255) by (nonlinear_arith)
        requires
            lo <= bg <= hi,
            lo <= fg <= hi,
            0 < a < 255,
            s == bg as int * (255 - a as int) + fg as int * a as int,
    ;
    assert(lo <= s / 255 <= hi) by (nonlinear_arith)
        requires
            lo * 255 <= s <= hi * 255,
    ;
}

} // verus!
