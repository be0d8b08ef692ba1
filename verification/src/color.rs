//! Color representations and conversions.
//!
//! The wire and hardware representation of a color is an RGB triple with
//! 8 bits per channel.  The cached, application-facing representation is a
//! hue/saturation pair at full value, held in fixed-point integers: the hue
//! counts steps of 1/1536 of a turn (six sectors of 256 steps), and the
//! saturation runs from 0 to 255.

use vstd::prelude::*;

verus! {

/// Number of hue steps in one full turn: six sectors of 256 steps each.
pub const HUE_STEPS: u16 = 1536;

/// An RGB triple, 8 bits per channel.
#[derive(Clone, Copy, PartialEq, Eq, Structural, Debug)]
pub struct Rgb {
    pub r: u8,
    pub g: u8,
    pub b: u8,
}

impl Rgb {
    pub fn new(r: u8, g: u8, b: u8) -> (c: Rgb)
        ensures
            c == (Rgb { r, g, b }),
    {
        Rgb { r, g, b }
    }
}

/// A hue/saturation pair at full value.  `h` counts 1536ths of a turn
/// (red at 0, green at 512, blue at 1024); `s` is 0 for white, 255 for a
/// fully saturated color.
#[derive(Clone, Copy, PartialEq, Eq, Structural, Debug)]
pub struct Hs {
    pub h: u16,
    pub s: u8,
}

impl Hs {
    /// A hue value is meaningful only below one full turn.
    pub open spec fn wf(self) -> bool {
        self.h < HUE_STEPS
    }

    pub fn new(h: u16, s: u8) -> (c: Hs)
        requires
            h < HUE_STEPS,
        ensures
            c == (Hs { h, s }),
            c.wf(),
    {
        Hs { h, s }
    }
}

/// The rising ramp of the middle channel within a sector: for a step `f`
/// (0..=255) and saturation `s`, how far above the sector minimum the
/// channel sits.
pub open spec fn spec_ramp(f: int, s: int) -> int {
    f * s / 256
}

/// Hue/saturation to RGB at full value.  The two extreme channels of the
/// sector sit at 255 and 255 - s; the middle channel ramps linearly with
/// the position inside the sector.
pub open spec fn spec_hs_to_rgb(hs: Hs) -> Rgb {
    let f = hs.h % 256;
    let s = hs.s as int;
    let lo = (255 - s) as u8;
    let hi = 255u8;
    let up = (255 - s + spec_ramp(f as int, s)) as u8;
    let dn = (255 - s + spec_ramp(255 - f, s)) as u8;
    if hs.h < 256 {
        Rgb { r: hi, g: up, b: lo }
    } else if hs.h < 512 {
        Rgb { r: dn, g: hi, b: lo }
    } else if hs.h < 768 {
        Rgb { r: lo, g: hi, b: up }
    } else if hs.h < 1024 {
        Rgb { r: lo, g: dn, b: hi }
    } else if hs.h < 1280 {
        Rgb { r: up, g: lo, b: hi }
    } else {
        Rgb { r: hi, g: lo, b: dn }
    }
}

/// RGB to hue/saturation, discarding the value component.  A gray maps to
/// zero hue and zero saturation; otherwise the sector comes from which
/// channels are extreme and the step inside it from the middle channel.
pub open spec fn spec_rgb_to_hs(c: Rgb) -> Hs {
    let r = c.r as int;
    let g = c.g as int;
    let b = c.b as int;
    let max = if r >= g && r >= b {
        r
    } else if g >= b {
        g
    } else {
        b
    };
    let min = if r <= g && r <= b {
        r
    } else if g <= b {
        g
    } else {
        b
    };
    let d = max - min;
    if d == 0 {
        Hs { h: 0, s: 0 }
    } else {
        let s = (d * 255 / max) as u8;
        if r == max && g >= b {
            Hs { h: ((g - min) * 256 / d) as u16, s }
        } else if g == max && r > b {
            Hs { h: (511 - (r - min) * 256 / d) as u16, s }
        } else if g == max {
            Hs { h: (512 + (b - min) * 256 / d) as u16, s }
        } else if b == max && g > r {
            Hs { h: (1023 - (g - min) * 256 / d) as u16, s }
        } else if b == max {
            Hs { h: (1024 + (r - min) * 256 / d) as u16, s }
        } else {
            Hs { h: (1535 - (b - min) * 256 / d) as u16, s }
        }
    }
}

/// The ramp never exceeds the saturation: `f * s / 256 <= s` for `f <= 255`.
proof fn lemma_ramp_le_s(f: int, s: int)
    requires
        0 <= f <= 255,
        0 <= s <= 255,
    ensures
        0 <= spec_ramp(f, s) <= s,
{
    assert(0 <= f * s <= 256 * s) by (nonlinear_arith)
        requires 0 <= f <= 255 && 0 <= s;
    if f * s > 0 {
        vstd::arithmetic::div_mod::lemma_div_pos_is_pos(f * s, 256);
    }
    vstd::arithmetic::div_mod::lemma_multiply_divide_le(f * s, 256, s);
}

/// Convert a cached hue/saturation color to the RGB triple written to
/// hardware.
pub fn hs_to_rgb(hs: Hs) -> (c: Rgb)
    requires
        hs.wf(),
    ensures
        c == spec_hs_to_rgb(hs),
{
    let f: u32 = (hs.h % 256) as u32;
    let s: u32 = hs.s as u32;
    proof {
        lemma_ramp_le_s(f as int, s as int);
        lemma_ramp_le_s(255 - f as int, s as int);
    }
    let lo: u8 = (255 - s) as u8;
    let hi: u8 = 255;
    let up: u8 = (255 - s + f * s / 256) as u8;
    let dn: u8 = (255 - s + (255 - f) * s / 256) as u8;
    if hs.h < 256 {
        Rgb { r: hi, g: up, b: lo }
    } else if hs.h < 512 {
        Rgb { r: dn, g: hi, b: lo }
    } else if hs.h < 768 {
        Rgb { r: lo, g: hi, b: up }
    } else if hs.h < 1024 {
        Rgb { r: lo, g: dn, b: hi }
    } else if hs.h < 1280 {
        Rgb { r: up, g: lo, b: hi }
    } else {
        Rgb { r: hi, g: lo, b: dn }
    }
}

/// The step recovered from a middle channel stays within a sector.
proof fn lemma_step_in_range(m: int, d: int)
    requires
        0 <= m <= d,
        1 <= d <= 255,
    ensures
        0 <= m * 256 / d <= 256,
        m < d ==> m * 256 / d <= 255,
{
    assert(0 <= m * 256 <= d * 256) by (nonlinear_arith)
        requires 0 <= m <= d;
    if m * 256 > 0 {
        vstd::arithmetic::div_mod::lemma_div_pos_is_pos(m * 256, d);
    }
    vstd::arithmetic::div_mod::lemma_multiply_divide_le(m * 256, d, 256);
    if m < d {
        assert(m * 256 < d * 256) by (nonlinear_arith)
            requires m < d;
        vstd::arithmetic::div_mod::lemma_multiply_divide_lt(m * 256, d, 256);
    }
}

/// The ramp stays strictly below the saturation: a middle channel never
/// reaches the sector maximum.
proof fn lemma_ramp_below_s(f: int, s: int)
    requires
        0 <= f <= 255,
        1 <= s <= 255,
    ensures
        0 <= spec_ramp(f, s) <= s - 1,
{
    assert(0 <= f * s && f * s < 256 * s) by (nonlinear_arith)
        requires 0 <= f <= 255 && 1 <= s;
    if f * s > 0 {
        vstd::arithmetic::div_mod::lemma_div_pos_is_pos(f * s, 256);
    }
    vstd::arithmetic::div_mod::lemma_multiply_divide_lt(f * s, 256, s);
}

/// Recovering the sector step from a ramped middle channel and ramping it
/// again lands within one count of the first ramp.
proof fn lemma_ramp_round(s: int, m: int)
    requires
        1 <= s <= 255,
        0 <= m <= s - 1,
    ensures
        0 <= m * 256 / s <= 255,
        m >= 1 ==> m * 256 / s >= 1,
        m - 1 <= spec_ramp(m * 256 / s, s) <= m,
{
    let f2 = m * 256 / s;
    assert(0 <= m * 256 && m * 256 < s * 256) by (nonlinear_arith)
        requires 0 <= m <= s - 1 && 1 <= s;
    if m * 256 > 0 {
        vstd::arithmetic::div_mod::lemma_div_pos_is_pos(m * 256, s);
    }
    vstd::arithmetic::div_mod::lemma_multiply_divide_lt(m * 256, s, 256);
    if m >= 1 {
        assert(m * 256 >= 1 * s) by (nonlinear_arith)
            requires m >= 1 && s <= 255;
        vstd::arithmetic::div_mod::lemma_div_is_ordered(1 * s, m * 256, s);
        assert(s / s == 1) by {
            vstd::arithmetic::div_mod::lemma_div_by_self(s);
        }
    }
    // m * 256 == s * f2 + r with 0 <= r < s.
    vstd::arithmetic::div_mod::lemma_fundamental_div_mod(m * 256, s);
    let r = (m * 256) % s;
    vstd::arithmetic::div_mod::lemma_mod_bound(m * 256, s);
    // Upper: f2 * s <= 256 * m, so ramp(f2) <= m.
    assert(f2 * s <= 256 * m) by (nonlinear_arith)
        requires m * 256 == s * f2 + r && r >= 0;
    vstd::arithmetic::div_mod::lemma_div_is_ordered(f2 * s, 256 * m, 256);
    assert(256 * m / 256 == m) by {
        vstd::arithmetic::div_mod::lemma_div_multiples_vanish(m, 256);
    }
    // Lower: f2 * s >= 256 * (m - 1) + 1, so ramp(f2) >= m - 1.
    assert(f2 * s >= 256 * (m - 1) + 1) by (nonlinear_arith)
        requires m * 256 == s * f2 + r && r < s && s <= 255;
    assert((256 * (m - 1) + 1) / 256 == m - 1) by {
        vstd::arithmetic::div_mod::lemma_fundamental_div_mod_converse(
            256 * (m - 1) + 1,
            256,
            m - 1,
            1,
        );
    }
    vstd::arithmetic::div_mod::lemma_div_is_ordered(256 * (m - 1) + 1, f2 * s, 256);
}

/// Convert an RGB triple read from hardware to the cached hue/saturation
/// representation.
pub fn rgb_to_hs(c: Rgb) -> (hs: Hs)
    ensures
        hs == spec_rgb_to_hs(c),
        hs.wf(),
{
    let r: u32 = c.r as u32;
    let g: u32 = c.g as u32;
    let b: u32 = c.b as u32;
    let max: u32 = if r >= g && r >= b {
        r
    } else if g >= b {
        g
    } else {
        b
    };
    let min: u32 = if r <= g && r <= b {
        r
    } else if g <= b {
        g
    } else {
        b
    };
    let d: u32 = max - min;
    if d == 0 {
        Hs { h: 0, s: 0 }
    } else {
        proof {
            assert(0 <= d as int * 255 <= max as int * 255) by (nonlinear_arith)
                requires 0 <= d <= max;
            if d as int * 255 > 0 {
                vstd::arithmetic::div_mod::lemma_div_pos_is_pos(d as int * 255, max as int);
            }
            vstd::arithmetic::div_mod::lemma_multiply_divide_le(d as int * 255, max as int, 255);
        }
        let s: u8 = (d * 255 / max) as u8;
        if r == max && g >= b {
            proof { lemma_step_in_range((g - min) as int, d as int); }
            Hs { h: ((g - min) * 256 / d) as u16, s }
        } else if g == max && r > b {
            proof { lemma_step_in_range((r - min) as int, d as int); }
            Hs { h: (511 - (r - min) * 256 / d) as u16, s }
        } else if g == max {
            proof { lemma_step_in_range((b - min) as int, d as int); }
            Hs { h: (512 + (b - min) * 256 / d) as u16, s }
        } else if b == max && g > r {
            proof { lemma_step_in_range((g - min) as int, d as int); }
            Hs { h: (1023 - (g - min) * 256 / d) as u16, s }
        } else if b == max {
            proof { lemma_step_in_range((r - min) as int, d as int); }
            Hs { h: (1024 + (r - min) * 256 / d) as u16, s }
        } else {
            proof { lemma_step_in_range((b - min) as int, d as int); }
            Hs { h: (1535 - (b - min) * 256 / d) as u16, s }
        }
    }
}

/// A value below the modulus, shifted by whole sectors, reduces to itself.
proof fn lemma_mod_offset(k: int, x: int)
    requires
        0 <= x < 256,
        0 <= k,
    ensures
        (256 * k + x) % 256 == x,
{
    vstd::arithmetic::div_mod::lemma_mod_multiples_vanish(k, x, 256);
    vstd::arithmetic::div_mod::lemma_small_mod(x as nat, 256);
}

/// Law: the hue/saturation to RGB round trip is stable.  Converting a
/// cached color to its RGB wire form, reading that triple back as
/// hue/saturation, and converting again moves no RGB channel by more than
/// one least significant bit.
#[verifier::rlimit(60)]
pub proof fn lemma_hs_rgb_round_trip(hs: Hs)
    requires
        hs.wf(),
    ensures
        ({
            let c1 = spec_hs_to_rgb(hs);
            let c2 = spec_hs_to_rgb(spec_rgb_to_hs(c1));
            c2.r <= c1.r + 1 && c1.r <= c2.r + 1 && c2.g <= c1.g + 1 && c1.g <= c2.g + 1 && c2.b
                <= c1.b + 1 && c1.b <= c2.b + 1
        }),
{
    let s = hs.s as int;
    let h = hs.h as int;
    let f = (hs.h % 256) as int;
    let lo = 255 - s;
    let c1 = spec_hs_to_rgb(hs);
    let hs2 = spec_rgb_to_hs(c1);
    let c2 = spec_hs_to_rgb(hs2);

    assert(0 <= f < 256) by {
        vstd::arithmetic::div_mod::lemma_mod_bound(h, 256);
    }

    if s == 0 {
        assert(spec_ramp(f, 0) == 0 && spec_ramp(255 - f, 0) == 0) by {
            assert(f * 0 == 0 && (255 - f) * 0 == 0) by (nonlinear_arith);
        }
        assert(c1 == (Rgb { r: 255, g: 255, b: 255 }));
        assert(hs2 == (Hs { h: 0, s: 0 }));
        assert(spec_ramp(0, 0) == 0) by {
            assert(0 * 0 == 0) by (nonlinear_arith);
        }
        assert(c2 == (Rgb { r: 255, g: 255, b: 255 }));
    } else {
        lemma_ramp_below_s(f, s);
        lemma_ramp_below_s(255 - f, s);
        let m_up = spec_ramp(f, s);
        let m_dn = spec_ramp(255 - f, s);
        assert((255 * s) / 255 == s) by {
            vstd::arithmetic::div_mod::lemma_div_multiples_vanish(s, 255);
        }
        assert(spec_ramp(0, s) == 0) by {
            assert(0 * s == 0) by (nonlinear_arith);
        }
        if h < 256 {
            // Rising sector: red at the top, blue at the bottom.
            assert(f == h) by {
                vstd::arithmetic::div_mod::lemma_small_mod(h as nat, 256);
            }
            assert(c1 == (Rgb { r: 255, g: (lo + m_up) as u8, b: lo as u8 }));
            let f2 = m_up * 256 / s;
            lemma_ramp_round(s, m_up);
            assert(hs2 == (Hs { h: f2 as u16, s: s as u8 }));
            assert((f2 as u16) % 256 == f2) by {
                vstd::arithmetic::div_mod::lemma_small_mod(f2 as nat, 256);
            }
            assert(c2 == (Rgb { r: 255, g: (lo + spec_ramp(f2, s)) as u8, b: lo as u8 }));
            assert(m_up - 1 <= spec_ramp(f2, s) <= m_up);
        } else if h < 512 {
            // Falling sector: green at the top, red descending.
            assert(f == h - 256) by {
                lemma_mod_offset(1, h - 256);
            }
            assert(c1 == (Rgb { r: (lo + m_dn) as u8, g: 255, b: lo as u8 }));
            if m_dn == 0 {
                assert(hs2 == (Hs { h: 512, s: s as u8 }));
                assert((512u16 as int) % 256 == 0) by {
                    lemma_mod_offset(2, 0);
                }
                assert(c2 == (Rgb { r: lo as u8, g: 255, b: (lo + spec_ramp(0, s)) as u8 }));
            } else {
                let f2 = m_dn * 256 / s;
                lemma_ramp_round(s, m_dn);
                assert(hs2 == (Hs { h: (511 - f2) as u16, s: s as u8 }));
                assert((511 - f2) % 256 == 255 - f2) by {
                    lemma_mod_offset(1, 255 - f2);
                }
                assert(c2 == (Rgb {
                    r: (lo + spec_ramp(255 - (255 - f2), s)) as u8,
                    g: 255,
                    b: lo as u8,
                }));
                assert(m_dn - 1 <= spec_ramp(f2, s) <= m_dn);
            }
        } else if h < 768 {
            // Rising sector: green at the top, blue ascending.
            assert(f == h - 512) by {
                lemma_mod_offset(2, h - 512);
            }
            assert(c1 == (Rgb { r: lo as u8, g: 255, b: (lo + m_up) as u8 }));
            let f2 = m_up * 256 / s;
            lemma_ramp_round(s, m_up);
            assert(hs2 == (Hs { h: (512 + f2) as u16, s: s as u8 }));
            assert((512 + f2) % 256 == f2) by {
                lemma_mod_offset(2, f2);
            }
            assert(c2 == (Rgb { r: lo as u8, g: 255, b: (lo + spec_ramp(f2, s)) as u8 }));
            assert(m_up - 1 <= spec_ramp(f2, s) <= m_up);
        } else if h < 1024 {
            // Falling sector: blue at the top, green descending.
            assert(f == h - 768) by {
                lemma_mod_offset(3, h - 768);
            }
            assert(c1 == (Rgb { r: lo as u8, g: (lo + m_dn) as u8, b: 255 }));
            if m_dn == 0 {
                assert(hs2 == (Hs { h: 1024, s: s as u8 }));
                assert((1024u16 as int) % 256 == 0) by {
                    lemma_mod_offset(4, 0);
                }
                assert(c2 == (Rgb { r: (lo + spec_ramp(0, s)) as u8, g: lo as u8, b: 255 }));
            } else {
                let f2 = m_dn * 256 / s;
                lemma_ramp_round(s, m_dn);
                assert(hs2 == (Hs { h: (1023 - f2) as u16, s: s as u8 }));
                assert((1023 - f2) % 256 == 255 - f2) by {
                    lemma_mod_offset(3, 255 - f2);
                }
                assert(c2 == (Rgb {
                    r: lo as u8,
                    g: (lo + spec_ramp(255 - (255 - f2), s)) as u8,
                    b: 255,
                }));
                assert(m_dn - 1 <= spec_ramp(f2, s) <= m_dn);
            }
        } else if h < 1280 {
            // Rising sector: blue at the top, red ascending.
            assert(f == h - 1024) by {
                lemma_mod_offset(4, h - 1024);
            }
            assert(c1 == (Rgb { r: (lo + m_up) as u8, g: lo as u8, b: 255 }));
            let f2 = m_up * 256 / s;
            lemma_ramp_round(s, m_up);
            assert(hs2 == (Hs { h: (1024 + f2) as u16, s: s as u8 }));
            assert((1024 + f2) % 256 == f2) by {
                lemma_mod_offset(4, f2);
            }
            assert(c2 == (Rgb { r: (lo + spec_ramp(f2, s)) as u8, g: lo as u8, b: 255 }));
            assert(m_up - 1 <= spec_ramp(f2, s) <= m_up);
        } else {
            // Falling sector: red at the top, blue descending.
            assert(f == h - 1280) by {
                lemma_mod_offset(5, h - 1280);
            }
            assert(c1 == (Rgb { r: 255, g: lo as u8, b: (lo + m_dn) as u8 }));
            if m_dn == 0 {
                assert(hs2 == (Hs { h: 0, s: s as u8 }));
                assert(c2 == (Rgb { r: 255, g: (lo + spec_ramp(0, s)) as u8, b: lo as u8 }));
            } else {
                let f2 = m_dn * 256 / s;
                lemma_ramp_round(s, m_dn);
                assert(hs2 == (Hs { h: (1535 - f2) as u16, s: s as u8 }));
                assert((1535 - f2) % 256 == 255 - f2) by {
                    lemma_mod_offset(5, 255 - f2);
                }
                assert(c2 == (Rgb {
                    r: 255,
                    g: lo as u8,
                    b: (lo + spec_ramp(255 - (255 - f2), s)) as u8,
                }));
                assert(m_dn - 1 <= spec_ramp(f2, s) <= m_dn);
            }
        }
    }
}

} // verus!
