//! The stroke color and its deterministic cycle.
//!
//! An RGB triple is treated as a 24-bit big-endian integer (red most
//! significant). After every drawn segment the code advances by one and wraps
//! from pure white (16,777,215) back to black (0), so the color runs through a
//! cycle of length 16,777,216 with no repeats before a full wraparound.

use vstd::prelude::*;

verus! {

/// Number of distinct stroke colors: 2^24.
pub const COLOR_CYCLE_LEN: u32 = 16777216;

/// An RGB stroke color.
#[derive(Clone, Copy, PartialEq, Eq, Structural, Debug)]
pub struct Color {
    pub r: u8,
    pub g: u8,
    pub b: u8,
}

/// The 24-bit code of a color: red is the most significant byte.
pub open spec fn color_code(c: Color) -> int {
    c.r * 65536 + c.g * 256 + c.b
}

/// The color whose 24-bit code is `n` (meaningful for `0 <= n < 16777216`).
pub open spec fn color_of_code(n: int) -> Color {
    Color { r: (n / 65536 % 256) as u8, g: (n / 256 % 256) as u8, b: (n % 256) as u8 }
}

/// One advance of the stroke color: the successor code, wrapping to black.
pub open spec fn color_step(c: Color) -> Color {
    color_of_code((color_code(c) + 1) % (COLOR_CYCLE_LEN as int))
}

/// The color reached from `c` after `k` advances.
pub open spec fn color_after(c: Color, k: nat) -> Color
    decreases k,
{
    if k == 0 {
        c
    } else {
        color_step(color_after(c, (k - 1) as nat))
    }
}

pub proof fn lemma_color_code_bounds(c: Color)
    ensures
        0 <= color_code(c) < 16777216,
{
}

pub proof fn lemma_color_of_code_inverse(n: int)
    requires
        0 <= n < 16777216,
    ensures
        color_code(color_of_code(n)) == n,
{
    assert(n / 65536 % 256 == n / 65536) by {
        assert(n / 65536 < 256) by (nonlinear_arith)
            requires 0 <= n < 16777216;
        assert(n / 65536 >= 0) by (nonlinear_arith)
            requires n >= 0;
    }
    assert((n / 65536) * 65536 + (n / 256 % 256) * 256 + n % 256 == n) by (nonlinear_arith)
        requires 0 <= n < 16777216;
}

pub proof fn lemma_color_code_of_color(c: Color)
    ensures
        color_of_code(color_code(c)) == c,
{
    let n = color_code(c);
    assert(n / 65536 % 256 == c.r && n / 256 % 256 == c.g && n % 256 == c.b) by (nonlinear_arith)
        requires n == c.r * 65536 + c.g * 256 + c.b, c.r < 256, c.g < 256, c.b < 256;
}

pub proof fn lemma_color_after_code(c: Color, k: nat)
    ensures
        color_code(color_after(c, k)) == (color_code(c) + k) % 16777216,
    decreases k,
{
    let m = 16777216int;
    let e = color_code(c);
    lemma_color_code_bounds(c);
    if k == 0 {
        vstd::arithmetic::div_mod::lemma_small_mod(e as nat, m as nat);
    } else {
        lemma_color_after_code(c, (k - 1) as nat);
        let prev = color_code(color_after(c, (k - 1) as nat));
        vstd::arithmetic::div_mod::lemma_mod_bound(e + k - 1, m);
        lemma_color_of_code_inverse((prev + 1) % m);
        vstd::arithmetic::div_mod::lemma_small_mod(1nat, m as nat);
        vstd::arithmetic::div_mod::lemma_mod_twice(e + k - 1, m);
        vstd::arithmetic::div_mod::lemma_add_mod_noop(e + k - 1, 1, m);
    }
}

/// The stroke color sequence has no repeats before a full wraparound: from any
/// starting color, two advance counts below the cycle length that differ give
/// different colors.
pub proof fn lemma_color_cycle_no_repeat(c: Color, i: nat, j: nat)
    requires
        i < j < 16777216,
    ensures
        color_after(c, i) != color_after(c, j),
{
    let m = 16777216int;
    let e = color_code(c);
    lemma_color_code_bounds(c);
    lemma_color_after_code(c, i);
    lemma_color_after_code(c, j);
    let a = (e + i) % m;
    let d = j - i;
    vstd::arithmetic::div_mod::lemma_mod_bound(e + i, m);
    vstd::arithmetic::div_mod::lemma_mod_twice(e + i, m);
    vstd::arithmetic::div_mod::lemma_add_mod_noop(e + i, d, m);
    vstd::arithmetic::div_mod::lemma_small_mod(d as nat, m as nat);
    // (e + j) % m == (a + d) % m, and adding 0 < d < m to a cannot return to a
    if a + d < m {
        vstd::arithmetic::div_mod::lemma_small_mod((a + d) as nat, m as nat);
    } else {
        vstd::arithmetic::div_mod::lemma_mod_sub_multiples_vanish(a + d, m);
        vstd::arithmetic::div_mod::lemma_small_mod((a + d - m) as nat, m as nat);
    }
    assert(color_code(color_after(c, i)) != color_code(color_after(c, j)));
}

/// A full wraparound returns the stroke color to its starting value: the
/// cycle has length exactly 16,777,216.
pub proof fn lemma_color_cycle_wraps(c: Color)
    ensures
        color_after(c, 16777216) == c,
{
    let m = 16777216int;
    let e = color_code(c);
    lemma_color_code_bounds(c);
    lemma_color_after_code(c, 16777216);
    vstd::arithmetic::div_mod::lemma_mod_sub_multiples_vanish(e + m, m);
    vstd::arithmetic::div_mod::lemma_small_mod(e as nat, m as nat);
    lemma_color_code_of_color(c);
    lemma_color_code_of_color(color_after(c, 16777216));
}

/// Immediately after pure white the stroke color is exactly black.
pub proof fn lemma_white_wraps_to_black()
    ensures
        color_after(Color { r: 255, g: 255, b: 255 }, 1) == (Color { r: 0, g: 0, b: 0 }),
{
    let white = Color { r: 255, g: 255, b: 255 };
    assert(color_code(white) == 16777215);
    vstd::arithmetic::div_mod::lemma_mod_self_0(16777216);
    assert(color_after(white, 0) == white);
    assert(color_after(white, 1) == color_step(white));
}

/// Advance a stroke color by one: increment its 24-bit code, wrapping from
/// white back to black.
pub fn next_color(c: Color) -> (n: Color)
    ensures
        color_code(n) == (color_code(c) + 1) % 16777216,
        n == color_step(c),
{
    let code: u32 = (c.r as u32) * 65536 + (c.g as u32) * 256 + (c.b as u32);
    let next: u32 = if code == COLOR_CYCLE_LEN - 1 {
        0
    } else {
        code + 1
    };
    proof {
        lemma_color_of_code_inverse(next as int);
    }
    Color { r: (next / 65536 % 256) as u8, g: (next / 256 % 256) as u8, b: (next % 256) as u8 }
}

} // verus!
