//! Select Graphic Rendition: colors and modifiers as escape-sequence parameters.

use vstd::prelude::*;

use crate::decimal;
use crate::decimal::push_u8_dec;

verus! {

/// ASCII `;`, which separates parameters.
pub const SEMICOLON: u8 = 0x3b;

/// The number of modifier bits that have a parameter.
pub const MODIFIER_COUNT: u16 = 9;

/// The parameter of a named color. `base` is 30 for the foreground and 40 for the
/// background. The first eight colors follow `base`, the bright ones `base + 60`;
/// everything else selects the terminal's default color.
pub open spec fn named_color(name: nat, base: nat) -> nat {
    if 1 <= name <= 8 {
        (base + name - 1) as nat
    } else if 9 <= name <= 16 {
        (base + 60 + name - 9) as nat
    } else {
        base + 9
    }
}

/// The parameters of a packed color.
pub open spec fn color_params(val: u32, base: nat) -> Seq<u8> {
    let kind = val / 0x100_0000;
    let high = ((val / 0x1_0000) % 0x100) as nat;
    let mid = ((val / 0x100) % 0x100) as nat;
    let low = (val % 0x100) as nat;
    if kind == 0 {
        decimal::decimal(named_color(low, base))
    } else if kind == 1 {
        decimal::decimal(base + 8) + seq![SEMICOLON] + decimal::decimal(5) + seq![SEMICOLON]
            + decimal::decimal(low)
    } else if kind == 2 {
        decimal::decimal(base + 8) + seq![SEMICOLON] + decimal::decimal(2) + seq![SEMICOLON]
            + decimal::decimal(high) + seq![SEMICOLON] + decimal::decimal(mid) + seq![SEMICOLON]
            + decimal::decimal(low)
    } else {
        decimal::decimal(base + 9)
    }
}

/// The base of the foreground parameters.
pub const FG_BASE: u8 = 30;

/// The base of the background parameters.
pub const BG_BASE: u8 = 40;

/// The parameter code of a named color of one layer.
fn named_color_code(name: u8, base: u8) -> (code: u8)
    requires
        base == FG_BASE || base == BG_BASE,
    ensures
        code == named_color(name as nat, base as nat),
{
    match name {
        0x01 => base,  // Black
        0x02 => base + 1,  // Red
        0x03 => base + 2,  // Green
        0x04 => base + 3,  // Yellow
        0x05 => base + 4,  // Blue
        0x06 => base + 5,  // Magenta
        0x07 => base + 6,  // Cyan
        0x08 => base + 7,  // Gray (light gray)
        0x09 => base + 60,  // DarkGray
        0x0A => base + 61,  // LightRed
        0x0B => base + 62,  // LightGreen
        0x0C => base + 63,  // LightYellow
        0x0D => base + 64,  // LightBlue
        0x0E => base + 65,  // LightMagenta
        0x0F => base + 66,  // LightCyan
        0x10 => base + 67,  // White
        _ => base + 9,  // Reset, and anything unknown
    }
}

/// Appends the parameters of a packed color of one layer.
fn write_color_sgr(out: &mut Vec<u8>, val: u32, base: u8)
    requires
        base == FG_BASE || base == BG_BASE,
    ensures
        final(out)@ == old(out)@ + color_params(val, base as nat),
{
    assert(val >> 24 == val / 0x100_0000 && val & 0xff == val % 0x100 && (val >> 16) & 0xff == (val
        / 0x1_0000) % 0x100 && (val >> 8) & 0xff == (val / 0x100) % 0x100) by (bit_vector);
    assert(val & 0xff <= 0xff && (val >> 16) & 0xff <= 0xff && (val >> 8) & 0xff <= 0xff)
        by (bit_vector);
    let low: u8 = (val & 0xff) as u8;
    match val >> 24 {
        0x00 => push_u8_dec(out, named_color_code(low, base)),
        0x01 => {
            push_u8_dec(out, base + 8);
            out.push(SEMICOLON);
            push_u8_dec(out, 5);
            out.push(SEMICOLON);
            push_u8_dec(out, low);
        },
        0x02 => {
            push_u8_dec(out, base + 8);
            out.push(SEMICOLON);
            push_u8_dec(out, 2);
            out.push(SEMICOLON);
            push_u8_dec(out, ((val >> 16) & 0xff) as u8);
            out.push(SEMICOLON);
            push_u8_dec(out, ((val >> 8) & 0xff) as u8);
            out.push(SEMICOLON);
            push_u8_dec(out, low);
        },
        _ => push_u8_dec(out, base + 9),
    }
    assert(out@ =~= old(out)@ + color_params(val, base as nat));
}

/// Appends the foreground parameters of a packed color, such as `38;5;123`,
/// `38;2;255;128;64` or `39`, without the introducer or the final `m`.
pub fn write_color_sgr_fg(out: &mut Vec<u8>, val: u32)
    ensures
        final(out)@ == old(out)@ + color_params(val, 30),
{
    write_color_sgr(out, val, FG_BASE)
}

/// Appends the background parameters of a packed color.
pub fn write_color_sgr_bg(out: &mut Vec<u8>, val: u32)
    ensures
        final(out)@ == old(out)@ + color_params(val, 40),
{
    write_color_sgr(out, val, BG_BASE)
}

/// Whether modifier bit `i` is set.
pub open spec fn modifier_set(modifier: u16, i: nat) -> bool {
    modifier & (1u16 << (i as u16)) != 0
}

/// The parameters of the modifier bits below `n`, each led by a `;`: bit `i` is the
/// digit `i + 1`.
pub open spec fn modifier_params(modifier: u16, n: nat) -> Seq<u8>
    decreases n,
{
    if n == 0 {
        Seq::empty()
    } else {
        let below = modifier_params(modifier, (n - 1) as nat);
        if modifier_set(modifier, (n - 1) as nat) {
            below + seq![SEMICOLON, (0x30 + n) as u8]
        } else {
            below
        }
    }
}

/// The complete escape sequence of a style: a reset, then the modifiers in the order
/// of their bits, then the foreground, then the background.
pub open spec fn sgr_bytes(fg: u32, bg: u32, modifier: u16) -> Seq<u8> {
    seq![0x1b, 0x5b, 0x30] + modifier_params(modifier, MODIFIER_COUNT as nat) + seq![SEMICOLON]
        + color_params(fg, 30) + seq![SEMICOLON] + color_params(bg, 40) + seq![0x6d]
}

/// Appends the complete escape sequence of a style: `ESC [ 0`, each set modifier in
/// the order of the bits, the foreground, the background, and a final `m`.
pub fn build_sgr_into(out: &mut Vec<u8>, fg: u32, bg: u32, modifier: u16)
    ensures
        final(out)@ == old(out)@ + sgr_bytes(fg, bg, modifier),
{
    let ghost start = out@;
    out.push(0x1b);
    out.push(0x5b);
    out.push(0x30);
    for i in 0..MODIFIER_COUNT
        invariant
            out@ =~= start + seq![0x1b, 0x5b, 0x30] + modifier_params(modifier, i as nat),
    {
        let bit: u16 = 1u16 << i;
        if modifier & bit != 0 {
            out.push(SEMICOLON);
            out.push(0x31 + i as u8);
        }
    }
    out.push(SEMICOLON);
    write_color_sgr_fg(out, fg);
    out.push(SEMICOLON);
    write_color_sgr_bg(out, bg);
    out.push(0x6d);
    assert(out@ =~= start + sgr_bytes(fg, bg, modifier));
}

/// The parameters of the named colors, by their names, in the foreground. The terminal's
/// default color comes first.
pub open spec fn standard_foreground() -> Seq<int> {
    seq![39, 30, 31, 32, 33, 34, 35, 36, 37, 90, 91, 92, 93, 94, 95, 96, 97]
}

/// The parameters of the named colors, by their names, in the background.
pub open spec fn standard_background() -> Seq<int> {
    seq![49, 40, 41, 42, 43, 44, 45, 46, 47, 100, 101, 102, 103, 104, 105, 106, 107]
}

/// A named color is written as its standard parameter, in either layer, and a name that
/// stands for no color as the terminal's default one.
pub proof fn law_named_colors_have_standard_parameters(val: u32)
    requires
        val <= 0xff,
    ensures
        ({
            let fg = decimal::decimal_value(color_params(val, FG_BASE as nat));
            let bg = decimal::decimal_value(color_params(val, BG_BASE as nat));
            &&& val <= 16 ==> fg == standard_foreground()[val as int] && bg
                == standard_background()[val as int]
            &&& val > 16 ==> fg == 39 && bg == 49
        }),
{
    decimal::law_decimal_denotes_number(named_color(val as nat, FG_BASE as nat));
    decimal::law_decimal_denotes_number(named_color(val as nat, BG_BASE as nat));
}

/// The parameters of the eight colors follow each other, and so do those of the eight
/// bright ones, which are 60 more. The background is 10 more than the foreground.
pub proof fn law_named_parameters_follow_each_other(val: u32, base: u8)
    requires
        base == FG_BASE || base == BG_BASE,
        1 <= val <= 8,
    ensures
        ({
            let param = |v: u32, b: u8| decimal::decimal_value(color_params(v, b as nat));
            &&& val < 8 ==> param((val + 1) as u32, base) == param(val, base) + 1
            &&& param((val + 8) as u32, base) == param(val, base) + 60
            &&& param(val, BG_BASE) == param(val, FG_BASE) + 10
            &&& param(1, FG_BASE) == 30
        }),
{
    law_named_colors_have_standard_parameters(val);
    law_named_colors_have_standard_parameters((val + 8) as u32);
    law_named_colors_have_standard_parameters(1);
    if val < 8 {
        law_named_colors_have_standard_parameters((val + 1) as u32);
    }
}

/// Colors that differ in what they stand for are written differently in each layer:
/// named ones by their names, up to the last, indexed ones by their indices.
pub proof fn law_colors_are_told_apart(a: u32, b: u32, base: u8)
    requires
        base == FG_BASE || base == BG_BASE,
        a <= 16 && b <= 16,
        color_params(a, base as nat) == color_params(b, base as nat),
    ensures
        a == b,
{
    law_named_colors_have_standard_parameters(a);
    law_named_colors_have_standard_parameters(b);
}

} // verus!
