//! What a terminal hears in a stream of bytes.
//!
//! A terminal is specified here by the sequences that it understands, without regard to
//! what writes them: it takes the bytes apart, reads numbers in them, and looks colors
//! and modifiers up in its own tables. The laws say that it hears in the bytes of a
//! frame exactly what the instructions of the frame say, and that it displays the cells
//! of the frame afterwards.
//!
//! The laws on what is displayed take an empty text to have no width, which is what
//! [`width::cell_width`] gives for it.

use vstd::prelude::*;

use crate::cursor;
use crate::decimal;
use crate::encoder;
use crate::hyperlink;
use crate::ops;
use crate::ops::Op;
use crate::protocol;
use crate::protocol::{CellView, FrameView};
use crate::render_ansi;
use crate::render_stream;
use crate::screen;
use crate::sgr;
use crate::width;

verus! {

/// A color, as a terminal has it.
pub enum Hue {
    Default,
    Black,
    Red,
    Green,
    Yellow,
    Blue,
    Magenta,
    Cyan,
    Gray,
    DarkGray,
    LightRed,
    LightGreen,
    LightYellow,
    LightBlue,
    LightMagenta,
    LightCyan,
    White,
    Indexed(int),
    Rgb(int, int, int),
}

/// A style, as a terminal has it. The marks are bold, dim, italic, underlined, slow
/// blink, rapid blink, reversed, hidden and crossed out.
#[verifier::ext_equal]
pub struct Rendition {
    pub fg: Hue,
    pub bg: Hue,
    pub marks: Seq<bool>,
}

/// One thing that a terminal hears. Positions count columns and rows from 0.
pub enum Heard {
    HideCursor,
    ShowCursor,
    BeginSync,
    EndSync,
    Erase,
    MoveTo { x: int, y: int },
    CursorShape(int),
    Style(Rendition),
    /// The target of what is written from here on; none if it is empty.
    Link(Seq<char>),
    Text(Seq<char>),
    Unknown,
}

// ---------------------------------------------------------------------------
// Numbers, colors and modifiers
// ---------------------------------------------------------------------------

/// The numbers in a list that semicolons separate. One that is left out is 0.
pub open spec fn numbers(bytes: Seq<u8>) -> Seq<int>
    decreases bytes.len(),
{
    if bytes.len() == 0 {
        seq![0]
    } else {
        let before = numbers(bytes.drop_last());
        let last = bytes.last();
        if last == 0x3b {
            before.push(0)
        } else {
            before.update(before.len() - 1, before.last() * 10 + (last - 0x30))
        }
    }
}

/// The named color of a foreground parameter.
pub open spec fn fg_hue(param: int) -> Option<Hue> {
    if param == 39 {
        Some(Hue::Default)
    } else if param == 30 {
        Some(Hue::Black)
    } else if param == 31 {
        Some(Hue::Red)
    } else if param == 32 {
        Some(Hue::Green)
    } else if param == 33 {
        Some(Hue::Yellow)
    } else if param == 34 {
        Some(Hue::Blue)
    } else if param == 35 {
        Some(Hue::Magenta)
    } else if param == 36 {
        Some(Hue::Cyan)
    } else if param == 37 {
        Some(Hue::Gray)
    } else if param == 90 {
        Some(Hue::DarkGray)
    } else if param == 91 {
        Some(Hue::LightRed)
    } else if param == 92 {
        Some(Hue::LightGreen)
    } else if param == 93 {
        Some(Hue::LightYellow)
    } else if param == 94 {
        Some(Hue::LightBlue)
    } else if param == 95 {
        Some(Hue::LightMagenta)
    } else if param == 96 {
        Some(Hue::LightCyan)
    } else if param == 97 {
        Some(Hue::White)
    } else {
        None
    }
}

/// The named color of a background parameter: ten more than for the foreground.
pub open spec fn bg_hue(param: int) -> Option<Hue> {
    fg_hue(param - 10)
}

/// The style that nothing was set of.
pub open spec fn plain() -> Rendition {
    Rendition { fg: Hue::Default, bg: Hue::Default, marks: Seq::new(9, |i: int| false) }
}

/// A style after a list of parameters.
pub open spec fn rendered(params: Seq<int>, style: Rendition) -> Rendition
    decreases params.len(),
{
    if params.len() == 0 {
        style
    } else {
        let p = params[0];
        if p == 0 {
            rendered(params.skip(1), plain())
        } else if 1 <= p <= 9 {
            rendered(
                params.skip(1),
                Rendition { marks: style.marks.update(p - 1, true), ..style },
            )
        } else if (p == 38 || p == 48) && params.len() >= 3 && params[1] == 5 {
            let hue = Hue::Indexed(params[2]);
            rendered(
                params.skip(3),
                if p == 38 {
                    Rendition { fg: hue, ..style }
                } else {
                    Rendition { bg: hue, ..style }
                },
            )
        } else if (p == 38 || p == 48) && params.len() >= 5 && params[1] == 2 {
            let hue = Hue::Rgb(params[2], params[3], params[4]);
            rendered(
                params.skip(5),
                if p == 38 {
                    Rendition { fg: hue, ..style }
                } else {
                    Rendition { bg: hue, ..style }
                },
            )
        } else if fg_hue(p) is Some {
            rendered(params.skip(1), Rendition { fg: fg_hue(p).unwrap(), ..style })
        } else if bg_hue(p) is Some {
            rendered(params.skip(1), Rendition { bg: bg_hue(p).unwrap(), ..style })
        } else {
            rendered(params.skip(1), style)
        }
    }
}

// ---------------------------------------------------------------------------
// Taking bytes apart
// ---------------------------------------------------------------------------

/// Where the final byte of a control sequence is, from `i` on.
pub open spec fn final_at(bytes: Seq<u8>, i: int) -> int
    decreases bytes.len() - i,
{
    if i >= bytes.len() || 0x40 <= bytes[i] <= 0x7e {
        i
    } else {
        final_at(bytes, i + 1)
    }
}

/// Where the next escape is, from `i` on.
pub open spec fn escape_at(bytes: Seq<u8>, i: int) -> int
    decreases bytes.len() - i,
{
    if i >= bytes.len() || bytes[i] == 0x1b {
        i
    } else {
        escape_at(bytes, i + 1)
    }
}

/// What a control sequence with these parameters and this final byte says. A style is
/// understood only if it starts from the plain one, so that it does not depend on the
/// style before it.
pub open spec fn control(params: Seq<u8>, last: u8) -> Heard {
    if last == 0x48 {
        if params.len() == 0 {
            Heard::MoveTo { x: 0, y: 0 }
        } else {
            Heard::MoveTo { x: numbers(params)[1] - 1, y: numbers(params)[0] - 1 }
        }
    } else if last == 0x4a && params == seq![0x32u8] {
        Heard::Erase
    } else if last == 0x6d && numbers(params)[0] == 0 {
        Heard::Style(rendered(numbers(params), plain()))
    } else if last == 0x71 && params.len() > 0 && params.last() == 0x20 {
        Heard::CursorShape(numbers(params.drop_last())[0])
    } else if params == seq![0x3fu8, 0x32, 0x35] && last == 0x6c {
        Heard::HideCursor
    } else if params == seq![0x3fu8, 0x32, 0x35] && last == 0x68 {
        Heard::ShowCursor
    } else if params == seq![0x3fu8, 0x32, 0x30, 0x32, 0x36] && last == 0x68 {
        Heard::BeginSync
    } else if params == seq![0x3fu8, 0x32, 0x30, 0x32, 0x36] && last == 0x6c {
        Heard::EndSync
    } else {
        Heard::Unknown
    }
}

/// `ESC ] 8 ; ;`, which sets the target of what is written.
pub open spec fn link_start() -> Seq<u8> {
    seq![0x1b, 0x5d, 0x38, 0x3b, 0x3b]
}

/// What a terminal hears in a stream of bytes, one thing after the other.
pub open spec fn heard(bytes: Seq<u8>) -> Seq<Heard>
    decreases bytes.len(),
{
    if bytes.len() == 0 {
        Seq::empty()
    } else if bytes[0] != 0x1b {
        let end = escape_at(bytes, 1);
        if 1 <= end <= bytes.len() {
            seq![Heard::Text(vstd::utf8::decode_utf8(bytes.take(end)))] + heard(bytes.skip(end))
        } else {
            seq![Heard::Unknown]
        }
    } else if bytes.len() >= 2 && bytes[1] == 0x5b {
        let end = final_at(bytes, 2);
        if 2 <= end < bytes.len() {
            seq![control(bytes.subrange(2, end), bytes[end])] + heard(bytes.skip(end + 1))
        } else {
            seq![Heard::Unknown]
        }
    } else if bytes.len() >= 5 && bytes.take(5) == link_start() {
        let end = escape_at(bytes, 5);
        if 5 <= end < bytes.len() - 1 && bytes[end + 1] == 0x5c {
            seq![Heard::Link(vstd::utf8::decode_utf8(bytes.subrange(5, end)))] + heard(
                bytes.skip(end + 2),
            )
        } else {
            seq![Heard::Unknown]
        }
    } else {
        seq![Heard::Unknown]
    }
}

// ---------------------------------------------------------------------------
// What instructions say
// ---------------------------------------------------------------------------

/// The color that a packed color stands for.
pub open spec fn packed_hue(val: u32) -> Hue {
    let kind = val / 0x100_0000;
    let name = val % 0x100;
    if kind == 1 {
        Hue::Indexed(name as int)
    } else if kind == 2 {
        Hue::Rgb((val / 0x1_0000 % 0x100) as int, (val / 0x100 % 0x100) as int, name as int)
    } else if kind != 0 {
        Hue::Default
    } else if name == 1 {
        Hue::Black
    } else if name == 2 {
        Hue::Red
    } else if name == 3 {
        Hue::Green
    } else if name == 4 {
        Hue::Yellow
    } else if name == 5 {
        Hue::Blue
    } else if name == 6 {
        Hue::Magenta
    } else if name == 7 {
        Hue::Cyan
    } else if name == 8 {
        Hue::Gray
    } else if name == 9 {
        Hue::DarkGray
    } else if name == 10 {
        Hue::LightRed
    } else if name == 11 {
        Hue::LightGreen
    } else if name == 12 {
        Hue::LightYellow
    } else if name == 13 {
        Hue::LightBlue
    } else if name == 14 {
        Hue::LightMagenta
    } else if name == 15 {
        Hue::LightCyan
    } else if name == 16 {
        Hue::White
    } else {
        Hue::Default
    }
}

/// The marks that a set of modifiers stands for: the bits in their order.
pub open spec fn packed_marks(modifier: u16) -> Seq<bool> {
    seq![
        modifier % 2 == 1,
        modifier / 2 % 2 == 1,
        modifier / 4 % 2 == 1,
        modifier / 8 % 2 == 1,
        modifier / 16 % 2 == 1,
        modifier / 32 % 2 == 1,
        modifier / 64 % 2 == 1,
        modifier / 128 % 2 == 1,
        modifier / 256 % 2 == 1,
    ]
}

/// The style that packed colors and modifiers stand for.
pub open spec fn packed_style(fg: u32, bg: u32, modifier: u16) -> Rendition {
    Rendition { fg: packed_hue(fg), bg: packed_hue(bg), marks: packed_marks(modifier) }
}

/// What an instruction says to a terminal.
pub open spec fn said(op: Op) -> Seq<Heard> {
    match op {
        Op::HideCursor => seq![Heard::HideCursor],
        Op::ShowCursor => seq![Heard::ShowCursor],
        Op::BeginSync => seq![Heard::BeginSync],
        Op::EndSync => seq![Heard::EndSync],
        Op::ClearScreen => seq![Heard::Erase, Heard::MoveTo { x: 0, y: 0 }],
        Op::MoveTo { x, y } => seq![Heard::MoveTo { x: x as int, y: y as int }],
        Op::CursorShape(shape) => seq![Heard::CursorShape(shape as int)],
        Op::Style { fg, bg, modifier } => seq![Heard::Style(packed_style(fg, bg, modifier))],
        Op::ResetStyle => seq![Heard::Style(plain())],
        Op::OpenLink(uri) => seq![Heard::Link(uri)],
        Op::CloseLink => seq![Heard::Link(Seq::empty())],
        Op::Text(text) => if text.len() == 0 {
            Seq::empty()
        } else {
            seq![Heard::Text(text)]
        },
    }
}

/// What a list of instructions says to a terminal.
pub open spec fn all_said(ops: Seq<Op>) -> Seq<Heard>
    decreases ops.len(),
{
    if ops.len() == 0 {
        Seq::empty()
    } else {
        said(ops[0]) + all_said(ops.skip(1))
    }
}

/// A text without escapes.
pub open spec fn no_escape(text: Seq<char>) -> bool {
    forall|i: int| 0 <= i < text.len() ==> #[trigger] text[i] != '\x1b'
}

/// Instructions that can be told apart in their bytes: no text or target holds an
/// escape, and no two texts follow each other.
pub open spec fn distinct(ops: Seq<Op>) -> bool {
    &&& forall|i: int| 0 <= i < ops.len() ==> ((#[trigger] ops[i]) matches Op::Text(t) ==> no_escape(t))
    &&& forall|i: int|
        0 <= i < ops.len() ==> ((#[trigger] ops[i]) matches Op::OpenLink(t) ==> no_escape(t))
    &&& forall|i: int| 0 <= i < ops.len() - 1 && (#[trigger] ops[i]) is Text ==> !(ops[i + 1] is Text)
}

// ---------------------------------------------------------------------------
// Proofs: numbers
// ---------------------------------------------------------------------------

proof fn lemma_numbers_digits(before: Seq<u8>, n: nat)
    requires
        numbers(before).len() > 0,
        numbers(before).last() == 0,
    ensures
        numbers(before + decimal::decimal(n)) == numbers(before).update(
            numbers(before).len() - 1,
            n as int,
        ),
    decreases n,
{
    let all = before + decimal::decimal(n);
    if n < 10 {
        assert(all.drop_last() =~= before);
    } else {
        lemma_numbers_digits(before, n / 10);
        assert(all.drop_last() =~= before + decimal::decimal(n / 10));
        assert(all.last() == (0x30 + n % 10) as u8);
    }
    assert(numbers(all) =~= numbers(before).update(numbers(before).len() - 1, n as int));
}

proof fn lemma_numbers_nonempty(bytes: Seq<u8>)
    ensures
        numbers(bytes).len() > 0,
    decreases bytes.len(),
{
    if bytes.len() > 0 {
        lemma_numbers_nonempty(bytes.drop_last());
    }
}

/// One number alone.
proof fn lemma_numbers_one(n: nat)
    ensures
        numbers(decimal::decimal(n)) == seq![n as int],
{
    lemma_numbers_digits(Seq::empty(), n);
    assert(Seq::<u8>::empty() + decimal::decimal(n) =~= decimal::decimal(n));
    assert(numbers(decimal::decimal(n)) =~= seq![n as int]);
}

/// One more number after a semicolon.
proof fn lemma_numbers_more(before: Seq<u8>, n: nat)
    ensures
        numbers(before + seq![0x3bu8] + decimal::decimal(n)) == numbers(before).push(n as int),
{
    let open = before + seq![0x3bu8];
    assert(open.drop_last() =~= before);
    lemma_numbers_nonempty(before);
    lemma_numbers_digits(open, n);
    assert(numbers(open + decimal::decimal(n)) =~= numbers(before).push(n as int));
}

// ---------------------------------------------------------------------------
// Proofs: control sequences, texts and targets
// ---------------------------------------------------------------------------

/// Parameter bytes: digits, separators and the like.
spec fn param_bytes(bytes: Seq<u8>) -> bool {
    forall|i: int| 0 <= i < bytes.len() ==> 0x20 <= #[trigger] bytes[i] <= 0x3f
}

proof fn lemma_final_at(bytes: Seq<u8>, i: int, end: int)
    requires
        0 <= i <= end < bytes.len(),
        forall|k: int| i <= k < end ==> !(0x40 <= #[trigger] bytes[k] <= 0x7e),
        0x40 <= bytes[end] <= 0x7e,
    ensures
        final_at(bytes, i) == end,
    decreases end - i,
{
    if i < end {
        lemma_final_at(bytes, i + 1, end);
    }
}

proof fn lemma_escape_at(bytes: Seq<u8>, i: int, end: int)
    requires
        0 <= i <= end <= bytes.len(),
        forall|k: int| i <= k < end ==> #[trigger] bytes[k] != 0x1b,
        end < bytes.len() ==> bytes[end] == 0x1b,
    ensures
        escape_at(bytes, i) == end,
    decreases end - i,
{
    if i < end {
        lemma_escape_at(bytes, i + 1, end);
    }
}

proof fn lemma_hear_control(params: Seq<u8>, last: u8, rest: Seq<u8>)
    requires
        param_bytes(params),
        0x40 <= last <= 0x7e,
    ensures
        heard(seq![0x1bu8, 0x5b] + params + seq![last] + rest) == seq![control(params, last)]
            + heard(rest),
{
    let bytes = seq![0x1bu8, 0x5b] + params + seq![last] + rest;
    let end = 2 + params.len() as int;
    assert forall|k: int| 2 <= k < end implies !(0x40 <= #[trigger] bytes[k] <= 0x7e) by {
        assert(bytes[k] == params[k - 2]);
    }
    assert(bytes[end] == last);
    lemma_final_at(bytes, 2, end);
    assert(bytes.subrange(2, end) =~= params);
    assert(bytes.skip(end + 1) =~= rest);
}

proof fn lemma_hear_text(text: Seq<u8>, rest: Seq<u8>)
    requires
        text.len() > 0,
        forall|k: int| 0 <= k < text.len() ==> #[trigger] text[k] != 0x1b,
        rest.len() > 0 ==> rest[0] == 0x1b,
    ensures
        heard(text + rest) == seq![Heard::Text(vstd::utf8::decode_utf8(text))] + heard(rest),
{
    let bytes = text + rest;
    assert(bytes[0] == text[0]);
    assert forall|k: int| 1 <= k < text.len() implies #[trigger] bytes[k] != 0x1b by {
        assert(bytes[k] == text[k]);
    }
    if rest.len() > 0 {
        assert(bytes[text.len() as int] == rest[0]);
    }
    lemma_escape_at(bytes, 1, text.len() as int);
    assert(bytes.take(text.len() as int) =~= text);
    assert(bytes.skip(text.len() as int) =~= rest);
}

proof fn lemma_hear_link(target: Seq<u8>, rest: Seq<u8>)
    requires
        forall|k: int| 0 <= k < target.len() ==> #[trigger] target[k] != 0x1b,
    ensures
        heard(link_start() + target + seq![0x1bu8, 0x5c] + rest) == seq![
            Heard::Link(vstd::utf8::decode_utf8(target)),
        ] + heard(rest),
{
    let bytes = link_start() + target + seq![0x1bu8, 0x5c] + rest;
    let end = 5 + target.len() as int;
    assert forall|k: int| 5 <= k < end implies #[trigger] bytes[k] != 0x1b by {
        assert(bytes[k] == target[k - 5]);
    }
    assert(bytes[end] == 0x1b);
    assert(bytes[end + 1] == 0x5c);
    lemma_escape_at(bytes, 5, end);
    assert(bytes.take(5) =~= link_start());
    assert(bytes[1] == 0x5d);
    assert(bytes.subrange(5, end) =~= target);
    assert(bytes.skip(end + 2) =~= rest);
}

/// The bytes of a text without escapes hold no escape, and spell the text.
proof fn lemma_utf8(text: Seq<char>)
    requires
        no_escape(text),
    ensures
        forall|k: int| 0 <= k < ops::utf8(text).len() ==> #[trigger] ops::utf8(text)[k] != 0x1b,
        vstd::utf8::decode_utf8(ops::utf8(text)) == text,
        text.len() > 0 ==> ops::utf8(text).len() > 0,
        text.len() == 0 ==> ops::utf8(text).len() == 0,
    decreases text.len(),
{
    vstd::utf8::encode_utf8_decode_utf8(text);
    if text.len() > 0 {
        let rest = text.drop_first();
        assert forall|i: int| 0 <= i < rest.len() implies #[trigger] rest[i] != '\x1b' by {
            assert(rest[i] == text[i + 1]);
        }
        lemma_utf8(rest);
        let c = text[0] as u32;
        assert(text[0] != '\x1b');
        if c == 0x1b {
            vstd::utf8::char_u32_cast(text[0], c);
        }
        assert(c <= 0x7f && c != 0x1b ==> (c & 0x7f) as u8 != 0x1b) by (bit_vector);
        assert((0xC0u8 | ((c >> 6) & 0x1F) as u8) >= 0x80) by (bit_vector);
        assert((0xE0u8 | ((c >> 12) & 0x0F) as u8) >= 0x80) by (bit_vector);
        assert((0xF0u8 | ((c >> 18) & 0x7) as u8) >= 0x80) by (bit_vector);
        assert((0x80u8 | (c & 0x3F) as u8) >= 0x80) by (bit_vector);
        assert((0x80u8 | ((c >> 6) & 0x3F) as u8) >= 0x80) by (bit_vector);
        assert((0x80u8 | ((c >> 12) & 0x3F) as u8) >= 0x80) by (bit_vector);
        let first = vstd::utf8::encode_scalar(c);
        assert(forall|k: int| 0 <= k < first.len() ==> #[trigger] first[k] != 0x1b);
        assert(ops::utf8(text) == first + ops::utf8(rest));
    }
}

// ---------------------------------------------------------------------------
// Proofs: styles
// ---------------------------------------------------------------------------

/// The numbers of a packed color.
spec fn color_list(val: u32, base: nat) -> Seq<int> {
    let kind = val / 0x100_0000;
    let high = (val / 0x1_0000 % 0x100) as int;
    let mid = (val / 0x100 % 0x100) as int;
    let low = (val % 0x100) as int;
    if kind == 0 {
        seq![sgr::named_color(low as nat, base) as int]
    } else if kind == 1 {
        seq![base as int + 8, 5, low]
    } else if kind == 2 {
        seq![base as int + 8, 2, high, mid, low]
    } else {
        seq![base as int + 9]
    }
}

/// The numbers of the modifiers below bit `n`.
spec fn mark_list(modifier: u16, n: nat) -> Seq<int>
    decreases n,
{
    if n == 0 {
        Seq::empty()
    } else {
        let below = mark_list(modifier, (n - 1) as nat);
        if sgr::modifier_set(modifier, (n - 1) as nat) {
            below.push(n as int)
        } else {
            below
        }
    }
}

/// The marks of the modifiers below bit `n`.
spec fn marks_below(modifier: u16, n: nat) -> Seq<bool> {
    Seq::new(9, |k: int| k < n && sgr::modifier_set(modifier, k as nat))
}

proof fn lemma_param_decimal(n: nat)
    ensures
        param_bytes(decimal::decimal(n)),
{
    decimal::law_decimal_denotes_number(n);
}

proof fn lemma_color_numbers(before: Seq<u8>, val: u32, base: nat)
    ensures
        numbers(before + seq![0x3bu8] + sgr::color_params(val, base)) == numbers(before)
            + color_list(val, base),
        param_bytes(sgr::color_params(val, base)),
{
    let kind = val / 0x100_0000;
    let high = (val / 0x1_0000 % 0x100) as nat;
    let mid = (val / 0x100 % 0x100) as nat;
    let low = (val % 0x100) as nat;
    let params = sgr::color_params(val, base);
    let semi = seq![0x3bu8];
    lemma_param_decimal(sgr::named_color(low, base));
    lemma_param_decimal(base + 8);
    lemma_param_decimal(base + 9);
    lemma_param_decimal(5);
    lemma_param_decimal(2);
    lemma_param_decimal(high);
    lemma_param_decimal(mid);
    lemma_param_decimal(low);
    if kind == 0 {
        lemma_numbers_more(before, sgr::named_color(low, base));
    } else if kind == 1 {
        let one = before + semi + decimal::decimal(base + 8);
        let two = one + semi + decimal::decimal(5);
        lemma_numbers_more(before, base + 8);
        lemma_numbers_more(one, 5);
        lemma_numbers_more(two, low);
        assert(before + semi + params =~= two + semi + decimal::decimal(low));
    } else if kind == 2 {
        let one = before + semi + decimal::decimal(base + 8);
        let two = one + semi + decimal::decimal(2);
        let three = two + semi + decimal::decimal(high);
        let four = three + semi + decimal::decimal(mid);
        lemma_numbers_more(before, base + 8);
        lemma_numbers_more(one, 2);
        lemma_numbers_more(two, high);
        lemma_numbers_more(three, mid);
        lemma_numbers_more(four, low);
        assert(before + semi + params =~= four + semi + decimal::decimal(low));
    } else {
        lemma_numbers_more(before, base + 9);
    }
    assert(numbers(before + semi + params) =~= numbers(before) + color_list(val, base));
}

proof fn lemma_mark_numbers(before: Seq<u8>, modifier: u16, n: nat)
    requires
        n <= 9,
    ensures
        numbers(before + sgr::modifier_params(modifier, n)) == numbers(before) + mark_list(
            modifier,
            n,
        ),
        param_bytes(sgr::modifier_params(modifier, n)),
    decreases n,
{
    let params = sgr::modifier_params(modifier, n);
    if n == 0 {
        assert(before + params =~= before);
        assert(numbers(before) + mark_list(modifier, n) =~= numbers(before));
    } else {
        let below = sgr::modifier_params(modifier, (n - 1) as nat);
        lemma_mark_numbers(before, modifier, (n - 1) as nat);
        if sgr::modifier_set(modifier, (n - 1) as nat) {
            lemma_numbers_more(before + below, n);
            assert(decimal::decimal(n) =~= seq![(0x30 + n) as u8]);
            assert(before + params =~= before + below + seq![0x3bu8] + decimal::decimal(n));
            assert(numbers(before + params) =~= numbers(before) + mark_list(modifier, n));
        }
    }
}

proof fn lemma_rendered_marks(modifier: u16, n: nat, rest: Seq<int>, style: Rendition)
    requires
        n <= 9,
        style.marks == plain().marks,
    ensures
        rendered(mark_list(modifier, n) + rest, style) == rendered(
            rest,
            Rendition { marks: marks_below(modifier, n), ..style },
        ),
    decreases n,
{
    if n == 0 {
        assert(mark_list(modifier, n) + rest =~= rest);
        assert(marks_below(modifier, n) =~= style.marks);
    } else {
        let below = mark_list(modifier, (n - 1) as nat);
        if sgr::modifier_set(modifier, (n - 1) as nat) {
            let next = seq![n as int] + rest;
            lemma_rendered_marks(modifier, (n - 1) as nat, next, style);
            assert(mark_list(modifier, n) + rest =~= below + next);
            assert(next.skip(1) =~= rest);
            assert(marks_below(modifier, n) =~= marks_below(modifier, (n - 1) as nat).update(
                n - 1,
                true,
            ));
        } else {
            lemma_rendered_marks(modifier, (n - 1) as nat, rest, style);
            assert(marks_below(modifier, n) =~= marks_below(modifier, (n - 1) as nat));
        }
    }
}

proof fn lemma_rendered_fg(val: u32, rest: Seq<int>, style: Rendition)
    ensures
        rendered(color_list(val, 30) + rest, style) == rendered(
            rest,
            Rendition { fg: packed_hue(val), ..style },
        ),
{
    let params = color_list(val, 30) + rest;
    let n = color_list(val, 30).len();
    assert(params.skip(n as int) =~= rest);
    assert(params[0] == color_list(val, 30)[0]);
}

proof fn lemma_rendered_bg(val: u32, rest: Seq<int>, style: Rendition)
    ensures
        rendered(color_list(val, 40) + rest, style) == rendered(
            rest,
            Rendition { bg: packed_hue(val), ..style },
        ),
{
    let params = color_list(val, 40) + rest;
    let n = color_list(val, 40).len();
    assert(params.skip(n as int) =~= rest);
    assert(params[0] == color_list(val, 40)[0]);
}

proof fn lemma_marks(modifier: u16)
    ensures
        marks_below(modifier, 9) == packed_marks(modifier),
{
    assert((modifier & (1u16 << 0u16) != 0) == (modifier % 2 == 1)) by (bit_vector);
    assert((modifier & (1u16 << 1u16) != 0) == (modifier / 2 % 2 == 1)) by (bit_vector);
    assert((modifier & (1u16 << 2u16) != 0) == (modifier / 4 % 2 == 1)) by (bit_vector);
    assert((modifier & (1u16 << 3u16) != 0) == (modifier / 8 % 2 == 1)) by (bit_vector);
    assert((modifier & (1u16 << 4u16) != 0) == (modifier / 16 % 2 == 1)) by (bit_vector);
    assert((modifier & (1u16 << 5u16) != 0) == (modifier / 32 % 2 == 1)) by (bit_vector);
    assert((modifier & (1u16 << 6u16) != 0) == (modifier / 64 % 2 == 1)) by (bit_vector);
    assert((modifier & (1u16 << 7u16) != 0) == (modifier / 128 % 2 == 1)) by (bit_vector);
    assert((modifier & (1u16 << 8u16) != 0) == (modifier / 256 % 2 == 1)) by (bit_vector);
    assert(marks_below(modifier, 9) =~= packed_marks(modifier));
}

/// The parameters of a style, between the introducer and the final byte.
spec fn style_params(fg: u32, bg: u32, modifier: u16) -> Seq<u8> {
    seq![0x30u8] + sgr::modifier_params(modifier, 9) + seq![0x3bu8] + sgr::color_params(fg, 30)
        + seq![0x3bu8] + sgr::color_params(bg, 40)
}

proof fn lemma_style(fg: u32, bg: u32, modifier: u16)
    ensures
        sgr::sgr_bytes(fg, bg, modifier) == seq![0x1bu8, 0x5b] + style_params(fg, bg, modifier)
            + seq![0x6du8],
        param_bytes(style_params(fg, bg, modifier)),
        numbers(style_params(fg, bg, modifier))[0] == 0,
        rendered(numbers(style_params(fg, bg, modifier)), plain()) == packed_style(
            fg,
            bg,
            modifier,
        ),
{
    let zero = seq![0x30u8];
    let marked = zero + sgr::modifier_params(modifier, 9);
    let fronted = marked + seq![0x3bu8] + sgr::color_params(fg, 30);
    let params = style_params(fg, bg, modifier);
    assert(zero =~= decimal::decimal(0));
    lemma_numbers_one(0);
    lemma_mark_numbers(zero, modifier, 9);
    lemma_color_numbers(marked, fg, 30);
    lemma_color_numbers(fronted, bg, 40);
    assert(sgr::sgr_bytes(fg, bg, modifier) =~= seq![0x1bu8, 0x5b] + params + seq![0x6du8]);
    assert(param_bytes(params));
    let back = color_list(bg, 40) + Seq::<int>::empty();
    let front = color_list(fg, 30) + back;
    let marks = mark_list(modifier, 9) + front;
    let list = seq![0int] + marks;
    assert(numbers(params) =~= list);
    assert(list.skip(1) =~= marks);
    assert(rendered(list, plain()) == rendered(marks, plain()));
    lemma_rendered_marks(modifier, 9, front, plain());
    lemma_marks(modifier);
    let one = Rendition { marks: packed_marks(modifier), ..plain() };
    lemma_rendered_fg(fg, back, one);
    let two = Rendition { fg: packed_hue(fg), ..one };
    lemma_rendered_bg(bg, Seq::empty(), two);
}

// ---------------------------------------------------------------------------
// Laws
// ---------------------------------------------------------------------------

/// A style sequence sets the colors and the modifiers that its packed form stands for,
/// and nothing else, whatever the style was before.
pub proof fn law_style_is_heard(fg: u32, bg: u32, modifier: u16)
    ensures
        heard(sgr::sgr_bytes(fg, bg, modifier)) == seq![
            Heard::Style(packed_style(fg, bg, modifier)),
        ],
{
    lemma_style(fg, bg, modifier);
    let bytes = sgr::sgr_bytes(fg, bg, modifier);
    lemma_hear_control(style_params(fg, bg, modifier), 0x6d, Seq::empty());
    assert(bytes + Seq::<u8>::empty() =~= bytes);
    assert(heard(bytes) =~= seq![Heard::Style(packed_style(fg, bg, modifier))]);
}

/// The bytes of a move: an introducer, the digits of the row counted from 1, a
/// semicolon, the digits of the column counted from 1, and an `H`.
pub proof fn law_move_denotes_position(x: u16, y: u16) -> (at: int)
    ensures
        ({
            let bytes = ops::op_bytes(Op::MoveTo { x, y });
            &&& 2 < at < bytes.len() - 2
            &&& bytes[0] == 0x1b && bytes[1] == 0x5b
            &&& bytes[at] == 0x3b
            &&& bytes.last() == 0x48
            &&& decimal::decimal_value(bytes.subrange(2, at)) == y + 1
            &&& decimal::decimal_value(bytes.subrange(at + 1, bytes.len() - 1)) == x + 1
            &&& forall|i: int|
                2 <= i < bytes.len() - 1 && i != at ==> 0x30 <= #[trigger] bytes[i] <= 0x39
        }),
{
    lemma_literals();
    let bytes = ops::op_bytes(Op::MoveTo { x, y });
    let row = decimal::decimal((y + 1) as nat);
    let col = decimal::decimal((x + 1) as nat);
    decimal::law_decimal_denotes_number((y + 1) as nat);
    decimal::law_decimal_denotes_number((x + 1) as nat);
    let at = 2 + row.len() as int;
    assert(bytes.subrange(2, at) =~= row);
    assert(bytes.subrange(at + 1, bytes.len() - 1) =~= col);
    assert forall|i: int| 2 <= i < bytes.len() - 1 && i != at implies 0x30 <= #[trigger] bytes[i]
        <= 0x39 by {
        if i < at {
            assert(bytes[i] == row[i - 2]);
        } else {
            assert(bytes[i] == col[i - at - 1]);
        }
    }
    at
}

/// The bytes of the fixed strings.
proof fn lemma_literals()
    ensures
        ops::utf8("\x1b["@) == seq![0x1bu8, 0x5b],
        ops::utf8(" q"@) == seq![0x20u8, 0x71],
        ops::utf8("\x1b[?25l"@) == seq![0x1bu8, 0x5b, 0x3f, 0x32, 0x35, 0x6c],
        ops::utf8("\x1b[?25h"@) == seq![0x1bu8, 0x5b, 0x3f, 0x32, 0x35, 0x68],
        ops::utf8("\x1b[0m"@) == seq![0x1bu8, 0x5b, 0x30, 0x6d],
{
    reveal_strlit("\x1b[");
    reveal_strlit(" q");
    reveal_strlit("\x1b[?25l");
    reveal_strlit("\x1b[?25h");
    reveal_strlit("\x1b[0m");
    vstd::utf8::is_ascii_chars_encode_utf8("\x1b["@);
    vstd::utf8::is_ascii_chars_encode_utf8(" q"@);
    vstd::utf8::is_ascii_chars_encode_utf8("\x1b[?25l"@);
    vstd::utf8::is_ascii_chars_encode_utf8("\x1b[?25h"@);
    vstd::utf8::is_ascii_chars_encode_utf8("\x1b[0m"@);
    assert(ops::utf8("\x1b["@) =~= seq![0x1bu8, 0x5b]);
    assert(ops::utf8(" q"@) =~= seq![0x20u8, 0x71]);
    assert(ops::utf8("\x1b[?25l"@) =~= seq![0x1bu8, 0x5b, 0x3f, 0x32, 0x35, 0x6c]);
    assert(ops::utf8("\x1b[?25h"@) =~= seq![0x1bu8, 0x5b, 0x3f, 0x32, 0x35, 0x68]);
    assert(ops::utf8("\x1b[0m"@) =~= seq![0x1bu8, 0x5b, 0x30, 0x6d]);
}

proof fn lemma_long_literals()
    ensures
        ops::utf8("\x1b[?2026h"@) == seq![0x1bu8, 0x5b, 0x3f, 0x32, 0x30, 0x32, 0x36, 0x68],
        ops::utf8("\x1b[?2026l"@) == seq![0x1bu8, 0x5b, 0x3f, 0x32, 0x30, 0x32, 0x36, 0x6c],
        ops::utf8("\x1b[2J\x1b[H"@) == seq![0x1bu8, 0x5b, 0x32, 0x4a, 0x1b, 0x5b, 0x48],
{
    reveal_strlit("\x1b[?2026h");
    reveal_strlit("\x1b[?2026l");
    reveal_strlit("\x1b[2J\x1b[H");
    vstd::utf8::is_ascii_chars_encode_utf8("\x1b[?2026h"@);
    vstd::utf8::is_ascii_chars_encode_utf8("\x1b[?2026l"@);
    vstd::utf8::is_ascii_chars_encode_utf8("\x1b[2J\x1b[H"@);
    assert(ops::utf8("\x1b[?2026h"@) =~= seq![0x1bu8, 0x5b, 0x3f, 0x32, 0x30, 0x32, 0x36, 0x68]);
    assert(ops::utf8("\x1b[?2026l"@) =~= seq![0x1bu8, 0x5b, 0x3f, 0x32, 0x30, 0x32, 0x36, 0x6c]);
    assert(ops::utf8("\x1b[2J\x1b[H"@) =~= seq![0x1bu8, 0x5b, 0x32, 0x4a, 0x1b, 0x5b, 0x48]);
}

proof fn lemma_link_literals()
    ensures
        ops::utf8("\x1b]8;;"@) == link_start(),
        ops::utf8("\x1b\\"@) == seq![0x1bu8, 0x5c],
        ops::utf8("\x1b]8;;\x1b\\"@) == link_start() + seq![0x1bu8, 0x5c],
{
    reveal_strlit("\x1b]8;;");
    reveal_strlit("\x1b\\");
    reveal_strlit("\x1b]8;;\x1b\\");
    vstd::utf8::is_ascii_chars_encode_utf8("\x1b]8;;"@);
    vstd::utf8::is_ascii_chars_encode_utf8("\x1b\\"@);
    vstd::utf8::is_ascii_chars_encode_utf8("\x1b]8;;\x1b\\"@);
    assert(ops::utf8("\x1b]8;;"@) =~= link_start());
    assert(ops::utf8("\x1b\\"@) =~= seq![0x1bu8, 0x5c]);
    assert(ops::utf8("\x1b]8;;\x1b\\"@) =~= link_start() + seq![0x1bu8, 0x5c]);
}

/// A control sequence in its bytes.
proof fn lemma_hear_sequence(bytes: Seq<u8>, params: Seq<u8>, last: u8, rest: Seq<u8>)
    requires
        bytes == seq![0x1bu8, 0x5b] + params + seq![last],
        param_bytes(params),
        0x40 <= last <= 0x7e,
    ensures
        heard(bytes + rest) == seq![control(params, last)] + heard(rest),
{
    lemma_hear_control(params, last, rest);
}

proof fn lemma_hear_switch(op: Op, rest: Seq<u8>)
    requires
        op is HideCursor || op is ShowCursor || op is BeginSync || op is EndSync || op is ResetStyle,
    ensures
        heard(ops::op_bytes(op) + rest) == said(op) + heard(rest),
{
    lemma_literals();
    lemma_long_literals();
    let bytes = ops::op_bytes(op);
    let params = bytes.subrange(2, bytes.len() - 1);
    assert(bytes =~= seq![0x1bu8, 0x5b] + params + seq![bytes.last()]);
    if op is ResetStyle {
        lemma_numbers_one(0);
        assert(decimal::decimal(0) =~= params);
        assert(seq![0int].skip(1) =~= Seq::empty());
        reveal_with_fuel(rendered, 2);
    } else if op is BeginSync || op is EndSync {
        assert(params =~= seq![0x3fu8, 0x32, 0x30, 0x32, 0x36]);
    } else {
        assert(params =~= seq![0x3fu8, 0x32, 0x35]);
    }
    lemma_hear_sequence(bytes, params, bytes.last(), rest);
}

proof fn lemma_hear_clear(rest: Seq<u8>)
    ensures
        heard(ops::op_bytes(Op::ClearScreen) + rest) == said(Op::ClearScreen) + heard(rest),
{
    lemma_long_literals();
    let bytes = ops::op_bytes(Op::ClearScreen);
    let home = seq![0x1bu8, 0x5b, 0x48];
    let erase = seq![0x1bu8, 0x5b, 0x32, 0x4a];
    assert(erase =~= seq![0x1bu8, 0x5b] + seq![0x32u8] + seq![0x4au8]);
    assert(home =~= seq![0x1bu8, 0x5b] + Seq::<u8>::empty() + seq![0x48u8]);
    lemma_hear_sequence(home, Seq::empty(), 0x48, rest);
    lemma_hear_sequence(erase, seq![0x32u8], 0x4a, home + rest);
    assert(bytes + rest =~= erase + (home + rest));
    assert(said(Op::ClearScreen) + heard(rest) =~= seq![Heard::Erase] + (seq![
        Heard::MoveTo { x: 0, y: 0 },
    ] + heard(rest)));
}

proof fn lemma_hear_move(x: u16, y: u16, rest: Seq<u8>)
    ensures
        heard(ops::op_bytes(Op::MoveTo { x, y }) + rest) == said(Op::MoveTo { x, y }) + heard(rest),
{
    lemma_literals();
    let bytes = ops::op_bytes(Op::MoveTo { x, y });
    let row = decimal::decimal((y + 1) as nat);
    let col = decimal::decimal((x + 1) as nat);
    let params = row + seq![0x3bu8] + col;
    lemma_param_decimal((y + 1) as nat);
    lemma_param_decimal((x + 1) as nat);
    lemma_numbers_one((y + 1) as nat);
    lemma_numbers_more(row, (x + 1) as nat);
    assert(bytes =~= seq![0x1bu8, 0x5b] + params + seq![0x48u8]);
    lemma_hear_sequence(bytes, params, 0x48, rest);
}

proof fn lemma_hear_shape(shape: u8, rest: Seq<u8>)
    ensures
        heard(ops::op_bytes(Op::CursorShape(shape)) + rest) == said(Op::CursorShape(shape)) + heard(
            rest,
        ),
{
    lemma_literals();
    let bytes = ops::op_bytes(Op::CursorShape(shape));
    let number = decimal::decimal(shape as nat);
    let params = number + seq![0x20u8];
    lemma_param_decimal(shape as nat);
    lemma_numbers_one(shape as nat);
    assert(params.drop_last() =~= number);
    assert(bytes =~= seq![0x1bu8, 0x5b] + params + seq![0x71u8]);
    lemma_hear_sequence(bytes, params, 0x71, rest);
}

proof fn lemma_hear_op(op: Op, rest: Seq<u8>)
    requires
        op matches Op::Text(text) ==> no_escape(text) && (rest.len() > 0 ==> rest[0] == 0x1b),
        op matches Op::OpenLink(uri) ==> no_escape(uri),
    ensures
        heard(ops::op_bytes(op) + rest) == said(op) + heard(rest),
{
    let bytes = ops::op_bytes(op);
    match op {
        Op::HideCursor => lemma_hear_switch(op, rest),
        Op::ShowCursor => lemma_hear_switch(op, rest),
        Op::BeginSync => lemma_hear_switch(op, rest),
        Op::EndSync => lemma_hear_switch(op, rest),
        Op::ResetStyle => lemma_hear_switch(op, rest),
        Op::ClearScreen => lemma_hear_clear(rest),
        Op::MoveTo { x, y } => lemma_hear_move(x, y, rest),
        Op::CursorShape(shape) => lemma_hear_shape(shape, rest),
        Op::Style { fg, bg, modifier } => {
            lemma_style(fg, bg, modifier);
            lemma_hear_sequence(bytes, style_params(fg, bg, modifier), 0x6d, rest);
        },
        Op::OpenLink(uri) => {
            lemma_link_literals();
            lemma_utf8(uri);
            lemma_hear_link(ops::utf8(uri), rest);
        },
        Op::CloseLink => {
            lemma_link_literals();
            lemma_utf8(Seq::empty());
            assert(ops::utf8(Seq::<char>::empty()) =~= Seq::<u8>::empty());
            lemma_hear_link(Seq::empty(), rest);
            assert(bytes + rest =~= link_start() + Seq::<u8>::empty() + seq![0x1bu8, 0x5c] + rest);
        },
        Op::Text(text) => {
            lemma_utf8(text);
            if text.len() == 0 {
                assert(bytes + rest =~= rest);
                assert(said(op) + heard(rest) =~= heard(rest));
            } else {
                lemma_hear_text(ops::utf8(text), rest);
            }
        },
    }
}

/// The bytes of every instruction but a text start with an escape.
proof fn lemma_escape_first(op: Op)
    requires
        !(op is Text),
    ensures
        ops::op_bytes(op).len() > 0,
        ops::op_bytes(op)[0] == 0x1b,
{
    lemma_literals();
    lemma_long_literals();
    lemma_link_literals();
}

/// A terminal hears in the bytes of instructions exactly what they say, if they can be
/// told apart.
pub proof fn law_instructions_are_heard(ops: Seq<Op>)
    requires
        distinct(ops),
    ensures
        heard(ops::ops_bytes(ops)) == all_said(ops),
    decreases ops.len(),
{
    if ops.len() > 0 {
        let rest = ops.skip(1);
        assert forall|i: int| 0 <= i < rest.len() implies ((#[trigger] rest[i]) matches Op::Text(t)
            ==> no_escape(t)) by {
            assert(rest[i] == ops[i + 1]);
        }
        assert forall|i: int| 0 <= i < rest.len() implies ((#[trigger] rest[i]) matches
            Op::OpenLink(t) ==> no_escape(t)) by {
            assert(rest[i] == ops[i + 1]);
        }
        assert forall|i: int| 0 <= i < rest.len() - 1 && (#[trigger] rest[i]) is Text implies !(
        rest[i + 1] is Text) by {
            assert(rest[i] == ops[i + 1]);
        }
        law_instructions_are_heard(rest);
        assert(ops =~= seq![ops[0]] + rest);
        ops::lemma_ops_bytes_add(seq![ops[0]], rest);
        ops::lemma_ops_bytes_one(ops[0]);
        if ops[0] is Text && rest.len() > 0 {
            let next = rest.skip(1);
            assert(rest =~= seq![rest[0]] + next);
            ops::lemma_ops_bytes_add(seq![rest[0]], next);
            ops::lemma_ops_bytes_one(rest[0]);
            assert(rest[0] == ops[1]);
            lemma_escape_first(rest[0]);
        }
        lemma_hear_op(ops[0], ops::ops_bytes(rest));
    } else {
        assert(ops::ops_bytes(ops) =~= Seq::empty());
    }
}

/// Where lists of instructions meet, they can still be told apart if the first does not
/// end with a text or the second does not start with one.
proof fn lemma_distinct_add(a: Seq<Op>, b: Seq<Op>)
    requires
        distinct(a),
        distinct(b),
        a.len() > 0 && b.len() > 0 ==> !(a.last() is Text && b[0] is Text),
    ensures
        distinct(a + b),
{
    let ops = a + b;
    assert forall|i: int| 0 <= i < ops.len() implies ((#[trigger] ops[i]) matches Op::Text(t)
        ==> no_escape(t)) by {
        assert(ops[i] == if i < a.len() {
            a[i]
        } else {
            b[i - a.len()]
        });
    }
    assert forall|i: int| 0 <= i < ops.len() implies ((#[trigger] ops[i]) matches Op::OpenLink(t)
        ==> no_escape(t)) by {
        assert(ops[i] == if i < a.len() {
            a[i]
        } else {
            b[i - a.len()]
        });
    }
    assert forall|i: int| 0 <= i < ops.len() - 1 && (#[trigger] ops[i]) is Text implies !(ops[i + 1]
        is Text) by {
        if i < a.len() - 1 {
            assert(ops[i] == a[i] && ops[i + 1] == a[i + 1]);
        } else if i == a.len() - 1 {
            assert(ops[i] == a.last() && ops[i + 1] == b[0]);
        } else {
            assert(ops[i] == b[i - a.len()] && ops[i + 1] == b[i + 1 - a.len()]);
        }
    }
}

/// No symbol of a frame holds an escape.
pub open spec fn symbols_plain(frame: FrameView) -> bool {
    forall|i: int| 0 <= i < frame.cells.len() ==> no_escape((#[trigger] frame.cells[i]).symbol)
}

proof fn lemma_link_plain(frame: FrameView, cell: CellView)
    ensures
        hyperlink::cell_link(frame, cell) matches Some(uri) ==> no_escape(uri),
{
    if let Some(raw) = hyperlink::raw_link(frame, cell) {
        hyperlink::law_sanitized_has_no_control(raw);
    }
}

proof fn lemma_distinct_cell(
    frame: FrameView,
    row: int,
    col: int,
    cell: CellView,
    style: Option<render_ansi::Style>,
    link: Option<Seq<char>>,
)
    requires
        no_escape(cell.symbol),
    ensures
        distinct(render_ansi::cell_ops(frame, row, col, cell, style, link)),
        render_ansi::cell_ops(frame, row, col, cell, style, link).len() > 0,
        !(render_ansi::cell_ops(frame, row, col, cell, style, link)[0] is Text),
{
    lemma_link_plain(frame, cell);
    let move_ops = seq![Op::MoveTo { x: col as u16, y: row as u16 }];
    let style_ops = render_ansi::style_change(style, render_ansi::style_of(cell));
    let link_ops = render_ansi::link_change(link, hyperlink::cell_link(frame, cell));
    let text_ops = seq![Op::Text(cell.symbol)];
    lemma_distinct_add(move_ops, style_ops);
    lemma_distinct_add(move_ops + style_ops, link_ops);
    assert(!((move_ops + style_ops + link_ops).last() is Text));
    lemma_distinct_add(move_ops + style_ops + link_ops, text_ops);
}

proof fn lemma_distinct_paint(frame: FrameView, cells: Seq<(int, int)>, dedup: bool)
    requires
        forall|i: int|
            0 <= i < cells.len() ==> no_escape(
                frame.at((#[trigger] cells[i]).0, cells[i].1).symbol,
            ),
    ensures
        distinct(render_ansi::paint_ops(frame, cells, dedup)),
        cells.len() > 0 ==> render_ansi::paint_ops(frame, cells, dedup).len() > 0 && !(
        render_ansi::paint_ops(frame, cells, dedup)[0] is Text),
    decreases cells.len(),
{
    if cells.len() > 0 {
        let before = cells.drop_last();
        assert forall|i: int| 0 <= i < before.len() implies no_escape(
            frame.at((#[trigger] before[i]).0, before[i].1).symbol,
        ) by {
            assert(before[i] == cells[i]);
        }
        lemma_distinct_paint(frame, before, dedup);
        let (row, col) = cells.last();
        assert(cells[cells.len() - 1] == (row, col));
        let style = if dedup {
            render_ansi::style_after(frame, before)
        } else {
            None
        };
        let link = render_ansi::link_after(frame, before);
        lemma_distinct_cell(frame, row, col, frame.at(row, col), style, link);
        lemma_distinct_add(
            render_ansi::paint_ops(frame, before, dedup),
            render_ansi::cell_ops(frame, row, col, frame.at(row, col), style, link),
        );
    }
}

/// Every symbol that is painted lies in the frame, so none holds an escape.
proof fn lemma_distinct_cells(frame: FrameView, cells: Seq<(int, int)>, dedup: bool)
    requires
        frame.covers_grid(),
        symbols_plain(frame),
        forall|i: int|
            0 <= i < cells.len() ==> 0 <= (#[trigger] cells[i]).0 < frame.height && 0 <= cells[i].1
                < frame.width,
    ensures
        distinct(render_ansi::paint_ops(frame, cells, dedup)),
{
    assert forall|i: int| 0 <= i < cells.len() implies no_escape(
        frame.at((#[trigger] cells[i]).0, cells[i].1).symbol,
    ) by {
        let (row, col) = cells[i];
        protocol::lemma_grid_index(frame.width as int, frame.height as int, row, col);
        assert(no_escape(frame.cells[row * frame.width + col].symbol));
    }
    lemma_distinct_paint(frame, cells, dedup);
}

/// What follows the last cell can be told apart from it.
proof fn lemma_distinct_painted(frame: FrameView, cells: Seq<(int, int)>, dedup: bool, reset: Seq<Op>)
    requires
        frame.covers_grid(),
        symbols_plain(frame),
        forall|i: int|
            0 <= i < cells.len() ==> 0 <= (#[trigger] cells[i]).0 < frame.height && 0 <= cells[i].1
                < frame.width,
        reset == seq![Op::ResetStyle] || reset == Seq::<Op>::empty(),
    ensures
        distinct(
            render_ansi::paint_ops(frame, cells, dedup) + render_ansi::link_change(
                render_ansi::link_after(frame, cells),
                None,
            ) + reset,
        ),
{
    lemma_distinct_cells(frame, cells, dedup);
    let paint = render_ansi::paint_ops(frame, cells, dedup);
    let close = render_ansi::link_change(render_ansi::link_after(frame, cells), None);
    lemma_distinct_add(paint, close);
    lemma_distinct_add(paint + close, reset);
}

proof fn lemma_distinct_body(frame: FrameView, prev: Option<FrameView>)
    requires
        render_ansi::blit_ready(frame, prev),
        symbols_plain(frame),
    ensures
        distinct(render_ansi::body_ops(frame, prev)),
{
    if render_ansi::full_redraw(frame, prev) {
        let cells = render_ansi::full_cells(frame, frame.height as nat);
        assert forall|i: int| 0 <= i < cells.len() implies 0 <= (#[trigger] cells[i]).0
            < frame.height && 0 <= cells[i].1 < frame.width by {
            assert(cells.contains(cells[i]));
            render_ansi::law_full_redraw_paints_uncovered_cells(frame, cells[i].0, cells[i].1);
        }
        lemma_distinct_painted(frame, cells, false, seq![Op::ResetStyle]);
        lemma_distinct_add(seq![Op::ClearScreen], render_ansi::all_cells_ops(frame));
    } else {
        let cells = render_ansi::diff_cells(frame, prev.unwrap(), frame.height as nat);
        assert forall|i: int| 0 <= i < cells.len() implies 0 <= (#[trigger] cells[i]).0
            < frame.height && 0 <= cells[i].1 < frame.width by {
            assert(cells.contains(cells[i]));
            render_ansi::law_diff_paints_changed_cells(
                frame,
                prev.unwrap(),
                cells[i].0,
                cells[i].1,
            );
        }
        lemma_distinct_painted(
            frame,
            cells,
            true,
            if cells.len() > 0 {
                seq![Op::ResetStyle]
            } else {
                Seq::empty()
            },
        );
    }
}

proof fn lemma_distinct_blit(
    frame: FrameView,
    prev: Option<FrameView>,
    last_visible: Option<(u16, u16)>,
    last_shape: u8,
    repeat: bool,
    suppress: bool,
)
    requires
        render_ansi::blit_ready(frame, prev),
        symbols_plain(frame),
    ensures
        distinct(
            render_ansi::blit_ops(frame, prev, last_visible, last_shape, repeat, suppress),
        ),
{
    let opening = seq![Op::HideCursor, Op::BeginSync, Op::CloseLink];
    let body = render_ansi::body_ops(frame, prev);
    let host = render_ansi::final_cursor(frame, last_visible, suppress);
    let place = cursor::cursor_ops(host, last_shape);
    let anchor = if repeat {
        cursor::anchor_ops(host)
    } else {
        Seq::empty()
    };
    lemma_distinct_body(frame, prev);
    lemma_distinct_add(opening, body);
    lemma_distinct_add(opening + body, place);
    lemma_distinct_add(opening + body + place, seq![Op::EndSync]);
    lemma_distinct_add(opening + body + place + seq![Op::EndSync], anchor);
}

// ---------------------------------------------------------------------------
// What a terminal displays
// ---------------------------------------------------------------------------

/// A symbol on the display: its characters, its style and its target, which is empty if
/// it has none.
pub struct Shown {
    pub symbol: Seq<char>,
    pub style: Rendition,
    pub target: Seq<char>,
}

/// One column of one row of the display.
pub enum Spot {
    Blank,
    /// The first column of a symbol.
    Glyph(Shown),
    /// A further column of the symbol to the left.
    Tail,
}

/// What a terminal displays, and what it writes with.
#[verifier::ext_equal]
pub struct Display {
    pub rows: Seq<Seq<Spot>>,
    /// Column and row of the cursor.
    pub cursor: (int, int),
    pub visible: bool,
    pub shape: int,
    pub style: Rendition,
    pub target: Seq<char>,
    pub synced: bool,
}

/// The columns right of `a` up to `b` continue the symbol that `a` belongs to.
pub open spec fn continued(row: Seq<Spot>, a: int, b: int) -> bool {
    forall|k: int| a < k <= b ==> #[trigger] row[k] is Tail
}

/// A row after a symbol was written at column `x`. It takes up as many columns as it is
/// wide; of the symbols that it overwrites in part nothing stays.
pub open spec fn written(row: Seq<Spot>, x: int, shown: Shown) -> Seq<Spot> {
    let w = width::display_width(shown.symbol);
    if w == 0 || x < 0 || x >= row.len() {
        row
    } else {
        Seq::new(
            row.len(),
            |j: int|
                if j == x {
                    Spot::Glyph(shown)
                } else if x < j < x + w {
                    Spot::Tail
                } else if j < x && continued(row, j, x) {
                    Spot::Blank
                } else if j > x && continued(row, x + w - 1, j) {
                    Spot::Blank
                } else {
                    row[j]
                },
        )
    }
}

/// The display after the terminal heard one thing.
pub open spec fn obeyed(display: Display, heard: Heard) -> Display {
    match heard {
        Heard::HideCursor => Display { visible: false, ..display },
        Heard::ShowCursor => Display { visible: true, ..display },
        Heard::BeginSync => Display { synced: true, ..display },
        Heard::EndSync => Display { synced: false, ..display },
        Heard::Erase => Display {
            rows: Seq::new(
                display.rows.len(),
                |y: int| Seq::new(display.rows[y].len(), |x: int| Spot::Blank),
            ),
            ..display
        },
        Heard::MoveTo { x, y } => Display { cursor: (x, y), ..display },
        Heard::CursorShape(shape) => Display { shape, ..display },
        Heard::Style(style) => Display { style, ..display },
        Heard::Link(target) => Display { target, ..display },
        Heard::Text(symbol) => {
            let (x, y) = display.cursor;
            let shown = Shown { symbol, style: display.style, target: display.target };
            Display {
                rows: if 0 <= y < display.rows.len() {
                    display.rows.update(y, written(display.rows[y], x, shown))
                } else {
                    display.rows
                },
                cursor: (x + width::display_width(symbol), y),
                ..display
            }
        },
        Heard::Unknown => display,
    }
}

/// The display after the terminal heard one thing after the other.
pub open spec fn all_obeyed(display: Display, all: Seq<Heard>) -> Display
    decreases all.len(),
{
    if all.len() == 0 {
        display
    } else {
        all_obeyed(obeyed(display, all[0]), all.skip(1))
    }
}

/// The display of a terminal after it was sent bytes.
pub open spec fn received(display: Display, bytes: Seq<u8>) -> Display {
    all_obeyed(display, heard(bytes))
}

/// The style that a style of a screen stands for.
pub open spec fn style_shown(style: Option<render_ansi::Style>) -> Rendition {
    match style {
        Some((fg, bg, modifier)) => packed_style(fg, bg, modifier),
        None => plain(),
    }
}

/// The target that a hyperlink of a screen stands for.
pub open spec fn target_shown(link: Option<Seq<char>>) -> Seq<char> {
    match link {
        Some(uri) => uri,
        None => Seq::empty(),
    }
}

/// What a symbol of a screen is on a display.
pub open spec fn look_shown(look: screen::Look) -> Shown {
    Shown {
        symbol: look.symbol,
        style: style_shown(look.style),
        target: target_shown(look.link),
    }
}

/// What a slot of a screen is on a display.
pub open spec fn slot_shown(slot: screen::Slot) -> Spot {
    match slot {
        screen::Slot::Blank => Spot::Blank,
        screen::Slot::Glyph(look) => Spot::Glyph(look_shown(look)),
        screen::Slot::Tail => Spot::Tail,
    }
}

/// What a row of a screen is on a display.
pub open spec fn row_shown(row: Seq<screen::Slot>) -> Seq<Spot> {
    Seq::new(row.len(), |x: int| slot_shown(row[x]))
}

/// The display that a screen stands for.
pub open spec fn display_of(screen: screen::Screen) -> Display {
    Display {
        rows: Seq::new(screen.rows.len(), |y: int| row_shown(screen.rows[y])),
        cursor: screen.cursor,
        visible: screen.visible,
        shape: screen.shape as int,
        style: style_shown(screen.style),
        target: target_shown(screen.link),
        synced: screen.synced,
    }
}

proof fn lemma_joined_shown(row: Seq<screen::Slot>, a: int, b: int)
    requires
        -1 <= a,
        b < row.len(),
    ensures
        continued(row_shown(row), a, b) == screen::joined(row, a, b),
{
    let shown = row_shown(row);
    if continued(shown, a, b) {
        assert forall|k: int| a < k <= b implies #[trigger] row[k] is Tail by {
            assert(shown[k] is Tail);
        }
    }
}

proof fn lemma_put_shown(row: Seq<screen::Slot>, x: int, look: screen::Look)
    ensures
        row_shown(screen::put(row, x, look)) == written(row_shown(row), x, look_shown(look)),
{
    let w = width::display_width(look.symbol);
    let a = row_shown(screen::put(row, x, look));
    let b = written(row_shown(row), x, look_shown(look));
    if w > 0 && 0 <= x < row.len() {
        assert forall|j: int| 0 <= j < row.len() implies a[j] == b[j] by {
            if j < x {
                lemma_joined_shown(row, j, x);
            } else if j >= x + w {
                lemma_joined_shown(row, x + w - 1, j);
            }
        }
    }
    assert(a =~= b);
}

/// A terminal that hears what an instruction says does what the instruction does.
proof fn lemma_said_is_done(screen: screen::Screen, op: Op)
    requires
        width::display_width(Seq::empty()) == 0,
    ensures
        all_obeyed(display_of(screen), said(op)) == display_of(screen::step(screen, op)),
{
    reveal_with_fuel(all_obeyed, 3);
    let display = display_of(screen);
    let after = display_of(screen::step(screen, op));
    let said = said(op);
    if said.len() > 0 {
        assert(said.skip(1) =~= if op is ClearScreen {
            seq![Heard::MoveTo { x: 0, y: 0 }]
        } else {
            Seq::empty()
        });
    }
    if op is ClearScreen {
        assert(said.skip(1).skip(1) =~= Seq::empty());
        let erased = obeyed(display, Heard::Erase);
        assert forall|y: int| 0 <= y < screen.rows.len() implies erased.rows[y] == after.rows[y] by {
            assert(erased.rows[y] =~= after.rows[y]);
        }
        assert(erased.rows =~= after.rows);
    } else if op is Text {
        let symbol = op->Text_0;
        let (x, y) = screen.cursor;
        let look = screen::Look { symbol, style: screen.style, link: screen.link };
        if 0 <= y < screen.rows.len() {
            lemma_put_shown(screen.rows[y], x, look);
        }
        let rows = all_obeyed(display, said).rows;
        if symbol.len() == 0 {
            assert(symbol =~= Seq::empty());
        }
        assert forall|k: int| 0 <= k < screen.rows.len() implies rows[k] == after.rows[k] by {}
        assert(rows =~= after.rows);
    }
}

proof fn lemma_obeyed_add(display: Display, a: Seq<Heard>, b: Seq<Heard>)
    ensures
        all_obeyed(display, a + b) == all_obeyed(all_obeyed(display, a), b),
    decreases a.len(),
{
    if a.len() == 0 {
        assert(a + b =~= b);
    } else {
        lemma_obeyed_add(obeyed(display, a[0]), a.skip(1), b);
        assert((a + b).skip(1) =~= a.skip(1) + b);
    }
}

proof fn lemma_all_said_is_done(screen: screen::Screen, ops: Seq<Op>)
    requires
        width::display_width(Seq::empty()) == 0,
    ensures
        all_obeyed(display_of(screen), all_said(ops)) == display_of(screen::run(screen, ops)),
    decreases ops.len(),
{
    if ops.len() > 0 {
        let rest = ops.skip(1);
        lemma_said_is_done(screen, ops[0]);
        lemma_obeyed_add(display_of(screen), said(ops[0]), all_said(rest));
        let next = screen::step(screen, ops[0]);
        lemma_all_said_is_done(next, rest);
        assert(ops =~= seq![ops[0]] + rest);
        screen::lemma_run_add(screen, seq![ops[0]], rest);
        screen::lemma_run_one(screen, ops[0]);
    }
}

/// A terminal that is sent the bytes of instructions reaches the display that the
/// instructions lead to, if they can be told apart and an empty text has no width.
pub proof fn law_bytes_do_what_instructions_do(screen: screen::Screen, ops: Seq<Op>)
    requires
        distinct(ops),
        width::display_width(Seq::empty()) == 0,
    ensures
        received(display_of(screen), ops::ops_bytes(ops)) == display_of(screen::run(screen, ops)),
{
    law_instructions_are_heard(ops);
    lemma_all_said_is_done(screen, ops);
}

/// A terminal hears in the bytes of a frame what its instructions say, and displays
/// afterwards what they lead to, if no symbol of the frame holds an escape.
pub proof fn law_blit_is_heard(
    screen: screen::Screen,
    frame: FrameView,
    prev: Option<FrameView>,
    last_visible: Option<(u16, u16)>,
    last_shape: u8,
    repeat: bool,
    suppress: bool,
)
    requires
        render_ansi::blit_ready(frame, prev),
        symbols_plain(frame),
    ensures
        ({
            let ops = render_ansi::blit_ops(
                frame,
                prev,
                last_visible,
                last_shape,
                repeat,
                suppress,
            );
            &&& heard(ops::ops_bytes(ops)) == all_said(ops)
            &&& width::display_width(Seq::empty()) == 0 ==> received(
                display_of(screen),
                ops::ops_bytes(ops),
            ) == display_of(screen::run(screen, ops))
        }),
{
    let ops = render_ansi::blit_ops(frame, prev, last_visible, last_shape, repeat, suppress);
    lemma_distinct_blit(frame, prev, last_visible, last_shape, repeat, suppress);
    law_instructions_are_heard(ops);
    if width::display_width(Seq::empty()) == 0 {
        law_bytes_do_what_instructions_do(screen, ops);
    }
}

/// The bytes that a frame is sent as, diffed against a previous one where that has the
/// same size.
pub open spec fn frame_bytes(
    frame: FrameView,
    prev: Option<FrameView>,
    last_visible: Option<(u16, u16)>,
    last_shape: u8,
    repeat: bool,
    suppress: bool,
) -> Seq<u8> {
    ops::ops_bytes(
        render_ansi::blit_ops(frame, prev, last_visible, last_shape, repeat, suppress),
    )
}

/// A frame can be carried over to a screen: the screen has its size, and if the previous
/// frame has the same size, the screen shows that, and the frame is tidy and keeps its
/// skips.
pub open spec fn carried_over(
    screen: screen::Screen,
    frame: FrameView,
    prev: Option<FrameView>,
) -> bool {
    &&& render_ansi::blit_ready(frame, prev)
    &&& symbols_plain(frame)
    &&& screen::fits(screen, frame)
    &&& prev matches Some(p) ==> frame.width != p.width || frame.height != p.height || {
        &&& screen::shows(screen, p)
        &&& screen::tidy(frame)
        &&& screen::skips_kept(frame, p)
    }
}

/// A terminal that is sent the bytes of a frame shows the symbol of a cell in its row
/// and column, in the colors and with the modifiers and the target that the cell has,
/// unless the cell is marked `skip`, has no width, or a symbol to its left takes up its
/// column.
pub proof fn law_terminal_shows_cell(
    screen: screen::Screen,
    frame: FrameView,
    prev: Option<FrameView>,
    last_visible: Option<(u16, u16)>,
    last_shape: u8,
    repeat: bool,
    suppress: bool,
    row: int,
    col: int,
)
    requires
        width::display_width(Seq::empty()) == 0,
        carried_over(screen, frame, prev),
        0 <= row < frame.height,
        0 <= col < frame.width,
        !frame.cells[row * frame.width + col].skip,
        width::display_width(frame.cells[row * frame.width + col].symbol) > 0,
        forall|c: int| !render_ansi::takes_up(frame, row, c, col),
    ensures
        ({
            let cell = frame.cells[row * frame.width + col];
            let bytes = frame_bytes(frame, prev, last_visible, last_shape, repeat, suppress);
            received(display_of(screen), bytes).rows[row][col] == Spot::Glyph(
                Shown {
                    symbol: cell.symbol,
                    style: packed_style(cell.fg, cell.bg, cell.modifier),
                    target: hyperlink::target(frame, cell),
                },
            )
        }),
{
    let cell = frame.cells[row * frame.width + col];
    let after = lemma_frame_shown(
        screen,
        frame,
        prev,
        last_visible,
        last_shape,
        repeat,
        suppress,
    );
    render_ansi::law_reached_column_is_taken_up(frame, row, col as nat);
    render_ansi::law_full_redraw_paints_free_column(frame, row, col);
    render_ansi::law_full_redraw_paints_uncovered_cells(frame, row, col);
    assert(screen::row_shows(after.rows[row], frame, row));
    assert(screen::slot_shows(after.rows[row][col], frame, row, col));
    assert(after.rows[row][col] == screen::Slot::Glyph(screen::look_at(frame, row, col)));
    hyperlink::law_cell_link_is_target(frame, cell);
    assert(hyperlink::target(frame, cell).len() == 0 ==> hyperlink::target(frame, cell)
        =~= Seq::empty());
}

/// A terminal that is sent the bytes of a frame shows in the columns that a painted
/// symbol takes up nothing but that symbol.
pub proof fn law_terminal_shows_wide_symbol(
    screen: screen::Screen,
    frame: FrameView,
    prev: Option<FrameView>,
    last_visible: Option<(u16, u16)>,
    last_shape: u8,
    repeat: bool,
    suppress: bool,
    row: int,
    start: int,
    col: int,
)
    requires
        width::display_width(Seq::empty()) == 0,
        carried_over(screen, frame, prev),
        0 <= row < frame.height,
        0 <= start < frame.width,
        !frame.cells[row * frame.width + start].skip,
        forall|c: int| !render_ansi::takes_up(frame, row, c, start),
        render_ansi::takes_up(frame, row, start, col),
        col < frame.width,
    ensures
        received(
            display_of(screen),
            frame_bytes(frame, prev, last_visible, last_shape, repeat, suppress),
        ).rows[row][col] is Tail,
{
    let after = lemma_frame_shown(
        screen,
        frame,
        prev,
        last_visible,
        last_shape,
        repeat,
        suppress,
    );
    render_ansi::law_full_redraw_paints_free_column(frame, row, start);
    render_ansi::law_full_redraw_leaves_taken_columns(frame, row, col);
    render_ansi::law_full_redraw_paints_uncovered_cells(frame, row, col);
    render_ansi::law_full_redraw_paints_uncovered_cells(frame, row, start);
    render_ansi::lemma_covered_by(frame, row, start as nat, col as nat);
    assert(screen::row_shows(after.rows[row], frame, row));
    assert(screen::slot_shows(after.rows[row][col], frame, row, col));
}

proof fn lemma_frame_shown(
    screen: screen::Screen,
    frame: FrameView,
    prev: Option<FrameView>,
    last_visible: Option<(u16, u16)>,
    last_shape: u8,
    repeat: bool,
    suppress: bool,
) -> (after: screen::Screen)
    requires
        width::display_width(Seq::empty()) == 0,
        carried_over(screen, frame, prev),
    ensures
        received(
            display_of(screen),
            frame_bytes(frame, prev, last_visible, last_shape, repeat, suppress),
        ) == display_of(after),
        screen::shows(after, frame),
{
    law_blit_is_heard(screen, frame, prev, last_visible, last_shape, repeat, suppress);
    if render_ansi::full_redraw(frame, prev) {
        screen::law_full_redraw_shows_frame(
            screen,
            frame,
            prev,
            last_visible,
            last_shape,
            repeat,
            suppress,
        );
    } else {
        screen::law_diff_shows_frame(
            screen,
            frame,
            prev.unwrap(),
            last_visible,
            last_shape,
            repeat,
            suppress,
        );
    }
    screen::run(
        screen,
        render_ansi::blit_ops(frame, prev, last_visible, last_shape, repeat, suppress),
    )
}

/// A terminal that is sent the bytes of a frame with a cursor inside it has its cursor
/// in that column and row afterwards. The cursor is visible exactly if the frame's is
/// and nothing suppresses it. It has the frame's shape if that is a valid one, and the
/// default shape if not, on a terminal whose shape was as the bytes were written for.
/// No hyperlink stays open, and synchronized output has ended.
pub proof fn law_terminal_cursor_is_the_frames(
    screen: screen::Screen,
    frame: FrameView,
    prev: Option<FrameView>,
    last_visible: Option<(u16, u16)>,
    repeat: bool,
    suppress: bool,
)
    requires
        width::display_width(Seq::empty()) == 0,
        render_ansi::blit_ready(frame, prev),
        symbols_plain(frame),
        frame.cursor matches Some(cursor) ==> cursor.x < frame.width && cursor.y < frame.height,
    ensures
        ({
            let after = received(
                display_of(screen),
                frame_bytes(frame, prev, last_visible, screen.shape, repeat, suppress),
            );
            &&& !after.synced
            &&& after.target.len() == 0
            &&& frame.cursor matches Some(cursor) ==> {
                &&& after.cursor == (cursor.x as int, cursor.y as int)
                &&& after.visible <==> cursor.visible && !suppress
                &&& cursor.shape <= 6 ==> after.shape == cursor.shape
                &&& cursor.shape > 6 ==> after.shape == 0
            }
            &&& frame.cursor is None ==> !after.visible && after.shape == 0
        }),
{
    law_blit_is_heard(screen, frame, prev, last_visible, screen.shape, repeat, suppress);
    screen::law_blit_settles_cursor(screen, frame, prev, last_visible, repeat, suppress);
}

/// A terminal is told first to hide the cursor and then to hold its output back. It is
/// told last to present it, or else to repeat the cursor after that.
pub proof fn law_frame_is_heard_in_sync(
    frame: FrameView,
    prev: Option<FrameView>,
    last_visible: Option<(u16, u16)>,
    last_shape: u8,
    repeat: bool,
    suppress: bool,
)
    requires
        render_ansi::blit_ready(frame, prev),
        symbols_plain(frame),
    ensures
        ({
            let all = heard(
                frame_bytes(frame, prev, last_visible, last_shape, repeat, suppress),
            );
            &&& all.len() >= 5
            &&& all[0] is HideCursor && all[1] is BeginSync
            &&& repeat ==> all[all.len() - 3] is EndSync && all[all.len() - 2] is MoveTo && (
            all.last() is ShowCursor || all.last() is HideCursor)
            &&& !repeat ==> all.last() is EndSync
        }),
{
    let host = render_ansi::final_cursor(frame, last_visible, suppress);
    let said = lemma_frame_said(frame, prev, last_visible, last_shape, repeat, suppress);
    let all = seq![Heard::HideCursor, Heard::BeginSync, Heard::Link(Seq::empty())] + said + seq![
        Heard::EndSync,
    ] + anchor_said(host, repeat);
    assert(all[all.len() - 1 - anchor_said(host, repeat).len()] == Heard::EndSync);
    if repeat {
        assert(all[all.len() - 2] == anchor_said(host, repeat)[0]);
        assert(all[all.len() - 1] == anchor_said(host, repeat)[1]);
    }
}

/// What the anchor says, if it is repeated.
spec fn anchor_said(host: cursor::HostCursorState, repeat: bool) -> Seq<Heard> {
    if repeat {
        seq![
            Heard::MoveTo { x: host.position.0 as int, y: host.position.1 as int },
            if host.visible {
                Heard::ShowCursor
            } else {
                Heard::HideCursor
            },
        ]
    } else {
        Seq::empty()
    }
}

/// The parts of what a frame says. What is between the opening and the end of
/// synchronized output places the cursor at least.
proof fn lemma_frame_said(
    frame: FrameView,
    prev: Option<FrameView>,
    last_visible: Option<(u16, u16)>,
    last_shape: u8,
    repeat: bool,
    suppress: bool,
) -> (middle: Seq<Heard>)
    requires
        render_ansi::blit_ready(frame, prev),
        symbols_plain(frame),
    ensures
        middle.len() >= 1,
        heard(frame_bytes(frame, prev, last_visible, last_shape, repeat, suppress)) == seq![
            Heard::HideCursor,
            Heard::BeginSync,
            Heard::Link(Seq::empty()),
        ] + middle + seq![Heard::EndSync] + anchor_said(
            render_ansi::final_cursor(frame, last_visible, suppress),
            repeat,
        ),
{
    let host = render_ansi::final_cursor(frame, last_visible, suppress);
    let ops = render_ansi::blit_ops(frame, prev, last_visible, last_shape, repeat, suppress);
    lemma_distinct_blit(frame, prev, last_visible, last_shape, repeat, suppress);
    law_instructions_are_heard(ops);
    let opening = seq![Op::HideCursor, Op::BeginSync, Op::CloseLink];
    let body = render_ansi::body_ops(frame, prev);
    let place = cursor::cursor_ops(host, last_shape);
    let anchor = if repeat {
        cursor::anchor_ops(host)
    } else {
        Seq::empty()
    };
    lemma_all_said_add(opening + body + place + seq![Op::EndSync], anchor);
    lemma_all_said_add(opening + body + place, seq![Op::EndSync]);
    lemma_all_said_add(opening + body, place);
    lemma_all_said_add(opening, body);
    lemma_said_opening();
    lemma_said_one(Op::EndSync);
    lemma_said_anchor(host);
    let go = Op::MoveTo { x: host.position.0, y: host.position.1 };
    let rest = place.skip(1);
    assert(place =~= seq![go] + rest);
    lemma_all_said_add(seq![go], rest);
    lemma_said_one(go);
    let middle = all_said(body) + all_said(place);
    assert(all_said(anchor) == anchor_said(host, repeat));
    let start = all_said(opening);
    assert(start + all_said(body) + all_said(place) =~= start + middle);
    middle
}

proof fn lemma_said_one(op: Op)
    ensures
        all_said(seq![op]) == said(op),
{
    assert(seq![op].skip(1) =~= Seq::empty());
    reveal_with_fuel(all_said, 2);
    assert(all_said(seq![op]) =~= said(op));
}

proof fn lemma_said_opening()
    ensures
        all_said(seq![Op::HideCursor, Op::BeginSync, Op::CloseLink]) == seq![
            Heard::HideCursor,
            Heard::BeginSync,
            Heard::Link(Seq::empty()),
        ],
{
    let opening = seq![Op::HideCursor, Op::BeginSync, Op::CloseLink];
    lemma_said_one(Op::HideCursor);
    lemma_said_one(Op::BeginSync);
    lemma_said_one(Op::CloseLink);
    lemma_all_said_add(seq![Op::HideCursor], seq![Op::BeginSync]);
    lemma_all_said_add(seq![Op::HideCursor] + seq![Op::BeginSync], seq![Op::CloseLink]);
    assert(opening =~= seq![Op::HideCursor] + seq![Op::BeginSync] + seq![Op::CloseLink]);
    assert(all_said(opening) =~= seq![
        Heard::HideCursor,
        Heard::BeginSync,
        Heard::Link(Seq::empty()),
    ]);
}

proof fn lemma_said_anchor(host: cursor::HostCursorState)
    ensures
        all_said(cursor::anchor_ops(host)) == seq![
            Heard::MoveTo { x: host.position.0 as int, y: host.position.1 as int },
            if host.visible {
                Heard::ShowCursor
            } else {
                Heard::HideCursor
            },
        ],
{
    let anchor = cursor::anchor_ops(host);
    lemma_said_one(anchor[0]);
    lemma_said_one(anchor[1]);
    lemma_all_said_add(seq![anchor[0]], seq![anchor[1]]);
    assert(anchor =~= seq![anchor[0]] + seq![anchor[1]]);
    assert(all_said(anchor) =~= seq![
        Heard::MoveTo { x: host.position.0 as int, y: host.position.1 as int },
        if host.visible {
            Heard::ShowCursor
        } else {
            Heard::HideCursor
        },
    ]);
}

proof fn lemma_all_said_add(a: Seq<Op>, b: Seq<Op>)
    ensures
        all_said(a + b) == all_said(a) + all_said(b),
    decreases a.len(),
{
    if a.len() == 0 {
        assert(a + b =~= b);
        assert(all_said(a) + all_said(b) =~= all_said(b));
    } else {
        lemma_all_said_add(a.skip(1), b);
        assert((a + b).skip(1) =~= a.skip(1) + b);
        assert(all_said(a + b) =~= all_said(a) + all_said(b));
    }
}

/// A frame for a terminal that never showed a cursor: its cursor shows as the frame has
/// it, and on all platforms but Windows its position is told once more at the end.
pub proof fn law_plain_blit_shows_frame_cursor(
    screen: screen::Screen,
    frame: FrameView,
    prev: Option<FrameView>,
    windows: bool,
)
    requires
        width::display_width(Seq::empty()) == 0,
        render_ansi::blit_ready(frame, prev),
        symbols_plain(frame),
        screen.shape == 0,
        frame.cursor matches Some(cursor) ==> cursor.x < frame.width && cursor.y < frame.height,
    ensures
        ({
            let bytes = render_ansi::plain_blit(frame, prev, windows);
            let after = received(display_of(screen), bytes);
            &&& frame.cursor matches Some(cursor) ==> {
                &&& after.cursor == (cursor.x as int, cursor.y as int)
                &&& after.visible == cursor.visible
                &&& cursor.shape <= 6 ==> after.shape == cursor.shape
            }
            &&& frame.cursor is None ==> !after.visible
            &&& frame.cursor is None && frame.width > 0 && frame.height > 0 ==> after.cursor == (
                frame.width - 1,
                frame.height - 1,
            )
            &&& windows <==> heard(bytes).last() is EndSync
        }),
{
    let repeat = render_ansi::repeats_anchor(windows);
    law_terminal_cursor_is_the_frames(screen, frame, prev, None, repeat, false);
    law_blit_is_heard(screen, frame, prev, None, 0, repeat, false);
    screen::law_blit_settles_cursor(screen, frame, prev, None, repeat, false);
    law_frame_is_heard_in_sync(frame, prev, None, 0, repeat, false);
}

/// A terminal client that is in sync and is sent a frame without graphics displays the
/// cells of that frame, each in its row and column, in its style and with its target.
pub proof fn law_terminal_client_displays_cell(
    screen: screen::Screen,
    encoder: encoder::EncoderView,
    seq: u64,
    frame: FrameView,
    repeat: bool,
    row: int,
    col: int,
)
    requires
        width::display_width(Seq::empty()) == 0,
        screen::in_sync(screen, encoder),
        carried_over(screen, frame, encoder.last_frame),
        encoder.last_frame != Some(frame),
        frame.graphics.len() == 0,
        0 <= row < frame.height,
        0 <= col < frame.width,
        !frame.cells[row * frame.width + col].skip,
        width::display_width(frame.cells[row * frame.width + col].symbol) > 0,
        forall|c: int| !render_ansi::takes_up(frame, row, c, col),
    ensures
        ({
            let state = render_stream::StateView::TerminalAnsi { encoder, seq };
            let cell = frame.cells[row * frame.width + col];
            &&& render_stream::prepared(state, frame, repeat) matches Some(sent)
            &&& render_stream::message_of(sent) matches protocol::MessageView::Terminal(terminal)
            &&& received(display_of(screen), terminal.bytes).rows[row][col] == Spot::Glyph(
                Shown {
                    symbol: cell.symbol,
                    style: packed_style(cell.fg, cell.bg, cell.modifier),
                    target: hyperlink::target(frame, cell),
                },
            )
        }),
{
    law_terminal_shows_cell(
        screen,
        frame,
        encoder.last_frame,
        encoder.last_visible_cursor,
        encoder.last_cursor_shape,
        repeat,
        false,
        row,
        col,
    );
    render_stream::law_terminal_message_has_frame_size(encoder, seq, frame, repeat);
}

/// A text is written as it is, whatever characters it holds.
pub proof fn law_text_is_written_as_it_is(text: Seq<char>)
    ensures
        vstd::utf8::decode_utf8(ops::op_bytes(Op::Text(text))) == text,
{
    vstd::utf8::encode_utf8_decode_utf8(text);
}

/// The style that a style sequence sets does not depend on the style before it.
pub proof fn law_style_starts_from_plain(fg: u32, bg: u32, modifier: u16, before: Rendition)
    ensures
        ({
            let bytes = sgr::sgr_bytes(fg, bg, modifier);
            rendered(numbers(bytes.subrange(2, bytes.len() - 1)), before) == packed_style(
                fg,
                bg,
                modifier,
            )
        }),
{
    lemma_style(fg, bg, modifier);
    let bytes = sgr::sgr_bytes(fg, bg, modifier);
    assert(bytes.subrange(2, bytes.len() - 1) =~= style_params(fg, bg, modifier));
    lemma_numbers_nonempty(style_params(fg, bg, modifier));
}

} // verus!
