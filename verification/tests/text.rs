//! Tests of numerals, hyperlink targets, widths and cursor placement.

use herdr_render::cursor::{
    clamp_cursor_position, default_hidden_cursor_position, normalize_cursor_shape,
    resolve_host_cursor_state, write_host_cursor_state, write_ime_anchor_cursor_state,
    HostCursorState,
};
use herdr_render::decimal::{append_dec, push_u16_dec, push_u8_dec};
use herdr_render::hyperlink::{
    cell_hyperlink_uri, is_control, sanitized_cell_hyperlink_uri, sanitized_frame_hyperlinks,
    sanitized_hyperlink_uri,
};
use herdr_render::ops::write_cursor_position;
use herdr_render::protocol::{CellData, CursorState, FrameData};
use herdr_render::render_ansi::{close_hyperlink, write_hyperlink_if_changed};
use herdr_render::width::cell_width;
use unicode_width::UnicodeWidthStr;

fn plain_cell(symbol: &str) -> CellData {
    CellData {
        symbol: symbol.to_owned(),
        fg: 0,
        bg: 0,
        modifier: 0,
        skip: false,
        hyperlink: None,
    }
}

fn blank_frame(width: u16, height: u16) -> FrameData {
    FrameData {
        cells: vec![plain_cell(" "); usize::from(width) * usize::from(height)],
        width,
        height,
        cursor: None,
        hyperlinks: Vec::new(),
        graphics: Vec::new(),
    }
}

#[test]
fn numerals_of_bytes_agree_with_formatting() {
    for n in 0..=255u8 {
        let mut out = vec![b'x'];
        push_u8_dec(&mut out, n);
        assert_eq!(out, format!("x{n}").into_bytes());
    }
}

#[test]
fn numerals_of_words_agree_with_formatting() {
    for n in 0..=65535u16 {
        let mut out = Vec::new();
        push_u16_dec(&mut out, n);
        assert_eq!(out, format!("{n}").into_bytes());
    }
}

#[test]
fn numerals_in_text_agree_with_formatting() {
    for n in [0, 7, 10, 99, 100, 1_000_000_007, u128::from(u64::MAX), u128::MAX] {
        let mut text = String::from("n=");
        append_dec(&mut text, n);
        assert_eq!(text, format!("n={n}"));
    }
}

#[test]
fn cursor_position_counts_from_one_and_names_the_row_first() {
    let mut out = Vec::new();
    write_cursor_position(&mut out, (0, 0));
    write_cursor_position(&mut out, (65534, 9));
    assert_eq!(out, b"\x1b[1;1H\x1b[10;65535H".to_vec());
}

#[test]
fn control_characters_are_those_of_unicode() {
    for code in 0..=0x10ffffu32 {
        if let Some(ch) = char::from_u32(code) {
            assert_eq!(is_control(ch), ch.is_control(), "{code:#x}");
        }
    }
}

#[test]
fn sanitizing_keeps_everything_but_control_characters() {
    assert_eq!(
        sanitized_hyperlink_uri("https://例え.jp/?q=ä b").as_deref(),
        Some("https://例え.jp/?q=ä b")
    );
    assert_eq!(
        sanitized_hyperlink_uri("\x1ba\u{7f}b\u{9c}c\n").as_deref(),
        Some("abc")
    );
}

#[test]
fn sanitizing_to_nothing_leaves_no_target() {
    assert_eq!(sanitized_hyperlink_uri(""), None);
    assert_eq!(sanitized_hyperlink_uri("\x07\x1b\r\n"), None);
}

#[test]
fn hyperlink_lookup_ignores_missing_entries() {
    let mut frame = blank_frame(1, 1);
    frame.hyperlinks = vec!["a\x07".to_owned(), "\x1b".to_owned()];
    let mut cell = plain_cell("L");
    let table = sanitized_frame_hyperlinks(&frame);
    assert_eq!(table, vec![Some("a".to_owned()), None]);

    assert_eq!(cell_hyperlink_uri(&frame, &cell), None);
    assert_eq!(sanitized_cell_hyperlink_uri(&table, &cell), None);

    cell.hyperlink = Some(0);
    assert_eq!(cell_hyperlink_uri(&frame, &cell), Some("a\x07"));
    assert_eq!(sanitized_cell_hyperlink_uri(&table, &cell), Some("a"));

    cell.hyperlink = Some(1);
    assert_eq!(cell_hyperlink_uri(&frame, &cell), Some("\x1b"));
    assert_eq!(sanitized_cell_hyperlink_uri(&table, &cell), None);

    cell.hyperlink = Some(2);
    assert_eq!(cell_hyperlink_uri(&frame, &cell), None);
    assert_eq!(sanitized_cell_hyperlink_uri(&table, &cell), None);
}

#[test]
fn hyperlinks_are_switched_only_when_they_change() {
    let mut out = Vec::new();
    let mut active = None;
    write_hyperlink_if_changed(&mut out, &mut active, None);
    assert!(out.is_empty());
    write_hyperlink_if_changed(&mut out, &mut active, Some("u\x1b"));
    write_hyperlink_if_changed(&mut out, &mut active, Some("u"));
    assert_eq!(out, b"\x1b]8;;u\x1b\\".to_vec());
    assert_eq!(active.as_deref(), Some("u"));
    out.clear();
    write_hyperlink_if_changed(&mut out, &mut active, Some("v"));
    assert_eq!(out, b"\x1b]8;;\x1b\\\x1b]8;;v\x1b\\".to_vec());
    out.clear();
    write_hyperlink_if_changed(&mut out, &mut active, Some("\x07"));
    assert_eq!(out, b"\x1b]8;;\x1b\\".to_vec());
    assert_eq!(active, None);
    out.clear();
    close_hyperlink(&mut out, &mut active);
    assert!(out.is_empty());
    active = Some("w".to_owned());
    close_hyperlink(&mut out, &mut active);
    assert_eq!(out, b"\x1b]8;;\x1b\\".to_vec());
    assert_eq!(active, None);
}

#[test]
fn widths_are_those_of_the_width_tables() {
    for (symbol, width) in [
        ("", 0),
        ("A", 1),
        ("~", 1),
        ("hello", 5),
        ("é", 1),
        ("e\u{301}", 1),
        ("\u{301}", 0),
        ("漢", 2),
        ("💡", 2),
        ("👨\u{200d}👩\u{200d}👧\u{200d}👦", 2),
    ] {
        assert_eq!(cell_width(&plain_cell(symbol)), width, "{symbol:?}");
        assert_eq!(UnicodeWidthStr::width(symbol), width, "{symbol:?}");
    }
}

#[test]
fn printable_ascii_takes_one_column_per_character() {
    for code in 0x20..0x7fu8 {
        let symbol: String = [char::from(code); 3].iter().collect();
        assert_eq!(cell_width(&plain_cell(&symbol)), 3);
    }
}

#[test]
fn invalid_cursor_shapes_become_the_default() {
    for shape in 0..=6u8 {
        assert_eq!(normalize_cursor_shape(shape), shape);
    }
    assert_eq!(normalize_cursor_shape(7), 0);
    assert_eq!(normalize_cursor_shape(255), 0);
}

#[test]
fn positions_are_clamped_to_the_frame() {
    let frame = blank_frame(4, 3);
    assert_eq!(default_hidden_cursor_position(&frame), (3, 2));
    assert_eq!(clamp_cursor_position(&frame, 1, 1), (1, 1));
    assert_eq!(clamp_cursor_position(&frame, 4, 3), (3, 2));
    assert_eq!(clamp_cursor_position(&frame, 65535, 0), (3, 0));
    let empty = blank_frame(0, 0);
    assert_eq!(default_hidden_cursor_position(&empty), (0, 0));
    assert_eq!(clamp_cursor_position(&empty, 9, 9), (0, 0));
}

#[test]
fn host_cursor_remembers_where_it_was_visible() {
    let mut frame = blank_frame(4, 3);
    let mut memory = None;
    let parked = resolve_host_cursor_state(&frame, &mut memory);
    assert_eq!((parked.position, parked.visible, parked.shape), ((3, 2), false, 0));
    assert_eq!(memory, None);

    frame.cursor = Some(CursorState { x: 9, y: 1, visible: true, shape: 9 });
    let shown = resolve_host_cursor_state(&frame, &mut memory);
    assert_eq!((shown.position, shown.visible, shown.shape), ((3, 1), true, 0));
    assert_eq!(memory, Some((3, 1)));

    frame.cursor = Some(CursorState { x: 0, y: 0, visible: false, shape: 4 });
    let hidden = resolve_host_cursor_state(&frame, &mut memory);
    assert_eq!((hidden.position, hidden.visible, hidden.shape), ((0, 0), false, 4));
    assert_eq!(memory, Some((3, 1)));

    frame.cursor = None;
    frame.width = 2;
    let reparked = resolve_host_cursor_state(&frame, &mut memory);
    assert_eq!((reparked.position, reparked.visible), ((1, 1), false));
    assert_eq!(memory, Some((3, 1)));
}

#[test]
fn cursor_state_is_written_in_order() {
    let mut out = Vec::new();
    let mut shape = 2;
    let cursor = HostCursorState { position: (4, 0), visible: true, shape: 5 };
    write_host_cursor_state(&mut out, cursor, &mut shape);
    assert_eq!(out, b"\x1b[1;5H\x1b[5 q\x1b[?25h".to_vec());
    assert_eq!(shape, 5);
    out.clear();
    write_host_cursor_state(&mut out, cursor, &mut shape);
    assert_eq!(out, b"\x1b[1;5H\x1b[?25h".to_vec());
    out.clear();
    let hidden = HostCursorState { visible: false, ..cursor };
    write_ime_anchor_cursor_state(&mut out, hidden);
    assert_eq!(out, b"\x1b[1;5H\x1b[?25l".to_vec());
}
