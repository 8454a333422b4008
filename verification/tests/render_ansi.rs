//! Byte-exact tests of colors, styles and frame blitting.

use herdr_render::protocol::{CellData, CursorState, FrameData};
use herdr_render::render_ansi::{
    self, blit_frame_to_with_cursor_memory_and_policy, cells_equal,
};
use herdr_render::sgr::{build_sgr_into, write_color_sgr_bg, write_color_sgr_fg};

const WIDE_GRAPHEME: &str = "💡";

fn make_cell(symbol: &str, fg: u32, bg: u32, modifier: u16) -> CellData {
    CellData {
        symbol: symbol.into(),
        fg,
        bg,
        modifier,
        skip: false,
        hyperlink: None,
    }
}

fn make_frame(width: u16, height: u16, cells: Vec<CellData>) -> FrameData {
    FrameData {
        cells,
        width,
        height,
        cursor: None,
        hyperlinks: Vec::new(),
        graphics: Vec::new(),
    }
}

fn linked_cell(symbol: &str, index: u32) -> CellData {
    let mut cell = make_cell(symbol, 0, 0, 0);
    cell.hyperlink = Some(index);
    cell
}

// The expected bytes are those of every platform but Windows.
const WINDOWS: bool = false;

fn blit_frame_to(out: &mut Vec<u8>, frame: &FrameData, prev: Option<&FrameData>) {
    render_ansi::blit_frame_to(out, frame, prev, WINDOWS);
}

fn blit_frame_to_with_cursor_memory(
    out: &mut Vec<u8>,
    frame: &FrameData,
    prev: Option<&FrameData>,
    last_visible_cursor: &mut Option<(u16, u16)>,
    last_cursor_shape: &mut u8,
    suppress_visible_cursor: bool,
) {
    render_ansi::blit_frame_to_with_cursor_memory(
        out,
        frame,
        prev,
        last_visible_cursor,
        last_cursor_shape,
        suppress_visible_cursor,
        WINDOWS,
    );
}

// Strings read more naturally than the bytes that the writers append.
fn build_sgr(fg: u32, bg: u32, modifier: u16) -> String {
    let mut out = Vec::new();
    build_sgr_into(&mut out, fg, bg, modifier);
    String::from_utf8(out).unwrap()
}

fn color_to_sgr_fg(val: u32) -> String {
    let mut out = Vec::new();
    write_color_sgr_fg(&mut out, val);
    String::from_utf8(out).unwrap()
}

fn color_to_sgr_bg(val: u32) -> String {
    let mut out = Vec::new();
    write_color_sgr_bg(&mut out, val);
    String::from_utf8(out).unwrap()
}

#[test]
fn color_to_sgr_fg_named_colors() {
    assert_eq!(color_to_sgr_fg(0x00_00_00_00), "39"); // Reset
    assert_eq!(color_to_sgr_fg(0x00_00_00_01), "30"); // Black
    assert_eq!(color_to_sgr_fg(0x00_00_00_02), "31"); // Red
    assert_eq!(color_to_sgr_fg(0x00_00_00_10), "97"); // White
}

#[test]
fn color_to_sgr_fg_indexed() {
    assert_eq!(color_to_sgr_fg(0x01_00_00_AB), "38;5;171");
}

#[test]
fn color_to_sgr_fg_rgb() {
    assert_eq!(color_to_sgr_fg(0x02_FF_80_40), "38;2;255;128;64");
}

#[test]
fn color_to_sgr_bg_named_colors() {
    assert_eq!(color_to_sgr_bg(0x00_00_00_00), "49"); // Reset
    assert_eq!(color_to_sgr_bg(0x00_00_00_01), "40"); // Black
    assert_eq!(color_to_sgr_bg(0x00_00_00_10), "107"); // White
}

#[test]
fn color_to_sgr_bg_rgb() {
    assert_eq!(color_to_sgr_bg(0x02_FF_80_40), "48;2;255;128;64");
}

#[test]
fn build_sgr_produces_valid_sequence() {
    let sgr = build_sgr(0x00_00_00_02, 0x00_00_00_01, 1); // fg=Red, bg=Black, bold
    assert!(sgr.starts_with("\x1b["));
    assert!(sgr.ends_with("m"));
    assert!(sgr.contains("0")); // reset existing style first
    assert!(sgr.contains("1")); // bold
    assert!(sgr.contains("31")); // fg red
    assert!(sgr.contains("40")); // bg black
}

#[test]
fn build_sgr_resets_previous_modifiers_when_cell_is_plain() {
    assert_eq!(build_sgr(0x00_00_00_00, 0x00_00_00_00, 0), "\x1b[0;39;49m");
}

// The parameter order is reset (0), modifiers, foreground, background.
#[test]
fn build_sgr_exact_styled_ordering() {
    // fg = RGB(255,128,64), bg = indexed 171, modifiers = BOLD|REVERSED.
    assert_eq!(
        build_sgr(0x02_FF_80_40, 0x01_00_00_AB, 0x41),
        "\x1b[0;1;7;38;2;255;128;64;48;5;171m"
    );
}

// Every modifier bit maps to its parameter, in the order of the bits.
#[test]
fn build_sgr_all_modifiers_mapped() {
    assert_eq!(
        build_sgr(0x00_00_00_00, 0x00_00_00_00, 0x1FF),
        "\x1b[0;1;2;3;4;5;6;7;8;9;39;49m"
    );
}

#[test]
fn cells_equal_identical() {
    let a = make_cell("A", 2, 1, 0);
    let b = make_cell("A", 2, 1, 0);
    assert!(cells_equal(&a, &b));
}

#[test]
fn cells_equal_different_symbol() {
    let a = make_cell("A", 2, 1, 0);
    let b = make_cell("B", 2, 1, 0);
    assert!(!cells_equal(&a, &b));
}

#[test]
fn cells_equal_different_color() {
    let a = make_cell("A", 2, 1, 0);
    let b = make_cell("A", 3, 1, 0);
    assert!(!cells_equal(&a, &b));
}

#[test]
fn blit_frame_hides_cursor_before_full_redraw_writes() {
    let frame = make_frame(
        2,
        2,
        vec![
            make_cell("H", 0, 0, 0),
            make_cell("i", 0, 0, 0),
            make_cell("!", 0, 0, 0),
            make_cell(" ", 0, 0, 0),
        ],
    );

    let mut output = Vec::new();
    blit_frame_to(&mut output, &frame, None);

    let output_str = String::from_utf8(output).unwrap();
    assert!(
        output_str.starts_with("\x1b[?25l\x1b[?2026h"),
        "should hide cursor before synchronized frame painting during full redraw"
    );
}

#[test]
fn blit_frame_hides_cursor_before_diff_writes() {
    let prev = make_frame(
        2,
        2,
        vec![
            make_cell("H", 0, 0, 0),
            make_cell("i", 0, 0, 0),
            make_cell("!", 0, 0, 0),
            make_cell(" ", 0, 0, 0),
        ],
    );

    let curr = make_frame(
        2,
        2,
        vec![
            make_cell("X", 0, 0, 0), // Changed
            make_cell("i", 0, 0, 0), // Same
            make_cell("!", 0, 0, 0), // Same
            make_cell(" ", 0, 0, 0), // Same
        ],
    );

    let mut output = Vec::new();
    blit_frame_to(&mut output, &curr, Some(&prev));

    let output_str = String::from_utf8(output).unwrap();
    assert!(
        output_str.starts_with("\x1b[?25l\x1b[?2026h"),
        "should hide cursor before synchronized frame painting during diff"
    );
}

#[test]
fn blit_frame_wraps_frame_in_synchronized_output() {
    let frame = make_frame(1, 1, vec![make_cell("A", 0, 0, 0)]);

    let mut output = Vec::new();
    blit_frame_to(&mut output, &frame, None);

    let output_str = String::from_utf8(output).unwrap();
    assert!(
        output_str.starts_with("\x1b[?25l\x1b[?2026h"),
        "should begin synchronized output before frame writes"
    );
    let sync_end = output_str
        .find("\x1b[?2026l")
        .expect("should end synchronized output after frame writes");
    assert!(
        sync_end > 0,
        "should end synchronized output after frame writes"
    );
}

#[test]
fn blit_frame_can_repeat_final_cursor_state_after_synchronized_output() {
    let frame = FrameData {
        cells: vec![make_cell("A", 0, 0, 0); 9],
        width: 3,
        height: 3,
        cursor: Some(CursorState {
            x: 2,
            y: 1,
            visible: true,
            shape: 0,
        }),
        hyperlinks: Vec::new(),
        graphics: Vec::new(),
    };

    let mut last_visible_cursor = None;
    let mut last_cursor_shape = 0;
    let mut output = Vec::new();
    blit_frame_to_with_cursor_memory_and_policy(
        &mut output,
        &frame,
        None,
        &mut last_visible_cursor,
        &mut last_cursor_shape,
        true,
        false,
    );

    let output_str = String::from_utf8(output).unwrap();
    let sync_end = output_str
        .find("\x1b[?2026l")
        .expect("should end synchronized output");
    let trailing_cursor = &output_str[sync_end + "\x1b[?2026l".len()..];
    assert_eq!(
        trailing_cursor, "\x1b[2;3H\x1b[?25h",
        "should expose only the final cursor state after synchronized output"
    );
}

#[test]
fn blit_frame_can_skip_final_cursor_state_after_synchronized_output() {
    let frame = FrameData {
        cells: vec![make_cell("A", 0, 0, 0); 9],
        width: 3,
        height: 3,
        cursor: Some(CursorState {
            x: 2,
            y: 1,
            visible: true,
            shape: 0,
        }),
        hyperlinks: Vec::new(),
        graphics: Vec::new(),
    };

    let mut last_visible_cursor = None;
    let mut last_cursor_shape = 0;
    let mut output = Vec::new();
    blit_frame_to_with_cursor_memory_and_policy(
        &mut output,
        &frame,
        None,
        &mut last_visible_cursor,
        &mut last_cursor_shape,
        false,
        false,
    );

    let output_str = String::from_utf8(output).unwrap();
    let sync_end = output_str
        .find("\x1b[?2026l")
        .expect("should end synchronized output");
    let trailing_cursor = &output_str[sync_end + "\x1b[?2026l".len()..];
    assert_eq!(
        trailing_cursor, "",
        "should not expose a post-sync cursor repeat when the target terminal flickers on it"
    );
}

#[test]
fn blit_frame_emits_cursor_shape_before_visibility_without_touching_ime_anchor() {
    let frame = FrameData {
        cells: vec![make_cell("A", 0, 0, 0)],
        width: 1,
        height: 1,
        cursor: Some(CursorState {
            x: 0,
            y: 0,
            visible: true,
            shape: 6,
        }),
        hyperlinks: Vec::new(),
        graphics: Vec::new(),
    };

    let mut last_visible_cursor = None;
    let mut last_cursor_shape = 0;
    let mut output = Vec::new();
    blit_frame_to_with_cursor_memory_and_policy(
        &mut output,
        &frame,
        None,
        &mut last_visible_cursor,
        &mut last_cursor_shape,
        true,
        false,
    );

    let output_str = String::from_utf8(output).unwrap();
    let final_cursor = output_str
        .find("\x1b[1;1H\x1b[6 q\x1b[?25h")
        .expect("should set cursor shape before showing cursor");
    let sync_end = output_str
        .find("\x1b[?2026l")
        .expect("should end synchronized output");
    assert!(
        final_cursor < sync_end,
        "shape should be part of the synchronized final cursor state"
    );
    let trailing_cursor = &output_str[sync_end + "\x1b[?2026l".len()..];
    assert_eq!(
        trailing_cursor, "\x1b[1;1H\x1b[?25h",
        "IME anchor update should preserve the existing position/visibility-only contract"
    );
}

#[test]
fn blit_frame_repeats_explicit_hidden_cursor_anchor_after_synchronized_output() {
    let visible = FrameData {
        cells: vec![make_cell("A", 0, 0, 0); 9],
        width: 3,
        height: 3,
        cursor: Some(CursorState {
            x: 0,
            y: 0,
            visible: true,
            shape: 0,
        }),
        hyperlinks: Vec::new(),
        graphics: Vec::new(),
    };
    let hidden = FrameData {
        cells: vec![make_cell("B", 0, 0, 0); 9],
        width: 3,
        height: 3,
        cursor: Some(CursorState {
            x: 2,
            y: 1,
            visible: false,
            shape: 0,
        }),
        hyperlinks: Vec::new(),
        graphics: Vec::new(),
    };
    let mut last_visible_cursor = None;
    let mut last_cursor_shape = 0;
    let mut output = Vec::new();

    blit_frame_to_with_cursor_memory_and_policy(
        &mut output,
        &visible,
        None,
        &mut last_visible_cursor,
        &mut last_cursor_shape,
        true,
        false,
    );
    output.clear();
    blit_frame_to_with_cursor_memory_and_policy(
        &mut output,
        &hidden,
        Some(&visible),
        &mut last_visible_cursor,
        &mut last_cursor_shape,
        true,
        false,
    );

    let output_str = String::from_utf8(output).unwrap();
    let sync_end = output_str
        .find("\x1b[?2026l")
        .expect("should end synchronized output");
    let trailing_cursor = &output_str[sync_end + "\x1b[?2026l".len()..];
    assert_eq!(
        trailing_cursor, "\x1b[2;3H\x1b[?25l",
        "should repeat the explicit hidden cursor position while preserving visibility"
    );
}

#[test]
fn blit_frame_emits_osc8_for_linked_cells() {
    let mut frame = make_frame(
        3,
        1,
        vec![
            linked_cell("L", 0),
            linked_cell("i", 0),
            make_cell("!", 0, 0, 0),
        ],
    );
    frame.hyperlinks.push("https://example.com".to_owned());

    let mut output = Vec::new();
    blit_frame_to(&mut output, &frame, None);

    let output_str = String::from_utf8(output).unwrap();
    assert!(output_str.contains("\x1b]8;;https://example.com\x1b\\L"));
    assert!(output_str.contains('i'));
    assert!(output_str.contains("\x1b]8;;\x1b\\"));
}

#[test]
fn blit_frame_sanitizes_hyperlink_uris() {
    let mut frame = make_frame(1, 1, vec![linked_cell("L", 0)]);
    frame
        .hyperlinks
        .push("https://exa\x1b\x07mple.com".to_owned());

    let mut output = Vec::new();
    blit_frame_to(&mut output, &frame, None);

    let output_str = String::from_utf8(output).unwrap();
    assert!(output_str.contains("\x1b]8;;https://example.com\x1b\\L"));
}

#[test]
fn blit_frame_first_frame_produces_output() {
    let frame = make_frame(
        2,
        2,
        vec![
            make_cell("H", 0, 0, 0),
            make_cell("i", 0, 0, 0),
            make_cell("!", 0, 0, 0),
            make_cell(" ", 0, 0, 0),
        ],
    );

    let mut output = Vec::new();
    blit_frame_to(&mut output, &frame, None);

    let output_str = String::from_utf8(output).unwrap();
    // Full redraw should start with clear screen.
    assert!(
        output_str.contains("\x1b[2J"),
        "full redraw should clear screen"
    );
    assert!(
        output_str.contains('H') || output_str.contains('i'),
        "should contain cell content"
    );
}

#[test]
fn blit_frame_diff_only_writes_changed_cells() {
    let prev = make_frame(
        2,
        2,
        vec![
            make_cell("H", 0, 0, 0),
            make_cell("i", 0, 0, 0),
            make_cell("!", 0, 0, 0),
            make_cell(" ", 0, 0, 0),
        ],
    );

    // Only the first cell changed.
    let curr = make_frame(
        2,
        2,
        vec![
            make_cell("X", 0, 0, 0), // Changed
            make_cell("i", 0, 0, 0), // Same
            make_cell("!", 0, 0, 0), // Same
            make_cell(" ", 0, 0, 0), // Same
        ],
    );

    let mut output = Vec::new();
    blit_frame_to(&mut output, &curr, Some(&prev));

    let output_str = String::from_utf8(output).unwrap();
    // Diff should NOT clear the screen.
    assert!(
        !output_str.contains("\x1b[2J"),
        "diff should not clear screen"
    );
    // Should contain the changed cell content.
    assert!(output_str.contains('X'), "should contain changed cell 'X'");
}

#[test]
fn blit_frame_size_change_triggers_full_redraw() {
    let prev = make_frame(2, 2, vec![make_cell("A", 0, 0, 0); 4]);

    let curr = make_frame(3, 2, vec![make_cell("B", 0, 0, 0); 6]);

    let mut output = Vec::new();
    blit_frame_to(&mut output, &curr, Some(&prev));

    let output_str = String::from_utf8(output).unwrap();
    assert!(
        output_str.contains("\x1b[2J"),
        "size change should trigger full redraw"
    );
}

#[test]
fn blit_frame_positions_cursor() {
    let frame = FrameData {
        cells: vec![make_cell("A", 0, 0, 0)],
        width: 1,
        height: 1,
        cursor: Some(CursorState {
            x: 0,
            y: 0,
            visible: true,
            shape: 0,
        }),
        hyperlinks: Vec::new(),
        graphics: Vec::new(),
    };

    let mut output = Vec::new();
    blit_frame_to(&mut output, &frame, None);

    let output_str = String::from_utf8(output).unwrap();
    assert!(
        output_str.contains("\x1b[1;1H"),
        "should position cursor at (1,1)"
    );
}

#[test]
fn blit_frame_hides_cursor_when_invisible() {
    let frame = FrameData {
        cells: vec![make_cell("A", 0, 0, 0)],
        width: 1,
        height: 1,
        cursor: Some(CursorState {
            x: 0,
            y: 0,
            visible: false,
            shape: 0,
        }),
        hyperlinks: Vec::new(),
        graphics: Vec::new(),
    };

    let mut output = Vec::new();
    blit_frame_to(&mut output, &frame, None);

    let output_str = String::from_utf8(output).unwrap();
    assert!(
        output_str.contains("\x1b[?25l"),
        "should hide cursor when invisible"
    );
}

#[test]
fn blit_frame_no_cursor_hides_cursor() {
    let frame = FrameData {
        cells: vec![make_cell("A", 0, 0, 0)],
        width: 1,
        height: 1,
        cursor: None,
        hyperlinks: Vec::new(),
        graphics: Vec::new(),
    };

    let mut output = Vec::new();
    blit_frame_to(&mut output, &frame, None);

    let output_str = String::from_utf8(output).unwrap();
    assert!(
        output_str.contains("\x1b[?25l"),
        "should hide cursor when no cursor state"
    );
}

#[test]
fn blit_frame_restores_cursor_visibility() {
    // First frame: cursor hidden.
    let prev = FrameData {
        cells: vec![make_cell("A", 0, 0, 0)],
        width: 1,
        height: 1,
        cursor: Some(CursorState {
            x: 0,
            y: 0,
            visible: false,
            shape: 0,
        }),
        hyperlinks: Vec::new(),
        graphics: Vec::new(),
    };

    let mut output = Vec::new();
    blit_frame_to(&mut output, &prev, None);
    assert!(
        String::from_utf8(output).unwrap().contains("\x1b[?25l"),
        "first frame should hide cursor"
    );

    // Second frame: cursor visible — should restore visibility.
    let curr = FrameData {
        cells: vec![make_cell("B", 0, 0, 0)],
        width: 1,
        height: 1,
        cursor: Some(CursorState {
            x: 0,
            y: 0,
            visible: true,
            shape: 0,
        }),
        hyperlinks: Vec::new(),
        graphics: Vec::new(),
    };

    let mut output = Vec::new();
    blit_frame_to(&mut output, &curr, Some(&prev));
    let output_str = String::from_utf8(output).unwrap();
    assert!(
        output_str.contains("\x1b[?25h"),
        "second frame should restore cursor visibility with ?25h"
    );
    assert!(
        output_str.contains("\x1b[1;1H"),
        "should position cursor before showing it"
    );
}

#[test]
fn blit_frame_positions_cursor_before_showing_it() {
    let prev = FrameData {
        cells: vec![make_cell("A", 0, 0, 0); 9],
        width: 3,
        height: 3,
        cursor: Some(CursorState {
            x: 0,
            y: 0,
            visible: true,
            shape: 0,
        }),
        hyperlinks: Vec::new(),
        graphics: Vec::new(),
    };
    let mut curr = prev.clone();
    curr.cells[0] = make_cell("B", 0, 0, 0);
    curr.cursor = Some(CursorState {
        x: 2,
        y: 2,
        visible: true,
        shape: 0,
    });

    let mut output = Vec::new();
    blit_frame_to(&mut output, &curr, Some(&prev));
    let output_str = String::from_utf8(output).unwrap();
    let final_move = output_str
        .rfind("\x1b[3;3H")
        .expect("should move cursor to final position");
    let show = output_str
        .rfind("\x1b[?25h")
        .expect("should show cursor after positioning it");

    assert!(
        final_move < show,
        "should move cursor to final position before showing it"
    );
}

#[test]
fn blit_frame_parks_hidden_cursor_at_last_visible_position() {
    let visible = FrameData {
        cells: vec![make_cell("A", 0, 0, 0); 9],
        width: 3,
        height: 3,
        cursor: Some(CursorState {
            x: 1,
            y: 1,
            visible: true,
            shape: 0,
        }),
        hyperlinks: Vec::new(),
        graphics: Vec::new(),
    };
    let hidden = FrameData {
        cells: vec![make_cell("B", 0, 0, 0); 9],
        width: 3,
        height: 3,
        cursor: None,
        hyperlinks: Vec::new(),
        graphics: Vec::new(),
    };
    let mut last_visible_cursor = None;
    let mut last_cursor_shape = 0;
    let mut output = Vec::new();

    blit_frame_to_with_cursor_memory(
        &mut output,
        &visible,
        None,
        &mut last_visible_cursor,
        &mut last_cursor_shape,
        false,
    );
    output.clear();
    blit_frame_to_with_cursor_memory(
        &mut output,
        &hidden,
        Some(&visible),
        &mut last_visible_cursor,
        &mut last_cursor_shape,
        false,
    );

    let output_str = String::from_utf8(output).unwrap();
    let park = output_str
        .rfind("\x1b[2;2H")
        .expect("should park hidden cursor at last visible position");
    let hide = output_str
        .rfind("\x1b[?25l")
        .expect("should keep hidden cursor hidden");
    assert!(park < hide, "should park cursor before hiding it");
}

#[test]
fn blit_frame_parks_hidden_cursor_at_bottom_right_without_history() {
    let frame = FrameData {
        cells: vec![make_cell("A", 0, 0, 0); 6],
        width: 3,
        height: 2,
        cursor: None,
        hyperlinks: Vec::new(),
        graphics: Vec::new(),
    };
    let mut last_visible_cursor = None;
    let mut last_cursor_shape = 0;
    let mut output = Vec::new();

    blit_frame_to_with_cursor_memory(
        &mut output,
        &frame,
        None,
        &mut last_visible_cursor,
        &mut last_cursor_shape,
        false,
    );

    let output_str = String::from_utf8(output).unwrap();
    assert!(
        output_str.contains("\x1b[2;3H\x1b[?25l"),
        "should park hidden cursor at bottom-right before ending the frame"
    );
}

#[test]
fn blit_frame_hides_previous_visible_cursor_when_next_frame_has_none() {
    let prev = FrameData {
        cells: vec![make_cell("A", 0, 0, 0)],
        width: 1,
        height: 1,
        cursor: Some(CursorState {
            x: 0,
            y: 0,
            visible: true,
            shape: 0,
        }),
        hyperlinks: Vec::new(),
        graphics: Vec::new(),
    };
    let curr = FrameData {
        cells: vec![make_cell("B", 0, 0, 0)],
        width: 1,
        height: 1,
        cursor: None,
        hyperlinks: Vec::new(),
        graphics: Vec::new(),
    };

    let mut output = Vec::new();
    blit_frame_to(&mut output, &curr, Some(&prev));

    assert!(
        String::from_utf8(output).unwrap().contains("\x1b[?25l"),
        "diff redraw should hide a previously visible cursor when the next frame has none"
    );
}

#[test]
fn full_redraw_skips_trailing_cells_covered_by_wide_graphemes() {
    let frame = FrameData {
        cells: vec![
            make_cell(WIDE_GRAPHEME, 0, 0, 0),
            make_cell(" ", 0, 0, 0),
            make_cell("Z", 0, 0, 0),
        ],
        width: 3,
        height: 1,
        cursor: None,
        hyperlinks: Vec::new(),
        graphics: Vec::new(),
    };

    let mut output = Vec::new();
    blit_frame_to(&mut output, &frame, None);
    let output_str = String::from_utf8(output).unwrap();

    assert!(output_str.contains("\x1b[1;1H"));
    assert!(!output_str.contains("\x1b[1;2H"));
    assert!(output_str.contains("\x1b[1;3H"));
}

#[test]
fn diff_redraw_reveals_cells_hidden_by_previous_wide_graphemes() {
    let prev = FrameData {
        cells: vec![
            make_cell(WIDE_GRAPHEME, 0, 0, 0),
            make_cell(" ", 0, 0, 0),
            make_cell("Z", 0, 0, 0),
        ],
        width: 3,
        height: 1,
        cursor: None,
        hyperlinks: Vec::new(),
        graphics: Vec::new(),
    };
    let curr = FrameData {
        cells: vec![
            make_cell("A", 0, 0, 0),
            make_cell(" ", 0, 0, 0),
            make_cell("Z", 0, 0, 0),
        ],
        width: 3,
        height: 1,
        cursor: None,
        hyperlinks: Vec::new(),
        graphics: Vec::new(),
    };

    let mut output = Vec::new();
    blit_frame_to(&mut output, &curr, Some(&prev));
    let output_str = String::from_utf8(output).unwrap();

    assert!(output_str.contains("\x1b[1;1H"));
    assert!(
        output_str.contains("\x1b[1;2H"),
        "cells hidden by a previous wide grapheme must be redrawn when they become visible"
    );
}

#[test]
fn diff_redraw_skips_new_trailing_cells_covered_by_wide_graphemes() {
    let prev = FrameData {
        cells: vec![
            make_cell("A", 0, 0, 0),
            make_cell("B", 0, 0, 0),
            make_cell("Z", 0, 0, 0),
        ],
        width: 3,
        height: 1,
        cursor: None,
        hyperlinks: Vec::new(),
        graphics: Vec::new(),
    };
    let curr = FrameData {
        cells: vec![
            make_cell(WIDE_GRAPHEME, 0, 0, 0),
            make_cell(" ", 0, 0, 0),
            make_cell("Z", 0, 0, 0),
        ],
        width: 3,
        height: 1,
        cursor: None,
        hyperlinks: Vec::new(),
        graphics: Vec::new(),
    };

    let mut output = Vec::new();
    blit_frame_to(&mut output, &curr, Some(&prev));
    let output_str = String::from_utf8(output).unwrap();

    assert!(output_str.contains("\x1b[1;1H"));
    assert!(!output_str.contains("\x1b[1;2H"));
}

// A family emoji joined by zero-width joiners: more than 24 bytes, width 2.
const ZWJ_FAMILY: &str = "👨‍👩‍👧‍👦";

// A full redraw byte by byte: opening, then position, style and symbol of each cell,
// then the reset and the cursor. All color encodings occur.
#[test]
fn blit_full_redraw_exact_byte_stream() {
    let frame = make_frame(
        3,
        1,
        vec![
            make_cell("A", 0x00_00_00_02, 0x00_00_00_00, 0), // named fg red
            make_cell("B", 0x02_FF_80_40, 0x01_00_00_AB, 0x01), // rgb fg, indexed bg, bold
            make_cell("C", 0x00_00_00_00, 0x00_00_00_00, 0), // plain
        ],
    );

    let mut output = Vec::new();
    blit_frame_to(&mut output, &frame, None);

    assert_eq!(
        output,
        b"\x1b[?25l\x1b[?2026h\x1b]8;;\x1b\\\x1b[2J\x1b[H\
\x1b[1;1H\x1b[0;31;49mA\
\x1b[1;2H\x1b[0;1;38;2;255;128;64;48;5;171mB\
\x1b[1;3H\x1b[0;39;49mC\
\x1b[0m\x1b[1;3H\x1b[?25l\x1b[?2026l\x1b[1;3H\x1b[?25l"
            .to_vec(),
        "full-redraw byte stream changed; actual = {:?}",
        String::from_utf8_lossy(&output)
    );
}

// Adjacent changed cells of one style set that style once.
#[test]
fn blit_diff_dedups_adjacent_same_style_sgr() {
    let prev = make_frame(2, 1, vec![make_cell("a", 5, 6, 0), make_cell("b", 5, 6, 0)]);
    let curr = make_frame(2, 1, vec![make_cell("X", 5, 6, 0), make_cell("Y", 5, 6, 0)]);

    let mut output = Vec::new();
    blit_frame_to(&mut output, &curr, Some(&prev));
    let s = String::from_utf8(output).unwrap();

    let sgr = build_sgr(5, 6, 0);
    assert_eq!(
        s.matches(&sgr).count(),
        1,
        "identical adjacent styles must emit SGR once, got: {s:?}"
    );
    assert!(s.contains('X') && s.contains('Y'));
}

// A cell with an empty symbol moves the cursor but writes nothing, and covers no
// further column.
#[test]
fn blit_empty_symbol_cell_writes_cup_no_symbol_bytes() {
    let frame = make_frame(2, 1, vec![make_cell("", 0, 0, 0), make_cell("Z", 0, 0, 0)]);

    let mut output = Vec::new();
    blit_frame_to(&mut output, &frame, None);
    let s = String::from_utf8(output).unwrap();

    // Both columns addressed; empty cell contributes no glyph, "Z" present.
    assert!(s.contains("\x1b[1;1H"));
    assert!(s.contains("\x1b[1;2H"));
    assert!(s.contains('Z'));
}

// A grapheme of many code points is written as it is, and its second column is
// skipped.
#[test]
fn blit_wide_zwj_grapheme_intact_and_skips_column() {
    assert!(ZWJ_FAMILY.len() > 24, "fixture must exceed inline capacity");
    let frame = make_frame(
        3,
        1,
        vec![
            make_cell(ZWJ_FAMILY, 0, 0, 0),
            make_cell(" ", 0, 0, 0),
            make_cell("Z", 0, 0, 0),
        ],
    );

    let mut output = Vec::new();
    blit_frame_to(&mut output, &frame, None);
    let s = String::from_utf8(output).unwrap();

    assert!(
        s.contains(ZWJ_FAMILY),
        "wide grapheme must be written verbatim"
    );
    assert!(s.contains("\x1b[1;1H"));
    assert!(
        !s.contains("\x1b[1;2H"),
        "trailing column of wide cell skipped"
    );
    assert!(s.contains("\x1b[1;3H"));
}
