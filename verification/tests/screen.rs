//! Frames on a simulated terminal: what the bytes make it show.

use herdr_render::cursor::HostCursorState;
use herdr_render::encoder::{compute_prof_blit_stats, BlitEncoder};
use herdr_render::hyperlink::{cell_hyperlink_uri, sanitized_hyperlink_uri};
use herdr_render::protocol::{CellData, CursorState, FrameData, RenderEncoding, ServerMessage};
use herdr_render::render_ansi::{
    blit_frame_to, blit_frame_to_with_cursor_memory_and_policy, repeat_ime_anchor_after_sync,
    write_changed_cells,
};
use herdr_render::render_prof::ProfNote;
use herdr_render::render_stream::ClientRenderState;
use herdr_render::sgr::build_sgr_into;
use unicode_width::UnicodeWidthStr;

#[derive(Clone, Debug, PartialEq)]
enum Slot {
    Blank,
    Glyph { symbol: String, style: String, link: String },
    Tail,
}

/// A terminal that understands the sequences that frames are made of.
struct Terminal {
    rows: Vec<Vec<Slot>>,
    cursor: (usize, usize),
    visible: bool,
    shape: u8,
    style: String,
    link: String,
    synced: bool,
    texts: usize,
    shown_at: Option<(usize, usize)>,
}

impl Terminal {
    fn new(width: u16, height: u16) -> Self {
        Terminal {
            rows: vec![vec![Slot::Blank; usize::from(width)]; usize::from(height)],
            cursor: (0, 0),
            visible: true,
            shape: 0,
            style: String::new(),
            link: "left open".to_owned(),
            synced: false,
            texts: 0,
            shown_at: None,
        }
    }

    fn feed(&mut self, bytes: &[u8]) {
        let text = String::from_utf8(bytes.to_vec()).expect("valid text");
        let mut rest = text.as_str();
        while !rest.is_empty() {
            if let Some(after) = rest.strip_prefix("\x1b]8;;") {
                let end = after.find("\x1b\\").expect("a terminated hyperlink");
                self.link = after[..end].to_owned();
                rest = &after[end + 2..];
            } else if let Some(after) = rest.strip_prefix("\x1b[") {
                let end = after
                    .find(|ch: char| ch.is_ascii_alphabetic())
                    .expect("a final byte");
                self.control(&after[..end], &after[end..end + 1]);
                rest = &after[end + 1..];
            } else {
                let end = rest.find('\x1b').unwrap_or(rest.len());
                self.put(&rest[..end]);
                rest = &rest[end..];
            }
        }
    }

    fn control(&mut self, params: &str, last: &str) {
        match (params, last) {
            ("?25", "l") => {
                self.visible = false;
                self.shown_at = None;
            }
            ("?25", "h") => {
                self.visible = true;
                self.shown_at = Some(self.cursor);
            }
            ("?2026", "h") => self.synced = true,
            ("?2026", "l") => self.synced = false,
            ("2", "J") => {
                for row in &mut self.rows {
                    row.fill(Slot::Blank);
                }
            }
            ("", "H") => self.cursor = (0, 0),
            (_, "H") => {
                let (y, x) = params.split_once(';').expect("row and column");
                self.cursor = (x.parse::<usize>().unwrap() - 1, y.parse::<usize>().unwrap() - 1);
            }
            ("0", "m") => self.style.clear(),
            (_, "m") => self.style = params.to_owned(),
            (_, "q") => self.shape = params.trim_end().parse().unwrap(),
            _ => panic!("unexpected sequence {params:?} {last:?}"),
        }
    }

    fn put(&mut self, symbol: &str) {
        assert!(!self.visible, "text is written while the cursor is visible");
        assert!(self.synced, "text is written outside synchronized output");
        self.texts += 1;
        let width = UnicodeWidthStr::width(symbol);
        if width == 0 {
            return;
        }
        let (x, y) = self.cursor;
        let row = &mut self.rows[y];
        if row[x] == Slot::Tail {
            let mut left = x - 1;
            while row[left] == Slot::Tail {
                row[left] = Slot::Blank;
                left -= 1;
            }
            row[left] = Slot::Blank;
        }
        let mut right = x + width;
        while right < row.len() && row[right] == Slot::Tail {
            row[right] = Slot::Blank;
            right += 1;
        }
        row[x] = Slot::Glyph {
            symbol: symbol.to_owned(),
            style: self.style.clone(),
            link: self.link.clone(),
        };
        let end = row.len().min(x + width);
        for covered in &mut row[x + 1..end] {
            *covered = Slot::Tail;
        }
        self.cursor = (x + width, y);
    }

    fn assert_shows(&self, frame: &FrameData) {
        for y in 0..usize::from(frame.height) {
            let mut x = 0;
            while x < usize::from(frame.width) {
                let cell = &frame.cells[y * usize::from(frame.width) + x];
                let width = UnicodeWidthStr::width(cell.symbol.as_str());
                if !cell.skip && width > 0 {
                    let mut style = Vec::new();
                    build_sgr_into(&mut style, cell.fg, cell.bg, cell.modifier);
                    let style = String::from_utf8(style).unwrap();
                    let link = cell_hyperlink_uri(frame, cell)
                        .and_then(sanitized_hyperlink_uri)
                        .unwrap_or_default();
                    let expected = Slot::Glyph {
                        symbol: cell.symbol.clone(),
                        style: style[2..style.len() - 1].to_owned(),
                        link,
                    };
                    assert_eq!(self.rows[y][x], expected, "at column {x}, row {y}");
                    for covered in x + 1..usize::from(frame.width).min(x + width) {
                        assert_eq!(self.rows[y][covered], Slot::Tail, "column {covered}, row {y}");
                    }
                }
                x += width.max(1);
            }
        }
    }

    fn assert_settled(&self, cursor: HostCursorState) {
        let (x, y) = cursor.position;
        assert_eq!(self.cursor, (usize::from(x), usize::from(y)));
        assert_eq!(self.visible, cursor.visible);
        assert_eq!(self.shown_at, cursor.visible.then_some(self.cursor));
        assert_eq!(self.shape, cursor.shape);
        assert_eq!(self.link, "");
        assert_eq!(self.style, "");
        assert!(!self.synced);
    }
}

struct Dice(u64);

impl Dice {
    fn roll(&mut self, sides: u64) -> u64 {
        self.0 = self.0.wrapping_mul(6364136223846793005).wrapping_add(1442695040888963407);
        (self.0 >> 33) % sides
    }
}

fn any_cell(dice: &mut Dice, symbol: &str) -> CellData {
    CellData {
        symbol: symbol.to_owned(),
        fg: [0, 2, 0x0100_0007, 0x0201_0203][dice.roll(4) as usize],
        bg: dice.roll(3) as u32,
        modifier: dice.roll(2) as u16,
        skip: false,
        hyperlink: [None, Some(0), Some(1), Some(9)][dice.roll(4) as usize],
    }
}

/// A frame whose wide symbols are followed by a narrow cell in their row.
fn any_frame(dice: &mut Dice, width: u16, height: u16) -> FrameData {
    let mut cells = Vec::new();
    for _ in 0..height {
        let mut x = 0;
        while x < width {
            if x + 1 < width && dice.roll(3) == 0 {
                let wide = ["漢", "💡"][dice.roll(2) as usize];
                cells.push(any_cell(dice, wide));
                cells.push(any_cell(dice, " "));
                x += 2;
            } else {
                let narrow = ["a", "b", " "][dice.roll(3) as usize];
                cells.push(any_cell(dice, narrow));
                x += 1;
            }
        }
    }
    let cursor = match dice.roll(3) {
        0 => None,
        roll => Some(CursorState {
            x: dice.roll(9) as u16,
            y: dice.roll(5) as u16,
            visible: roll == 1,
            shape: dice.roll(9) as u8,
        }),
    };
    FrameData {
        cells,
        width,
        height,
        cursor,
        hyperlinks: vec!["https://one\x07".to_owned(), "two".to_owned()],
        graphics: Vec::new(),
    }
}

#[test]
fn diffs_show_the_same_as_full_redraws() {
    let mut dice = Dice(7);
    for _ in 0..200 {
        let mut terminal = Terminal::new(6, 3);
        let mut memory = None;
        let mut shape = 0;
        let mut prev: Option<FrameData> = None;
        for _ in 0..6 {
            let frame = any_frame(&mut dice, 6, 3);
            let mut bytes = Vec::new();
            let repeat = dice.roll(2) == 0;
            let suppress = dice.roll(2) == 0;
            blit_frame_to_with_cursor_memory_and_policy(
                &mut bytes,
                &frame,
                prev.as_ref(),
                &mut memory,
                &mut shape,
                repeat,
                suppress,
            );
            terminal.feed(&bytes);
            terminal.assert_shows(&frame);
            if suppress {
                assert!(!terminal.visible);
            }
            prev = Some(frame);
        }
    }
}

#[test]
fn committed_blits_keep_the_terminal_in_sync() {
    let mut dice = Dice(11);
    let mut terminal = Terminal::new(5, 2);
    let mut encoder = BlitEncoder::new();
    let mut memory = None;
    for round in 0..100 {
        let frame = any_frame(&mut dice, 5, 2);
        let encoded = encoder.encode(&frame, round % 7 == 0, round % 2 == 0);
        assert_eq!(encoded.full, round % 7 == 0);
        terminal.feed(&encoded.bytes);
        terminal.assert_shows(&frame);
        terminal.assert_settled(herdr_render::cursor::resolve_host_cursor_state(
            &frame,
            &mut memory,
        ));
        assert_eq!(encoded.next_last_visible_cursor, memory);
        encoder.commit(frame.clone(), encoded);
        assert!(encoder.is_current(&frame));
        assert_eq!(encoder.last_frame(), Some(&frame));
    }
}

#[test]
fn terminal_clients_show_what_they_are_sent() {
    let mut dice = Dice(19);
    let mut terminal = Terminal::new(6, 2);
    let mut client = ClientRenderState::new(RenderEncoding::TerminalAnsi);
    let mut sent = 0;
    for _ in 0..60 {
        let frame = any_frame(&mut dice, 6, 2);
        for _ in 0..2 {
            if let Some(prepared) = client.prepare_frame(frame.clone(), false) {
                sent += 1;
                match prepared.message() {
                    ServerMessage::Terminal(message) => {
                        assert_eq!(message.seq, sent);
                        terminal.feed(&message.bytes);
                    }
                    other => panic!("unexpected message {other:?}"),
                }
                client.commit_sent_frame(prepared);
            }
            terminal.assert_shows(&frame);
        }
    }
    assert_eq!(sent, 60);
}

#[test]
fn an_unchanged_frame_paints_nothing() {
    let mut dice = Dice(13);
    for _ in 0..50 {
        let frame = any_frame(&mut dice, 6, 3);
        let mut terminal = Terminal::new(6, 3);
        let mut first = Vec::new();
        blit_frame_to(&mut first, &frame, None, false);
        terminal.feed(&first);
        let painted = terminal.texts;
        assert!(painted > 0);
        let mut second = Vec::new();
        blit_frame_to(&mut second, &frame, Some(&frame), false);
        terminal.feed(&second);
        assert_eq!(terminal.texts, painted);
        terminal.assert_shows(&frame);
    }
}

#[test]
fn diff_statistics_count_what_is_painted() {
    let mut dice = Dice(17);
    for _ in 0..50 {
        let prev = any_frame(&mut dice, 6, 3);
        let frame = any_frame(&mut dice, 6, 3);
        let mut terminal = Terminal::new(6, 3);
        let mut first = Vec::new();
        blit_frame_to(&mut first, &prev, None, false);
        terminal.feed(&first);
        let before = terminal.texts;
        let mut second = Vec::new();
        blit_frame_to(&mut second, &frame, Some(&prev), false);
        terminal.feed(&second);
        let stats = compute_prof_blit_stats(&frame, Some(&prev), false);
        assert_eq!(stats.scanned_cells, 18);
        assert_eq!(stats.changed_cells, (terminal.texts - before) as u64);
        assert!(stats.changed_runs <= stats.changed_cells);
    }
}

fn row(symbols: &[&str]) -> FrameData {
    FrameData {
        cells: symbols
            .iter()
            .map(|symbol| CellData {
                symbol: (*symbol).to_owned(),
                fg: 0,
                bg: 0,
                modifier: 0,
                skip: false,
                hyperlink: None,
            })
            .collect(),
        width: symbols.len() as u16,
        height: 1,
        cursor: None,
        hyperlinks: Vec::new(),
        graphics: Vec::new(),
    }
}

#[test]
fn runs_of_changed_cells_are_counted() {
    let prev = row(&["a", "b", "c", "d", "e"]);
    let next = row(&["x", "y", "c", "z", "e"]);
    let stats = compute_prof_blit_stats(&next, Some(&prev), false);
    assert_eq!((stats.scanned_cells, stats.changed_cells, stats.changed_runs), (5, 3, 2));

    let mut whole = next.clone();
    whole.cells[1].skip = true;
    let stats = compute_prof_blit_stats(&whole, Some(&prev), true);
    assert_eq!((stats.scanned_cells, stats.changed_cells, stats.changed_runs), (5, 4, 4));
    let stats = compute_prof_blit_stats(&whole, None, false);
    assert_eq!((stats.scanned_cells, stats.changed_cells, stats.changed_runs), (5, 4, 4));
}

#[test]
fn cells_marked_skip_are_never_written() {
    let mut prev = row(&["a", "b", "c"]);
    prev.cells[1].skip = true;
    let mut bytes = Vec::new();
    blit_frame_to(&mut bytes, &prev, None, false);
    let text = String::from_utf8(bytes).unwrap();
    assert!(text.contains("\x1b[1;1H") && text.contains("\x1b[1;3H"));
    assert!(!text.contains("\x1b[1;2H"));

    let mut next = row(&["a", "x", "c"]);
    next.cells[1].skip = true;
    let mut bytes = Vec::new();
    blit_frame_to(&mut bytes, &next, Some(&prev), false);
    assert!(!String::from_utf8(bytes).unwrap().contains('x'));
}

#[test]
fn hyperlinks_change_the_look_of_a_cell() {
    let mut prev = row(&["a", "b"]);
    prev.cells[0].hyperlink = Some(0);
    prev.hyperlinks = vec!["one".to_owned()];
    let mut next = prev.clone();
    next.hyperlinks = vec!["two".to_owned()];
    let mut bytes = Vec::new();
    blit_frame_to(&mut bytes, &next, Some(&prev), false);
    let text = String::from_utf8(bytes).unwrap();
    assert!(text.contains("\x1b[1;1H\x1b[0;39;49m\x1b]8;;two\x1b\\a\x1b]8;;\x1b\\\x1b[0m"));

    // Another entry of the table that comes to the same target looks the same.
    let mut moved = prev.clone();
    moved.hyperlinks = vec!["zero".to_owned(), "o\x07ne".to_owned()];
    moved.cells[0].hyperlink = Some(1);
    let mut bytes = Vec::new();
    blit_frame_to(&mut bytes, &moved, Some(&prev), false);
    assert!(!String::from_utf8(bytes).unwrap().contains("\x1b[0;39;49m"));
}

#[test]
fn the_platform_decides_whether_the_anchor_is_repeated() {
    assert!(repeat_ime_anchor_after_sync(false));
    assert!(!repeat_ime_anchor_after_sync(true));
    let frame = row(&["a"]);
    for windows in [false, true] {
        let mut blit = Vec::new();
        blit_frame_to(&mut blit, &frame, None, windows);
        let mut expected = Vec::new();
        blit_frame_to_with_cursor_memory_and_policy(
            &mut expected,
            &frame,
            None,
            &mut None,
            &mut 0,
            !windows,
            false,
        );
        assert_eq!(blit, expected);
        assert_eq!(blit.ends_with(b"\x1b[?2026l"), windows);
        assert_eq!(BlitEncoder::new().encode(&frame, false, windows).bytes, expected);
        let mut client = ClientRenderState::new(RenderEncoding::TerminalAnsi);
        match client.prepare_frame(frame.clone(), windows).unwrap().message() {
            ServerMessage::Terminal(message) => assert_eq!(message.bytes, expected),
            other => panic!("unexpected message {other:?}"),
        }
    }
}

#[test]
fn an_unchanged_symbol_of_three_columns_is_left_alone() {
    for symbol in ["abc", "\u{17d8}"] {
        assert_eq!(UnicodeWidthStr::width(symbol), 3);
        let frame = row(&[symbol, " ", " "]);
        let mut bytes = Vec::new();
        write_changed_cells(&mut bytes, &frame, &frame);
        assert!(bytes.is_empty());
        let stats = compute_prof_blit_stats(&frame, Some(&frame), false);
        assert_eq!((stats.scanned_cells, stats.changed_cells, stats.changed_runs), (3, 0, 0));
    }
}

#[test]
fn a_full_redraw_shows_symbols_of_any_width() {
    for symbols in [
        ["abc", " ", " ", "x", "漢"],
        ["abcd", "漢", "x", "y", "z"],
        ["漢", "漢", "x", "abc", "y"],
    ] {
        let frame = row(&symbols);
        let mut bytes = Vec::new();
        blit_frame_to(&mut bytes, &frame, None, false);
        let mut terminal = Terminal::new(5, 1);
        terminal.feed(&bytes);
        terminal.assert_shows(&frame);
    }
}

#[test]
fn a_row_is_shown_whatever_the_other_rows_hold() {
    // The first row holds a wide symbol under another one; the second row is tidy.
    let two_rows = |last: &str, below: &[&str]| {
        let mut frame = row(&["漢", "漢", last]);
        frame.cells.extend(row(below).cells);
        frame.height = 2;
        frame
    };
    let prev = two_rows("y", &["abc", " ", " "]);
    let next = two_rows("x", &["a", "漢", " "]);
    let mut terminal = Terminal::new(3, 2);
    let mut bytes = Vec::new();
    blit_frame_to(&mut bytes, &prev, None, false);
    blit_frame_to(&mut bytes, &next, Some(&prev), false);
    terminal.feed(&bytes);
    terminal.rows.remove(0);
    terminal.assert_shows(&row(&["a", "漢", " "]));
}

#[test]
fn diffs_cover_and_uncover_symbols_of_three_columns() {
    let rows = [
        ["abc", " ", " ", "x", "y"],
        ["a", "abc", " ", " ", "y"],
        ["p", "q", "r", "s", "t"],
        ["p", "漢", " ", "abc", " "],
        ["abc", " ", " ", "漢", " "],
        ["x", " ", "abc", " ", " "],
    ];
    for first in &rows {
        for second in &rows {
            let (prev, next) = (row(first), row(second));
            let mut terminal = Terminal::new(5, 1);
            let mut bytes = Vec::new();
            blit_frame_to(&mut bytes, &prev, None, false);
            blit_frame_to(&mut bytes, &next, Some(&prev), false);
            terminal.feed(&bytes);
            terminal.assert_shows(&next);
        }
    }

    let mut bytes = Vec::new();
    let prev = row(&["a", "b", "c", "d"]);
    let next = row(&["abc", " ", " ", "d"]);
    write_changed_cells(&mut bytes, &next, &prev);
    assert_eq!(
        String::from_utf8(bytes).unwrap(),
        "\x1b[1;1H\x1b[0;39;49mabc\x1b[0m"
    );
}

#[test]
fn encoding_notes_nothing_unless_asked() {
    let encoder = BlitEncoder::default();
    let mut notes: Vec<ProfNote> = Vec::new();
    let quiet = encoder.encode_inner(&row(&["a"]), false, true, false, &mut notes);
    assert!(notes.is_empty());
    let noted = encoder.encode_inner(&row(&["a"]), false, true, true, &mut notes);
    assert_eq!(notes.len(), 5);
    assert_eq!(quiet.bytes, noted.bytes);
    assert_eq!(notes[0].value, noted.bytes.len() as u64);
}

#[test]
fn a_frame_without_cells_is_only_opened_and_closed() {
    let empty = row(&[]);
    let mut bytes = Vec::new();
    blit_frame_to_with_cursor_memory_and_policy(
        &mut bytes,
        &empty,
        None,
        &mut None,
        &mut 0,
        false,
        false,
    );
    assert_eq!(
        String::from_utf8(bytes).unwrap(),
        "\x1b[?25l\x1b[?2026h\x1b]8;;\x1b\\\x1b[2J\x1b[H\x1b[0m\x1b[1;1H\x1b[?25l\x1b[?2026l"
    );
}
