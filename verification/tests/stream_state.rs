//! Tests of client state, graphics, sequence numbers and profile notes.

use herdr_render::protocol::{CellData, FrameData, RenderEncoding, ServerMessage, TerminalFrame};
use herdr_render::render_prof::ProfNote;
use herdr_render::render_stream::{
    insert_graphics_before_sync_end, rfind_subslice, ClientRenderState, PreparedRender,
};

fn one_cell(symbol: &str) -> CellData {
    CellData {
        symbol: symbol.to_owned(),
        fg: 0,
        bg: 0,
        modifier: 0,
        skip: false,
        hyperlink: None,
    }
}

fn filled(width: u16, height: u16, symbol: &str) -> FrameData {
    FrameData {
        cells: vec![one_cell(symbol); usize::from(width) * usize::from(height)],
        width,
        height,
        cursor: None,
        hyperlinks: Vec::new(),
        graphics: Vec::new(),
    }
}

fn terminal_frame(prepared: &PreparedRender) -> &TerminalFrame {
    match prepared.message() {
        ServerMessage::Terminal(frame) => frame,
        other => panic!("unexpected message {other:?}"),
    }
}

fn noted(notes: &[ProfNote]) -> Vec<(&'static str, u64)> {
    notes.iter().map(|note| (note.name, note.value)).collect()
}

#[test]
fn last_occurrence_is_found() {
    assert_eq!(rfind_subslice(b"abcabcab", b"abc"), Some(3));
    assert_eq!(rfind_subslice(b"aaaa", b"aa"), Some(2));
    assert_eq!(rfind_subslice(b"abc", b"abc"), Some(0));
    assert_eq!(rfind_subslice(b"abc", b"c"), Some(2));
    assert_eq!(rfind_subslice(b"abc", b"d"), None);
}

#[test]
fn empty_and_overlong_needles_are_not_found() {
    assert_eq!(rfind_subslice(b"abc", b""), None);
    assert_eq!(rfind_subslice(b"", b""), None);
    assert_eq!(rfind_subslice(b"ab", b"abc"), None);
}

#[test]
fn graphics_go_before_the_last_sync_end() {
    let mut bytes = b"x\x1b[?2026ly\x1b[?2026lz".to_vec();
    insert_graphics_before_sync_end(&mut bytes, b"GG");
    assert_eq!(bytes, b"x\x1b[?2026lyGG\x1b[?2026lz".to_vec());

    let mut untouched = b"x\x1b[?2026l".to_vec();
    insert_graphics_before_sync_end(&mut untouched, b"");
    assert_eq!(untouched, b"x\x1b[?2026l".to_vec());

    let mut unsynced = b"x\x1b[?2026h".to_vec();
    insert_graphics_before_sync_end(&mut unsynced, b"GG");
    assert_eq!(unsynced, b"x\x1b[?2026hGG".to_vec());
}

#[test]
fn graphics_of_a_frame_are_presented_with_its_cells() {
    for repeat in [true, false] {
        let mut plain = ClientRenderState::new(RenderEncoding::TerminalAnsi);
        let mut drawn = ClientRenderState::new(RenderEncoding::TerminalAnsi);
        let frame = filled(2, 1, "a");
        let mut with_graphics = frame.clone();
        with_graphics.graphics = b"<png>".to_vec();
        let mut notes = Vec::new();
        let without = plain.prepare_frame_inner(frame, repeat, false, &mut notes).unwrap();
        let with = drawn.prepare_frame_inner(with_graphics, repeat, false, &mut notes).unwrap();
        let without = String::from_utf8(terminal_frame(&without).bytes.clone()).unwrap();
        let with = String::from_utf8(terminal_frame(&with).bytes.clone()).unwrap();
        assert_eq!(with, without.replace("\x1b[?2026l", "<png>\x1b[?2026l"));
        assert_eq!(with.matches("<png>").count(), 1);
        assert_eq!(with.ends_with("\x1b[?2026l"), !repeat);
        assert!(notes.is_empty());
    }
}

#[test]
fn terminal_frames_are_numbered_by_commits() {
    let mut client = ClientRenderState::new(RenderEncoding::TerminalAnsi);
    assert_eq!(client.terminal_seq(), Some(0));

    let first = client.prepare_frame(filled(2, 1, "a"), false).unwrap();
    assert_eq!(terminal_frame(&first).seq, 1);
    assert!(terminal_frame(&first).full);
    assert_eq!((terminal_frame(&first).width, terminal_frame(&first).height), (2, 1));

    // Preparing again without a commit gives the same number and the same bytes.
    let again = client.prepare_frame(filled(2, 1, "a"), false).unwrap();
    assert_eq!(terminal_frame(&again).seq, 1);
    assert_eq!(terminal_frame(&again).bytes, terminal_frame(&first).bytes);

    client.commit_sent_frame(first);
    assert_eq!(client.terminal_seq(), Some(1));
    assert_eq!(client.last_frame(), Some(&filled(2, 1, "a")));
    assert!(client.prepare_frame(filled(2, 1, "a"), false).is_none());

    let second = client.prepare_frame(filled(2, 1, "b"), false).unwrap();
    assert_eq!(terminal_frame(&second).seq, 2);
    assert!(!terminal_frame(&second).full);
    client.commit_sent_frame(second);

    let resized = client.prepare_frame(filled(3, 1, "b"), false).unwrap();
    assert_eq!(terminal_frame(&resized).seq, 3);
    assert!(terminal_frame(&resized).full);
}

#[test]
fn resetting_the_baseline_sends_whole_frames_again() {
    let mut terminal = ClientRenderState::new(RenderEncoding::TerminalAnsi);
    let sent = terminal.prepare_frame(filled(2, 1, "a"), false).unwrap();
    terminal.commit_sent_frame(sent);
    terminal.reset_baseline();
    assert_eq!(terminal.last_frame(), None);
    assert_eq!(terminal.terminal_seq(), Some(1));
    let whole = terminal.prepare_frame(filled(2, 1, "a"), false).unwrap();
    assert!(terminal_frame(&whole).full);
    assert_eq!(terminal_frame(&whole).seq, 2);

    let mut semantic = ClientRenderState::new(RenderEncoding::SemanticFrame);
    let sent = semantic.prepare_frame(filled(2, 1, "a"), false).unwrap();
    semantic.commit_sent_frame(sent);
    semantic.reset_baseline();
    let whole = semantic.prepare_frame(filled(2, 1, "a"), false).unwrap();
    assert!(matches!(whole.message(), ServerMessage::Frame(_)));
}

#[test]
fn input_forces_one_frame_and_keeps_the_baseline() {
    let mut client = ClientRenderState::new(RenderEncoding::SemanticFrame);
    assert!(!client.semantic_force_send_pending());
    let sent = client.prepare_frame(filled(2, 2, "a"), false).unwrap();
    client.commit_sent_frame(sent);
    assert!(client.prepare_frame(filled(2, 2, "a"), false).is_none());

    client.reset_semantic_input_baseline();
    assert!(client.semantic_force_send_pending());
    assert_eq!(client.last_frame(), Some(&filled(2, 2, "a")));
    let forced = client.prepare_frame(filled(2, 2, "a"), false).unwrap();
    assert!(!client.semantic_force_send_pending());
    match forced.message() {
        ServerMessage::FrameDiff(diff) => assert!(diff.rows.is_empty()),
        other => panic!("unexpected message {other:?}"),
    }
    client.commit_sent_frame(forced);
    assert!(client.prepare_frame(filled(2, 2, "a"), false).is_none());
}

#[test]
fn a_skipped_preparation_uses_up_nothing_of_a_terminal_client() {
    let mut client = ClientRenderState::new(RenderEncoding::TerminalAnsi);
    client.reset_semantic_input_baseline();
    assert!(!client.semantic_force_send_pending());
    assert_eq!(client.terminal_seq(), Some(0));
    let semantic = ClientRenderState::new(RenderEncoding::SemanticFrame);
    assert_eq!(semantic.terminal_seq(), None);
}

#[test]
fn renders_of_the_other_encoding_are_not_committed() {
    let mut semantic = ClientRenderState::new(RenderEncoding::SemanticFrame);
    let mut terminal = ClientRenderState::new(RenderEncoding::TerminalAnsi);
    let for_semantic = semantic.prepare_frame(filled(1, 1, "a"), false).unwrap();
    let for_terminal = terminal.prepare_frame(filled(1, 1, "a"), false).unwrap();
    semantic.commit_sent_frame(for_terminal);
    terminal.commit_sent_frame(for_semantic);
    assert_eq!(semantic.last_frame(), None);
    assert_eq!(terminal.last_frame(), None);
    assert_eq!(terminal.terminal_seq(), Some(0));
}

#[test]
fn a_render_without_encoder_state_is_not_committed() {
    let mut terminal = ClientRenderState::new(RenderEncoding::TerminalAnsi);
    let prepared = terminal.prepare_frame(filled(1, 1, "a"), false).unwrap();
    let stripped = match prepared {
        PreparedRender::TerminalAnsi { message, frame, .. } => {
            PreparedRender::TerminalAnsi { message, frame, encoded: None }
        }
        other => other,
    };
    terminal.commit_sent_frame(stripped);
    assert_eq!(terminal.terminal_seq(), Some(0));
    assert_eq!(terminal.last_frame(), None);
}

#[test]
fn prepared_renders_hand_back_their_frame() {
    for encoding in [RenderEncoding::SemanticFrame, RenderEncoding::TerminalAnsi] {
        let mut client = ClientRenderState::new(encoding);
        let prepared = client.prepare_frame(filled(2, 2, "q"), false).unwrap();
        assert_eq!(prepared.into_frame(), Some(filled(2, 2, "q")));
    }
}

#[test]
fn semantic_preparation_notes_what_it_did() {
    let mut client = ClientRenderState::new(RenderEncoding::SemanticFrame);
    let mut notes = Vec::new();
    let sent = client
        .prepare_frame_inner(filled(2, 3, "a"), true, true, &mut notes)
        .unwrap();
    assert_eq!(
        noted(&notes),
        vec![("prepare_frame.semantic.changed", 1), ("prepare_frame.semantic.keyframe", 1)]
    );
    client.commit_sent_frame(sent);

    notes.clear();
    assert!(client
        .prepare_frame_inner(filled(2, 3, "a"), true, true, &mut notes)
        .is_none());
    assert_eq!(noted(&notes), vec![("prepare_frame.semantic.skip_current", 1)]);

    notes.clear();
    client.reset_semantic_input_baseline();
    assert!(client
        .prepare_frame_inner(filled(2, 3, "a"), true, true, &mut notes)
        .is_some());
    assert_eq!(noted(&notes), vec![("prepare_frame.semantic.force_send_unchanged", 1)]);

    notes.clear();
    let mut changed = filled(2, 3, "a");
    changed.cells[0] = one_cell("b");
    changed.cells[5] = one_cell("b");
    assert!(client.prepare_frame_inner(changed, true, true, &mut notes).is_some());
    assert_eq!(
        noted(&notes),
        vec![
            ("prepare_frame.semantic.changed", 1),
            ("prepare_frame.semantic.diff", 1),
            ("prepare_frame.semantic.diff_rows", 2),
        ]
    );
}

#[test]
fn terminal_preparation_notes_what_it_did() {
    let mut client = ClientRenderState::new(RenderEncoding::TerminalAnsi);
    let mut notes = Vec::new();
    let mut frame = filled(3, 1, "a");
    frame.graphics = vec![1, 2, 3];
    let sent = client.prepare_frame_inner(frame.clone(), false, true, &mut notes).unwrap();
    let encoded_len = (terminal_frame(&sent).bytes.len() - 3) as u64;
    assert_eq!(
        noted(&notes),
        vec![
            ("ansi_encode.bytes", encoded_len),
            ("ansi_encode.scanned_cells", 3),
            ("ansi_encode.changed_cells", 3),
            ("ansi_encode.changed_runs", 3),
            ("ansi_encode.full", 1),
            ("prepare_frame.ansi.changed", 1),
            ("prepare_frame.ansi.bytes", encoded_len),
            ("prepare_frame.ansi.full", 1),
            ("prepare_frame.graphics.bytes", 3),
        ]
    );
    client.commit_sent_frame(sent);

    notes.clear();
    assert!(client
        .prepare_frame_inner(frame.clone(), false, true, &mut notes)
        .is_none());
    assert_eq!(noted(&notes), vec![("prepare_frame.ansi.skip_current", 1)]);

    notes.clear();
    frame.graphics.clear();
    frame.cells[0] = one_cell("b");
    frame.cells[2] = one_cell("b");
    let sent = client.prepare_frame_inner(frame, false, true, &mut notes).unwrap();
    let encoded_len = terminal_frame(&sent).bytes.len() as u64;
    assert_eq!(
        noted(&notes),
        vec![
            ("ansi_encode.bytes", encoded_len),
            ("ansi_encode.scanned_cells", 3),
            ("ansi_encode.changed_cells", 2),
            ("ansi_encode.changed_runs", 2),
            ("ansi_encode.partial", 1),
            ("prepare_frame.ansi.changed", 1),
            ("prepare_frame.ansi.bytes", encoded_len),
            ("prepare_frame.ansi.partial", 1),
            ("prepare_frame.graphics.bytes", 0),
        ]
    );
}

#[test]
fn diffs_restore_the_newer_frame() {
    let prev = filled(3, 3, "a");
    let mut next = filled(3, 3, "a");
    next.cells[0] = one_cell("x");
    next.cells[8] = one_cell("y");
    next.hyperlinks = vec!["u".to_owned()];
    next.graphics = vec![7];
    let diff = next.diff_from(&prev).expect("one size");
    assert_eq!(diff.rows.iter().map(|row| row.0).collect::<Vec<_>>(), vec![0, 2]);
    let mut patched = prev.clone();
    assert!(patched.apply_diff(&diff));
    assert_eq!(patched, next);
    assert!(next.diff_from(&next).expect("one size").rows.is_empty());
}

#[test]
fn diffs_that_do_not_fit_change_nothing() {
    let base = filled(2, 2, "a");
    let good = filled(2, 2, "b").diff_from(&base).expect("one size");

    let mut short_row = good.clone();
    short_row.rows[1].1.pop();
    let mut low_row = good.clone();
    low_row.rows[1].0 = 2;
    let mut narrow = good.clone();
    narrow.width = 1;
    for bad in [&short_row, &low_row, &narrow] {
        let mut target = base.clone();
        assert!(!target.apply_diff(bad));
        assert_eq!(target, base);
    }

    let mut target = base.clone();
    assert!(target.apply_diff(&good));
    assert_eq!(target, filled(2, 2, "b"));
}
