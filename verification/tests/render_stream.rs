//! Tests of what clients are sent.

use herdr_render::protocol::{CellData, FrameData, FrameDiffData, RenderEncoding, ServerMessage};
use herdr_render::render_stream::ClientRenderState;

fn cell(sym: &str) -> CellData {
    CellData {
        symbol: sym.into(),
        fg: 0,
        bg: 0,
        modifier: 0,
        skip: false,
        hyperlink: None,
    }
}

fn frame(width: u16, height: u16, fill: &str) -> FrameData {
    FrameData {
        cells: vec![cell(fill); usize::from(width) * usize::from(height)],
        width,
        height,
        cursor: None,
        hyperlinks: Vec::new(),
        graphics: Vec::new(),
    }
}

/// Applies a message to what a simulated client has.
fn client_apply(baseline: &mut Option<FrameData>, msg: &ServerMessage) {
    match msg {
        ServerMessage::Frame(full) => *baseline = Some(full.clone()),
        ServerMessage::FrameDiff(diff) => {
            let base = baseline.as_mut().expect("diff requires a baseline");
            assert!(
                base.apply_diff(diff),
                "client must be able to apply the diff"
            );
        }
        other => panic!("unexpected message for a semantic client: {other:?}"),
    }
}

/// Runs one frame through the server and the simulated client, asserting they
/// stay in sync. Returns the wire message kind label for further assertions.
fn step(
    server: &mut ClientRenderState,
    client: &mut Option<FrameData>,
    new_frame: FrameData,
) -> &'static str {
    let expected = new_frame.clone();
    let Some(prepared) = server.prepare_frame(new_frame, false) else {
        return "skipped";
    };
    let message = prepared.message().clone();
    client_apply(client, &message);
    server.commit_sent_frame(prepared);
    assert_eq!(
        client.as_ref().expect("client baseline"),
        &expected,
        "client reconstruction must equal the server frame"
    );
    match message {
        ServerMessage::Frame(_) => "frame",
        ServerMessage::FrameDiff(_) => "diff",
        _ => "other",
    }
}

#[test]
fn first_frame_is_keyframe_then_changes_are_diffs_and_stay_in_sync() {
    let mut server = ClientRenderState::new(RenderEncoding::SemanticFrame);
    let mut client: Option<FrameData> = None;

    // First frame: no baseline yet -> full keyframe.
    let f0 = frame(4, 3, "a");
    assert_eq!(step(&mut server, &mut client, f0), "frame");

    // Change one cell: same dimensions -> diff, client stays in sync.
    let mut f1 = frame(4, 3, "a");
    f1.cells[5] = cell("X"); // row 1
    assert_eq!(step(&mut server, &mut client, f1), "diff");

    // Identical frame -> skipped (no message).
    let f1_again = {
        let mut f = frame(4, 3, "a");
        f.cells[5] = cell("X");
        f
    };
    assert_eq!(step(&mut server, &mut client, f1_again), "skipped");

    // Multiple subsequent diffs compose correctly.
    let mut f2 = frame(4, 3, "a");
    f2.cells[5] = cell("X");
    f2.cells[11] = cell("Y"); // row 2
    assert_eq!(step(&mut server, &mut client, f2), "diff");
}

#[test]
fn resize_sends_a_full_keyframe_not_a_diff() {
    let mut server = ClientRenderState::new(RenderEncoding::SemanticFrame);
    let mut client: Option<FrameData> = None;

    assert_eq!(step(&mut server, &mut client, frame(4, 3, "a")), "frame");
    // Different dimensions must not be diffed against the old baseline.
    assert_eq!(step(&mut server, &mut client, frame(6, 2, "b")), "frame");
    // Back to steady state, diffs resume at the new size.
    let mut changed = frame(6, 2, "b");
    changed.cells[0] = cell("Z");
    assert_eq!(step(&mut server, &mut client, changed), "diff");
}

#[test]
fn diff_only_carries_changed_rows() {
    let prev = frame(5, 4, "a");
    let mut next = frame(5, 4, "a");
    next.cells[12] = cell("X"); // row 2 only
    let diff = next.diff_from(&prev).expect("same dims");
    assert_eq!(diff.rows.len(), 1, "only one row changed");
    assert_eq!(diff.rows[0].0, 2, "changed row index is 2");

    let mut reconstructed = prev.clone();
    assert!(reconstructed.apply_diff(&diff));
    assert_eq!(reconstructed, next);
}

#[test]
fn apply_diff_rejects_dimension_mismatch() {
    let mut base = frame(4, 3, "a");
    let other = frame(5, 3, "a");
    let diff = other.diff_from(&base);
    // diff_from across mismatched dims yields None.
    assert!(frame(4, 3, "a").diff_from(&other).is_none());
    assert!(diff.is_none());

    // A hand-built mismatched diff is rejected, leaving base untouched.
    let bogus = FrameDiffData {
        width: 5,
        height: 3,
        cursor: None,
        rows: Vec::new(),
        hyperlinks: Vec::new(),
        graphics: Vec::new(),
    };
    assert!(!base.apply_diff(&bogus));
}
