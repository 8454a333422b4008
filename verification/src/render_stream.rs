//! Streaming of frames to clients: what each client is sent for a frame, and what is
//! remembered once it was sent.

use vstd::prelude::*;

use crate::cursor;
use crate::decimal;
use crate::encoder;
use crate::encoder::{BlitEncoder, EncodedBlit, EncodedView, EncoderView};
use crate::ops;
use crate::protocol;
use crate::protocol::{
    same_bytes, FrameData, FrameView, MessageView, RenderEncoding, ServerMessage, TerminalFrame,
    TerminalFrameView,
};
use crate::render_ansi;
use crate::render_ansi::repeat_ime_anchor_after_sync;
use crate::render_prof;
use crate::render_prof::{note, ProfNote};

verus! {

// ---------------------------------------------------------------------------
// Graphics
// ---------------------------------------------------------------------------

/// `needle` stands at index `i` of `haystack`.
pub open spec fn occurs_at(haystack: Seq<u8>, needle: Seq<u8>, i: int) -> bool {
    &&& 0 <= i <= haystack.len() - needle.len()
    &&& haystack.subrange(i, i + needle.len()) == needle
}

/// `i` is the last index at which `needle` stands.
pub open spec fn occurs_last_at(haystack: Seq<u8>, needle: Seq<u8>, i: int) -> bool {
    &&& occurs_at(haystack, needle, i)
    &&& forall|j: int| #[trigger] occurs_at(haystack, needle, j) ==> j <= i
}

/// The last index at which a non-empty `needle` stands, if it does anywhere.
pub open spec fn last_occurrence(haystack: Seq<u8>, needle: Seq<u8>) -> Option<int> {
    if needle.len() > 0 && exists|i: int| #[trigger] occurs_at(haystack, needle, i) {
        Some(choose|i: int| occurs_last_at(haystack, needle, i))
    } else {
        None
    }
}

/// Finds the last occurrence of `needle`. An empty needle is not found.
pub fn rfind_subslice(haystack: &[u8], needle: &[u8]) -> (res: Option<usize>)
    ensures
        (match res {
            Some(i) => Some(i as int),
            None => None,
        }) == last_occurrence(haystack@, needle@),
        res matches Some(i) ==> occurs_last_at(haystack@, needle@, i as int),
        res is None ==> needle@.len() == 0 || forall|j: int|
            !#[trigger] occurs_at(haystack@, needle@, j),
{
    if needle.len() == 0 || needle.len() > haystack.len() {
        return None;
    }
    let len: usize = haystack.len();
    let mut end: usize = len - needle.len() + 1;
    while end > 0
        invariant
            len == haystack@.len(),
            0 < needle@.len() <= haystack@.len(),
            end <= haystack@.len() - needle@.len() + 1,
            forall|j: int| j >= end ==> !#[trigger] occurs_at(haystack@, needle@, j),
        decreases end,
    {
        let start: usize = end - 1;
        let window = vstd::slice::slice_subrange(haystack, start, start + needle.len());
        if same_bytes(window, needle) {
            assert(occurs_last_at(haystack@, needle@, start as int));
            return Some(start);
        }
        assert(!occurs_at(haystack@, needle@, start as int));
        end = start;
    }
    None
}

/// The bytes that end synchronized output.
pub open spec fn sync_output_end() -> Seq<u8> {
    ops::op_bytes(ops::Op::EndSync)
}

/// The bytes of a frame with graphics put in right before the last end of synchronized
/// output, or at the end if there is none.
pub open spec fn with_graphics(encoded: Seq<u8>, graphics: Seq<u8>) -> Seq<u8> {
    if graphics.len() == 0 {
        encoded
    } else {
        match last_occurrence(encoded, sync_output_end()) {
            Some(i) => encoded.take(i) + graphics + encoded.skip(i),
            None => encoded + graphics,
        }
    }
}

/// Puts graphics in right before the last end of synchronized output, so that they
/// are presented together with the cells.
pub fn insert_graphics_before_sync_end(encoded: &mut Vec<u8>, graphics: &[u8])
    ensures
        final(encoded)@ == with_graphics(old(encoded)@, graphics@),
{
    if graphics.len() == 0 {
        return;
    }
    match rfind_subslice(encoded.as_slice(), "\x1b[?2026l".as_bytes()) {
        Some(sync_end) => {
            let mut rest = encoded.split_off(sync_end);
            encoded.extend_from_slice(graphics);
            encoded.append(&mut rest);
            assert(encoded@ =~= with_graphics(old(encoded)@, graphics@));
        },
        None => {
            encoded.extend_from_slice(graphics);
            assert(encoded@ =~= with_graphics(old(encoded)@, graphics@));
        },
    }
}

// ---------------------------------------------------------------------------
// Prepared messages
// ---------------------------------------------------------------------------

/// A message for a client, with what is remembered once it was sent.
#[derive(Debug)]
pub enum PreparedRender {
    Semantic {
        /// A whole frame or a diff.
        message: ServerMessage,
        /// The whole frame, which becomes the next baseline.
        frame: FrameData,
    },
    TerminalAnsi { message: ServerMessage, frame: FrameData, encoded: Option<EncodedBlit> },
}

/// The value of a [`PreparedRender`].
#[verifier::ext_equal]
pub enum PreparedView {
    Semantic { message: MessageView, frame: FrameView },
    TerminalAnsi { message: MessageView, frame: FrameView, encoded: Option<EncodedView> },
}

impl View for PreparedRender {
    type V = PreparedView;

    open spec fn view(&self) -> PreparedView {
        match self {
            PreparedRender::Semantic { message, frame } => PreparedView::Semantic {
                message: message@,
                frame: frame@,
            },
            PreparedRender::TerminalAnsi { message, frame, encoded } => PreparedView::TerminalAnsi {
                message: message@,
                frame: frame@,
                encoded: match encoded {
                    Some(blit) => Some(blit@),
                    None => None,
                },
            },
        }
    }
}

/// The message of a prepared render.
pub open spec fn message_of(prepared: PreparedView) -> MessageView {
    match prepared {
        PreparedView::Semantic { message, .. } => message,
        PreparedView::TerminalAnsi { message, .. } => message,
    }
}

/// The frame of a prepared render.
pub open spec fn frame_of(prepared: PreparedView) -> FrameView {
    match prepared {
        PreparedView::Semantic { frame, .. } => frame,
        PreparedView::TerminalAnsi { frame, .. } => frame,
    }
}

impl PreparedRender {
    /// What is sent to the client.
    pub fn message(&self) -> (res: &ServerMessage)
        ensures
            res@ == message_of(self@),
    {
        match self {
            PreparedRender::Semantic { message, .. } => message,
            PreparedRender::TerminalAnsi { message, .. } => message,
        }
    }

    /// The whole frame.
    pub fn into_frame(self) -> (res: Option<FrameData>)
        ensures
            res matches Some(frame) && frame@ == frame_of(self@),
    {
        match self {
            PreparedRender::Semantic { frame, .. } => Some(frame),
            PreparedRender::TerminalAnsi { frame, .. } => Some(frame),
        }
    }
}

// ---------------------------------------------------------------------------
// Client state
// ---------------------------------------------------------------------------

/// What is known of a client, by the encoding that was agreed with it.
#[derive(Debug)]
pub enum ClientRenderState {
    /// Frames are compared whole, and one that equals the last is not sent, unless
    /// `force_send` is set. The baseline is kept then.
    Semantic { last_frame: Option<FrameData>, force_send: bool },
    /// Frames are diffed into terminal bytes and counted.
    TerminalAnsi { blit_encoder: BlitEncoder, seq: u64 },
}

/// The value of a [`ClientRenderState`].
#[verifier::ext_equal]
pub enum StateView {
    Semantic { last_frame: Option<FrameView>, force_send: bool },
    TerminalAnsi { encoder: EncoderView, seq: u64 },
}

impl View for ClientRenderState {
    type V = StateView;

    open spec fn view(&self) -> StateView {
        match self {
            ClientRenderState::Semantic { last_frame, force_send } => StateView::Semantic {
                last_frame: match last_frame {
                    Some(frame) => Some(frame@),
                    None => None,
                },
                force_send: *force_send,
            },
            ClientRenderState::TerminalAnsi { blit_encoder, seq } => StateView::TerminalAnsi {
                encoder: blit_encoder@,
                seq: *seq,
            },
        }
    }
}

/// The state of a client that was sent nothing.
pub open spec fn fresh_state(encoding: RenderEncoding) -> StateView {
    match encoding {
        RenderEncoding::SemanticFrame => StateView::Semantic {
            last_frame: None,
            force_send: false,
        },
        RenderEncoding::TerminalAnsi => StateView::TerminalAnsi {
            encoder: encoder::fresh_encoder(),
            seq: 0,
        },
    }
}

/// The frame that a client was last sent.
pub open spec fn baseline(state: StateView) -> Option<FrameView> {
    match state {
        StateView::Semantic { last_frame, .. } => last_frame,
        StateView::TerminalAnsi { encoder, .. } => encoder.last_frame,
    }
}

/// The state without a baseline.
pub open spec fn without_baseline(state: StateView) -> StateView {
    match state {
        StateView::Semantic { force_send, .. } => StateView::Semantic {
            last_frame: None,
            force_send,
        },
        StateView::TerminalAnsi { seq, .. } => StateView::TerminalAnsi {
            encoder: encoder::fresh_encoder(),
            seq,
        },
    }
}

/// The state of a semantic client that must be sent the next frame.
pub open spec fn forced(state: StateView) -> StateView {
    match state {
        StateView::Semantic { last_frame, .. } => StateView::Semantic {
            last_frame,
            force_send: true,
        },
        StateView::TerminalAnsi { .. } => state,
    }
}

/// A semantic client must be sent the next frame.
pub open spec fn force_pending(state: StateView) -> bool {
    state matches StateView::Semantic { force_send: true, .. }
}

/// How many frames a client was sent, if it is one of terminal bytes.
pub open spec fn frames_sent(state: StateView) -> Option<u64> {
    match state {
        StateView::Semantic { .. } => None,
        StateView::TerminalAnsi { seq, .. } => Some(seq),
    }
}

/// What a semantic client is sent: nothing for the frame that it has, unless forced; a
/// diff for a frame of the same size; else the whole frame.
pub open spec fn semantic_message(
    last_frame: Option<FrameView>,
    force_send: bool,
    frame: FrameView,
) -> Option<MessageView> {
    match last_frame {
        Some(prev) => if prev == frame && !force_send {
            None
        } else if prev.same_size(frame) {
            Some(MessageView::FrameDiff(protocol::frame_diff(frame, prev).unwrap()))
        } else {
            Some(MessageView::Frame(frame))
        },
        None => Some(MessageView::Frame(frame)),
    }
}

/// What is prepared for a client, under a given anchor policy.
pub open spec fn prepared(state: StateView, frame: FrameView, repeat_ime_anchor: bool) -> Option<
    PreparedView,
> {
    match state {
        StateView::Semantic { last_frame, force_send } => match semantic_message(
            last_frame,
            force_send,
            frame,
        ) {
            Some(message) => Some(PreparedView::Semantic { message, frame }),
            None => None,
        },
        StateView::TerminalAnsi { encoder, seq } => if encoder.last_frame == Some(frame) {
            None
        } else {
            let blit = encoder::encoded(encoder, frame, false, repeat_ime_anchor);
            Some(
                PreparedView::TerminalAnsi {
                    message: MessageView::Terminal(
                        TerminalFrameView {
                            seq: (seq + 1) as u64,
                            width: frame.width,
                            height: frame.height,
                            full: blit.full,
                            bytes: with_graphics(blit.bytes, frame.graphics),
                        },
                    ),
                    frame,
                    encoded: Some(EncodedView { bytes: Seq::empty(), ..blit }),
                },
            )
        },
    }
}

/// The state once a frame was prepared: a pending force is used up.
pub open spec fn after_prepare(state: StateView) -> StateView {
    match state {
        StateView::Semantic { last_frame, .. } => StateView::Semantic {
            last_frame,
            force_send: false,
        },
        StateView::TerminalAnsi { .. } => state,
    }
}

/// The state once a prepared render was sent. One of the other encoding, or one
/// without its encoder state, changes nothing.
pub open spec fn after_commit(state: StateView, sent: PreparedView) -> StateView {
    match (state, sent) {
        (
            StateView::Semantic { force_send, .. },
            PreparedView::Semantic { frame, .. },
        ) => StateView::Semantic { last_frame: Some(frame), force_send },
        (
            StateView::TerminalAnsi { seq, .. },
            PreparedView::TerminalAnsi { frame, encoded: Some(blit), .. },
        ) => StateView::TerminalAnsi {
            encoder: encoder::committed(frame, blit),
            seq: (seq + 1) as u64,
        },
        _ => state,
    }
}

/// A frame can be prepared: the cells that are read exist, and the frame can be
/// counted.
pub open spec fn ready(state: StateView, frame: FrameView) -> bool {
    match state {
        StateView::Semantic { .. } => true,
        StateView::TerminalAnsi { encoder, seq } => encoder.last_frame == Some(frame) || (
        render_ansi::blit_ready(frame, encoder.last_frame) && seq < u64::MAX),
    }
}

/// What the profile counts of a frame that is prepared.
pub open spec fn prepare_notes(
    state: StateView,
    frame: FrameView,
    repeat_ime_anchor: bool,
) -> Seq<(Seq<char>, u64)> {
    match state {
        StateView::Semantic { last_frame, force_send } => match last_frame {
            Some(prev) => if prev == frame {
                seq![
                    (
                        if force_send {
                            "prepare_frame.semantic.force_send_unchanged"@
                        } else {
                            "prepare_frame.semantic.skip_current"@
                        },
                        1,
                    ),
                ]
            } else if prev.same_size(frame) {
                seq![
                    ("prepare_frame.semantic.changed"@, 1),
                    ("prepare_frame.semantic.diff"@, 1),
                    (
                        "prepare_frame.semantic.diff_rows"@,
                        protocol::frame_diff(frame, prev).unwrap().rows.len() as u64,
                    ),
                ]
            } else {
                seq![
                    ("prepare_frame.semantic.changed"@, 1),
                    ("prepare_frame.semantic.keyframe"@, 1),
                ]
            },
            None => seq![
                ("prepare_frame.semantic.changed"@, 1),
                ("prepare_frame.semantic.keyframe"@, 1),
            ],
        },
        StateView::TerminalAnsi { encoder, .. } => if encoder.last_frame == Some(frame) {
            seq![("prepare_frame.ansi.skip_current"@, 1)]
        } else {
            let blit = encoder::encoded(encoder, frame, false, repeat_ime_anchor);
            encoder::encode_notes(
                encoder::blit_stats(frame, encoder.last_frame, blit.full),
                blit,
            ) + seq![
                ("prepare_frame.ansi.changed"@, 1),
                ("prepare_frame.ansi.bytes"@, blit.bytes.len() as u64),
                (
                    if blit.full {
                        "prepare_frame.ansi.full"@
                    } else {
                        "prepare_frame.ansi.partial"@
                    },
                    1,
                ),
                ("prepare_frame.graphics.bytes"@, frame.graphics.len() as u64),
            ]
        },
    }
}

/// The value of an optional prepared render.
pub open spec fn prepared_option(prepared: Option<PreparedRender>) -> Option<PreparedView> {
    match prepared {
        Some(p) => Some(p@),
        None => None,
    }
}

impl ClientRenderState {
    pub fn new(render_encoding: RenderEncoding) -> (res: Self)
        ensures
            res@ == fresh_state(render_encoding),
    {
        match render_encoding {
            RenderEncoding::SemanticFrame => ClientRenderState::Semantic {
                last_frame: None,
                force_send: false,
            },
            RenderEncoding::TerminalAnsi => ClientRenderState::TerminalAnsi {
                blit_encoder: BlitEncoder::new(),
                seq: 0,
            },
        }
    }

    /// Forgets the baseline, so that the next frame is sent whole.
    pub fn reset_baseline(&mut self)
        ensures
            final(self)@ == without_baseline(old(self)@),
    {
        match self {
            ClientRenderState::Semantic { last_frame, .. } => {
                *last_frame = None;
            },
            ClientRenderState::TerminalAnsi { blit_encoder, .. } => {
                *blit_encoder = BlitEncoder::new();
            },
        }
    }

    /// Sees to it that a semantic client is sent the next frame even if that equals
    /// the baseline. The baseline is kept.
    pub fn reset_semantic_input_baseline(&mut self)
        ensures
            final(self)@ == forced(old(self)@),
    {
        match self {
            ClientRenderState::Semantic { force_send, .. } => {
                *force_send = true;
            },
            ClientRenderState::TerminalAnsi { .. } => {},
        }
    }

    /// Whether a semantic client must be sent the next frame.
    pub fn semantic_force_send_pending(&self) -> (res: bool)
        ensures
            res == force_pending(self@),
    {
        match self {
            ClientRenderState::Semantic { force_send, .. } => *force_send,
            ClientRenderState::TerminalAnsi { .. } => false,
        }
    }

    /// The frame that the client was last sent.
    pub fn last_frame(&self) -> (res: Option<&FrameData>)
        ensures
            protocol::frame_option(res) == baseline(self@),
    {
        match self {
            ClientRenderState::Semantic { last_frame, .. } => last_frame.as_ref(),
            ClientRenderState::TerminalAnsi { blit_encoder, .. } => blit_encoder.last_frame(),
        }
    }

    /// How many frames a terminal client was sent.
    pub fn terminal_seq(&self) -> (res: Option<u64>)
        ensures
            res == (match self@ {
                StateView::Semantic { .. } => None,
                StateView::TerminalAnsi { seq, .. } => Some(seq),
            }),
            res == frames_sent(self@),
    {
        match self {
            ClientRenderState::Semantic { .. } => None,
            ClientRenderState::TerminalAnsi { seq, .. } => Some(*seq),
        }
    }

    /// Prepares a frame for the client under the anchor policy of the platform; `None`
    /// if there is nothing to send.
    pub fn prepare_frame(&mut self, frame: FrameData, windows: bool) -> (res: Option<
        PreparedRender,
    >)
        requires
            ready(old(self)@, frame@),
        ensures
            final(self)@ == after_prepare(old(self)@),
            prepared_option(res) == prepared(old(self)@, frame@, !windows),
            prepared_option(res) == prepared(
                old(self)@,
                frame@,
                render_ansi::repeats_anchor(windows),
            ),
    {
        let mut unread: Vec<ProfNote> = Vec::new();
        let repeat = repeat_ime_anchor_after_sync(windows);
        self.prepare_frame_inner(frame, repeat, false, &mut unread)
    }

    /// Prepares a frame for the client under a given anchor policy; `None` if there is
    /// nothing to send. With `profile`, appends to `notes` what the profile counts of
    /// it.
    pub fn prepare_frame_inner(
        &mut self,
        frame: FrameData,
        repeat_ime_anchor: bool,
        profile: bool,
        notes: &mut Vec<ProfNote>,
    ) -> (res: Option<PreparedRender>)
        requires
            ready(old(self)@, frame@),
        ensures
            final(self)@ == after_prepare(old(self)@),
            prepared_option(res) == prepared(old(self)@, frame@, repeat_ime_anchor),
            !profile ==> final(notes)@ == old(notes)@,
            profile ==> render_prof::note_views(final(notes)@) == render_prof::note_views(
                old(notes)@,
            ) + prepare_notes(old(self)@, frame@, repeat_ime_anchor),
    {
        match self {
            ClientRenderState::Semantic { last_frame, force_send } => {
                let force = *force_send;
                *force_send = false;
                prepare_semantic(last_frame.as_ref(), force, frame, profile, notes)
            },
            ClientRenderState::TerminalAnsi { blit_encoder, seq } => {
                prepare_terminal(blit_encoder, *seq, frame, repeat_ime_anchor, profile, notes)
            },
        }
    }

    /// Records that a prepared render was sent. The baseline is the whole frame,
    /// whether it was sent whole or as a diff.
    pub fn commit_sent_frame(&mut self, prepared: PreparedRender)
        requires
            prepared@ matches PreparedView::TerminalAnsi { encoded: Some(_), .. } ==> (
            old(self)@ matches StateView::TerminalAnsi { seq, .. } ==> seq < u64::MAX),
        ensures
            final(self)@ == after_commit(old(self)@, prepared@),
    {
        match self {
            ClientRenderState::Semantic { last_frame, .. } => {
                if let PreparedRender::Semantic { frame, .. } = prepared {
                    *last_frame = Some(frame);
                }
            },
            ClientRenderState::TerminalAnsi { blit_encoder, seq } => {
                if let PreparedRender::TerminalAnsi { frame, encoded: Some(encoded), .. } = prepared {
                    blit_encoder.commit(frame, encoded);
                    *seq = *seq + 1;
                }
            },
        }
    }
}

/// Prepares a frame for a semantic client.
fn prepare_semantic(
    last_frame: Option<&FrameData>,
    force: bool,
    frame: FrameData,
    profile: bool,
    notes: &mut Vec<ProfNote>,
) -> (res: Option<PreparedRender>)
    ensures
        prepared_option(res) == prepared(
            StateView::Semantic {
                last_frame: protocol::frame_option(last_frame),
                force_send: force,
            },
            frame@,
            false,
        ),
        !profile ==> final(notes)@ == old(notes)@,
        profile ==> render_prof::note_views(final(notes)@) == render_prof::note_views(old(notes)@)
            + prepare_notes(
            StateView::Semantic {
                last_frame: protocol::frame_option(last_frame),
                force_send: force,
            },
            frame@,
            false,
        ),
{
    let ghost before = render_prof::note_views(notes@);
    let message = match last_frame {
        Some(prev) if *prev == frame => {
            if force {
                if profile {
                    note(notes, "prepare_frame.semantic.force_send_unchanged", 1);
                }
                ServerMessage::FrameDiff(frame.diff_from(prev).unwrap())
            } else {
                if profile {
                    note(notes, "prepare_frame.semantic.skip_current", 1);
                    assert(render_prof::note_views(notes@) =~= before + seq![
                        ("prepare_frame.semantic.skip_current"@, 1u64),
                    ]);
                }
                return None;
            }
        },
        Some(prev) if prev.width == frame.width && prev.height == frame.height => {
            let diff = frame.diff_from(prev).unwrap();
            if profile {
                note(notes, "prepare_frame.semantic.changed", 1);
                note(notes, "prepare_frame.semantic.diff", 1);
                note(notes, "prepare_frame.semantic.diff_rows", diff.rows.len() as u64);
            }
            ServerMessage::FrameDiff(diff)
        },
        _ => {
            if profile {
                note(notes, "prepare_frame.semantic.changed", 1);
                note(notes, "prepare_frame.semantic.keyframe", 1);
            }
            ServerMessage::Frame(frame.clone())
        },
    };
    assert(profile ==> render_prof::note_views(notes@) =~= before + prepare_notes(
        StateView::Semantic {
            last_frame: protocol::frame_option(last_frame),
            force_send: force,
        },
        frame@,
        false,
    ));
    Some(PreparedRender::Semantic { message, frame })
}

/// Prepares a frame for a terminal client.
fn prepare_terminal(
    blit_encoder: &BlitEncoder,
    seq: u64,
    frame: FrameData,
    repeat_ime_anchor: bool,
    profile: bool,
    notes: &mut Vec<ProfNote>,
) -> (res: Option<PreparedRender>)
    requires
        ready(StateView::TerminalAnsi { encoder: blit_encoder@, seq }, frame@),
    ensures
        prepared_option(res) == prepared(
            StateView::TerminalAnsi { encoder: blit_encoder@, seq },
            frame@,
            repeat_ime_anchor,
        ),
        !profile ==> final(notes)@ == old(notes)@,
        profile ==> render_prof::note_views(final(notes)@) == render_prof::note_views(old(notes)@)
            + prepare_notes(
            StateView::TerminalAnsi { encoder: blit_encoder@, seq },
            frame@,
            repeat_ime_anchor,
        ),
{
    let ghost before = render_prof::note_views(notes@);
    let ghost state = StateView::TerminalAnsi { encoder: blit_encoder@, seq };
    if blit_encoder.is_current(&frame) {
        if profile {
            note(notes, "prepare_frame.ansi.skip_current", 1);
            assert(render_prof::note_views(notes@) =~= before + prepare_notes(
                state,
                frame@,
                repeat_ime_anchor,
            ));
        }
        return None;
    }
    let blit = blit_encoder.encode_inner(&frame, false, repeat_ime_anchor, profile, notes);
    let EncodedBlit { mut bytes, full, next_last_visible_cursor, next_last_cursor_shape } = blit;
    if profile {
        note(notes, "prepare_frame.ansi.changed", 1);
        note(notes, "prepare_frame.ansi.bytes", bytes.len() as u64);
        if full {
            note(notes, "prepare_frame.ansi.full", 1);
        } else {
            note(notes, "prepare_frame.ansi.partial", 1);
        }
    }
    insert_graphics_before_sync_end(&mut bytes, frame.graphics.as_slice());
    if profile {
        note(notes, "prepare_frame.graphics.bytes", frame.graphics.len() as u64);
        assert(render_prof::note_views(notes@) =~= before + prepare_notes(
            state,
            frame@,
            repeat_ime_anchor,
        ));
    }
    let message = ServerMessage::Terminal(
        TerminalFrame { seq: seq + 1, width: frame.width, height: frame.height, full, bytes },
    );
    // The bytes went into the message; the rest is what committing needs.
    let encoded = EncodedBlit {
        bytes: Vec::new(),
        full,
        next_last_visible_cursor,
        next_last_cursor_shape,
    };
    let res = Some(PreparedRender::TerminalAnsi { message, frame, encoded: Some(encoded) });
    assert(prepared_option(res) =~= prepared(state, frame@, repeat_ime_anchor));
    res
}

// ---------------------------------------------------------------------------
// Laws
// ---------------------------------------------------------------------------

/// What a client's frame is once it received a message. A diff that does not fit the
/// frame it has leaves the client without one.
pub open spec fn received(client: Option<FrameView>, message: MessageView) -> Option<FrameView> {
    match message {
        MessageView::Frame(frame) => Some(frame),
        MessageView::FrameDiff(diff) => match client {
            Some(base) => if protocol::diff_fits(base, diff) {
                Some(protocol::patched(base, diff))
            } else {
                None
            },
            None => None,
        },
        MessageView::Terminal(_) => client,
    }
}

/// A semantic client that has the baseline has the new frame after each step: either
/// it received a message that makes it so and the baseline moves along, or there was
/// nothing to send because it had the frame already.
pub proof fn law_semantic_client_stays_in_sync(
    last_frame: Option<FrameView>,
    force_send: bool,
    frame: FrameView,
    repeat: bool,
)
    requires
        frame.is_grid(),
        last_frame matches Some(prev) ==> prev.is_grid(),
    ensures
        ({
            let state = StateView::Semantic { last_frame, force_send };
            match prepared(state, frame, repeat) {
                Some(sent) => {
                    &&& received(last_frame, message_of(sent)) == Some(frame)
                    &&& after_commit(after_prepare(state), sent) == (StateView::Semantic {
                        last_frame: Some(frame),
                        force_send: false,
                    })
                },
                None => last_frame == Some(frame),
            }
        }),
{
    if let Some(prev) = last_frame {
        if prev.same_size(frame) {
            protocol::law_diff_restores_frame(frame, prev);
        }
    }
}

/// A semantic client's state here and its frame there, after a stream of frames was
/// prepared, sent and committed one after the other. Nothing was sent before.
pub open spec fn semantic_stream(frames: Seq<FrameView>) -> (StateView, Option<FrameView>)
    decreases frames.len(),
{
    if frames.len() == 0 {
        (fresh_state(RenderEncoding::SemanticFrame), None)
    } else {
        let (state, client) = semantic_stream(frames.drop_last());
        match prepared(state, frames.last(), false) {
            Some(sent) => (
                after_commit(after_prepare(state), sent),
                received(client, message_of(sent)),
            ),
            None => (after_prepare(state), client),
        }
    }
}

/// However many frames are streamed, the client ends up with the last one.
pub proof fn law_semantic_stream_delivers_last_frame(frames: Seq<FrameView>)
    requires
        forall|i: int| 0 <= i < frames.len() ==> (#[trigger] frames[i]).is_grid(),
    ensures
        semantic_stream(frames).1 == if frames.len() == 0 {
            None
        } else {
            Some(frames.last())
        },
        semantic_stream(frames).0 == (StateView::Semantic {
            last_frame: semantic_stream(frames).1,
            force_send: false,
        }),
    decreases frames.len(),
{
    if frames.len() > 0 {
        let before = frames.drop_last();
        assert forall|i: int| 0 <= i < before.len() implies (#[trigger] before[i]).is_grid() by {
            assert(before[i] == frames[i]);
        }
        law_semantic_stream_delivers_last_frame(before);
        assert(frames.last() == frames[frames.len() - 1]);
        if before.len() > 0 {
            assert(before.last() == frames[frames.len() - 2]);
        }
        let client = semantic_stream(before).1;
        law_semantic_client_stays_in_sync(client, false, frames.last(), false);
    }
}

/// A frame is left out exactly if the client was last sent that very frame and no
/// frame is forced.
pub proof fn law_only_current_frames_are_skipped(state: StateView, frame: FrameView, repeat: bool)
    ensures
        prepared(state, frame, repeat) is None <==> baseline(state) == Some(frame)
            && !force_pending(state),
{
}

/// After a reset on input the next frame is sent to a semantic client, the baseline is
/// kept, and the force is used up by that frame. If nothing changed, the message is a
/// diff without rows.
pub proof fn law_forced_frame_is_sent_once(
    last_frame: Option<FrameView>,
    force_send: bool,
    frame: FrameView,
    repeat: bool,
)
    ensures
        ({
            let state = forced(StateView::Semantic { last_frame, force_send });
            let sent = prepared(state, frame, repeat);
            &&& force_pending(state)
            &&& baseline(state) == last_frame
            &&& sent is Some
            &&& !force_pending(after_prepare(state))
            &&& !force_pending(after_commit(after_prepare(state), sent.unwrap()))
            &&& last_frame == Some(frame) ==> (message_of(sent.unwrap()) matches
                MessageView::FrameDiff(diff) && diff.rows.len() == 0)
        }),
{
    protocol::law_diff_of_equal_frames_is_empty(frame);
}

/// Without a baseline, and after a change of size, a client is sent the whole frame.
pub proof fn law_whole_frame_without_fitting_baseline(
    state: StateView,
    frame: FrameView,
    repeat: bool,
)
    requires
        render_ansi::full_redraw(frame, baseline(state)),
    ensures
        prepared(state, frame, repeat) matches Some(sent) && (match message_of(sent) {
            MessageView::Frame(whole) => state is Semantic && whole == frame,
            MessageView::Terminal(terminal) => state is TerminalAnsi && terminal.full,
            MessageView::FrameDiff(_) => false,
        }),
{
}

/// Forgetting the baseline has the next frame sent whole, whatever was sent before.
pub proof fn law_reset_sends_whole_frame(state: StateView, frame: FrameView, repeat: bool)
    ensures
        prepared(without_baseline(state), frame, repeat) matches Some(sent) && !(message_of(sent)
            is FrameDiff) && (message_of(sent) matches MessageView::Terminal(terminal)
            ==> terminal.full),
{
    law_whole_frame_without_fitting_baseline(without_baseline(state), frame, repeat);
}

/// Each frame of a terminal client carries the number that follows the last one that
/// was committed. Committing it counts it and makes it the baseline of the encoder;
/// preparing alone changes nothing.
pub proof fn law_terminal_frames_are_counted(
    encoder: EncoderView,
    seq: u64,
    frame: FrameView,
    repeat: bool,
)
    requires
        seq < u64::MAX,
        encoder.last_frame != Some(frame),
    ensures
        ({
            let state = StateView::TerminalAnsi { encoder, seq };
            let sent = prepared(state, frame, repeat);
            &&& after_prepare(state) == state
            &&& sent matches Some(sent) && {
                &&& message_of(sent) matches MessageView::Terminal(terminal) && terminal.seq == seq
                    + 1
                &&& after_commit(state, sent) == (StateView::TerminalAnsi {
                    encoder: encoder::committed(
                        frame,
                        encoder::encoded(encoder, frame, false, repeat),
                    ),
                    seq: (seq + 1) as u64,
                })
            }
        }),
{
}

/// A render that was prepared for the other encoding changes nothing.
pub proof fn law_foreign_render_is_not_committed(state: StateView, sent: PreparedView)
    requires
        state is Semantic <==> sent is TerminalAnsi,
    ensures
        after_commit(state, sent) == state,
{
}

/// The end of synchronized output starts with an escape, and no other byte of it is
/// one.
proof fn lemma_sync_output_end()
    ensures
        ({
            let end = sync_output_end();
            &&& end.len() == 8
            &&& end[0] == 0x1b
            &&& end[2] == 0x3f
            &&& forall|k: int| 1 <= k < 8 ==> #[trigger] end[k] != 0x1b
        }),
{
    reveal_strlit("\x1b[?2026l");
    vstd::utf8::is_ascii_chars_encode_utf8("\x1b[?2026l"@);
    assert(sync_output_end() =~= seq![0x1bu8, 0x5b, 0x3f, 0x32, 0x30, 0x32, 0x36, 0x6c]);
}

/// A cursor move starts with an escape and a digit follows the bracket; no other byte
/// of it is an escape.
proof fn lemma_move_bytes(x: int, y: int)
    requires
        0 <= x,
        0 <= y,
    ensures
        ({
            let bytes = ops::move_bytes(x, y);
            &&& bytes.len() >= 3
            &&& bytes[2] != 0x3f
            &&& forall|k: int| 1 <= k < bytes.len() ==> #[trigger] bytes[k] != 0x1b
        }),
{
    reveal_strlit("\x1b[");
    vstd::utf8::is_ascii_chars_encode_utf8("\x1b["@);
    assert(ops::utf8("\x1b["@) =~= seq![0x1bu8, 0x5b]);
    decimal::law_decimal_denotes_number((x + 1) as nat);
    decimal::law_decimal_denotes_number((y + 1) as nat);
    let bytes = ops::move_bytes(x, y);
    let row = decimal::decimal((y + 1) as nat);
    let col = decimal::decimal((x + 1) as nat);
    assert(bytes[2] == row[0]);
    assert forall|k: int| 1 <= k < bytes.len() implies #[trigger] bytes[k] != 0x1b by {
        if k == 1 {
        } else if k < 2 + row.len() {
            assert(bytes[k] == row[k - 2]);
        } else if k == 2 + row.len() {
        } else if k < 3 + row.len() + col.len() {
            assert(bytes[k] == col[k - 3 - row.len()]);
        }
    }
}

/// The bytes that show or hide the cursor are fewer than those that end synchronized
/// output.
proof fn lemma_visibility_bytes(visible: bool)
    ensures
        ops::op_bytes(cursor::visibility_op(visible)).len() == 6,
{
    reveal_strlit("\x1b[?25h");
    reveal_strlit("\x1b[?25l");
    vstd::utf8::is_ascii_chars_encode_utf8("\x1b[?25h"@);
    vstd::utf8::is_ascii_chars_encode_utf8("\x1b[?25l"@);
}

/// No second end of synchronized output starts at `j`, in or after the given one, if
/// only a cursor move and too few bytes to hold one come after it.
proof fn lemma_no_later_sync_end(
    head: Seq<u8>,
    end: Seq<u8>,
    moved: Seq<u8>,
    seen: Seq<u8>,
    j: int,
)
    requires
        end.len() == 8,
        end[0] == 0x1b,
        end[2] == 0x3f,
        forall|k: int| 1 <= k < 8 ==> #[trigger] end[k] != 0x1b,
        moved.len() >= 3,
        moved[2] != 0x3f,
        forall|k: int| 1 <= k < moved.len() ==> #[trigger] moved[k] != 0x1b,
        seen.len() == 6,
        head.len() < j,
    ensures
        !occurs_at(head + end + (moved + seen), end, j),
{
    let all = head + end + (moved + seen);
    if occurs_at(all, end, j) {
        let k = j - head.len() - 8;
        assert(all[j] == all.subrange(j, j + 8)[0]);
        assert(all[j + 2] == all.subrange(j, j + 8)[2]);
        if k < 0 {
            assert(all[j] == end[k + 8]);
        } else {
            assert(all[j] == moved[k]);
            assert(k == 0);
            assert(all[j + 2] == moved[2]);
        }
    }
}

/// The bytes of the anchor.
proof fn lemma_anchor_bytes(cursor: cursor::HostCursorState)
    ensures
        ops::ops_bytes(cursor::anchor_ops(cursor)) == ops::move_bytes(
            cursor.position.0 as int,
            cursor.position.1 as int,
        ) + ops::op_bytes(cursor::visibility_op(cursor.visible)),
{
    let move_op = ops::Op::MoveTo { x: cursor.position.0, y: cursor.position.1 };
    let see_op = cursor::visibility_op(cursor.visible);
    ops::lemma_ops_bytes_one(move_op);
    ops::lemma_ops_bytes_one(see_op);
    ops::lemma_ops_bytes_add(seq![move_op], seq![see_op]);
    assert(cursor::anchor_ops(cursor) =~= seq![move_op] + seq![see_op]);
}

/// The bytes that repeat the cursor anchor hold no end of synchronized output, nor
/// does one start in the end of synchronized output before them and reach into them.
proof fn lemma_anchor_holds_no_sync_end(head: Seq<u8>, cursor: cursor::HostCursorState)
    ensures
        occurs_last_at(
            head + sync_output_end() + ops::ops_bytes(cursor::anchor_ops(cursor)),
            sync_output_end(),
            head.len() as int,
        ),
{
    let end = sync_output_end();
    let anchor = ops::ops_bytes(cursor::anchor_ops(cursor));
    let moved = ops::move_bytes(cursor.position.0 as int, cursor.position.1 as int);
    let seen = ops::op_bytes(cursor::visibility_op(cursor.visible));
    lemma_anchor_bytes(cursor);
    lemma_sync_output_end();
    lemma_move_bytes(cursor.position.0 as int, cursor.position.1 as int);
    lemma_visibility_bytes(cursor.visible);
    let all = head + end + anchor;
    assert(all.subrange(head.len() as int, head.len() as int + 8) =~= end);
    assert forall|j: int| #[trigger] occurs_at(all, end, j) implies j <= head.len() by {
        if head.len() < j {
            lemma_no_later_sync_end(head, end, moved, seen, j);
        }
    }
}

/// Graphics go right before the end of synchronized output of their own frame, so that
/// they are presented together with its cells, also where the cursor anchor is
/// repeated after that.
pub proof fn law_graphics_precede_sync_end(
    frame: FrameView,
    prev: Option<FrameView>,
    last_visible: Option<(u16, u16)>,
    last_shape: u8,
    repeat: bool,
    suppress: bool,
    graphics: Seq<u8>,
)
    ensures
        with_graphics(
            ops::ops_bytes(
                render_ansi::blit_ops(frame, prev, last_visible, last_shape, repeat, suppress),
            ),
            graphics,
        ) == ops::ops_bytes(
            render_ansi::synced_ops(frame, prev, last_visible, last_shape, suppress),
        ) + graphics + sync_output_end() + (if repeat {
            ops::ops_bytes(
                cursor::anchor_ops(render_ansi::final_cursor(frame, last_visible, suppress)),
            )
        } else {
            Seq::empty()
        }),
{
    let cursor = render_ansi::final_cursor(frame, last_visible, suppress);
    let synced = render_ansi::synced_ops(frame, prev, last_visible, last_shape, suppress);
    let all = render_ansi::blit_ops(frame, prev, last_visible, last_shape, repeat, suppress);
    let anchor_ops = if repeat {
        cursor::anchor_ops(cursor)
    } else {
        Seq::empty()
    };
    let head = ops::ops_bytes(synced);
    let end = sync_output_end();
    let anchor = ops::ops_bytes(anchor_ops);
    lemma_blit_bytes(synced, anchor_ops);
    assert(all == synced + seq![ops::Op::EndSync] + anchor_ops);
    if repeat {
        lemma_anchor_holds_no_sync_end(head, cursor);
    } else {
        assert(anchor =~= Seq::empty());
        lemma_sync_end_is_last(head);
    }
    lemma_graphics_before(head, anchor, graphics);
}

/// The bytes of a frame: up to the end of synchronized output, that end, and the rest.
proof fn lemma_blit_bytes(synced: Seq<ops::Op>, rest: Seq<ops::Op>)
    ensures
        ops::ops_bytes(synced + seq![ops::Op::EndSync] + rest) == ops::ops_bytes(synced)
            + sync_output_end() + ops::ops_bytes(rest),
{
    ops::lemma_ops_bytes_add(synced + seq![ops::Op::EndSync], rest);
    ops::lemma_ops_bytes_add(synced, seq![ops::Op::EndSync]);
    ops::lemma_ops_bytes_one(ops::Op::EndSync);
}

/// Where nothing follows the end of synchronized output, it is the last one.
proof fn lemma_sync_end_is_last(head: Seq<u8>)
    ensures
        occurs_last_at(
            head + sync_output_end() + Seq::<u8>::empty(),
            sync_output_end(),
            head.len() as int,
        ),
{
    let end = sync_output_end();
    let all = head + end + Seq::<u8>::empty();
    assert(all.subrange(head.len() as int, (head.len() + end.len()) as int) =~= end);
}

/// Graphics go where the last end of synchronized output starts.
proof fn lemma_graphics_before(head: Seq<u8>, rest: Seq<u8>, graphics: Seq<u8>)
    requires
        occurs_last_at(
            head + sync_output_end() + rest,
            sync_output_end(),
            head.len() as int,
        ),
    ensures
        with_graphics(head + sync_output_end() + rest, graphics) == head + graphics
            + sync_output_end() + rest,
{
    let end = sync_output_end();
    let bytes = head + end + rest;
    lemma_sync_output_end();
    let at = choose|i: int| occurs_last_at(bytes, end, i);
    assert(occurs_at(bytes, end, head.len() as int));
    assert(at == head.len());
    assert(bytes.take(at) =~= head);
    assert(bytes.skip(at) =~= end + rest);
    assert(with_graphics(bytes, graphics) =~= head + graphics + end + rest);
}

/// The bytes `ESC [ ? 2 0 2 6 l`.
pub open spec fn present_now() -> Seq<u8> {
    seq![0x1b, 0x5b, 0x3f, 0x32, 0x30, 0x32, 0x36, 0x6c]
}

/// Graphics are put in whole, and every byte that was there stays, in its order. They go
/// right before the last end of synchronized output, or at the end without one. Without
/// graphics nothing changes.
pub proof fn law_graphics_are_put_in_whole(encoded: Seq<u8>, graphics: Seq<u8>, i: int)
    ensures
        with_graphics(encoded, Seq::empty()) == encoded,
        with_graphics(encoded, graphics).len() == encoded.len() + graphics.len(),
        occurs_last_at(encoded, present_now(), i) ==> with_graphics(encoded, graphics)
            == encoded.take(i) + graphics + encoded.skip(i),
        (forall|j: int| !occurs_at(encoded, present_now(), j)) ==> with_graphics(encoded, graphics)
            == encoded + graphics,
{
    lemma_sync_output_end();
    reveal_strlit("\x1b[?2026l");
    vstd::utf8::is_ascii_chars_encode_utf8("\x1b[?2026l"@);
    assert(sync_output_end() =~= present_now());
    assert(encoded + Seq::<u8>::empty() =~= encoded);
    if occurs_last_at(encoded, present_now(), i) {
        let at = choose|k: int| occurs_last_at(encoded, present_now(), k);
        assert(occurs_at(encoded, present_now(), i));
        assert(at == i);
        if graphics.len() == 0 {
            assert(encoded.take(i) + graphics + encoded.skip(i) =~= encoded);
        }
    }
    if graphics.len() == 0 {
        assert(encoded + graphics =~= encoded);
    } else if exists|k: int| #[trigger] occurs_at(encoded, present_now(), k) {
        lemma_last_exists(encoded, present_now());
    }
}

/// Where something occurs it occurs somewhere for the last time.
proof fn lemma_last_exists(haystack: Seq<u8>, needle: Seq<u8>)
    requires
        exists|i: int| #[trigger] occurs_at(haystack, needle, i),
    ensures
        exists|i: int| occurs_last_at(haystack, needle, i),
{
    let i = choose|i: int| #[trigger] occurs_at(haystack, needle, i);
    lemma_last_from(haystack, needle, i);
}

proof fn lemma_last_from(haystack: Seq<u8>, needle: Seq<u8>, i: int)
    requires
        occurs_at(haystack, needle, i),
    ensures
        exists|k: int| occurs_last_at(haystack, needle, k),
    decreases haystack.len() - i,
{
    if forall|j: int| #[trigger] occurs_at(haystack, needle, j) ==> j <= i {
        assert(occurs_last_at(haystack, needle, i));
    } else {
        let j = choose|j: int| #[trigger] occurs_at(haystack, needle, j) && j > i;
        lemma_last_from(haystack, needle, j);
    }
}

/// Before anything was sent a client has no baseline, nothing is forced, and no frame was
/// counted. The encoding decides the kind of client.
pub proof fn law_fresh_client_was_sent_nothing(encoding: RenderEncoding)
    ensures
        baseline(fresh_state(encoding)) is None,
        !force_pending(fresh_state(encoding)),
        fresh_state(encoding) is Semantic <==> encoding is SemanticFrame,
        fresh_state(encoding) matches StateView::TerminalAnsi { encoder, seq } ==> seq == 0
            && encoder.last_visible_cursor is None && encoder.last_cursor_shape == 0,
{
}

/// Forgetting the baseline keeps what was counted and what is forced, and what a
/// terminal was told of its cursor is forgotten too.
pub proof fn law_reset_keeps_count_and_force(state: StateView)
    ensures
        baseline(without_baseline(state)) is None,
        force_pending(without_baseline(state)) == force_pending(state),
        state matches StateView::TerminalAnsi { seq, .. } ==> (without_baseline(state) matches
            StateView::TerminalAnsi { encoder, seq: kept } && kept == seq
            && encoder.last_visible_cursor is None && encoder.last_cursor_shape == 0),
        state is Semantic ==> without_baseline(state) is Semantic,
{
}

/// Forcing the next frame keeps the baseline of a client, and does nothing to a client of
/// terminal bytes.
pub proof fn law_force_keeps_baseline(state: StateView)
    ensures
        baseline(forced(state)) == baseline(state),
        state is Semantic ==> force_pending(forced(state)) && forced(state) is Semantic,
        state is TerminalAnsi ==> forced(state) == state,
{
}

/// Preparing a frame uses up the force and changes nothing else.
pub proof fn law_preparing_uses_up_force(state: StateView)
    ensures
        !force_pending(after_prepare(state)),
        baseline(after_prepare(state)) == baseline(state),
        !force_pending(state) ==> after_prepare(state) == state,
{
}

/// What is prepared for a client is of its kind and carries the frame. Once it is sent
/// and committed the frame is the baseline, and the same frame is not sent again.
pub proof fn law_prepared_render_carries_frame(state: StateView, frame: FrameView, repeat: bool)
    ensures
        prepared(state, frame, repeat) matches Some(sent) ==> {
            let next = after_commit(after_prepare(state), sent);
            &&& frame_of(sent) == frame
            &&& sent is Semantic <==> state is Semantic
            &&& baseline(next) == Some(frame)
            &&& prepared(next, frame, repeat) is None
        },
{
}

/// A semantic client is sent the whole frame if it has none of that size. If it has one,
/// it is sent the rows in which that differs, with the cursor, the targets and the
/// graphics of the new frame.
pub proof fn law_semantic_message_fits_client(
    last_frame: Option<FrameView>,
    force_send: bool,
    frame: FrameView,
)
    ensures
        (last_frame matches Some(prev) ==> prev.width != frame.width || prev.height
            != frame.height) ==> semantic_message(last_frame, force_send, frame) == Some(
            MessageView::Frame(frame),
        ),
        last_frame matches Some(prev) ==> (prev.width == frame.width && prev.height
            == frame.height && (prev != frame || force_send) ==> (semantic_message(
            last_frame,
            force_send,
            frame,
        ) matches Some(MessageView::FrameDiff(diff)) && diff.width == frame.width && diff.height
            == frame.height && diff.cursor == frame.cursor && diff.hyperlinks == frame.hyperlinks
            && diff.graphics == frame.graphics && Some(diff) == protocol::frame_diff(
            frame,
            prev,
        ))),
        last_frame == Some(frame) && !force_send ==> semantic_message(
            last_frame,
            force_send,
            frame,
        ) is None,
{
    if let Some(prev) = last_frame {
        protocol::law_diff_carries_newer_frame(frame, prev);
    }
}

/// A message to a terminal has the size of the frame, says whether the screen is cleared,
/// and holds the bytes of the frame and its graphics. What is kept to commit holds no
/// bytes.
pub proof fn law_terminal_message_has_frame_size(
    encoder: EncoderView,
    seq: u64,
    frame: FrameView,
    repeat: bool,
)
    requires
        encoder.last_frame != Some(frame),
    ensures
        prepared(StateView::TerminalAnsi { encoder, seq }, frame, repeat) matches Some(
            PreparedView::TerminalAnsi { message: MessageView::Terminal(terminal), encoded, .. },
        ) && {
            let bytes = ops::ops_bytes(
                render_ansi::blit_ops(
                    frame,
                    encoder.last_frame,
                    encoder.last_visible_cursor,
                    encoder.last_cursor_shape,
                    repeat,
                    false,
                ),
            );
            &&& terminal.width == frame.width && terminal.height == frame.height
            &&& terminal.full <==> (encoder.last_frame matches Some(last) ==> last.width
                != frame.width || last.height != frame.height)
            &&& frame.graphics.len() == 0 ==> terminal.bytes == bytes
            &&& terminal.bytes.len() == bytes.len() + frame.graphics.len()
            &&& encoded matches Some(blit) && blit.bytes.len() == 0 && blit.full == terminal.full
        },
{
    let bytes = ops::ops_bytes(
        render_ansi::blit_ops(
            frame,
            encoder.last_frame,
            encoder.last_visible_cursor,
            encoder.last_cursor_shape,
            repeat,
            false,
        ),
    );
    law_graphics_are_put_in_whole(bytes, frame.graphics, 0);
}

/// What is counted tells what is sent to a semantic client: nothing, the rows of a diff
/// with their number, or a whole frame.
pub proof fn law_semantic_notes_tell_message(
    last_frame: Option<FrameView>,
    force_send: bool,
    frame: FrameView,
    repeat: bool,
)
    ensures
        ({
            let notes = prepare_notes(
                StateView::Semantic { last_frame, force_send },
                frame,
                repeat,
            );
            match semantic_message(last_frame, force_send, frame) {
                None => notes == seq![("prepare_frame.semantic.skip_current"@, 1u64)],
                Some(MessageView::FrameDiff(diff)) => if last_frame == Some(frame) {
                    notes == seq![("prepare_frame.semantic.force_send_unchanged"@, 1u64)]
                } else {
                    &&& notes.len() == 3
                    &&& notes[0] == ("prepare_frame.semantic.changed"@, 1u64)
                    &&& notes[1] == ("prepare_frame.semantic.diff"@, 1u64)
                    &&& notes[2].0 == "prepare_frame.semantic.diff_rows"@
                    &&& diff.rows.len() <= u64::MAX ==> notes[2].1 == diff.rows.len()
                },
                _ => {
                    &&& notes.len() == 2
                    &&& notes[0] == ("prepare_frame.semantic.changed"@, 1u64)
                    &&& notes[1] == ("prepare_frame.semantic.keyframe"@, 1u64)
                },
            }
        }),
{
}

/// What is counted tells what is sent to a terminal: nothing, or how many bytes, of how
/// many cells, whether the screen is cleared, and how many bytes of graphics.
pub proof fn law_terminal_notes_tell_message(
    encoder: EncoderView,
    seq: u64,
    frame: FrameView,
    repeat: bool,
)
    ensures
        ({
            let state = StateView::TerminalAnsi { encoder, seq };
            let notes = prepare_notes(state, frame, repeat);
            match prepared(state, frame, repeat) {
                None => notes == seq![("prepare_frame.ansi.skip_current"@, 1u64)],
                Some(sent) => {
                    &&& message_of(sent) matches MessageView::Terminal(terminal)
                    &&& notes.len() == 9
                    &&& notes[0].0 == "ansi_encode.bytes"@
                    &&& notes[1].0 == "ansi_encode.scanned_cells"@
                    &&& notes[2].0 == "ansi_encode.changed_cells"@
                    &&& notes[3].0 == "ansi_encode.changed_runs"@
                    &&& notes[4].1 == 1 && notes[5] == ("prepare_frame.ansi.changed"@, 1u64)
                    &&& notes[6].0 == "prepare_frame.ansi.bytes"@ && notes[6].1 == notes[0].1
                    &&& notes[7].1 == 1
                    &&& notes[8].0 == "prepare_frame.graphics.bytes"@
                    &&& terminal.full ==> notes[4].0 == "ansi_encode.full"@ && notes[7].0
                        == "prepare_frame.ansi.full"@
                    &&& !terminal.full ==> notes[4].0 == "ansi_encode.partial"@ && notes[7].0
                        == "prepare_frame.ansi.partial"@
                    &&& terminal.bytes.len() <= u64::MAX ==> notes[0].1 + notes[8].1
                        == terminal.bytes.len()
                    &&& frame.graphics.len() <= u64::MAX ==> notes[8].1 == frame.graphics.len()
                },
            }
        }),
{
    let bytes = ops::ops_bytes(
        render_ansi::blit_ops(
            frame,
            encoder.last_frame,
            encoder.last_visible_cursor,
            encoder.last_cursor_shape,
            repeat,
            false,
        ),
    );
    law_graphics_are_put_in_whole(bytes, frame.graphics, 0);
}

/// A string of bytes occurs exactly where each of its bytes does, and its last occurrence
/// is the one after which there is none. An empty string is not looked for.
pub proof fn law_occurrence_is_byte_by_byte(haystack: Seq<u8>, needle: Seq<u8>, i: int)
    ensures
        occurs_at(haystack, needle, i) <==> 0 <= i && i + needle.len() <= haystack.len()
            && forall|k: int| 0 <= k < needle.len() ==> haystack[i + k] == #[trigger] needle[k],
        last_occurrence(haystack, needle) is None <==> needle.len() == 0 || forall|j: int|
            !occurs_at(haystack, needle, j),
        last_occurrence(haystack, needle) == Some(i) <==> needle.len() > 0 && occurs_at(
            haystack,
            needle,
            i,
        ) && forall|j: int| j > i ==> !occurs_at(haystack, needle, j),
{
    if 0 <= i <= haystack.len() - needle.len() {
        let part = haystack.subrange(i, i + needle.len());
        if part == needle {
            assert forall|k: int| 0 <= k < needle.len() implies haystack[i + k]
                == #[trigger] needle[k] by {
                assert(part[k] == haystack[i + k]);
            }
        }
        if forall|k: int| 0 <= k < needle.len() ==> haystack[i + k] == #[trigger] needle[k] {
            assert(part =~= needle);
        }
    }
    if exists|j: int| #[trigger] occurs_at(haystack, needle, j) {
        lemma_last_exists(haystack, needle);
        let at = choose|j: int| occurs_last_at(haystack, needle, j);
        if occurs_at(haystack, needle, i) && forall|j: int|
            j > i ==> !occurs_at(haystack, needle, j) {
            assert(occurs_at(haystack, needle, at));
            assert(at == i);
        }
    }
}

/// A frame can be prepared for any semantic client. For a terminal it has to have a cell
/// for every position, and so has the baseline of its size, and it has to be countable,
/// unless there is nothing to send.
pub proof fn law_ready_frames_have_all_cells(state: StateView, frame: FrameView)
    ensures
        state is Semantic ==> ready(state, frame),
        state matches StateView::TerminalAnsi { encoder, seq } ==> (ready(state, frame) <==> {
            ||| encoder.last_frame == Some(frame)
            ||| {
                &&& frame.width * frame.height <= frame.cells.len()
                &&& encoder.last_frame matches Some(last) ==> (last.width == frame.width
                    && last.height == frame.height ==> last.width * last.height
                    <= last.cells.len())
                &&& seq < u64::MAX
            }
        }),
{
    if let StateView::TerminalAnsi { encoder, seq } = state {
        render_ansi::law_frame_with_all_cells_is_ready(frame, encoder.last_frame);
    }
}

/// Committing a semantic render makes its frame the baseline and leaves the force as it
/// is. Committing a terminal render without what it was encoded to changes nothing.
pub proof fn law_commit_moves_baseline_only(state: StateView, sent: PreparedView)
    ensures
        force_pending(after_commit(state, sent)) == force_pending(state),
        sent is Semantic && state is Semantic ==> baseline(after_commit(state, sent)) == Some(
            frame_of(sent),
        ) && after_commit(state, sent) is Semantic,
        sent matches PreparedView::TerminalAnsi { encoded: None, .. } ==> after_commit(state, sent)
            == state,
        sent matches PreparedView::TerminalAnsi { frame, encoded: Some(blit), .. } ==> (
        state matches StateView::TerminalAnsi { seq, .. } ==> (after_commit(state, sent) matches
            StateView::TerminalAnsi { encoder, seq: next } && encoder.last_frame == Some(frame)
            && encoder.last_visible_cursor == blit.next_last_visible_cursor
            && encoder.last_cursor_shape == blit.next_last_cursor_shape && (seq < u64::MAX ==> next
            == seq + 1))),
{
}

/// The frames of a terminal client are counted from 0, one for each that is prepared,
/// sent and committed, whatever else happens to it. A message carries the number of its
/// frame. The frames of a semantic client are not counted.
pub proof fn law_each_committed_frame_counts_once(state: StateView, frame: FrameView, repeat: bool)
    requires
        frames_sent(state) matches Some(n) ==> n < u64::MAX,
    ensures
        frames_sent(fresh_state(RenderEncoding::TerminalAnsi)) == Some(0u64),
        state is Semantic <==> frames_sent(state) is None,
        frames_sent(without_baseline(state)) == frames_sent(state),
        frames_sent(forced(state)) == frames_sent(state),
        frames_sent(after_prepare(state)) == frames_sent(state),
        frames_sent(state) matches Some(n) ==> (prepared(state, frame, repeat) matches Some(sent)
            ==> frames_sent(after_commit(state, sent)) == Some((n + 1) as u64) && (message_of(sent)
            matches MessageView::Terminal(terminal) && terminal.seq == n + 1)),
{
}

} // verus!
