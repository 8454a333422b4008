//! Rendering of application frames for terminal clients.
//!
//! A frame is a grid of cells with a cursor, hyperlinks and graphics ([`protocol`]).
//! Clients receive it whole, as a diff against the frame they have, or as bytes that
//! make a terminal show it ([`render_stream`]).
//!
//! - [`protocol`]: frames, diffs and messages.
//! - [`decimal`], [`sgr`], [`hyperlink`], [`width`]: numerals, styles, link targets and
//!   column widths.
//! - [`ops`]: the instructions that a frame is painted with, and their bytes.
//! - [`cursor`]: where the host cursor goes at the end of a frame.
//! - [`render_ansi`]: which cells of a frame are painted, and the bytes that do it.
//! - [`encoder`]: the stateful encoder around it, and its statistics.
//! - [`screen`]: what the instructions do to a screen, and that a screen ends up
//!   showing the frames it is sent.
//! - [`terminal`]: what a terminal makes of the bytes, and that it displays what the
//!   frames hold.
//! - [`render_stream`]: what each client is sent, and what is remembered of it.
//! - [`app_view`], [`host_cursor`]: which cursor and which hyperlinks a frame carries.
//! - [`table`], [`render_prof`]: opt-in profiling.

pub mod app_view;
pub mod cursor;
pub mod decimal;
pub mod encoder;
pub mod host_cursor;
pub mod hyperlink;
pub mod ops;
pub mod protocol;
pub mod render_ansi;
pub mod render_prof;
pub mod render_stream;
pub mod screen;
pub mod sgr;
pub mod table;
pub mod terminal;
pub mod width;
