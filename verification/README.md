# herdr_render

Streams application frames to terminal clients, and proves with Verus that they arrive.

A frame is a grid of styled cells with a cursor, hyperlinks and graphics. Clients get
it in one of two encodings:

- *semantic*: the whole frame, or a diff of the rows that changed;
- *terminal*: bytes that make a terminal show the frame, written as a diff against the
  frame before where the size allows it.

## Layout

- `src/` is the library. Its functions have contracts, and Verus proves them. What
  relates several functions is stated as `law_...` proof functions next to them: a
  semantic client always ends up with the last frame, a terminal that shows one frame
  shows the next after its diff, text is written only while the cursor is hidden and
  synchronized output is active, graphics are presented together with their frame.
- `tests/` runs the library on concrete frames, among them streams of random frames on
  a simulated terminal.
- `app/` is ordinary Rust around the library: drawing through ratatui, the clock, the
  environment, the log and the writers that take the bytes.

## What is taken on trust

- `width::text_width` calls `unicode_width::UnicodeWidthStr::width`. Its result depends
  on the characters alone, and printable ASCII takes one column per character.
- `String::push` appends a character.

## Frames that the screen laws leave out

Every frame is shown by a full redraw, and a frame that is diffed against itself paints
nothing. The laws that a diff shows the new frame hold row by row, and leave out two
kinds of row, in which a diff can leave a cell stale that a full redraw would have
painted:

- rows in which a cell reaches further than its place allows: one under a wide symbol
  that reaches beyond that symbol, or one marked `skip` that is itself wide;
- rows with a cell that was marked `skip` and no longer is, and looks as it did before.

A symbol covers all the columns it takes up, in a diff as in a full redraw: the cells
under it are not written, whether they changed or not.
