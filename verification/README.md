# video_editor

The model and the decisions of a small video editor, verified with Verus.

- `src/` is the library. Timeline (tracks of clips, durations), undoable
  timeline commands, projects, export settings and the bit-rate setting
  parser, frame compositing (which clips show at a time, pixel blending),
  export planning, media-probe summaries, decoder time-stamp arithmetic and
  seeking, the MCP server (JSON-RPC requests in, response text out) and the
  editor window's state transitions. `src/binary64.rs` holds the
  round-to-nearest `f64` arithmetic that bit-rate settings such as "4.1M"
  go through, done exactly on decimal digits.
- `app/` is the program around it: the command line, the egui window, FFmpeg
  decoding and encoding, SQLite persistence and the stdio loop of the MCP
  server.

Times are integer microseconds and frame rates are frames per thousand
seconds; `app/` converts to and from the seconds and frames per second that
the project files and the user interface use.
