# rtl_terminal_core

Verified text engine of a terminal for right-to-left scripts.

- `src/bidi.rs`: RTL detection, direction runs of a line, visual reordering.
- `src/shaping.rs`: Arabic presentation forms and lam-alef ligatures.
- `src/lib.rs`: `process_output`, line by line, with ANSI escape sequences kept.
- `src/session.rs`: choice of the default shell and of its working directory,
  queueing of what the reader reads, and bounded draining of shell output.
- `src/text.rs`: string and character-vector conversions.
- `app/`: the desktop program: the PTY session (portable-pty, reader thread,
  locks), the front-end commands and their Tauri registration, which call the
  library for every decision.

Each public function states its exact result over spec functions; the
`law_*` proof functions state the properties that hold across inputs.
