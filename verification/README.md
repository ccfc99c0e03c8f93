# clapse

A verified model of a terminal viewer for Clang `-ftime-trace` build
profiles.

- `src/` is the library, verified with Verus: trace events become spans
  (`link`, `load`, `ninja`), root spans are scheduled onto tracks and laid
  out for display (`view`, `nav`), spans are aggregated per source
  inclusion path (`sources`) and per template instantiation (`templates`),
  the precompiled-header and `extern template` candidates are ranked
  (`candidates`), and labels and paths are shortened for the screen
  (`text`, `paths`). Key bindings and the search box are state machines in
  `keys` and `search`; `laws` holds the properties that tie several
  functions together.
- `app/` is the terminal program: argument parsing, reading the build
  directory, floating-point zoom and drawing, and the event loop.
- `tests/` runs the library on concrete inputs.

Times are whole microseconds (`u64`), where the traces give fractional
ones in floating point; sums of durations saturate at the largest `u64`
rather than growing without bound, and times read from traces are at most
2^62 µs: the viewer skips a trace file (with a message) whose times
exceed that, and ignores a build log whose records do. A unit without a
build-log record has an unknown duration until its children bound it.
