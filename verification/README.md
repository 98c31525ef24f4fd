# lost_commander

The core of a two-pane file manager, written and verified in Verus: what the
panels show and mark, comparing trees and files, finding duplicates, text
encodings, byte dumps and patches, network locations and how to attach them,
the journal of what was done, and the rest of what does not touch the machine.

- `src/` is the library. Each function states in its contract what it returns
  or changes; the functions whose names begin with `law_` state what holds
  across several of them.
- `app/` is the edge around it: files, directories, other programs, threads,
  the environment, and the formats kept on disk.
- `tests/` runs the library on concrete values.

What is believed rather than proved is the behaviour of a few functions of the
standard library and of `chrono`, stated at the functions that call them in
`src/text.rs`, `src/encoding.rs` and `src/local_time.rs`.
