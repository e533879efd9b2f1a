# ntre_demo_dumper

Offline gameplay-data extraction from NEOTOKYO;REBUILD demo files
(HL2DEMO, demo protocol 3 / network protocol 24), as a Verus-verified
library plus a small command-line program.

- `src/` is the verified library. `demo/` reads the on-disk format (the
  LSB-first bit reader, the fixed header, frames, usercmds, net messages
  with generic game events, the string-table roster); `extract/` turns
  frames into facts (announcement skim, rounds, recorder POV and inputs,
  console commands, kill feed, chat, roster, game events, entity samples,
  the integer half of hit attribution); `pipeline.rs` streams a demo's
  frames through the extractors. Every public function carries a contract
  over a mathematical model of its inputs and outputs, and the library's
  laws (round trips, append-only samples, the roster's stability, …) are
  stated and proved as proof functions.
- `app/` is the program: argument parsing, file reading, SQLite output,
  the thread fan-out of the skim, the tf-demo-parser entity walk, and the
  floating-point parts (tickrate, aim-based hit attribution).
- `tests/` exercises the library on concrete inputs.
