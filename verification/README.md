# fsb4 — verified FSB4 bank writer and reader

Builds FSB4 sound banks from MPEG-1 Layer III streams and reads them back.
Inputs are taken three at a time: a lone stream becomes a stereo track
whose frames are padded to an even length; two or three streams become a
4- or 6-channel track whose frames are interleaved, each padded to 16 bytes.
The first track gets evenly spaced startpoints.

Layout:

- `src/` — the library, verified with Verus:
  - `config.rs` — format constants, flag names;
  - `helpers.rs` — MPEG frame header fields and tables;
  - `mp3.rs` — frame scanning, padding, interleaving and splitting;
  - `fsb4.rs` — startpoint tables, bank writing (`create_fsb4`) and reading (`parse_fsb4`);
  - `pipeline.rs` — startpoints and the tracks built from input streams;
  - `utils.rs` — names from paths, sync markers;
  - `roundtrip.rs` — proofs that reading gives back what was written;
  - `buffer.rs` — byte-buffer helpers.
- `app/main.rs` — the command-line tool: file and process I/O around the library.
- `tests/` — tests on concrete values.
