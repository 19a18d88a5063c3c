# qem

A text-editing engine for very large files, written in Verus: every function of the library
states what it does, and the statement is proved.

- `src/` is the library. `document` holds the typed positions, the piece table, the rope, literal
  search and what can be saved in which encoding; `editor` holds sessions and tabs with their
  background jobs; `piece_tree`, `page_store`, `session_log` and `editlog` hold the persistent
  piece tree and its log; `index` holds the line index of large files; `source_identity` and
  `sidecar` tie the files beside a source file to it. Functions named `law_*` state what holds
  across several functions.
- `app/` is the part that touches files, threads and clocks.
- `tests/` runs the library.

Text lives in one of three places: the bytes of the file, a rope, or a piece table. Positions are
lines and columns; a column is a Unicode scalar value, or one byte where the bytes are not UTF-8,
and a carriage return with its line feed is one text unit.

The library calls `memchr` for byte search, `ropey` for ropes, `crc32fast` for the checksums of log
pages and `encoding_rs` for encodings. What is taken for granted of them is stated at the
declarations marked `assume_specification` or `external_body`.
