# lemming

A reader for patch files, verified with Verus.

- `src/text.rs` — reading steps over a character sequence (exact text, text up
  to a pattern, runs of a character class, line endings, decimal counts), each
  with its mathematical meaning (`Step`) and an executable version proved to
  agree with it.
- `src/patch.rs` — the grammar of `git format-patch` mails and of plain lists
  of `diff --git` sections, the executable readers (`parse_file`,
  `parse_patch`, `parse_many_diffs`, ...) and the laws proved about them.
- `src/format/patch.rs` — the first mail layout (one-line subject, summary line
  with an insertion count).
- `src/document.rs` — a document that holds a patch text and what reading it gave.
- `src/hunks.rs` — checks of the hunks of one diff (modified lines, line
  counts against the header, leading context).
- `app/` — the graphical viewer (bladvak/egui) around the library.
