# diff_core

A verified library for comparing and merging text files and directories,
with a small graphical front end.

- `src/` is the library, written in Verus and proved: decoding of file bytes
  and splitting into lines (`source_data`, `line_data`), line diffs
  (`diff`, which asks the `similar` crate for the line-by-line changes),
  two- and three-way merge blocks and their output (`merger`, with laws in
  `merge_laws`), directory listings and their comparison (`path_order`,
  `dir_diff`), and the state and texts of the views (`diff_view`,
  `merge_view`, `dir_view`, `session`, `text_fmt`).
- `app/` is the program around it: command line, file and directory
  reading, and drawing with `egui`/`eframe`.
- `tests/` runs the library on concrete inputs.
