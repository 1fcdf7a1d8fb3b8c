# xwc

A `wc`-style counter of lines, words, characters, bytes and the longest line,
written in Verus. The library under `src/` is verified; `app/main.rs` is the
command-line front end (argument parsing, files, globbing, threads, printing).

- `decode`: lossy UTF-8 decoding into units (scalars and maximal ill-formed
  subparts), with sequences cut off at a chunk's end held back for the next one.
- `count`: chunked counting (`CountState` with `feed` and `finish`, `count_chars`, `count_words`,
  `count_max_line_length`, `count_reader`) against whole-stream specifications,
  and the laws that chunking does not change the counts.
- `config`: resolving command-line options into what to count and show.
- `output`, `text`, `duration`: rendering counts as table cells and laying the
  table out in left-aligned columns.
- `table`, `order`: stable sorting of rows, totals, glob matches in byte order.
- `parallel`: how many workers count the inputs.
