# omega

A fast cross-platform file search. This crate holds its verified core, in
Verus, and the command-line program around it.

- `src/` is the library, verified by Verus:
  - `matcher`: name and content matching (exact, ASCII case-insensitive,
    Unicode-lowercased, and fuzzy by Levenshtein distance over words);
  - `bytesearch`: byte and substring search, eight bytes at a time;
  - `levenshtein`: the bounded edit-distance computation;
  - `calendar`, `utils`: the civil date of a Unix timestamp, ISO 8601 and
    CSV rendering, permissions and sizes;
  - `output`, `file_info`: path lines, CSV records and the search summary;
  - `metrics`, `scanner`, `paths`: search limits, which entries are
    reported, and the search roots;
  - `text`: the calls into std's Unicode and UTF-8 handling.
- `app/` is the program: argument parsing (clap), the parallel walk
  (rayon, std threads and channels), file and metadata reading, and the
  floating-point size rendering.
- `tests/` exercises the library on concrete values.
