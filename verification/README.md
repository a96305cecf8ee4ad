# tread

A terminal novel reader that shows one to three lines of a book at the
bottom of the terminal, disguised as log output, a code comment, `git log`,
`npm install`, pytest, docker or kubectl output.

The reading logic is a library verified with Verus; the program around it
(command line, terminal, files) is ordinary Rust.

## Layout

- `src/` — the verified library.
  - `text.rs`, `width.rs`, `paths.rs` — characters, trimming, line
    splitting, number formatting; display widths (`unicode-width`); file
    names and extensions (`std::path`).
  - `pattern.rs`, `decode.rs`, `markup.rs` — regular expressions (`regex`);
    decoding a file's bytes (UTF-8, then `encoding_rs`'s East Asian
    encodings); HTML and PDF text cleaned into reading text.
  - `reader.rs` — the book: wrapping lines into rows, paging, case-blind
    search in both directions, chapter headings, building a book from text.
  - `bookmark.rs`, `settings.rs`, `config.rs` — reading positions and
    favourite lines per file, the list of recent books, templates, the
    cycle of disguises.
  - `app.rs` — the reader's state machine: what every key and terminal
    event does.
  - `display.rs` — what is drawn: search hits, each disguise's rows, the
    lists and the input line.
- `app/` — the `tread` program: `clap` arguments, the `crossterm` event
  loop, `ratatui` drawing, loading books from disk (`epub`, `mobi`,
  `pdf-extract`), and the bookmark and settings files (`serde_json`,
  `toml`, `dirs`).
- `tests/` — tests of the library.

Contracts are stated over views: a book's lines as sequences of
characters, bookmarks as maps from path to entry, the reader as an
`AppView`. Calls into outside crates go through small trusted wrappers whose
doc comments say what is assumed of them.
