# mdglimpse

The core of MdGlimpse, a small Markdown viewer, as a library whose functions
carry contracts proved with Verus, and the desktop window around it.

## Layout

- `src/` — the library. Its functions are verified, except the few small
  wrappers (`#[verifier::external_body]`) through which it calls the
  standard library and the Markdown parser, whose contracts are trusted:
  - `document` — deciding whether a file is text, decoding it, splitting it
    into lines, the widest line, rewriting relative links, and the `Document`
    that keeps all of it consistent;
  - `outline` — headings, slugs, anchors, the plain text of a document;
  - `markdown` — the event stream of the Markdown parser, as plain values;
  - `search` — exact, case-folded and whole-word search with byte offsets;
  - `settings` — the recent-files list and the switches that survive a
    restart;
  - `platform` — what is registered with the operating system and how its
    answers are judged;
  - `view` — view modes, the search state and its matches, the search status line,
    highlighting pieces of a line, the current heading, plural forms;
  - `probe` — where search matches fall in the drawn texts;
  - `icons` — the toolbar icons as values;
  - `text`, `unicode` — byte-level helpers and the pieces of Unicode taken
    from the standard library.
- `tests/` — tests of the library.
- `app/` — the window (eframe/egui), reading files, the registry and
  `.desktop` files, saving settings.

Each public function states its result over specification functions; the
laws that tie several functions together are public proof functions next to
the code they are about (`lemma_*`).
