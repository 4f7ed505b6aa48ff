# atlas

A desktop board for Markdown note vaults: every note of a folder becomes a card, notes are
grouped by tag into clusters, and links between notes are drawn across the board.

The library under `src/` is written in Verus, and its functions are proved against their
contracts; the few calls into pulldown-cmark and into parts of std that Verus does not
specify go through small trusted wrappers whose contracts are stated, not proved:

- `vault/` reads notes: front matter, titles, wiki links, Markdown links, tags and citations,
  paths relative to the vault, and the resolution of every reference to the note it names,
  with backlinks and diagnostics.
- `search.rs` ranks notes for a query and cuts snippets around the match.
- `registry.rs`, `jobs.rs` and `shell.rs` hold the remembered vaults, the scan generations and
  the summaries the shell shows.
- `markdown.rs` prepares a card: the body shown under a note's title, and the styled runs of
  text that its Markdown becomes, with the markup dropped.
- `board/` places notes: tag normalisation and relationship weights, the order and shelves
  of clusters, compact slots around cluster centres, spreading of shared slots, packing of
  rows, the touching components of a cluster and the requests that pull a split cluster back
  together, and the contours of a cluster's outline.

`app/` is the desktop shell around the library (eframe): folder scanning, front matter
decoding, the floating-point geometry of the board, font sizes and colours, and drawing. `tests/` exercises the
library on concrete values.
