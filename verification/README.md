# mdzk

mdzk is a plain-text Zettelkasten: notes are Markdown files that refer to
each other with wikilinks (`[[Note title#header|alias]]`). This crate holds
its logic as verified Rust: the functions in `src/` carry contracts that
Verus proves, except the small wrappers around calls into other crates
(marked `#[verifier::external_body]`), whose contracts are taken on trust.

## Layout

- `src/text.rs`, `src/path.rs`: characters, UTF-8, and `/`-separated paths
  (components, relative paths between files, page names).
- `src/wikilink.rs`, `src/markdown.rs`, `src/context.rs`: reading wikilinks,
  finding them among the events of a CommonMark parse, and turning them into
  CommonMark links.
- `src/vault.rs`, `src/builder.rs`, `src/ser.rs`: the note graph (a vault),
  the settings it is built from, and its notes as plain records.
- `src/book.rs`, `src/backlinks.rs`, `src/katex.rs`, `src/blockref.rs`,
  `src/readme.rs`, `src/frontmatter.rs`, `src/preprocess.rs`: books of
  chapters and the preprocessors that rewrite them (wikilinks, backlinks,
  math, block references, `README` pages, front matter).
- `src/render.rs`, `src/ssg.rs`: what the HTML renderer and the static site
  put on each page, and which pages there are.
- `src/time.rs`, `src/config.rs`, `src/log.rs`: dates, settings, log lines.
- `src/watch.rs`: which file changes make a served book rebuild.
- `app/`: the command-line program around the library (directory walks,
  files, JSON output, mdBook plugins).
- `tests/`: tests of the library on concrete values.

Calls into other crates (the CommonMark parser, mdBook's anchor ids, the
`time` crate, hashers, the walker's glob check) go through those
trusted wrappers; their doc comments say what each contract claims of the
outside code, and some claim nothing because the result depends on the
machine (its time zone).

Lookups by title or path (`NameMap`) and the arcs of each note are kept in
vectors, with invariants that no key appears twice, rather than in hash
maps: vstd's contracts for `std::collections::HashMap` hold only under its
default hasher and for key types it knows, so a map keyed by strings, or
hashed with FNV or an identity hasher, would let nothing be proved of it.

A note's id is the FNV-1a hash of the bytes of its path's components
followed by a tally of their lengths (each length added, then the bits
rotated right by two) as eight little-endian bytes: what hashing the path as
a `std::path::Path` feeds the hasher on 64-bit little-endian Unix, fixed so
that ids are the same on every machine.
