# mxpm

A package manager for Maxima: it installs packages listed by registries,
searches and upgrades them, runs their tests, publishes them to the
community index, and builds their documentation (Info files with a help
index, a JSON documentation index, mdBook sources and HTML), including the
reference pages of Maxima's own manual.

## Layout

- `src/` is the library, written in Verus. Each function states its
  behaviour in `requires` / `ensures` over mathematical models (`Seq`,
  `Map`, spec functions) and is proved against it.
  - `config`, `index`, `registry`, `install`, `outdated`, `source`,
    `types`: registries, package entries, search and scoring, outdated
    reports, archive paths.
  - `info_index`, `info_scan`: reading GNU Info files and rendering the
    Lisp help index.
  - `doc`, `doc_index`: Texinfo post-processing, include expansion, mdBook
    pages, HTML rendering, the documentation index and its lint.
  - `core_docs`: the markdown reference generated from Maxima's Texinfo
    XML.
  - `publish`, `test_output`: remote URLs and commits for publishing;
    reading the summaries of Maxima test runs.
  - `init`: the entry point of a package set up in an existing directory.
  - `text`: the string and UTF-8 toolkit the rest is built on.
- `app/` is the command-line program around the library: argument
  handling, files, network, processes and the JSON and TOML formats.
- `tests/` exercises the library on concrete inputs.

The laws that span several functions (lookup after insert, idempotence of
`slim` and of remote URL normalisation, the order of search results and
generated indexes, every symbol written to exactly one markdown file, ...)
are public proof functions next to the functions they speak of.
