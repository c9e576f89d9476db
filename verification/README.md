# gitturtle

The verified core of GitTurtle, a native Git client: the rules and bounded
bookkeeping behind its project list, preferences, identity profiles, branch
navigation, local-change refresh, path filtering, partial staging actions,
Markdown blocks, prose and previews. Every function in `src/` carries a
contract; Verus proves each one except four small wrappers in `src/text.rs`
around std text functions (`str::to_lowercase`, `String::push`,
`String::push_str`, `String::from_utf8_lossy`), whose contracts restate what
std documents and are trusted. The laws that hold across operations are stated
as public proof functions next to the code they are about.

## Layout

- `src/text.rs`, `src/paths.rs`, `src/sorting.rs`: character rules, byte-safe
  path components and comparison, stable sorting by a byte key.
- `src/library_model.rs`, `src/project_library.rs`, `src/library_laws.rs`,
  `src/library_validity.rs`: the project list (groups nested up to five
  levels, projects by path), its mathematical model, its operations and the
  laws they keep (projects and group identifiers kept by moves, depth
  bounded, read-back of edits, and every request keeping a valid list valid).
- `src/preferences.rs`, `src/settings.rs`, `src/profiles.rs`: names, recent
  repositories, commit drafts, settings edits and identity profiles.
- `src/local_refresh.rs`, `src/coverage.rs`: coalescing of local changes,
  change classification, metadata fingerprints and the directory subtrees a
  watcher could not cover.
- `src/path_filter.rs`, `src/navigation.rs`, `src/navigator.rs`, `src/pages.rs`:
  file filtering, the branch tree, keyboard movement and page returns.
- `src/partial_view.rs`, `src/prose.rs`, `src/documents.rs`, `src/page_cache.rs`,
  `src/pdf_pages.rs`: partial staging actions for a displayed patch, Markdown
  prose, document bounds, the page cache and PDF page state.
- `src/markdown_blocks.rs`, `src/image_capture.rs`: the blocks of a rendered
  Markdown document (lists, quotes, code chunks, tables, diagrams asked for,
  notices, the block bound) and the decisions about its local images.
- `app/`: a command-line front end that reads and replaces the JSON
  preference and profile files and calls the library for every decision.
- `tests/`: executable tests of the library.
