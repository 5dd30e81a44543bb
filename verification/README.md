# NoteGo core

The logic of NoteGo, a local-first Markdown knowledge base with wiki links,
tags and full-text search, as a library whose contracts are proved with Verus.

- `src/text.rs` — characters, trimming, line splitting, string assembly.
- `src/path.rs` — what the platform's path functions give where every
  platform agrees (clean `/`-separated paths, file names, stems, extensions),
  and the refusal of note paths that are absolute or climb out with `..`.
- `src/parser.rs` — front matter block, wiki links, inline tags, fenced code
  blocks, note parsing; laws on tags, links and the front matter layout.
- `src/markdown.rs` — plain text of a Markdown body, code blocks dropped
  (via `pulldown-cmark`).
- `src/index.rs` — FTS5 search phrases, `LIKE` patterns, link resolution
  order, snippets, rebuild batches, the tag column; laws on escaping and batching.
- `src/vault.rs` — note records (SHA-256 based ids), new notes, index rows,
  directory filtering, tag-query records, the order of note lists.
- `src/watcher.rs` — file-system notifications to note events.
- `src/sync.rs` — synchronisation settings.
- `app/` — the Tauri application: commands, SQLite index, file I/O, watcher
  thread, YAML decoding, serialisable copies of the library's types.
- `tests/` — tests of the library on concrete values.
