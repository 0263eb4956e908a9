# ayame_core

The engine of a text editor for files that are too large to load, with its
behaviour stated in contracts and proved by Verus.

A document is a buffer of bytes, most often a mapped file, with a sparse line
index over it. Edits live in an overlay that is keyed by original lines; a
session adds undo, redo, dirtiness and a crash log. Saves, searches, transforms
and the data operations (sort, group, top, distinct, split) work line by line.

- `src/` is the library. Each function states what it returns; the laws that
  span functions are public proof functions beside them.
  - bytes and text: `encoding`, `eol`, `detect`, `walk`, `lines`, `index`,
    `document`
  - editing: `overlay`, `model`, `effect`, `edit`, `session`, `save`, `kept`,
    `preserve`, `reread`, `rebase`, `wal`, `recovery`, `markers`
  - searching and rewriting: `patterns`, `search`, `casing`, `transform`, `grep`
  - data: `fields`, `records`, `runs`, `sort`, `ordering`, `top`, `sums`,
    `group`, `distinct`, `split`
  - files: `staging`, `cache`, `mapfault`
  - releases: `calendar`, `release`, `steps`
- `tests/` runs the library on concrete inputs.
- `app/` opens and writes files, maps them, reads JSON, and runs the release
  tasks.
