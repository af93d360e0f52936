# dj-music-suite

Small tools for DJ music libraries: import new music into a library folder
with duplicate detection, reorganize a library folder into a tag-based
layout, find and remove duplicate files, and a local web UI for the import
flow.

The library (`src/`) is verified with Verus: every public function states
what it returns in its contract, and the properties the tools rely on are
proved as lemmas.

- `template`, `target`: path templates, their parsing and rendering, and the
  target path of a file under the library root.
- `tags`, `quality`: normalized track identity, primary artist, quality score.
- `import`: classification of new files against the library index
  (new / alternate version / duplicate / conflict / untagged) and placement.
- `reorg`: reorganization plans and their execution steps.
- `dedup`: duplicate groups (identical content, same identity within the
  duration tolerance), which file is kept, trash naming, execution decisions.
- `report`: the text of the analysis reports.
- `scan`, `paths`, `text`, `group`, `sorting`: audio file selection, `/`
  paths with `std::path` semantics, character-level text helpers, ordered
  grouping by key, stable sorting.
- `config`, `server`: configuration paths and root choice; the web UI's
  decisions (staging ids, job exclusivity, event shortening, request values).

`app/` is the command-line program and web server around the library: file
system and network I/O, tag reading, progress bars and JSON plans.

Plans are written to and read back from JSON files by `app/` (through
copies of the plan types that carry the serde derives); the library makes
the plans and decides, entry by entry, what executing them does.

The `convert` command (batch conversion of NetEase `.ncm` files with cover
art and lyrics) is not part of this build: the decoder it needs is not in
this code base, so the command only reports that it is unavailable and
exits with status 1.
