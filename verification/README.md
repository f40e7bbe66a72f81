# intscrape

A database of files and their tags, written in Verus.

- `src/` is the library. Every function in it is verified against its contract. `database::MainDatabase` holds the
  tables and the caches; its view, `database::DbState`, is the state that the contracts speak of.
  - `rows`, `types`, `text`, `paths`, `sets`: rows, values, and the texts and paths made of them.
  - `namespace`, `tag`, `tag_actions`, `parents`: namespaces, tags, and structural relations between tags.
  - `relationship`, `relationship_get`, `lookup`: which file has which tag.
  - `bitmap`, `bitmap_cache`, `cache`: the bitmaps that speed searches up, stored and in memory.
  - `search`, `tag_search`: searching files by tags, and tags by name.
  - `file`, `upkeep`, `storage_check`, `source_url`, `dead_url`: files, their digests, sizes and places.
  - `jobs`, `system_jobs`, `processing`, `cli`: jobs, and what scrapers bring.
  - `settings`, `startup`, `schema`, `backup_path`, `removal`, `slurp`: settings, new databases, table texts,
    backups, removal, and taking over what another database holds.
  - `coherence`, `consistency`, `reads`, `repetition`: what holds across all of these.
- `app/` is the program around the library: the command line, the SQLite file, and the file system.
- `tests/` runs the library on concrete values.

The outside code that the proofs rest on is the bitmaps (`roaring`), the integer map (`intmap`), URL parsing (`url`) and
`String::push`; each call stands in a small item of its own, with the contract that it is believed to meet.
