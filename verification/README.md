# sarnaut

Tools that turn an extracted game data tree into authored ruleset documents,
compile those documents into a content pack, and keep a content-addressed
store of the raw assets. The library in `src/` holds the logic, with its
behaviour stated in `requires`/`ensures` contracts and proved by Verus; the
program in `app/` reads and writes files, parses command lines and drives the
library.

## Layout

- `src/` — the verified library:
  - extraction: `parse` (XML), `xml`, `reference` (canonical ids), `scan`
    (hrefs and paths), `item`, `faction`, `quest`, `mob`, `spawn`, `zone`,
    `mobkind` (prototype chains), `taxonomy` (mob classes and qualities),
    `loottree` (loot trees), `locale`, `script`, `opcodes`, `convert`,
    `census`, `objective`;
  - packs: `source`, `overlay`, `reach`, `refs` (reference check), `compile`
    (the rules a tree meets before it becomes a pack), `table` (the table
    format), `assemble` (tables, entries and the pack id), `pack` (manifest
    checks), `report`;
  - assets: `store` (manifests, ingest tallies, lookups), `digest`, `encoding`,
    `bytes`, `text`.
- `app/` — the command-line program: ingest, stats, verify, lookup, census,
  factions, items, zone, locale, loot and mobkinds.
- `tests/` — tests of the library on concrete values.

## Trusted boundary

BLAKE3 hashing, XML parsing and a few standard-library conversions are
called through small wrappers whose contracts are assumed; every other
function in `src/` is verified.
