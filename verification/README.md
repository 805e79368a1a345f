# TurboRipent

Extracts, imports, repairs and edits the entity data of GoldSrc BSP (version
30) maps, with the entity logic verified by Verus.

- `src/` — the verified library:
  - `bsp` — the BSP header, its lumps, reading a file's bytes and replacing a lump;
  - `entity` — one entity's key/value pairs (no key twice), its class name,
    brush model and spawn flags;
  - `ent` — the entity text format (`{ "key" "value" ... }` blocks), read and
    written;
  - `normalise` — repair of damaged entity text;
  - `rip` — extraction from and import into a BSP file, split point/brush
    extraction, file kinds;
  - `report` — entity statistics of a BSP file;
  - `editor` — the state behind the interactive editor: filtering, the
    property rows, spawn flags, undo and redo;
  - `menu` — the actions, their command-line flags and the prompt's input;
  - `text`, `error` — character helpers and the error type.
- `app/` — the terminal program: command line, menus, file reading and
  writing, and the editor screen.
- `tests/` — tests of the library.
