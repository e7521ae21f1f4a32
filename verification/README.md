# kore

The editing core of a Battle Cats modding studio, written in Verus.

`src/` is the library, every function of it proved against its contract but
for the few trusted wrappers around calls into `nyanko`, `image` and std:

- `text`, `plain`, `rows` — the game's comma separated text: lines with the
  endings they were written with, cells, and how a row is written back so that
  padding and untouched cells survive.
- `rig`, `mamodel`, `imgcut` — part models and sprite cut lists, read through
  `nyanko`. An untouched file whose rows within each block end alike is
  written back byte for byte (a part model, where the rows read as the model
  `nyanko` read from them); an edit to one part, alignment row or cut
  rewrites that row alone, and a reparent never closes a cycle of parents.
- `cadence` — when an animation's curves come to rest or go round, and how a
  playhead folds back onto the frames that show everything.
- `combos`, `costs`, `resolved` — the rules of the cat combo and talent cost
  tables.
- `glyphs`, `name_box`, `branches`, `tree`, `names`, `row_window`, `menu`,
  `import`, `utilities` — the studio's text and list rules: shaping, the
  file tree, sorting and grouping file names, windows onto long lists.
- `history` — the shelf of recent sets and the undo stack, which never grows
  past its depth.
- `localized`, `io`, `enemy`, `blank` — file naming rules, which units,
  enemies and maps a changed text table localized, and the blank set a new
  unit is seeded with.

`app/` holds what touches the file system, the environment and pixel
measurements. `tests/` runs the library against `nyanko` and `image`.
