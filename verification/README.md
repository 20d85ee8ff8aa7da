# wlrix-desktop

The wlRIX desktop: the files in the XDG desktop directory shown as icons, IRIX-style,
filling from the top right downward and then leftward.

`src/` is a library verified with Verus. Every function in it carries a contract, and the
properties the desktop depends on are stated and proved as laws:

- `layout` -- the grid, where each cell sits, which cell a point is in, and the layout of a
  desktop's entries: a remembered cell is kept, no two icons share one, a remembered cell the
  screen no longer has is rehomed, and laying out what was handed back changes nothing.
- `state` -- the remembered positions, which pin every laid-out icon so a gap stays a gap, and
  which read back from their file exactly as they were written.
- `select`, `pointer`, `menu` -- what a hover, a press, a drag, a rubber band and a release
  do, the desktop menu, and what the program is left to do about each pointer event.
- `desktop_entry`, `locale`, `running`, `open` -- `.desktop` files, their translations, the
  `Exec` line split without a shell, and what opening an icon runs.
- `canvas`, `motif`, `image`, `paint`, `label`, `emblem` -- pixels: filling and blending,
  Motif bevels, icons decoded, scaled, tinted and composited, the emblems drawn in code for
  each kind of file, where each icon and label goes, and a file name broken into label lines,
  cut with an ellipsis when it does not fit.
- `xdg`, `session`, `trash`, `outputs`, `config` -- paths and files the desktop reads and
  writes, the trash's records, and which monitor gets the icons.

`app/` is the program around it: arguments, the environment, reading and writing files,
starting programs, and the TOML and SVG that the outside crates handle.
