# rldeck

A Rocket League map loader: it keeps a library of custom maps, browses the
Lethamyr catalog, downloads and imports maps, and swaps a map into the game's
Underpass slot after backing up the original level, which Repair puts back.

- `src/` is the library, verified with Verus. It holds the rules: how markup
  becomes text and links, how archives are planned and names made safe, how a
  map folder becomes a map, how the game's slot is classified, backed up and
  restored, how the library and catalog pages are filtered and ordered, how the
  picture gallery schedules and evicts, and what the window decides on each
  event (`deck`) and shows (`panels`).
- `app/` is the program around it: the window (iced), file dialogs, the network,
  the disk, and the serde copies of the library's types that are saved to disk.
- `tests/` runs the library on concrete values.
