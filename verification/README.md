# cocklike

The rules of Cock's Conquest, a small turn-based roguelike, as a library whose
behaviour is stated in contracts and proved with Verus.

- `src/` — the verified library: stats and their fatal values, status effects,
  the turn order, the log and its line breaking, the map generator, movement
  and the grid of blocking entities, Dijkstra's route search and the actors'
  behaviours (targetting, engaging, melee, ranged, wandering), attacks, vore
  and digestion, healing, the player's keys, drawing order and text placement,
  and the side panels. Calls into `caith` (dice), `strfmt` (attack texts),
  `Inflector` (title case), `sark_grids` (grids) and `rand` stand behind small
  trusted wrappers whose contracts say what the library relies on.
- `app/` — a terminal front end: it reads key presses from standard input, runs
  the library's systems in the game's order, and prints the screen. The
  floating-point geometry of projectiles and colour blending, the field of view
  (`adam_fov_rs`) and the action trait objects live here.
- `tests/` — tests of the library on concrete values.
