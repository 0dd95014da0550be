# rim_sim

The deterministic core of a colony simulation, written in Verus: each
function in `src/` carries a contract that Verus proves.

## What `src/` holds

- Grid geometry, the world's random numbers, the tile map with its
  reachability regions and rooms, and an A* search that is sound (a route
  it gives is a legal walk to the goal) and complete on maps of up to
  `SEARCH_CELLS_MAX` cells (it never expands more cells than the map has,
  and gives up only when its budget of expansions runs out or no route
  exists).
- Stockpile zones, climate terms and curves in fixed point, the calendar
  and clock, shelter from the wind.
- Defs: colour parsing, reference resolution across mods, and settling a
  plain-value draft of them (`finalize`): the index of every def, each
  reference resolved to an id, colours, sizes and build costs checked,
  tool tags as bit masks, creature defaults, the calendar normalised, work
  types and styles and priority rules settled. Field terms are ordered by
  the same depth-first walk the spec functions `walk_all` describes, so
  the order and the cycle an error names are fixed.
- Pawns: skills, work priorities (and the player's command that sets
  one) and the rules that move them; the AI's melee arithmetic, walking,
  and its choice among the jobs found.
- Mods: load order, API checks, def ids made their mod's own, the script
  lint and `require` paths, when `rim.every` hooks run and who may
  register `rim.on_migrate`, test reports.
- Def files (`deftree`): a def file read as a tree (the `toml` crate's
  parser behind one wrapper), the kinds mods declare with `[[kind]]` and
  the check of their entries' fields, a file's lists grouped by kind,
  defs added under their mod's ids (a second definition of an id is an
  error), and `[[patch]]` entries found by target and applied: `set`
  merged in, list `edit`s, `remove` and `append`; and, once all mods are
  in, that there is one calendar, one sky and one priority scale.
- Saves: chunk framing, snapshot fields, the snapshot file frame and save
  sections (with zstd behind two wrappers), and that a frame written reads
  back as its header and sections; map pictures; restoring a snapshot's
  format check, its ground mapped onto the defs loaded now, and a saved
  pawn's def ids mapped the same way, with a note of what was lost.

## What stays outside

`app/` holds the file and directory I/O (among it the walk over the mods'
def files that hands each file to `deftree`), the serde forms of the
records (TOML manifests, msgpack headers, JSON maps), and the
floating-point half of looks.

Not carried over: the ECS world (`hecs::World` queries over components)
and what runs on it each tick (the AI's job running and its candidate
search, commands, deaths, snapshot capture, and spawning restored
entities), the Lua script host (`mlua`), map generation and the other
floating-point parts (noise fields, wealth, need thresholds), the record
of which mod's patch set which field (for conflict warnings), the typed
reading of the merged defs into the draft `finalize` takes, and, of
settling them, the fields' terms, the sky's tints and the things' looks.
