# hex_core

The rules of a real-time strategy game on hexes, as a library whose behaviour is
stated in contracts and proved with Verus.

- `src/` is the library. It holds whole numbers, lists, sets and maps only: no
  clock, no chance, no engine, no network.
  - Hexes and maps: `coord`, `axials`, `map`, `connectivity`, `pathfinding`.
  - Soldiers: `movement`, `transfer`, `branching`, `redistribution`, `combat`,
    `conquest`, and the fronts between players in `front`, `local_front`,
    `perimeter` and `ring`.
  - Islands: `worldgen` with `island`, `spawning` and `map_check`; that starts are
    fair is proved in `fairness`.
  - Layered worlds: `pipeline` with the passes `continent`, `coast`, `relief`,
    `hydrology`, `landcover`, `gameplay` and `placement`, and `world_check`; that
    one world spec, with one relief, makes one world is proved in `layered_law`.
  - A client of a match: `client` with `session`, `commands`, `deltas`,
    `tactical`, `projection`, `flows`, `contest` and `retask`; what it draws
    again is in `registry`, `outline` and `shape`.
- `tests/` runs the library.
- `app/` is what surrounds it: colours, meshes, files, wire formats and the
  connection to a server.

Laws that hold of several functions together are the public proof functions
whose names begin with `law_`.
