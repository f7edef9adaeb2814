# dix

Diffs Nix closures: which packages changed between two system generations,
how their versions moved, and how the closure size changed.

The library under `src/` is written in Verus; every function in it carries a
contract that Verus proves.

- `version` — splitting version strings into components and separators, the
  version order and the order of a version change.
- `edit`, `matching`, `assignment` — edit distances of component lists and the
  matching of old to new versions (an order-preserving minimum-cost matching,
  and a minimum-weight assignment computed by the `pathfinding` crate).
- `engine`, `model`, `package` — grouping packages by name, counting versions,
  and classifying each package change.
- `store_path`, `paths` — reading package names and versions out of store paths.
- `report`, `render`, `json` — diff reports with path counts and sizes, their
  rendering as styled text segments, and the JSON document's shape.
- `closure`, `listing` — reports of closure snapshots and their listing.
- `command`, `lines`, `fallback`, `cli` — the command backend's command lines
  and output reading, the fallback decisions of a combined store backend, and
  the front end's decisions.

`app/` holds the `dix` program: argument parsing, the store backends (sqlite
and the `nix` commands), colouring and JSON output.
