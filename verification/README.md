# vyges-grt

Global routing over a placed design: which cells of a coarse routing grid each net may use, and the route guides
that say so.

`src/` is the verified library. It holds two routing engines and what both share:

- `init`, `tracks`, `capacity`, `adjust` lay out the grid, its tracks and the capacity of its edges, and take
  obstructions and adjustments off it; `global_route` sets a run up and finishes it.
- `estimate`, `brk_rsmt`, `graph2d`, `tree_usage`, `congestion`, `congestion_loop` are the plane: demand, trees, and
  the schedule of the rip-up rounds.
- `finalize`, `full3d`, `fillvia`, `checks3d`, `findrouting`, `finish`, `driver`, `apply` are the layers: assignment,
  vias, checks, the routes and the reports.
- `cugr` is the second engine: the design and its graph of gcells, Steiner trees, the choice of layers, the sparse
  maze, and the restoring of routes.
- `antenna_check`, `clk_netlist`, `clk_network`, `callbacks` serve repair and incremental runs.
- `json`, `cli`, `steps`, `job` are the rules of the command: the text of a job, patterns, the guide file, the steps
  of a job and their fields.
- `text`, `single`, `vecs`, `grids`, `sorting`, `dsu` are shared helpers.

The text of a job is parsed by `serde_json`. Three small functions of `json` call it, and what they say of it is
believed: that a text has one value or one error, and what a value holds. Everything else is proved.

Demand is counted in halves of a track, and costs are a type parameter with a total order, so that nothing in the
library is floating point. What is floating point stands in `app/`, beside the program that reads a job and writes
guides.
