# racing

The core of a grid-racing game in which cars learn to race by Q-learning, written in
Verus: every function in `src/` carries a contract that Verus proves.

- `tile`: tile properties (speed, walls, sticky, damage, start and finish) and stored track tiles.
- `grid`, `search`: grids of tiles, and a level-by-level search that gives each tile the least
  number of moves to a goal, proved minimal.
- `track`: track validation, reachability, distances to the finish and tile statistics.
- `track_manager`: the registry of validated tracks.
- `trainer`: rewards, the Q-learning update, single and batched learning steps, update counts
  and race results.
- `training`: training rounds with the anti-stuck action rules.
- `car`, `nft`: car ownership registries and the Q-values stored for each car.
- `race`: race configuration, bounded recent-race histories and action values.
- `table`, `text`: string-keyed tables, decimal text (written and parsed) and hexadecimal text.

`app/` holds the CosmWasm contracts around the library: messages, storage, address
validation, responses, and the floating-point parts of training configuration.
