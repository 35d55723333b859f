# ferrum

A Minecraft 1.7.10 server whose core logic is a library verified with Verus.

- `src/` — the verified library: the wire format (VarInts, strings, slots,
  packets), chunked world storage and the chunk packet, the save format,
  inventories and window clicks, block placement and breaking rules (with
  the cascade of blocks that lose their support),
  redstone (power levels, component steps, dust resets, the tick), chat
  commands, and the integer parts of world generation (streams, permutation
  tables, biomes, the chunk buffer, surface columns, ore veins and trees).
  Every public function states its result in its `ensures`; the laws that
  relate several functions are public proof functions.
- `tests/` — tests on concrete values.
- `app/` — the server around the library: sockets and the async runtime,
  files, the console, and the floating-point parts of world generation
  (noise sampling, climate, terrain, decoration decisions).
