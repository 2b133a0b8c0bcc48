# factory_planner

The rules of a factory-building game, each function proved against its
contract: inventory stacking and spending, crafting and building
costs, belt topology, ore deposits, the data-pack loader and its checks,
research gating, settings cycling, save-file naming and versions, the
host's placement checks, the multiplayer line protocol and the room table of
the relay server.

Layout:

- `src/` — the verified library. `content/` holds the registry of items,
  recipes, machines and techs, the loader that builds it from a data pack
  (`pack.rs`) and the research rules (`tech.rs`).
- `tests/` — ordinary Rust tests of the library.
- `app/` — the program around it: window-free boot, file and network I/O,
  serde copies of the library's types, the relay server's threads, and the
  floating-point geometry and timing that stay outside the proofs.
