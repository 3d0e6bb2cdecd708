# bevy_book

Game-programming building blocks for Bevy games, written in Verus and proved
against their contracts.

- `src/` is the verified library: health rules, AI state machines and behaviour
  trees, A* search on a grid (paths are valid and shortest), cave and dungeon
  generation from a seeded generator, tile maps stored in chunks, light reach
  on a grid, rollback and networking buffers, packet encoding, save files,
  asset hot reloading, semantic versions, module dependency ordering, release
  checklists and the flow of a small game.
- `tests/` runs the library on concrete values.
- `app/` holds what runs inside Bevy's ECS (components, systems, hooks,
  observers, plugins) and the floating-point parts (cameras, colours, physics,
  audio, animation, particles, layout, timing), calling the library for every
  integer rule.
