# lib — the data core of an entity-component-system engine, verified

Entities carry components; entities with the same set of component types
share an archetype storage, one byte column per type. Systems reach
components through access keys, which lock columns shared or exclusively.

`src/` is the verified library:

- `data/` — the sparse set, the byte vector of equally sized elements, and
  typed values kept as bytes;
- `component/` — component types, component groups, archetype storages and
  their column locks, access keys and accesses, entity transforms, the
  archetype manager that moves entities between storages, and the cursor
  that walks the entities an access key reaches;
- `event.rs`, `resource.rs` — event queues and resource values by hash;
- `runtime.rs` — building systems' queries and the progress of the early
  phases;
- `debug.rs` — debug targets and message levels.

Each type has a mathematical model (a view or spec accessors); public
functions state their results over it, and the `law_*` proof functions state
what holds across calls.

`app/` is the rest of the engine: type identities, debug hooks and log files,
the thread-aware resource lock, the runtime loop, and the typed interface that
systems are written against. `tests/` runs the library.
