# venix

The core of a small entity component system, written in Verus with its
behaviour stated as contracts and proved.

## What is proved

- **Schedules** (`schedule`, `ordering`, `app`): the built-in frame
  schedules and their places; arranging registered schedules into an order
  that respects every `Before`/`After` constraint with `Startup` first, or
  the exact configuration error (duplicate, missing start-up, placement
  before start-up, missing target, cycle); the configuration life cycle of
  an application; the step plan each schedule runner follows; the ids given to the systems
  in execution order when the application is built.
- **System access** (`validation`, `resources`, `system_data`): a system's
  parameters are refused exactly when one parameter aliases itself, two
  parameters write the same component without disjoint filters, or two
  parameters write the same resource.
- **Storage** (`type_set`, `archetypes`, `registry`, `entity`): component
  sets in insertion order; the order-independent hash under which an
  archetype is found again; column moves; entity handle counts.
- **Change tracking** (`reactivity`, `generation`): change markers stamped
  with the generation and the writing system, under which every other
  system sees a change exactly once (a later system of the same frame at
  once, an earlier one in the next frame), with stale stamps cleared at the
  end of a frame; double-buffered addition markers, under which an entity
  added in one frame is reported in the next frame only.
- **Events** (`events`): what is sent in one frame is read, by every reader,
  in the next frame only.
- **Queries** (`filter`, `query`): `With`, `Without`, `Or`, `Not`, `AnyOf`,
  tuples, `Changed` and `Added`; which archetypes a query visits and which
  rows it keeps.
- **World** (`world`, `commands`): resources, event buffers, deferred
  commands; spawning with component values that queries read back, moving
  an entity between archetypes with its values, and despawns
  that remove the entity's row (the last row moving into its place) once
  no other handle is alive; the end-of-frame sync.

## Layout

- `src/` the verified library.
- `tests/` executable tests of the library.
- `app/` a small frame loop that runs systems along the computed schedule
  order and step plans, with handles that other threads can hold.

Outside crates: `indexmap` holds component sets and `fxhash` hashes them,
both behind small trusted wrappers whose contracts are stated in
`type_set.rs` and `archetypes.rs`; `parking_lot` is used by `app/`.
