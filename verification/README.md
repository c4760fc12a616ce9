# galeon_engine

An entity-component-system game engine core, written in Verus: the
functions under `src/` are proved against their contracts. Where a result
comes from outside the library, the contract says what holds whatever
came back: the system clock (`Timestamp::now`), or a system or handler
that the library's user writes, whose own `ran` / `answers` relation the
schedule and the dispatchers pass on.

## Layout

- `src/` — the verified library.
  - `entity`, `archetype`, `world`, `resource`, `commands`, `event`,
    `deadline`: entity allocation with generations, archetype storage with
    change ticks, queries, deferred commands, double-buffered events and
    deadline queues.
  - `system_param`, `function_system`, `schedule`, `engine`: access
    declarations and conflict detection, systems, staged schedules.
  - `handler`, `handler_function`: request handler registry and handlers.
  - `manifest`, `route_scanner`, `protocol`, `protocol_attr`: the protocol
    manifest, filesystem route scanning, route resolution and axum glue
    generation, and the rules of the protocol attributes.
  - `extract`: which entities a render frame carries, their parent ids,
    hierarchy order and change flags.
  - `data`, `hot_reload`, `heightmap`, `particle`, `render`,
    `render_channel`, `selection`: data registries, asset events, heightmap
    grid checks and 16-bit grayscale PNG decoding, the particle random
    stream, render components and channels, selection.
  - `text`: strings as character sequences (order, search, building).
- `app/` — ordinary Rust around the library: JSON and RON serialization,
  file and watcher I/O, and the floating-point parts (timing, terrain
  sampling, particle sampling, frame packets with their payload and custom
  channels, the debug snapshot).
- `tests/` — tests run against the compiled library.
