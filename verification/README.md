# engine_2d

A small 2D game engine with an entity–component store and a software
renderer, and *Stellar Dodge*, a demo game built on it.

The engine's core is written in Verus and proved against its contracts:

- `src/color.rs` — RGBA colours, packing to `0x00RRGGBB`, alpha blending.
- `src/ecs.rs` — the entity–component `World`: spawning, deferred despawn
  and flush, components kept per kind in hash maps keyed by entity id,
  queries; `EntityBuilder`.
- `src/renderer.rs` — the pixel `Canvas` (clear, pixels, clipped rectangles,
  filled discs, Bresenham lines, midpoint circles), `Texture`, and the
  built-in 6×8 bitmap font.
- `src/input.rs` — keys (in hash sets of key codes) and mouse buttons held
  this frame and the last.
- `src/systems.rs` — the order in which sprites are drawn (by layer, stable).
- `src/random.rs` — the xorshift64 generator.
- `src/components.rs` — text tags.

Each module also states the laws the library keeps (`law_*` proof
functions): a component read back after it was added is the one added, a
despawned entity is gone with all its components after the flush, a line
runs from end to end with one pixel per step, a circle outline is
symmetric and stays within a pixel or so of its radius, and so on. Line
and circle drawing require exactly that their i32 arithmetic does not
overflow; `line_fits` and `circle_fits` test this at run time.

`app/` holds what needs floating point or a window: vector math, the
float-valued components (transform, velocity, sprite, collider, health,
lifetime), drawing in world coordinates with a camera, the minifb window
loop, and the game itself. It calls into the verified core for every pixel,
every component and every key.

`tests/` exercises the library on concrete values.
