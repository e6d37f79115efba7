# rugui

A retained-mode GUI core: a tree of elements keyed by `ElementKey`, event
listeners on each element, and a router that turns window events into
deliveries for the application.

- `src/` is the verified library (Verus): the element store (`gui.rs`), the
  drawing/selection order (`order.rs`), event routing with `Listen`, `Peek` and
  `Force` listeners (`router.rs`), keyboard/pointer translation (`input.rs`),
  element data (`element.rs`, `listeners.rs`, `events.rs`) and style containers
  (`styles.rs`). Laws of the router, the selection cycle, hovering and the tree
  walk are stated and proved as public proof functions.
- `app/` is ordinary Rust around it: geometry and styles in floating point,
  the wgpu renderer, textures, fonts, clipboard, and the winit glue that feeds
  events to `Gui::resolve_event` and hit-test results back.
- `tests/` runs the library on concrete trees and events.
