# libgefs

The core of a small wgpu game engine, written in Verus.

`src/` is the verified library:

- `engine::storage` – game objects kept in one list per kind (`GameStorage`),
  with `add`, `retain` and `select_by_typeid` proved against a model of the
  lists as a map from kind to sequence.
- `engine::input` – keyboard/mouse (`InputPC`) and gamepad (`InputGamepad`)
  state, updated event by event; analog readings are kept as the bit patterns
  of the floats the devices report.
- `engine::graphics::name_map` – a map from names to values that keeps the
  order of first insertion.
- `engine::graphics::dependency` – the render-pass dependency graph, kept in a
  `solvent::DepGraph`, and what the library relies on from solvent.
- `engine::graphics::pipeline_manager` – pipelines by name, the submission
  order (every pass after its dependencies, the UI pass last) and the
  collection of queued command buffers in that order.
- `engine::graphics::resource_manager` – named bind group layouts, bind groups
  and buffers.
- `engine::graphics::shader_manager` – shader modules by name and stage, and
  the reading of the JSON shader configuration.
- `application` – the application state carried from frame to frame and its
  frame timer.

`app/` is the program around it: window and GPU setup with winit and wgpu,
shader compilation, pipeline building, the conversion of winit and gilrs
events, and the demos.
