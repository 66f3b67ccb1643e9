# synth-ui

A visual patch editor for a modular synthesizer. The editor's logic is a library verified with
Verus; the window, the GPU, the sound device and files are ordinary Rust around it.

- `src/` is the library.
  - `model`, `text`: the patch, the module types, and strings.
  - `graph`, `segments`, `hit`, `edit`: the geometry of nodes and wires, hit-testing, and edits.
  - `dag`, `cycles`, `topo`, `layers`, `barycenter`, `flow`, `columns`, `layout`: the layered
    autolayout.
  - `audio`, `editor`, `actions`: starting and stopping the sound, and what the pointer, keys and
    the chrome do.
  - `atlas`, `render`: icons, and the triangles and lines of the scene.
  - `chrome`, `dock`: the palette, the bars, and the tree of docked tiles, which `egui_tiles` holds.
- `tests/` runs the library on concrete values.
- `app/` is the program: camera, wgpu renderer, egui panels, winit event loop, and the engine.

The library computes with whole micrometers. Points of the world plane and positions in the layout
are types of the caller that the library only carries; what depends on floating point (where a
point at an offset is, how far two points are apart) comes from functions that the caller passes.
Distances come in as integers that order as the distances do.

Proof functions whose names begin with `law_` state what holds of the library as a whole. What
`egui_tiles` does is stated in the wrappers of `dock`, which are the only trusted items.
