# terrain_sim

Verified decision logic of a procedural-terrain flythrough viewer.

- `src/` is the library, verified with Verus:
  - `app_state`: the run/pause state machine driven by the pause key;
  - `lod`: the subdivision counts of the terrain chunk meshes per level of detail;
  - `chunks`: which chunk cells to spawn in the render disc around the camera,
    using the engine's hash set for the cells that are kept;
  - `controls`: movement keys to a flight direction, menu button responses,
    and the fullscreen toggle.
- `app/main.rs` is the engine program around it: windowing, rendering, the
  floating-point camera and time handling, and the user interface.
