//! Decision logic of a terrain-flythrough viewer: the run/pause state machine,
//! the level-of-detail table of terrain chunks, the planning of which chunk
//! cells to spawn around the camera, and the mapping from controls to actions.

pub mod app_state;
pub mod chunks;
pub mod lod;
pub mod controls;
