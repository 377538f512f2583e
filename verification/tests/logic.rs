use std::collections::HashSet;

use terrain_sim::app_state::{update_state, AppState};
use terrain_sim::chunks::{chunks_to_spawn, RENDER_DIST};
use terrain_sim::controls::{
    button_response, movement_direction, toggle_screen_mode, ButtonInteraction, ButtonShade,
    MoveDirection, MovementKeys, ScreenMode,
};
use terrain_sim::lod::{lod_subdivisions, FINEST_SUBDIVISIONS, LOD_COUNT};

#[test]
fn app_starts_running() {
    assert_eq!(AppState::default(), AppState::Running);
}

#[test]
fn escape_pauses_and_resumes() {
    assert_eq!(update_state(AppState::Running, true), Some(AppState::Paused));
    assert_eq!(update_state(AppState::Paused, true), Some(AppState::Running));
}

#[test]
fn no_key_no_transition() {
    assert_eq!(update_state(AppState::Running, false), None);
    assert_eq!(update_state(AppState::Paused, false), None);
}

#[test]
fn pressing_escape_twice_restores_state() {
    for s in [AppState::Running, AppState::Paused] {
        let once = update_state(s, true).unwrap();
        assert_ne!(once, s);
        assert_eq!(update_state(once, true), Some(s));
    }
}

#[test]
fn subdivision_table() {
    let table: Vec<u32> = (0..LOD_COUNT as usize).map(lod_subdivisions).collect();
    assert_eq!(table, vec![1024, 512, 256, 128, 64, 32]);
    assert_eq!(FINEST_SUBDIVISIONS, 1024);
}

#[test]
fn subdivisions_bottom_out_at_zero() {
    assert_eq!(lod_subdivisions(10), 1);
    assert_eq!(lod_subdivisions(11), 0);
    assert_eq!(lod_subdivisions(31), 0);
}

#[test]
fn each_level_halves_concrete() {
    for lod in 0..10 {
        assert_eq!(lod_subdivisions(lod), 2 * lod_subdivisions(lod + 1));
    }
}

fn in_disc(x: i32, z: i32) -> bool {
    x * x + z * z <= RENDER_DIST * RENDER_DIST
}

#[test]
fn empty_world_spawns_whole_disc() {
    let spawn = chunks_to_spawn(&Vec::new(), (0, 0));
    assert_eq!(spawn.len(), 3207);
    assert_eq!(spawn[0], (0, -32));
    assert_eq!(spawn[1], (-7, -31));
    assert_eq!(spawn[spawn.len() - 1], (7, 31));
    for &(x, z) in &spawn {
        assert!(in_disc(x, z));
    }
}

#[test]
fn scan_excludes_upper_edge_row() {
    let spawn = chunks_to_spawn(&Vec::new(), (0, 0));
    assert!(spawn.contains(&(0, -32)));
    assert!(!spawn.contains(&(0, 32)));
    assert!(spawn.contains(&(-32, 0)));
    assert!(!spawn.contains(&(32, 0)));
}

#[test]
fn spawn_is_relative_to_camera_cell() {
    let spawn = chunks_to_spawn(&Vec::new(), (100, -50));
    assert_eq!(spawn.len(), 3207);
    assert_eq!(spawn[0], (100, -82));
    assert_eq!(spawn[spawn.len() - 1], (107, -19));
}

#[test]
fn kept_cells_are_not_spawned_again() {
    let kept = vec![(0, 0), (1, 0), (0, -32), (500, 500)];
    let spawn = chunks_to_spawn(&kept, (0, 0));
    assert_eq!(spawn.len(), 3207 - 3);
    assert!(!spawn.contains(&(0, 0)));
    assert!(!spawn.contains(&(1, 0)));
    assert!(!spawn.contains(&(0, -32)));
    assert_eq!(spawn[0], (-7, -31));
}

#[test]
fn duplicate_kept_cells_are_harmless() {
    let kept = vec![(2, 3), (2, 3), (2, 3)];
    let spawn = chunks_to_spawn(&kept, (0, 0));
    assert_eq!(spawn.len(), 3206);
    assert!(!spawn.contains(&(2, 3)));
}

#[test]
fn planned_cells_are_distinct_and_cover_the_disc() {
    let kept = vec![(3, 4), (-10, 10)];
    let spawn = chunks_to_spawn(&kept, (7, -3));
    let set: HashSet<(i32, i32)> = spawn.iter().copied().collect();
    assert_eq!(set.len(), spawn.len());
    for z in -RENDER_DIST..RENDER_DIST {
        for x in -RENDER_DIST..RENDER_DIST {
            if in_disc(x, z) {
                let c = (7 + x, -3 + z);
                assert!(kept.contains(&c) || set.contains(&c));
            }
        }
    }
}

#[test]
fn replanning_after_spawning_is_empty() {
    let mut kept = vec![(0, 5), (9, 9)];
    let spawn = chunks_to_spawn(&kept, (1, 2));
    kept.extend(spawn);
    assert!(chunks_to_spawn(&kept, (1, 2)).is_empty());
}

#[test]
fn camera_cell_at_the_end_of_the_range_clamps() {
    let spawn = chunks_to_spawn(&Vec::new(), (i32::MAX, i32::MIN));
    assert_eq!(spawn[0], (i32::MAX, i32::MIN));
    for &(x, z) in &spawn {
        assert!(x >= i32::MAX - 32);
        assert!(z <= i32::MIN + 31);
    }
}

#[test]
fn movement_keys_map_to_axes() {
    let none = MovementKeys { forward: false, backward: false, left: false, right: false, down: false, up: false };
    assert_eq!(movement_direction(none), MoveDirection { x: 0, y: 0, z: 0 });
    let w = MovementKeys { forward: true, ..none };
    assert_eq!(movement_direction(w), MoveDirection { x: 0, y: 0, z: -1 });
    let sd = MovementKeys { backward: true, right: true, ..none };
    assert_eq!(movement_direction(sd), MoveDirection { x: 1, y: 0, z: 1 });
    let a_shift = MovementKeys { left: true, down: true, ..none };
    assert_eq!(movement_direction(a_shift), MoveDirection { x: -1, y: -1, z: 0 });
    let space = MovementKeys { up: true, ..none };
    assert_eq!(movement_direction(space), MoveDirection { x: 0, y: 1, z: 0 });
}

#[test]
fn opposite_movement_keys_cancel() {
    let all = MovementKeys { forward: true, backward: true, left: true, right: true, down: true, up: true };
    assert_eq!(movement_direction(all), MoveDirection { x: 0, y: 0, z: 0 });
}

#[test]
fn button_shades_and_activation() {
    let p = button_response(ButtonInteraction::Pressed);
    assert!(p.activated);
    assert_eq!(p.shade, ButtonShade::LightGrey);
    let h = button_response(ButtonInteraction::Hovered);
    assert!(!h.activated);
    assert_eq!(h.shade, ButtonShade::DarkGrey);
    let i = button_response(ButtonInteraction::Idle);
    assert!(!i.activated);
    assert_eq!(i.shade, ButtonShade::Black);
}

#[test]
fn fullscreen_toggle() {
    assert_eq!(toggle_screen_mode(ScreenMode::Windowed), ScreenMode::BorderlessFullscreen);
    assert_eq!(toggle_screen_mode(ScreenMode::BorderlessFullscreen), ScreenMode::Windowed);
    assert_eq!(toggle_screen_mode(ScreenMode::Fullscreen), ScreenMode::Windowed);
    assert_eq!(
        toggle_screen_mode(toggle_screen_mode(ScreenMode::Windowed)),
        ScreenMode::Windowed
    );
}
