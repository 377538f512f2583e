use vstd::prelude::*;

verus! {

/// Whether the simulation is advancing or paused behind the pause menu.
#[derive(Clone, Copy, Debug, PartialEq, Eq, Hash, Structural)]
pub enum AppState {
    Running,
    Paused,
}

impl Default for AppState {
    fn default() -> (s: Self)
        ensures
            s == AppState::Running,
    {
        AppState::Running
    }
}

/// The state that the other state leads to when the pause key is pressed.
pub open spec fn toggled(s: AppState) -> AppState {
    match s {
        AppState::Running => AppState::Paused,
        AppState::Paused => AppState::Running,
    }
}

/// Decides the state transition of one frame: when the pause key was just
/// pressed, the next state is the other one; otherwise no transition is queued.
pub fn update_state(state: AppState, pause_just_pressed: bool) -> (next: Option<AppState>)
    ensures
        pause_just_pressed && state == AppState::Running ==> next == Some(AppState::Paused),
        pause_just_pressed && state == AppState::Paused ==> next == Some(AppState::Running),
        pause_just_pressed ==> next == Some(toggled(state)),
        !pause_just_pressed ==> next.is_none(),
{
    if pause_just_pressed {
        Some(
            match state {
                AppState::Running => AppState::Paused,
                AppState::Paused => AppState::Running,
            },
        )
    } else {
        None
    }
}

/// Pressing the pause key always changes the state, and pressing it twice
/// brings back the state that was left.
pub proof fn lemma_toggle_twice_restores(s: AppState)
    ensures
        toggled(s) != s,
        toggled(toggled(s)) == s,
{
}

} // verus!
