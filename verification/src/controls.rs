use vstd::prelude::*;

verus! {

/// Which of the six movement keys are held: W, S, A, D, left Shift and Space.
#[derive(Clone, Copy, Debug, PartialEq, Eq, Structural)]
pub struct MovementKeys {
    pub forward: bool,
    pub backward: bool,
    pub left: bool,
    pub right: bool,
    pub down: bool,
    pub up: bool,
}

/// A direction of flight in camera space, each component -1, 0 or 1,
/// before it is normalised and scaled by the speed.
#[derive(Clone, Copy, Debug, PartialEq, Eq, Structural)]
pub struct MoveDirection {
    pub x: i8,
    pub y: i8,
    pub z: i8,
}

/// The component along one axis: +1 for the positive key, -1 for the negative
/// key, and the two cancel when both are held.
pub open spec fn axis(negative: bool, positive: bool) -> int {
    (if positive { 1int } else { 0int }) - (if negative { 1int } else { 0int })
}

/// Direction of flight from the held keys: A/D move along -x/+x, left Shift and
/// Space along -y/+y, W and S along -z/+z (forward is -z in camera space).
pub fn movement_direction(keys: MovementKeys) -> (d: MoveDirection)
    ensures
        d.x == (if keys.right { 1int } else { 0int }) - (if keys.left { 1int } else { 0int }),
        d.y == (if keys.up { 1int } else { 0int }) - (if keys.down { 1int } else { 0int }),
        d.z == (if keys.backward { 1int } else { 0int }) - (if keys.forward { 1int } else { 0int }),
        d.x == axis(keys.left, keys.right),
        d.y == axis(keys.down, keys.up),
        d.z == axis(keys.forward, keys.backward),
{
    let mut d = MoveDirection { x: 0, y: 0, z: 0 };
    if keys.forward {
        d.z = d.z - 1;
    }
    if keys.backward {
        d.z = d.z + 1;
    }
    if keys.left {
        d.x = d.x - 1;
    }
    if keys.right {
        d.x = d.x + 1;
    }
    if keys.down {
        d.y = d.y - 1;
    }
    if keys.up {
        d.y = d.y + 1;
    }
    d
}

/// Holding both keys of an axis cancels the movement along it, and every
/// component of the direction is -1, 0 or 1.
pub proof fn lemma_opposite_keys_cancel(negative: bool, positive: bool)
    ensures
        negative == positive ==> axis(negative, positive) == 0,
        -1 <= axis(negative, positive) <= 1,
{
}

/// The pointer's interaction with a menu button.
#[derive(Clone, Copy, Debug, PartialEq, Eq, Structural)]
pub enum ButtonInteraction {
    Pressed,
    Hovered,
    Idle,
}

/// Background of a menu button: light grey while pressed, dark grey while
/// hovered, black otherwise.
#[derive(Clone, Copy, Debug, PartialEq, Eq, Structural)]
pub enum ButtonShade {
    LightGrey,
    DarkGrey,
    Black,
}

/// How a menu button answers a change of its interaction: its new background,
/// and whether its action (toggling fullscreen, stepping the time) is performed.
#[derive(Clone, Copy, Debug, PartialEq, Eq, Structural)]
pub struct ButtonResponse {
    pub shade: ButtonShade,
    pub activated: bool,
}

/// The answer of a menu button to a new interaction: pressing performs the
/// action and shows light grey, hovering shows dark grey, leaving shows black.
pub fn button_response(interaction: ButtonInteraction) -> (r: ButtonResponse)
    ensures
        r.activated <==> interaction == ButtonInteraction::Pressed,
        interaction == ButtonInteraction::Pressed ==> r.shade == ButtonShade::LightGrey,
        interaction == ButtonInteraction::Hovered ==> r.shade == ButtonShade::DarkGrey,
        interaction == ButtonInteraction::Idle ==> r.shade == ButtonShade::Black,
{
    match interaction {
        ButtonInteraction::Pressed => ButtonResponse { shade: ButtonShade::LightGrey, activated: true },
        ButtonInteraction::Hovered => ButtonResponse { shade: ButtonShade::DarkGrey, activated: false },
        ButtonInteraction::Idle => ButtonResponse { shade: ButtonShade::Black, activated: false },
    }
}

/// How the window is shown.
#[derive(Clone, Copy, Debug, PartialEq, Eq, Structural)]
pub enum ScreenMode {
    Windowed,
    BorderlessFullscreen,
    Fullscreen,
}

/// The mode that the fullscreen button switches to from `mode`.
pub open spec fn toggled_mode(mode: ScreenMode) -> ScreenMode {
    if mode == ScreenMode::Windowed {
        ScreenMode::BorderlessFullscreen
    } else {
        ScreenMode::Windowed
    }
}

/// The fullscreen button: a window becomes borderless fullscreen on the current
/// monitor, and any fullscreen mode becomes a window.
pub fn toggle_screen_mode(mode: ScreenMode) -> (next: ScreenMode)
    ensures
        mode == ScreenMode::Windowed ==> next == ScreenMode::BorderlessFullscreen,
        mode != ScreenMode::Windowed ==> next == ScreenMode::Windowed,
        next == toggled_mode(mode),
{
    match mode {
        ScreenMode::Windowed => ScreenMode::BorderlessFullscreen,
        _ => ScreenMode::Windowed,
    }
}

/// The button never selects exclusive fullscreen, always changes the mode, and
/// pressing it twice from a window or from borderless fullscreen returns there.
pub proof fn lemma_toggle_screen_mode_twice(mode: ScreenMode)
    ensures
        toggled_mode(mode) != ScreenMode::Fullscreen,
        toggled_mode(mode) != mode,
        mode != ScreenMode::Fullscreen ==> toggled_mode(toggled_mode(mode)) == mode,
{
}

} // verus!
