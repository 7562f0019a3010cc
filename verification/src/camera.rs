//! Which camera controller is in use, how that choice is cached on disk, and
//! which mouse buttons make a controller turn or pan the camera, and which
//! way the keys move the free-flying camera.

use vstd::prelude::*;
use vstd::std_specs::convert::FromSpecImpl;
use vstd::std_specs::convert::FromSpec;
use crate::input::CursorCaptureRequest;
use crate::input::WindowKeyboardInputs;

verus! {

/// The camera controller in use.
#[derive(Debug, Clone, Copy, PartialEq, Eq, Structural)]
pub enum ChosenKind {
    Orbitcam,
    Freecam,
}

/// The controller choice as the desktop application stores it in its cache file.
#[derive(Debug, Clone, Copy, PartialEq, Eq, Structural)]
pub enum CachedChosenController {
    Orbitcam,
    Freecam,
}

impl From<ChosenKind> for CachedChosenController {
    fn from(kind: ChosenKind) -> (r: Self) {
        match kind {
            ChosenKind::Orbitcam => CachedChosenController::Orbitcam,
            ChosenKind::Freecam => CachedChosenController::Freecam,
        }
    }
}

impl FromSpecImpl<ChosenKind> for CachedChosenController {
    open spec fn obeys_from_spec() -> bool {
        true
    }

    open spec fn from_spec(kind: ChosenKind) -> Self {
        match kind {
            ChosenKind::Orbitcam => CachedChosenController::Orbitcam,
            ChosenKind::Freecam => CachedChosenController::Freecam,
        }
    }
}

impl From<CachedChosenController> for ChosenKind {
    fn from(cached: CachedChosenController) -> (r: Self) {
        match cached {
            CachedChosenController::Orbitcam => ChosenKind::Orbitcam,
            CachedChosenController::Freecam => ChosenKind::Freecam,
        }
    }
}

impl FromSpecImpl<CachedChosenController> for ChosenKind {
    open spec fn obeys_from_spec() -> bool {
        true
    }

    open spec fn from_spec(cached: CachedChosenController) -> Self {
        match cached {
            CachedChosenController::Orbitcam => ChosenKind::Orbitcam,
            CachedChosenController::Freecam => ChosenKind::Freecam,
        }
    }
}

/// Caching the controller choice and reading it back gives the same choice,
/// and the other way round.
pub proof fn lemma_chosen_kind_round_trip(kind: ChosenKind, cached: CachedChosenController)
    ensures
        <ChosenKind as FromSpec<CachedChosenController>>::from_spec(
            <CachedChosenController as FromSpec<ChosenKind>>::from_spec(kind),
        ) == kind,
        <CachedChosenController as FromSpec<ChosenKind>>::from_spec(
            <ChosenKind as FromSpec<CachedChosenController>>::from_spec(cached),
        ) == cached,
{
}

/// What a camera controller does in a frame, decided from the held buttons.
#[derive(Debug, Clone, Copy, PartialEq, Eq, Structural)]
pub struct ControllerActions {
    /// Turn the camera by the mouse motion.
    pub rotate: bool,
    /// Pan the camera by the mouse motion.
    pub pan: bool,
    /// What the cursor has to do.
    pub cursor: CursorCaptureRequest,
}

/// The free-flying camera turns while the right button is held and pans while
/// the middle button is held; the cursor is locked while it does either.
pub fn freecam_actions(right_held: bool, middle_held: bool) -> (r: ControllerActions)
    ensures
        r.rotate == right_held,
        r.pan == middle_held,
        r.cursor == if right_held || middle_held {
            CursorCaptureRequest::LockedAndHidden
        } else {
            CursorCaptureRequest::Free
        },
{
    let mut cursor_capture = CursorCaptureRequest::Free;
    if right_held {
        cursor_capture = CursorCaptureRequest::LockedAndHidden;
    }
    if middle_held {
        cursor_capture = CursorCaptureRequest::LockedAndHidden;
    }
    ControllerActions { rotate: right_held, pan: middle_held, cursor: cursor_capture }
}

/// The orbiting camera turns while the right button is held, or the left one
/// together with Control, and pans while the left button is held; the cursor
/// is locked while it does either.
pub fn orbitcam_actions(left_held: bool, right_held: bool, control_held: bool) -> (r:
    ControllerActions)
    ensures
        r.rotate == (right_held || (left_held && control_held)),
        r.pan == left_held,
        r.cursor == if r.rotate || r.pan {
            CursorCaptureRequest::LockedAndHidden
        } else {
            CursorCaptureRequest::Free
        },
{
    let mut cursor_capture = CursorCaptureRequest::Free;
    let rotate = right_held || (left_held && control_held);
    if rotate {
        cursor_capture = CursorCaptureRequest::LockedAndHidden;
    }
    if left_held {
        cursor_capture = CursorCaptureRequest::LockedAndHidden;
    }
    ControllerActions { rotate, pan: left_held, cursor: cursor_capture }
}

/// The physical key codes that move the free-flying camera.
#[derive(Debug, Clone, Copy, PartialEq, Eq, Structural)]
pub struct MovementKeys {
    pub forward: u32,
    pub back: u32,
    pub right: u32,
    pub left: u32,
    pub up: u32,
    pub shift_left: u32,
    pub shift_right: u32,
}

/// 1 when the key is held, else 0.
pub open spec fn held_count(held: Set<u32>, key: u32) -> int {
    if held.contains(key) {
        1
    } else {
        0
    }
}

/// The direction the held keys move the camera in, in camera space with
/// right = +x, up = +y and forward = -z: each held key adds its unit axis, so
/// opposite keys cancel, and either Shift key moves down.
pub fn input_to_direction(keyboard: &WindowKeyboardInputs, keys: &MovementKeys) -> (r: (
    i8,
    i8,
    i8,
))
    ensures
        r.0 == held_count(keyboard.physical_held@, keys.right) - held_count(
            keyboard.physical_held@,
            keys.left,
        ),
        r.1 == (if keyboard.physical_held@.contains(keys.up) {
            1int
        } else {
            0
        }) - (if keyboard.physical_held@.contains(keys.shift_left)
            || keyboard.physical_held@.contains(keys.shift_right) {
            1int
        } else {
            0
        }),
        r.2 == held_count(keyboard.physical_held@, keys.back) - held_count(
            keyboard.physical_held@,
            keys.forward,
        ),
{
    let mut x: i8 = 0;
    let mut y: i8 = 0;
    let mut z: i8 = 0;
    if keyboard.pressed_physical(keys.forward) {
        z = z - 1;
    }
    if keyboard.pressed_physical(keys.back) {
        z = z + 1;
    }
    if keyboard.pressed_physical(keys.right) {
        x = x + 1;
    }
    if keyboard.pressed_physical(keys.left) {
        x = x - 1;
    }
    if keyboard.pressed_physical(keys.up) {
        y = y + 1;
    }
    if keyboard.pressed_physical(keys.shift_left) || keyboard.pressed_physical(keys.shift_right) {
        y = y - 1;
    }
    (x, y, z)
}

} // verus!
