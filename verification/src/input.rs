//! What the mouse does to the selected object: nothing while no button is
//! held, panning while the middle button is held, rotating while the right
//! one is. A drag is measured from the cursor position of the frame before,
//! so the first frame of a drag only notes where the cursor is.

use vstd::prelude::*;

verus! {

/// The mouse button that counts as held.
#[derive(Debug, Clone, Copy, PartialEq, Eq, Structural)]
pub enum MouseButtonHeld {
    Neither,
    Middle,
    Right,
}

/// What a frame does with the cursor.
#[derive(Debug, Clone, Copy, PartialEq, Eq, Structural)]
pub enum MouseAction {
    /// Forget the last cursor position.
    Release,
    /// Note the cursor position and move nothing.
    Track,
    /// Move the object by the way the cursor went, then note its position.
    Pan,
    /// Turn the object by the way the cursor went, then note its position.
    Rotate,
}

/// The button that counts as held, of the two that do anything: the middle
/// button wins over the right one.
pub fn held_button(middle_down: bool, right_down: bool) -> (held: MouseButtonHeld)
    ensures
        held == if middle_down {
            MouseButtonHeld::Middle
        } else if right_down {
            MouseButtonHeld::Right
        } else {
            MouseButtonHeld::Neither
        },
{
    if middle_down {
        MouseButtonHeld::Middle
    } else if right_down {
        MouseButtonHeld::Right
    } else {
        MouseButtonHeld::Neither
    }
}

/// What to do this frame, given the button held and whether a cursor
/// position is known from the frame before.
pub fn mouse_action(held: MouseButtonHeld, position_known: bool) -> (action: MouseAction)
    ensures
        action == match held {
            MouseButtonHeld::Neither => MouseAction::Release,
            MouseButtonHeld::Middle => if position_known {
                MouseAction::Pan
            } else {
                MouseAction::Track
            },
            MouseButtonHeld::Right => if position_known {
                MouseAction::Rotate
            } else {
                MouseAction::Track
            },
        },
{
    match held {
        MouseButtonHeld::Neither => MouseAction::Release,
        MouseButtonHeld::Middle => if position_known {
            MouseAction::Pan
        } else {
            MouseAction::Track
        },
        MouseButtonHeld::Right => if position_known {
            MouseAction::Rotate
        } else {
            MouseAction::Track
        },
    }
}

} // verus!
