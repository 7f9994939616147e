//! Events as the simulation reads them: a clock tick, a button changing
//! state, or the cursor moving. Whoever captures the input turns it
//! into these values; cursor positions arrive in world sub-units.

use vstd::prelude::*;

verus! {

/// The keys the game reacts to.
#[derive(Debug, Clone, Copy, PartialEq, Eq, Structural)]
pub enum Key {
    A,
    D,
    R,
    Space,
    Other,
}

/// The mouse buttons the game reacts to.
#[derive(Debug, Clone, Copy, PartialEq, Eq, Structural)]
pub enum MouseButton {
    Left,
    Other,
}

/// A button of the keyboard, of the mouse, or of some other device.
#[derive(Debug, Clone, Copy, PartialEq, Eq, Structural)]
pub enum Button {
    Keyboard(Key),
    Mouse(MouseButton),
    Other,
}

/// Whether a button went down or came up.
#[derive(Debug, Clone, Copy, PartialEq, Eq, Structural)]
pub enum ButtonState {
    Press,
    Release,
}

/// One event of the event loop.
#[derive(Debug, Clone, Copy, PartialEq, Eq, Structural)]
pub enum Event {
    /// A simulation tick of `dt` microseconds.
    Update { dt: u32 },
    /// A button changed state.
    Button { button: Button, state: ButtonState },
    /// The cursor moved to `(x, y)`, in world sub-units.
    MouseCursor { x: i64, y: i64 },
    /// Anything else, a render frame for instance.
    Other,
}

impl Event {
    /// The event is a press of the key `R`, which restarts the round.
    pub open spec fn is_restart(&self) -> bool {
        *self == (Event::Button { button: Button::Keyboard(Key::R), state: ButtonState::Press })
    }

    /// Whether the event is a press of the key `R`.
    pub fn restarts(&self) -> (r: bool)
        ensures
            r == self.is_restart(),
    {
        match self {
            Event::Button { button: Button::Keyboard(Key::R), state: ButtonState::Press } => true,
            _ => false,
        }
    }
}

} // verus!
