//! Event vocabulary shared by the element tree and the event router.

use vstd::prelude::*;

verus! {

/// A mouse button that the interface reacts to.
#[derive(Debug, Clone, Copy, PartialEq, Eq, Structural)]
pub enum MouseButton {
    Left,
    Right,
    Middle,
}

/// The kinds of events that an element can listen to.
#[derive(Debug, Clone, Copy, PartialEq, Eq, Structural, Hash)]
pub enum EventTypes {
    MouseDown,
    MouseUp,
    MouseMove,
    MouseEnter,
    MouseLeave,
    Scroll,
    Input,
    Select,
}

/// Element response to an event.
#[derive(Debug, Clone, Copy, PartialEq, Eq, Structural)]
pub enum EventResponse {
    Consumed,
    Ignored,
}

} // verus!
