//! Translation of the windowing system's input into window events.

use vstd::prelude::*;

use crate::events::MouseButton;
use crate::router::WindowEventKind;

verus! {

broadcast use vstd::string::group_string_axioms;

/// A mouse button as the windowing system reports it.
#[derive(Debug, Clone, Copy, PartialEq, Eq, Structural)]
pub enum PointerButton {
    Left,
    Right,
    Middle,
    Back,
    Forward,
    Other(u16),
}

/// The button that the interface reacts to, if any.
pub open spec fn mouse_button_of(button: PointerButton) -> Option<MouseButton> {
    match button {
        PointerButton::Left => Some(MouseButton::Left),
        PointerButton::Right => Some(MouseButton::Right),
        PointerButton::Middle => Some(MouseButton::Middle),
        _ => None,
    }
}

/// The button that the interface reacts to: left, right and middle; no other.
pub fn convert_mouse_button(button: PointerButton) -> (r: Option<MouseButton>)
    ensures
        r == mouse_button_of(button),
{
    match button {
        PointerButton::Left => Some(MouseButton::Left),
        PointerButton::Right => Some(MouseButton::Right),
        PointerButton::Middle => Some(MouseButton::Middle),
        _ => None,
    }
}

/// The event of a mouse button going down (`pressed`) or up; none for a button that
/// the interface does not react to.
pub open spec fn mouse_event_of(pressed: bool, button: PointerButton) -> Option<WindowEventKind> {
    match mouse_button_of(button) {
        Some(b) => if pressed {
            Some(WindowEventKind::MouseDown(b))
        } else {
            Some(WindowEventKind::MouseUp(b))
        },
        None => None,
    }
}

/// The window event of a mouse button going down (`pressed`) or up.
pub fn mouse_input(pressed: bool, button: PointerButton) -> (r: Option<WindowEventKind>)
    ensures
        r == mouse_event_of(pressed, button),
{
    match convert_mouse_button(button) {
        Some(b) => if pressed {
            Some(WindowEventKind::MouseDown(b))
        } else {
            Some(WindowEventKind::MouseUp(b))
        },
        None => None,
    }
}

/// A logical key as the windowing system reports it.
#[derive(Debug, Clone)]
pub enum KeyName {
    Tab,
    Backspace,
    Control,
    /// A key that produces these characters.
    Character(String),
    /// Any other key.
    Other,
}

/// A key going down (`pressed`) or up, with the text it produces.
#[derive(Debug, Clone)]
pub struct KeyPress {
    pub pressed: bool,
    pub key: KeyName,
    pub text: Option<String>,
}

/// The text that a key press types: none for a release, Tab or Backspace.
pub open spec fn typed_text(event: KeyPress) -> Option<String> {
    if !event.pressed || event.key is Tab || event.key is Backspace {
        None
    } else {
        event.text
    }
}

/// The text that a key press types: none for a release, Tab or Backspace.
pub fn key_input(event: &KeyPress) -> (r: Option<String>)
    ensures
        r == typed_text(*event),
{
    if !event.pressed {
        return None;
    }
    match &event.key {
        KeyName::Tab => return None,
        KeyName::Backspace => return None,
        _ => {},
    }
    match &event.text {
        Some(txt) => Some(txt.clone()),
        None => None,
    }
}

/// The key that pastes while control is held.
pub open spec fn is_paste_key(c: String) -> bool {
    c@ == seq!['v']
}

/// What the caller does for a key event, in order.
#[derive(Debug, Clone)]
pub enum KeyAction {
    /// Queue this window event.
    Push(WindowEventKind),
    /// Queue an `Input` event with the text of the clipboard.
    Paste,
}

/// The actions for a key event when control was held (`control`), and whether control
/// is held afterwards.
///
/// Tab moves the selection; control+v pastes; the typed text goes in as input unless
/// control is held.
pub open spec fn key_actions(control: bool, event: KeyPress) -> (Seq<KeyAction>, bool) {
    let (first, control_after) = if event.pressed {
        match event.key {
            KeyName::Tab => (seq![KeyAction::Push(WindowEventKind::SelectNext)], control),
            KeyName::Control => (Seq::<KeyAction>::empty(), true),
            KeyName::Character(c) => if control && is_paste_key(c) {
                (seq![KeyAction::Paste], control)
            } else {
                (Seq::<KeyAction>::empty(), control)
            },
            _ => (Seq::<KeyAction>::empty(), control),
        }
    } else {
        match event.key {
            KeyName::Control => (Seq::<KeyAction>::empty(), false),
            _ => (Seq::<KeyAction>::empty(), control),
        }
    };
    match typed_text(event) {
        Some(t) => if !control_after {
            (first.push(KeyAction::Push(WindowEventKind::Input(t))), control_after)
        } else {
            (first, control_after)
        },
        None => (first, control_after),
    }
}

/// Law of typing: control is held after an event exactly when the event presses it, or
/// it was held and the event does not release it; a key going down that is neither Tab
/// nor Backspace and types some text, whatever key it is, queues that text as input
/// last, unless control is held afterwards.
pub proof fn lemma_typed_text_is_input(control: bool, event: KeyPress)
    ensures
        key_actions(control, event).1 == if event.key is Control {
            event.pressed
        } else {
            control
        },
        event.pressed && !(event.key is Tab) && !(event.key is Backspace) && event.text is Some
            && !key_actions(control, event).1 ==> {
            &&& key_actions(control, event).0.len() > 0
            &&& key_actions(control, event).0.last() == KeyAction::Push(
                WindowEventKind::Input(event.text->0),
            )
        },
        !event.pressed || event.key is Tab || event.key is Backspace || event.text is None
            || key_actions(control, event).1 ==> forall|i: int|
            0 <= i < key_actions(control, event).0.len() ==> !(
            #[trigger] key_actions(control, event).0[i] is Push && key_actions(control, event).0[i]->Push_0 is Input),
{
}

/// Law of typing, for the text alone: a key event types its text exactly when the key
/// goes down and is neither Tab nor Backspace.
pub proof fn lemma_typed_text(event: KeyPress)
    ensures
        typed_text(event) == if event.pressed && !(event.key is Tab) && !(event.key is Backspace) {
            event.text
        } else {
            None
        },
{
}

/// The actions for a key event and whether control is held afterwards.
pub fn key_event(control: bool, event: &KeyPress) -> (r: (Vec<KeyAction>, bool))
    ensures
        r.0@ == key_actions(control, *event).0,
        r.1 == key_actions(control, *event).1,
{
    let mut actions: Vec<KeyAction> = Vec::new();
    let mut control_after = control;
    if event.pressed {
        match &event.key {
            KeyName::Tab => {
                actions.push(KeyAction::Push(WindowEventKind::SelectNext));
                assert(actions@ =~= seq![KeyAction::Push(WindowEventKind::SelectNext)]);
            },
            KeyName::Control => {
                control_after = true;
            },
            KeyName::Character(c) => {
                if control {
                    let v = "v".to_owned();
                    proof {
                        reveal_strlit("v");
                    }
                    assert(v@ == seq!['v']);
                    if *c == v {
                        actions.push(KeyAction::Paste);
                        assert(actions@ =~= seq![KeyAction::Paste]);
                    } else {
                        assert(!is_paste_key(*c));
                    }
                }
            },
            _ => {},
        }
    } else {
        match &event.key {
            KeyName::Control => {
                control_after = false;
            },
            _ => {},
        }
    }
    match key_input(event) {
        Some(t) => {
            if !control_after {
                actions.push(KeyAction::Push(WindowEventKind::Input(t)));
            }
        },
        None => {},
    }
    (actions, control_after)
}

/// The window event of a key event on its own, without held keys: a key that produces
/// characters types them when it goes down, Tab going down moves the selection, and a
/// key going up gives nothing.
pub open spec fn plain_key_event_of(event: KeyPress) -> Option<WindowEventKind> {
    match event.key {
        KeyName::Character(c) => if event.pressed {
            Some(WindowEventKind::Input(c))
        } else {
            None
        },
        KeyName::Tab => if event.pressed {
            Some(WindowEventKind::SelectNext)
        } else {
            None
        },
        _ => None,
    }
}

/// The window event of a key event on its own, without held keys.
pub fn plain_key_event(event: &KeyPress) -> (r: Option<WindowEventKind>)
    ensures
        r == plain_key_event_of(*event),
{
    match &event.key {
        KeyName::Character(c) => if event.pressed {
            Some(WindowEventKind::Input(c.clone()))
        } else {
            None
        },
        KeyName::Tab => if event.pressed {
            Some(WindowEventKind::SelectNext)
        } else {
            None
        },
        _ => None,
    }
}

} // verus!
