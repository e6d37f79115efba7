use rugui::events::MouseButton;
use rugui::input::{
    convert_mouse_button, key_event, key_input, mouse_input, plain_key_event, KeyAction, KeyName,
    KeyPress, PointerButton,
};
use rugui::router::WindowEventKind;

fn press(key: KeyName, text: Option<&str>) -> KeyPress {
    KeyPress { pressed: true, key, text: text.map(|t| t.to_string()) }
}

#[test]
fn only_three_buttons_are_known() {
    assert_eq!(convert_mouse_button(PointerButton::Left), Some(MouseButton::Left));
    assert_eq!(convert_mouse_button(PointerButton::Right), Some(MouseButton::Right));
    assert_eq!(convert_mouse_button(PointerButton::Middle), Some(MouseButton::Middle));
    assert_eq!(convert_mouse_button(PointerButton::Back), None);
    assert_eq!(convert_mouse_button(PointerButton::Other(7)), None);
    assert!(matches!(mouse_input(true, PointerButton::Left), Some(WindowEventKind::MouseDown(MouseButton::Left))));
    assert!(matches!(mouse_input(false, PointerButton::Middle), Some(WindowEventKind::MouseUp(MouseButton::Middle))));
    assert!(mouse_input(true, PointerButton::Forward).is_none());
}

#[test]
fn typed_text_skips_release_tab_and_backspace() {
    assert_eq!(key_input(&press(KeyName::Character("a".to_string()), Some("a"))), Some("a".to_string()));
    assert_eq!(key_input(&press(KeyName::Tab, Some("\t"))), None);
    assert_eq!(key_input(&press(KeyName::Backspace, None)), None);
    let release = KeyPress { pressed: false, key: KeyName::Other, text: Some("q".to_string()) };
    assert_eq!(key_input(&release), None);
}

#[test]
fn tab_selects_and_text_is_input() {
    let (actions, control) = key_event(false, &press(KeyName::Tab, None));
    assert!(!control);
    assert_eq!(actions.len(), 1);
    assert!(matches!(actions[0], KeyAction::Push(WindowEventKind::SelectNext)));
    let (actions, _) = key_event(false, &press(KeyName::Character("b".to_string()), Some("b")));
    assert_eq!(actions.len(), 1);
    match &actions[0] {
        KeyAction::Push(WindowEventKind::Input(t)) => assert_eq!(t, "b"),
        _ => panic!("expected input"),
    }
}

#[test]
fn control_v_pastes_and_control_blocks_typing() {
    let (actions, control) = key_event(false, &press(KeyName::Control, None));
    assert!(control);
    assert!(actions.is_empty());
    let (actions, control) = key_event(true, &press(KeyName::Character("v".to_string()), Some("v")));
    assert!(control);
    assert_eq!(actions.len(), 1);
    assert!(matches!(actions[0], KeyAction::Paste));
    let (actions, _) = key_event(true, &press(KeyName::Character("c".to_string()), Some("c")));
    assert!(actions.is_empty());
    let release = KeyPress { pressed: false, key: KeyName::Control, text: None };
    let (actions, control) = key_event(true, &release);
    assert!(!control);
    assert!(actions.is_empty());
    // without control, "v" is plain text
    let (actions, _) = key_event(false, &press(KeyName::Character("v".to_string()), Some("v")));
    assert!(matches!(&actions[0], KeyAction::Push(WindowEventKind::Input(t)) if t == "v"));
}

#[test]
fn plain_key_events() {
    assert!(matches!(plain_key_event(&press(KeyName::Tab, None)), Some(WindowEventKind::SelectNext)));
    let release_tab = KeyPress { pressed: false, key: KeyName::Tab, text: None };
    assert!(plain_key_event(&release_tab).is_none());
    let release_char = KeyPress { pressed: false, key: KeyName::Character("z".to_string()), text: None };
    assert!(plain_key_event(&release_char).is_none());
    let press_char = press(KeyName::Character("z".to_string()), Some("z"));
    assert!(matches!(plain_key_event(&press_char), Some(WindowEventKind::Input(t)) if t == "z"));
    assert!(plain_key_event(&press(KeyName::Control, None)).is_none());
}
