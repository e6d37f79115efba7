use rugui::element::{Children, Element, ElementKey};
use rugui::events::{EventTypes, MouseButton};
use rugui::gui::Gui;
use rugui::listeners::EventListenerTypes;
use rugui::router::{ElementEventKind, Flow, WindowEventKind};

/// Three stacked layers: `bottom`, `middle`, `top` (drawn in that order).
fn stack(
    bottom: Element<&'static str>,
    middle: Element<&'static str>,
    top: Element<&'static str>,
) -> (Gui<&'static str>, ElementKey, ElementKey, ElementKey) {
    let mut gui = Gui::new((100, 100));
    let b = gui.add_element(bottom);
    let m = gui.add_element(middle);
    let t = gui.add_element(top);
    let mut root = Element::new();
    root.children = Children::Layers(vec![b, m, t]);
    let root = gui.add_element(root);
    gui.set_entry(Some(root));
    gui.update_order();
    assert_eq!(gui.ordered().clone(), vec![root, b, m, t]);
    (gui, b, m, t)
}

#[test]
fn listen_consumes_and_force_still_hears() {
    let mut bottom = Element::new();
    bottom.events.force(EventTypes::MouseDown, "bottom-force");
    bottom.events.listen(EventTypes::MouseDown, "bottom-listen");
    let mut middle = Element::new();
    middle.events.listen(EventTypes::MouseDown, "middle-listen");
    let mut top = Element::new();
    top.events.peek(EventTypes::MouseDown, "top-peek");
    let (mut gui, b, m, t) = stack(bottom, middle, top);
    let hits = vec![true, true, true, true];
    let (d, flow) = gui.resolve_event(&WindowEventKind::MouseDown(MouseButton::Left), &hits);
    assert_eq!(flow, Flow::Continue);
    let got: Vec<(&str, ElementKey)> = d.iter().map(|x| (x.msg, x.key)).collect();
    assert_eq!(got, vec![("top-peek", t), ("middle-listen", m), ("bottom-force", b)]);
    assert!(d.iter().all(|x| x.event_type == EventTypes::MouseDown));
    assert!(d.iter().all(|x| x.kind == ElementEventKind::FromWindow));
    assert_eq!(d[2].listener_type, EventListenerTypes::Force);
}

#[test]
fn missed_elements_hear_nothing() {
    let mut bottom = Element::new();
    bottom.events.listen(EventTypes::MouseUp, "bottom");
    let mut middle = Element::new();
    middle.events.listen(EventTypes::MouseUp, "middle");
    let top = Element::new();
    let (mut gui, b, _m, _t) = stack(bottom, middle, top);
    let hits = vec![false, true, false, true];
    let (d, _) = gui.resolve_event(&WindowEventKind::MouseUp(MouseButton::Right), &hits);
    assert_eq!(d.len(), 1);
    assert_eq!(d[0].key, b);
    assert_eq!(d[0].msg, "bottom");
}

#[test]
fn peek_does_not_consume() {
    let mut bottom = Element::new();
    bottom.events.listen(EventTypes::Scroll, "bottom");
    let mut middle = Element::new();
    middle.events.peek(EventTypes::Scroll, "middle");
    let top = Element::new();
    let (mut gui, _, _, _) = stack(bottom, middle, top);
    let hits = vec![true; 4];
    let (d, _) = gui.resolve_event(&WindowEventKind::Scroll, &hits);
    let msgs: Vec<&str> = d.iter().map(|x| x.msg).collect();
    assert_eq!(msgs, vec!["middle", "bottom"]);
}

#[test]
fn cursor_move_updates_hover_and_tells_enter_and_leave() {
    let mut bottom = Element::new();
    bottom.events.listen(EventTypes::MouseEnter, "enter-bottom");
    bottom.events.listen(EventTypes::MouseLeave, "leave-bottom");
    let mut top = Element::new();
    top.events.listen(EventTypes::MouseEnter, "enter-top");
    top.events.listen(EventTypes::MouseMove, "move-top");
    let (mut gui, b, _m, t) = stack(bottom, Element::new(), top);
    let (d, flow) = gui.resolve_event(&WindowEventKind::MouseMove, &vec![true, true, false, false]);
    assert_eq!(flow, Flow::Continue);
    assert_eq!(gui.hover(), Some(b));
    assert_eq!(d.len(), 1);
    assert_eq!(d[0].msg, "enter-bottom");
    assert_eq!(d[0].event_type, EventTypes::MouseEnter);
    // same hover: no enter or leave
    let (d, _) = gui.resolve_event(&WindowEventKind::MouseMove, &vec![true, true, false, false]);
    assert!(d.is_empty());
    let (d, _) = gui.resolve_event(&WindowEventKind::MouseMove, &vec![true, true, true, true]);
    assert_eq!(gui.hover(), Some(t));
    let msgs: Vec<&str> = d.iter().map(|x| x.msg).collect();
    assert_eq!(msgs, vec!["leave-bottom", "enter-top", "move-top"]);
}

#[test]
fn select_next_cycles_through_selectables() {
    let mut gui: Gui<u32> = Gui::new((10, 10));
    let mut keys = Vec::new();
    for i in 0..3u32 {
        let mut e = Element::new();
        e.selectable = true;
        e.events.listen(EventTypes::Select, i);
        keys.push(gui.add_element(e));
    }
    let mut root = Element::new();
    root.children = Children::Layers(keys.clone());
    let root = gui.add_element(root);
    gui.set_entry(Some(root));
    gui.update_order();
    assert_eq!(gui.selectables().clone(), keys);
    let hits = vec![false; 4];
    let (d, flow) = gui.resolve_event(&WindowEventKind::SelectNext, &hits);
    assert_eq!(flow, Flow::Stop);
    assert_eq!(gui.selected(), Some(keys[0]));
    assert_eq!(d.len(), 1);
    assert_eq!(d[0].kind, ElementEventKind::Select);
    assert_eq!(d[0].key, keys[0]);
    let (d, _) = gui.resolve_event(&WindowEventKind::SelectNext, &hits);
    assert_eq!(gui.selected(), Some(keys[1]));
    assert_eq!(d.len(), 2);
    assert_eq!((d[0].key, d[0].kind), (keys[0], ElementEventKind::Unselect));
    assert_eq!((d[1].key, d[1].kind), (keys[1], ElementEventKind::Select));
    gui.resolve_event(&WindowEventKind::SelectNext, &hits);
    assert_eq!(gui.selected(), Some(keys[2]));
    let (d, _) = gui.resolve_event(&WindowEventKind::SelectNext, &hits);
    assert_eq!(gui.selected(), None);
    assert_eq!(d.len(), 1);
    assert_eq!((d[0].key, d[0].kind), (keys[2], ElementEventKind::Unselect));
}

#[test]
fn selection_stays_without_select_listeners() {
    let mut gui: Gui<u32> = Gui::new((10, 10));
    let mut a = Element::new();
    a.selectable = true;
    let a = gui.add_element(a);
    let mut b = Element::new();
    b.selectable = true;
    let b = gui.add_element(b);
    let mut root = Element::new();
    root.children = Children::Layers(vec![a, b]);
    let root = gui.add_element(root);
    gui.set_entry(Some(root));
    gui.update_order();
    let hits = vec![false; 3];
    let (d, flow) = gui.resolve_event(&WindowEventKind::SelectNext, &hits);
    assert!(d.is_empty());
    assert_eq!(flow, Flow::Stop);
    assert_eq!(gui.selected(), Some(a));
    gui.resolve_event(&WindowEventKind::SelectNext, &hits);
    assert_eq!(gui.selected(), Some(a));
    let (d, flow) = gui.resolve_event(&WindowEventKind::SelectPrev, &hits);
    assert!(d.is_empty());
    assert_eq!(flow, Flow::Continue);
}

#[test]
fn input_goes_to_the_selected_element_only() {
    let mut gui: Gui<u32> = Gui::new((10, 10));
    let mut a = Element::new();
    a.selectable = true;
    a.events.listen(EventTypes::Select, 1);
    a.events.listen(EventTypes::Input, 2);
    a.events.peek(EventTypes::Input, 3);
    let a = gui.add_element(a);
    let mut other = Element::new();
    other.events.listen(EventTypes::Input, 9);
    let other = gui.add_element(other);
    let mut root = Element::new();
    root.children = Children::Layers(vec![a, other]);
    let root = gui.add_element(root);
    gui.set_entry(Some(root));
    gui.update_order();
    let hits = vec![true; 3];
    let input = WindowEventKind::Input("x".to_string());
    let (d, flow) = gui.resolve_event(&input, &hits);
    assert!(d.is_empty());
    assert_eq!(flow, Flow::Stop);
    gui.resolve_event(&WindowEventKind::SelectNext, &hits);
    let (d, flow) = gui.resolve_event(&input, &hits);
    assert_eq!(flow, Flow::Stop);
    let msgs: Vec<u32> = d.iter().map(|x| x.msg).collect();
    assert_eq!(msgs, vec![2, 3]);
    assert!(d.iter().all(|x| x.key == a && x.event_type == EventTypes::Input));
}

#[test]
fn hovered_element_is_the_topmost_hit() {
    let (gui, _b, m, _t) = stack(Element::new(), Element::new(), Element::new());
    assert_eq!(gui.find_hovered_element(&vec![true, true, true, false]), Some(m));
    assert_eq!(gui.find_hovered_element(&vec![false; 4]), None);
}
