use rugui::element::{Children, Element, ElementKey, Section, Size};
use rugui::events::EventTypes;
use rugui::gui::Gui;
use rugui::listeners::{EventListenerTypes, EventListeners};
use rugui::styles::StyleComponent;

fn leaf(z: i32) -> Element<u32> {
    let mut e = Element::new();
    e.z_index = z;
    e
}

#[test]
fn listeners_keep_order_and_type() {
    let mut l: EventListeners<u32> = EventListeners::new();
    l.listen(EventTypes::MouseDown, 1);
    l.peek(EventTypes::MouseUp, 2);
    l.force(EventTypes::MouseDown, 3);
    let got = l.get(&EventTypes::MouseDown).unwrap();
    assert_eq!(got.len(), 2);
    assert_eq!(got[0].msg, 1);
    assert_eq!(got[0].listener_type, EventListenerTypes::Listen);
    assert_eq!(got[1].msg, 3);
    assert_eq!(got[1].listener_type, EventListenerTypes::Force);
    let up = l.get(&EventTypes::MouseUp).unwrap();
    assert_eq!(up.len(), 1);
    assert_eq!(up[0].listener_type, EventListenerTypes::Peek);
    assert!(l.get(&EventTypes::Scroll).is_none());
    assert_eq!(EventListenerTypes::default(), EventListenerTypes::Listen);
}

#[test]
fn element_text_is_marked_changed() {
    let mut e: Element<u32> = Element::new().with_label("card");
    assert_eq!(e.label.as_deref(), Some("card"));
    assert!(e.text().is_none());
    e.text_str("Hello");
    assert_eq!(e.text().map(|s| s.as_str()), Some("Hello"));
    e.clear_text_dirty();
    e.text_string("World".to_string());
    assert_eq!(e.text().map(|s| s.as_str()), Some("World"));
    e.set_text(None);
    assert!(e.text().is_none());
    assert!(e.visible);
    assert!(!e.selectable);
    assert_eq!(e.z_index, 0);
}

#[test]
fn keys_are_fresh_and_removal_forgets() {
    let mut gui: Gui<u32> = Gui::new((800, 600));
    assert_eq!(gui.size(), (800, 600));
    let a = gui.add_element(leaf(1));
    let b = gui.add_element(leaf(2));
    assert_ne!(a, b);
    assert_eq!(gui.get_element(a).unwrap().z_index, 1);
    gui.remove_element(a);
    assert!(gui.get_element(a).is_none());
    let c = gui.add_element(leaf(3));
    assert_ne!(c, a);
    assert_ne!(c, b);
    gui.get_element_mut(b).unwrap().z_index = 7;
    assert_eq!(gui.z_index_of(b), 7);
    assert_eq!(gui.z_index_of(a), 0);
    assert!(gui.can_add_element());
}

#[test]
fn set_entry_drops_the_previous_root() {
    let mut gui: Gui<u32> = Gui::new((10, 10));
    let a = gui.add_element(leaf(0));
    let b = gui.add_element(leaf(0));
    gui.set_entry(Some(a));
    assert_eq!(gui.entry(), Some(a));
    gui.set_entry(Some(b));
    assert_eq!(gui.entry(), Some(b));
    assert!(gui.get_element(a).is_none());
    assert!(gui.get_element(b).is_some());
    gui.set_entry(None);
    assert!(gui.get_element(b).is_none());
}

#[test]
fn order_walks_visible_tree_and_sorts_stably_by_z() {
    let mut gui: Gui<u32> = Gui::new((100, 100));
    let c1 = gui.add_element(leaf(2));
    let c2 = gui.add_element(leaf(0));
    let mut hidden = leaf(0);
    hidden.visible = false;
    let hidden_child = gui.add_element(leaf(5));
    hidden.children = Children::Element(hidden_child);
    let h = gui.add_element(hidden);
    let mut c3 = leaf(0);
    c3.selectable = true;
    let c3 = gui.add_element(c3);
    let mut root = leaf(0);
    root.selectable = true;
    root.children = Children::Rows {
        children: vec![
            Section { element: c1, size: Size::Even },
            Section { element: c2, size: Size::Fill },
            Section { element: h, size: Size::Even },
            Section { element: c3, size: Size::Pixel(0) },
        ],
        spacing: Size::Fill,
    };
    let root = gui.add_element(root);
    gui.set_entry(Some(root));
    gui.update_order();
    // pre-order is root, c1, c2, c3; stable sort by z puts c1 (z = 2) last
    assert_eq!(gui.ordered().clone(), vec![root, c2, c3, c1]);
    assert_eq!(gui.selectables().clone(), vec![root, c3]);
    // the subtree walk ignores visibility
    assert_eq!(gui.subtree_keys(h), vec![h, hidden_child]);
    assert_eq!(gui.subtree_keys(root), vec![root, c1, c2, h, hidden_child, c3]);
}

#[test]
fn order_without_entry_changes_nothing() {
    let mut gui: Gui<u32> = Gui::new((100, 100));
    gui.add_element(leaf(0));
    gui.update_order();
    assert!(gui.ordered().is_empty());
}

#[test]
fn children_keys_follow_layout_order() {
    let mut gui: Gui<u32> = Gui::new((1, 1));
    let a = gui.add_element(leaf(0));
    let b = gui.add_element(leaf(0));
    let layers = Children::Layers(vec![b, a]);
    assert_eq!(layers.keys(), vec![b, a]);
    let cols = Children::Columns {
        children: vec![Section { element: a, size: Size::AbsFill }],
        spacing: Size::Even,
    };
    assert_eq!(cols.keys(), vec![a]);
    assert!(Children::default().keys().is_empty());
    let one: Vec<ElementKey> = Children::Element(b).keys();
    assert_eq!(one, vec![b]);
}

#[test]
fn style_component_tracks_changes() {
    let mut c = StyleComponent::new(5u32);
    assert!(c.dirty());
    c.clear_dirty();
    assert!(!c.dirty());
    assert_eq!(*c.get(), 5);
    c.set(6);
    assert!(c.dirty());
    assert_eq!(*c.get(), 6);
    c.clear_dirty();
    *c.get_mut() = 9;
    assert!(c.dirty());
    assert_eq!(*c.get(), 9);
}
