//! The element store of the interface: keys, entry point, drawing order and selection.

use std::collections::HashMap;

use vstd::prelude::*;

use crate::element::{Element, ElementKey};
use crate::events::EventTypes;
use crate::input::{key_actions, key_event, KeyAction, KeyPress};
use crate::listeners::{listeners_of, listens_to, EventListenerTypes, EventListeners};
use crate::router::{
    are_delivery_copies, deliver_all, deliver_to_element, delivery, event_type_of, has_select_listeners,
    hover_deliveries, input_deliveries, is_first_index, route, route_to, select_deliveries,
    select_next_result, topmost_hit, Delivery, ElementEventKind, Flow, WindowEventKind,
};
use crate::order::{
    is_held_path, is_visible_path, lemma_deeper_subtree_has_path, lemma_deeper_walk_has_path,
    lemma_held_path_distinct, lemma_ranked_path_distinct, ranked, ranked_all,
    lemma_filter_push, lemma_filter_single, lemma_insertion_step, preorder, preorder_all, selectable_in, stable_sorted_by_z, subtree, subtree_all,
    with_z, z_of,
};

verus! {

broadcast use vstd::std_specs::hash::group_hash_axioms;

/// Keyboard selection state.
pub struct Select {
    /// The element that is selected, if any.
    pub selected: Option<ElementKey>,
    /// The selectable elements, in the order the tree was walked.
    pub selectables: Vec<ElementKey>,
}

impl Select {
    pub fn new() -> (r: Self)
        ensures
            r.selected is None,
            r.selectables@ == Seq::<ElementKey>::empty(),
    {
        Select { selected: None, selectables: Vec::new() }
    }
}

/// Input state that the router keeps between events.
pub struct InputState {
    /// The topmost element under the cursor at the last cursor move.
    pub hover: Option<ElementKey>,
    /// The control key is held down.
    pub control_pressed: bool,
}

impl InputState {
    pub fn new() -> (r: Self)
        ensures
            r.hover is None,
            !r.control_pressed,
    {
        InputState { hover: None, control_pressed: false }
    }
}

/// What a `Gui` holds, seen as mathematical values.
pub ghost struct GuiView<Msg: Clone> {
    /// The elements, by key.
    pub elements: Map<ElementKey, Element<Msg>>,
    /// The number of elements held.
    pub count: nat,
    /// Every key handed out so far has a number below this one.
    pub next_id: u64,
    /// The root of the layout.
    pub entry: Option<ElementKey>,
    /// Width and height of the view port.
    pub size: (u32, u32),
    /// The visible elements, in drawing order (last drawn on top).
    pub ordered: Seq<ElementKey>,
    pub selected: Option<ElementKey>,
    pub selectables: Seq<ElementKey>,
    pub hover: Option<ElementKey>,
    pub control_pressed: bool,
}

/// Context of the interface.
pub struct Gui<Msg: Clone> {
    elements: HashMap<u64, Element<Msg>>,
    entry: Option<ElementKey>,
    last_key: u64,
    size: (u32, u32),
    select: Select,
    ordered: Vec<ElementKey>,
    input: InputState,
}

/// Finds the value stored under `k`, for changing it in place.
#[verifier::external_body]
fn map_get_mut<'a, V>(m: &'a mut HashMap<u64, V>, k: u64) -> (r: Option<&'a mut V>)
    ensures
        match r {
            Some(v) => {
                &&& old(m)@.contains_key(k)
                &&& *v == old(m)@[k]
                &&& final(m)@ == old(m)@.insert(k, *final(v))
            },
            None => {
                &&& !old(m)@.contains_key(k)
                &&& final(m)@ == old(m)@
            },
        },
{
    m.get_mut(&k)
}

/// The elements stored by number, seen by key.
pub closed spec fn keyed<Msg: Clone>(m: Map<u64, Element<Msg>>) -> Map<ElementKey, Element<Msg>> {
    Map::new(|k: ElementKey| m.contains_key(k.id()), |k: ElementKey| m[k.id()])
}

proof fn lemma_keyed_insert<Msg: Clone>()
    ensures
        forall|m: Map<u64, Element<Msg>>, k: ElementKey, v: Element<Msg>| #[trigger]
            keyed(m.insert(k.id(), v)) == keyed(m).insert(k, v),
{
    assert forall|m: Map<u64, Element<Msg>>, k: ElementKey, v: Element<Msg>| #[trigger]
        keyed(m.insert(k.id(), v)) == keyed(m).insert(k, v) by {
        assert forall|j: ElementKey| #![auto]
            keyed(m.insert(k.id(), v)).contains_key(j) == keyed(m).insert(k, v).contains_key(j) by {
            ElementKey::lemma_id_injective(j, k);
        }
        assert forall|j: ElementKey| #![auto] keyed(m.insert(k.id(), v)).contains_key(j)
            implies keyed(m.insert(k.id(), v))[j] == keyed(m).insert(k, v)[j] by {
            ElementKey::lemma_id_injective(j, k);
        }
        assert(keyed(m.insert(k.id(), v)) =~= keyed(m).insert(k, v));
    }
}

proof fn lemma_keyed_remove<Msg: Clone>(m: Map<u64, Element<Msg>>, k: ElementKey)
    ensures
        keyed(m.remove(k.id())) == keyed(m).remove(k),
{
    assert forall|j: ElementKey| #![auto]
        keyed(m.remove(k.id())).contains_key(j) == keyed(m).remove(k).contains_key(j) by {
        ElementKey::lemma_id_injective(j, k);
    }
    assert(keyed(m.remove(k.id())) =~= keyed(m).remove(k));
}

proof fn lemma_keyed_get<Msg: Clone>(m: Map<u64, Element<Msg>>, k: ElementKey)
    ensures
        keyed(m).contains_key(k) == m.contains_key(k.id()),
        keyed(m).contains_key(k) ==> keyed(m)[k] == m[k.id()],
{
}

impl<Msg: Clone> View for Gui<Msg> {
    type V = GuiView<Msg>;

    closed spec fn view(&self) -> GuiView<Msg> {
        GuiView {
            elements: keyed(self.elements@),
            count: self.elements@.len(),
            next_id: self.last_key,
            entry: self.entry,
            size: self.size,
            ordered: self.ordered@,
            selected: self.select.selected,
            selectables: self.select.selectables@,
            hover: self.input.hover,
            control_pressed: self.input.control_pressed,
        }
    }
}

impl<Msg: Clone> Gui<Msg> {
    /// Every element is held under a key that was handed out.
    pub closed spec fn wf(&self) -> bool {
        forall|id: u64| #[trigger] self.elements@.contains_key(id) ==> id < self.last_key
    }

    /// The key `k` was handed out by this `Gui`.
    pub open spec fn issued(&self, k: ElementKey) -> bool {
        k.id() < self@.next_id
    }

    /// Another element can be added: the key numbers are not exhausted.
    pub open spec fn has_room(&self) -> bool {
        self@.next_id < u64::MAX
    }

    /// An empty interface for a view port of `size`.
    pub fn new(size: (u32, u32)) -> (r: Self)
        ensures
            r.wf(),
            r@ == (GuiView::<Msg> {
                elements: Map::empty(),
                count: 0,
                next_id: 0,
                entry: None,
                size,
                ordered: Seq::empty(),
                selected: None,
                selectables: Seq::empty(),
                hover: None,
                control_pressed: false,
            }),
    {
        let r = Gui {
            elements: HashMap::new(),
            entry: None,
            last_key: 0,
            size,
            select: Select::new(),
            ordered: Vec::new(),
            input: InputState::new(),
        };
        assert(r@.elements =~= Map::empty()) by {
            assert forall|k: ElementKey| !#[trigger] r@.elements.contains_key(k) by {
                lemma_keyed_get(r.elements@, k);
            }
        }
        r
    }

    /// Whether another element can be added.
    pub fn can_add_element(&self) -> (r: bool)
        ensures
            r == self.has_room(),
    {
        self.last_key < u64::MAX
    }

    /// Stores `element` under a key that was never handed out before, and returns the key.
    pub fn add_element(&mut self, element: Element<Msg>) -> (key: ElementKey)
        requires
            old(self).wf(),
            old(self).has_room(),
        ensures
            final(self).wf(),
            !old(self).issued(key),
            final(self).issued(key),
            !old(self)@.elements.contains_key(key),
            final(self)@ == (GuiView {
                elements: old(self)@.elements.insert(key, element),
                count: old(self)@.count + 1,
                next_id: (old(self)@.next_id + 1) as u64,
                ..old(self)@
            }),
    {
        let key = ElementKey::from_id(self.last_key);
        self.last_key = self.last_key + 1;
        let ghost old_map = self.elements@;
        self.elements.insert(key.raw(), element);
        proof {
            lemma_keyed_insert::<Msg>();
            lemma_keyed_get(old_map, key);
        }
        key
    }

    /// Drops the element held under `key`, if any.
    pub fn remove_element(&mut self, key: ElementKey)
        requires
            old(self).wf(),
        ensures
            final(self).wf(),
            final(self)@ == (GuiView {
                elements: old(self)@.elements.remove(key),
                count: if old(self)@.elements.contains_key(key) {
                    (old(self)@.count - 1) as nat
                } else {
                    old(self)@.count
                },
                ..old(self)@
            }),
    {
        let ghost old_map = self.elements@;
        self.elements.remove(&key.raw());
        proof {
            if old_map.contains_key(key.id()) {
                assert(old_map.dom().contains(key.id()));
            } else {
                assert(self.elements@ =~= old_map);
            }
            lemma_keyed_remove(old_map, key);
            lemma_keyed_get(old_map, key);
        }
    }

    /// The element held under `key`, if any.
    pub fn get_element(&self, key: ElementKey) -> (r: Option<&Element<Msg>>)
        ensures
            match r {
                Some(e) => self@.elements.contains_key(key) && *e == self@.elements[key],
                None => !self@.elements.contains_key(key),
            },
    {
        self.elements.get(&key.raw())
    }

    /// The element held under `key`, if any, for changing it in place.
    pub fn get_element_mut(&mut self, key: ElementKey) -> (r: Option<&mut Element<Msg>>)
        requires
            old(self).wf(),
        ensures
            final(self).wf(),
            match r {
                Some(e) => {
                    &&& old(self)@.elements.contains_key(key)
                    &&& *e == old(self)@.elements[key]
                    &&& final(self)@ == (GuiView {
                        elements: old(self)@.elements.insert(key, *final(e)),
                        ..old(self)@
                    })
                },
                None => {
                    &&& !old(self)@.elements.contains_key(key)
                    &&& final(self)@ == old(self)@
                },
            },
    {
        proof {
            lemma_keyed_insert::<Msg>();
            lemma_keyed_get(self.elements@, key);
        }
        map_get_mut(&mut self.elements, key.raw())
    }

    /// Makes `key` the root of the layout. The element that was the root before is dropped.
    pub fn set_entry(&mut self, key: Option<ElementKey>)
        requires
            old(self).wf(),
        ensures
            final(self).wf(),
            match old(self)@.entry {
                Some(e) => final(self)@ == (GuiView {
                    elements: old(self)@.elements.remove(e),
                    count: if old(self)@.elements.contains_key(e) {
                        (old(self)@.count - 1) as nat
                    } else {
                        old(self)@.count
                    },
                    entry: key,
                    ..old(self)@
                }),
                None => final(self)@ == (GuiView { entry: key, ..old(self)@ }),
            },
    {
        if let Some(entry) = self.entry.take() {
            self.remove_element(entry);
        }
        self.entry = key;
    }

    /// The root of the layout.
    pub fn entry(&self) -> (r: Option<ElementKey>)
        ensures
            r == self@.entry,
    {
        self.entry
    }

    /// Width and height of the view port.
    pub fn size(&self) -> (r: (u32, u32))
        ensures
            r == self@.size,
    {
        self.size
    }

    /// Records a new size of the view port.
    pub fn set_size(&mut self, size: (u32, u32))
        requires
            old(self).wf(),
        ensures
            final(self).wf(),
            final(self)@ == (GuiView { size, ..old(self)@ }),
    {
        self.size = size;
    }

    /// The visible elements in drawing order, the topmost last.
    pub fn ordered(&self) -> (r: &Vec<ElementKey>)
        ensures
            r@ == self@.ordered,
    {
        &self.ordered
    }

    /// The selected element.
    pub fn selected(&self) -> (r: Option<ElementKey>)
        ensures
            r == self@.selected,
    {
        self.select.selected
    }

    /// The selectable elements, in tree order.
    pub fn selectables(&self) -> (r: &Vec<ElementKey>)
        ensures
            r@ == self@.selectables,
    {
        &self.select.selectables
    }

    /// The element under the cursor at the last cursor move.
    pub fn hover(&self) -> (r: Option<ElementKey>)
        ensures
            r == self@.hover,
    {
        self.input.hover
    }

    /// The control key is held down.
    pub fn control_pressed(&self) -> (r: bool)
        ensures
            r == self@.control_pressed,
    {
        self.input.control_pressed
    }

    /// Handles a key event: returns what the caller does, in order, and keeps track of
    /// the control key.
    pub fn key_event(&mut self, event: &KeyPress) -> (r: Vec<KeyAction>)
        requires
            old(self).wf(),
        ensures
            final(self).wf(),
            r@ == key_actions(old(self)@.control_pressed, *event).0,
            final(self)@ == (GuiView {
                control_pressed: key_actions(old(self)@.control_pressed, *event).1,
                ..old(self)@
            }),
    {
        let (actions, control) = key_event(self.input.control_pressed, event);
        self.input.control_pressed = control;
        actions
    }

    /// The z-index of the element held under `k`; 0 when there is none.
    pub fn z_index_of(&self, k: ElementKey) -> (z: i32)
        ensures
            z as int == z_of(self@.elements, k),
            self@.elements.contains_key(k) ==> z == self@.elements[k].z_index,
            !self@.elements.contains_key(k) ==> z == 0,
    {
        proof {
            lemma_keyed_get(self.elements@, k);
        }
        match self.elements.get(&k.raw()) {
            Some(e) => e.z_index,
            None => 0,
        }
    }

    /// `keys` sorted by z-index, keys of equal z-index kept in their order.
    pub fn sort_by_z(&self, keys: &Vec<ElementKey>) -> (out: Vec<ElementKey>)
        ensures
            stable_sorted_by_z(self@.elements, out@, keys@),
    {
        let ghost m = self@.elements;
        let mut out: Vec<ElementKey> = Vec::new();
        let n = keys.len();
        proof {
            reveal_with_fuel(Seq::filter, 1);
            assert(keys@.take(0) =~= Seq::<ElementKey>::empty());
            assert forall|z: int| #[trigger] with_z(m, out@, z) == with_z(m, keys@.take(0), z) by {
            }
        }
        for i in 0..n
            invariant
                n == keys@.len(),
                m == self@.elements,
                stable_sorted_by_z(m, out@, keys@.take(i as int)),
                out@.len() == i,
        {
            let x = keys[i];
            let zx = self.z_index_of(x);
            let mut p = out.len();
            while p > 0 && self.z_index_of(out[p - 1]) > zx
                invariant
                    p <= out@.len(),
                    m == self@.elements,
                    zx as int == z_of(m, x),
                    forall|j: int| p <= j < out@.len() ==> z_of(m, #[trigger] out@[j]) > z_of(m, x),
                decreases p,
            {
                p = p - 1;
            }
            proof {
                lemma_insertion_step(m, out@, keys@.take(i as int), p as int, x);
                assert(keys@.take(i as int).push(x) =~= keys@.take(i + 1));
            }
            out.insert(p, x);
        }
        assert(keys@.take(n as int) =~= keys@);
        out
    }

    /// Appends the visible elements reached from `key`, in pre-order, to the drawing
    /// order, and the selectable ones among them to the selectables.
    fn order(&mut self, key: ElementKey, depth: usize)
        ensures
            final(self).elements@ == old(self).elements@,
            final(self).last_key == old(self).last_key,
            final(self)@ == (GuiView {
                ordered: old(self)@.ordered + preorder(old(self)@.elements, key, depth as nat),
                selectables: old(self)@.selectables + preorder(
                    old(self)@.elements,
                    key,
                    depth as nat,
                ).filter(selectable_in(old(self)@.elements)),
                ..old(self)@
            }),
        decreases depth,
    {
        let ghost m = self@.elements;
        let ghost p = selectable_in(m);
        if depth == 0 {
            assert(self@.ordered =~= self@.ordered + preorder(m, key, depth as nat));
            reveal_with_fuel(Seq::filter, 1);
            assert(self@.selectables =~= self@.selectables + preorder(m, key, depth as nat).filter(p));
            return ;
        }
        proof {
            lemma_keyed_get(self.elements@, key);
        }
        let (visible, selectable, keys) = match self.elements.get(&key.raw()) {
            Some(e) => (e.visible, e.selectable, e.children.keys()),
            None => {
                assert(self@.ordered =~= self@.ordered + preorder(m, key, depth as nat));
                reveal_with_fuel(Seq::filter, 1);
                assert(self@.selectables =~= self@.selectables + preorder(m, key, depth as nat).filter(p));
                return ;
            },
        };
        if !visible {
            assert(self@.ordered =~= self@.ordered + preorder(m, key, depth as nat));
            reveal_with_fuel(Seq::filter, 1);
            assert(self@.selectables =~= self@.selectables + preorder(m, key, depth as nat).filter(p));
            return ;
        }
        let ghost ord0 = self@.ordered;
        let ghost sel0 = self@.selectables;
        if selectable {
            self.select.selectables.push(key);
        }
        self.ordered.push(key);
        proof {
            lemma_filter_single(key, p);
            assert(self@.selectables =~= sel0 + seq![key].filter(p));
            assert(keys@.take(0) =~= Seq::<ElementKey>::empty());
            reveal_with_fuel(Seq::filter, 1);
            let e0 = preorder_all(m, keys@.take(0), (depth - 1) as nat);
            assert(e0 == Seq::<ElementKey>::empty());
            assert(e0.filter(p) == Seq::<ElementKey>::empty());
            assert(self@.ordered =~= ord0 + seq![key] + e0);
            assert(self@.selectables =~= sel0 + seq![key].filter(p) + e0.filter(p));
        }
        let n = keys.len();
        let mut i: usize = 0;
        while i < n
            invariant
                n == keys@.len(),
                i <= n,
                depth > 0,
                m == old(self)@.elements,
                p == selectable_in(m),
                self.elements@ == old(self).elements@,
                self.last_key == old(self).last_key,
                self@ == (GuiView {
                    ordered: ord0 + seq![key] + preorder_all(m, keys@.take(i as int), (depth - 1) as nat),
                    selectables: sel0 + seq![key].filter(p) + preorder_all(
                        m,
                        keys@.take(i as int),
                        (depth - 1) as nat,
                    ).filter(p),
                    ..old(self)@
                }),
            decreases n - i,
        {
            let ghost before = self@;
            self.order(keys[i], depth - 1);
            proof {
                let d = (depth - 1) as nat;
                assert(keys@.take(i + 1).drop_last() =~= keys@.take(i as int));
                let a = preorder_all(m, keys@.take(i as int), d);
                let b = preorder(m, keys@[i as int], d);
                assert(preorder_all(m, keys@.take(i + 1), d) == a + b);
                Seq::filter_distributes_over_add(a, b, p);
                assert(self@.ordered =~= ord0 + seq![key] + (a + b));
                assert(self@.selectables =~= sel0 + seq![key].filter(p) + (a + b).filter(p));
            }
            i = i + 1;
        }
        proof {
            let d = (depth - 1) as nat;
            assert(keys@.take(n as int) =~= keys@);
            let a = preorder_all(m, keys@, d);
            assert(preorder(m, key, depth as nat) == seq![key] + a);
            Seq::filter_distributes_over_add(seq![key], a, p);
            assert(self@.ordered =~= old(self)@.ordered + preorder(m, key, depth as nat));
            assert(self@.selectables =~= old(self)@.selectables + preorder(m, key, depth as nat).filter(p));
        }
    }

    /// Appends the elements reached from `key`, visible or not, in pre-order.
    fn collect_subtree(&self, key: ElementKey, depth: usize, out: &mut Vec<ElementKey>)
        ensures
            final(out)@ == old(out)@ + subtree(self@.elements, key, depth as nat),
        decreases depth,
    {
        let ghost m = self@.elements;
        if depth == 0 {
            assert(out@ =~= out@ + subtree(m, key, depth as nat));
            return ;
        }
        proof {
            lemma_keyed_get(self.elements@, key);
        }
        let keys = match self.elements.get(&key.raw()) {
            Some(e) => e.children.keys(),
            None => {
                assert(out@ =~= out@ + subtree(m, key, depth as nat));
                return ;
            },
        };
        let ghost o0 = out@;
        out.push(key);
        let n = keys.len();
        let mut i: usize = 0;
        assert(keys@.take(0) =~= Seq::<ElementKey>::empty());
        assert(out@ =~= o0 + seq![key] + subtree_all(m, keys@.take(0), (depth - 1) as nat));
        while i < n
            invariant
                n == keys@.len(),
                i <= n,
                depth > 0,
                m == self@.elements,
                out@ == o0 + seq![key] + subtree_all(m, keys@.take(i as int), (depth - 1) as nat),
            decreases n - i,
        {
            self.collect_subtree(keys[i], depth - 1, out);
            proof {
                assert(keys@.take(i + 1).drop_last() =~= keys@.take(i as int));
                let a = subtree_all(m, keys@.take(i as int), (depth - 1) as nat);
                let b = subtree(m, keys@[i as int], (depth - 1) as nat);
                assert(subtree_all(m, keys@.take(i + 1), (depth - 1) as nat) == a + b);
                assert(out@ =~= o0 + seq![key] + (a + b));
            }
            i = i + 1;
        }
        proof {
            assert(keys@.take(n as int) =~= keys@);
            assert(out@ =~= o0 + subtree(m, key, depth as nat));
        }
    }

    /// The elements reached from `key`, visible or not, in pre-order: the element, then
    /// the subtree of each child in layout order.
    pub fn subtree_keys(&self, key: ElementKey) -> (r: Vec<ElementKey>)
        ensures
            r@ == subtree(self@.elements, key, self@.count),
    {
        let mut out: Vec<ElementKey> = Vec::new();
        let depth = self.elements.len();
        self.collect_subtree(key, depth, &mut out);
        assert(Seq::<ElementKey>::empty() + subtree(self@.elements, key, depth as nat) =~= subtree(
            self@.elements,
            key,
            depth as nat,
        ));
        out
    }

    /// Walks the tree from the entry and puts the visible elements in drawing order:
    /// the pre-order of the tree, stably sorted by z-index. Collects the selectable
    /// elements in pre-order. Without an entry nothing changes.
    pub fn update_order(&mut self)
        requires
            old(self).wf(),
        ensures
            final(self).wf(),
            match old(self)@.entry {
                None => final(self)@ == old(self)@,
                Some(e) => {
                    let walk = preorder(old(self)@.elements, e, old(self)@.count);
                    &&& final(self)@ == (GuiView {
                        ordered: final(self)@.ordered,
                        selectables: walk.filter(selectable_in(old(self)@.elements)),
                        ..old(self)@
                    })
                    &&& stable_sorted_by_z(old(self)@.elements, final(self)@.ordered, walk)
                    &&& forall|i: int, j: int|
                        0 <= i < j < final(self)@.ordered.len() && old(self)@.elements.contains_key(
                            #[trigger] final(self)@.ordered[i],
                        ) && old(self)@.elements.contains_key(#[trigger] final(self)@.ordered[j])
                            ==> old(self)@.elements[final(self)@.ordered[i]].z_index
                            <= old(self)@.elements[final(self)@.ordered[j]].z_index
                },
            },
    {
        let entry = match self.entry {
            Some(e) => e,
            None => {
                return ;
            },
        };
        self.ordered.clear();
        self.select.selectables.clear();
        let depth = self.elements.len();
        self.order(entry, depth);
        let sorted = self.sort_by_z(&self.ordered);
        self.ordered = sorted;
        proof {
            assert(Seq::<ElementKey>::empty() + preorder(old(self)@.elements, entry, depth as nat)
                =~= preorder(old(self)@.elements, entry, depth as nat));
            crate::order::lemma_sorted_by_z_index(
                old(self)@.elements,
                self@.ordered,
                preorder(old(self)@.elements, entry, depth as nat),
            );
        }
    }

    /// Appends a delivery to each listener of type `t` of `events`, in order, with the
    /// consumption rule of `route_to`; returns whether the event is consumed after them.
    fn route_listeners(
        key: ElementKey,
        events: &EventListeners<Msg>,
        t: EventTypes,
        consumed: bool,
        out: &mut Vec<Delivery<Msg>>,
        Ghost(prev): Ghost<Seq<Delivery<Msg>>>,
    ) -> (c: bool)
        requires
            are_delivery_copies(prev, old(out)@),
        ensures
            ({
                let (d, c2) = route_to(t, key, listeners_of(events@, t), consumed);
                &&& are_delivery_copies(prev + d, final(out)@)
                &&& c == c2
            }),
    {
        let ev = events.as_vec();
        let n = ev.len();
        let mut c = consumed;
        proof {
            reveal_with_fuel(Seq::filter, 1);
            assert(ev@.take(0) =~= Seq::<crate::listeners::EventListener<Msg>>::empty());
            assert(prev + Seq::<Delivery<Msg>>::empty() =~= prev);
        }
        for j in 0..n
            invariant
                n == ev@.len(),
                ev@ == events@,
                ({
                    let (d, c2) = route_to(t, key, listeners_of(ev@.take(j as int), t), consumed);
                    &&& are_delivery_copies(prev + d, out@)
                    &&& c == c2
                }),
        {
            let l = &ev[j];
            let ghost before = listeners_of(ev@.take(j as int), t);
            let ghost (d0, c0) = route_to(t, key, before, consumed);
            proof {
                lemma_filter_push(ev@.take(j as int), ev@[j as int], listens_to(t));
                assert(ev@.take(j as int).push(ev@[j as int]) =~= ev@.take(j + 1));
            }
            if l.event_type == t {
                let ghost after = before.push(*l);
                assert(after.drop_last() =~= before);
                let x = Delivery {
                    event_type: t,
                    key,
                    msg: l.msg.clone(),
                    listener_type: l.listener_type,
                    kind: ElementEventKind::FromWindow,
                };
                let ghost sx = delivery(t, key, *l, ElementEventKind::FromWindow);
                match l.listener_type {
                    EventListenerTypes::Listen => {
                        if !c {
                            out.push(x);
                            c = true;
                            assert((prev + d0).push(sx) =~= prev + d0.push(sx));
                        }
                    },
                    EventListenerTypes::Peek => {
                        if !c {
                            out.push(x);
                            assert((prev + d0).push(sx) =~= prev + d0.push(sx));
                        }
                    },
                    EventListenerTypes::Force => {
                        out.push(x);
                        c = true;
                        assert((prev + d0).push(sx) =~= prev + d0.push(sx));
                    },
                }
            }
        }
        assert(ev@.take(n as int) =~= ev@);
        c
    }

    /// Appends a delivery of kind `kind` to every listener of type `t` of `events`, in order.
    fn deliver_listeners(
        key: ElementKey,
        events: &EventListeners<Msg>,
        t: EventTypes,
        kind: ElementEventKind,
        out: &mut Vec<Delivery<Msg>>,
        Ghost(prev): Ghost<Seq<Delivery<Msg>>>,
    )
        requires
            are_delivery_copies(prev, old(out)@),
        ensures
            are_delivery_copies(prev + deliver_all(t, key, listeners_of(events@, t), kind), final(out)@),
    {
        let ev = events.as_vec();
        let n = ev.len();
        proof {
            reveal_with_fuel(Seq::filter, 1);
            assert(ev@.take(0) =~= Seq::<crate::listeners::EventListener<Msg>>::empty());
            assert(prev + Seq::<Delivery<Msg>>::empty() =~= prev);
        }
        for j in 0..n
            invariant
                n == ev@.len(),
                ev@ == events@,
                are_delivery_copies(
                    prev + deliver_all(t, key, listeners_of(ev@.take(j as int), t), kind),
                    out@,
                ),
        {
            let l = &ev[j];
            let ghost before = listeners_of(ev@.take(j as int), t);
            proof {
                lemma_filter_push(ev@.take(j as int), ev@[j as int], listens_to(t));
                assert(ev@.take(j as int).push(ev@[j as int]) =~= ev@.take(j + 1));
            }
            if l.event_type == t {
                let ghost after = before.push(*l);
                assert(after.drop_last() =~= before);
                let x = Delivery {
                    event_type: t,
                    key,
                    msg: l.msg.clone(),
                    listener_type: l.listener_type,
                    kind,
                };
                out.push(x);
                let ghost sx = delivery(t, key, *l, kind);
                assert((prev + deliver_all(t, key, before, kind)).push(sx) =~= prev + deliver_all(
                    t,
                    key,
                    after,
                    kind,
                ));
            }
        }
        assert(ev@.take(n as int) =~= ev@);
    }

    /// Appends a delivery of kind `kind` to every listener of type `t` of the element
    /// held under `key`; nothing when there is none.
    fn deliver_element(
        &self,
        key: ElementKey,
        t: EventTypes,
        kind: ElementEventKind,
        out: &mut Vec<Delivery<Msg>>,
        Ghost(prev): Ghost<Seq<Delivery<Msg>>>,
    )
        requires
            are_delivery_copies(prev, old(out)@),
        ensures
            are_delivery_copies(prev + deliver_to_element(self@.elements, t, key, kind), final(out)@),
    {
        proof {
            lemma_keyed_get(self.elements@, key);
        }
        match self.elements.get(&key.raw()) {
            Some(e) => Self::deliver_listeners(key, &e.events, t, kind, out, Ghost(prev)),
            None => {
                assert(prev + Seq::<Delivery<Msg>>::empty() =~= prev);
            },
        }
    }

    /// The element held under `k` has listeners of type `t`.
    fn has_listeners(&self, k: ElementKey, t: EventTypes) -> (r: bool)
        ensures
            r == (self@.elements.contains_key(k) && listeners_of(self@.elements[k].events@, t).len()
                > 0),
    {
        proof {
            lemma_keyed_get(self.elements@, k);
        }
        match self.elements.get(&k.raw()) {
            Some(e) => {
                let ev = e.events.as_vec();
                let n = ev.len();
                proof {
                    reveal_with_fuel(Seq::filter, 1);
                    assert(ev@.take(0) =~= Seq::<crate::listeners::EventListener<Msg>>::empty());
                }
                for j in 0..n
                    invariant
                        n == ev@.len(),
                        ev@ == e.events@,
                        self@.elements.contains_key(k),
                        self@.elements[k] == *e,
                        listeners_of(ev@.take(j as int), t).len() == 0,
                {
                    proof {
                        lemma_filter_push(ev@.take(j as int), ev@[j as int], listens_to(t));
                        assert(ev@.take(j as int).push(ev@[j as int]) =~= ev@.take(j + 1));
                    }
                    if ev[j].event_type == t {
                        proof {
                            let f = listeners_of(ev@.take(j + 1), t);
                            assert(f.len() > 0);
                            assert(ev@.take(j + 1) + ev@.skip(j + 1) =~= ev@);
                            Seq::filter_distributes_over_add(
                                ev@.take(j + 1),
                                ev@.skip(j + 1),
                                listens_to(t),
                            );
                            assert(listeners_of(ev@, t) == f + listeners_of(ev@.skip(j + 1), t));
                            assert(listeners_of(ev@, t).len() > 0);
                            assert(self@.elements[k] == *e);
                        }
                        return true;
                    }
                }
                assert(ev@.take(n as int) =~= ev@);
                false
            },
            None => false,
        }
    }

    /// Appends the deliveries of a pointer event of type `t` down the drawing order.
    fn route_pointer(
        &self,
        t: EventTypes,
        hits: &Vec<bool>,
        out: &mut Vec<Delivery<Msg>>,
        Ghost(prev): Ghost<Seq<Delivery<Msg>>>,
    )
        requires
            hits@.len() == self@.ordered.len(),
            are_delivery_copies(prev, old(out)@),
        ensures
            are_delivery_copies(
                prev + route(self@.elements, self@.ordered, hits@, t, self@.ordered.len()).0,
                final(out)@,
            ),
    {
        let ghost m = self@.elements;
        let ghost ord = self@.ordered;
        let n = self.ordered.len();
        let mut consumed = false;
        let mut k: usize = 0;
        assert(prev + Seq::<Delivery<Msg>>::empty() =~= prev);
        while k < n
            invariant
                n == ord.len(),
                k <= n,
                m == self@.elements,
                ord == self@.ordered,
                hits@.len() == n,
                ({
                    let (d, c) = route(m, ord, hits@, t, k as nat);
                    &&& are_delivery_copies(prev + d, out@)
                    &&& consumed == c
                }),
            decreases n - k,
        {
            let i = n - 1 - k;
            let key = self.ordered[i];
            let ghost (d0, c0) = route(m, ord, hits@, t, k as nat);
            proof {
                lemma_keyed_get(self.elements@, key);
            }
            match self.elements.get(&key.raw()) {
                Some(e) => {
                    if hits[i] {
                        consumed = Self::route_listeners(
                            key,
                            &e.events,
                            t,
                            consumed,
                            out,
                            Ghost(prev + d0),
                        );
                        proof {
                            let (d2, c2) = route_to(t, key, listeners_of(m[key].events@, t), c0);
                            assert(prev + d0 + d2 =~= prev + (d0 + d2));
                        }
                    }
                },
                None => {},
            }
            k = k + 1;
        }
    }

    /// The topmost element of the drawing order that is held and under the cursor.
    pub fn find_hovered_element(&self, hits: &Vec<bool>) -> (r: Option<ElementKey>)
        requires
            hits@.len() == self@.ordered.len(),
        ensures
            r == topmost_hit(self@.elements, self@.ordered, hits@, self@.ordered.len()),
            r is None <==> forall|i: int|
                0 <= i < self@.ordered.len() ==> !(self@.elements.contains_key(
                    #[trigger] self@.ordered[i],
                ) && hits@[i]),
            r is Some ==> exists|i: int|
                0 <= i < self@.ordered.len() && #[trigger] self@.ordered[i] == r->0
                    && self@.elements.contains_key(self@.ordered[i]) && hits@[i] && forall|j: int|
                    i < j < self@.ordered.len() ==> !(self@.elements.contains_key(
                        #[trigger] self@.ordered[j],
                    ) && hits@[j]),
    {
        proof {
            crate::router::lemma_topmost_hit(
                self@.elements,
                self@.ordered,
                hits@,
                self@.ordered.len(),
            );
        }
        let ghost m = self@.elements;
        let ghost ord = self@.ordered;
        let mut i = self.ordered.len();
        while i > 0
            invariant
                i <= ord.len(),
                m == self@.elements,
                ord == self@.ordered,
                hits@.len() == ord.len(),
                topmost_hit(m, ord, hits@, ord.len()) == topmost_hit(m, ord, hits@, i as nat),
                topmost_hit(m, ord, hits@, ord.len()) is None <==> forall|i: int|
                    0 <= i < ord.len() ==> !(m.contains_key(#[trigger] ord[i]) && hits@[i]),
                topmost_hit(m, ord, hits@, ord.len()) is Some ==> exists|i: int|
                    0 <= i < ord.len() && #[trigger] ord[i] == topmost_hit(m, ord, hits@, ord.len())->0
                        && m.contains_key(ord[i]) && hits@[i] && forall|j: int|
                        i < j < ord.len() ==> !(m.contains_key(#[trigger] ord[j]) && hits@[j]),
            decreases i,
        {
            let key = self.ordered[i - 1];
            proof {
                lemma_keyed_get(self.elements@, key);
            }
            if self.elements.contains_key(&key.raw()) && hits[i - 1] {
                return Some(key);
            }
            i = i - 1;
        }
        None
    }

    /// The deliveries when the layout moves element `key` relative to the cursor: it
    /// was under the cursor (`before`) and is (`after`). An element that leaves the
    /// cursor tells its `MouseLeave` listeners, one that comes under it its `MouseEnter`
    /// listeners.
    pub fn collision_change(&self, key: ElementKey, before: bool, after: bool) -> (r: Vec<
        Delivery<Msg>,
    >)
        ensures
            are_delivery_copies(
                if before && !after {
                    deliver_to_element(
                        self@.elements,
                        EventTypes::MouseLeave,
                        key,
                        ElementEventKind::FromWindow,
                    )
                } else if !before && after {
                    deliver_to_element(
                        self@.elements,
                        EventTypes::MouseEnter,
                        key,
                        ElementEventKind::FromWindow,
                    )
                } else {
                    Seq::empty()
                },
                r@,
            ),
    {
        let mut out: Vec<Delivery<Msg>> = Vec::new();
        let ghost empty = Seq::<Delivery<Msg>>::empty();
        if before && !after {
            self.deliver_element(key, EventTypes::MouseLeave, ElementEventKind::FromWindow, &mut out, Ghost(empty));
            assert(empty + deliver_to_element(self@.elements, EventTypes::MouseLeave, key, ElementEventKind::FromWindow)
                =~= deliver_to_element(self@.elements, EventTypes::MouseLeave, key, ElementEventKind::FromWindow));
        } else if !before && after {
            self.deliver_element(key, EventTypes::MouseEnter, ElementEventKind::FromWindow, &mut out, Ghost(empty));
            assert(empty + deliver_to_element(self@.elements, EventTypes::MouseEnter, key, ElementEventKind::FromWindow)
                =~= deliver_to_element(self@.elements, EventTypes::MouseEnter, key, ElementEventKind::FromWindow));
        }
        out
    }

    /// Moves the keyboard selection on, as `SelectNext` does.
    fn select_next(&mut self) -> (r: (Vec<Delivery<Msg>>, Flow))
        requires
            old(self).wf(),
        ensures
            final(self).wf(),
            ({
                let (sel, d, f) = select_next_result(
                    old(self)@.elements,
                    old(self)@.selected,
                    old(self)@.selectables,
                );
                &&& final(self)@ == (GuiView { selected: sel, ..old(self)@ })
                &&& are_delivery_copies(d, r.0@)
                &&& r.1 == f
            }),
    {
        let ghost m = self@.elements;
        let mut out: Vec<Delivery<Msg>> = Vec::new();
        let ghost empty = Seq::<Delivery<Msg>>::empty();
        let n = self.select.selectables.len();
        match self.select.selected {
            None => {
                if n == 0 {
                    return (out, Flow::Stop);
                }
                let k = self.select.selectables[0];
                self.select.selected = Some(k);
                self.deliver_element(k, EventTypes::Select, ElementEventKind::Select, &mut out, Ghost(empty));
                assert(empty + select_deliveries(m, k, ElementEventKind::Select) =~= select_deliveries(
                    m,
                    k,
                    ElementEventKind::Select,
                ));
                (out, Flow::Stop)
            },
            Some(s) => {
                if n == 0 {
                    return (out, Flow::Continue);
                }
                if !self.has_listeners(s, EventTypes::Select) {
                    return (out, Flow::Stop);
                }
                match first_index(&self.select.selectables, s) {
                    Some(i) => {
                        proof {
                            assert(exists|q: int| is_first_index(self@.selectables, s, q));
                            let c = choose|q: int| is_first_index(self@.selectables, s, q);
                            if c < i {
                                assert(self@.selectables[c] == s);
                            } else if i < c {
                                assert(self@.selectables[i as int] == s);
                            }
                            assert(c == i);
                        }
                        self.deliver_element(
                            s,
                            EventTypes::Select,
                            ElementEventKind::Unselect,
                            &mut out,
                            Ghost(empty),
                        );
                        let ghost unselect = empty + select_deliveries(m, s, ElementEventKind::Unselect);
                        assert(unselect =~= select_deliveries(m, s, ElementEventKind::Unselect));
                        if i + 1 >= n {
                            self.select.selected = None;
                        } else {
                            let next = self.select.selectables[i + 1];
                            self.select.selected = Some(next);
                            self.deliver_element(
                                next,
                                EventTypes::Select,
                                ElementEventKind::Select,
                                &mut out,
                                Ghost(unselect),
                            );
                        }
                        (out, Flow::Stop)
                    },
                    None => {
                        proof {
                            if exists|q: int| is_first_index(self@.selectables, s, q) {
                                let c = choose|q: int| is_first_index(self@.selectables, s, q);
                                assert(self@.selectables[c] == s);
                                assert(self@.selectables.contains(s));
                            }
                        }
                        self.deliver_element(
                            s,
                            EventTypes::Select,
                            ElementEventKind::Select,
                            &mut out,
                            Ghost(empty),
                        );
                        let ghost told = empty + select_deliveries(m, s, ElementEventKind::Select);
                        assert(told =~= select_deliveries(m, s, ElementEventKind::Select));
                        let next = self.select.selectables[0];
                        self.select.selected = Some(next);
                        self.deliver_element(
                            next,
                            EventTypes::Select,
                            ElementEventKind::Select,
                            &mut out,
                            Ghost(told),
                        );
                        (out, Flow::Stop)
                    },
                }
            },
        }
    }

    /// Answers one window event: updates the hovered element and the selection, and
    /// returns the deliveries to be handed to the application (in order) and whether
    /// to go on with the next queued event. `hits[i]` tells whether the cursor lies on
    /// `ordered[i]`.
    pub fn resolve_event(&mut self, event: &WindowEventKind, hits: &Vec<bool>) -> (r: (
        Vec<Delivery<Msg>>,
        Flow,
    ))
        requires
            old(self).wf(),
            hits@.len() == old(self)@.ordered.len(),
        ensures
            final(self).wf(),
            ({
                let (v, d, f) = resolve(old(self)@, *event, hits@);
                &&& final(self)@ == v
                &&& are_delivery_copies(d, r.0@)
                &&& r.1 == f
            }),
    {
        let ghost g = self@;
        let ghost empty = Seq::<Delivery<Msg>>::empty();
        match event {
            WindowEventKind::MouseMove => {
                let nh = self.find_hovered_element(hits);
                let mut out: Vec<Delivery<Msg>> = Vec::new();
                let old_hover = self.input.hover;
                let same = same_key(old_hover, nh);
                let ghost mut d1 = empty;
                if !same {
                    if let Some(k) = old_hover {
                        self.deliver_element(
                            k,
                            EventTypes::MouseLeave,
                            ElementEventKind::FromWindow,
                            &mut out,
                            Ghost(empty),
                        );
                        proof {
                            d1 = empty + deliver_to_element(
                                g.elements,
                                EventTypes::MouseLeave,
                                k,
                                ElementEventKind::FromWindow,
                            );
                        }
                    }
                    if let Some(k) = nh {
                        self.deliver_element(
                            k,
                            EventTypes::MouseEnter,
                            ElementEventKind::FromWindow,
                            &mut out,
                            Ghost(d1),
                        );
                        proof {
                            d1 = d1 + deliver_to_element(
                                g.elements,
                                EventTypes::MouseEnter,
                                k,
                                ElementEventKind::FromWindow,
                            );
                        }
                    }
                }
                proof {
                    assert(d1 =~= hover_deliveries(g.elements, g.hover, nh));
                }
                self.input.hover = nh;
                self.route_pointer(EventTypes::MouseMove, hits, &mut out, Ghost(d1));
                (out, Flow::Continue)
            },
            WindowEventKind::SelectNext => self.select_next(),
            WindowEventKind::SelectPrev => (Vec::new(), Flow::Continue),
            WindowEventKind::Input(_) => {
                let mut out: Vec<Delivery<Msg>> = Vec::new();
                match self.select.selected {
                    Some(k) => {
                        self.deliver_element(
                            k,
                            EventTypes::Input,
                            ElementEventKind::FromWindow,
                            &mut out,
                            Ghost(empty),
                        );
                        assert(empty + deliver_to_element(
                            g.elements,
                            EventTypes::Input,
                            k,
                            ElementEventKind::FromWindow,
                        ) =~= input_deliveries(g.elements, g.selected));
                    },
                    None => {},
                }
                (out, Flow::Stop)
            },
            _ => {
                let t = event.event_type();
                let mut out: Vec<Delivery<Msg>> = Vec::new();
                self.route_pointer(t, hits, &mut out, Ghost(empty));
                assert(empty + route(g.elements, g.ordered, hits@, t, g.ordered.len()).0 =~= route(
                    g.elements,
                    g.ordered,
                    hits@,
                    t,
                    g.ordered.len(),
                ).0);
                (out, Flow::Continue)
            },
        }
    }
}

/// The first position of `k` in `v`.
fn first_index(v: &Vec<ElementKey>, k: ElementKey) -> (r: Option<usize>)
    ensures
        match r {
            Some(i) => is_first_index(v@, k, i as int),
            None => !v@.contains(k),
        },
{
    let n = v.len();
    for i in 0..n
        invariant
            n == v@.len(),
            forall|j: int| 0 <= j < i ==> v@[j] != k,
    {
        if v[i] == k {
            return Some(i);
        }
    }
    None
}

/// `a` and `b` are the same optional key.
fn same_key(a: Option<ElementKey>, b: Option<ElementKey>) -> (r: bool)
    ensures
        r == (a == b),
{
    match (a, b) {
        (Some(x), Some(y)) => x == y,
        (None, None) => true,
        _ => false,
    }
}

/// How a `Gui` in state `g` answers the window event `e`, given the hit tests `hits` of
/// its drawing order: the state after, the deliveries in order, and whether to go on
/// with the next queued event.
///
/// A cursor move updates the hovered element (telling the one left and the one
/// entered) and then goes down the drawing order like the other pointer events;
/// `SelectNext` moves the keyboard selection; `Input` goes to the selected element
/// and ends the round; `SelectPrev` reaches nobody.
pub open spec fn resolve<Msg: Clone>(g: GuiView<Msg>, e: WindowEventKind, hits: Seq<bool>) -> (
    GuiView<Msg>,
    Seq<Delivery<Msg>>,
    Flow,
) {
    match e {
        WindowEventKind::MouseMove => {
            let nh = topmost_hit(g.elements, g.ordered, hits, g.ordered.len());
            (
                GuiView { hover: nh, ..g },
                hover_deliveries(g.elements, g.hover, nh) + route(
                    g.elements,
                    g.ordered,
                    hits,
                    EventTypes::MouseMove,
                    g.ordered.len(),
                ).0,
                Flow::Continue,
            )
        },
        WindowEventKind::SelectNext => {
            let (s, d, f) = select_next_result(g.elements, g.selected, g.selectables);
            (GuiView { selected: s, ..g }, d, f)
        },
        WindowEventKind::SelectPrev => (g, Seq::empty(), Flow::Continue),
        WindowEventKind::Input(_) => (g, input_deliveries(g.elements, g.selected), Flow::Stop),
        _ => (g, route(g.elements, g.ordered, hits, event_type_of(e), g.ordered.len()).0, Flow::Continue),
    }
}

/// Laws of a cursor move: afterwards the hovered element is the topmost held element
/// under the cursor; `MouseLeave` and `MouseEnter` listeners are told only when the
/// hovered element changes, and then the one left before the one entered.
pub proof fn lemma_hover_laws<Msg: Clone>(g: GuiView<Msg>, hits: Seq<bool>)
    requires
        hits.len() == g.ordered.len(),
    ensures
        ({
            let (v, d, f) = resolve(g, WindowEventKind::MouseMove, hits);
            &&& v.hover == topmost_hit(g.elements, g.ordered, hits, g.ordered.len())
            &&& (v.hover is None <==> forall|i: int|
                0 <= i < g.ordered.len() ==> !(g.elements.contains_key(#[trigger] g.ordered[i])
                    && hits[i]))
            &&& (v.hover is Some ==> exists|i: int|
                0 <= i < g.ordered.len() && #[trigger] g.ordered[i] == v.hover->0
                    && g.elements.contains_key(g.ordered[i]) && hits[i] && forall|j: int|
                    i < j < g.ordered.len() ==> !(g.elements.contains_key(#[trigger] g.ordered[j])
                        && hits[j]))
            &&& f == Flow::Continue
            &&& g.hover == v.hover ==> forall|i: int|
                0 <= i < d.len() ==> (#[trigger] d[i]).event_type == EventTypes::MouseMove
            &&& forall|i: int|
                0 <= i < d.len() && (#[trigger] d[i]).event_type == EventTypes::MouseLeave ==> Some(
                    d[i].key,
                ) == g.hover
            &&& forall|i: int|
                0 <= i < d.len() && (#[trigger] d[i]).event_type == EventTypes::MouseEnter ==> Some(
                    d[i].key,
                ) == v.hover
        }),
{
    let nh = topmost_hit(g.elements, g.ordered, hits, g.ordered.len());
    crate::router::lemma_topmost_hit(g.elements, g.ordered, hits, g.ordered.len());
    let (v, d, f) = resolve(g, WindowEventKind::MouseMove, hits);
    let h = hover_deliveries(g.elements, g.hover, nh);
    let r = route(g.elements, g.ordered, hits, EventTypes::MouseMove, g.ordered.len()).0;
    crate::router::lemma_route_laws(g.elements, g.ordered, hits, EventTypes::MouseMove);
    assert(d == h + r);
    let leave = match g.hover {
        Some(k) => deliver_to_element(g.elements, EventTypes::MouseLeave, k, ElementEventKind::FromWindow),
        None => Seq::empty(),
    };
    let enter = match nh {
        Some(k) => deliver_to_element(g.elements, EventTypes::MouseEnter, k, ElementEventKind::FromWindow),
        None => Seq::empty(),
    };
    if let Some(k) = g.hover {
        if g.elements.contains_key(k) {
            crate::router::lemma_deliver_all(
                EventTypes::MouseLeave,
                k,
                listeners_of(g.elements[k].events@, EventTypes::MouseLeave),
                ElementEventKind::FromWindow,
            );
        }
    }
    if let Some(k) = nh {
        if g.elements.contains_key(k) {
            crate::router::lemma_deliver_all(
                EventTypes::MouseEnter,
                k,
                listeners_of(g.elements[k].events@, EventTypes::MouseEnter),
                ElementEventKind::FromWindow,
            );
        }
    }
    assert forall|i: int| 0 <= i < d.len() implies {
        &&& ((#[trigger] d[i]).event_type == EventTypes::MouseLeave ==> Some(d[i].key) == g.hover)
        &&& (d[i].event_type == EventTypes::MouseEnter ==> Some(d[i].key) == v.hover)
        &&& (g.hover == v.hover ==> d[i].event_type == EventTypes::MouseMove)
    } by {
        if i < h.len() {
            assert(g.hover != nh);
            assert(h == leave + enter);
            if i < leave.len() {
                assert(d[i] == leave[i]);
            } else {
                assert(d[i] == enter[i - leave.len()]);
            }
        } else {
            assert(d[i] == r[i - h.len()]);
        }
    }
}

/// Law of text input: an `Input` event reaches only the input listeners of the selected
/// element, all of them, and ends the round.
pub proof fn lemma_input_laws<Msg: Clone>(g: GuiView<Msg>, text: String, hits: Seq<bool>)
    ensures
        ({
            let (v, d, f) = resolve(g, WindowEventKind::Input(text), hits);
            &&& v == g
            &&& f == Flow::Stop
            &&& forall|i: int| 0 <= i < d.len() ==> Some((#[trigger] d[i]).key) == g.selected
                && d[i].event_type == EventTypes::Input
            &&& forall|k: ElementKey|
                g.selected == Some(k) && #[trigger] g.elements.contains_key(k) ==> d.len()
                    == listeners_of(g.elements[k].events@, EventTypes::Input).len()
            &&& g.selected is None ==> d.len() == 0
        }),
{
    if let Some(k) = g.selected {
        if g.elements.contains_key(k) {
            crate::router::lemma_deliver_all(
                EventTypes::Input,
                k,
                listeners_of(g.elements[k].events@, EventTypes::Input),
                ElementEventKind::FromWindow,
            );
        }
    }
}

/// A sequence of distinct held keys is no longer than the number of elements.
proof fn lemma_distinct_keys_bounded<Msg: Clone>(
    hm: Map<u64, Element<Msg>>,
    s: Seq<ElementKey>,
)
    requires
        hm.dom().finite(),
        s.no_duplicates(),
        forall|i: int| 0 <= i < s.len() ==> keyed(hm).contains_key(#[trigger] s[i]),
    ensures
        s.len() <= hm.len(),
{
    let f = |k: ElementKey| k.id();
    assert(vstd::relations::injective(f)) by {
        assert forall|a: ElementKey, b: ElementKey| #[trigger] f(a) == #[trigger] f(b) implies a == b by {
            ElementKey::lemma_id_injective(a, b);
        }
    }
    s.lemma_no_duplicates_injective(f);
    let t = s.map_values(f);
    t.unique_seq_to_set();
    assert(t.to_set().subset_of(hm.dom())) by {
        assert forall|x: u64| t.to_set().contains(x) implies hm.dom().contains(x) by {
            assert(t.contains(x));
            let i = choose|i: int| 0 <= i < t.len() && t[i] == x;
            lemma_keyed_get(hm, s[i]);
            assert(keyed(hm).contains_key(s[i]));
        }
    }
    vstd::set_lib::lemma_len_subset(t.to_set(), hm.dom());
}

/// Law of the walk: when the children relation has no cycle through visible elements,
/// walking from any key to a depth of the number of elements visits everything that a
/// deeper walk visits.
pub proof fn lemma_walk_is_complete<Msg: Clone>(
    g: &Gui<Msg>,
    rank: spec_fn(ElementKey) -> nat,
    key: ElementKey,
    d: nat,
)
    requires
        ranked(g@.elements, rank),
        d >= g@.count,
    ensures
        preorder(g@.elements, key, g@.count) == preorder(g@.elements, key, d),
    decreases d - g@.count,
{
    let m = g@.elements;
    if d > g@.count {
        lemma_walk_is_complete(g, rank, key, (d - 1) as nat);
        if preorder(m, key, (d - 1) as nat) != preorder(m, key, d) {
            assert(((d - 1) as nat + 1) as nat == d);
            lemma_deeper_walk_has_path(m, key, (d - 1) as nat);
            let s = choose|s: Seq<ElementKey>| is_visible_path(m, s) && s.len() == d && s[0] == key;
            lemma_ranked_path_distinct(m, rank, s);
            assert(g.elements@.dom().finite());
            lemma_distinct_keys_bounded(g.elements@, s);
            assert(false);
        }
    }
}

/// Law of the subtree walk: when the children relation has no cycle, walking from any
/// key to a depth of the number of elements, as `subtree_keys` does, visits everything
/// that a deeper walk visits.
pub proof fn lemma_subtree_is_complete<Msg: Clone>(
    g: &Gui<Msg>,
    rank: spec_fn(ElementKey) -> nat,
    key: ElementKey,
    d: nat,
)
    requires
        ranked_all(g@.elements, rank),
        d >= g@.count,
    ensures
        subtree(g@.elements, key, g@.count) == subtree(g@.elements, key, d),
    decreases d - g@.count,
{
    let m = g@.elements;
    if d > g@.count {
        lemma_subtree_is_complete(g, rank, key, (d - 1) as nat);
        if subtree(m, key, (d - 1) as nat) != subtree(m, key, d) {
            assert(((d - 1) as nat + 1) as nat == d);
            lemma_deeper_subtree_has_path(m, key, (d - 1) as nat);
            let s = choose|s: Seq<ElementKey>| is_held_path(m, s) && s.len() == d && s[0] == key;
            lemma_held_path_distinct(m, rank, s);
            assert(g.elements@.dom().finite());
            lemma_distinct_keys_bounded(g.elements@, s);
            assert(false);
        }
    }
}

/// No step of `hist` lowers the number of keys handed out. Every method of `Gui` keeps
/// it or, in `add_element`, raises it by one.
pub open spec fn keys_only_grow<Msg: Clone>(hist: Seq<GuiView<Msg>>) -> bool {
    forall|i: int| #![trigger hist[i]] 0 <= i < hist.len() - 1 ==> hist[i].next_id <= hist[i + 1].next_id
}

proof fn lemma_keys_grow_between<Msg: Clone>(hist: Seq<GuiView<Msg>>, i: int, j: int)
    requires
        keys_only_grow(hist),
        0 <= i <= j < hist.len(),
    ensures
        hist[i].next_id <= hist[j].next_id,
    decreases j - i,
{
    if i < j {
        lemma_keys_grow_between(hist, i, j - 1);
        assert(hist[j - 1].next_id <= hist[j].next_id);
    }
}

/// Law of keys: over a history of states `hist` of one `Gui`, the keys that
/// `add_element` returned, `keys[n]` at the step from `hist[at[n]]` to `hist[at[n] + 1]`,
/// are all different, removed ones included: a key is never handed out twice.
pub proof fn lemma_added_keys_distinct<Msg: Clone>(
    hist: Seq<GuiView<Msg>>,
    keys: Seq<ElementKey>,
    at: Seq<int>,
)
    requires
        keys_only_grow(hist),
        keys.len() == at.len(),
        forall|n: int|
            #![trigger keys[n]]
            0 <= n < keys.len() ==> {
                &&& 0 <= at[n] && at[n] + 1 < hist.len()
                &&& hist[at[n]].next_id <= keys[n].id()
                &&& keys[n].id() < hist[at[n] + 1].next_id
            },
        forall|n1: int, n2: int| 0 <= n1 < n2 < at.len() ==> at[n1] < at[n2],
    ensures
        keys.no_duplicates(),
{
    assert forall|n1: int, n2: int| 0 <= n1 < keys.len() && 0 <= n2 < keys.len() && n1 != n2
        implies keys[n1] != keys[n2] by {
        let (a, b) = if n1 < n2 { (n1, n2) } else { (n2, n1) };
        assert(at[a] < at[b]);
        assert(keys[a].id() < hist[at[a] + 1].next_id);
        assert(hist[at[b]].next_id <= keys[b].id());
        lemma_keys_grow_between(hist, at[a] + 1, at[b]);
    }
}

} // verus!
