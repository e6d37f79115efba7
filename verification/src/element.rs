//! Elements, their keys and their children.

use vstd::prelude::*;

use crate::listeners::EventListeners;

verus! {

broadcast use vstd::string::group_string_axioms;

/// Key that gives access to an element held by a `Gui`.
///
/// Keys are only handed out by `Gui::add_element`.
#[derive(PartialEq, Eq, Hash, Clone, Copy, Debug, Structural)]
pub struct ElementKey {
    id: u64,
}

impl ElementKey {
    /// The number under which the element is stored.
    pub closed spec fn id(self) -> u64 {
        self.id
    }

    pub(crate) fn from_id(id: u64) -> (k: Self)
        ensures
            k.id() == id,
    {
        ElementKey { id }
    }

    pub(crate) fn raw(&self) -> (id: u64)
        ensures
            id == self.id(),
    {
        self.id
    }

    /// Two keys with the same number are the same key.
    pub proof fn lemma_id_injective(a: ElementKey, b: ElementKey)
        ensures
            (a.id() == b.id()) == (a == b),
    {
    }
}

/// Space allotted to a child inside rows or columns.
///
/// The amounts of `Pixel`, `Percent` and `AbsPercent` are the bit patterns of the
/// `f32` values that the layout reads.
#[derive(Clone, Copy, Debug, PartialEq, Eq, Structural)]
pub enum Size {
    /// An equal share of what is left.
    Even,
    /// All of what is left.
    Fill,
    Pixel(u32),
    Percent(u32),
    /// The whole view port.
    AbsFill,
    AbsPercent(u32),
}

/// Describes allocated space for a child `Element` inside rows/columns.
#[derive(Clone, Copy, Debug, PartialEq, Eq, Structural)]
pub struct Section {
    /// Child `Element`
    pub element: ElementKey,
    /// Allocated space
    pub size: Size,
}

/// Describes how many `Children` an `Element` has and how they should be positioned.
#[derive(Clone, Debug)]
pub enum Children {
    /// Positions child `Element` on top of parent
    Element(ElementKey),
    /// Positions child `Elements` in layers on top of the parent
    Layers(Vec<ElementKey>),
    /// Positions child `Elements` in rows on top of the parent
    Rows { children: Vec<Section>, spacing: Size },
    /// Positions child `Elements` in columns on top of the parent
    Columns { children: Vec<Section>, spacing: Size },
    /// Element has no children
    Empty,
}

impl Default for Children {
    fn default() -> (r: Self)
        ensures
            r is Empty,
    {
        Children::Empty
    }
}

/// The key of each section, in order.
pub open spec fn section_keys(s: Seq<Section>) -> Seq<ElementKey> {
    s.map_values(|x: Section| x.element)
}

/// The keys of the children, in the order the layout visits them.
pub open spec fn child_keys(c: Children) -> Seq<ElementKey> {
    match c {
        Children::Element(k) => seq![k],
        Children::Layers(v) => v@,
        Children::Rows { children, .. } => section_keys(children@),
        Children::Columns { children, .. } => section_keys(children@),
        Children::Empty => Seq::empty(),
    }
}

/// Law of the layout order: the children of an element are listed as the layout holds
/// them: the single child, the layers in their order, and the elements of the rows'
/// or columns' sections in the sections' order.
pub proof fn lemma_child_keys_in_layout_order(c: Children)
    ensures
        match c {
            Children::Element(k) => child_keys(c) == seq![k],
            Children::Layers(v) => child_keys(c) == v@,
            Children::Rows { children, .. } => child_keys(c).len() == children@.len() && forall|i: int|
                0 <= i < children@.len() ==> child_keys(c)[i] == (#[trigger] children@[i]).element,
            Children::Columns { children, .. } => child_keys(c).len() == children@.len() && forall|i: int|
                0 <= i < children@.len() ==> child_keys(c)[i] == (#[trigger] children@[i]).element,
            Children::Empty => child_keys(c).len() == 0,
        },
{
}

fn keys_of_sections(s: &Vec<Section>) -> (r: Vec<ElementKey>)
    ensures
        r@ == section_keys(s@),
{
    let mut r: Vec<ElementKey> = Vec::new();
    let n = s.len();
    for i in 0..n
        invariant
            n == s@.len(),
            r@ == section_keys(s@.take(i as int)),
    {
        r.push(s[i].element);
        assert(section_keys(s@.take(i + 1)) =~= section_keys(s@.take(i as int)).push(s@[i as int].element));
    }
    assert(s@.take(n as int) =~= s@);
    r
}

impl Children {
    /// The keys of the children, in the order the layout visits them.
    pub fn keys(&self) -> (r: Vec<ElementKey>)
        ensures
            r@ == child_keys(*self),
            match *self {
                Children::Element(k) => r@ == seq![k],
                Children::Layers(v) => r@ == v@,
                Children::Rows { children, .. } => r@.len() == children@.len() && forall|i: int|
                    0 <= i < children@.len() ==> r@[i] == (#[trigger] children@[i]).element,
                Children::Columns { children, .. } => r@.len() == children@.len() && forall|i: int|
                    0 <= i < children@.len() ==> r@[i] == (#[trigger] children@[i]).element,
                Children::Empty => r@.len() == 0,
            },
    {
        proof {
            lemma_child_keys_in_layout_order(*self);
        }
        match self {
            Children::Element(k) => {
                let mut r: Vec<ElementKey> = Vec::new();
                r.push(*k);
                assert(r@ =~= seq![*k]);
                r
            },
            Children::Layers(v) => {
                let mut r: Vec<ElementKey> = Vec::new();
                let n = v.len();
                for i in 0..n
                    invariant
                        n == v@.len(),
                        r@ == v@.take(i as int),
                {
                    r.push(v[i]);
                    assert(v@.take(i + 1) =~= v@.take(i as int).push(v@[i as int]));
                }
                assert(v@.take(n as int) =~= v@);
                r
            },
            Children::Rows { children, .. } => keys_of_sections(children),
            Children::Columns { children, .. } => keys_of_sections(children),
            Children::Empty => Vec::new(),
        }
    }
}

/// Text rendered inside an element, with whether it changed since it was last rendered.
pub struct Text {
    content: Option<(String, bool)>,
}

impl Text {
    /// The text.
    pub closed spec fn value(&self) -> Option<String> {
        match self.content {
            Some((s, _)) => Some(s),
            None => None,
        }
    }

    /// The text was changed since it was last rendered.
    pub closed spec fn dirty(&self) -> bool {
        match self.content {
            Some((_, d)) => d,
            None => false,
        }
    }

    fn none() -> (r: Self)
        ensures
            r.value() is None,
            !r.dirty(),
    {
        Text { content: None }
    }

    fn get(&self) -> (r: Option<&String>)
        ensures
            match r {
                Some(s) => self.value() == Some(*s),
                None => self.value() is None,
            },
    {
        match &self.content {
            Some((s, _)) => Some(s),
            None => None,
        }
    }

    /// A new text is always marked as changed.
    fn set(&mut self, text: Option<String>)
        ensures
            final(self).value() == text,
            final(self).dirty() == (text is Some),
    {
        match text {
            Some(t) => self.content = Some((t, true)),
            None => self.content = None,
        }
    }

    fn is_dirty(&self) -> (r: bool)
        ensures
            r == self.dirty(),
    {
        match &self.content {
            Some((_, d)) => *d,
            None => false,
        }
    }

    fn set_dirty(&mut self, dirty: bool)
        ensures
            final(self).value() == old(self).value(),
            final(self).dirty() == (dirty && old(self).value() is Some),
    {
        match &mut self.content {
            Some((_, d)) => {
                *d = dirty;
            },
            None => {},
        }
    }
}

/// Most basic building block of the interface: the part of an element that the
/// tree, the event router and the selection read.
pub struct Element<Msg: Clone> {
    /// Text rendered inside the element.
    pub text: Text,
    pub label: Option<String>,
    pub events: EventListeners<Msg>,
    pub children: Children,
    /// Invisible elements, and what they hold, are left out of the order.
    pub visible: bool,
    /// Selectable elements take part in keyboard selection.
    pub selectable: bool,
    /// Elements with a higher index are drawn, and hit, on top.
    pub z_index: i32,
}

impl<Msg: Clone> Element<Msg> {
    /// The text rendered inside the element.
    pub open spec fn text_value(&self) -> Option<String> {
        self.text.value()
    }

    /// The text was changed since it was last rendered.
    pub open spec fn text_dirty(&self) -> bool {
        self.text.dirty()
    }

    /// `a` and `b` agree on everything but the text.
    pub open spec fn same_but_text(a: Self, b: Self) -> bool {
        &&& a.label == b.label
        &&& a.events == b.events
        &&& a.children == b.children
        &&& a.visible == b.visible
        &&& a.selectable == b.selectable
        &&& a.z_index == b.z_index
    }

    /// Creates a new `Element`: no text, label, listeners or children; visible,
    /// not selectable, at z-index 0.
    pub fn new() -> (r: Self)
        ensures
            r.text_value() is None,
            !r.text_dirty(),
            r.label is None,
            r.events@ == Seq::<crate::listeners::EventListener<Msg>>::empty(),
            r.children is Empty,
            r.visible,
            !r.selectable,
            r.z_index == 0,
    {
        Element {
            text: Text::none(),
            label: None,
            events: EventListeners::new(),
            children: Children::Empty,
            visible: true,
            selectable: false,
            z_index: 0,
        }
    }

    /// Configures label for `Element`
    pub fn with_label(self, label: &str) -> (r: Self)
        ensures
            r.label matches Some(l) && l@ == label@,
            r.text_value() == self.text_value(),
            r.text_dirty() == self.text_dirty(),
            r.events == self.events,
            r.children == self.children,
            r.visible == self.visible,
            r.selectable == self.selectable,
            r.z_index == self.z_index,
    {
        let mut this = self;
        this.label = Some(label.to_string());
        this
    }

    /// Configures children for `Element`
    pub fn with_children(self, children: Children) -> (r: Self)
        ensures
            r.children == children,
            r.text_value() == self.text_value(),
            r.text_dirty() == self.text_dirty(),
            r.label == self.label,
            r.events == self.events,
            r.visible == self.visible,
            r.selectable == self.selectable,
            r.z_index == self.z_index,
    {
        let mut this = self;
        this.children = children;
        this
    }

    /// Returns text rendered inside the `Element`
    pub fn text(&self) -> (r: Option<&String>)
        ensures
            match r {
                Some(s) => self.text_value() == Some(*s),
                None => self.text_value() is None,
            },
    {
        self.text.get()
    }

    /// Configures text rendered inside the `Element`
    pub fn set_text(&mut self, text: Option<String>)
        ensures
            final(self).text_value() == text,
            final(self).text_dirty() == (text is Some),
            Self::same_but_text(*final(self), *old(self)),
    {
        self.text.set(text);
    }

    /// Configures text rendered inside the `Element`
    pub fn text_str(&mut self, str: &str)
        ensures
            final(self).text_value() matches Some(s) && s@ == str@,
            final(self).text_dirty(),
            Self::same_but_text(*final(self), *old(self)),
    {
        self.text.set(Some(str.to_string()));
    }

    /// Configures text rendered inside the `Element`
    pub fn text_string(&mut self, str: String)
        ensures
            final(self).text_value() == Some(str),
            final(self).text_dirty(),
            Self::same_but_text(*final(self), *old(self)),
    {
        self.text.set(Some(str));
    }

    /// Whether the text changed since it was last rendered.
    pub fn text_changed(&self) -> (r: bool)
        ensures
            r == self.text_dirty(),
    {
        self.text.is_dirty()
    }

    /// Marks the text as rendered.
    pub fn clear_text_dirty(&mut self)
        ensures
            final(self).text_value() == old(self).text_value(),
            !final(self).text_dirty(),
            Self::same_but_text(*final(self), *old(self)),
    {
        self.text.set_dirty(false);
    }

    /// Marks the text as changed, when there is one.
    pub fn mark_text_dirty(&mut self)
        ensures
            final(self).text_value() == old(self).text_value(),
            final(self).text_dirty() == (old(self).text_value() is Some),
            Self::same_but_text(*final(self), *old(self)),
    {
        self.text.set_dirty(true);
    }
}

impl<Msg: Clone> Default for Element<Msg> {
    fn default() -> (r: Self)
        ensures
            r.text_value() is None,
            r.label is None,
            r.children is Empty,
            r.visible,
            !r.selectable,
            r.z_index == 0,
    {
        Element::new()
    }
}

} // verus!
