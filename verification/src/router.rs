//! How one window event is answered: which listeners of which elements receive it,
//! and how keyboard selection moves.

use vstd::prelude::*;

use crate::element::{Element, ElementKey};
use crate::events::{EventTypes, MouseButton};
use crate::listeners::{listeners_of, EventListener, EventListenerTypes};

verus! {

/// A window event as the router sees it: positions are kept by the caller, which
/// also tells the router which elements lie under the cursor.
#[derive(Debug, Clone)]
pub enum WindowEventKind {
    MouseDown(MouseButton),
    MouseUp(MouseButton),
    MouseMove,
    Scroll,
    Input(String),
    SelectNext,
    SelectPrev,
}

/// The listener type that a window event reaches.
pub open spec fn event_type_of(e: WindowEventKind) -> EventTypes {
    match e {
        WindowEventKind::MouseDown(_) => EventTypes::MouseDown,
        WindowEventKind::MouseUp(_) => EventTypes::MouseUp,
        WindowEventKind::MouseMove => EventTypes::MouseMove,
        WindowEventKind::Scroll => EventTypes::Scroll,
        WindowEventKind::Input(_) => EventTypes::Input,
        WindowEventKind::SelectNext => EventTypes::Select,
        WindowEventKind::SelectPrev => EventTypes::Select,
    }
}

impl WindowEventKind {
    /// The listener type that this event reaches.
    pub fn event_type(&self) -> (r: EventTypes)
        ensures
            r == event_type_of(*self),
    {
        match self {
            WindowEventKind::MouseDown(_) => EventTypes::MouseDown,
            WindowEventKind::MouseUp(_) => EventTypes::MouseUp,
            WindowEventKind::MouseMove => EventTypes::MouseMove,
            WindowEventKind::Scroll => EventTypes::Scroll,
            WindowEventKind::Input(_) => EventTypes::Input,
            WindowEventKind::SelectNext => EventTypes::Select,
            WindowEventKind::SelectPrev => EventTypes::Select,
        }
    }
}

/// How the element-level event of a delivery is made.
#[derive(Debug, Clone, Copy, PartialEq, Eq, Structural)]
pub enum ElementEventKind {
    /// From the window event, placed in the element's own frame.
    FromWindow,
    /// The element became selected.
    Select,
    /// The element stopped being selected.
    Unselect,
}

/// Whether the caller goes on with the next queued window event.
#[derive(Debug, Clone, Copy, PartialEq, Eq, Structural)]
pub enum Flow {
    Continue,
    Stop,
}

/// One listener's message, to be handed to the application as an event.
#[derive(Debug, Clone)]
pub struct Delivery<Msg: Clone> {
    pub event_type: EventTypes,
    pub key: ElementKey,
    pub msg: Msg,
    pub listener_type: EventListenerTypes,
    pub kind: ElementEventKind,
}

/// The delivery of event type `t` to listener `l` of element `key`.
pub open spec fn delivery<Msg: Clone>(
    t: EventTypes,
    key: ElementKey,
    l: EventListener<Msg>,
    kind: ElementEventKind,
) -> Delivery<Msg> {
    Delivery { event_type: t, key, msg: l.msg, listener_type: l.listener_type, kind }
}

/// `b` is `a` with its message cloned.
pub open spec fn is_delivery_copy<Msg: Clone>(a: Delivery<Msg>, b: Delivery<Msg>) -> bool {
    &&& a.event_type == b.event_type
    &&& a.key == b.key
    &&& a.listener_type == b.listener_type
    &&& a.kind == b.kind
    &&& cloned(a.msg, b.msg)
}

/// `b` is `a`, item by item, with every message cloned.
pub open spec fn are_delivery_copies<Msg: Clone>(a: Seq<Delivery<Msg>>, b: Seq<Delivery<Msg>>) -> bool {
    &&& a.len() == b.len()
    &&& forall|i: int| 0 <= i < a.len() ==> #[trigger] is_delivery_copy(a[i], b[i])
}

/// Every listener in `ls` receives the event, in order.
pub open spec fn deliver_all<Msg: Clone>(
    t: EventTypes,
    key: ElementKey,
    ls: Seq<EventListener<Msg>>,
    kind: ElementEventKind,
) -> Seq<Delivery<Msg>>
    decreases ls.len(),
{
    if ls.len() == 0 {
        Seq::empty()
    } else {
        deliver_all(t, key, ls.drop_last(), kind).push(delivery(t, key, ls.last(), kind))
    }
}

/// The listeners of type `t` of element `key`, all receiving the event; nothing when
/// `key` holds no element.
pub open spec fn deliver_to_element<Msg: Clone>(
    m: Map<ElementKey, Element<Msg>>,
    t: EventTypes,
    key: ElementKey,
    kind: ElementEventKind,
) -> Seq<Delivery<Msg>> {
    if m.contains_key(key) {
        deliver_all(t, key, listeners_of(m[key].events@, t), kind)
    } else {
        Seq::empty()
    }
}

/// The deliveries to the listeners `ls` of one element hit by an event of type `t`,
/// given whether the event was consumed above it; and whether it is consumed after.
///
/// `Listen` and `Peek` listeners receive only an unconsumed event; `Force` listeners
/// receive it in any case; `Listen` and `Force` consume it.
pub open spec fn route_to<Msg: Clone>(
    t: EventTypes,
    key: ElementKey,
    ls: Seq<EventListener<Msg>>,
    consumed: bool,
) -> (Seq<Delivery<Msg>>, bool)
    decreases ls.len(),
{
    if ls.len() == 0 {
        (Seq::empty(), consumed)
    } else {
        let (d, c) = route_to(t, key, ls.drop_last(), consumed);
        let l = ls.last();
        let x = delivery(t, key, l, ElementEventKind::FromWindow);
        match l.listener_type {
            EventListenerTypes::Listen => if c {
                (d, c)
            } else {
                (d.push(x), true)
            },
            EventListenerTypes::Peek => if c {
                (d, c)
            } else {
                (d.push(x), c)
            },
            EventListenerTypes::Force => (d.push(x), true),
        }
    }
}

/// The deliveries of an event of type `t` to the `k` topmost elements of `ordered`
/// (the last of `ordered` is the topmost), going down; `hits[i]` tells whether the
/// cursor lies on `ordered[i]`. Also whether the event is consumed after them.
pub open spec fn route<Msg: Clone>(
    m: Map<ElementKey, Element<Msg>>,
    ordered: Seq<ElementKey>,
    hits: Seq<bool>,
    t: EventTypes,
    k: nat,
) -> (Seq<Delivery<Msg>>, bool)
    decreases k,
{
    if k == 0 {
        (Seq::empty(), false)
    } else {
        let (d, c) = route(m, ordered, hits, t, (k - 1) as nat);
        let i = ordered.len() - k;
        let key = ordered[i];
        if m.contains_key(key) && hits[i] {
            let (d2, c2) = route_to(t, key, listeners_of(m[key].events@, t), c);
            (d + d2, c2)
        } else {
            (d, c)
        }
    }
}

/// The topmost element among the first `n` of `ordered` that is held and under the cursor.
pub open spec fn topmost_hit<Msg: Clone>(
    m: Map<ElementKey, Element<Msg>>,
    ordered: Seq<ElementKey>,
    hits: Seq<bool>,
    n: nat,
) -> Option<ElementKey>
    decreases n,
{
    if n == 0 {
        None
    } else if m.contains_key(ordered[n - 1]) && hits[n - 1] {
        Some(ordered[n - 1])
    } else {
        topmost_hit(m, ordered, hits, (n - 1) as nat)
    }
}

/// Law of hovering: among the first `n` of `ordered`, the topmost hit is `None` exactly
/// when no held element is under the cursor, and otherwise the last held element under
/// the cursor.
pub proof fn lemma_topmost_hit<Msg: Clone>(
    m: Map<ElementKey, Element<Msg>>,
    ordered: Seq<ElementKey>,
    hits: Seq<bool>,
    n: nat,
)
    requires
        n <= ordered.len(),
        n <= hits.len(),
    ensures
        topmost_hit(m, ordered, hits, n) is None <==> forall|i: int|
            0 <= i < n ==> !(m.contains_key(#[trigger] ordered[i]) && hits[i]),
        topmost_hit(m, ordered, hits, n) is Some ==> exists|i: int|
            0 <= i < n && #[trigger] ordered[i] == topmost_hit(m, ordered, hits, n)->0
                && m.contains_key(ordered[i]) && hits[i] && forall|j: int|
                i < j < n ==> !(m.contains_key(#[trigger] ordered[j]) && hits[j]),
    decreases n,
{
    if n > 0 {
        lemma_topmost_hit(m, ordered, hits, (n - 1) as nat);
        let last = (n - 1) as int;
        if m.contains_key(ordered[last]) && hits[last] {
            assert(ordered[last] == topmost_hit(m, ordered, hits, n)->0);
        } else if topmost_hit(m, ordered, hits, n) is Some {
            let i = choose|i: int|
                0 <= i < n - 1 && #[trigger] ordered[i] == topmost_hit(m, ordered, hits, (n - 1) as nat)->0
                    && m.contains_key(ordered[i]) && hits[i] && forall|j: int|
                    i < j < n - 1 ==> !(m.contains_key(#[trigger] ordered[j]) && hits[j]);
            assert forall|j: int| i < j < n implies !(m.contains_key(#[trigger] ordered[j]) && hits[j]) by {
                if j < n - 1 {
                } else {
                    assert(j == last);
                }
            }
        } else {
            assert forall|i: int| 0 <= i < n implies !(m.contains_key(#[trigger] ordered[i]) && hits[i]) by {
                if i == last {
                }
            }
        }
    }
}

/// The `MouseLeave` and `MouseEnter` deliveries when the hovered element changes from
/// `old` to `new`; none when it stays.
pub open spec fn hover_deliveries<Msg: Clone>(
    m: Map<ElementKey, Element<Msg>>,
    old: Option<ElementKey>,
    new: Option<ElementKey>,
) -> Seq<Delivery<Msg>> {
    if old == new {
        Seq::empty()
    } else {
        let leave = match old {
            Some(k) => deliver_to_element(m, EventTypes::MouseLeave, k, ElementEventKind::FromWindow),
            None => Seq::empty(),
        };
        let enter = match new {
            Some(k) => deliver_to_element(m, EventTypes::MouseEnter, k, ElementEventKind::FromWindow),
            None => Seq::empty(),
        };
        leave + enter
    }
}

/// `k` has listeners for selection.
pub open spec fn has_select_listeners<Msg: Clone>(
    m: Map<ElementKey, Element<Msg>>,
    k: ElementKey,
) -> bool {
    m.contains_key(k) && listeners_of(m[k].events@, EventTypes::Select).len() > 0
}

/// The selection listeners of `k`, all receiving a selection event of kind `kind`.
pub open spec fn select_deliveries<Msg: Clone>(
    m: Map<ElementKey, Element<Msg>>,
    k: ElementKey,
    kind: ElementEventKind,
) -> Seq<Delivery<Msg>> {
    deliver_to_element(m, EventTypes::Select, k, kind)
}

/// `i` is the first position of `k` in `s`.
pub open spec fn is_first_index(s: Seq<ElementKey>, k: ElementKey, i: int) -> bool {
    &&& 0 <= i < s.len()
    &&& s[i] == k
    &&& forall|j: int| 0 <= j < i ==> s[j] != k
}

/// Moving the selection on to `next` after the deliveries `before`: `next` becomes
/// selected and its selection listeners are told so.
pub open spec fn select_move<Msg: Clone>(
    m: Map<ElementKey, Element<Msg>>,
    before: Seq<Delivery<Msg>>,
    next: ElementKey,
) -> (Option<ElementKey>, Seq<Delivery<Msg>>, Flow) {
    (Some(next), before + select_deliveries(m, next, ElementEventKind::Select), Flow::Stop)
}

/// A `SelectNext` event: the new selection, the deliveries, and whether to go on.
///
/// With nothing selected the first selectable is selected. The selected element, when
/// it has selection listeners, hands the selection on to the next selectable, or to
/// nothing after the last one. Without selection listeners on the selected element
/// nothing changes.
pub open spec fn select_next_result<Msg: Clone>(
    m: Map<ElementKey, Element<Msg>>,
    selected: Option<ElementKey>,
    selectables: Seq<ElementKey>,
) -> (Option<ElementKey>, Seq<Delivery<Msg>>, Flow) {
    match selected {
        None => if selectables.len() == 0 {
            (None, Seq::empty(), Flow::Stop)
        } else {
            select_move(m, Seq::empty(), selectables[0])
        },
        Some(s) => if selectables.len() == 0 {
            (Some(s), Seq::empty(), Flow::Continue)
        } else if !has_select_listeners(m, s) {
            (Some(s), Seq::empty(), Flow::Stop)
        } else if exists|i: int| is_first_index(selectables, s, i) {
            let i = choose|i: int| is_first_index(selectables, s, i);
            let unselect = select_deliveries(m, s, ElementEventKind::Unselect);
            if i + 1 >= selectables.len() {
                (None, unselect, Flow::Stop)
            } else {
                select_move(m, unselect, selectables[i + 1])
            }
        } else {
            select_move(
                m,
                select_deliveries(m, s, ElementEventKind::Select),
                selectables[0],
            )
        },
    }
}

/// An `Input` event goes to the input listeners of the selected element.
pub open spec fn input_deliveries<Msg: Clone>(
    m: Map<ElementKey, Element<Msg>>,
    selected: Option<ElementKey>,
) -> Seq<Delivery<Msg>> {
    match selected {
        Some(k) => deliver_to_element(m, EventTypes::Input, k, ElementEventKind::FromWindow),
        None => Seq::empty(),
    }
}

// ---------------------------------------------------------------------------
// Laws
// ---------------------------------------------------------------------------

/// The delivery is to a listener that consumes events.
pub open spec fn consumes<Msg: Clone>(d: Delivery<Msg>) -> bool {
    d.listener_type != EventListenerTypes::Peek
}

/// After a delivery that consumes the event only `Force` listeners receive it.
pub open spec fn respects_consumption<Msg: Clone>(d: Seq<Delivery<Msg>>) -> bool {
    forall|i: int, j: int|
        0 <= i < j < d.len() && consumes(#[trigger] d[i]) ==> (#[trigger] d[j]).listener_type
            == EventListenerTypes::Force
}

proof fn lemma_route_to<Msg: Clone>(
    t: EventTypes,
    key: ElementKey,
    ls: Seq<EventListener<Msg>>,
    consumed: bool,
)
    ensures
        ({
            let (d, c) = route_to(t, key, ls, consumed);
            &&& respects_consumption(d)
            &&& c == (consumed || exists|i: int| 0 <= i < d.len() && consumes(#[trigger] d[i]))
            &&& consumed ==> forall|i: int| 0 <= i < d.len() ==> (#[trigger] d[i]).listener_type
                == EventListenerTypes::Force
            &&& forall|i: int| 0 <= i < d.len() ==> (#[trigger] d[i]).key == key
                && d[i].event_type == t && d[i].kind == ElementEventKind::FromWindow
            &&& forall|l: EventListener<Msg>| #[trigger] ls.contains(l) && l.listener_type
                == EventListenerTypes::Force ==> d.contains(
                delivery(t, key, l, ElementEventKind::FromWindow),
            )
        }),
    decreases ls.len(),
{
    if ls.len() > 0 {
        lemma_route_to(t, key, ls.drop_last(), consumed);
        let (d0, c0) = route_to(t, key, ls.drop_last(), consumed);
        let (d, c) = route_to(t, key, ls, consumed);
        let l = ls.last();
        let x = delivery(t, key, l, ElementEventKind::FromWindow);
        assert forall|f: EventListener<Msg>| #[trigger] ls.contains(f) && f.listener_type
            == EventListenerTypes::Force implies d.contains(
            delivery(t, key, f, ElementEventKind::FromWindow),
        ) by {
            let j = choose|j: int| 0 <= j < ls.len() && ls[j] == f;
            if j < ls.len() - 1 {
                assert(ls.drop_last()[j] == f);
                assert(ls.drop_last().contains(f));
                let q = choose|q: int|
                    0 <= q < d0.len() && d0[q] == delivery(t, key, f, ElementEventKind::FromWindow);
                assert(d[q] == d0[q]);
            } else {
                assert(d[d.len() - 1] == x);
            }
        }
        if exists|i: int| 0 <= i < d0.len() && consumes(#[trigger] d0[i]) {
            let w = choose|i: int| 0 <= i < d0.len() && consumes(#[trigger] d0[i]);
            assert(d[w] == d0[w]);
        }
        if c {
            if !consumed && !(exists|i: int| 0 <= i < d0.len() && consumes(#[trigger] d0[i])) {
                assert(consumes(d[d.len() - 1]));
            }
        }
    }
}

/// Every delivery of `deliver_all` is of type `t`, to `key`, of kind `kind`, one per listener.
pub proof fn lemma_deliver_all<Msg: Clone>(
    t: EventTypes,
    key: ElementKey,
    ls: Seq<EventListener<Msg>>,
    kind: ElementEventKind,
)
    ensures
        deliver_all(t, key, ls, kind).len() == ls.len(),
        forall|i: int| 0 <= i < ls.len() ==> #[trigger] deliver_all(t, key, ls, kind)[i] == delivery(
            t,
            key,
            ls[i],
            kind,
        ),
    decreases ls.len(),
{
    if ls.len() > 0 {
        lemma_deliver_all(t, key, ls.drop_last(), kind);
        assert forall|i: int| 0 <= i < ls.len() implies #[trigger] deliver_all(t, key, ls, kind)[i]
            == delivery(t, key, ls[i], kind) by {
            if i < ls.len() - 1 {
                assert(ls.drop_last()[i] == ls[i]);
            }
        }
    }
}

/// Laws of the event router, of an event of type `t` over the drawing order `ordered`
/// with the hit-test results `hits`:
/// - `Listen` and `Peek` listeners only receive an unconsumed event, and `Listen` and
///   `Force` listeners consume it: after a delivery to a `Listen` or `Force` listener
///   only `Force` listeners receive the event;
/// - consequently at most one `Listen` listener receives the event;
/// - every `Force` listener of an element under the cursor receives the event;
/// - every delivery is of type `t`.
pub proof fn lemma_route_laws<Msg: Clone>(
    m: Map<ElementKey, Element<Msg>>,
    ordered: Seq<ElementKey>,
    hits: Seq<bool>,
    t: EventTypes,
)
    requires
        hits.len() == ordered.len(),
    ensures
        respects_consumption(route(m, ordered, hits, t, ordered.len()).0),
        forall|i: int|
            0 <= i < route(m, ordered, hits, t, ordered.len()).0.len() ==> (#[trigger] route(
                m,
                ordered,
                hits,
                t,
                ordered.len(),
            ).0[i]).event_type == t,
        forall|i: int, j: int|
            0 <= i < j < route(m, ordered, hits, t, ordered.len()).0.len() ==> !(
            (#[trigger] route(m, ordered, hits, t, ordered.len()).0[i]).listener_type
                == EventListenerTypes::Listen && (#[trigger] route(
                m,
                ordered,
                hits,
                t,
                ordered.len(),
            ).0[j]).listener_type == EventListenerTypes::Listen),
        forall|i: int, l: EventListener<Msg>|
            0 <= i < ordered.len() && m.contains_key(ordered[i]) && hits[i] && #[trigger] listeners_of(
                m[ordered[i]].events@,
                t,
            ).contains(l) && l.listener_type == EventListenerTypes::Force ==> route(
                m,
                ordered,
                hits,
                t,
                ordered.len(),
            ).0.contains(delivery(t, ordered[i], l, ElementEventKind::FromWindow)),
{
    lemma_route(m, ordered, hits, t, ordered.len());
    let d = route(m, ordered, hits, t, ordered.len()).0;
    assert forall|i: int, j: int| 0 <= i < j < d.len() implies !((#[trigger] d[i]).listener_type
        == EventListenerTypes::Listen && (#[trigger] d[j]).listener_type
        == EventListenerTypes::Listen) by {
        if d[i].listener_type == EventListenerTypes::Listen {
            assert(consumes(d[i]));
        }
    }
}

proof fn lemma_route<Msg: Clone>(
    m: Map<ElementKey, Element<Msg>>,
    ordered: Seq<ElementKey>,
    hits: Seq<bool>,
    t: EventTypes,
    k: nat,
)
    requires
        hits.len() == ordered.len(),
        k <= ordered.len(),
    ensures
        ({
            let (d, c) = route(m, ordered, hits, t, k);
            &&& respects_consumption(d)
            &&& c == exists|i: int| 0 <= i < d.len() && consumes(#[trigger] d[i])
            &&& forall|i: int| 0 <= i < d.len() ==> (#[trigger] d[i]).event_type == t
            &&& forall|i: int, l: EventListener<Msg>|
                ordered.len() - k <= i < ordered.len() && m.contains_key(ordered[i]) && hits[i]
                    && #[trigger] listeners_of(m[ordered[i]].events@, t).contains(l)
                    && l.listener_type == EventListenerTypes::Force ==> d.contains(
                    delivery(t, ordered[i], l, ElementEventKind::FromWindow),
                )
        }),
    decreases k,
{
    if k > 0 {
        lemma_route(m, ordered, hits, t, (k - 1) as nat);
        let (d0, c0) = route(m, ordered, hits, t, (k - 1) as nat);
        let (d, c) = route(m, ordered, hits, t, k);
        let i0 = ordered.len() - k;
        let key = ordered[i0];
        if m.contains_key(key) && hits[i0] {
            let ls = listeners_of(m[key].events@, t);
            lemma_route_to(t, key, ls, c0);
            let (d2, c2) = route_to(t, key, ls, c0);
            assert(d == d0 + d2);
            assert forall|i: int| 0 <= i < d.len() implies (#[trigger] d[i]).event_type == t by {
                if i < d0.len() {
                    assert(d[i] == d0[i]);
                } else {
                    assert(d[i] == d2[i - d0.len()]);
                }
            }
            assert forall|i: int, j: int| 0 <= i < j < d.len() && consumes(#[trigger] d[i]) implies (
            #[trigger] d[j]).listener_type == EventListenerTypes::Force by {
                if j < d0.len() {
                    assert(d[i] == d0[i] && d[j] == d0[j]);
                } else if i < d0.len() {
                    assert(d[i] == d0[i]);
                    assert(d[j] == d2[j - d0.len()]);
                } else {
                    assert(d[i] == d2[i - d0.len()]);
                    assert(d[j] == d2[j - d0.len()]);
                }
            }
            if exists|i: int| 0 <= i < d0.len() && consumes(#[trigger] d0[i]) {
                let w = choose|i: int| 0 <= i < d0.len() && consumes(#[trigger] d0[i]);
                assert(d[w] == d0[w]);
            }
            if exists|i: int| 0 <= i < d2.len() && consumes(#[trigger] d2[i]) {
                let w = choose|i: int| 0 <= i < d2.len() && consumes(#[trigger] d2[i]);
                assert(d[d0.len() + w] == d2[w]);
            }
            if exists|i: int| 0 <= i < d.len() && consumes(#[trigger] d[i]) {
                let w = choose|i: int| 0 <= i < d.len() && consumes(#[trigger] d[i]);
                if w < d0.len() {
                    assert(d0[w] == d[w]);
                } else {
                    assert(d2[w - d0.len()] == d[w]);
                }
            }
            assert forall|i: int, l: EventListener<Msg>|
                ordered.len() - k <= i < ordered.len() && m.contains_key(ordered[i]) && hits[i]
                    && #[trigger] listeners_of(m[ordered[i]].events@, t).contains(l)
                    && l.listener_type == EventListenerTypes::Force implies d.contains(
                delivery(t, ordered[i], l, ElementEventKind::FromWindow),
            ) by {
                let x = delivery(t, ordered[i], l, ElementEventKind::FromWindow);
                if i == i0 {
                    let q = choose|q: int| 0 <= q < d2.len() && d2[q] == x;
                    assert(d[d0.len() + q] == x);
                } else {
                    let q = choose|q: int| 0 <= q < d0.len() && d0[q] == x;
                    assert(d[q] == x);
                }
            }
        } else {
            assert forall|i: int, l: EventListener<Msg>|
                ordered.len() - k <= i < ordered.len() && m.contains_key(ordered[i]) && hits[i]
                    && #[trigger] listeners_of(m[ordered[i]].events@, t).contains(l)
                    && l.listener_type == EventListenerTypes::Force implies d.contains(
                delivery(t, ordered[i], l, ElementEventKind::FromWindow),
            ) by {
                assert(i != i0);
            }
        }
    }
}

} // verus!

verus! {

/// The selection after `k` `SelectNext` events, starting from `selected`.
pub open spec fn selection_after<Msg: Clone>(
    m: Map<ElementKey, Element<Msg>>,
    selected: Option<ElementKey>,
    selectables: Seq<ElementKey>,
    k: nat,
) -> Option<ElementKey>
    decreases k,
{
    if k == 0 {
        selected
    } else {
        select_next_result(m, selection_after(m, selected, selectables, (k - 1) as nat), selectables).0
    }
}

/// Law of keyboard selection: starting from nothing selected, `SelectNext` selects the
/// selectables one after another in tree order, and after the last one nothing is
/// selected again, when each selectable is listed once and listens to selection.
pub proof fn lemma_select_cycle<Msg: Clone>(
    m: Map<ElementKey, Element<Msg>>,
    selectables: Seq<ElementKey>,
)
    requires
        selectables.no_duplicates(),
        forall|i: int| 0 <= i < selectables.len() ==> has_select_listeners(m, #[trigger] selectables[i]),
    ensures
        forall|k: int| 0 <= k < selectables.len() ==> #[trigger] selection_after(
            m,
            None,
            selectables,
            (k + 1) as nat,
        ) == Some(selectables[k]),
        selection_after(m, None, selectables, selectables.len() + 1) == None::<ElementKey>,
{
    let n = selectables.len();
    assert forall|k: int| 0 <= k < n implies #[trigger] selection_after(
        m,
        None,
        selectables,
        (k + 1) as nat,
    ) == Some(selectables[k]) by {
        lemma_select_step(m, selectables, k);
    }
    if n == 0 {
        assert(selection_after(m, None, selectables, 1) == None::<ElementKey>);
    } else {
        lemma_select_step(m, selectables, n - 1);
        lemma_first_index_of_distinct(selectables, n - 1);
        let last = selectables[n - 1];
        assert(has_select_listeners(m, last));
        assert(exists|i: int| is_first_index(selectables, last, i));
        let c = choose|i: int| is_first_index(selectables, last, i);
        assert(c == n - 1);
        assert(select_next_result(m, Some(last), selectables).0 == None::<ElementKey>);
    }
}

proof fn lemma_first_index_of_distinct(s: Seq<ElementKey>, k: int)
    requires
        s.no_duplicates(),
        0 <= k < s.len(),
    ensures
        is_first_index(s, s[k], k),
        forall|i: int| is_first_index(s, s[k], i) ==> i == k,
{
    assert forall|i: int| is_first_index(s, s[k], i) implies i == k by {
        if i < k {
            assert(s[i] == s[k]);
        } else if k < i {
            assert(s[k] != s[k]);
        }
    }
}

proof fn lemma_select_step<Msg: Clone>(
    m: Map<ElementKey, Element<Msg>>,
    selectables: Seq<ElementKey>,
    k: int,
)
    requires
        selectables.no_duplicates(),
        forall|i: int| 0 <= i < selectables.len() ==> has_select_listeners(m, #[trigger] selectables[i]),
        0 <= k < selectables.len(),
    ensures
        selection_after(m, None, selectables, (k + 1) as nat) == Some(selectables[k]),
    decreases k,
{
    if k > 0 {
        lemma_select_step(m, selectables, k - 1);
        lemma_first_index_of_distinct(selectables, k - 1);
        let prev = selectables[k - 1];
        assert(has_select_listeners(m, prev));
        assert(selection_after(m, None, selectables, k as nat) == Some(prev));
        assert(exists|i: int| is_first_index(selectables, prev, i));
        let c = choose|i: int| is_first_index(selectables, prev, i);
        assert(c == k - 1);
        assert(select_next_result(m, Some(prev), selectables).0 == Some(selectables[k]));
    } else {
        assert(select_next_result(m, None, selectables).0 == Some(selectables[0]));
    }
}

/// The delivery of an event of type `t` to each of `ls`, with its message.
proof fn lemma_deliver_all_push<Msg: Clone>(
    t: EventTypes,
    key: ElementKey,
    s: Seq<EventListener<Msg>>,
    x: EventListener<Msg>,
    kind: ElementEventKind,
)
    ensures
        deliver_all(t, key, s.push(x), kind) == deliver_all(t, key, s, kind).push(
            delivery(t, key, x, kind),
        ),
{
    assert(s.push(x).drop_last() =~= s);
}

/// Law of one element's listeners: an event is consumed after them exactly when it was
/// consumed before or one of them is a `Listen` or `Force` listener.
pub proof fn lemma_route_to_consumes<Msg: Clone>(
    t: EventTypes,
    key: ElementKey,
    ls: Seq<EventListener<Msg>>,
    consumed: bool,
)
    ensures
        route_to(t, key, ls, consumed).1 == (consumed || exists|j: int|
            0 <= j < ls.len() && (#[trigger] ls[j]).listener_type != EventListenerTypes::Peek),
    decreases ls.len(),
{
    if ls.len() > 0 {
        let s = ls.drop_last();
        lemma_route_to_consumes(t, key, s, consumed);
        if exists|j: int| 0 <= j < s.len() && (#[trigger] s[j]).listener_type != EventListenerTypes::Peek {
            let j = choose|j: int| 0 <= j < s.len() && (#[trigger] s[j]).listener_type != EventListenerTypes::Peek;
            assert(ls[j] == s[j]);
        }
        if exists|j: int| 0 <= j < ls.len() && (#[trigger] ls[j]).listener_type != EventListenerTypes::Peek {
            let j = choose|j: int| 0 <= j < ls.len() && (#[trigger] ls[j]).listener_type != EventListenerTypes::Peek;
            if j < ls.len() - 1 {
                assert(s[j] == ls[j]);
            }
        }
    }
}

/// Law of one element's listeners, in closed form. Let `p` be the position of the
/// first `Listen` or `Force` listener of `ls` (`ls.len()` when there is none). On an
/// event not yet consumed, the listeners up to and including position `p` receive it
/// in their order (so a `Peek` listener never keeps a later listener from it), and
/// after that only the `Force` listeners do; on a consumed event only the `Force`
/// listeners receive it.
pub proof fn lemma_route_to_closed_form<Msg: Clone>(
    t: EventTypes,
    key: ElementKey,
    ls: Seq<EventListener<Msg>>,
    consumed: bool,
    p: int,
)
    requires
        0 <= p <= ls.len(),
        forall|j: int| 0 <= j < p ==> (#[trigger] ls[j]).listener_type == EventListenerTypes::Peek,
        p < ls.len() ==> ls[p].listener_type != EventListenerTypes::Peek,
    ensures
        ({
            let (d, c) = route_to(t, key, ls, consumed);
            let forces = ls.filter(
                |l: EventListener<Msg>| l.listener_type == EventListenerTypes::Force,
            );
            let w = ElementEventKind::FromWindow;
            &&& consumed ==> d == deliver_all(t, key, forces, w) && c
            &&& !consumed && p == ls.len() ==> d == deliver_all(t, key, ls, w) && !c
            &&& !consumed && p < ls.len() ==> c && d == deliver_all(t, key, ls.take(p + 1), w)
                + deliver_all(
                t,
                key,
                ls.skip(p + 1).filter(
                    |l: EventListener<Msg>| l.listener_type == EventListenerTypes::Force,
                ),
                w,
            )
            &&& !consumed ==> forall|j: int|
                0 <= j <= p && j < ls.len() ==> j < d.len() && #[trigger] d[j] == delivery(
                    t,
                    key,
                    ls[j],
                    w,
                )
        }),
    decreases ls.len(),
{
    let f = |l: EventListener<Msg>| l.listener_type == EventListenerTypes::Force;
    let w = ElementEventKind::FromWindow;
    let n = ls.len();
    if n == 0 {
        crate::order::lemma_filter_none(ls, f);
    } else {
        let s = ls.drop_last();
        let l = ls.last();
        let x = delivery(t, key, l, w);
        assert(ls =~= s.push(l));
        let pp = if p < n - 1 { p } else { n - 1 };
        assert forall|j: int| 0 <= j < pp implies (#[trigger] s[j]).listener_type
            == EventListenerTypes::Peek by {
            assert(s[j] == ls[j]);
        }
        if pp < s.len() {
            assert(s[pp] == ls[pp]);
        }
        lemma_route_to_closed_form(t, key, s, consumed, pp);
        let (d0, c0) = route_to(t, key, s, consumed);
        let (d, c) = route_to(t, key, ls, consumed);
        crate::order::lemma_filter_push(s, l, f);
        lemma_deliver_all_push(t, key, s, l, w);
        if consumed {
            lemma_deliver_all_push(t, key, s.filter(f), l, w);
        } else if p == n {
            assert(l.listener_type == EventListenerTypes::Peek);
        } else if p == n - 1 {
            assert(ls.take(p + 1) =~= ls);
            assert(ls.skip(p + 1) =~= Seq::<EventListener<Msg>>::empty());
            crate::order::lemma_filter_none(ls.skip(p + 1), f);
            assert(deliver_all(t, key, Seq::<EventListener<Msg>>::empty(), w) =~= Seq::<Delivery<Msg>>::empty());
            assert(d =~= deliver_all(t, key, ls.take(p + 1), w) + deliver_all(t, key, ls.skip(p + 1).filter(f), w));
        } else {
            assert(ls.take(p + 1) =~= s.take(p + 1));
            assert(ls.skip(p + 1) =~= s.skip(p + 1).push(l));
            crate::order::lemma_filter_push(s.skip(p + 1), l, f);
            lemma_deliver_all_push(t, key, s.skip(p + 1).filter(f), l, w);
            let a = deliver_all(t, key, s.take(p + 1), w);
            let b = deliver_all(t, key, s.skip(p + 1).filter(f), w);
            assert((a + b).push(x) =~= a + b.push(x));
        }
        if !consumed {
            if p == n {
                lemma_deliver_all(t, key, ls, w);
            } else {
                lemma_deliver_all(t, key, ls.take(p + 1), w);
                assert forall|j: int| 0 <= j <= p && j < ls.len() implies j < d.len() && #[trigger] d[j]
                    == delivery(t, key, ls[j], w) by {
                    assert(ls.take(p + 1)[j] == ls[j]);
                }
            }
        }
    }
}

/// The position of the first `Listen` or `Force` listener of `ls`, `ls.len()` when there
/// is none.
proof fn lemma_first_consumer<Msg: Clone>(ls: Seq<EventListener<Msg>>) -> (p: int)
    ensures
        0 <= p <= ls.len(),
        forall|j: int| 0 <= j < p ==> (#[trigger] ls[j]).listener_type == EventListenerTypes::Peek,
        p < ls.len() ==> ls[p].listener_type != EventListenerTypes::Peek,
    decreases ls.len(),
{
    if ls.len() == 0 {
        0
    } else {
        let s = ls.drop_last();
        let q = lemma_first_consumer(s);
        assert forall|j: int| 0 <= j < q implies (#[trigger] ls[j]).listener_type
            == EventListenerTypes::Peek by {
            assert(s[j] == ls[j]);
        }
        if q < s.len() {
            assert(s[q] == ls[q]);
            q
        } else if ls.last().listener_type == EventListenerTypes::Peek {
            ls.len() as int
        } else {
            q
        }
    }
}

/// The deliveries of the `k` topmost elements stay among those of more elements.
proof fn lemma_route_grows<Msg: Clone>(
    m: Map<ElementKey, Element<Msg>>,
    ordered: Seq<ElementKey>,
    hits: Seq<bool>,
    t: EventTypes,
    k1: nat,
    k2: nat,
    x: Delivery<Msg>,
)
    requires
        k1 <= k2 <= ordered.len(),
        hits.len() == ordered.len(),
        route(m, ordered, hits, t, k1).0.contains(x),
    ensures
        route(m, ordered, hits, t, k2).0.contains(x),
    decreases k2,
{
    if k1 < k2 {
        lemma_route_grows(m, ordered, hits, t, k1, (k2 - 1) as nat, x);
        let d0 = route(m, ordered, hits, t, (k2 - 1) as nat).0;
        let d = route(m, ordered, hits, t, k2).0;
        let q = choose|q: int| 0 <= q < d0.len() && d0[q] == x;
        assert(d[q] == x);
    }
}

/// The event is consumed after the `k` topmost elements exactly when one of them is
/// held, under the cursor and has a `Listen` or `Force` listener of type `t`.
proof fn lemma_route_consumed<Msg: Clone>(
    m: Map<ElementKey, Element<Msg>>,
    ordered: Seq<ElementKey>,
    hits: Seq<bool>,
    t: EventTypes,
    k: nat,
)
    requires
        k <= ordered.len(),
        hits.len() == ordered.len(),
    ensures
        route(m, ordered, hits, t, k).1 == exists|i: int, j: int|
            ordered.len() - k <= i < ordered.len() && m.contains_key(ordered[i]) && hits[i] && 0 <= j
                < listeners_of(m[ordered[i]].events@, t).len() && (#[trigger] listeners_of(
                m[#[trigger] ordered[i]].events@,
                t,
            )[j]).listener_type != EventListenerTypes::Peek,
    decreases k,
{
    if k > 0 {
        lemma_route_consumed(m, ordered, hits, t, (k - 1) as nat);
        let i0 = ordered.len() - k;
        let key = ordered[i0];
        let c0 = route(m, ordered, hits, t, (k - 1) as nat).1;
        if m.contains_key(key) && hits[i0] {
            lemma_route_to_consumes(t, key, listeners_of(m[key].events@, t), c0);
        }
        if exists|i: int, j: int|
            ordered.len() - k <= i < ordered.len() && m.contains_key(ordered[i]) && hits[i] && 0 <= j
                < listeners_of(m[ordered[i]].events@, t).len() && (#[trigger] listeners_of(
                m[#[trigger] ordered[i]].events@,
                t,
            )[j]).listener_type != EventListenerTypes::Peek {
            let (i, j) = choose|i: int, j: int|
                ordered.len() - k <= i < ordered.len() && m.contains_key(ordered[i]) && hits[i] && 0
                    <= j < listeners_of(m[ordered[i]].events@, t).len() && (#[trigger] listeners_of(
                    m[#[trigger] ordered[i]].events@,
                    t,
                )[j]).listener_type != EventListenerTypes::Peek;
            if i == i0 {
            } else {
            }
        }
    }
}

/// Law of the event router: on an element `ordered[i]` under the cursor, when no element
/// above it under the cursor has a `Listen` or `Force` listener of type `t`, the event
/// reaches its listener at position `j` whenever all listeners before that one are
/// `Peek` listeners: `Peek` listeners never keep a later `Listen` or `Peek` listener
/// from an unconsumed event.
pub proof fn lemma_route_reaches_unconsumed<Msg: Clone>(
    m: Map<ElementKey, Element<Msg>>,
    ordered: Seq<ElementKey>,
    hits: Seq<bool>,
    t: EventTypes,
    i: int,
    j: int,
)
    requires
        hits.len() == ordered.len(),
        0 <= i < ordered.len(),
        m.contains_key(ordered[i]),
        hits[i],
        0 <= j < listeners_of(m[ordered[i]].events@, t).len(),
        forall|q: int|
            0 <= q < j ==> (#[trigger] listeners_of(m[ordered[i]].events@, t)[q]).listener_type
                == EventListenerTypes::Peek,
        forall|a: int, q: int|
            i < a < ordered.len() && m.contains_key(ordered[a]) && hits[a] && 0 <= q < listeners_of(
                m[ordered[a]].events@,
                t,
            ).len() ==> (#[trigger] listeners_of(m[#[trigger] ordered[a]].events@, t)[q]).listener_type
                == EventListenerTypes::Peek,
    ensures
        route(m, ordered, hits, t, ordered.len()).0.contains(
            delivery(t, ordered[i], listeners_of(m[ordered[i]].events@, t)[j], ElementEventKind::FromWindow),
        ),
{
    let k = (ordered.len() - i) as nat;
    let key = ordered[i];
    let ls = listeners_of(m[key].events@, t);
    lemma_route_consumed(m, ordered, hits, t, (k - 1) as nat);
    let (d0, c0) = route(m, ordered, hits, t, (k - 1) as nat);
    assert(!c0);
    let p = lemma_first_consumer(ls);
    if p < j {
        assert(ls[p].listener_type == EventListenerTypes::Peek);
    }
    lemma_route_to_closed_form(t, key, ls, false, p);
    let (d2, c2) = route_to(t, key, ls, false);
    let x = delivery(t, key, ls[j], ElementEventKind::FromWindow);
    assert(d2[j] == x);
    let d = route(m, ordered, hits, t, k).0;
    assert(d == d0 + d2);
    assert(d[d0.len() + j] == x);
    lemma_route_grows(m, ordered, hits, t, k, ordered.len() as nat, x);
}

} // verus!
