//! Event listeners attached to an element.

use vstd::prelude::*;

use crate::events::EventTypes;

verus! {

/// Describes the privilege level of a listener.
#[derive(Debug, Clone, Copy, PartialEq, Eq, Structural)]
pub enum EventListenerTypes {
    /// Normal listener: catches only unconsumed events and then consumes them.
    Listen,
    /// Catches only unconsumed events and does not consume them (for overlays).
    Peek,
    /// Catches consumed and unconsumed events and consumes them (for backgrounds).
    Force,
}

impl Default for EventListenerTypes {
    fn default() -> (r: Self)
        ensures
            r == EventListenerTypes::Listen,
    {
        EventListenerTypes::Listen
    }
}

/// Listens to one type of event and answers it with a message.
#[derive(Debug, Clone)]
pub struct EventListener<Msg: Clone> {
    pub event_type: EventTypes,
    pub listener_type: EventListenerTypes,
    pub msg: Msg,
}

/// `b` is `a` with its message cloned.
pub open spec fn is_copy_of<Msg: Clone>(a: EventListener<Msg>, b: EventListener<Msg>) -> bool {
    &&& a.event_type == b.event_type
    &&& a.listener_type == b.listener_type
    &&& cloned(a.msg, b.msg)
}

/// `b` is `a`, item by item, with every message cloned.
pub open spec fn are_copies_of<Msg: Clone>(
    a: Seq<EventListener<Msg>>,
    b: Seq<EventListener<Msg>>,
) -> bool {
    &&& a.len() == b.len()
    &&& forall|i: int| 0 <= i < a.len() ==> #[trigger] is_copy_of(a[i], b[i])
}

/// The predicate "listens to events of type `t`".
pub open spec fn listens_to<Msg: Clone>(t: EventTypes) -> spec_fn(EventListener<Msg>) -> bool {
    |l: EventListener<Msg>| l.event_type == t
}

/// The listeners of `s` that listen to `t`, in their order.
pub open spec fn listeners_of<Msg: Clone>(
    s: Seq<EventListener<Msg>>,
    t: EventTypes,
) -> Seq<EventListener<Msg>> {
    s.filter(listens_to(t))
}

impl<Msg: Clone> EventListener<Msg> {
    /// A copy of this listener whose message is a clone.
    pub fn duplicate(&self) -> (r: Self)
        ensures
            is_copy_of(*self, r),
    {
        EventListener {
            event_type: self.event_type,
            listener_type: self.listener_type,
            msg: self.msg.clone(),
        }
    }
}

/// Holds all event listeners of an element, in the order they were added.
#[derive(Debug, Clone)]
pub struct EventListeners<Msg: Clone> {
    pub(crate) events: Vec<EventListener<Msg>>,
}

impl<Msg: Clone> View for EventListeners<Msg> {
    type V = Seq<EventListener<Msg>>;

    closed spec fn view(&self) -> Seq<EventListener<Msg>> {
        self.events@
    }
}

impl<Msg: Clone> Default for EventListeners<Msg> {
    fn default() -> (r: Self)
        ensures
            r@ == Seq::<EventListener<Msg>>::empty(),
    {
        EventListeners::new()
    }
}

impl<Msg: Clone> EventListeners<Msg> {
    /// No listeners.
    pub fn new() -> (r: Self)
        ensures
            r@ == Seq::<EventListener<Msg>>::empty(),
    {
        EventListeners { events: Vec::new() }
    }

    /// The listeners, in the order they were added.
    pub fn as_vec(&self) -> (r: &Vec<EventListener<Msg>>)
        ensures
            r@ == self@,
    {
        &self.events
    }

    /// Normal type of event listener.
    ///
    /// This listener will only catch unconsumed events and will then consume it.
    pub fn listen(&mut self, event_type: EventTypes, msg: Msg)
        ensures
            final(self)@ == old(self)@.push(
                EventListener { event_type, listener_type: EventListenerTypes::Listen, msg },
            ),
    {
        self.events.push(
            EventListener { event_type, listener_type: EventListenerTypes::Listen, msg },
        )
    }

    /// Special type of event listener.
    ///
    /// This listener will catch both consumed and unconsumed events and will consume them.
    pub fn force(&mut self, event_type: EventTypes, msg: Msg)
        ensures
            final(self)@ == old(self)@.push(
                EventListener { event_type, listener_type: EventListenerTypes::Force, msg },
            ),
    {
        self.events.push(
            EventListener { event_type, listener_type: EventListenerTypes::Force, msg },
        )
    }

    /// Special type of event listener.
    ///
    /// This listener will only catch unconsumed events and will not consume it.
    pub fn peek(&mut self, event_type: EventTypes, msg: Msg)
        ensures
            final(self)@ == old(self)@.push(
                EventListener { event_type, listener_type: EventListenerTypes::Peek, msg },
            ),
    {
        self.events.push(
            EventListener { event_type, listener_type: EventListenerTypes::Peek, msg },
        )
    }

    /// Copies of the listeners for `event_type`, in order, or `None` when there are none.
    pub fn get(&self, event_type: &EventTypes) -> (r: Option<Vec<EventListener<Msg>>>)
        ensures
            match r {
                None => listeners_of(self@, *event_type).len() == 0,
                Some(v) => {
                    &&& v@.len() > 0
                    &&& are_copies_of(listeners_of(self@, *event_type), v@)
                },
            },
    {
        let mut collection: Vec<EventListener<Msg>> = Vec::new();
        let n = self.events.len();
        for i in 0..n
            invariant
                n == self.events@.len(),
                are_copies_of(listeners_of(self.events@.take(i as int), *event_type), collection@),
        {
            let e = &self.events[i];
            proof {
                reveal_with_fuel(Seq::filter, 1);
                assert(self.events@.take(i + 1).drop_last() =~= self.events@.take(i as int));
            }
            if e.event_type == *event_type {
                let c = e.duplicate();
                collection.push(c);
                assert(is_copy_of(listeners_of(self.events@.take(i + 1), *event_type).last(), c));
            }
        }
        assert(self.events@.take(n as int) =~= self.events@);
        if collection.len() == 0 {
            None
        } else {
            Some(collection)
        }
    }
}

} // verus!
