use vstd::prelude::*;

verus! {

/// An event describing one user activation of a menu item, carrying the
/// logical identifier of the activated node.
#[derive(Clone, Copy, PartialEq, Eq, Structural, Debug)]
pub struct MenuEvent {
    pub id: u32,
}

/// The event dispatch channel: a first-in-first-out queue of activation
/// events.
///
/// Native activation callbacks push events through `send` (a check item's
/// toggle callback does so through the menu's synchronizer); the application
/// drains the queue with non-blocking `try_recv` calls, independently of
/// which surface produced the click.  Its view is the sequence of pending
/// event identifiers, oldest first.
pub struct EventChannel {
    pending: Vec<u32>,
}

impl View for EventChannel {
    type V = Seq<u32>;

    closed spec fn view(&self) -> Seq<u32> {
        self.pending@
    }
}

impl EventChannel {
    pub fn new() -> (r: EventChannel)
        ensures
            r@ == Seq::<u32>::empty(),
    {
        EventChannel { pending: Vec::new() }
    }

    /// Enqueues one event; nothing is ever dropped or reordered.
    pub fn send(&mut self, event: MenuEvent)
        ensures
            final(self)@ == old(self)@.push(event.id),
    {
        self.pending.push(event.id);
    }

    /// Removes and returns the oldest pending event, or `None` exactly when
    /// the queue is empty.
    pub fn try_recv(&mut self) -> (r: Option<MenuEvent>)
        ensures
            old(self)@.len() == 0 ==> r is None && final(self)@ == old(self)@,
            old(self)@.len() > 0 ==> r == Some(MenuEvent { id: old(self)@[0] })
                && final(self)@ == old(self)@.drop_first(),
    {
        if self.pending.len() == 0 {
            None
        } else {
            let id = self.pending.remove(0);
            assert(final(self)@ =~= old(self)@.drop_first());
            Some(MenuEvent { id })
        }
    }

    /// How many events are pending.
    pub fn len(&self) -> (r: usize)
        ensures
            r == self@.len(),
    {
        self.pending.len()
    }
}

} // verus!
