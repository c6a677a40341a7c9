//! Bounded multi-consumer broadcast of dashboard events.
//!
//! A bus keeps the newest `capacity` events of an ever-growing sequence.
//! Every subscriber has its own cursor into that sequence. Sending never
//! blocks and succeeds with or without subscribers; a subscriber that falls
//! more than `capacity` events behind observes a gap signal naming how many
//! events it missed and resumes at the oldest retained event.

use vstd::prelude::*;

verus! {

/// What one receive attempt observes.
#[derive(Debug)]
pub enum Received<'a, T> {
    /// The next event in sequence.
    Event(&'a T),
    /// The subscriber lagged: this many events were dropped; the cursor now
    /// rests on the oldest retained event.
    Lagged(u64),
    /// Nothing new.
    Empty,
}

/// A bounded broadcast bus.
pub struct EventBus<T> {
    capacity: usize,
    next_seq: u64,
    buffer: Vec<T>,
    cursors: Vec<u64>,
}

impl<T> EventBus<T> {
    /// How many events were ever sent.
    pub closed spec fn total(&self) -> u64 {
        self.next_seq
    }

    /// The retained window, oldest first.
    pub closed spec fn window(&self) -> Seq<T> {
        self.buffer@
    }

    /// The sequence number of the oldest retained event.
    pub open spec fn oldest(&self) -> int {
        self.total() - self.window().len()
    }

    /// The bus capacity.
    pub closed spec fn cap(&self) -> int {
        self.capacity as int
    }

    /// The subscribers' cursors.
    pub closed spec fn cursors_view(&self) -> Seq<u64> {
        self.cursors@
    }

    pub open spec fn wf(&self) -> bool {
        &&& self.cap() >= 1
        &&& self.window().len() <= self.cap()
        &&& self.window().len() <= self.total()
        &&& forall|i: int|
            0 <= i < self.cursors_view().len() ==> #[trigger] self.cursors_view()[i]
                <= self.total()
    }

    /// A bus retaining at most `capacity` events; a zero capacity falls
    /// back to 256.
    pub fn new(capacity: usize) -> (r: Self)
        ensures
            r.wf(),
            r.total() == 0,
            r.window() == Seq::<T>::empty(),
            r.cursors_view() == Seq::<u64>::empty(),
            capacity >= 1 ==> r.cap() == capacity,
            capacity == 0 ==> r.cap() == 256,
    {
        let cap = if capacity >= 1 {
            capacity
        } else {
            256
        };
        let r = EventBus { capacity: cap, next_seq: 0, buffer: Vec::new(), cursors: Vec::new() };
        proof {
            assert(r.window() =~= Seq::<T>::empty());
            assert(r.cursors_view() =~= Seq::<u64>::empty());
        }
        r
    }

    /// Register a new subscriber, whose cursor starts at the present; the
    /// result is its subscriber id.
    pub fn subscribe(&mut self) -> (id: usize)
        requires
            old(self).wf(),
        ensures
            final(self).wf(),
            id == old(self).cursors_view().len(),
            final(self).cursors_view() == old(self).cursors_view().push(old(self).total()),
            final(self).total() == old(self).total(),
            final(self).window() == old(self).window(),
            final(self).cap() == old(self).cap(),
    {
        let id = self.cursors.len();
        let seq = self.next_seq;
        self.cursors.push(seq);
        proof {
            assert forall|i: int|
                0 <= i < self.cursors_view().len() implies #[trigger] self.cursors_view()[i]
                <= self.total() by {
                if i < old(self).cursors_view().len() {
                    assert(old(self).cursors_view()[i] <= old(self).total());
                }
            }
        }
        id
    }

    /// Broadcast an event: it enters the window, evicting the oldest event
    /// when the window is full. Sending never blocks and needs no
    /// subscribers.
    pub fn send(&mut self, event: T)
        requires
            old(self).wf(),
            old(self).total() < u64::MAX,
        ensures
            final(self).wf(),
            final(self).total() == old(self).total() + 1,
            final(self).cap() == old(self).cap(),
            final(self).cursors_view() == old(self).cursors_view(),
            ({
                if old(self).window().len() == old(self).cap() {
                    final(self).window() == old(self).window().drop_first().push(event)
                } else {
                    final(self).window() == old(self).window().push(event)
                }
            }),
    {
        if self.buffer.len() == self.capacity {
            let _ = self.buffer.remove(0);
            proof {
                assert(self.buffer@ =~= old(self).buffer@.drop_first());
            }
        }
        self.buffer.push(event);
        self.next_seq = self.next_seq + 1;
        proof {
            assert forall|i: int|
                0 <= i < self.cursors_view().len() implies #[trigger] self.cursors_view()[i]
                <= self.total() by {
                assert(old(self).cursors_view()[i] <= old(self).total());
            }
        }
    }

    /// One receive attempt for subscriber `sub`: the next event in
    /// sequence, or a gap signal when the subscriber lagged out of the
    /// window, or nothing when it has seen everything.
    pub fn recv(&mut self, sub: usize) -> (r: Received<T>)
        requires
            old(self).wf(),
            sub < old(self).cursors_view().len(),
        ensures
            final(self).wf(),
            final(self).total() == old(self).total(),
            final(self).window() == old(self).window(),
            final(self).cap() == old(self).cap(),
            final(self).cursors_view().len() == old(self).cursors_view().len(),
            forall|i: int|
                0 <= i < final(self).cursors_view().len() && i != sub
                    ==> final(self).cursors_view()[i] == old(self).cursors_view()[i],
            ({
                let cur = old(self).cursors_view()[sub as int] as int;
                match r {
                    Received::Empty => cur == old(self).total() && final(self).cursors_view()
                        == old(self).cursors_view(),
                    Received::Lagged(missed) => cur < old(self).oldest() && missed == old(self).oldest() - cur && final(self).cursors_view()[sub as int] == old(self).oldest(),
                    Received::Event(e) => old(self).oldest() <= cur < old(self).total() && *e
                        == old(self).window()[cur - old(self).oldest()] && final(self).cursors_view()[sub as int] == cur + 1,
                }
            }),
    {
        let cur = self.cursors[sub];
        let oldest = self.next_seq - (self.buffer.len() as u64);
        if cur >= self.next_seq {
            Received::Empty
        } else if cur < oldest {
            let missed = oldest - cur;
            self.cursors.set(sub, oldest);
            Received::Lagged(missed)
        } else {
            let pos = (cur - oldest) as usize;
            self.cursors.set(sub, cur + 1);
            Received::Event(&self.buffer[pos])
        }
    }

    /// How many events the subscriber still has available to read, gaps
    /// included.
    pub fn behind(&self, sub: usize) -> (r: u64)
        requires
            self.wf(),
            sub < self.cursors_view().len(),
        ensures
            r == self.total() - self.cursors_view()[sub as int],
    {
        self.next_seq - self.cursors[sub]
    }
}

} // verus!
