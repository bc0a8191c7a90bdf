//! The fan-out bus: a bounded multi-consumer broadcast. Producers
//! never block; a consumer that falls behind the window loses the
//! oldest undelivered items and resumes at the oldest retained one.

use vstd::prelude::*;

verus! {

/// How many items each broadcast channel retains for its consumers.
pub const BROADCAST_CAPACITY: usize = 256;

/// A bounded broadcast channel: the retained window of the most
/// recently published items, and the count of all items ever
/// published.
pub struct Bus<T> {
    buffer: Vec<T>,
    capacity: usize,
    published: u64,
}

/// A consumer's position: the index, in publication order, of the
/// next item it has not seen.
pub struct BusSubscriber {
    pub next: u64,
}

impl<T: Copy> Bus<T> {
    /// The retained window, oldest first.
    pub closed spec fn window(self) -> Seq<T> {
        self.buffer@
    }

    /// How many items were ever published.
    pub closed spec fn published(self) -> u64 {
        self.published
    }

    /// The bus's bound.
    pub closed spec fn cap(self) -> usize {
        self.capacity
    }

    /// The bus's invariant: a positive bound, the window within it
    /// and never larger than what was published.
    pub open spec fn wf(self) -> bool {
        &&& self.cap() > 0
        &&& self.window().len() <= self.cap()
        &&& self.window().len() <= self.published()
        &&& self.published() > 0 ==> self.window().len() > 0
    }

    /// An empty bus with the given bound.
    pub fn new(capacity: usize) -> (r: Bus<T>)
        requires
            capacity > 0,
        ensures
            r.wf(),
            r.cap() == capacity,
            r.window() == Seq::<T>::empty(),
            r.published() == 0,
    {
        Bus { buffer: Vec::new(), capacity, published: 0 }
    }

    /// Publish an item: it joins the window, and when the window is
    /// full the oldest retained item leaves. The producer never
    /// waits.
    pub fn publish(&mut self, item: T)
        requires
            old(self).wf(),
            old(self).published() < u64::MAX,
        ensures
            final(self).wf(),
            final(self).cap() == old(self).cap(),
            final(self).published() == old(self).published() + 1,
            final(self).window() == if old(self).window().len() < old(self).cap() {
                old(self).window().push(item)
            } else {
                old(self).window().drop_first().push(item)
            },
    {
        if self.buffer.len() >= self.capacity {
            let _ = self.buffer.remove(0);
        }
        self.buffer.push(item);
        self.published = self.published + 1;
    }

    /// Deliver the next item to a subscriber: nothing when it has
    /// seen everything; otherwise the item at its position, after
    /// skipping what the window no longer retains — slow consumers
    /// see gaps, never stalls.
    pub fn poll(&self, sub: &mut BusSubscriber) -> (r: Option<T>)
        requires
            self.wf(),
        ensures
            r is None <==> old(sub).next >= self.published(),
            r is None ==> final(sub).next == old(sub).next,
            r matches Some(item) ==> {
                let oldest = self.published() - self.window().len();
                let served = if old(sub).next as int >= oldest {
                    old(sub).next as int
                } else {
                    oldest
                };
                &&& item == self.window()[served - oldest]
                &&& final(sub).next == served + 1
            },
    {
        if sub.next >= self.published {
            return None;
        }
        let oldest = self.published - (self.buffer.len() as u64);
        if sub.next < oldest {
            sub.next = oldest;
        }
        assert(oldest <= sub.next < self.published);
        assert(self.published - oldest == self.buffer@.len());
        let idx = (sub.next - oldest) as usize;
        assert(idx < self.buffer@.len());
        let item = self.buffer[idx];
        sub.next = sub.next + 1;
        Some(item)
    }
}

impl BusSubscriber {
    /// A subscriber that will first see the next published item.
    pub fn new(bus_published: u64) -> (r: BusSubscriber)
        ensures
            r.next == bus_published,
    {
        BusSubscriber { next: bus_published }
    }
}

} // verus!
