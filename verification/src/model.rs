//! The mathematical model of one named lock: a queue of pending requests, the
//! set of current holders, and at most one grant whose `Locked` notice is on
//! its way.
//!
//! Every operation is a function from a state to the next state and the
//! notices to post. The executable [`crate::state::LockState`] is specified
//! against these functions.

use crate::disposition::Disposition;
use crate::request::{Notice, Notification, RequestView, SnapshotView};
use vstd::prelude::*;

verus! {

/// The requests that hold a lock together, and the mode they hold it in.
pub struct HeldView {
    pub shared: bool,
    pub entries: Seq<RequestView>,
}

/// The state of one named lock.
pub struct LockView {
    pub name: Seq<char>,
    /// Requests that wait, first come first.
    pub pending: Seq<RequestView>,
    /// The current holders; absent when nobody holds the lock.
    pub held: Option<HeldView>,
    /// The request that was taken from the queue and told `Locked`, until the
    /// host reports whether the notice was delivered.
    pub offer: Option<RequestView>,
}

/// An operation on one named lock.
pub enum Op {
    /// A request arrives.
    Lock(RequestView),
    /// The request with this identity is taken out wherever it stands.
    Clear(u64),
    /// The request with this identity is released.
    Close(u64),
    /// The host reports whether the `Locked` notice for the request with this
    /// identity was delivered.
    Settle(u64, bool),
}

/// Holds of every request but the one with identity `id`.
pub open spec fn other_than(id: u64) -> spec_fn(RequestView) -> bool {
    |r: RequestView| r.id != id
}

/// The disposition of a request whose grant was won and not cancelled.
pub open spec fn holding() -> Disposition {
    Disposition { holds_lock: true, cancelled: false }
}

impl LockView {
    /// The state of a lock that nobody has asked for yet.
    pub open spec fn new(name: Seq<char>) -> LockView {
        LockView { name, pending: Seq::empty(), held: None, offer: None }
    }

    /// The current holders, in the order in which they were granted.
    pub open spec fn holders(self) -> Seq<RequestView> {
        match self.held {
            Some(held) => held.entries,
            None => Seq::empty(),
        }
    }

    /// A request in the given mode could be granted at once: nobody holds the
    /// lock, or it is held in shared mode and asked for in shared mode.
    pub open spec fn grantable(self, shared: bool) -> bool {
        match self.held {
            Some(held) => held.shared && shared,
            None => true,
        }
    }

    /// Nothing waits, nothing is held and no grant is on its way.
    pub open spec fn idle(self) -> bool {
        self.held is None && self.pending.len() == 0 && self.offer is None
    }

    /// The request with identity `id` waits.
    pub open spec fn waits(self, id: u64) -> bool {
        exists|i: int| 0 <= i < self.pending.len() && (#[trigger] self.pending[i]).id == id
    }

    /// The request with identity `id` holds the lock.
    pub open spec fn holds(self, id: u64) -> bool {
        exists|i: int| 0 <= i < self.holders().len() && (#[trigger] self.holders()[i]).id == id
    }

    /// The request with identity `id` is the one whose grant is on its way.
    pub open spec fn offers(self, id: u64) -> bool {
        self.offer is Some && self.offer.unwrap().id == id
    }

    /// The request with identity `id` is known to this lock.
    pub open spec fn contains(self, id: u64) -> bool {
        self.waits(id) || self.holds(id) || self.offers(id)
    }

    /// A held set is never empty and never of mixed mode, and an exclusive
    /// one has exactly one entry.
    pub open spec fn held_consistent(self) -> bool {
        match self.held {
            Some(held) => {
                &&& held.entries.len() >= 1
                &&& !held.shared ==> held.entries.len() == 1
                &&& forall|i: int|
                    0 <= i < held.entries.len() ==> (#[trigger] held.entries[i]).shared
                        == held.shared
            },
            None => true,
        }
    }

    /// Holders, and the request whose grant is on its way, have won their grant
    /// and were not cancelled.
    pub open spec fn holders_hold(self) -> bool {
        &&& forall|i: int|
            0 <= i < self.holders().len() ==> (#[trigger] self.holders()[i]).holds_lock
                == holding()
        &&& self.offer is Some ==> self.offer.unwrap().holds_lock == holding()
    }

    /// The request whose grant is on its way can join the holders.
    pub open spec fn offer_compatible(self) -> bool {
        self.offer is Some ==> self.grantable(self.offer.unwrap().shared)
    }

    /// No request stands in two places, or twice in one.
    pub open spec fn distinct(self) -> bool {
        &&& forall|i: int, j: int|
            0 <= i < j < self.pending.len() ==> (#[trigger] self.pending[i]).id != (
            #[trigger] self.pending[j]).id
        &&& forall|i: int, j: int|
            0 <= i < j < self.holders().len() ==> (#[trigger] self.holders()[i]).id != (
            #[trigger] self.holders()[j]).id
        &&& forall|i: int, j: int|
            0 <= i < self.pending.len() && 0 <= j < self.holders().len() ==> (
            #[trigger] self.pending[i]).id != (#[trigger] self.holders()[j]).id
        &&& self.offer is Some ==> !self.waits(self.offer.unwrap().id) && !self.holds(
            self.offer.unwrap().id,
        )
    }

    /// While no grant is on its way, the head of the queue cannot be granted.
    pub open spec fn at_rest(self) -> bool {
        self.offer is None && self.pending.len() > 0 ==> !self.grantable(self.pending[0].shared)
    }

    /// The invariant of a lock's state.
    pub open spec fn wf(self) -> bool {
        &&& self.held_consistent()
        &&& self.holders_hold()
        &&& self.offer_compatible()
        &&& self.distinct()
        &&& self.at_rest()
    }

    /// A request that reaches the head of the queue while it could be granted,
    /// but is no longer idle, is dropped without a word.
    pub open spec fn discards(self, r: RequestView) -> bool {
        self.grantable(r.shared) && !r.holds_lock.idle()
    }

    /// The least index from `from` on whose request is not dropped, or the
    /// length of the queue.
    pub open spec fn first_kept(self, from: int) -> int
        decreases self.pending.len() - from,
    {
        if 0 <= from < self.pending.len() && self.discards(self.pending[from]) {
            self.first_kept(from + 1)
        } else {
            from
        }
    }

    /// Works the queue off from its head. Nothing moves while a grant is on its
    /// way. Otherwise the requests that are dropped leave, and if the first one
    /// that stays can be granted it becomes the grant on its way and is told
    /// `Locked`. A head that cannot be granted blocks all that wait behind it.
    pub open spec fn advance(self) -> (LockView, Seq<Notice>) {
        let k = self.first_kept(0);
        if self.offer is Some {
            (self, Seq::empty())
        } else if k < self.pending.len() && self.grantable(self.pending[k].shared) {
            (
                LockView {
                    pending: self.pending.skip(k + 1),
                    offer: Some(self.pending[k].with_disposition(holding())),
                    ..self
                },
                seq![self.pending[k].notice(Notification::Locked)],
            )
        } else {
            (LockView { pending: self.pending.skip(k), ..self }, Seq::empty())
        }
    }

    /// The notices that tell every holder that its lock was stolen.
    pub open spec fn stolen_notices(self) -> Seq<Notice> {
        Seq::new(self.holders().len(), |i: int| self.holders()[i].notice(Notification::Stolen))
    }

    /// The state after `r` has gone to the end of the queue, before the queue
    /// is worked off.
    pub open spec fn queued(self, r: RequestView) -> LockView {
        LockView { pending: self.pending.push(r), ..self }
    }

    /// The state after `r` has evicted all holders and gone to the head of the
    /// queue, before the queue is worked off.
    pub open spec fn evicted(self, r: RequestView) -> LockView {
        LockView { held: None, pending: seq![r] + self.pending, ..self }
    }

    /// A request arrives.
    ///
    /// A steal evicts all holders, each of which is told `Stolen`, and goes to
    /// the head of the queue. A request that asks only if available, and cannot
    /// be granted at once, is told `Unavailable` and leaves no trace. Any other
    /// request goes to the end of the queue. Then the queue is worked off.
    pub open spec fn lock(self, r: RequestView) -> (LockView, Seq<Notice>) {
        if r.steal {
            (self.evicted(r).advance().0, self.stolen_notices() + self.evicted(r).advance().1)
        } else if r.if_available && !self.grantable(r.shared) {
            (self, seq![r.notice(Notification::Unavailable)])
        } else {
            self.queued(r).advance()
        }
    }

    /// The state without the request with identity `id`, before the queue is
    /// worked off. A held set that loses its last entry is discarded.
    pub open spec fn without(self, id: u64) -> LockView {
        LockView {
            pending: self.pending.filter(other_than(id)),
            held: match self.held {
                Some(held) => if held.entries.filter(other_than(id)).len() == 0 {
                    None
                } else {
                    Some(HeldView { entries: held.entries.filter(other_than(id)), ..held })
                },
                None => None,
            },
            offer: if self.offers(id) {
                None
            } else {
                self.offer
            },
            ..self
        }
    }

    /// The request with identity `id` is taken out wherever it stands, and the
    /// queue is worked off.
    pub open spec fn clear_request(self, id: u64) -> (LockView, Seq<Notice>) {
        self.without(id).advance()
    }

    /// The request with identity `id` is known and was not cancelled before.
    pub open spec fn cancellable(self, id: u64) -> bool {
        ||| exists|i: int|
            0 <= i < self.pending.len() && (#[trigger] self.pending[i]).id == id
                && !self.pending[i].holds_lock.cancelled
        ||| exists|i: int|
            0 <= i < self.holders().len() && (#[trigger] self.holders()[i]).id == id
                && !self.holders()[i].holds_lock.cancelled
        ||| self.offers(id) && !self.offer.unwrap().holds_lock.cancelled
    }

    /// The request with identity `id` is released: its first cancellation clears
    /// it, any later one changes nothing.
    pub open spec fn close_request(self, id: u64) -> (LockView, Seq<Notice>) {
        if self.cancellable(id) {
            self.clear_request(id)
        } else {
            (self, Seq::empty())
        }
    }

    /// The held set after `r` has joined it.
    pub open spec fn joined(self, r: RequestView) -> HeldView {
        match self.held {
            Some(held) => HeldView { entries: held.entries.push(r), ..held },
            None => HeldView { shared: r.shared, entries: seq![r] },
        }
    }

    /// The state after the grant that was on its way has ended, before the
    /// queue is worked off: the request has joined the holders if its notice was
    /// delivered, and is dropped if not.
    pub open spec fn settled(self, delivered: bool) -> LockView {
        if delivered {
            LockView { held: Some(self.joined(self.offer.unwrap())), offer: None, ..self }
        } else {
            LockView { offer: None, ..self }
        }
    }

    /// The host reports on the `Locked` notice for the request with identity
    /// `id`. If that request's grant is on its way, it ends and the queue is
    /// worked off. A report on any other request changes nothing.
    pub open spec fn settle(self, id: u64, delivered: bool) -> (LockView, Seq<Notice>) {
        if self.offers(id) {
            self.settled(delivered).advance()
        } else {
            (self, Seq::empty())
        }
    }

    /// The record of one request of this lock.
    pub open spec fn record(self, r: RequestView, held: bool) -> SnapshotView {
        SnapshotView { name: self.name, client_id: r.client, exclusive: !r.shared, held }
    }

    /// One record for each request that waits, in the order of the queue, then
    /// one for each holder.
    pub open spec fn snapshot(self) -> Seq<SnapshotView> {
        Seq::new(self.pending.len(), |i: int| self.record(self.pending[i], false)) + Seq::new(
            self.holders().len(),
            |i: int| self.record(self.holders()[i], true),
        )
    }

    /// `op` may be applied: a request that arrives is not known yet.
    pub open spec fn admits(self, op: Op) -> bool {
        match op {
            Op::Lock(r) => !self.contains(r.id),
            _ => true,
        }
    }

    /// The state after `op` and the notices to post.
    pub open spec fn step(self, op: Op) -> (LockView, Seq<Notice>) {
        match op {
            Op::Lock(r) => self.lock(r),
            Op::Clear(id) => self.clear_request(id),
            Op::Close(id) => self.close_request(id),
            Op::Settle(id, delivered) => self.settle(id, delivered),
        }
    }
}

} // verus!
