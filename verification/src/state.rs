//! The executable state of one named lock.

use crate::invariants::lemma_filter_skips;
use crate::model::{holding, other_than, HeldView, LockView};
use crate::request::{
    request_views, snapshot_views, LockRequest, Notice, Notification, RequestSnapshot,
};
use std::collections::VecDeque;
use vstd::prelude::*;

verus! {

struct HeldLockSet {
    shared: bool,
    entries: Vec<LockRequest>,
}

/// The queue and the holders of one named lock.
pub struct LockState {
    name: String,
    pending: VecDeque<LockRequest>,
    held: Option<HeldLockSet>,
    offer: Option<LockRequest>,
}

impl View for LockState {
    type V = LockView;

    closed spec fn view(&self) -> LockView {
        LockView {
            name: self.name@,
            pending: request_views(self.pending@),
            held: match self.held {
                Some(held) => Some(
                    HeldView { shared: held.shared, entries: request_views(held.entries@) },
                ),
                None => None,
            },
            offer: match self.offer {
                Some(r) => Some(r@),
                None => None,
            },
        }
    }
}

/// Takes the request with identity `id` out of a queue.
fn discard_from_queue(queue: &mut VecDeque<LockRequest>, id: u64)
    ensures
        request_views(final(queue)@) == request_views(old(queue)@).filter(other_than(id)),
{
    let ghost all = request_views(queue@);
    let ghost mut seen: int = 0;
    let mut i: usize = 0;
    proof {
        reveal(Seq::filter);
        assert(all.take(0) =~= Seq::empty());
        assert(all.skip(0) =~= all);
    }
    while i < queue.len()
        invariant
            0 <= seen <= all.len(),
            i == all.take(seen).filter(other_than(id)).len(),
            request_views(queue@) =~= all.take(seen).filter(other_than(id)) + all.skip(seen),
        decreases all.len() - seen,
    {
        let ghost before = request_views(queue@);
        let ghost kept = all.take(seen).filter(other_than(id));
        proof {
            assert(before[i as int] == all.skip(seen)[0]);
            assert(all.take(seen + 1) =~= all.take(seen).push(all[seen]));
            all.take(seen).lemma_filter_push(all[seen], other_than(id));
        }
        if queue[i].id == id {
            queue.remove(i);
            assert(request_views(queue@) =~= before.remove(i as int));
            assert(before.remove(i as int) =~= kept + all.skip(seen + 1));
        } else {
            i += 1;
            assert(before =~= kept.push(all[seen]) + all.skip(seen + 1));
        }
        proof {
            seen = seen + 1;
        }
    }
    proof {
        assert(all.take(seen) =~= all);
    }
}

/// Takes the request with identity `id` out of a held set's entries.
fn discard_from_holders(entries: &mut Vec<LockRequest>, id: u64)
    ensures
        request_views(final(entries)@) == request_views(old(entries)@).filter(other_than(id)),
{
    let ghost all = request_views(entries@);
    let ghost mut seen: int = 0;
    let mut i: usize = 0;
    proof {
        reveal(Seq::filter);
        assert(all.take(0) =~= Seq::empty());
        assert(all.skip(0) =~= all);
    }
    while i < entries.len()
        invariant
            0 <= seen <= all.len(),
            i == all.take(seen).filter(other_than(id)).len(),
            request_views(entries@) =~= all.take(seen).filter(other_than(id)) + all.skip(seen),
        decreases all.len() - seen,
    {
        let ghost before = request_views(entries@);
        let ghost kept = all.take(seen).filter(other_than(id));
        proof {
            assert(before[i as int] == all.skip(seen)[0]);
            assert(all.take(seen + 1) =~= all.take(seen).push(all[seen]));
            all.take(seen).lemma_filter_push(all[seen], other_than(id));
        }
        if entries[i].id == id {
            entries.remove(i);
            assert(request_views(entries@) =~= before.remove(i as int));
            assert(before.remove(i as int) =~= kept + all.skip(seen + 1));
        } else {
            i += 1;
            assert(before =~= kept.push(all[seen]) + all.skip(seen + 1));
        }
        proof {
            seen = seen + 1;
        }
    }
    proof {
        assert(all.take(seen) =~= all);
    }
}

impl LockState {
    /// The state of a lock that nobody has asked for yet.
    pub fn new(name: String) -> (state: Self)
        ensures
            state@ == LockView::new(name@),
            state@.wf(),
    {
        let state = Self { name, pending: VecDeque::new(), held: None, offer: None };
        assert(state@.pending =~= Seq::empty());
        state
    }

    /// The name of the lock.
    pub fn name(&self) -> (name: &String)
        ensures
            name@ == self@.name,
    {
        &self.name
    }

    /// Whether a request in the given mode could be granted at once.
    pub fn is_grantable(&self, shared: bool) -> (grantable: bool)
        ensures
            grantable == self@.grantable(shared),
    {
        match &self.held {
            Some(held) => held.shared && shared,
            None => true,
        }
    }

    /// Whether nothing waits, nothing is held and no grant is on its way.
    pub fn is_idle(&self) -> (idle: bool)
        ensures
            idle == self@.idle(),
    {
        self.held.is_none() && self.pending.len() == 0 && self.offer.is_none()
    }

    /// Whether the request with identity `id` waits for the lock, holds it, or
    /// is the one whose grant is on its way.
    pub fn contains(&self, id: u64) -> (known: bool)
        ensures
            known == self@.contains(id),
    {
        let mut i: usize = 0;
        while i < self.pending.len()
            invariant
                forall|k: int| 0 <= k < i ==> (#[trigger] self@.pending[k]).id != id,
            decreases self.pending.len() - i,
        {
            if self.pending[i].id == id {
                assert(self@.pending[i as int].id == id);
                return true;
            }
            i += 1;
        }
        if let Some(held) = &self.held {
            let mut j: usize = 0;
            while j < held.entries.len()
                invariant
                    self.held == Some(*held),
                    forall|k: int| 0 <= k < j ==> (#[trigger] self@.holders()[k]).id != id,
                decreases held.entries.len() - j,
            {
                if held.entries[j].id == id {
                    assert(self@.holders()[j as int].id == id);
                    return true;
                }
                j += 1;
            }
        }
        match &self.offer {
            Some(request) => request.id == id,
            None => false,
        }
    }

    /// The identity of the request whose grant is on its way, if there is
    /// one. Its `Locked` notice was handed out, and [`LockState::settle`] has not
    /// been told yet whether it was delivered.
    pub fn awaiting(&self) -> (id: Option<u64>)
        ensures
            id == match self@.offer {
                Some(r) => Some(r.id),
                None => None,
            },
    {
        match &self.offer {
            Some(request) => Some(request.id),
            None => None,
        }
    }

    /// Appends this lock's records to `into`: see [`LockView::snapshot`].
    pub fn snapshot_into(&self, into: &mut Vec<RequestSnapshot>)
        ensures
            snapshot_views(final(into)@) == snapshot_views(old(into)@) + self@.snapshot(),
    {
        let ghost start = snapshot_views(into@);
        let ghost view = self@;
        let mut i: usize = 0;
        while i < self.pending.len()
            invariant
                i <= self.pending.len(),
                view == self@,
                snapshot_views(into@) =~= start + Seq::new(
                    i as nat,
                    |k: int| view.record(view.pending[k], false),
                ),
            decreases self.pending.len() - i,
        {
            let pending = &self.pending[i];
            let record = RequestSnapshot {
                name: self.name.clone(),
                client_id: pending.client.clone(),
                exclusive: !pending.shared,
                held: false,
            };
            let ghost before = snapshot_views(into@);
            assert(record@ == view.record(view.pending[i as int], false));
            into.push(record);
            assert(snapshot_views(into@) =~= before.push(record@));
            i += 1;
        }
        let ghost waiting = snapshot_views(into@);
        if let Some(active) = &self.held {
            let mut j: usize = 0;
            while j < active.entries.len()
                invariant
                    j <= active.entries.len(),
                    view == self@,
                    self.held == Some(*active),
                    snapshot_views(into@) =~= waiting + Seq::new(
                        j as nat,
                        |k: int| view.record(view.holders()[k], true),
                    ),
                decreases active.entries.len() - j,
            {
                let holder = &active.entries[j];
                let record = RequestSnapshot {
                    name: self.name.clone(),
                    client_id: holder.client.clone(),
                    exclusive: !holder.shared,
                    held: true,
                };
                let ghost before = snapshot_views(into@);
                assert(record@ == view.record(view.holders()[j as int], true));
                into.push(record);
                assert(snapshot_views(into@) =~= before.push(record@));
                j += 1;
            }
        }
        assert(snapshot_views(into@) =~= start + view.snapshot());
    }

    /// A request arrives: see [`LockView::lock`].
    ///
    /// The notices are to be posted in their order. If the last of them is
    /// `Locked`, a grant is on its way, and [`LockState::settle`] is to be told
    /// whether it was delivered.
    pub fn lock(&mut self, request: LockRequest) -> (notices: Vec<Notice>)
        requires
            old(self)@.wf(),
            !old(self)@.contains(request@.id),
        ensures
            final(self)@ == old(self)@.lock(request@).0,
            notices@ == old(self)@.lock(request@).1,
            final(self)@.wf(),
    {
        let ghost start = self@;
        proof {
            start.lemma_lock_wf(request@);
        }
        let mut notices: Vec<Notice> = Vec::new();
        if request.steal {
            if let Some(held) = self.held.take() {
                let mut entries = held.entries;
                let mut i: usize = 0;
                while i < entries.len()
                    invariant
                        i <= entries.len(),
                        entries.len() == start.holders().len(),
                        forall|k: int|
                            i <= k < entries.len() ==> (#[trigger] entries@[k])@
                                == start.holders()[k],
                        start.holders_hold(),
                        notices@ =~= Seq::new(
                            i as nat,
                            |k: int| start.holders()[k].notice(Notification::Stolen),
                        ),
                    decreases entries.len() - i,
                {
                    if let Some(notice) = entries[i].notify_stolen() {
                        notices.push(notice);
                    }
                    i += 1;
                }
            }
            assert(notices@ =~= start.stolen_notices());
            self.pending.push_front(request);
            assert(self@.pending =~= seq![request@] + start.pending);
        } else {
            if request.if_available && !self.is_grantable(request.shared) {
                notices.push(request.notify_not_available());
                assert(notices@ =~= seq![request@.notice(Notification::Unavailable)]);
                return notices;
            }
            self.pending.push_back(request);
            assert(self@.pending =~= start.pending.push(request@));
        }
        let mut granted = self.process_queue();
        notices.append(&mut granted);
        notices
    }

    /// The host reports whether the `Locked` notice for the request with
    /// identity `id` was delivered: see [`LockView::settle`].
    pub fn settle(&mut self, id: u64, delivered: bool) -> (notices: Vec<Notice>)
        requires
            old(self)@.wf(),
        ensures
            final(self)@ == old(self)@.settle(id, delivered).0,
            notices@ == old(self)@.settle(id, delivered).1,
            final(self)@.wf(),
    {
        proof {
            self@.lemma_settle_wf(id, delivered);
        }
        let offered = match &self.offer {
            Some(r) => r.id == id,
            None => false,
        };
        if !offered {
            return Vec::new();
        }
        let request = self.offer.take().unwrap();
        self.add_to_held(request, delivered);
        self.process_queue()
    }

    /// The request with identity `id` is taken out wherever it stands: see
    /// [`LockView::clear_request`].
    pub fn clear_request(&mut self, id: u64) -> (notices: Vec<Notice>)
        requires
            old(self)@.wf(),
        ensures
            final(self)@ == old(self)@.clear_request(id).0,
            notices@ == old(self)@.clear_request(id).1,
            final(self)@.wf(),
    {
        proof {
            self@.lemma_clear_request_wf(id);
        }
        self.remove_request(id);
        self.process_queue()
    }

    /// The request with identity `id` is released: see
    /// [`LockView::close_request`].
    pub fn close_request(&mut self, id: u64) -> (notices: Vec<Notice>)
        requires
            old(self)@.wf(),
        ensures
            final(self)@ == old(self)@.close_request(id).0,
            notices@ == old(self)@.close_request(id).1,
            final(self)@.wf(),
    {
        proof {
            self@.lemma_close_request_wf(id);
        }
        if self.mark_cancelled(id) {
            self.remove_request(id);
            self.process_queue()
        } else {
            Vec::new()
        }
    }

    /// Marks the request with identity `id` as cancelled, wherever it stands.
    /// Returns `true` iff the request is known and this is its first
    /// cancellation.
    fn mark_cancelled(&mut self, id: u64) -> (first: bool)
        requires
            old(self)@.wf(),
        ensures
            first == old(self)@.cancellable(id),
            first ==> final(self)@.without(id) == old(self)@.without(id),
            !first ==> final(self)@ == old(self)@,
    {
        let ghost start = self@;
        let mut i: usize = 0;
        while i < self.pending.len()
            invariant
                self@ == start,
                start == old(self)@,
                start.wf(),
                forall|k: int| 0 <= k < i ==> (#[trigger] start.pending[k]).id != id,
            decreases self.pending.len() - i,
        {
            if self.pending[i].id == id {
                let mut request = self.pending.remove(i).unwrap();
                let first = request.holds_lock.mark_cancelled();
                proof {
                    lemma_filter_skips(start.pending, i as int, id);
                    assert(request_views(self.pending@) =~= start.pending.remove(i as int));
                    assert(start.pending[i as int].id == id);
                    assert(start.waits(id));
                    assert(!start.holds(id)) by {
                        if start.holds(id) {
                            let j = choose|j: int|
                                0 <= j < start.holders().len() && (
                                #[trigger] start.holders()[j]).id == id;
                            assert(start.pending[i as int].id != start.holders()[j].id);
                        }
                    }
                    assert(!start.offers(id));
                    assert forall|k: int|
                        0 <= k < start.pending.len() && (#[trigger] start.pending[k]).id
                            == id implies k == i by {
                        if k < i {
                            assert(start.pending[k].id != start.pending[i as int].id);
                        } else if k > i {
                            assert(start.pending[i as int].id != start.pending[k].id);
                        }
                    }
                    assert(start.cancellable(id) == !start.pending[i as int].holds_lock.cancelled);
                }
                if !first {
                    self.pending.insert(i, request);
                    assert(request_views(self.pending@) =~= start.pending);
                }
                return first;
            }
            i += 1;
        }
        assert(!start.waits(id));
        let mut found = false;
        let mut first = false;
        if let Some(held) = &mut self.held {
            let mut j: usize = 0;
            while j < held.entries.len() && !found
                invariant
                    start.wf(),
                    !start.waits(id),
                    start.held is Some,
                    held.shared == start.held.unwrap().shared,
                    !found ==> !first && request_views(held.entries@) == start.holders(),
                    !found ==> forall|k: int| 0 <= k < j ==> (#[trigger] start.holders()[k]).id != id,
                    found ==> first && start.cancellable(id) && request_views(
                        held.entries@,
                    ).filter(other_than(id)) == start.holders().filter(other_than(id)),
                decreases held.entries.len() - j + (if found { 0int } else { 1int }),
            {
                if held.entries[j].id == id {
                    first = held.entries[j].holds_lock.mark_cancelled();
                    found = true;
                    proof {
                        lemma_filter_skips(start.holders(), j as int, id);
                        assert(request_views(held.entries@) =~= start.holders().update(
                            j as int,
                            held.entries@[j as int]@,
                        ));
                        assert(start.holders()[j as int].holds_lock == holding());
                    }
                } else {
                    j += 1;
                }
            }
        }
        if found {
            return first;
        }
        assert(!start.holds(id));
        assert(self@ == start);
        match &mut self.offer {
            Some(request) => if request.id == id {
                request.holds_lock.mark_cancelled()
            } else {
                false
            },
            None => false,
        }
    }

    /// Ends a grant whose notice was sent. A delivered grant joins the
    /// holders; one that was not delivered is undone and the request dropped.
    fn add_to_held(&mut self, request: LockRequest, delivered: bool)
        requires
            old(self)@.offer is None,
        ensures
            final(self)@ == (LockView { offer: Some(request@), ..old(self)@ }).settled(delivered),
    {
        let ghost start = self@;
        let mut request = request;
        if delivered {
            match self.held.take() {
                Some(held) => {
                    let mut held = held;
                    held.entries.push(request);
                    self.held = Some(held);
                },
                None => {
                    let shared = request.shared;
                    let mut entries: Vec<LockRequest> = Vec::new();
                    entries.push(request);
                    self.held = Some(HeldLockSet { shared, entries });
                },
            }
            assert(self@.held.unwrap().entries =~= start.joined(request@).entries);
        } else {
            request.holds_lock.reset_locked_bit();
        }
    }

    /// Takes the request with identity `id` out, without working the queue
    /// off.
    fn remove_request(&mut self, id: u64)
        ensures
            final(self)@ == old(self)@.without(id),
    {
        if let Some(held) = self.held.take() {
            let mut held = held;
            discard_from_holders(&mut held.entries, id);
            if held.entries.len() > 0 {
                self.held = Some(held);
            }
        }
        discard_from_queue(&mut self.pending, id);
        let offered = match &self.offer {
            Some(r) => r.id == id,
            None => false,
        };
        if offered {
            self.offer = None;
        }
    }

    /// Works the queue off: see [`LockView::advance`].
    fn process_queue(&mut self) -> (notices: Vec<Notice>)
        ensures
            final(self)@ == old(self)@.advance().0,
            notices@ == old(self)@.advance().1,
    {
        let ghost start = self@;
        let mut notices: Vec<Notice> = Vec::new();
        let mut blocked = false;
        while !blocked && self.offer.is_none() && self.pending.len() > 0
            invariant
                notices@.len() == 0 ==> self@.advance() == start.advance(),
                notices@.len() == 0 && blocked ==> self@.pending.len() > 0 && !self@.grantable(
                    self@.pending[0].shared,
                ),
                notices@.len() > 0 ==> self@.offer is Some && (self@, notices@) == start.advance(),
            decreases self.pending.len() + (if blocked { 0int } else { 1int }),
        {
            let ghost before = self@;
            let shared = self.pending[0].shared;
            if !self.is_grantable(shared) {
                blocked = true;
            } else {
                let mut entry = self.pending.pop_front().unwrap();
                assert(self@.pending =~= before.pending.skip(1));
                if entry.holds_lock.mark_holds_lock() {
                    notices.push(entry.notify_locked());
                    self.offer = Some(entry);
                    assert(!before.discards(before.pending[0]));
                    assert(notices@ =~= before.advance().1);
                } else {
                    proof {
                        before.lemma_advance_popped();
                    }
                }
            }
        }
        proof {
            if notices@.len() == 0 {
                self@.lemma_advance_at_rest();
            }
        }
        notices
    }
}

} // verus!
