//! The registry of named locks.

use crate::model::{LockView, Op};
use crate::registry::ManagerView;
use crate::request::{snapshot_views, LockRequest, Notice, RequestSnapshot};
use crate::state::LockState;
use vstd::prelude::*;

verus! {

/// The mathematical values of a sequence of lock states.
pub open spec fn state_views(states: Seq<LockState>) -> Seq<LockView> {
    states.map_values(|s: LockState| s@)
}

/// A lock manager: it keeps the state of every named lock that is in use.
///
/// A lock comes into use with the first request that names it and goes out of
/// use as soon as it is idle. The manager is meant to be owned once by the
/// host, behind the host's own mutual exclusion.
pub struct LockManager {
    locks: Vec<LockState>,
}

impl View for LockManager {
    type V = ManagerView;

    closed spec fn view(&self) -> ManagerView {
        ManagerView { locks: state_views(self.locks@) }
    }
}

impl Default for LockManager {
    fn default() -> (manager: Self)
        ensures
            manager@ == ManagerView::new(),
            manager@.wf(),
    {
        LockManager::new()
    }
}

impl LockManager {
    /// A manager in which no lock is in use.
    pub fn new() -> (manager: Self)
        ensures
            manager@ == ManagerView::new(),
            manager@.wf(),
    {
        let manager = LockManager { locks: Vec::new() };
        assert(manager@.locks =~= Seq::empty());
        manager
    }

    /// Where the lock called `name` stands, if it is in use.
    fn find(&self, name: &String) -> (found: Option<usize>)
        requires
            self@.wf(),
        ensures
            match found {
                Some(i) => self@.has(name@) && i == self@.position(name@) && i < self.locks.len(),
                None => !self@.has(name@),
            },
    {
        let mut i: usize = 0;
        while i < self.locks.len()
            invariant
                self@.wf(),
                forall|k: int| 0 <= k < i ==> (#[trigger] self@.locks[k]).name != name@,
            decreases self.locks.len() - i,
        {
            if *self.locks[i].name() == *name {
                proof {
                    assert(self@.locks[i as int].name == name@);
                    self@.lemma_position(i as int);
                }
                return Some(i);
            }
            i += 1;
        }
        None
    }

    /// Whether the request with identity `id` is known to the lock called
    /// `name`.
    pub fn contains(&self, name: &String, id: u64) -> (known: bool)
        requires
            self@.wf(),
        ensures
            known == self@.contains(name@, id),
    {
        match self.find(name) {
            Some(i) => self.locks[i].contains(id),
            None => false,
        }
    }

    /// A request arrives for the lock that it names: see
    /// [`ManagerView::lock`].
    ///
    /// The notices are to be posted in their order. If the last of them is
    /// `Locked`, [`LockManager::settle`] is to be told whether it was delivered.
    pub fn lock(&mut self, request: LockRequest) -> (notices: Vec<Notice>)
        requires
            old(self)@.wf(),
            !old(self)@.contains(request@.name, request@.id),
        ensures
            final(self)@ == old(self)@.lock(request@).0,
            notices@ == old(self)@.lock(request@).1,
            final(self)@.wf(),
    {
        let ghost start = self@;
        proof {
            start.lemma_apply_wf(request@.name, Op::Lock(request@));
        }
        match self.find(&request.name) {
            Some(i) => {
                let notices = self.locks[i].lock(request);
                if self.locks[i].is_idle() {
                    self.locks.remove(i);
                    assert(self@.locks =~= start.locks.remove(i as int));
                } else {
                    assert(self@.locks =~= start.locks.update(i as int, self.locks@[i as int]@));
                }
                notices
            },
            None => {
                let mut state = LockState::new(request.name.clone());
                let notices = state.lock(request);
                if !state.is_idle() {
                    self.locks.push(state);
                    assert(self@.locks =~= start.locks.push(state@));
                }
                notices
            },
        }
    }

    /// The request with identity `id` for the lock called `name` is released:
    /// see [`ManagerView::close_request`]. Releasing a request a second time, or
    /// one that is not known, changes nothing.
    pub fn close_request(&mut self, name: &String, id: u64) -> (notices: Vec<Notice>)
        requires
            old(self)@.wf(),
        ensures
            final(self)@ == old(self)@.close_request(name@, id).0,
            notices@ == old(self)@.close_request(name@, id).1,
            final(self)@.wf(),
    {
        let ghost start = self@;
        proof {
            start.lemma_apply_wf(name@, Op::Close(id));
        }
        match self.find(name) {
            Some(i) => {
                let notices = self.locks[i].close_request(id);
                if self.locks[i].is_idle() {
                    self.locks.remove(i);
                    assert(self@.locks =~= start.locks.remove(i as int));
                } else {
                    assert(self@.locks =~= start.locks.update(i as int, self.locks@[i as int]@));
                }
                notices
            },
            None => {
                assert(!LockView::new(name@).cancellable(id));
                Vec::new()
            },
        }
    }

    /// The host reports whether the `Locked` notice for the request with
    /// identity `id` for the lock called `name` was delivered: see
    /// [`ManagerView::settle`].
    pub fn settle(&mut self, name: &String, id: u64, delivered: bool) -> (notices: Vec<Notice>)
        requires
            old(self)@.wf(),
        ensures
            final(self)@ == old(self)@.settle(name@, id, delivered).0,
            notices@ == old(self)@.settle(name@, id, delivered).1,
            final(self)@.wf(),
    {
        let ghost start = self@;
        proof {
            start.lemma_apply_wf(name@, Op::Settle(id, delivered));
        }
        match self.find(name) {
            Some(i) => {
                let notices = self.locks[i].settle(id, delivered);
                if self.locks[i].is_idle() {
                    self.locks.remove(i);
                    assert(self@.locks =~= start.locks.remove(i as int));
                } else {
                    assert(self@.locks =~= start.locks.update(i as int, self.locks@[i as int]@));
                }
                notices
            },
            None => Vec::new(),
        }
    }

    /// The states of the locks in use, for reading.
    pub fn inspect(&self) -> (states: &Vec<LockState>)
        ensures
            state_views(states@) == self@.locks,
    {
        &self.locks
    }

    /// The records of all requests that wait or hold, lock after lock: see
    /// [`ManagerView::snapshot`].
    pub fn snapshot(&self) -> (records: Vec<RequestSnapshot>)
        ensures
            snapshot_views(records@) == self@.snapshot(),
    {
        let mut records: Vec<RequestSnapshot> = Vec::new();
        let mut i: usize = 0;
        assert(snapshot_views(records@) =~= self@.snapshot_of(0));
        while i < self.locks.len()
            invariant
                i <= self.locks.len(),
                snapshot_views(records@) == self@.snapshot_of(i as int),
            decreases self.locks.len() - i,
        {
            self.locks[i].snapshot_into(&mut records);
            i += 1;
        }
        records
    }
}

} // verus!
