//! The mathematical model of the registry of named locks.

use crate::model::{LockView, Op};
use crate::request::{Notice, RequestView, SnapshotView};
use vstd::prelude::*;

verus! {

/// The locks that are in use, in the order in which their names came into
/// use.
pub struct ManagerView {
    pub locks: Seq<LockView>,
}

impl ManagerView {
    /// The registry in which no lock is in use.
    pub open spec fn new() -> ManagerView {
        ManagerView { locks: Seq::empty() }
    }

    /// The lock called `name` is in use.
    pub open spec fn has(self, name: Seq<char>) -> bool {
        exists|i: int| 0 <= i < self.locks.len() && (#[trigger] self.locks[i]).name == name
    }

    /// Where the lock called `name` stands, if it is in use.
    pub open spec fn position(self, name: Seq<char>) -> int {
        choose|i: int| 0 <= i < self.locks.len() && (#[trigger] self.locks[i]).name == name
    }

    /// The state of the lock called `name`: a lock that is not in use is in
    /// the state of one that nobody has asked for yet.
    pub open spec fn state(self, name: Seq<char>) -> LockView {
        if self.has(name) {
            self.locks[self.position(name)]
        } else {
            LockView::new(name)
        }
    }

    /// The registry after the lock called `s.name` has come to state `s`. An
    /// idle lock is not kept; a lock that comes into use goes to the end.
    pub open spec fn put(self, s: LockView) -> ManagerView {
        if self.has(s.name) {
            if s.idle() {
                ManagerView { locks: self.locks.remove(self.position(s.name)) }
            } else {
                ManagerView { locks: self.locks.update(self.position(s.name), s) }
            }
        } else {
            if s.idle() {
                self
            } else {
                ManagerView { locks: self.locks.push(s) }
            }
        }
    }

    /// The invariant of the registry: every lock in it satisfies its own
    /// invariant, none is idle, and no name occurs twice.
    pub open spec fn wf(self) -> bool {
        &&& forall|i: int|
            0 <= i < self.locks.len() ==> (#[trigger] self.locks[i]).wf() && !self.locks[i].idle()
        &&& forall|i: int, j: int|
            0 <= i < j < self.locks.len() ==> (#[trigger] self.locks[i]).name != (
            #[trigger] self.locks[j]).name
    }

    /// The request with identity `id` is known to the lock called `name`.
    pub open spec fn contains(self, name: Seq<char>, id: u64) -> bool {
        self.state(name).contains(id)
    }

    /// `op` is applied to the lock called `name`.
    pub open spec fn apply(self, name: Seq<char>, op: Op) -> (ManagerView, Seq<Notice>) {
        (self.put(self.state(name).step(op).0), self.state(name).step(op).1)
    }

    /// A request arrives for the lock that it names.
    pub open spec fn lock(self, r: RequestView) -> (ManagerView, Seq<Notice>) {
        self.apply(r.name, Op::Lock(r))
    }

    /// The request with identity `id` for the lock called `name` is released.
    pub open spec fn close_request(self, name: Seq<char>, id: u64) -> (ManagerView, Seq<Notice>) {
        self.apply(name, Op::Close(id))
    }

    /// The host reports whether the `Locked` notice for the request with
    /// identity `id` for the lock called `name` was delivered.
    pub open spec fn settle(self, name: Seq<char>, id: u64, delivered: bool) -> (
        ManagerView,
        Seq<Notice>,
    ) {
        self.apply(name, Op::Settle(id, delivered))
    }

    /// The records of the first `n` locks, lock after lock.
    pub open spec fn snapshot_of(self, n: int) -> Seq<SnapshotView>
        decreases n,
    {
        if n <= 0 {
            Seq::empty()
        } else {
            self.snapshot_of(n - 1) + self.locks[n - 1].snapshot()
        }
    }

    /// The records of all locks in use, lock after lock.
    pub open spec fn snapshot(self) -> Seq<SnapshotView> {
        self.snapshot_of(self.locks.len() as int)
    }

    /// No name occurs twice, so a lock's name tells where it stands.
    pub proof fn lemma_position(self, i: int)
        requires
            self.wf(),
            0 <= i < self.locks.len(),
        ensures
            self.has(self.locks[i].name),
            self.position(self.locks[i].name) == i,
            self.state(self.locks[i].name) == self.locks[i],
    {
        let name = self.locks[i].name;
        let p = self.position(name);
        assert(self.locks[p].name == name);
        if p < i {
            assert(self.locks[p].name != self.locks[i].name);
        } else if i < p {
            assert(self.locks[i].name != self.locks[p].name);
        }
    }

    /// Putting a well-formed state under its name keeps the registry's
    /// invariant.
    pub proof fn lemma_put_wf(self, s: LockView)
        requires
            self.wf(),
            s.wf(),
        ensures
            self.put(s).wf(),
    {
        let next = self.put(s);
        if self.has(s.name) {
            let p = self.position(s.name);
            assert(self.locks[p].name == s.name);
            if s.idle() {
                assert forall|i: int| 0 <= i < next.locks.len() implies #[trigger] next.locks[i]
                    == self.locks[if i < p {
                    i
                } else {
                    i + 1
                }] by {}
                assert forall|i: int, j: int| 0 <= i < j < next.locks.len() implies (
                #[trigger] next.locks[i]).name != (#[trigger] next.locks[j]).name by {
                    let a = if i < p {
                        i
                    } else {
                        i + 1
                    };
                    let b = if j < p {
                        j
                    } else {
                        j + 1
                    };
                    assert(self.locks[a].name != self.locks[b].name);
                }
            } else {
                assert forall|i: int, j: int| 0 <= i < j < next.locks.len() implies (
                #[trigger] next.locks[i]).name != (#[trigger] next.locks[j]).name by {
                    assert(self.locks[i].name != self.locks[j].name);
                }
            }
        } else {
            if !s.idle() {
                assert forall|i: int, j: int| 0 <= i < j < next.locks.len() implies (
                #[trigger] next.locks[i]).name != (#[trigger] next.locks[j]).name by {
                    assert(next.locks[i] == self.locks[i]);
                    if j < self.locks.len() {
                        assert(next.locks[j] == self.locks[j]);
                    }
                }
            }
        }
    }

    /// The state of every lock satisfies the lock's invariant and bears the
    /// lock's name.
    pub proof fn lemma_state_wf(self, name: Seq<char>)
        requires
            self.wf(),
        ensures
            self.state(name).wf(),
            self.state(name).name == name,
    {
        if self.has(name) {
            assert(self.locks[self.position(name)].name == name);
        }
    }

    /// Every operation that the named lock admits keeps the registry's
    /// invariant.
    pub proof fn lemma_apply_wf(self, name: Seq<char>, op: Op)
        requires
            self.wf(),
            self.state(name).admits(op),
        ensures
            self.apply(name, op).0.wf(),
    {
        self.lemma_state_wf(name);
        self.state(name).lemma_step_wf(op);
        self.lemma_put_wf(self.state(name).step(op).0);
    }
}

} // verus!
