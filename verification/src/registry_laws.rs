//! What holds of every registry of locks, whatever is asked of it.

use crate::model::{LockView, Op};
use crate::registry::ManagerView;
use crate::request::Notice;
use vstd::prelude::*;

verus! {

impl ManagerView {
    /// After a state was put under its name, the lock of that name is in that
    /// state, and it is in use iff the state is not idle. Locks of other names
    /// are as before.
    pub proof fn lemma_put_state(self, s: LockView)
        requires
            self.wf(),
            s.wf(),
        ensures
            self.put(s).state(s.name) == s,
            self.put(s).has(s.name) == !s.idle(),
            forall|other: Seq<char>|
                other != s.name ==> self.put(s).has(other) == self.has(other) && self.put(
                    s,
                ).state(other) == self.state(other),
    {
        let next = self.put(s);
        self.lemma_put_wf(s);
        if s.idle() {
            assert(s.pending =~= Seq::empty());
            assert(s == LockView::new(s.name));
        }
        if self.has(s.name) {
            let p = self.position(s.name);
            assert(self.locks[p].name == s.name);
            self.lemma_position(p);
            if s.idle() {
                assert forall|i: int| 0 <= i < next.locks.len() implies #[trigger] next.locks[i]
                    == self.locks[if i < p {
                    i
                } else {
                    i + 1
                }] by {}
                if next.has(s.name) {
                    let i = next.position(s.name);
                    assert(next.locks[i].name == s.name);
                    let a = if i < p {
                        i
                    } else {
                        i + 1
                    };
                    self.lemma_position(a);
                }
                assert forall|other: Seq<char>| other != s.name implies next.has(other)
                    == self.has(other) && next.state(other) == self.state(other) by {
                    if self.has(other) {
                        let a = self.position(other);
                        assert(self.locks[a].name == other);
                        self.lemma_position(a);
                        let i = if a < p {
                            a
                        } else {
                            a - 1
                        };
                        assert(next.locks[i] == self.locks[a]);
                        next.lemma_position(i);
                    }
                    if next.has(other) {
                        let i = next.position(other);
                        assert(next.locks[i].name == other);
                        next.lemma_position(i);
                        let a = if i < p {
                            i
                        } else {
                            i + 1
                        };
                        assert(self.locks[a] == next.locks[i]);
                        self.lemma_position(a);
                    }
                }
            } else {
                assert(next.locks[p] == s);
                next.lemma_position(p);
                assert forall|other: Seq<char>| other != s.name implies next.has(other)
                    == self.has(other) && next.state(other) == self.state(other) by {
                    if self.has(other) {
                        let a = self.position(other);
                        assert(self.locks[a].name == other);
                        self.lemma_position(a);
                        assert(next.locks[a] == self.locks[a]);
                        next.lemma_position(a);
                    }
                    if next.has(other) {
                        let i = next.position(other);
                        assert(next.locks[i].name == other);
                        next.lemma_position(i);
                        assert(self.locks[i] == next.locks[i]);
                        self.lemma_position(i);
                    }
                }
            }
        } else {
            if !s.idle() {
                let n = self.locks.len() as int;
                assert(next.locks[n] == s);
                next.lemma_position(n);
                assert forall|other: Seq<char>| other != s.name implies next.has(other)
                    == self.has(other) && next.state(other) == self.state(other) by {
                    if self.has(other) {
                        let a = self.position(other);
                        assert(self.locks[a].name == other);
                        self.lemma_position(a);
                        assert(next.locks[a] == self.locks[a]);
                        next.lemma_position(a);
                    }
                    if next.has(other) {
                        let i = next.position(other);
                        assert(next.locks[i].name == other);
                        next.lemma_position(i);
                        assert(self.locks[i] == next.locks[i]);
                        self.lemma_position(i);
                    }
                }
            }
        }
    }

    /// Putting a lock's state where it is changes nothing.
    pub proof fn lemma_put_same(self, name: Seq<char>)
        requires
            self.wf(),
        ensures
            self.put(self.state(name)) == self,
    {
        if self.has(name) {
            let p = self.position(name);
            assert(self.locks[p].name == name);
            assert(self.locks.update(p, self.locks[p]) =~= self.locks);
        }
    }

    /// An operation on one lock leaves the locks of other names as they are:
    /// a name that is not in use stays so until a request names it.
    pub proof fn law_other_locks_untouched(self, name: Seq<char>, op: Op, other: Seq<char>)
        requires
            self.wf(),
            self.state(name).admits(op),
            other != name,
        ensures
            self.apply(name, op).0.has(other) == self.has(other),
            self.apply(name, op).0.state(other) == self.state(other),
    {
        self.lemma_state_wf(name);
        self.state(name).lemma_step_wf(op);
        self.lemma_put_state(self.state(name).step(op).0);
    }

    /// After an operation on a lock, the lock is in the state that the
    /// operation leads to, and it is in use iff that state is not idle.
    pub proof fn law_idle_lock_goes(self, name: Seq<char>, op: Op)
        requires
            self.wf(),
            self.state(name).admits(op),
        ensures
            self.apply(name, op).0.state(name) == self.state(name).step(op).0,
            self.apply(name, op).0.has(name) == !self.state(name).step(op).0.idle(),
    {
        self.lemma_state_wf(name);
        self.state(name).lemma_step_wf(op);
        self.lemma_put_state(self.state(name).step(op).0);
    }

    /// Every record of the first `n` locks bears the name of one of them.
    pub proof fn lemma_snapshot_names(self, n: int)
        requires
            0 <= n <= self.locks.len(),
        ensures
            forall|k: int|
                0 <= k < self.snapshot_of(n).len() ==> exists|i: int|
                    0 <= i < n && (#[trigger] self.locks[i]).name == (#[trigger] self.snapshot_of(
                        n,
                    )[k]).name,
        decreases n,
    {
        if n > 0 {
            self.lemma_snapshot_names(n - 1);
            let before = self.snapshot_of(n - 1);
            let last = self.locks[n - 1];
            assert forall|k: int| 0 <= k < self.snapshot_of(n).len() implies exists|i: int|
                0 <= i < n && (#[trigger] self.locks[i]).name == (#[trigger] self.snapshot_of(
                    n,
                )[k]).name by {
                if k < before.len() {
                    assert(self.snapshot_of(n)[k] == before[k]);
                    let i = choose|i: int|
                        0 <= i < n - 1 && (#[trigger] self.locks[i]).name == before[k].name;
                    assert(self.locks[i].name == self.snapshot_of(n)[k].name);
                } else {
                    assert(self.snapshot_of(n)[k] == last.snapshot()[k - before.len()]);
                    assert(self.locks[n - 1].name == self.snapshot_of(n)[k].name);
                }
            }
        }
    }

    /// A snapshot holds no record of a lock that is not in use.
    pub proof fn law_snapshot_of_locks_in_use(self, name: Seq<char>)
        requires
            !self.has(name),
        ensures
            forall|k: int|
                0 <= k < self.snapshot().len() ==> (#[trigger] self.snapshot()[k]).name != name,
    {
        self.lemma_snapshot_names(self.locks.len() as int);
        assert forall|k: int| 0 <= k < self.snapshot().len() implies (
        #[trigger] self.snapshot()[k]).name != name by {
            let i = choose|i: int|
                0 <= i < self.locks.len() && (#[trigger] self.locks[i]).name
                    == self.snapshot()[k].name;
            assert(self.locks[i].name != name);
        }
    }

    /// Once the last request for a lock is released, the lock is no longer in
    /// use, and no snapshot shows its name.
    pub proof fn law_last_release_leaves_no_record(self, name: Seq<char>, id: u64)
        requires
            self.wf(),
            self.contains(name, id),
            forall|other: u64| self.contains(name, other) ==> other == id,
        ensures
            !self.close_request(name, id).0.has(name),
            forall|k: int|
                0 <= k < self.close_request(name, id).0.snapshot().len() ==> (
                #[trigger] self.close_request(name, id).0.snapshot()[k]).name != name,
    {
        self.lemma_state_wf(name);
        assert forall|other: u64| self.state(name).contains(other) implies other == id by {
            assert(self.contains(name, other));
        }
        self.state(name).law_last_release_leaves_idle(id);
        self.law_idle_lock_goes(name, Op::Close(id));
        self.close_request(name, id).0.law_snapshot_of_locks_in_use(name);
    }

    /// Releasing a request twice is releasing it once: the second release
    /// changes nothing and says nothing.
    pub proof fn law_release_idempotent(self, name: Seq<char>, id: u64)
        requires
            self.wf(),
        ensures
            self.close_request(name, id).0.close_request(name, id) == (
                self.close_request(name, id).0,
                Seq::<Notice>::empty(),
            ),
    {
        let once = self.close_request(name, id).0;
        self.lemma_state_wf(name);
        self.lemma_apply_wf(name, Op::Close(id));
        self.law_idle_lock_goes(name, Op::Close(id));
        self.state(name).law_release_idempotent(id);
        once.lemma_put_same(name);
    }
}

} // verus!
