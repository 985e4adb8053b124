//! Every operation keeps the invariant of a lock's state.

use crate::model::{holding, other_than, LockView, Op};
use crate::request::RequestView;
use vstd::prelude::*;

verus! {

/// `x` stands before `y` in `s`.
pub open spec fn in_order(s: Seq<RequestView>, x: RequestView, y: RequestView) -> bool {
    exists|a: int, b: int| 0 <= a < b < s.len() && s[a] == x && s[b] == y
}

/// What is left of a queue after one request was taken out holds only
/// requests of the queue, none of them the one taken out, in their old order.
pub proof fn lemma_filter_keeps_order(s: Seq<RequestView>, id: u64)
    ensures
        s.filter(other_than(id)).len() <= s.len(),
        forall|i: int|
            0 <= i < s.filter(other_than(id)).len() ==> (#[trigger] s.filter(other_than(id))[i]).id
                != id && s.contains(s.filter(other_than(id))[i]),
        forall|i: int|
            0 <= i < s.len() && s[i].id != id ==> s.filter(other_than(id)).contains(
                #[trigger] s[i],
            ),
        forall|i: int, j: int|
            0 <= i < j < s.filter(other_than(id)).len() ==> in_order(
                s,
                #[trigger] s.filter(other_than(id))[i],
                #[trigger] s.filter(other_than(id))[j],
            ),
    decreases s.len(),
{
    reveal(Seq::filter);
    let f = s.filter(other_than(id));
    if s.len() > 0 {
        let front = s.drop_last();
        let g = front.filter(other_than(id));
        lemma_filter_keeps_order(front, id);
        assert forall|i: int| 0 <= i < f.len() implies (#[trigger] f[i]).id != id && s.contains(
            f[i],
        ) by {
            if i < g.len() {
                assert(f[i] == g[i]);
                let a = choose|a: int| 0 <= a < front.len() && front[a] == g[i];
                assert(s[a] == f[i]);
            } else {
                assert(f[i] == s[s.len() - 1]);
            }
        }
        assert forall|i: int| 0 <= i < s.len() && s[i].id != id implies f.contains(
            #[trigger] s[i],
        ) by {
            if i < front.len() {
                assert(front[i] == s[i]);
                let a = choose|a: int| 0 <= a < g.len() && g[a] == front[i];
                assert(f[a] == s[i]);
            } else {
                assert(f[f.len() - 1] == s[i]);
            }
        }
        assert forall|i: int, j: int| 0 <= i < j < f.len() implies in_order(
            s,
            #[trigger] f[i],
            #[trigger] f[j],
        ) by {
            if j < g.len() {
                assert(f[i] == g[i] && f[j] == g[j]);
                assert(in_order(front, g[i], g[j]));
                let (a, b) = choose|a: int, b: int|
                    0 <= a < b < front.len() && front[a] == g[i] && front[b] == g[j];
                assert(s[a] == f[i] && s[b] == f[j]);
            } else {
                assert(f[i] == g[i]);
                let a = choose|a: int| 0 <= a < front.len() && front[a] == g[i];
                assert(s[a] == f[i] && s[s.len() - 1] == f[j]);
            }
        }
    }
}

/// Taking a request out of a queue does not depend on the request at `i`,
/// if that is the request taken out.
pub proof fn lemma_filter_skips(s: Seq<RequestView>, i: int, id: u64)
    requires
        0 <= i < s.len(),
        s[i].id == id,
    ensures
        s.filter(other_than(id)) == s.remove(i).filter(other_than(id)),
        forall|r: RequestView|
            r.id == id ==> s.filter(other_than(id)) == (#[trigger] s.update(i, r)).filter(
                other_than(id),
            ),
{
    let keep = other_than(id);
    let front = s.take(i);
    let back = s.skip(i + 1);
    assert(s =~= front + (seq![s[i]] + back));
    assert(s.remove(i) =~= front + back);
    Seq::filter_distributes_over_add(front, seq![s[i]] + back, keep);
    Seq::filter_distributes_over_add(front, back, keep);
    back.lemma_filter_prepend(s[i], keep);
    assert(s.filter(keep) =~= s.remove(i).filter(keep));
    assert forall|r: RequestView| r.id == id implies s.filter(keep) == (#[trigger] s.update(
        i,
        r,
    )).filter(keep) by {
        assert(s.update(i, r) =~= front + (seq![r] + back));
        Seq::filter_distributes_over_add(front, seq![r] + back, keep);
        back.lemma_filter_prepend(r, keep);
        assert(s.update(i, r).filter(keep) =~= s.remove(i).filter(keep));
    }
}

impl LockView {
    /// Working the queue off establishes the invariant, and brings in no
    /// request that was not known.
    pub proof fn lemma_advance_wf(self)
        requires
            self.held_consistent(),
            self.holders_hold(),
            self.offer_compatible(),
            self.distinct(),
        ensures
            self.advance().0.wf(),
            self.advance().0.held == self.held,
            self.advance().0.name == self.name,
            forall|id: u64| self.advance().0.contains(id) ==> self.contains(id),
    {
        let next = self.advance().0;
        let k = self.first_kept(0);
        self.lemma_first_kept(0);
        if self.offer is None {
            let d: int = if k < self.pending.len() && self.grantable(self.pending[k].shared) {
                k + 1
            } else {
                k
            };
            assert(next.pending == self.pending.skip(d));
            assert forall|i: int| 0 <= i < next.pending.len() implies #[trigger] next.pending[i]
                == self.pending[i + d] by {}
            assert forall|id: u64| next.contains(id) implies self.contains(id) by {
                if next.waits(id) {
                    let i = choose|i: int|
                        0 <= i < next.pending.len() && (#[trigger] next.pending[i]).id == id;
                    assert(self.pending[i + d].id == id);
                } else if next.offers(id) {
                    assert(self.pending[k].id == id);
                } else {
                    let i = choose|i: int|
                        0 <= i < next.holders().len() && (#[trigger] next.holders()[i]).id == id;
                    assert(self.holders()[i].id == id);
                }
            }
            if d == k + 1 {
                assert(next.offer.unwrap().id == self.pending[k].id);
                assert(!next.waits(self.pending[k].id)) by {
                    if next.waits(self.pending[k].id) {
                        let i = choose|i: int|
                            0 <= i < next.pending.len() && (#[trigger] next.pending[i]).id
                                == self.pending[k].id;
                        assert(self.pending[i + d].id == self.pending[k].id);
                    }
                }
                assert(!next.holds(self.pending[k].id));
            }
        }
    }

    /// A request that is not known yet can go to the end of the queue.
    pub proof fn lemma_queued(self, r: RequestView)
        requires
            self.wf(),
            !self.contains(r.id),
        ensures
            self.queued(r).held_consistent(),
            self.queued(r).holders_hold(),
            self.queued(r).offer_compatible(),
            self.queued(r).distinct(),
    {
        let queued = self.queued(r);
        assert(queued.holders() == self.holders());
        assert forall|i: int| 0 <= i < self.pending.len() implies #[trigger] queued.pending[i]
            == self.pending[i] by {}
        assert(queued.pending[self.pending.len() as int] == r);
        assert forall|i: int, j: int| 0 <= i < j < queued.pending.len() implies (
        #[trigger] queued.pending[i]).id != (#[trigger] queued.pending[j]).id by {
            assert(queued.pending[i] == self.pending[i]);
            if j < self.pending.len() {
                assert(queued.pending[j] == self.pending[j]);
            }
        }
        assert forall|i: int, j: int|
            0 <= i < queued.pending.len() && 0 <= j < queued.holders().len() implies (
        #[trigger] queued.pending[i]).id != (#[trigger] queued.holders()[j]).id by {
            assert(queued.holders()[j] == self.holders()[j]);
            if i < self.pending.len() {
                assert(queued.pending[i] == self.pending[i]);
            }
        }
        if queued.offer is Some {
            let o = queued.offer.unwrap().id;
            if queued.waits(o) {
                let i = choose|i: int|
                    0 <= i < queued.pending.len() && (#[trigger] queued.pending[i]).id == o;
                if i < self.pending.len() {
                    assert(self.pending[i].id == o);
                }
            }
        }
    }

    /// A request that is not known yet can evict the holders and go to the
    /// head of the queue.
    pub proof fn lemma_evicted(self, r: RequestView)
        requires
            self.wf(),
            !self.contains(r.id),
        ensures
            self.evicted(r).held_consistent(),
            self.evicted(r).holders_hold(),
            self.evicted(r).offer_compatible(),
            self.evicted(r).distinct(),
    {
        let evicted = self.evicted(r);
        assert forall|i: int| 1 <= i < evicted.pending.len() implies #[trigger] evicted.pending[i]
            == self.pending[i - 1] by {}
        assert(evicted.pending[0] == r);
        assert forall|i: int, j: int| 0 <= i < j < evicted.pending.len() implies (
        #[trigger] evicted.pending[i]).id != (#[trigger] evicted.pending[j]).id by {
            assert(evicted.pending[j] == self.pending[j - 1]);
            if i > 0 {
                assert(evicted.pending[i] == self.pending[i - 1]);
            }
        }
        if evicted.offer is Some {
            let o = evicted.offer.unwrap().id;
            if evicted.waits(o) {
                let i = choose|i: int|
                    0 <= i < evicted.pending.len() && (#[trigger] evicted.pending[i]).id == o;
                if i > 0 {
                    assert(self.pending[i - 1].id == o);
                }
            }
        }
    }

    /// A request that is not known yet may arrive.
    pub proof fn lemma_lock_wf(self, r: RequestView)
        requires
            self.wf(),
            !self.contains(r.id),
        ensures
            self.lock(r).0.wf(),
            self.lock(r).0.name == self.name,
    {
        if r.steal {
            self.lemma_evicted(r);
            self.evicted(r).lemma_advance_wf();
        } else if r.if_available && !self.grantable(r.shared) {
        } else {
            self.lemma_queued(r);
            self.queued(r).lemma_advance_wf();
        }
    }

    /// The grant that is on its way can end.
    pub proof fn lemma_settled(self, delivered: bool)
        requires
            self.wf(),
            self.offer is Some,
        ensures
            self.settled(delivered).held_consistent(),
            self.settled(delivered).holders_hold(),
            self.settled(delivered).offer_compatible(),
            self.settled(delivered).distinct(),
    {
        let r = self.offer.unwrap();
        let settled = self.settled(delivered);
        if delivered {
            assert(settled.holders() == self.holders().push(r));
            assert forall|i: int| 0 <= i < settled.holders().len() implies (
            #[trigger] settled.holders()[i]).shared == settled.held.unwrap().shared && (
            settled.holders()[i]).holds_lock == holding() by {
                if i < self.holders().len() {
                    assert(settled.holders()[i] == self.holders()[i]);
                }
            }
            assert forall|i: int, j: int| 0 <= i < j < settled.holders().len() implies (
            #[trigger] settled.holders()[i]).id != (#[trigger] settled.holders()[j]).id by {
                assert(settled.holders()[i] == self.holders()[i]);
                if j < self.holders().len() {
                    assert(settled.holders()[j] == self.holders()[j]);
                }
            }
            assert forall|i: int, j: int|
                0 <= i < settled.pending.len() && 0 <= j < settled.holders().len() implies (
            #[trigger] settled.pending[i]).id != (#[trigger] settled.holders()[j]).id by {
                if j < self.holders().len() {
                    assert(settled.holders()[j] == self.holders()[j]);
                }
            }
        } else {
            assert(settled.holders() == self.holders());
        }
    }

    /// The report on a grant may arrive.
    pub proof fn lemma_settle_wf(self, id: u64, delivered: bool)
        requires
            self.wf(),
        ensures
            self.settle(id, delivered).0.wf(),
            self.settle(id, delivered).0.name == self.name,
    {
        if self.offers(id) {
            self.lemma_settled(delivered);
            self.settled(delivered).lemma_advance_wf();
        }
    }

    /// Taking a request out keeps all of the invariant but that the queue is
    /// worked off, leaves no trace of the request, and brings in no request
    /// that was not known.
    pub proof fn lemma_without(self, id: u64)
        requires
            self.held_consistent(),
            self.holders_hold(),
            self.offer_compatible(),
            self.distinct(),
        ensures
            self.without(id).held_consistent(),
            self.without(id).holders_hold(),
            self.without(id).offer_compatible(),
            self.without(id).distinct(),
            !self.without(id).contains(id),
            forall|other: u64| self.without(id).contains(other) ==> self.contains(other),
            forall|other: u64| other != id && self.contains(other) ==> self.without(id).contains(other),
    {
        let rest = self.without(id);
        let keep = other_than(id);
        lemma_filter_keeps_order(self.pending, id);
        lemma_filter_keeps_order(self.holders(), id);
        assert(rest.pending == self.pending.filter(keep));
        assert(rest.holders() =~= self.holders().filter(keep)) by {
            if self.held is None {
                reveal(Seq::filter);
            }
        }
        assert forall|i: int| 0 <= i < rest.pending.len() implies self.waits(
            (#[trigger] rest.pending[i]).id,
        ) && rest.pending[i].id != id by {
            let a = choose|a: int| 0 <= a < self.pending.len() && self.pending[a] == rest.pending[i];
            assert(self.pending[a].id == rest.pending[i].id);
        }
        assert forall|i: int| 0 <= i < rest.holders().len() implies self.holds(
            (#[trigger] rest.holders()[i]).id,
        ) && rest.holders()[i].id != id && rest.holders()[i].holds_lock == holding() && (
        self.held is Some && rest.holders()[i].shared == self.held.unwrap().shared) by {
            let a = choose|a: int|
                0 <= a < self.holders().len() && self.holders()[a] == rest.holders()[i];
            assert(self.holders()[a].id == rest.holders()[i].id);
        }
        assert forall|i: int, j: int| 0 <= i < j < rest.pending.len() implies (
        #[trigger] rest.pending[i]).id != (#[trigger] rest.pending[j]).id by {
            assert(in_order(self.pending, rest.pending[i], rest.pending[j]));
            let (a, b) = choose|a: int, b: int|
                0 <= a < b < self.pending.len() && self.pending[a] == rest.pending[i]
                    && self.pending[b] == rest.pending[j];
            assert(self.pending[a].id != self.pending[b].id);
        }
        assert forall|i: int, j: int| 0 <= i < j < rest.holders().len() implies (
        #[trigger] rest.holders()[i]).id != (#[trigger] rest.holders()[j]).id by {
            assert(in_order(self.holders(), rest.holders()[i], rest.holders()[j]));
            let (a, b) = choose|a: int, b: int|
                0 <= a < b < self.holders().len() && self.holders()[a] == rest.holders()[i]
                    && self.holders()[b] == rest.holders()[j];
            assert(self.holders()[a].id != self.holders()[b].id);
        }
        assert forall|i: int, j: int|
            0 <= i < rest.pending.len() && 0 <= j < rest.holders().len() implies (
        #[trigger] rest.pending[i]).id != (#[trigger] rest.holders()[j]).id by {
            let a = choose|a: int| 0 <= a < self.pending.len() && self.pending[a] == rest.pending[i];
            let b = choose|b: int|
                0 <= b < self.holders().len() && self.holders()[b] == rest.holders()[j];
            assert(self.pending[a].id != self.holders()[b].id);
        }
        assert forall|other: u64| rest.contains(other) implies self.contains(other) by {
            if rest.waits(other) {
                let i = choose|i: int|
                    0 <= i < rest.pending.len() && (#[trigger] rest.pending[i]).id == other;
                assert(self.waits(rest.pending[i].id));
            } else if rest.holds(other) {
                let i = choose|i: int|
                    0 <= i < rest.holders().len() && (#[trigger] rest.holders()[i]).id == other;
                assert(self.holds(rest.holders()[i].id));
            }
        }
        assert forall|other: u64| other != id && self.contains(other) implies rest.contains(
            other,
        ) by {
            if self.waits(other) {
                let i = choose|i: int|
                    0 <= i < self.pending.len() && (#[trigger] self.pending[i]).id == other;
                assert(rest.pending.contains(self.pending[i]));
                let a = choose|a: int| 0 <= a < rest.pending.len() && rest.pending[a] == self.pending[i];
                assert(rest.pending[a].id == other);
            } else if self.holds(other) {
                let i = choose|i: int|
                    0 <= i < self.holders().len() && (#[trigger] self.holders()[i]).id == other;
                assert(rest.holders().contains(self.holders()[i]));
                let a = choose|a: int|
                    0 <= a < rest.holders().len() && rest.holders()[a] == self.holders()[i];
                assert(rest.holders()[a].id == other);
            }
        }
        assert(!rest.waits(id)) by {
            if rest.waits(id) {
                let i = choose|i: int|
                    0 <= i < rest.pending.len() && (#[trigger] rest.pending[i]).id == id;
                assert(rest.pending[i].id != id);
            }
        }
        assert(!rest.holds(id)) by {
            if rest.holds(id) {
                let i = choose|i: int|
                    0 <= i < rest.holders().len() && (#[trigger] rest.holders()[i]).id == id;
                assert(rest.holders()[i].id != id);
            }
        }
        if self.held is Some && !self.held.unwrap().shared {
            assert(rest.holders().len() <= 1);
        }
    }

    /// A request may be taken out.
    pub proof fn lemma_clear_request_wf(self, id: u64)
        requires
            self.wf(),
        ensures
            self.clear_request(id).0.wf(),
            self.clear_request(id).0.name == self.name,
            !self.clear_request(id).0.contains(id),
    {
        self.lemma_without(id);
        self.without(id).lemma_advance_wf();
    }

    /// A request may be released.
    pub proof fn lemma_close_request_wf(self, id: u64)
        requires
            self.wf(),
        ensures
            self.close_request(id).0.wf(),
            self.close_request(id).0.name == self.name,
    {
        if self.cancellable(id) {
            self.lemma_clear_request_wf(id);
        }
    }

    /// Every operation that the state admits keeps the invariant and the name.
    pub proof fn lemma_step_wf(self, op: Op)
        requires
            self.wf(),
            self.admits(op),
        ensures
            self.step(op).0.wf(),
            self.step(op).0.name == self.name,
    {
        match op {
            Op::Lock(r) => self.lemma_lock_wf(r),
            Op::Clear(id) => self.lemma_clear_request_wf(id),
            Op::Close(id) => self.lemma_close_request_wf(id),
            Op::Settle(id, delivered) => self.lemma_settle_wf(id, delivered),
        }
    }
}

} // verus!
