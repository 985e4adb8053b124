//! What one request hears over the life of a lock.

use crate::invariants::lemma_filter_keeps_order;
use crate::model::{other_than, LockView, Op};
use crate::request::{Notice, Notification};
use vstd::prelude::*;

verus! {

/// The notifications that `notices` bring to the request with identity `id`,
/// in their order.
pub open spec fn heard(notices: Seq<Notice>, id: u64) -> Seq<Notification>
    decreases notices.len(),
{
    if notices.len() == 0 {
        Seq::empty()
    } else if notices.last().request == id {
        heard(notices.drop_last(), id).push(notices.last().event)
    } else {
        heard(notices.drop_last(), id)
    }
}

/// All that a request may ever hear: nothing, or `Locked`, or `Unavailable`,
/// or `Locked` and later `Stolen`.
pub open spec fn heard_in_order(h: Seq<Notification>) -> bool {
    ||| h == Seq::<Notification>::empty()
    ||| h == seq![Notification::Locked]
    ||| h == seq![Notification::Unavailable]
    ||| h == seq![Notification::Locked, Notification::Stolen]
}

/// `op` is the arrival of the request with identity `id`.
pub open spec fn arrives(op: Op, id: u64) -> bool {
    op matches Op::Lock(r) && r.id == id
}

/// The request with identity `id` arrives in the course of `ops`.
pub open spec fn arrived(ops: Seq<Op>, id: u64) -> bool {
    exists|i: int| 0 <= i < ops.len() && arrives(#[trigger] ops[i], id)
}

/// No identity is given to two requests.
pub open spec fn arrive_once(ops: Seq<Op>) -> bool {
    forall|i: int, j: int, id: u64|
        0 <= i < j < ops.len() ==> !(#[trigger] arrives(ops[i], id) && #[trigger] arrives(
            ops[j],
            id,
        ))
}

/// What two runs of notices bring to a request is what the first brings, then
/// what the second brings.
pub proof fn lemma_heard_concat(a: Seq<Notice>, b: Seq<Notice>, id: u64)
    ensures
        heard(a + b, id) == heard(a, id) + heard(b, id),
    decreases b.len(),
{
    if b.len() == 0 {
        assert(a + b =~= a);
        assert(heard(a, id) + heard(b, id) =~= heard(a, id));
    } else {
        assert((a + b).drop_last() =~= a + b.drop_last());
        assert((a + b).last() == b.last());
        lemma_heard_concat(a, b.drop_last(), id);
        if b.last().request == id {
            assert(heard(a + b, id) =~= heard(a, id) + heard(b, id));
        }
    }
}

/// What one notice brings to a request.
pub proof fn lemma_heard_one(n: Notice, id: u64)
    ensures
        heard(seq![n], id) == if n.request == id {
            seq![n.event]
        } else {
            Seq::<Notification>::empty()
        },
{
    assert(seq![n].drop_last() =~= Seq::<Notice>::empty());
    assert(heard(seq![n].drop_last(), id) =~= Seq::<Notification>::empty());
    if n.request == id {
        assert(heard(seq![n], id) =~= seq![n.event]);
    }
}

impl LockView {
    /// All the notices of a sequence of operations, in their order.
    pub open spec fn trace(self, ops: Seq<Op>) -> Seq<Notice>
        decreases ops.len(),
    {
        if ops.len() == 0 {
            Seq::empty()
        } else {
            self.trace(ops.drop_last()) + self.run(ops.drop_last()).step(ops.last()).1
        }
    }

    /// What the first `n` holders' `Stolen` notices bring to a request: one
    /// `Stolen` if it is among them, else nothing.
    pub proof fn lemma_heard_stolen(self, n: int, id: u64)
        requires
            self.distinct(),
            0 <= n <= self.holders().len(),
        ensures
            heard(self.stolen_notices().take(n), id) == if exists|i: int|
                0 <= i < n && (#[trigger] self.holders()[i]).id == id {
                seq![Notification::Stolen]
            } else {
                Seq::<Notification>::empty()
            },
        decreases n,
    {
        let all = self.stolen_notices();
        if n > 0 {
            self.lemma_heard_stolen(n - 1, id);
            assert(all.take(n).drop_last() =~= all.take(n - 1));
            assert(all.take(n).last() == self.holders()[n - 1].notice(Notification::Stolen));
            if self.holders()[n - 1].id == id {
                if exists|i: int| 0 <= i < n - 1 && (#[trigger] self.holders()[i]).id == id {
                    let i = choose|i: int|
                        0 <= i < n - 1 && (#[trigger] self.holders()[i]).id == id;
                    assert(self.holders()[i].id != self.holders()[n - 1].id);
                }
                assert(heard(all.take(n), id) =~= seq![Notification::Stolen]);
            } else {
                if exists|i: int| 0 <= i < n && (#[trigger] self.holders()[i]).id == id {
                    let i = choose|i: int| 0 <= i < n && (#[trigger] self.holders()[i]).id == id;
                    assert(i < n - 1);
                }
            }
        } else {
            assert(all.take(0) =~= Seq::<Notice>::empty());
        }
    }

    /// What working the queue off brings to a request, by where the request
    /// stands afterwards: `Locked` if its grant has just been put on its way,
    /// else nothing.
    pub proof fn lemma_advance_hearing(self, id: u64)
        requires
            self.held_consistent(),
            self.holders_hold(),
            self.offer_compatible(),
            self.distinct(),
        ensures
            self.advance().0.waits(id) ==> heard(self.advance().1, id) == Seq::<
                Notification,
            >::empty() && self.waits(id),
            self.advance().0.offers(id) ==> (heard(self.advance().1, id) == Seq::<
                Notification,
            >::empty() && self.offers(id)) || (heard(self.advance().1, id) == seq![
                Notification::Locked,
            ] && self.waits(id)),
            self.advance().0.holds(id) ==> heard(self.advance().1, id) == Seq::<
                Notification,
            >::empty() && self.holds(id),
            !self.advance().0.contains(id) ==> heard(self.advance().1, id) == Seq::<
                Notification,
            >::empty(),
    {
        let next = self.advance().0;
        let notices = self.advance().1;
        let k = self.first_kept(0);
        self.lemma_first_kept(0);
        self.lemma_advance_wf();
        if notices.len() > 0 {
            let n = self.pending[k].notice(Notification::Locked);
            assert(notices =~= seq![n]);
            lemma_heard_one(n, id);
            assert(next.offers(self.pending[k].id));
            assert(self.waits(self.pending[k].id));
        }
        if next.waits(id) {
            let i = choose|i: int|
                0 <= i < next.pending.len() && (#[trigger] next.pending[i]).id == id;
            let d = self.pending.len() - next.pending.len();
            assert(next.pending =~= self.pending.skip(d));
            assert(self.pending[i + d].id == id);
        }
        if next.holds(id) {
            let i = choose|i: int|
                0 <= i < next.holders().len() && (#[trigger] next.holders()[i]).id == id;
            assert(self.holders()[i].id == id);
        }
    }

    /// What one operation brings to a request, by where the request stands
    /// afterwards.
    ///
    /// A request that waits has heard nothing, and waited before or has just
    /// arrived. A request whose grant is on its way was in that state before
    /// and has heard nothing, or has just been told `Locked` out of the queue. A
    /// request that holds has heard nothing, and held before or was granted
    /// before. A request that the lock does not know has heard nothing, or was
    /// a holder and has been told `Stolen`, or has just arrived and been told
    /// `Unavailable`.
    pub proof fn lemma_step_hearing(self, op: Op, id: u64)
        requires
            self.wf(),
            self.admits(op),
        ensures
            self.step(op).0.waits(id) ==> heard(self.step(op).1, id) == Seq::<
                Notification,
            >::empty() && (self.waits(id) || arrives(op, id)),
            self.step(op).0.offers(id) ==> (heard(self.step(op).1, id) == Seq::<
                Notification,
            >::empty() && self.offers(id)) || (heard(self.step(op).1, id) == seq![
                Notification::Locked,
            ] && (self.waits(id) || arrives(op, id))),
            self.step(op).0.holds(id) ==> heard(self.step(op).1, id) == Seq::<
                Notification,
            >::empty() && (self.holds(id) || self.offers(id)),
            !self.step(op).0.contains(id) ==> {
                ||| heard(self.step(op).1, id) == Seq::<Notification>::empty()
                ||| heard(self.step(op).1, id) == seq![Notification::Stolen] && self.holds(id)
                ||| heard(self.step(op).1, id) == seq![Notification::Unavailable] && arrives(
                    op,
                    id,
                )
            },
    {
        let none = Seq::<Notification>::empty();
        match op {
            Op::Lock(r) => {
                if r.steal {
                    let before = self.evicted(r);
                    self.lemma_evicted(r);
                    before.lemma_advance_hearing(id);
                    before.lemma_advance_wf();
                    self.law_steal_evicts_all(r);
                    let stolen = self.stolen_notices();
                    lemma_heard_concat(stolen, before.advance().1, id);
                    self.lemma_heard_stolen(stolen.len() as int, id);
                    assert(stolen.take(stolen.len() as int) =~= stolen);
                    if self.holds(id) {
                        let i = choose|i: int|
                            0 <= i < self.holders().len() && (#[trigger] self.holders()[i]).id
                                == id;
                        assert(!self.step(op).0.contains(self.holders()[i].id));
                        assert(heard(stolen, id) + none =~= heard(stolen, id));
                    } else {
                        assert(none + heard(before.advance().1, id) =~= heard(
                            before.advance().1,
                            id,
                        ));
                    }
                    if before.waits(id) && id != r.id {
                        let i = choose|i: int|
                            0 <= i < before.pending.len() && (#[trigger] before.pending[i]).id
                                == id;
                        assert(self.pending[i - 1].id == id);
                    }
                } else if r.if_available && !self.grantable(r.shared) {
                    lemma_heard_one(r.notice(Notification::Unavailable), id);
                } else {
                    let before = self.queued(r);
                    self.lemma_queued(r);
                    before.lemma_advance_hearing(id);
                    if before.waits(id) && id != r.id {
                        let i = choose|i: int|
                            0 <= i < before.pending.len() && (#[trigger] before.pending[i]).id
                                == id;
                        assert(self.pending[i].id == id);
                    }
                    if before.holds(id) {
                        let i = choose|i: int|
                            0 <= i < before.holders().len() && (#[trigger] before.holders()[i]).id
                                == id;
                        assert(self.holders()[i].id == id);
                    }
                }
            },
            Op::Clear(x) => {
                self.lemma_clear_hearing(x, id);
            },
            Op::Close(x) => {
                if self.cancellable(x) {
                    self.lemma_clear_hearing(x, id);
                }
            },
            Op::Settle(x, delivered) => {
                if self.offers(x) {
                    let before = self.settled(delivered);
                    self.lemma_settled(delivered);
                    before.lemma_advance_hearing(id);
                    if before.holds(id) {
                        let i = choose|i: int|
                            0 <= i < before.holders().len() && (#[trigger] before.holders()[i]).id
                                == id;
                        if delivered {
                            if i < self.holders().len() {
                                assert(self.holders()[i] == before.holders()[i]);
                            }
                        } else {
                            assert(self.holders()[i].id == id);
                        }
                    }
                }
            },
        }
    }

    /// What taking a request out, and working the queue off, brings to a
    /// request, by where the request stands afterwards.
    pub proof fn lemma_clear_hearing(self, x: u64, id: u64)
        requires
            self.wf(),
        ensures
            self.clear_request(x).0.waits(id) ==> heard(self.clear_request(x).1, id) == Seq::<
                Notification,
            >::empty() && self.waits(id),
            self.clear_request(x).0.offers(id) ==> (heard(self.clear_request(x).1, id) == Seq::<
                Notification,
            >::empty() && self.offers(id)) || (heard(self.clear_request(x).1, id) == seq![
                Notification::Locked,
            ] && self.waits(id)),
            self.clear_request(x).0.holds(id) ==> heard(self.clear_request(x).1, id) == Seq::<
                Notification,
            >::empty() && self.holds(id),
            !self.clear_request(x).0.contains(id) ==> heard(self.clear_request(x).1, id) == Seq::<
                Notification,
            >::empty(),
    {
        let before = self.without(x);
        self.lemma_without(x);
        before.lemma_advance_hearing(id);
        lemma_filter_keeps_order(self.pending, x);
        lemma_filter_keeps_order(self.holders(), x);
        if before.waits(id) {
            let i = choose|i: int|
                0 <= i < before.pending.len() && (#[trigger] before.pending[i]).id == id;
            assert(self.pending.contains(before.pending[i]));
            let j = choose|j: int| 0 <= j < self.pending.len() && self.pending[j] == before.pending[i];
            assert(self.pending[j].id == id);
        }
        if before.holds(id) {
            let i = choose|i: int|
                0 <= i < before.holders().len() && (#[trigger] before.holders()[i]).id == id;
            assert(before.holders() =~= self.holders().filter(other_than(x))) by {
                if self.held is None {
                    reveal(Seq::filter);
                }
            }
            assert(self.holders().contains(before.holders()[i]));
            let j = choose|j: int|
                0 <= j < self.holders().len() && self.holders()[j] == before.holders()[i];
            assert(self.holders()[j].id == id);
        }
    }

    /// A request waits, or holds, or has its grant on its way, or is not
    /// known: never two of these.
    pub proof fn lemma_stands_in_one_place(self, id: u64)
        requires
            self.distinct(),
        ensures
            !(self.waits(id) && self.holds(id)),
            !(self.waits(id) && self.offers(id)),
            !(self.holds(id) && self.offers(id)),
    {
        if self.waits(id) && self.holds(id) {
            let i = choose|i: int|
                0 <= i < self.pending.len() && (#[trigger] self.pending[i]).id == id;
            let j = choose|j: int|
                0 <= j < self.holders().len() && (#[trigger] self.holders()[j]).id == id;
            assert(self.pending[i].id != self.holders()[j].id);
        }
    }

    /// What a request has heard so far tells where it stands: a request that
    /// has not arrived, or waits, has heard nothing; one that was granted the
    /// lock has heard `Locked` and no more.
    pub proof fn lemma_hearing(name: Seq<char>, ops: Seq<Op>, id: u64)
        requires
            LockView::new(name).admits_all(ops),
            arrive_once(ops),
        ensures
            LockView::new(name).run(ops).wf(),
            !arrived(ops, id) ==> !LockView::new(name).run(ops).contains(id),
            !LockView::new(name).run(ops).holds(id) && !LockView::new(name).run(ops).offers(id)
                && (LockView::new(name).run(ops).waits(id) || !arrived(ops, id)) ==> heard(
                LockView::new(name).trace(ops),
                id,
            ) == Seq::<Notification>::empty(),
            LockView::new(name).run(ops).holds(id) || LockView::new(name).run(ops).offers(id)
                ==> heard(LockView::new(name).trace(ops), id) == seq![Notification::Locked],
            heard_in_order(heard(LockView::new(name).trace(ops), id)),
        decreases ops.len(),
    {
        let start = LockView::new(name);
        let none = Seq::<Notification>::empty();
        start.law_invariant_always(ops);
        if ops.len() == 0 {
            assert(!start.waits(id) && !start.holds(id) && !start.offers(id));
        } else {
            let earlier = ops.drop_last();
            let op = ops.last();
            let s = start.run(earlier);
            let t = start.run(ops);
            let h = heard(start.trace(earlier), id);
            let said = heard(s.step(op).1, id);
            assert(arrive_once(earlier)) by {
                assert forall|i: int, j: int, x: u64| 0 <= i < j < earlier.len() implies !(
                #[trigger] arrives(earlier[i], x) && #[trigger] arrives(earlier[j], x)) by {
                    assert(earlier[i] == ops[i] && earlier[j] == ops[j]);
                }
            }
            Self::lemma_hearing(name, earlier, id);
            s.lemma_step_hearing(op, id);
            s.lemma_step_wf(op);
            lemma_heard_concat(start.trace(earlier), s.step(op).1, id);
            assert(heard(start.trace(ops), id) == h + said);
            assert(h + none =~= h);
            assert(none + said =~= said);
            if arrives(op, id) {
                assert(ops[ops.len() - 1] == op);
                if arrived(earlier, id) {
                    let i = choose|i: int| 0 <= i < earlier.len() && arrives(#[trigger] earlier[i], id);
                    assert(earlier[i] == ops[i]);
                    assert(arrives(ops[i], id) && arrives(ops[ops.len() - 1], id));
                }
                assert(arrived(ops, id));
                assert(!s.contains(id));
            } else {
                if arrived(ops, id) {
                    let i = choose|i: int| 0 <= i < ops.len() && arrives(#[trigger] ops[i], id);
                    assert(earlier[i] == ops[i]);
                    assert(arrived(earlier, id));
                }
                if arrived(earlier, id) {
                    let i = choose|i: int| 0 <= i < earlier.len() && arrives(#[trigger] earlier[i], id);
                    assert(earlier[i] == ops[i]);
                }
            }
            s.lemma_stands_in_one_place(id);
            t.lemma_stands_in_one_place(id);
            assert(seq![Notification::Locked].len() == 1);
            assert(seq![Notification::Stolen].len() == 1);
            assert(seq![Notification::Unavailable].len() == 1);
            if said == seq![Notification::Locked] {
                assert(seq![Notification::Locked][0] != seq![Notification::Stolen][0]);
                assert(seq![Notification::Locked][0] != seq![Notification::Unavailable][0]);
                assert(t.offers(id));
                assert(h == none);
                assert(h + said =~= seq![Notification::Locked]);
            }
            if said == seq![Notification::Stolen] && s.holds(id) {
                assert(h + said =~= seq![Notification::Locked, Notification::Stolen]);
            }
            if said == seq![Notification::Unavailable] && arrives(op, id) {
                assert(h + said =~= seq![Notification::Unavailable]);
            }
        }
    }

    /// Over the life of a lock in which no identity is given to two requests,
    /// every request hears nothing, or `Locked`, or `Unavailable`, or `Locked`
    /// and later `Stolen`: never two outcomes, and never an outcome twice.
    pub proof fn law_heard_once(name: Seq<char>, ops: Seq<Op>, id: u64)
        requires
            LockView::new(name).admits_all(ops),
            arrive_once(ops),
        ensures
            heard_in_order(heard(LockView::new(name).trace(ops), id)),
    {
        Self::lemma_hearing(name, ops, id);
    }
}

} // verus!
