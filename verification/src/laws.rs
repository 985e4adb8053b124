//! What holds of every lock, whatever is asked of it.

use crate::invariants::{in_order, lemma_filter_keeps_order};
use crate::model::{holding, other_than, LockView, Op};
use crate::request::{Notice, Notification, RequestView};
use vstd::prelude::*;

verus! {

/// Requests that stay in a queue when another is taken out keep their order.
pub proof fn lemma_filter_preserves_order(s: Seq<RequestView>, id: u64, a: int, b: int)
    requires
        0 <= a < b < s.len(),
        s[a].id != id,
        s[b].id != id,
    ensures
        in_order(s.filter(other_than(id)), s[a], s[b]),
    decreases s.len(),
{
    reveal(Seq::filter);
    let f = s.filter(other_than(id));
    let front = s.drop_last();
    let g = front.filter(other_than(id));
    if b < s.len() - 1 {
        lemma_filter_preserves_order(front, id, a, b);
        let (x, y) = choose|x: int, y: int|
            0 <= x < y < g.len() && g[x] == front[a] && g[y] == front[b];
        assert(f[x] == s[a] && f[y] == s[b]);
    } else {
        lemma_filter_keeps_order(front, id);
        assert(front[a] == s[a]);
        assert(g.contains(front[a]));
        let x = choose|x: int| 0 <= x < g.len() && g[x] == front[a];
        assert(f[x] == s[a] && f[f.len() - 1] == s[b]);
    }
}

impl LockView {
    /// The state after a sequence of operations.
    pub open spec fn run(self, ops: Seq<Op>) -> LockView
        decreases ops.len(),
    {
        if ops.len() == 0 {
            self
        } else {
            self.run(ops.drop_last()).step(ops.last()).0
        }
    }

    /// Every operation of the sequence may be applied when its turn comes.
    pub open spec fn admits_all(self, ops: Seq<Op>) -> bool
        decreases ops.len(),
    {
        ops.len() == 0 || (self.admits_all(ops.drop_last()) && self.run(ops.drop_last()).admits(
            ops.last(),
        ))
    }

    /// Nobody holds the lock, or one exclusive request holds it, or one or
    /// more shared requests hold it.
    pub open spec fn held_in_one_mode(self) -> bool {
        ||| self.held is None
        ||| !self.held.unwrap().shared && self.holders().len() == 1 && !self.holders()[0].shared
        ||| self.held.unwrap().shared && self.holders().len() >= 1 && forall|i: int|
            0 <= i < self.holders().len() ==> (#[trigger] self.holders()[i]).shared
    }

    /// The invariant holds after every sequence of operations on a lock.
    pub proof fn law_invariant_always(self, ops: Seq<Op>)
        requires
            self.wf(),
            self.admits_all(ops),
        ensures
            self.run(ops).wf(),
        decreases ops.len(),
    {
        if ops.len() > 0 {
            self.law_invariant_always(ops.drop_last());
            self.run(ops.drop_last()).lemma_step_wf(ops.last());
        }
    }

    /// After every sequence of operations on a lock that nobody had asked for
    /// before, the lock is not held, or held by one exclusive request, or held
    /// by one or more shared requests: never in mixed mode.
    pub proof fn law_never_mixed(name: Seq<char>, ops: Seq<Op>)
        requires
            LockView::new(name).admits_all(ops),
        ensures
            LockView::new(name).run(ops).held_in_one_mode(),
    {
        LockView::new(name).law_invariant_always(ops);
    }

    /// No request waits that could hold the lock: after every sequence of
    /// operations, unless a grant is on its way, the request at the head of the
    /// queue cannot be granted.
    pub proof fn law_head_is_blocked(self, ops: Seq<Op>)
        requires
            self.wf(),
            self.admits_all(ops),
        ensures
            self.run(ops).offer is None && self.run(ops).pending.len() > 0 ==> !self.run(
                ops,
            ).grantable(self.run(ops).pending[0].shared),
    {
        self.law_invariant_always(ops);
    }

    /// Working the queue off takes requests from its head only: of two
    /// requests that wait one behind the other, if the first still waits
    /// afterwards, then so does the second, behind it.
    pub proof fn lemma_advance_keeps_order(self, x: RequestView, y: RequestView)
        requires
            self.distinct(),
            in_order(self.pending, x, y),
            self.advance().0.waits(x.id),
        ensures
            in_order(self.advance().0.pending, x, y),
    {
        let next = self.advance().0;
        self.lemma_first_kept(0);
        let (a, b) = choose|a: int, b: int|
            0 <= a < b < self.pending.len() && self.pending[a] == x && self.pending[b] == y;
        let d = self.pending.len() - next.pending.len();
        assert(next.pending =~= self.pending.skip(d));
        let i = choose|i: int|
            0 <= i < next.pending.len() && (#[trigger] next.pending[i]).id == x.id;
        assert(next.pending[i] == self.pending[i + d]);
        if i + d < a {
            assert(self.pending[i + d].id != self.pending[a].id);
        } else if a < i + d {
            assert(self.pending[a].id != self.pending[i + d].id);
        }
        assert(next.pending[a - d] == x && next.pending[b - d] == y);
    }

    /// Taking a third request out, and working the queue off, keeps the order
    /// of two requests that wait.
    pub proof fn lemma_clear_keeps_order(self, id: u64, i: int, j: int)
        requires
            self.wf(),
            0 <= i < j < self.pending.len(),
            self.pending[j].id != id,
            self.clear_request(id).0.waits(self.pending[i].id),
        ensures
            in_order(self.clear_request(id).0.pending, self.pending[i], self.pending[j]),
    {
        self.lemma_without(id);
        self.without(id).lemma_advance_wf();
        assert(self.clear_request(id).0.contains(self.pending[i].id));
        lemma_filter_preserves_order(self.pending, id, i, j);
        self.without(id).lemma_advance_keeps_order(self.pending[i], self.pending[j]);
    }

    /// First come, first served. Let one request wait before another.
    /// Whatever is done next, short of taking the second out or releasing it:
    /// if the first still waits afterwards, so does the second, behind it. So
    /// the second is not granted before the first.
    pub proof fn law_first_come_first_served(self, op: Op, i: int, j: int)
        requires
            self.wf(),
            self.admits(op),
            0 <= i < j < self.pending.len(),
            op != Op::Clear(self.pending[j].id),
            op != Op::Close(self.pending[j].id),
        ensures
            self.step(op).0.waits(self.pending[i].id) ==> in_order(
                self.step(op).0.pending,
                self.pending[i],
                self.pending[j],
            ),
    {
        let x = self.pending[i];
        let y = self.pending[j];
        let next = self.step(op).0;
        assert(in_order(self.pending, x, y));
        if next.waits(x.id) {
            match op {
                Op::Lock(r) => {
                    if r.steal {
                        assert(self.evicted(r).pending[i + 1] == x && self.evicted(r).pending[j
                            + 1] == y);
                        self.lemma_evicted(r);
                        self.evicted(r).lemma_advance_keeps_order(x, y);
                    } else if r.if_available && !self.grantable(r.shared) {
                    } else {
                        assert(self.queued(r).pending[i] == x && self.queued(r).pending[j] == y);
                        self.lemma_queued(r);
                        self.queued(r).lemma_advance_keeps_order(x, y);
                    }
                },
                Op::Clear(id) => {
                    self.lemma_clear_keeps_order(id, i, j);
                },
                Op::Close(id) => {
                    if self.cancellable(id) {
                        self.lemma_clear_keeps_order(id, i, j);
                    }
                },
                Op::Settle(id, delivered) => {
                    if self.offers(id) {
                        self.lemma_settled(delivered);
                        self.settled(delivered).lemma_advance_keeps_order(x, y);
                    }
                },
            }
        }
    }

    /// A request that goes to the end of the queue stands behind every
    /// request that waited before it, for as long as that one waits.
    pub proof fn law_arrivals_queue_up(self, r: RequestView, i: int)
        requires
            self.wf(),
            !self.contains(r.id),
            !r.steal,
            !r.if_available || self.grantable(r.shared),
            0 <= i < self.pending.len(),
        ensures
            self.lock(r).0.waits(self.pending[i].id) ==> in_order(
                self.lock(r).0.pending,
                self.pending[i],
                r,
            ),
    {
        let x = self.pending[i];
        let queued = self.queued(r);
        assert(queued.pending[i] == x && queued.pending[self.pending.len() as int] == r);
        assert(in_order(queued.pending, x, r));
        self.lemma_queued(r);
        if queued.advance().0.waits(x.id) {
            queued.lemma_advance_keeps_order(x, r);
        }
    }

    /// A steal evicts the whole held set at once: afterwards nobody holds the
    /// lock, no earlier holder is known to it any more, and each of them was
    /// told `Stolen`, once, before anything else was said.
    pub proof fn law_steal_evicts_all(self, r: RequestView)
        requires
            self.wf(),
            !self.contains(r.id),
            r.steal,
        ensures
            self.lock(r).0.held is None,
            forall|i: int|
                0 <= i < self.holders().len() ==> !self.lock(r).0.contains(
                    (#[trigger] self.holders()[i]).id,
                ),
            self.lock(r).1.len() >= self.holders().len(),
            forall|i: int|
                0 <= i < self.holders().len() ==> (#[trigger] self.lock(r).1[i])
                    == self.holders()[i].notice(Notification::Stolen),
            forall|k: int|
                self.holders().len() <= k < self.lock(r).1.len() ==> (#[trigger] self.lock(
                    r,
                ).1[k]).event == Notification::Locked,
    {
        let evicted = self.evicted(r);
        let next = evicted.advance().0;
        self.lemma_evicted(r);
        evicted.lemma_advance_wf();
        evicted.lemma_first_kept(0);
        assert forall|i: int| 0 <= i < self.holders().len() implies !next.contains(
            (#[trigger] self.holders()[i]).id,
        ) by {
            let h = self.holders()[i].id;
            assert(self.holds(h));
            if next.contains(h) {
                assert(evicted.contains(h));
                assert(!evicted.holds(h));
                if evicted.waits(h) {
                    let k = choose|k: int|
                        0 <= k < evicted.pending.len() && (#[trigger] evicted.pending[k]).id == h;
                    if k > 0 {
                        assert(evicted.pending[k] == self.pending[k - 1]);
                        assert(self.pending[k - 1].id != self.holders()[i].id);
                    }
                }
            }
        }
    }

    /// A steal by an idle request, while no grant is on its way, is granted at
    /// once: after the evicted holders, the stealing request is told
    /// `Locked`, and its grant is on its way.
    pub proof fn law_steal_is_granted(self, r: RequestView)
        requires
            self.wf(),
            !self.contains(r.id),
            r.steal,
            r.holds_lock.idle(),
            self.offer is None,
        ensures
            self.lock(r).0 == (LockView {
                held: None,
                offer: Some(r.with_disposition(holding())),
                ..self
            }),
            self.lock(r).1 == self.stolen_notices().push(r.notice(Notification::Locked)),
    {
        let evicted = self.evicted(r);
        assert(evicted.pending[0] == r);
        assert(!evicted.discards(r));
        assert(evicted.first_kept(0) == 0);
        assert(evicted.pending.skip(1) =~= self.pending);
        assert(self.lock(r).1 =~= self.stolen_notices().push(r.notice(Notification::Locked)));
    }

    /// A request that asks for the lock only if available, while the lock
    /// cannot be granted in its mode, never enters the lock's state, and is
    /// told `Unavailable` once and nothing else.
    pub proof fn law_unavailable(self, r: RequestView)
        requires
            self.wf(),
            !self.contains(r.id),
            !r.steal,
            r.if_available,
            !self.grantable(r.shared),
        ensures
            self.lock(r).0 == self,
            !self.lock(r).0.contains(r.id),
            self.lock(r).1 == seq![r.notice(Notification::Unavailable)],
    {
    }

    /// A request that is cancellable is known.
    pub proof fn lemma_cancellable_is_known(self, id: u64)
        requires
            self.cancellable(id),
        ensures
            self.contains(id),
    {
        if exists|i: int|
            0 <= i < self.pending.len() && (#[trigger] self.pending[i]).id == id
                && !self.pending[i].holds_lock.cancelled {
            let i = choose|i: int|
                0 <= i < self.pending.len() && (#[trigger] self.pending[i]).id == id
                    && !self.pending[i].holds_lock.cancelled;
            assert(self.pending[i].id == id);
        } else if exists|i: int|
            0 <= i < self.holders().len() && (#[trigger] self.holders()[i]).id == id
                && !self.holders()[i].holds_lock.cancelled {
            let i = choose|i: int|
                0 <= i < self.holders().len() && (#[trigger] self.holders()[i]).id == id
                    && !self.holders()[i].holds_lock.cancelled;
            assert(self.holders()[i].id == id);
        }
    }

    /// Releasing a request twice is releasing it once: the second release
    /// changes nothing and says nothing.
    pub proof fn law_release_idempotent(self, id: u64)
        requires
            self.wf(),
        ensures
            self.close_request(id).0.close_request(id) == (
                self.close_request(id).0,
                Seq::<Notice>::empty(),
            ),
    {
        let once = self.close_request(id).0;
        if self.cancellable(id) {
            self.lemma_clear_request_wf(id);
            if once.cancellable(id) {
                once.lemma_cancellable_is_known(id);
            }
        }
    }

    /// The only request that a lock knows holds the lock or has its grant on
    /// its way, and can be cancelled.
    pub proof fn lemma_only_request_is_granted(self, id: u64)
        requires
            self.wf(),
            self.contains(id),
            forall|other: u64| self.contains(other) ==> other == id,
        ensures
            self.holds(id) || self.offers(id),
            self.cancellable(id),
    {
        if self.pending.len() > 0 {
            assert(self.waits(self.pending[0].id));
            assert(self.contains(self.pending[0].id));
            if self.held is Some {
                assert(self.holds(self.holders()[0].id));
                assert(self.contains(self.holders()[0].id));
                assert(self.pending[0].id != self.holders()[0].id);
            }
            assert(self.offer is Some);
            assert(self.contains(self.offer.unwrap().id));
        }
        if self.holds(id) {
            let i = choose|i: int|
                0 <= i < self.holders().len() && (#[trigger] self.holders()[i]).id == id;
            assert(self.holders()[i].holds_lock == holding());
        }
    }

    /// Releasing the only request that a lock knows leaves the lock idle.
    pub proof fn law_last_release_leaves_idle(self, id: u64)
        requires
            self.wf(),
            self.contains(id),
            forall|other: u64| self.contains(other) ==> other == id,
        ensures
            self.close_request(id).0.idle(),
            self.close_request(id).1 == Seq::<Notice>::empty(),
    {
        let rest = self.without(id);
        self.lemma_only_request_is_granted(id);
        self.lemma_without(id);
        assert forall|other: u64| !rest.contains(other) by {
            if rest.contains(other) {
                assert(self.contains(other));
                assert(other == id);
            }
        }
        if rest.pending.len() > 0 {
            assert(rest.waits(rest.pending[0].id));
            assert(rest.contains(rest.pending[0].id));
        }
        if rest.held is Some {
            assert(rest.holds(rest.holders()[0].id));
            assert(rest.contains(rest.holders()[0].id));
        }
        if rest.offer is Some {
            assert(rest.contains(rest.offer.unwrap().id));
        }
        rest.lemma_advance_at_rest();
    }

    /// Of the notices of one operation at most one is `Locked`, and it is the
    /// last. Where it is there, the grant of its request is on its way, and the
    /// host owes the report on that request.
    pub proof fn law_locked_comes_last(self, op: Op)
        requires
            self.wf(),
            self.admits(op),
        ensures
            forall|k: int|
                0 <= k < self.step(op).1.len() - 1 ==> (#[trigger] self.step(op).1[k]).event
                    != Notification::Locked,
            self.step(op).1.len() > 0 && self.step(op).1.last().event == Notification::Locked
                ==> self.step(op).0.offers(self.step(op).1.last().request),
    {
        let notices = self.step(op).1;
        match op {
            Op::Lock(r) => {
                if r.steal {
                    self.evicted(r).lemma_first_kept(0);
                }
            },
            _ => {},
        }
    }

    /// Who hears what. `Locked` goes to a request that waited, or has just
    /// arrived, and puts its grant on its way. `Stolen` goes to a holder that a
    /// steal evicts, and the lock forgets it. `Unavailable` goes to the request
    /// that has just arrived asking only if available, and nothing changes.
    pub proof fn law_who_hears_what(self, op: Op, k: int)
        requires
            self.wf(),
            self.admits(op),
            0 <= k < self.step(op).1.len(),
        ensures
            match self.step(op).1[k].event {
                Notification::Locked => {
                    &&& self.step(op).0.offers(self.step(op).1[k].request)
                    &&& !self.holds(self.step(op).1[k].request)
                    &&& self.waits(self.step(op).1[k].request) || (op matches Op::Lock(r)
                        && r.id == self.step(op).1[k].request)
                },
                Notification::Stolen => {
                    &&& op matches Op::Lock(r) && r.steal
                    &&& self.holds(self.step(op).1[k].request)
                    &&& !self.step(op).0.contains(self.step(op).1[k].request)
                },
                Notification::Unavailable => {
                    &&& op matches Op::Lock(r) && r.if_available && r.id == self.step(
                        op,
                    ).1[k].request
                    &&& self.step(op).0 == self
                },
            },
    {
        let n = self.step(op).1[k];
        match op {
            Op::Lock(r) => {
                if r.steal {
                    self.lemma_evicted(r);
                    self.law_steal_evicts_all(r);
                    if k < self.holders().len() {
                        assert(n == self.holders()[k].notice(Notification::Stolen));
                        assert(self.holds(self.holders()[k].id));
                    } else {
                        self.evicted(r).lemma_granted_waited(k - self.holders().len());
                        if self.evicted(r).waits(n.request) && n.request != r.id {
                            let i = choose|i: int|
                                0 <= i < self.evicted(r).pending.len() && (
                                #[trigger] self.evicted(r).pending[i]).id == n.request;
                            assert(self.pending[i - 1].id == n.request);
                            self.lemma_waiting_is_not_holding(i - 1);
                        }
                    }
                } else if r.if_available && !self.grantable(r.shared) {
                } else {
                    self.lemma_queued(r);
                    self.queued(r).lemma_granted_waited(k);
                    if self.queued(r).waits(n.request) && n.request != r.id {
                        let i = choose|i: int|
                            0 <= i < self.queued(r).pending.len() && (#[trigger] self.queued(
                                r,
                            ).pending[i]).id == n.request;
                        assert(self.pending[i].id == n.request);
                        self.lemma_waiting_is_not_holding(i);
                    }
                }
            },
            Op::Clear(id) => {
                self.lemma_cleared_grant_waited(id, k);
            },
            Op::Close(id) => {
                self.lemma_cleared_grant_waited(id, k);
            },
            Op::Settle(id, delivered) => {
                self.lemma_settled(delivered);
                self.settled(delivered).lemma_granted_waited(k);
                let i = choose|i: int|
                    0 <= i < self.pending.len() && (#[trigger] self.pending[i]).id == n.request;
                self.lemma_waiting_is_not_holding(i);
            },
        }
    }

    /// A request that waits does not hold the lock.
    pub proof fn lemma_waiting_is_not_holding(self, i: int)
        requires
            self.distinct(),
            0 <= i < self.pending.len(),
        ensures
            self.waits(self.pending[i].id),
            !self.holds(self.pending[i].id),
    {
        if self.holds(self.pending[i].id) {
            let j = choose|j: int|
                0 <= j < self.holders().len() && (#[trigger] self.holders()[j]).id
                    == self.pending[i].id;
            assert(self.pending[i].id != self.holders()[j].id);
        }
    }

    /// Working the queue off says `Locked` only, to a request that waited,
    /// whose grant is then on its way.
    pub proof fn lemma_granted_waited(self, k: int)
        requires
            0 <= k < self.advance().1.len(),
        ensures
            self.advance().1[k].event == Notification::Locked,
            self.waits(self.advance().1[k].request),
            self.advance().0.offers(self.advance().1[k].request),
    {
        self.lemma_first_kept(0);
        assert(self.pending[self.first_kept(0)].id == self.advance().1[k].request);
    }

    /// Taking a request out and working the queue off says `Locked` only,
    /// to a request that waited and did not hold, whose grant is then on its
    /// way.
    pub proof fn lemma_cleared_grant_waited(self, id: u64, k: int)
        requires
            self.wf(),
            0 <= k < self.clear_request(id).1.len(),
        ensures
            self.clear_request(id).1[k].event == Notification::Locked,
            self.waits(self.clear_request(id).1[k].request),
            !self.holds(self.clear_request(id).1[k].request),
            self.clear_request(id).0.offers(self.clear_request(id).1[k].request),
    {
        let n = self.clear_request(id).1[k];
        self.lemma_without(id);
        self.without(id).lemma_granted_waited(k);
        assert(self.without(id).contains(n.request));
        assert(self.contains(n.request));
        let i = choose|i: int|
            0 <= i < self.without(id).pending.len() && (#[trigger] self.without(id).pending[i]).id
                == n.request;
        lemma_filter_keeps_order(self.pending, id);
        assert(self.pending.contains(self.without(id).pending[i]));
        let j = choose|j: int|
            0 <= j < self.pending.len() && self.pending[j] == self.without(id).pending[i];
        self.lemma_waiting_is_not_holding(j);
    }
}

} // verus!
