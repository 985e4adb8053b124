//! Facts about working the queue off.

use crate::model::LockView;
use vstd::prelude::*;

verus! {

impl LockView {
    /// `first_kept` stays within the queue, every request before it is
    /// dropped, and the request at it is not.
    pub proof fn lemma_first_kept(self, from: int)
        requires
            0 <= from <= self.pending.len(),
        ensures
            from <= self.first_kept(from) <= self.pending.len(),
            forall|i: int|
                from <= i < self.first_kept(from) ==> self.discards(#[trigger] self.pending[i]),
            self.first_kept(from) < self.pending.len() ==> !self.discards(
                self.pending[self.first_kept(from)],
            ),
        decreases self.pending.len() - from,
    {
        if from < self.pending.len() && self.discards(self.pending[from]) {
            self.lemma_first_kept(from + 1);
        }
    }

    /// The queue without its head.
    pub open spec fn popped(self) -> LockView {
        LockView { pending: self.pending.skip(1), ..self }
    }

    /// Taking the head off the queue moves `first_kept` by one.
    pub proof fn lemma_first_kept_popped(self, from: int)
        requires
            0 <= from < self.pending.len(),
        ensures
            self.popped().first_kept(from) == self.first_kept(from + 1) - 1,
        decreases self.pending.len() - from,
    {
        let rest = self.popped();
        assert(rest.pending.len() == self.pending.len() - 1);
        if from < rest.pending.len() {
            assert(rest.pending[from] == self.pending[from + 1]);
            if rest.discards(rest.pending[from]) {
                self.lemma_first_kept_popped(from + 1);
            }
        }
    }

    /// Working the queue off gives the same with or without a head that is
    /// dropped.
    pub proof fn lemma_advance_popped(self)
        requires
            self.offer is None,
            self.pending.len() > 0,
            self.discards(self.pending[0]),
        ensures
            self.popped().advance() == self.advance(),
    {
        let rest = self.popped();
        self.lemma_first_kept(1);
        self.lemma_first_kept_popped(0);
        let k = self.first_kept(0);
        assert(k == self.first_kept(1));
        assert(rest.first_kept(0) == k - 1);
        if k < self.pending.len() {
            assert(rest.pending[k - 1] == self.pending[k]);
            assert(rest.pending.skip(k) =~= self.pending.skip(k + 1));
        }
        assert(rest.pending.skip(k - 1) =~= self.pending.skip(k));
    }

    /// Nothing moves when a grant is on its way, when nothing waits, or when
    /// the head of the queue cannot be granted.
    pub proof fn lemma_advance_at_rest(self)
        requires
            self.offer is Some || self.pending.len() == 0 || !self.grantable(
                self.pending[0].shared,
            ),
        ensures
            self.advance() == (self, Seq::<crate::request::Notice>::empty()),
    {
        assert(self.pending.skip(0) =~= self.pending);
    }
}

} // verus!
