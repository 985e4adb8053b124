//! The disposition of one lock request: two sticky flags in one word.

use vstd::prelude::*;

verus! {

/// What is known of a request's life so far.
///
/// A request starts idle, with both flags clear. `holds_lock` is raised when a
/// grant is attempted and lowered again only to undo a grant whose notice could
/// not be delivered. `cancelled` is raised by a release or by a steal and
/// never lowered.
pub struct Disposition {
    pub holds_lock: bool,
    pub cancelled: bool,
}

impl Disposition {
    /// Neither granted nor cancelled.
    pub open spec fn idle(self) -> bool {
        !self.holds_lock && !self.cancelled
    }
}

/// The flag word of one request. Its value is the [`Disposition`] that its two
/// bits stand for.
#[derive(Debug)]
pub struct LockRequestState(u8);

impl View for LockRequestState {
    type V = Disposition;

    closed spec fn view(&self) -> Disposition {
        Disposition {
            holds_lock: self.0 & Self::FLAG_HOLDS_LOCK != 0,
            cancelled: self.0 & Self::FLAG_CANCELLED != 0,
        }
    }
}

impl Default for LockRequestState {
    fn default() -> (state: Self)
        ensures
            state@.idle(),
    {
        assert(0u8 & 0x01 == 0 && 0u8 & 0x02 == 0) by (bit_vector);
        LockRequestState(0)
    }
}

impl LockRequestState {
    /// The bit that stands for `holds_lock`.
    pub const FLAG_HOLDS_LOCK: u8 = 0x01;

    /// The bit that stands for `cancelled`.
    pub const FLAG_CANCELLED: u8 = 0x02;

    #[verifier::type_invariant]
    spec fn only_flags(self) -> bool {
        self.0 <= 3
    }

    /// Raises `holds_lock`. Returns `true` iff the request was idle before:
    /// this call is then the one that wins the grant.
    pub fn mark_holds_lock(&mut self) -> (first: bool)
        ensures
            final(self)@ == (Disposition { holds_lock: true, cancelled: old(self)@.cancelled }),
            first == old(self)@.idle(),
    {
        proof {
            use_type_invariant(&*self);
        }
        let prev: u8 = self.0;
        assert(prev <= 3 ==> (prev | 0x01) <= 3 && (prev | 0x01) & 0x01 != 0 && ((prev | 0x01)
            & 0x02) == (prev & 0x02) && (prev == 0 <==> (prev & 0x01 == 0 && prev & 0x02 == 0)))
            by (bit_vector);
        self.0 = prev | Self::FLAG_HOLDS_LOCK;
        prev == 0
    }

    /// Lowers `holds_lock`, which undoes a grant that was not delivered.
    pub fn reset_locked_bit(&mut self)
        ensures
            final(self)@ == (Disposition { holds_lock: false, cancelled: old(self)@.cancelled }),
    {
        proof {
            use_type_invariant(&*self);
        }
        let prev: u8 = self.0;
        assert(prev <= 3 ==> (prev & !0x01u8) <= 3 && (prev & !0x01u8) & 0x01 == 0 && ((prev
            & !0x01u8) & 0x02) == (prev & 0x02)) by (bit_vector);
        self.0 = prev & !Self::FLAG_HOLDS_LOCK;
    }

    /// Raises `cancelled`. Returns `true` iff it was not raised before: this
    /// call is then the first cancellation.
    pub fn mark_cancelled(&mut self) -> (first: bool)
        ensures
            final(self)@ == (Disposition { holds_lock: old(self)@.holds_lock, cancelled: true }),
            first == !old(self)@.cancelled,
    {
        proof {
            use_type_invariant(&*self);
        }
        let prev: u8 = self.0;
        assert(prev <= 3 ==> (prev | 0x02) <= 3 && (prev | 0x02) & 0x02 != 0 && ((prev | 0x02)
            & 0x01) == (prev & 0x01)) by (bit_vector);
        self.0 = prev | Self::FLAG_CANCELLED;
        prev & Self::FLAG_CANCELLED == 0
    }
}

} // verus!
