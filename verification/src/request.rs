//! Lock requests, the notices sent to their ports, and snapshot records.

use crate::disposition::{Disposition, LockRequestState};
use vstd::prelude::*;

verus! {

/// Flag of [`LockRequest::from_flags`]: the request is for shared mode.
pub const FLAG_SHARED: u32 = 0x01;

/// Flag of [`LockRequest::from_flags`]: the request evicts the current holders.
pub const FLAG_STEAL: u32 = 0x02;

/// Flag of [`LockRequest::from_flags`]: the request is denied rather than queued.
pub const FLAG_IF_AVAILABLE: u32 = 0x04;

/// What a request's port is told.
#[derive(Clone, Copy, Debug, PartialEq, Eq, Structural)]
pub enum Notification {
    /// The request now holds the lock.
    Locked,
    /// The request held the lock and lost it to a steal.
    Stolen,
    /// The request asked for the lock only if available, and it was not.
    Unavailable,
}

impl Notification {
    /// The word that stands for this notification on the wire.
    pub open spec fn spec_label(self) -> Seq<char> {
        match self {
            Notification::Locked => "locked"@,
            Notification::Stolen => "stolen"@,
            Notification::Unavailable => "unavailable"@,
        }
    }

    /// The word that stands for this notification on the wire.
    pub fn label(self) -> (text: &'static str)
        ensures
            text@ == self.spec_label(),
    {
        match self {
            Notification::Locked => "locked",
            Notification::Stolen => "stolen",
            Notification::Unavailable => "unavailable",
        }
    }
}

/// One message for the host to post: `event` goes to `port`, on behalf of the
/// request with identity `request`.
#[derive(Clone, Copy, Debug, PartialEq, Eq, Structural)]
pub struct Notice {
    pub request: u64,
    pub port: i64,
    pub event: Notification,
}

/// A request for the lock called `name`.
///
/// `id` is the request's identity: two requests are the same request iff their
/// ids are equal. `notify` is the port that hears of the outcome.
#[derive(Debug)]
pub struct LockRequest {
    pub id: u64,
    pub name: String,
    pub client: String,
    pub shared: bool,
    pub steal: bool,
    pub if_available: bool,
    pub notify: i64,
    pub holds_lock: LockRequestState,
}

/// The mathematical value of a [`LockRequest`].
pub struct RequestView {
    pub id: u64,
    pub name: Seq<char>,
    pub client: Seq<char>,
    pub shared: bool,
    pub steal: bool,
    pub if_available: bool,
    pub notify: i64,
    pub holds_lock: Disposition,
}

impl RequestView {
    /// The notice that brings `event` to this request's port.
    pub open spec fn notice(self, event: Notification) -> Notice {
        Notice { request: self.id, port: self.notify, event }
    }

    /// This request with another disposition.
    pub open spec fn with_disposition(self, holds_lock: Disposition) -> RequestView {
        RequestView { holds_lock, ..self }
    }
}

impl View for LockRequest {
    type V = RequestView;

    open spec fn view(&self) -> RequestView {
        RequestView {
            id: self.id,
            name: self.name@,
            client: self.client@,
            shared: self.shared,
            steal: self.steal,
            if_available: self.if_available,
            notify: self.notify,
            holds_lock: self.holds_lock@,
        }
    }
}

impl LockRequest {
    /// A new, idle request.
    pub fn new(
        id: u64,
        name: String,
        client: String,
        shared: bool,
        steal: bool,
        if_available: bool,
        notify: i64,
    ) -> (request: LockRequest)
        ensures
            request@ == (RequestView {
                id,
                name: name@,
                client: client@,
                shared,
                steal,
                if_available,
                notify,
                holds_lock: Disposition { holds_lock: false, cancelled: false },
            }),
    {
        LockRequest {
            id,
            name,
            client,
            shared,
            steal,
            if_available,
            notify,
            holds_lock: LockRequestState::default(),
        }
    }

    /// A new, idle request whose mode and options are read from a flag word:
    /// [`FLAG_SHARED`], [`FLAG_STEAL`] and [`FLAG_IF_AVAILABLE`]. Other bits are
    /// ignored.
    pub fn from_flags(id: u64, name: String, client: String, flags: u32, notify: i64) -> (request:
        LockRequest)
        ensures
            request@ == (RequestView {
                id,
                name: name@,
                client: client@,
                shared: flags & FLAG_SHARED != 0,
                steal: flags & FLAG_STEAL != 0,
                if_available: flags & FLAG_IF_AVAILABLE != 0,
                notify,
                holds_lock: Disposition { holds_lock: false, cancelled: false },
            }),
    {
        LockRequest::new(
            id,
            name,
            client,
            (flags & FLAG_SHARED) != 0,
            (flags & FLAG_STEAL) != 0,
            (flags & FLAG_IF_AVAILABLE) != 0,
            notify,
        )
    }

    /// The notice that tells this request that it holds the lock.
    pub fn notify_locked(&self) -> (notice: Notice)
        ensures
            notice == self@.notice(Notification::Locked),
    {
        Notice { request: self.id, port: self.notify, event: Notification::Locked }
    }

    /// Cancels this request because its lock was stolen. The first
    /// cancellation yields the notice for its port; a request that was
    /// cancelled before hears nothing.
    pub fn notify_stolen(&mut self) -> (notice: Option<Notice>)
        ensures
            final(self)@ == old(self)@.with_disposition(
                Disposition { holds_lock: old(self)@.holds_lock.holds_lock, cancelled: true },
            ),
            notice == if old(self)@.holds_lock.cancelled {
                None
            } else {
                Some(old(self)@.notice(Notification::Stolen))
            },
    {
        if self.holds_lock.mark_cancelled() {
            Some(Notice { request: self.id, port: self.notify, event: Notification::Stolen })
        } else {
            None
        }
    }

    /// The notice that tells this request that the lock was not available.
    pub fn notify_not_available(&self) -> (notice: Notice)
        ensures
            notice == self@.notice(Notification::Unavailable),
    {
        Notice { request: self.id, port: self.notify, event: Notification::Unavailable }
    }
}

/// One line of a snapshot: a request that waits for, or holds, the lock `name`.
#[derive(Clone, Debug, PartialEq, Eq)]
pub struct RequestSnapshot {
    pub name: String,
    pub client_id: String,
    pub exclusive: bool,
    pub held: bool,
}

/// The mathematical value of a [`RequestSnapshot`].
pub struct SnapshotView {
    pub name: Seq<char>,
    pub client_id: Seq<char>,
    pub exclusive: bool,
    pub held: bool,
}

impl View for RequestSnapshot {
    type V = SnapshotView;

    open spec fn view(&self) -> SnapshotView {
        SnapshotView {
            name: self.name@,
            client_id: self.client_id@,
            exclusive: self.exclusive,
            held: self.held,
        }
    }
}

/// The mathematical values of a sequence of requests.
pub open spec fn request_views(requests: Seq<LockRequest>) -> Seq<RequestView> {
    requests.map_values(|r: LockRequest| r@)
}

/// The mathematical values of a sequence of snapshot records.
pub open spec fn snapshot_views(records: Seq<RequestSnapshot>) -> Seq<SnapshotView> {
    records.map_values(|r: RequestSnapshot| r@)
}

} // verus!
