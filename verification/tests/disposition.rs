use weblocks::disposition::LockRequestState;
use weblocks::request::{
    LockRequest, Notice, Notification, FLAG_IF_AVAILABLE, FLAG_SHARED, FLAG_STEAL,
};

#[test]
fn flag_values() {
    assert_eq!(LockRequestState::FLAG_HOLDS_LOCK, 0x01);
    assert_eq!(LockRequestState::FLAG_CANCELLED, 0x02);
}

#[test]
fn first_mark_holds_lock_wins() {
    let mut state = LockRequestState::default();
    assert!(state.mark_holds_lock());
    assert!(!state.mark_holds_lock());
}

#[test]
fn reset_locked_bit_undoes_a_grant() {
    let mut state = LockRequestState::default();
    assert!(state.mark_holds_lock());
    state.reset_locked_bit();
    assert!(state.mark_holds_lock());
}

#[test]
fn first_mark_cancelled_wins() {
    let mut state = LockRequestState::default();
    assert!(state.mark_cancelled());
    assert!(!state.mark_cancelled());
}

#[test]
fn cancelled_request_cannot_win_a_grant() {
    let mut state = LockRequestState::default();
    assert!(state.mark_cancelled());
    assert!(!state.mark_holds_lock());
}

#[test]
fn holding_request_can_be_cancelled_once() {
    let mut state = LockRequestState::default();
    assert!(state.mark_holds_lock());
    assert!(state.mark_cancelled());
    assert!(!state.mark_cancelled());
}

#[test]
fn reset_keeps_the_cancellation() {
    let mut state = LockRequestState::default();
    assert!(state.mark_holds_lock());
    assert!(state.mark_cancelled());
    state.reset_locked_bit();
    assert!(!state.mark_cancelled());
    assert!(!state.mark_holds_lock());
}

#[test]
fn labels_on_the_wire() {
    assert_eq!(Notification::Locked.label(), "locked");
    assert_eq!(Notification::Stolen.label(), "stolen");
    assert_eq!(Notification::Unavailable.label(), "unavailable");
}

#[test]
fn flags_are_read_bit_by_bit() {
    assert_eq!(FLAG_SHARED, 1);
    assert_eq!(FLAG_STEAL, 2);
    assert_eq!(FLAG_IF_AVAILABLE, 4);
    for flags in 0u32..8 {
        let r = LockRequest::from_flags(7, "L".to_string(), "c".to_string(), flags, 11);
        assert_eq!(r.id, 7);
        assert_eq!(r.name, "L");
        assert_eq!(r.client, "c");
        assert_eq!(r.notify, 11);
        assert_eq!(r.shared, flags & 1 != 0);
        assert_eq!(r.steal, flags & 2 != 0);
        assert_eq!(r.if_available, flags & 4 != 0);
    }
}

#[test]
fn unknown_flag_bits_are_ignored() {
    let r = LockRequest::from_flags(1, "L".to_string(), "c".to_string(), 0xffff_fff8, 0);
    assert!(!r.shared);
    assert!(!r.steal);
    assert!(!r.if_available);
    let r = LockRequest::from_flags(1, "L".to_string(), "c".to_string(), 0xffff_ffff, 0);
    assert!(r.shared && r.steal && r.if_available);
}

#[test]
fn new_request_is_idle() {
    let mut r = LockRequest::new(3, "L".to_string(), "c".to_string(), true, false, false, 9);
    assert!(r.holds_lock.mark_holds_lock());
}

#[test]
fn notices_of_a_request() {
    let mut r = LockRequest::new(3, "L".to_string(), "c".to_string(), true, false, false, 9);
    assert_eq!(r.notify_locked(), Notice { request: 3, port: 9, event: Notification::Locked });
    assert_eq!(
        r.notify_not_available(),
        Notice { request: 3, port: 9, event: Notification::Unavailable }
    );
    assert_eq!(
        r.notify_stolen(),
        Some(Notice { request: 3, port: 9, event: Notification::Stolen })
    );
    assert_eq!(r.notify_stolen(), None);
}
