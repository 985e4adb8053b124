use weblocks::request::{LockRequest, Notice, Notification, RequestSnapshot};
use weblocks::state::LockState;

fn request(id: u64, shared: bool) -> LockRequest {
    LockRequest::new(id, "L".to_string(), format!("client-{id}"), shared, false, false, 100 + id as i64)
}

fn stealing(id: u64, shared: bool) -> LockRequest {
    LockRequest::new(id, "L".to_string(), format!("client-{id}"), shared, true, false, 100 + id as i64)
}

fn if_available(id: u64, shared: bool) -> LockRequest {
    LockRequest::new(id, "L".to_string(), format!("client-{id}"), shared, false, true, 100 + id as i64)
}

fn notice(id: u64, event: Notification) -> Notice {
    Notice { request: id, port: 100 + id as i64, event }
}

/// Posts the notices of one operation to a sink that accepts every `Locked`
/// notice but those for the requests in `refused`, and returns all that was
/// posted.
fn post(state: &mut LockState, first: Vec<Notice>, refused: &[u64]) -> Vec<Notice> {
    let mut posted = Vec::new();
    let mut notices = first;
    loop {
        let mut report = None;
        for n in notices {
            posted.push(n);
            if n.event == Notification::Locked {
                report = Some((n.request, !refused.contains(&n.request)));
            }
        }
        match report {
            Some((id, delivered)) => notices = state.settle(id, delivered),
            None => return posted,
        }
    }
}

fn lock(state: &mut LockState, r: LockRequest) -> Vec<Notice> {
    assert!(!state.contains(r.id));
    let first = state.lock(r);
    post(state, first, &[])
}

fn release(state: &mut LockState, id: u64) -> Vec<Notice> {
    let first = state.close_request(id);
    post(state, first, &[])
}

fn records(state: &LockState) -> Vec<(String, String, bool, bool)> {
    let mut into: Vec<RequestSnapshot> = Vec::new();
    state.snapshot_into(&mut into);
    into.into_iter().map(|r| (r.name, r.client_id, r.exclusive, r.held)).collect()
}

#[test]
fn new_state_is_idle() {
    let state = LockState::new("L".to_string());
    assert!(state.is_idle());
    assert_eq!(state.name(), "L");
    assert!(state.is_grantable(true));
    assert!(state.is_grantable(false));
    assert_eq!(state.awaiting(), None);
    assert!(records(&state).is_empty());
}

#[test]
fn grant_is_on_its_way_until_settled() {
    let mut state = LockState::new("L".to_string());
    let notices = state.lock(request(1, false));
    assert_eq!(notices, vec![notice(1, Notification::Locked)]);
    assert_eq!(state.awaiting(), Some(1));
    assert!(state.contains(1));
    assert!(!state.is_idle());
    assert!(records(&state).is_empty());
    assert!(state.is_grantable(false));
    assert_eq!(state.settle(1, true), vec![]);
    assert_eq!(state.awaiting(), None);
    assert!(!state.is_grantable(false));
    assert!(!state.is_grantable(true));
    assert_eq!(records(&state), vec![("L".to_string(), "client-1".to_string(), true, true)]);
}

#[test]
fn queue_waits_while_a_grant_is_on_its_way() {
    let mut state = LockState::new("L".to_string());
    assert_eq!(state.lock(request(1, true)), vec![notice(1, Notification::Locked)]);
    assert_eq!(state.lock(request(2, true)), vec![]);
    assert_eq!(state.awaiting(), Some(1));
    assert_eq!(state.settle(1, true), vec![notice(2, Notification::Locked)]);
    assert_eq!(state.awaiting(), Some(2));
    assert_eq!(state.settle(2, true), vec![]);
    assert_eq!(
        records(&state),
        vec![
            ("L".to_string(), "client-1".to_string(), false, true),
            ("L".to_string(), "client-2".to_string(), false, true),
        ]
    );
}

#[test]
fn report_on_another_request_changes_nothing() {
    let mut state = LockState::new("L".to_string());
    assert_eq!(state.lock(request(1, false)), vec![notice(1, Notification::Locked)]);
    assert_eq!(state.settle(2, true), vec![]);
    assert_eq!(state.settle(2, false), vec![]);
    assert_eq!(state.awaiting(), Some(1));
    assert_eq!(state.settle(1, true), vec![]);
    assert_eq!(state.settle(1, false), vec![]);
    assert_eq!(records(&state), vec![("L".to_string(), "client-1".to_string(), true, true)]);
}

#[test]
fn shared_is_grantable_against_shared_only() {
    let mut state = LockState::new("L".to_string());
    lock(&mut state, request(1, true));
    assert!(state.is_grantable(true));
    assert!(!state.is_grantable(false));
}

#[test]
fn undelivered_grant_is_abandoned() {
    let mut state = LockState::new("L".to_string());
    let first = state.lock(request(1, false));
    assert_eq!(post(&mut state, first, &[1]), vec![notice(1, Notification::Locked)]);
    assert!(state.is_idle());
    assert!(!state.contains(1));
    assert!(state.is_grantable(false));
}

#[test]
fn undelivered_grant_passes_to_the_next_in_line() {
    let mut state = LockState::new("L".to_string());
    lock(&mut state, request(1, false));
    lock(&mut state, request(2, false));
    lock(&mut state, request(3, true));
    let first = state.close_request(1);
    assert_eq!(
        post(&mut state, first, &[2]),
        vec![notice(2, Notification::Locked), notice(3, Notification::Locked)]
    );
    assert_eq!(records(&state), vec![("L".to_string(), "client-3".to_string(), false, true)]);
}

#[test]
fn cancelled_request_is_dropped_without_a_word() {
    let mut state = LockState::new("L".to_string());
    lock(&mut state, request(1, false));
    let mut gone = request(2, false);
    assert!(gone.holds_lock.mark_cancelled());
    assert_eq!(lock(&mut state, gone), vec![]);
    lock(&mut state, request(3, false));
    assert_eq!(records(&state).len(), 3);
    // releasing the cancelled request is not its first cancellation: it stays in line
    assert_eq!(release(&mut state, 2), vec![]);
    assert_eq!(records(&state).len(), 3);
    assert_eq!(release(&mut state, 1), vec![notice(3, Notification::Locked)]);
    assert_eq!(records(&state), vec![("L".to_string(), "client-3".to_string(), true, true)]);
    assert!(!state.contains(2));
}

#[test]
fn exclusive_head_blocks_shared_behind_it() {
    let mut state = LockState::new("L".to_string());
    assert_eq!(lock(&mut state, request(1, true)), vec![notice(1, Notification::Locked)]);
    assert_eq!(lock(&mut state, request(2, false)), vec![]);
    // shared would be compatible with the holder, but the exclusive head blocks it
    assert_eq!(lock(&mut state, request(3, true)), vec![]);
    assert_eq!(
        records(&state),
        vec![
            ("L".to_string(), "client-2".to_string(), true, false),
            ("L".to_string(), "client-3".to_string(), false, false),
            ("L".to_string(), "client-1".to_string(), false, true),
        ]
    );
    assert_eq!(release(&mut state, 1), vec![notice(2, Notification::Locked)]);
    assert_eq!(release(&mut state, 2), vec![notice(3, Notification::Locked)]);
}

#[test]
fn waiting_requests_are_granted_in_arrival_order() {
    let mut state = LockState::new("L".to_string());
    lock(&mut state, request(1, false));
    for id in 2..=5 {
        assert_eq!(lock(&mut state, request(id, false)), vec![]);
    }
    for id in 1..=4 {
        assert_eq!(release(&mut state, id), vec![notice(id + 1, Notification::Locked)]);
    }
    assert_eq!(release(&mut state, 5), vec![]);
    assert!(state.is_idle());
}

#[test]
fn shared_requests_at_the_head_are_granted_together() {
    let mut state = LockState::new("L".to_string());
    lock(&mut state, request(1, false));
    lock(&mut state, request(2, true));
    lock(&mut state, request(3, true));
    lock(&mut state, request(4, false));
    lock(&mut state, request(5, true));
    assert_eq!(
        release(&mut state, 1),
        vec![notice(2, Notification::Locked), notice(3, Notification::Locked)]
    );
    assert_eq!(release(&mut state, 2), vec![]);
    assert_eq!(release(&mut state, 3), vec![notice(4, Notification::Locked)]);
    assert_eq!(release(&mut state, 4), vec![notice(5, Notification::Locked)]);
}

#[test]
fn releasing_a_waiting_request_takes_it_out_of_line() {
    let mut state = LockState::new("L".to_string());
    lock(&mut state, request(1, false));
    lock(&mut state, request(2, false));
    lock(&mut state, request(3, false));
    assert_eq!(release(&mut state, 2), vec![]);
    assert!(!state.contains(2));
    assert_eq!(release(&mut state, 1), vec![notice(3, Notification::Locked)]);
}

#[test]
fn releasing_a_blocking_head_lets_the_queue_move() {
    let mut state = LockState::new("L".to_string());
    lock(&mut state, request(1, true));
    lock(&mut state, request(2, false));
    lock(&mut state, request(3, true));
    assert_eq!(release(&mut state, 2), vec![notice(3, Notification::Locked)]);
    assert_eq!(
        records(&state),
        vec![
            ("L".to_string(), "client-1".to_string(), false, true),
            ("L".to_string(), "client-3".to_string(), false, true),
        ]
    );
}

#[test]
fn release_during_a_grant_voids_the_grant() {
    let mut state = LockState::new("L".to_string());
    assert_eq!(state.lock(request(1, false)), vec![notice(1, Notification::Locked)]);
    assert_eq!(state.lock(request(2, false)), vec![]);
    assert_eq!(state.close_request(1), vec![notice(2, Notification::Locked)]);
    assert_eq!(state.awaiting(), Some(2));
    assert_eq!(state.settle(1, true), vec![]);
    assert_eq!(state.settle(2, true), vec![]);
    assert_eq!(records(&state), vec![("L".to_string(), "client-2".to_string(), true, true)]);
}

#[test]
fn clear_request_ignores_the_cancellation_flag() {
    let mut state = LockState::new("L".to_string());
    lock(&mut state, request(1, false));
    let mut gone = request(2, false);
    assert!(gone.holds_lock.mark_cancelled());
    lock(&mut state, gone);
    assert!(state.contains(2));
    assert_eq!(state.clear_request(2), vec![]);
    assert!(!state.contains(2));
    assert_eq!(state.clear_request(1), vec![]);
    assert!(state.is_idle());
}

#[test]
fn clearing_an_unknown_request_changes_nothing() {
    let mut state = LockState::new("L".to_string());
    lock(&mut state, request(1, true));
    lock(&mut state, request(2, false));
    let before = records(&state);
    assert_eq!(state.clear_request(9), vec![]);
    assert_eq!(state.close_request(9), vec![]);
    assert_eq!(records(&state), before);
}

#[test]
fn steal_evicts_every_shared_holder() {
    let mut state = LockState::new("L".to_string());
    lock(&mut state, request(1, true));
    lock(&mut state, request(2, true));
    lock(&mut state, request(3, true));
    lock(&mut state, request(4, false));
    assert_eq!(
        lock(&mut state, stealing(5, false)),
        vec![
            notice(1, Notification::Stolen),
            notice(2, Notification::Stolen),
            notice(3, Notification::Stolen),
            notice(5, Notification::Locked),
        ]
    );
    for id in 1..=3 {
        assert!(!state.contains(id));
    }
    assert_eq!(
        records(&state),
        vec![
            ("L".to_string(), "client-4".to_string(), true, false),
            ("L".to_string(), "client-5".to_string(), true, true),
        ]
    );
    // a stolen lock is released to no effect
    assert_eq!(release(&mut state, 1), vec![]);
    assert_eq!(release(&mut state, 5), vec![notice(4, Notification::Locked)]);
}

#[test]
fn steal_jumps_the_queue() {
    let mut state = LockState::new("L".to_string());
    lock(&mut state, request(1, false));
    lock(&mut state, request(2, false));
    lock(&mut state, request(3, false));
    assert_eq!(
        lock(&mut state, stealing(4, false)),
        vec![notice(1, Notification::Stolen), notice(4, Notification::Locked)]
    );
    assert_eq!(release(&mut state, 4), vec![notice(2, Notification::Locked)]);
    assert_eq!(release(&mut state, 2), vec![notice(3, Notification::Locked)]);
}

#[test]
fn shared_steal_lets_shared_followers_in() {
    let mut state = LockState::new("L".to_string());
    lock(&mut state, request(1, false));
    lock(&mut state, request(2, true));
    lock(&mut state, request(3, false));
    assert_eq!(
        lock(&mut state, stealing(4, true)),
        vec![
            notice(1, Notification::Stolen),
            notice(4, Notification::Locked),
            notice(2, Notification::Locked),
        ]
    );
    assert_eq!(
        records(&state),
        vec![
            ("L".to_string(), "client-3".to_string(), true, false),
            ("L".to_string(), "client-4".to_string(), false, true),
            ("L".to_string(), "client-2".to_string(), false, true),
        ]
    );
}

#[test]
fn steal_of_a_free_lock_is_a_plain_grant() {
    let mut state = LockState::new("L".to_string());
    assert_eq!(lock(&mut state, stealing(1, false)), vec![notice(1, Notification::Locked)]);
}

#[test]
fn steal_takes_precedence_over_if_available() {
    let mut state = LockState::new("L".to_string());
    lock(&mut state, request(1, false));
    let both = LockRequest::new(2, "L".to_string(), "client-2".to_string(), false, true, true, 102);
    assert_eq!(
        lock(&mut state, both),
        vec![notice(1, Notification::Stolen), notice(2, Notification::Locked)]
    );
}

#[test]
fn undelivered_steal_still_evicts() {
    let mut state = LockState::new("L".to_string());
    lock(&mut state, request(1, false));
    lock(&mut state, request(2, false));
    let first = state.lock(stealing(3, false));
    assert_eq!(
        post(&mut state, first, &[3]),
        vec![
            notice(1, Notification::Stolen),
            notice(3, Notification::Locked),
            notice(2, Notification::Locked),
        ]
    );
    assert_eq!(records(&state), vec![("L".to_string(), "client-2".to_string(), true, true)]);
}

#[test]
fn if_available_is_denied_when_held() {
    let mut state = LockState::new("L".to_string());
    lock(&mut state, request(1, true));
    assert_eq!(
        lock(&mut state, if_available(2, false)),
        vec![notice(2, Notification::Unavailable)]
    );
    assert!(!state.contains(2));
    assert_eq!(records(&state), vec![("L".to_string(), "client-1".to_string(), false, true)]);
}

#[test]
fn if_available_shared_joins_shared_holders() {
    let mut state = LockState::new("L".to_string());
    lock(&mut state, request(1, true));
    assert_eq!(lock(&mut state, if_available(2, true)), vec![notice(2, Notification::Locked)]);
}

#[test]
fn if_available_on_a_free_lock_is_granted() {
    let mut state = LockState::new("L".to_string());
    assert_eq!(lock(&mut state, if_available(1, false)), vec![notice(1, Notification::Locked)]);
}

#[test]
fn if_available_looks_at_the_holders_not_at_the_queue() {
    let mut state = LockState::new("L".to_string());
    lock(&mut state, request(1, true));
    lock(&mut state, request(2, false));
    // grantable against the shared holders, so it is queued behind the exclusive request
    assert_eq!(lock(&mut state, if_available(3, true)), vec![]);
    assert!(state.contains(3));
    assert_eq!(
        records(&state),
        vec![
            ("L".to_string(), "client-2".to_string(), true, false),
            ("L".to_string(), "client-3".to_string(), false, false),
            ("L".to_string(), "client-1".to_string(), false, true),
        ]
    );
}

#[test]
fn held_set_is_never_mixed() {
    let mut state = LockState::new("L".to_string());
    let mut next_id = 0u64;
    let mut live: Vec<u64> = Vec::new();
    // a fixed, varied run of arrivals and releases
    for step in 0u64..200 {
        let choice = (step * 7 + step / 3) % 5;
        if choice < 3 || live.is_empty() {
            next_id += 1;
            let shared = step % 2 == 0;
            let r = if step % 11 == 0 { stealing(next_id, shared) } else { request(next_id, shared) };
            let first = state.lock(r);
            let refused = if step % 13 == 0 { vec![next_id] } else { vec![] };
            post(&mut state, first, &refused);
            live.push(next_id);
        } else {
            let id = live.remove((step as usize * 5) % live.len());
            release(&mut state, id);
        }
        let held: Vec<_> = records(&state).into_iter().filter(|r| r.3).collect();
        let exclusive = held.iter().filter(|r| r.2).count();
        assert!(exclusive == 0 || held.len() == 1);
        assert_eq!(state.is_grantable(true), exclusive == 0);
        assert_eq!(state.is_grantable(false), held.is_empty());
    }
}

#[test]
fn snapshot_appends_to_what_is_there() {
    let mut state = LockState::new("L".to_string());
    lock(&mut state, request(1, false));
    lock(&mut state, request(2, true));
    let mut into = vec![RequestSnapshot {
        name: "other".to_string(),
        client_id: "x".to_string(),
        exclusive: false,
        held: false,
    }];
    state.snapshot_into(&mut into);
    assert_eq!(into.len(), 3);
    assert_eq!(into[0].name, "other");
    assert_eq!((into[1].client_id.as_str(), into[1].exclusive, into[1].held), ("client-2", false, false));
    assert_eq!((into[2].client_id.as_str(), into[2].exclusive, into[2].held), ("client-1", true, true));
}
