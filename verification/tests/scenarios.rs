use weblocks::manager::LockManager;
use weblocks::request::{LockRequest, Notice, Notification};

/// A host that puts every `Locked` notice through, but those for the requests
/// in `refused`, and keeps a record of all that it posted.
struct Host {
    manager: LockManager,
    next_id: u64,
    posted: Vec<Notice>,
    refused: Vec<u64>,
}

fn host() -> Host {
    Host { manager: LockManager::new(), next_id: 0, posted: Vec::new(), refused: Vec::new() }
}

fn post(host: &mut Host, name: &str, first: Vec<Notice>) {
    let name = name.to_string();
    let mut notices = first;
    loop {
        let mut report = None;
        for n in notices {
            host.posted.push(n);
            if n.event == Notification::Locked {
                report = Some((n.request, !host.refused.contains(&n.request)));
            }
        }
        match report {
            Some((id, delivered)) => notices = host.manager.settle(&name, id, delivered),
            None => return,
        }
    }
}

fn acquire(host: &mut Host, name: &str, shared: bool, steal: bool, if_available: bool) -> u64 {
    host.next_id += 1;
    let id = host.next_id;
    let request = LockRequest::new(
        id,
        name.to_string(),
        format!("client-{id}"),
        shared,
        steal,
        if_available,
        1000 + id as i64,
    );
    assert!(!host.manager.contains(&name.to_string(), id));
    let first = host.manager.lock(request);
    post(host, name, first);
    id
}

fn release(host: &mut Host, name: &str, id: u64) {
    let first = host.manager.close_request(&name.to_string(), id);
    post(host, name, first);
}

fn heard(host: &Host, id: u64) -> Vec<Notification> {
    host.posted.iter().filter(|n| n.request == id).map(|n| n.event).collect()
}

fn snapshot(host: &Host) -> Vec<(String, String, bool, bool)> {
    host.manager
        .snapshot()
        .into_iter()
        .map(|r| (r.name, r.client_id, r.exclusive, r.held))
        .collect()
}

#[test]
fn exclusive_waits_for_exclusive() {
    let mut h = host();
    let first = acquire(&mut h, "L", false, false, false);
    assert_eq!(heard(&h, first), vec![Notification::Locked]);
    let second = acquire(&mut h, "L", false, false, false);
    assert_eq!(heard(&h, second), vec![]);
    release(&mut h, "L", first);
    assert_eq!(heard(&h, second), vec![Notification::Locked]);
    assert_eq!(heard(&h, first), vec![Notification::Locked]);
}

#[test]
fn exclusive_waits_for_all_shared() {
    let mut h = host();
    let a = acquire(&mut h, "L", true, false, false);
    let b = acquire(&mut h, "L", true, false, false);
    let c = acquire(&mut h, "L", true, false, false);
    for id in [a, b, c] {
        assert_eq!(heard(&h, id), vec![Notification::Locked]);
    }
    let x = acquire(&mut h, "L", false, false, false);
    assert_eq!(heard(&h, x), vec![]);
    release(&mut h, "L", a);
    assert_eq!(heard(&h, x), vec![]);
    release(&mut h, "L", c);
    assert_eq!(heard(&h, x), vec![]);
    release(&mut h, "L", b);
    assert_eq!(heard(&h, x), vec![Notification::Locked]);
}

#[test]
fn steal_preempts_the_holder() {
    let mut h = host();
    let first = acquire(&mut h, "L", false, false, false);
    let second = acquire(&mut h, "L", false, true, false);
    assert_eq!(heard(&h, first), vec![Notification::Locked, Notification::Stolen]);
    assert_eq!(heard(&h, second), vec![Notification::Locked]);
    assert_eq!(
        h.posted,
        vec![
            Notice { request: first, port: 1001, event: Notification::Locked },
            Notice { request: first, port: 1001, event: Notification::Stolen },
            Notice { request: second, port: 1002, event: Notification::Locked },
        ]
    );
    assert_eq!(snapshot(&h), vec![("L".to_string(), "client-2".to_string(), true, true)]);
}

#[test]
fn if_available_is_denied_at_once() {
    let mut h = host();
    let first = acquire(&mut h, "L", false, false, false);
    let before = snapshot(&h);
    let second = acquire(&mut h, "L", true, false, true);
    assert_eq!(heard(&h, second), vec![Notification::Unavailable]);
    assert_eq!(heard(&h, first), vec![Notification::Locked]);
    assert!(!h.manager.contains(&"L".to_string(), second));
    assert_eq!(snapshot(&h), before);
    // the denied request never hears of the lock again
    release(&mut h, "L", first);
    assert_eq!(heard(&h, second), vec![Notification::Unavailable]);
}

#[test]
fn snapshot_of_three_holders_and_one_waiting() {
    let mut h = host();
    acquire(&mut h, "L", true, false, false);
    acquire(&mut h, "L", true, false, false);
    acquire(&mut h, "L", true, false, false);
    acquire(&mut h, "L", false, false, false);
    let records = snapshot(&h);
    assert_eq!(records.len(), 4);
    assert_eq!(records.iter().filter(|r| r.3 && !r.2).count(), 3);
    assert_eq!(records.iter().filter(|r| !r.3 && r.2).count(), 1);
    assert_eq!(
        records,
        vec![
            ("L".to_string(), "client-4".to_string(), true, false),
            ("L".to_string(), "client-1".to_string(), false, true),
            ("L".to_string(), "client-2".to_string(), false, true),
            ("L".to_string(), "client-3".to_string(), false, true),
        ]
    );
}

#[test]
fn release_twice_is_release_once() {
    let mut h = host();
    let a = acquire(&mut h, "L", false, false, false);
    let b = acquire(&mut h, "L", false, false, false);
    let c = acquire(&mut h, "L", false, false, false);
    release(&mut h, "L", a);
    let after_one = (snapshot(&h), h.posted.clone());
    release(&mut h, "L", a);
    assert_eq!((snapshot(&h), h.posted.clone()), after_one);
    assert_eq!(heard(&h, b), vec![Notification::Locked]);
    assert_eq!(heard(&h, c), vec![]);
}

#[test]
fn release_after_steal_changes_nothing() {
    let mut h = host();
    let a = acquire(&mut h, "L", false, false, false);
    let b = acquire(&mut h, "L", false, true, false);
    let before = (snapshot(&h), h.posted.clone());
    release(&mut h, "L", a);
    assert_eq!((snapshot(&h), h.posted.clone()), before);
    assert_eq!(heard(&h, b), vec![Notification::Locked]);
}

#[test]
fn idle_lock_leaves_the_registry() {
    let mut h = host();
    let a = acquire(&mut h, "L", true, false, false);
    let b = acquire(&mut h, "L", true, false, false);
    let other = acquire(&mut h, "M", false, false, false);
    assert_eq!(h.manager.inspect().len(), 2);
    release(&mut h, "L", a);
    assert_eq!(h.manager.inspect().len(), 2);
    release(&mut h, "L", b);
    assert_eq!(h.manager.inspect().len(), 1);
    assert_eq!(h.manager.inspect()[0].name(), "M");
    assert_eq!(snapshot(&h), vec![("M".to_string(), format!("client-{other}"), true, true)]);
    assert!(snapshot(&h).iter().all(|r| r.0 != "L"));
    release(&mut h, "M", other);
    assert!(h.manager.inspect().is_empty());
    assert!(snapshot(&h).is_empty());
}

#[test]
fn undelivered_first_grant_leaves_no_lock_behind() {
    let mut h = host();
    h.refused.push(1);
    let a = acquire(&mut h, "L", false, false, false);
    assert_eq!(heard(&h, a), vec![Notification::Locked]);
    assert!(h.manager.inspect().is_empty());
    let b = acquire(&mut h, "L", false, false, false);
    assert_eq!(heard(&h, b), vec![Notification::Locked]);
    assert_eq!(snapshot(&h), vec![("L".to_string(), "client-2".to_string(), true, true)]);
}

#[test]
fn locks_of_different_names_do_not_meet() {
    let mut h = host();
    let a = acquire(&mut h, "L", false, false, false);
    let b = acquire(&mut h, "M", false, false, false);
    let c = acquire(&mut h, "", false, false, false);
    for id in [a, b, c] {
        assert_eq!(heard(&h, id), vec![Notification::Locked]);
    }
    let d = acquire(&mut h, "M", false, true, false);
    assert_eq!(heard(&h, a), vec![Notification::Locked]);
    assert_eq!(heard(&h, b), vec![Notification::Locked, Notification::Stolen]);
    assert_eq!(heard(&h, d), vec![Notification::Locked]);
    assert_eq!(
        snapshot(&h),
        vec![
            ("L".to_string(), "client-1".to_string(), true, true),
            ("M".to_string(), "client-4".to_string(), true, true),
            ("".to_string(), "client-3".to_string(), true, true),
        ]
    );
}

#[test]
fn release_under_a_wrong_name_changes_nothing() {
    let mut h = host();
    let a = acquire(&mut h, "L", false, false, false);
    let before = snapshot(&h);
    release(&mut h, "M", a);
    release(&mut h, "L", a + 1);
    assert_eq!(snapshot(&h), before);
    assert!(h.manager.contains(&"L".to_string(), a));
    assert!(!h.manager.contains(&"M".to_string(), a));
}

#[test]
fn report_for_an_unknown_lock_changes_nothing() {
    let mut h = host();
    assert_eq!(h.manager.settle(&"L".to_string(), 1, true), vec![]);
    let a = acquire(&mut h, "L", false, false, false);
    assert_eq!(h.manager.settle(&"M".to_string(), a, false), vec![]);
    assert_eq!(h.manager.settle(&"L".to_string(), a, false), vec![]);
    assert_eq!(snapshot(&h), vec![("L".to_string(), "client-1".to_string(), true, true)]);
}

#[test]
fn every_request_hears_at_most_one_outcome_and_one_steal() {
    let mut h = host();
    let mut live: Vec<(String, u64)> = Vec::new();
    for step in 0u64..300 {
        let name = if step % 3 == 0 { "L" } else { "M" };
        if (step * 5 + step / 7) % 4 < 3 || live.is_empty() {
            if step % 17 == 0 {
                h.refused.push(h.next_id + 1);
            }
            let id = acquire(&mut h, name, step % 2 == 0, step % 9 == 0, step % 5 == 0);
            live.push((name.to_string(), id));
        } else {
            let (name, id) = live.remove((step as usize * 3) % live.len());
            release(&mut h, &name, id);
        }
    }
    for id in 1..=h.next_id {
        let events = heard(&h, id);
        let allowed: [&[Notification]; 4] = [
            &[],
            &[Notification::Locked],
            &[Notification::Unavailable],
            &[Notification::Locked, Notification::Stolen],
        ];
        assert!(allowed.contains(&events.as_slice()), "request {id} heard {events:?}");
    }
}

#[test]
fn default_manager_is_empty() {
    let manager = LockManager::default();
    assert!(manager.inspect().is_empty());
    assert!(manager.snapshot().is_empty());
    assert!(!manager.contains(&"L".to_string(), 0));
}
