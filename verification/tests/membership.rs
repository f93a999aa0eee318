use bully::beatcount::BeatCount;
use bully::Entry;
use bully::MembershipList;
use bully::Port;

fn entry(port: Port, count: u64, ts: i64) -> Entry {
    Entry { port, record: BeatCount::from_parts(count, ts) }
}

fn view(entries: Vec<Entry>, self_port: Option<Port>) -> MembershipList {
    MembershipList::new(entries, self_port)
}

#[test]
fn merge_updates_sender_entry() {
    // Node A (9001, seeded with 9001 and 9002) receives a view from 9002
    // where 9002's counter is 5 and its timestamp is "now": A adopts the
    // higher counter with a fresh timestamp, and the sender's entry takes
    // one extra self-heartbeat step on receipt.
    let now = 100;
    let mut a = view(vec![entry(9001, 0, now), entry(9002, 0, now)], Some(9001));
    let remote = view(vec![entry(9002, 5, now)], Some(9002));
    a.merge_at(&remote, 9002, now);

    let r = a.lookup(9002).expect("9002 stays in the view");
    assert_eq!(r.get_count(), 6); // 5 adopted, plus one self-heartbeat step
    assert_eq!(r.get_timestamp(), now);
    let own = a.lookup(9001).expect("own entry stays");
    assert_eq!(own.get_count(), 0);
}

#[test]
fn sweep_evicts_stale_peer() {
    // Peer 9003 was last updated 10 seconds ago (window 5s): gone after sweep.
    let now = 1000;
    let mut a = view(vec![entry(9001, 3, now), entry(9003, 7, now - 10)], Some(9001));
    a.sweep_at(now);
    assert!(a.lookup(9003).is_none());
    assert!(a.lookup(9001).is_some());
}

#[test]
fn stale_join_not_admitted() {
    // An unknown peer announced with a timestamp 8 seconds old is dropped.
    let now = 1000;
    let mut a = view(vec![entry(9001, 0, now)], Some(9001));
    let remote = view(vec![entry(9004, 2, now - 8)], Some(9002));
    a.merge_at(&remote, 9002, now);
    assert!(a.lookup(9004).is_none());
}

#[test]
fn fresh_join_admitted() {
    // An unknown peer announced with a timestamp 1 second old is admitted
    // with the reported counter and timestamp.
    let now = 1000;
    let mut a = view(vec![entry(9001, 0, now)], Some(9001));
    let remote = view(vec![entry(9005, 7, now - 1)], Some(9002));
    a.merge_at(&remote, 9002, now);
    let r = a.lookup(9005).expect("9005 admitted");
    assert_eq!(r.get_count(), 7);
    assert_eq!(r.get_timestamp(), now - 1);
}

#[test]
fn liveness_window_boundary() {
    let now = 1000;
    // Exactly at the window a join is no longer fresh...
    let mut a = view(vec![entry(9001, 0, now)], Some(9001));
    let remote = view(vec![entry(9006, 1, now - 5)], Some(9002));
    a.merge_at(&remote, 9002, now);
    assert!(a.lookup(9006).is_none());
    // ...but an existing entry of exactly that age is not yet stale.
    let mut b = view(vec![entry(9001, 0, now), entry(9007, 1, now - 5)], Some(9001));
    b.sweep_at(now);
    assert!(b.lookup(9007).is_some());
}

#[test]
fn counters_never_decrease() {
    // A remote view with a lower counter never lowers the stored one.
    let now = 50;
    let mut a = view(vec![entry(9001, 0, now), entry(9002, 9, now)], Some(9001));
    let remote = view(vec![entry(9002, 4, now)], Some(9003));
    a.merge_at(&remote, 9003, now);
    assert_eq!(a.lookup(9002).unwrap().get_count(), 9);
}

#[test]
fn sweep_keeps_self() {
    // The local node's own entry survives sweep however stale it is.
    let now = 10_000;
    let mut a = view(vec![entry(9001, 2, 0)], Some(9001));
    a.sweep_at(now);
    let own = a.lookup(9001).expect("own entry kept");
    assert_eq!(own.get_count(), 2);
    assert_eq!(own.get_timestamp(), 0);
}

#[test]
fn merge_twice_same_view() {
    // Merging the same remote view twice with no time passing changes only
    // the sender's own entry, which takes one more self-heartbeat step.
    let now = 200;
    let mut a = view(
        vec![entry(9001, 0, now), entry(9002, 3, now), entry(9008, 1, now)],
        Some(9001),
    );
    let remote = view(vec![entry(9002, 5, now - 1), entry(9008, 1, now - 1)], Some(9002));
    a.merge_at(&remote, 9002, now);
    let first_9002 = a.lookup(9002).unwrap();
    let first_9008 = a.lookup(9008).unwrap();
    let first_9001 = a.lookup(9001).unwrap();
    assert_eq!(first_9002.get_count(), 6);

    a.merge_at(&remote, 9002, now);
    assert_eq!(a.len(), 3);
    let second_9002 = a.lookup(9002).unwrap();
    assert_eq!(second_9002.get_count(), first_9002.get_count() + 1);
    assert_eq!(second_9002.get_timestamp(), now);
    assert_eq!(a.lookup(9008).unwrap(), first_9008);
    assert_eq!(a.lookup(9001).unwrap(), first_9001);
}

#[test]
fn fresh_reannouncement_readmits_after_eviction() {
    // A stale local entry shadowed by a fresh-but-not-newer remote record:
    // the first merge adopts nothing for it and the sweep evicts it, while
    // a second merge of the same view re-admits it from the remote record.
    // This is the one exception to merge being idempotent (besides the
    // sender's own self-heartbeat).
    let now = 1000;
    let mut a = view(vec![entry(9001, 0, now), entry(9009, 5, now - 10)], Some(9001));
    let remote = view(vec![entry(9009, 3, now - 1)], Some(9002));
    a.merge_at(&remote, 9002, now);
    assert!(a.lookup(9009).is_none());
    a.merge_at(&remote, 9002, now);
    let r = a.lookup(9009).expect("re-admitted from the fresh announcement");
    assert_eq!(r.get_count(), 3);
    assert_eq!(r.get_timestamp(), now - 1);
}

#[test]
fn seed_view_contents() {
    // Seeding collapses duplicates, zeroes every counter, and marks self.
    let seed = vec![9001, 9002, 9002, 9003];
    let v = MembershipList::from_seed(&seed, Some(9001));
    assert_eq!(v.len(), 3);
    // Every record is the same fresh seed: counter zero, one shared clock
    // reading as its timestamp.
    let first_ts = v.lookup(9001).unwrap().get_timestamp();
    for p in [9001, 9002, 9003] {
        let r = v.lookup(p).unwrap();
        assert_eq!(r.get_count(), 0);
        assert_eq!(r.get_timestamp(), first_ts);
    }
    assert!(v.lookup(9004).is_none());
}

#[test]
fn fresh_seed_survives_sweep() {
    // Entries created from the wall clock are fresh, so an immediate sweep
    // keeps them all.
    let seed = vec![9001, 9002, 9003];
    let mut v = MembershipList::from_seed(&seed, Some(9001));
    v.sweep();
    assert_eq!(v.len(), 3);
}

#[test]
fn check_wf_spots_duplicates() {
    let good = view(vec![entry(9001, 0, 0), entry(9002, 0, 0)], None);
    assert!(good.check_wf());
    let bad = MembershipList {
        members: vec![entry(9001, 0, 0), entry(9001, 1, 0)],
        self_port: None,
    };
    assert!(!bad.check_wf());
}

#[test]
fn snapshot_copies_view() {
    let a = view(vec![entry(9001, 4, 7), entry(9002, 1, 9)], Some(9001));
    let b = a.snapshot();
    assert_eq!(a, b);
}

#[test]
fn beatcount_operations() {
    let mut r = BeatCount::from_parts(3, 40);
    r.increment_and_touch_at(50);
    assert_eq!(r.get_count(), 4);
    assert_eq!(r.get_timestamp(), 50);
    r.increment();
    assert_eq!(r.get_count(), 5);
    assert_eq!(r.get_timestamp(), 50);
    r.touch_at(60);
    assert_eq!(r.get_count(), 5);
    assert_eq!(r.get_timestamp(), 60);
    let saturated_before = u64::MAX;
    let mut s = BeatCount::from_parts(saturated_before, 0);
    s.increment();
    assert_eq!(s.get_count(), saturated_before);
}
