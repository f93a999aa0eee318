use bully::beatcount::BeatCount;
use bully::gossip::Gossip;
use bully::process_message;
use bully::Entry;
use bully::MembershipList;
use bully::Message;
use bully::Port;

fn entry(port: Port, count: u64, ts: i64) -> Entry {
    Entry { port, record: BeatCount::from_parts(count, ts) }
}

#[test]
fn sampling_excludes_self_and_duplicates() {
    let now = 500;
    let v = MembershipList::new(
        vec![entry(9001, 0, now), entry(9002, 0, now), entry(9003, 0, now), entry(9004, 0, now)],
        Some(9001),
    );
    for _ in 0..50 {
        let picks = v.get_random();
        assert_eq!(picks.len(), 2);
        assert_ne!(picks[0], picks[1]);
        for p in &picks {
            assert_ne!(*p, 9001);
            assert!(v.lookup(*p).is_some());
        }
    }
}

#[test]
fn sampling_with_few_peers() {
    let now = 500;
    let alone = MembershipList::new(vec![entry(9001, 0, now)], Some(9001));
    assert!(alone.get_random().is_empty());
    let pair = MembershipList::new(vec![entry(9001, 0, now), entry(9002, 0, now)], Some(9001));
    let picks = pair.get_random();
    assert_eq!(picks, vec![9002]);
}

#[test]
fn process_message_merges_snapshot() {
    let now = 300;
    let mut v = MembershipList::new(vec![entry(9001, 0, now), entry(9002, 0, now)], Some(9001));
    let remote = MembershipList::new(vec![entry(9002, 5, now)], Some(9002));
    process_message(&Message::MemList(remote), &mut v, Some(9002));
    assert_eq!(v.lookup(9002).unwrap().get_count(), 6);
}

#[test]
fn process_message_ignores_diagnostics() {
    let now = 300;
    let mut v = MembershipList::new(vec![entry(9001, 2, now)], Some(9001));
    let before = v.snapshot();
    process_message(&Message::Data(String::from("hello")), &mut v, None);
    assert_eq!(v, before);
    process_message(&Message::Error(String::from("timed out")), &mut v, None);
    assert_eq!(v, before);
}

#[test]
fn gossip_engine_roundtrip() {
    let seed = vec![9001, 9002, 9003];
    let engine = Gossip::new(String::from("localhost"), 9001, &seed);
    let targets = engine.get_random();
    assert_eq!(targets.len(), 2);
    for t in &targets {
        assert_ne!(*t, 9001);
    }

    let snap = engine.snapshot();
    assert_eq!(snap.len(), 3);
    assert_eq!(snap.self_port, Some(9001));

    // A peer reports a higher counter for 9002; the shared view adopts it
    // and adds the sender's self-heartbeat step.
    let now = snap.lookup(9002).unwrap().get_timestamp();
    let remote = MembershipList::new(vec![entry(9002, 10, now)], Some(9002));
    engine.merge_incoming(&remote, 9002);
    let after = engine.snapshot();
    assert_eq!(after.lookup(9002).unwrap().get_count(), 11);

    engine.sweep_now();
    assert!(engine.snapshot().lookup(9001).is_some());
}

#[test]
fn gossip_process_entry_point() {
    let seed = vec![9001, 9002];
    let engine = Gossip::new(String::from("localhost"), 9001, &seed);
    let now = engine.snapshot().lookup(9002).unwrap().get_timestamp();
    let remote = MembershipList::new(vec![entry(9002, 3, now)], Some(9002));
    if remote.check_wf() {
        engine.process(&Message::MemList(remote), Some(9002));
    }
    assert_eq!(engine.snapshot().lookup(9002).unwrap().get_count(), 4);
}
