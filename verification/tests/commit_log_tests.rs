use distkit::commit_log::{Log, NodeState};

#[test]
fn send_assigns_contiguous_offsets_from_zero() {
    let mut s = NodeState::new();
    let k = String::from("k1");
    assert_eq!(s.send(&k, 10), 0);
    assert_eq!(s.send(&k, 11), 1);
    assert_eq!(s.send(&k, 12), 2);
    let other = String::from("k2");
    assert_eq!(s.send(&other, 99), 0);
}

#[test]
fn poll_returns_three_records_from_offset_zero() {
    // Send(key, a), Send(key, b), Send(key, c) at offsets 0, 1, 2: a poll
    // from offset 0 returns exactly [[0,a],[1,b],[2,c]]; a fourth send is
    // excluded by the batch cap.
    let mut s = NodeState::new();
    let k = String::from("k1");
    s.send(&k, 10);
    s.send(&k, 11);
    s.send(&k, 12);
    s.send(&k, 13);
    let r = s.poll(&vec![(k.clone(), 0)]);
    assert_eq!(r.len(), 1);
    assert_eq!(r[0].0, k);
    assert_eq!(
        r[0].1,
        vec![
            Log { offset: 0, message: 10 },
            Log { offset: 1, message: 11 },
            Log { offset: 2, message: 12 },
        ]
    );
}

#[test]
fn poll_omits_keys_with_no_record_at_the_offset() {
    let mut s = NodeState::new();
    let k = String::from("k1");
    s.send(&k, 10);
    let r = s.poll(&vec![(k.clone(), 5), (String::from("missing"), 0)]);
    assert!(r.is_empty());
}

#[test]
fn poll_from_the_middle_returns_the_tail() {
    let mut s = NodeState::new();
    let k = String::from("k1");
    s.send(&k, 10);
    s.send(&k, 11);
    let r = s.poll(&vec![(k.clone(), 1)]);
    assert_eq!(r.len(), 1);
    assert_eq!(r[0].1, vec![Log { offset: 1, message: 11 }]);
}

#[test]
fn get_logs_from_offset_respects_the_batch_cap() {
    let mut s = NodeState::new();
    let k = String::from("k1");
    for m in 0..5 {
        s.send(&k, 100 + m);
    }
    let batch = s.get_logs_from_offset(&k, 1).unwrap();
    assert_eq!(batch.len(), 3);
    assert_eq!(batch[0], Log { offset: 1, message: 101 });
    assert_eq!(batch[2], Log { offset: 3, message: 103 });
    assert!(s.get_logs_from_offset(&k, 5).is_none());
    assert!(s.get_logs_from_offset(&String::from("nope"), 0).is_none());
}

#[test]
fn committed_offsets_round_trip() {
    // CommitOffsets({k: 5}) then ListCommittedOffsets([k]) returns {k: 5}.
    let mut s = NodeState::new();
    let k = String::from("k1");
    s.commit_offsets(&vec![(k.clone(), 5)]);
    let r = s.list_committed_offsets(&vec![k.clone()]);
    assert_eq!(r, vec![(k, 5)]);
}

#[test]
fn commit_overwrites_and_the_last_pair_of_a_batch_wins() {
    let mut s = NodeState::new();
    let k = String::from("k1");
    s.commit_offsets(&vec![(k.clone(), 1), (k.clone(), 2)]);
    assert_eq!(s.list_committed_offsets(&vec![k.clone()]), vec![(k.clone(), 2)]);
    s.commit_offsets(&vec![(k.clone(), 7)]);
    assert_eq!(s.list_committed_offsets(&vec![k.clone()]), vec![(k, 7)]);
}

#[test]
fn listing_is_restricted_to_the_requested_keys() {
    let mut s = NodeState::new();
    let k1 = String::from("k1");
    let k2 = String::from("k2");
    s.commit_offsets(&vec![(k1.clone(), 3), (k2.clone(), 4)]);
    let r = s.list_committed_offsets(&vec![k2.clone(), String::from("other")]);
    assert_eq!(r, vec![(k2, 4)]);
}
