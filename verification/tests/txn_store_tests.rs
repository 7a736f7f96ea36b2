use distkit::txn_store::{TxnOp, TxnOpResult, TxnStore};

#[test]
fn writes_are_echoed_unchanged() {
    let mut s = TxnStore::new();
    let (results, changes) = s.apply_txn(&vec![TxnOp::Write { key: 1, value: 10 }]);
    assert_eq!(results, vec![TxnOpResult::Write { key: 1, value: 10 }]);
    assert_eq!(changes, vec![(1, 10)]);
}

#[test]
fn read_your_write_within_one_transaction() {
    let mut s = TxnStore::new();
    let (results, _) = s.apply_txn(&vec![
        TxnOp::Write { key: 1, value: 10 },
        TxnOp::Read { key: 1 },
    ]);
    assert_eq!(results[1], TxnOpResult::Read { key: 1, value: Some(10) });
}

#[test]
fn absent_key_reads_distinctly_from_zero() {
    let mut s = TxnStore::new();
    let (results, _) = s.apply_txn(&vec![
        TxnOp::Write { key: 1, value: 0 },
        TxnOp::Read { key: 1 },
        TxnOp::Read { key: 2 },
    ]);
    assert_eq!(results[1], TxnOpResult::Read { key: 1, value: Some(0) });
    assert_eq!(results[2], TxnOpResult::Read { key: 2, value: None });
    assert_ne!(results[1], results[2]);
}

#[test]
fn last_write_wins_within_one_transaction() {
    let mut s = TxnStore::new();
    let (results, changes) = s.apply_txn(&vec![
        TxnOp::Write { key: 1, value: 10 },
        TxnOp::Write { key: 1, value: 20 },
        TxnOp::Read { key: 1 },
    ]);
    assert_eq!(results[2], TxnOpResult::Read { key: 1, value: Some(20) });
    assert_eq!(changes, vec![(1, 20)]);
}

#[test]
fn replicated_write_is_readable_at_the_peer() {
    // A write-containing transaction at node A; its write set is shipped
    // and merged at node B; a later read at B sees A's value.
    let mut a = TxnStore::new();
    let mut b = TxnStore::new();
    let (_, changes) = a.apply_txn(&vec![
        TxnOp::Write { key: 5, value: 50 },
        TxnOp::Read { key: 5 },
    ]);
    b.apply_sync(&changes);
    assert_eq!(b.read(5), Some(50));
}

#[test]
fn sync_merges_as_last_write_wins() {
    let mut b = TxnStore::new();
    b.apply_txn(&vec![TxnOp::Write { key: 1, value: 1 }]);
    b.apply_sync(&vec![(1, 2), (3, 4)]);
    assert_eq!(b.read(1), Some(2));
    assert_eq!(b.read(3), Some(4));
    assert_eq!(b.read(2), None);
}
