use distkit::commit_log::Log;
use distkit::shared_log::{committed_listing, first_attempt, next_attempt, poll_entries};

// The store's latest-offset cell: cas(expected, new, createIfMissing) as
// the linearizable store implements it.
fn cas(cell: &mut Option<u64>, expected: i128, new: u64) -> bool {
    match *cell {
        None => {
            *cell = Some(new);
            true
        }
        Some(v) => {
            if i128::from(v) == expected {
                *cell = Some(new);
                true
            } else {
                false
            }
        }
    }
}

// One sender's whole retry loop: read the cell, then advance the attempted
// offset past every conflict until the cas of (o - 1 -> o) wins.
fn allocate(cell: &mut Option<u64>) -> u64 {
    let mut o = first_attempt(*cell);
    while !cas(cell, i128::from(o) - 1, o) {
        o = next_attempt(o);
    }
    o
}

#[test]
fn concurrent_sends_get_distinct_contiguous_offsets() {
    let mut cell: Option<u64> = None;
    let mut assigned: Vec<u64> = Vec::new();
    // Three senders allocate, interleaved arbitrarily: each loop runs to
    // completion against the shared cell.
    for _ in 0..3 {
        assigned.push(allocate(&mut cell));
    }
    assert_eq!(assigned, vec![0, 1, 2]);
}

#[test]
fn stale_reader_still_gets_a_fresh_offset() {
    let mut cell: Option<u64> = None;
    assert_eq!(allocate(&mut cell), 0);
    assert_eq!(allocate(&mut cell), 1);
    // A sender that read 0 before the second allocation conflicts twice
    // and ends up with the next free offset.
    let mut o = first_attempt(Some(0));
    while !cas(&mut cell, i128::from(o) - 1, o) {
        o = next_attempt(o);
    }
    assert_eq!(o, 2);
}

#[test]
fn poll_entries_pairs_offsets_with_values() {
    let r = poll_entries(4, &vec![40, 41, 42]);
    assert_eq!(
        r,
        vec![
            Log { offset: 4, message: 40 },
            Log { offset: 5, message: 41 },
            Log { offset: 6, message: 42 },
        ]
    );
    assert!(poll_entries(0, &vec![]).is_empty());
}

#[test]
fn committed_listing_keeps_only_existing_entries() {
    let keys = vec![String::from("a"), String::from("b"), String::from("c")];
    let reads = vec![Some(3), None, Some(9)];
    let r = committed_listing(&keys, &reads);
    assert_eq!(r, vec![(String::from("a"), 3), (String::from("c"), 9)]);
}
