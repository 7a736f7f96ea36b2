use distkit::counter::{bucket_after_add, total};

// One shared latest-value cell with compare-and-swap semantics, as the
// external store exposes it for a counter bucket.
fn cas(cell: &mut Option<u64>, expected: u64, new: u64) -> bool {
    match *cell {
        None => {
            *cell = Some(new);
            true
        }
        Some(v) => {
            if v == expected {
                *cell = Some(new);
                true
            } else {
                false
            }
        }
    }
}

#[test]
fn add_proposes_current_plus_delta() {
    assert_eq!(bucket_after_add(10, 5), 15);
    assert_eq!(bucket_after_add(0, 0), 0);
}

#[test]
fn no_delta_is_lost_under_cas_contention() {
    // Two interleaved Add(3) and Add(4) calls against one bucket: the
    // first CAS of the second caller conflicts, it re-reads and retries,
    // and the final value is the sum of both deltas.
    let mut cell: Option<u64> = Some(0);
    let observed_a = cell.unwrap_or(0);
    let observed_b = cell.unwrap_or(0);
    assert!(cas(&mut cell, observed_a, bucket_after_add(observed_a, 3)));
    assert!(!cas(&mut cell, observed_b, bucket_after_add(observed_b, 4)));
    let reread = cell.unwrap_or(0);
    assert!(cas(&mut cell, reread, bucket_after_add(reread, 4)));
    assert_eq!(cell, Some(7));
}

#[test]
fn read_sums_all_buckets() {
    assert_eq!(total(&vec![1, 2, 3]), Some(6));
    assert_eq!(total(&vec![]), Some(0));
}

#[test]
fn read_after_acknowledged_adds_is_at_least_their_sum() {
    // Buckets only grow, so a read gathered after acknowledgments sees at
    // least each acknowledged contribution.
    let acked = vec![5u64, 0, 2];
    let gathered = vec![6u64, 1, 2];
    let implied = total(&acked).unwrap();
    let read = total(&gathered).unwrap();
    assert!(read >= implied);
}

#[test]
fn overflowing_sum_is_refused() {
    assert_eq!(total(&vec![u64::MAX, 1]), None);
    assert_eq!(total(&vec![u64::MAX, 0]), Some(u64::MAX));
}
