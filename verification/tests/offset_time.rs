use tickstore::offset_time::OffsetTimeList;

#[test]
fn test_add() {
    let mut times = OffsetTimeList::default();

    let now: u64 = 0;
    times.add(now);

    assert_eq!(times.current_time(), Some(now));

    let next = now + 1;
    times.add(next);

    assert_eq!(times.current_time(), Some(next));
    assert_eq!(times.time_offsets(), vec![1]);
}

#[test]
fn test_prune() {
    let mut times = OffsetTimeList::default();

    // Test fully empty.
    assert_eq!(times.prune(0), None);

    let now: u64 = 0;
    times.add(now);

    // Test no checkpoint.
    assert_eq!(times.prune(0), None);

    // Add a checkpoint; with a max age exceeding the elapsed time no
    // checkpoint is old enough, so nothing is pruned.
    times.add(now);
    times.checkpoint();

    assert_eq!(times.prune(1_000_000), None);
    assert_eq!(times.prune(0), None);
}

/// The first add returns index 1 and stores nothing; the next add, one
/// millisecond later, stores delta 1 and returns index 2.
#[test]
fn add_returns_one_based_indices() {
    let mut times = OffsetTimeList::default();
    assert_eq!(times.add(500), 1);
    assert_eq!(times.time_offsets(), vec![]);
    assert_eq!(times.add(501), 2);
    assert_eq!(times.time_offsets(), vec![1]);
    assert_eq!(times.add(501), 3);
    assert_eq!(times.time_offsets(), vec![1, 0]);
}

/// Deltas wider than 32 bits of milliseconds are truncated.
#[test]
fn add_truncates_wide_deltas() {
    let mut times = OffsetTimeList::default();
    times.add(0);
    times.add(4_294_967_297);
    assert_eq!(times.time_offsets(), vec![1]);
}

/// With several checkpoints, pruning drains the expired ones and truncates
/// the offsets at the last drained checkpoint's recorded length.
#[test]
fn prune_truncates_at_expired_checkpoint() {
    let mut times = OffsetTimeList::default();
    times.add(0);
    times.add(100);
    times.checkpoint(); // (100, 1)
    times.add(200);
    times.checkpoint(); // (200, 2)
    times.add(300);
    times.add(400);

    // Seen from 400, the checkpoints are 300 and 200 old. With a max age of
    // 250 only the first checkpoint is expired: offsets before its recorded
    // length 1 are dropped.
    assert_eq!(times.prune(250), Some(3));
    assert_eq!(times.time_offsets(), vec![100, 100, 100]);
    assert_eq!(times.current_time(), Some(400));
}

/// The newest checkpoint is always kept: even when every checkpoint has
/// expired, pruning truncates only up to the one before it.
#[test]
fn prune_keeps_newest_checkpoint() {
    let mut times = OffsetTimeList::default();
    times.add(0);
    times.add(10);
    times.checkpoint(); // (10, 1)
    times.add(20);
    times.checkpoint(); // (20, 2)
    times.add(1_000_000);

    // Both checkpoints are far older than the max age; the boundary clamps
    // to the newest one, and the offsets truncate at the older one's length.
    assert_eq!(times.prune(5), Some(2));
    assert_eq!(times.time_offsets(), vec![10, 999_980]);
    assert_eq!(times.current_time(), Some(1_000_000));
}

/// A single expired checkpoint is clamped to the boundary and nothing is
/// drained, so pruning reports nothing to do.
#[test]
fn prune_single_checkpoint_is_kept() {
    let mut times = OffsetTimeList::default();
    times.add(0);
    times.add(10);
    times.checkpoint();
    times.add(1_000_000);
    assert_eq!(times.prune(5), None);
    assert_eq!(times.time_offsets(), vec![10, 999_990]);
}

/// A stale checkpoint (its recorded length no longer inside the offsets)
/// clears the axis entirely, after which it can be refilled.
#[test]
fn prune_stale_checkpoint_clears_axis() {
    let mut times = OffsetTimeList::default();
    times.add(0);
    times.checkpoint(); // (0, 0)
    times.add(10);
    times.checkpoint(); // (10, 1): stale once offsets hold just one delta
    times.add(20);
    times.checkpoint(); // (20, 2)

    // Seen from 20, ages are 20, 10 and 0; with max age 5 the first two
    // checkpoints are expired, and the last drained one records length 1,
    // which is inside the two stored offsets.
    assert_eq!(times.prune(5), Some(1));
    assert_eq!(times.time_offsets(), vec![10]);

    // Now the kept checkpoint's recorded length 2 lies past the single
    // stored offset: pruning against it resets the axis.
    let mut later = times;
    later.add(30);
    later.checkpoint(); // (30, 2)
    assert_eq!(later.prune(5), Some(0));
    assert_eq!(later.time_offsets(), vec![]);
    assert_eq!(later.current_time(), None);

    // The axis is usable again from scratch.
    assert_eq!(later.add(100), 1);
    assert_eq!(later.current_time(), Some(100));
}

/// Capacity pre-allocation changes nothing observable.
#[test]
fn with_capacity_starts_empty() {
    let times = OffsetTimeList::with_capacity(16);
    assert_eq!(times.current_time(), None);
    assert_eq!(times.time_offsets(), vec![]);
    let both = OffsetTimeList::with_both_capacity(16, 4);
    assert_eq!(both.current_time(), None);
    assert_eq!(both.time_offsets(), vec![]);
}
