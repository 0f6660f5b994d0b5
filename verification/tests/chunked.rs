use tickstore::chunked::{ChunkedData, ChunkedDataIter};

fn population() -> Vec<Option<u64>> {
    vec![
        Some(1),
        Some(2),
        Some(3),
        None,
        None,
        None,
        Some(7),
        Some(8),
        Some(9),
        Some(10),
    ]
}

fn test_populate(data: &mut ChunkedData<u64>) {
    for p in population() {
        data.try_push(p);
    }
}

fn collect(mut it: ChunkedDataIter<u64>) -> Vec<u64> {
    let mut got = Vec::new();
    while let Some(v) = it.next() {
        got.push(v);
    }
    got
}

fn collect_pairs(mut it: ChunkedDataIter<(usize, u64)>) -> Vec<(usize, u64)> {
    let mut got = Vec::new();
    while let Some(p) = it.next() {
        got.push(p);
    }
    got
}

#[test]
fn chunked_push() {
    let mut data = ChunkedData::default();
    assert!(data.no_elements());

    data.try_push(Some(1));

    assert!(data.num_chunks() != 0);
    assert!(data.is_active());
    assert_eq!(data.chunk_values(data.num_chunks() - 1), vec![1]);
    assert_eq!(data.length(), 1);

    data.try_push(Some(2));
    data.try_push(None);

    assert!(!data.is_active());
    assert_eq!(data.num_chunks(), 1);
    assert_eq!(data.chunk_values(0), vec![1, 2]);
    assert_eq!(data.length(), 3);

    data.try_push(None);
    assert!(!data.is_active());
    assert_eq!(data.length(), 4);

    data.try_push(Some(3));
    assert!(data.is_active());
    assert_eq!(data.chunk_values(data.num_chunks() - 1), vec![3]);
    assert_eq!(data.length(), 5);

    assert_eq!(data.length(), 5);
    assert_eq!(data.num_elements(), 3);
}

/// Ensure that if we push nothing at first, we don't incorrectly try and
/// seal nothing.
#[test]
fn chunked_empty_initial_push() {
    let mut data: ChunkedData<u64> = ChunkedData::default();

    data.try_push(None);
    assert!(!data.is_active());

    data.try_push(Some(1));
    assert!(data.is_active());
    assert_eq!(data.length(), 2);
}

/// Initialize data, prune, and check against the expected suffix.
fn test_pruning(to_prune_index: usize) {
    let mut data = ChunkedData::default();
    test_populate(&mut data);

    assert!(data.prune(to_prune_index).is_ok());

    let removed = to_prune_index + 1;
    let result = collect_pairs(data.iter_with_index());

    let expected = population()
        .into_iter()
        .skip(removed)
        .enumerate()
        .filter_map(|(a, b)| b.map(|b| (a, b)))
        .collect::<Vec<_>>();

    assert_eq!(result, expected);
    assert_eq!(data.length(), population().len() - (to_prune_index + 1));
}

#[test]
fn chunked_prune() {
    test_pruning(0);
    test_pruning(1);
    test_pruning(2);
    test_pruning(3);
    test_pruning(4);
    test_pruning(5);
    test_pruning(6);
    test_pruning(7);
    test_pruning(8);
    test_pruning(9);
}

/// Handle if we try and prune something empty.
#[test]
fn chunked_prune_empty() {
    let mut data: ChunkedData<u64> = ChunkedData::default();
    assert!(data.prune(0).is_err());
}

/// Handle if we try to clear an index past the index stored.
#[test]
fn chunked_prune_past_index() {
    let mut data = ChunkedData::default();
    test_populate(&mut data);

    assert!(data.prune(10).is_err());
}

#[test]
fn chunked_prune_without_curr() {
    let mut data = ChunkedData::default();
    test_populate(&mut data);
    data.try_push(None);

    assert!(data.prune(10).is_ok());
}

#[test]
fn prune_zero_when_none() {
    let mut data = ChunkedData::default();
    data.try_push(None);
    data.try_push(None);
    data.try_push(None);
    test_populate(&mut data);

    assert!(data.prune(0).is_ok());
    assert_eq!(data.chunk_start(0), 2);
    assert_eq!(data.chunk_start(1), 8);
    assert_eq!(data.length(), population().len() + 3 - 1);

    assert!(data.prune(0).is_ok());
    assert_eq!(data.chunk_start(0), 1);
    assert_eq!(data.chunk_start(1), 7);
    assert_eq!(data.length(), population().len() + 3 - 2);

    assert!(data.prune(0).is_ok());
    assert_eq!(data.chunk_start(0), 0);
    assert_eq!(data.chunk_start(1), 6);
    assert_eq!(data.length(), population().len() + 3 - 3);

    assert!(data.prune(0).is_ok());
    assert_eq!(data.chunk_start(0), 0);
    assert_eq!(data.chunk_values(0), vec![2, 3]);
    assert_eq!(data.chunk_start(1), 5);
    assert_eq!(data.length(), population().len() + 3 - 4);
}

#[test]
fn first_last() {
    let mut data = ChunkedData::default();
    test_populate(&mut data);

    assert_eq!(data.first(), Some(&1));
    assert_eq!(data.last(), Some(&10));
}

#[test]
fn iter() {
    let mut data = ChunkedData::default();
    test_populate(&mut data);

    assert_eq!(
        collect(data.to_owned_iter()),
        population().iter().filter_map(|v| *v).collect::<Vec<_>>(),
    );
}

#[test]
fn reverse_iter() {
    let mut data = ChunkedData::default();
    test_populate(&mut data);

    let mut it = data.to_owned_iter();
    let mut got = Vec::new();
    while let Some(v) = it.next_back() {
        got.push(v);
    }

    assert_eq!(
        got,
        population()
            .iter()
            .filter_map(|v| *v)
            .rev()
            .collect::<Vec<_>>(),
    );
}

/// Length counts every push, present or absent; the element count only the
/// present ones.
#[test]
fn length_counts_all_pushes() {
    let mut data: ChunkedData<u64> = ChunkedData::default();
    let pushes = vec![Some(5), None, Some(6), None, None, Some(7), Some(8), None];
    for p in &pushes {
        data.try_push(*p);
    }
    assert_eq!(data.length(), pushes.len());
    assert_eq!(data.num_elements(), pushes.iter().filter(|p| p.is_some()).count());
    assert!(!data.no_elements());
}

/// Indexed iteration equals enumerating the push sequence and keeping the
/// present entries.
#[test]
fn iter_with_index_matches_enumeration() {
    let mut data = ChunkedData::default();
    test_populate(&mut data);
    let expected = population()
        .into_iter()
        .enumerate()
        .filter_map(|(i, v)| v.map(|v| (i, v)))
        .collect::<Vec<_>>();
    assert_eq!(collect_pairs(data.iter_with_index()), expected);
}

/// The concrete scenario: ten pushes with a three-tick gap, then a prune.
#[test]
fn scenario_population_prune() {
    let mut data = ChunkedData::default();
    test_populate(&mut data);
    assert_eq!(data.length(), 10);
    assert_eq!(data.num_elements(), 7);
    assert_eq!(data.first(), Some(&1));
    assert_eq!(data.last(), Some(&10));

    assert!(data.prune(2).is_ok());
    assert_eq!(data.length(), 7);
    assert_eq!(
        collect_pairs(data.iter_with_index()),
        vec![(3, 7), (4, 8), (5, 9), (6, 10)],
    );
}

/// A prune failure reports the current logical length and leaves the store
/// usable.
#[test]
fn prune_failure_reports_length() {
    let mut data: ChunkedData<u64> = ChunkedData::default();
    test_populate(&mut data);
    assert_eq!(data.prune(10), Err(10));
    assert_eq!(data.prune(usize::MAX), Err(10));
    // A store holding only gaps counts as empty of values.
    let mut gaps: ChunkedData<u64> = ChunkedData::default();
    gaps.try_push(None);
    gaps.try_push(None);
    assert_eq!(gaps.prune(0), Err(2));
    assert_eq!(gaps.prune(5), Err(2));
}

/// Pruning everything empties the store but appending still works.
#[test]
fn prune_everything_then_push() {
    let mut data = ChunkedData::default();
    test_populate(&mut data);
    assert!(data.prune(9).is_ok());
    assert_eq!(data.length(), 0);
    assert_eq!(data.num_elements(), 0);
    assert_eq!(data.first(), None);
    assert_eq!(data.last(), None);
    data.push(42);
    assert_eq!(data.length(), 1);
    assert_eq!(data.first(), Some(&42));
}

/// Pruning inside a chunk that does not start at the origin still re-bases
/// later chunks so that indexed iteration matches the suffix.
#[test]
fn prune_inside_offset_chunk() {
    let mut data: ChunkedData<u64> = ChunkedData::default();
    // Logical sequence: [N, N, 1, 2, 3, N, 7, 8]
    let pushes = vec![None, None, Some(1), Some(2), Some(3), None, Some(7), Some(8)];
    for p in pushes {
        data.try_push(p);
    }
    // Cut inside the first chunk, which starts at logical index 2.
    assert!(data.prune(3).is_ok());
    assert_eq!(data.length(), 4);
    // Remaining logical sequence: [3, N, 7, 8]
    assert_eq!(collect_pairs(data.iter_with_index()), vec![(0, 3), (2, 7), (3, 8)]);
}

/// `prune_and_shrink_to_fit` behaves as `prune` and keeps the contents.
#[test]
fn prune_and_shrink() {
    let mut data = ChunkedData::default();
    test_populate(&mut data);
    assert_eq!(data.prune_and_shrink_to_fit(20), Err(10));
    assert!(data.prune_and_shrink_to_fit(4).is_ok());
    assert_eq!(data.length(), 5);
    assert_eq!(collect(data.to_owned_iter()), vec![7, 8, 9, 10]);
}

/// `shrink_to_fit` alone changes nothing observable.
#[test]
fn shrink_keeps_contents() {
    let mut data = ChunkedData::default();
    test_populate(&mut data);
    data.shrink_to_fit();
    assert_eq!(data.length(), 10);
    assert_eq!(data.num_elements(), 7);
    assert_eq!(collect(data.to_owned_iter()), vec![1, 2, 3, 7, 8, 9, 10]);
}

/// `insert_break` seals without consuming index space; only absent pushes
/// advance the length.
#[test]
fn insert_break_consumes_no_index() {
    let mut data: ChunkedData<u64> = ChunkedData::default();
    data.push(1);
    data.insert_break();
    assert_eq!(data.length(), 1);
    data.push(2);
    assert_eq!(data.length(), 2);
    assert_eq!(data.num_chunks(), 2);
    assert_eq!(collect_pairs(data.iter_with_index()), vec![(0, 1), (1, 2)]);
}

/// Iteration from both ends of one iterator meets in the middle.
#[test]
fn double_ended_iteration() {
    let mut data: ChunkedData<u64> = ChunkedData::default();
    for p in [Some(1), None, Some(2), Some(3), None, Some(4)] {
        data.try_push(p);
    }
    let mut it = data.to_owned_iter();
    assert_eq!(it.len(), 4);
    assert_eq!(it.next(), Some(1));
    assert_eq!(it.next_back(), Some(4));
    assert_eq!(it.len(), 2);
    assert_eq!(it.next(), Some(2));
    assert_eq!(it.next_back(), Some(3));
    assert_eq!(it.next(), None);
    assert_eq!(it.next_back(), None);
    assert_eq!(it.len(), 0);
}

/// `iter_along_base` pairs values with the base entry at their logical
/// index, and refuses a base shorter than the logical length.
#[test]
fn iter_along_base_pairs_by_logical_index() {
    let mut data: ChunkedData<u64> = ChunkedData::default();
    for p in [Some(10), None, Some(30), Some(40)] {
        data.try_push(p);
    }
    let base: Vec<u64> = vec![100, 101, 102, 103];
    let mut it = data.iter_along_base(&base).unwrap();
    let mut got = Vec::new();
    while let Some(p) = it.next() {
        got.push(p);
    }
    assert_eq!(got, vec![(100, 10), (102, 30), (103, 40)]);

    let short: Vec<u64> = vec![100, 101, 102];
    assert!(data.iter_along_base(&short).is_none());
}
