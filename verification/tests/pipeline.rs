use rust_sorting::error::SortError;
use rust_sorting::manager::distributed_sort;
use rust_sorting::record::Entry;

fn record_bytes(key: [u8; 10], payload: u8) -> Vec<u8> {
    let mut out = key.to_vec();
    out.extend(std::iter::repeat(payload).take(90));
    out
}

fn key_of(file: &[u8], i: usize) -> &[u8] {
    &file[i * 100..i * 100 + 10]
}

fn assert_sorted(file: &[u8]) {
    let n = file.len() / 100;
    for i in 1..n {
        assert!(key_of(file, i - 1) <= key_of(file, i), "records {} and {} out of order", i - 1, i);
    }
}

fn sorted_records(file: &[u8]) -> Vec<Vec<u8>> {
    let mut records: Vec<Vec<u8>> = file.chunks(100).map(|c| c.to_vec()).collect();
    records.sort();
    records
}

#[test]
fn empty_input_gives_empty_output() {
    let input: Vec<u8> = Vec::new();
    let out = distributed_sort(&input, 2, 4).unwrap();
    assert_eq!(out.len(), 0);
}

#[test]
fn single_record_passes_through_identically() {
    let input = record_bytes([9, 8, 7, 6, 5, 4, 3, 2, 1, 0], 0x5A);
    let out = distributed_sort(&input, 2, 4).unwrap();
    assert_eq!(out, input);
}

#[test]
fn three_records_collect_in_key_order() {
    let mut input = Vec::new();
    input.extend(record_bytes([0x00; 10], 1));
    input.extend(record_bytes([0xFF; 10], 2));
    input.extend(record_bytes([0x80; 10], 3));
    let out = distributed_sort(&input, 2, 4).unwrap();
    assert_eq!(out.len(), 300);
    assert_eq!(out[0], 0x00);
    assert_eq!(out[10], 1);
    assert_eq!(out[100], 0x80);
    assert_eq!(out[110], 3);
    assert_eq!(out[200], 0xFF);
    assert_eq!(out[210], 2);
}

#[test]
fn equal_keys_share_one_bucket_and_nothing_is_lost() {
    let mut input = Vec::new();
    for p in 0..10u8 {
        input.extend(record_bytes([0x2A; 10], p));
    }
    let out = distributed_sort(&input, 3, 2).unwrap();
    assert_eq!(out.len(), input.len());
    // Order among equal keys is unconstrained; the multiset is preserved.
    assert_eq!(sorted_records(&out), sorted_records(&input));
    // And every record still carries the shared key.
    for i in 0..10 {
        assert_eq!(key_of(&out, i), [0x2A; 10]);
    }
}

#[test]
fn ten_thousand_random_records_sort_fully_with_tiny_blocks() {
    // A fixed linear congruential generator stands in for random keys.
    let mut state: u64 = 0x2545F4914F6CDD1D;
    let mut next = move || {
        state = state.wrapping_mul(6364136223846793005).wrapping_add(1442695040888963407);
        (state >> 33) as u32
    };
    let mut input = Vec::with_capacity(10_000 * 100);
    for _ in 0..10_000 {
        let mut key = [0u8; 10];
        for b in 0..10 {
            key[b] = (next() & 0xFF) as u8;
        }
        input.extend(record_bytes(key, (next() & 0xFF) as u8));
    }
    let out = distributed_sort(&input, 4, 1).unwrap();
    assert_eq!(out.len(), input.len());
    assert_sorted(&out);
    assert_eq!(sorted_records(&out), sorted_records(&input));
}

#[test]
fn sorting_a_sorted_file_returns_the_identical_file() {
    let mut input = Vec::new();
    for k in 0..200u8 {
        // Distinct keys, ascending: already sorted.
        let mut key = [0u8; 10];
        key[0] = k;
        key[5] = k.wrapping_mul(31);
        input.extend(record_bytes(key, k));
    }
    let once = distributed_sort(&input, 3, 5).unwrap();
    assert_eq!(once, input);
    // Re-partitioning with another worker count changes nothing either.
    let twice = distributed_sort(&once, 7, 2).unwrap();
    assert_eq!(twice, once);
}

#[test]
fn unaligned_file_is_rejected_up_front() {
    let input = vec![0u8; 199];
    match distributed_sort(&input, 2, 4) {
        Ok(_) => panic!("199 bytes are not whole records"),
        Err(e) => assert_eq!(e, SortError::UnalignedInput),
    }
}

#[test]
fn worker_counts_beyond_the_bucket_count_still_sort() {
    let mut input = Vec::new();
    for k in [4u8, 2, 9, 2, 0] {
        let mut key = [k; 10];
        key[9] = 255 - k;
        input.extend(record_bytes(key, k));
    }
    let out = distributed_sort(&input, 300, 1).unwrap();
    assert_eq!(out.len(), input.len());
    assert_sorted(&out);
    assert_eq!(sorted_records(&out), sorted_records(&input));
}

#[test]
fn one_worker_owns_every_bucket() {
    let mut input = Vec::new();
    for k in [200u8, 100, 0, 255, 50] {
        input.extend(record_bytes([k; 10], k));
    }
    let out = distributed_sort(&input, 1, 2).unwrap();
    assert_sorted(&out);
    assert_eq!(sorted_records(&out), sorted_records(&input));
}

#[test]
fn entry_key_data_round_trip_through_the_pipeline() {
    let e = Entry::new([1, 2, 3, 4, 5, 6, 7, 8, 9, 10], [0x77; 90]);
    assert_eq!(e.bucket(), 1);
    let mut input = Vec::new();
    input.extend(e.key().iter());
    input.extend(e.data().iter());
    let out = distributed_sort(&input, 2, 1).unwrap();
    assert_eq!(out, input);
}
