use rust_sorting::merge::{merge_sorted_vecs, merge_two, sort_entries};
use rust_sorting::record::Entry;
use rust_sorting::sorted_entries::SortedEntries;

fn entry(key0: u8, payload: u8) -> Entry {
    let mut key = [0u8; 10];
    key[0] = key0;
    Entry::new(key, [payload; 90])
}

fn keys(v: &Vec<Entry>) -> Vec<u8> {
    v.iter().map(|e| e.key()[0]).collect()
}

#[test]
fn sort_entries_orders_by_key() {
    let mut v = vec![entry(9, 0), entry(1, 1), entry(5, 2), entry(1, 3)];
    sort_entries(&mut v);
    assert_eq!(keys(&v), vec![1, 1, 5, 9]);
}

#[test]
fn merge_two_interleaves_sorted_runs() {
    let a = vec![entry(1, 0), entry(4, 0), entry(9, 0)];
    let b = vec![entry(2, 0), entry(4, 0)];
    let m = merge_two(&a, &b);
    assert_eq!(keys(&m), vec![1, 2, 4, 4, 9]);
}

#[test]
fn merge_sorted_vecs_flattens_everything() {
    let runs = vec![
        vec![entry(3, 0), entry(8, 0)],
        Vec::new(),
        vec![entry(1, 0)],
        vec![entry(2, 0), entry(9, 0)],
    ];
    let m = merge_sorted_vecs(runs);
    assert_eq!(keys(&m), vec![1, 2, 3, 8, 9]);
}

#[test]
fn join_accumulates_and_into_vec_is_sorted() {
    let mut se = SortedEntries::new();
    se.join(vec![entry(7, 1), entry(2, 2)]);
    se.join(vec![entry(5, 3)]);
    se.join(vec![entry(2, 4), entry(9, 5)]);
    let flat = se.into_vec();
    assert_eq!(keys(&flat), vec![2, 2, 5, 7, 9]);
}

#[test]
fn join_slice_copies_the_borrowed_batch() {
    let mut se = SortedEntries::new();
    let batch = vec![entry(4, 1), entry(3, 2)];
    se.join_slice(&batch);
    let flat = se.into_vec();
    assert_eq!(keys(&flat), vec![3, 4]);
    // The borrowed batch is untouched.
    assert_eq!(keys(&batch), vec![4, 3]);
}

#[test]
fn trust_me_bro_adopts_a_sorted_run() {
    let run = vec![entry(1, 0), entry(2, 0), entry(6, 0)];
    let se = SortedEntries::trust_me_bro_this_is_already_sorted(run);
    assert_eq!(se.len(), 3);
    let flat = se.into_vec();
    assert_eq!(keys(&flat), vec![1, 2, 6]);
}

#[test]
fn len_counts_only_the_consolidated_main_run() {
    let mut se = SortedEntries::new();
    se.join(vec![entry(1, 0), entry(2, 0), entry(3, 0), entry(4, 0)]);
    // The first join lands in an empty main run and consolidates at once.
    assert_eq!(se.len(), 4);
    // A small batch stays pending: four main records outweigh one pending.
    se.join(vec![entry(5, 0)]);
    assert_eq!(se.len(), 4);
    // Forcing consolidation folds it in.
    se.actually_join();
    assert_eq!(se.len(), 5);
}
