use rust_sorting::bucketer::{radix_divide, RadixDivider};
use rust_sorting::error::SortError;
use rust_sorting::record::Entry;

fn entry(key0: u8, payload: u8) -> Entry {
    let mut key = [0u8; 10];
    key[0] = key0;
    Entry::new(key, [payload; 90])
}

#[test]
fn push_routes_by_leading_key_byte() {
    let mut d = RadixDivider::new(4);
    d.push(&entry(5, 1)).unwrap();
    d.push(&entry(5, 2)).unwrap();
    d.push(&entry(7, 3)).unwrap();
    let bufs = d.get_delegateable_buffers();
    assert_eq!(bufs.len(), 256);
    for (b, bytes) in &bufs {
        match *b {
            5 => {
                assert_eq!(bytes.len(), 200);
                assert_eq!(bytes[0], 5);
                assert_eq!(bytes[10], 1);
                assert_eq!(bytes[110], 2);
            }
            7 => {
                assert_eq!(bytes.len(), 100);
                assert_eq!(bytes[10], 3);
            }
            _ => assert_eq!(bytes.len(), 0),
        }
    }
    // The flush reset every cursor: a second drain is all empty.
    let bufs2 = d.get_delegateable_buffers();
    for (_, bytes) in &bufs2 {
        assert_eq!(bytes.len(), 0);
    }
}

#[test]
fn ready_only_once_every_bucket_holds_a_block() {
    let mut d = RadixDivider::new(1);
    for b in 0..255u8 {
        d.push(&entry(b, 0)).unwrap();
    }
    assert!(!d.ready_to_delegate());
    d.push(&entry(255, 0)).unwrap();
    assert!(d.ready_to_delegate());
}

#[test]
fn bucket_overflow_is_a_capacity_error() {
    let mut d = RadixDivider::new(1);
    d.push(&entry(9, 0)).unwrap();
    d.push(&entry(9, 1)).unwrap();
    match d.push(&entry(9, 2)) {
        Ok(()) => panic!("third record must overflow a capacity-2 bucket"),
        Err(e) => assert_eq!(e, SortError::CapacityExceeded),
    }
}

#[test]
fn push_all_reports_overflow_over_the_whole_batch() {
    let mut d = RadixDivider::new(1);
    let batch = vec![entry(3, 0), entry(3, 1), entry(3, 2)];
    match d.push_all(&batch) {
        Ok(()) => panic!("batch routes three records to a capacity-2 bucket"),
        Err(e) => assert_eq!(e, SortError::CapacityExceeded),
    }
    let mut d2 = RadixDivider::new(2);
    d2.push_all(&batch).unwrap();
    let bufs = d2.get_delegateable_buffers();
    assert_eq!(bufs[3].0, 3);
    assert_eq!(bufs[3].1.len(), 300);
}

#[test]
fn radix_divide_partitions_preserving_order() {
    let batch = vec![entry(1, 10), entry(0, 20), entry(1, 30)];
    let buckets = radix_divide(&batch);
    assert_eq!(buckets.len(), 256);
    assert_eq!(buckets[0].len(), 1);
    assert_eq!(buckets[0][0].data()[0], 20);
    assert_eq!(buckets[1].len(), 2);
    assert_eq!(buckets[1][0].data()[0], 10);
    assert_eq!(buckets[1][1].data()[0], 30);
    for b in 2..256 {
        assert_eq!(buckets[b].len(), 0);
    }
}
