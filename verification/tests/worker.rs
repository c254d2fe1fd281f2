use rust_sorting::codec::records_to_bytes;
use rust_sorting::error::SortError;
use rust_sorting::protocol::{accept_collected, get_worker, Message};
use rust_sorting::record::Entry;
use rust_sorting::worker::Worker;

fn entry(key0: u8, payload: u8) -> Entry {
    let mut key = [0u8; 10];
    key[0] = key0;
    Entry::new(key, [payload; 90])
}

fn payload_of(records: Vec<Entry>) -> Vec<u8> {
    records_to_bytes(&records)
}

#[test]
fn get_worker_deals_buckets_round_robin() {
    assert_eq!(get_worker(0, 2), 1);
    assert_eq!(get_worker(1, 2), 2);
    assert_eq!(get_worker(5, 2), 2);
    assert_eq!(get_worker(255, 2), 2);
    assert_eq!(get_worker(7, 1), 1);
    assert_eq!(get_worker(255, 4), 4);
}

#[test]
fn worker_sorts_a_bucket_across_messages() {
    let mut w = Worker::new();
    let end = w
        .handle_message(Message::Data(payload_of(vec![entry(3, 9), entry(3, 1)])))
        .unwrap();
    assert!(!end);
    let end = w.handle_message(Message::Data(payload_of(vec![entry(3, 5)]))).unwrap();
    assert!(!end);
    let end = w.handle_message(Message::EndOfStream).unwrap();
    assert!(end);
    let results = w.finish(1, 1);
    assert_eq!(results.len(), 256);
    for (b, bytes) in &results {
        if *b == 3 {
            assert_eq!(bytes.len(), 300);
            // Keys equal: the three payloads come back in some order, sorted
            // by key, and nothing is lost.
            let mut payloads = vec![bytes[10], bytes[110], bytes[210]];
            payloads.sort();
            assert_eq!(payloads, vec![1, 5, 9]);
        } else {
            assert_eq!(bytes.len(), 0);
        }
    }
}

#[test]
fn worker_returns_every_owned_bucket() {
    let mut w = Worker::new();
    w.handle_message(Message::Data(payload_of(vec![entry(4, 1)]))).unwrap();
    w.handle_message(Message::EndOfStream).unwrap();
    // Two workers: rank 1 owns the even buckets, data or not, ascending.
    let results = w.finish(1, 2);
    assert_eq!(results.len(), 128);
    for (k, (b, bytes)) in results.iter().enumerate() {
        assert_eq!(*b, 2 * k);
        if *b == 4 {
            assert_eq!(bytes.len(), 100);
        } else {
            assert_eq!(bytes.len(), 0);
        }
    }
}

#[test]
fn data_after_end_of_stream_is_a_protocol_violation() {
    let mut w = Worker::new();
    w.handle_message(Message::EndOfStream).unwrap();
    match w.handle_message(Message::Data(payload_of(vec![entry(0, 0)]))) {
        Ok(_) => panic!("data after the end marker must fail"),
        Err(e) => assert_eq!(e, SortError::ProtocolViolation),
    }
}

#[test]
fn malformed_payloads_are_protocol_violations() {
    let mut w = Worker::new();
    match w.handle_message(Message::Data(vec![0u8; 60])) {
        Ok(_) => panic!("a 60-byte payload holds no whole record"),
        Err(e) => assert_eq!(e, SortError::ProtocolViolation),
    }
    match w.handle_message(Message::Data(Vec::new())) {
        Ok(_) => panic!("an empty payload names no bucket"),
        Err(e) => assert_eq!(e, SortError::ProtocolViolation),
    }
    match w.handle_message(Message::Data(payload_of(vec![entry(1, 0), entry(2, 0)]))) {
        Ok(_) => panic!("a payload mixing buckets must fail"),
        Err(e) => assert_eq!(e, SortError::ProtocolViolation),
    }
    // The worker is unchanged and still accepts good messages.
    assert!(!w.handle_message(Message::Data(payload_of(vec![entry(1, 0)]))).unwrap());
}

#[test]
fn collection_rejects_an_end_marker_where_data_is_due() {
    match accept_collected(Message::EndOfStream) {
        Ok(_) => panic!("an end marker in the collection phase is fatal"),
        Err(e) => assert_eq!(e, SortError::ProtocolViolation),
    }
    let got = accept_collected(Message::Data(vec![7u8; 100])).unwrap();
    assert_eq!(got, vec![7u8; 100]);
}

#[test]
fn error_descriptions_name_the_failure() {
    assert!(SortError::UnalignedInput.describe().contains("multiple"));
    assert!(SortError::CapacityExceeded.describe().contains("bucket"));
    assert!(SortError::ProtocolViolation.describe().contains("protocol"));
}
