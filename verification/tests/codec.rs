use rust_sorting::codec::{bytes_to_records, records_to_bytes};
use rust_sorting::error::SortError;
use rust_sorting::record::Entry;

fn entry(key0: u8, tail: u8, payload: u8) -> Entry {
    let mut key = [0u8; 10];
    key[0] = key0;
    key[9] = tail;
    let data = [payload; 90];
    Entry::new(key, data)
}

#[test]
fn round_trip_returns_identical_records() {
    let records = vec![entry(3, 1, 7), entry(200, 2, 8), entry(0, 3, 9)];
    let bytes = records_to_bytes(&records);
    assert_eq!(bytes.len(), 300);
    let back = match bytes_to_records(&bytes) {
        Ok(v) => v,
        Err(_) => panic!("round trip failed"),
    };
    assert_eq!(back.len(), records.len());
    for i in 0..records.len() {
        assert_eq!(back[i].key(), records[i].key());
        assert_eq!(&back[i].data()[..], &records[i].data()[..]);
    }
    // And the bytes survive a second pass unchanged.
    let bytes2 = records_to_bytes(&back);
    assert_eq!(bytes, bytes2);
}

#[test]
fn encoding_layout_is_key_then_payload() {
    let e = entry(0xAB, 0xCD, 0x11);
    let bytes = records_to_bytes(&vec![e]);
    assert_eq!(bytes.len(), 100);
    assert_eq!(bytes[0], 0xAB);
    assert_eq!(bytes[9], 0xCD);
    for i in 1..9 {
        assert_eq!(bytes[i], 0);
    }
    for i in 10..100 {
        assert_eq!(bytes[i], 0x11);
    }
}

#[test]
fn unaligned_buffer_is_rejected() {
    let bytes = vec![0u8; 150];
    match bytes_to_records(&bytes) {
        Ok(_) => panic!("150 bytes must not decode"),
        Err(e) => assert_eq!(e, SortError::UnalignedInput),
    }
}

#[test]
fn empty_buffer_decodes_to_no_records() {
    let bytes: Vec<u8> = Vec::new();
    let records = bytes_to_records(&bytes).unwrap();
    assert_eq!(records.len(), 0);
    assert_eq!(records_to_bytes(&records).len(), 0);
}

#[test]
fn entry_accessors_expose_key_bucket_payload() {
    let e = entry(42, 7, 9);
    assert_eq!(e.bucket(), 42);
    assert_eq!(e.key()[0], 42);
    assert_eq!(e.key()[9], 7);
    assert_eq!(e.data()[0], 9);
    let d: Entry = Default::default();
    assert_eq!(d.bucket(), 0);
    assert_eq!(*d.key(), [0u8; 10]);
}
