//! The manager/worker wire protocol: tagged messages and the bucket-to-worker
//! assignment. A message either carries the records of one bucket or marks the
//! end of its channel; rank 0 is the manager and ranks 1 and up are workers.

use vstd::prelude::*;

use crate::codec::decode;
use crate::error::SortError;
use crate::record::{all_in_bucket, bucket_of, EntryView};

verus! {

/// One point-to-point message: a byte buffer holding whole records of a
/// single bucket, or the end-of-stream marker for the channel.
pub enum Message {
    Data(Vec<u8>),
    EndOfStream,
}

/// A valid data payload: non-empty, whole records only, and every record in
/// the bucket named by the leading byte.
pub open spec fn data_ok(bytes: Seq<u8>) -> bool {
    &&& bytes.len() > 0
    &&& bytes.len() % 100 == 0
    &&& all_in_bucket(decode(bytes), bytes[0] as int)
}

/// A message a worker accepts: either the end marker or a valid payload.
pub open spec fn message_ok(msg: Message) -> bool {
    match msg {
        Message::Data(bytes) => data_ok(bytes@),
        Message::EndOfStream => true,
    }
}

/// The worker rank that owns a bucket: buckets are dealt round-robin over the
/// ranks 1 through `workers`; rank 0 is reserved for the manager.
pub fn get_worker(bucket_id: i32, workers: i32) -> (r: i32)
    requires
        0 <= bucket_id < 256,
        1 <= workers,
    ensures
        r == bucket_id % workers + 1,
        1 <= r <= workers,
{
    (bucket_id % workers) + 1
}

/// Records that share a key share a bucket, so they all route to a single
/// worker, whatever the worker count.
pub proof fn lemma_equal_keys_one_worker(a: EntryView, b: EntryView, workers: int)
    requires
        a.key == b.key,
        workers >= 1,
    ensures
        bucket_of(a) == bucket_of(b),
        bucket_of(a) % workers + 1 == bucket_of(b) % workers + 1,
{
}

/// The collection-phase gate: the manager expects record data from the owning
/// worker, and an end-of-stream there is a fatal protocol violation.
pub fn accept_collected(msg: Message) -> (r: Result<Vec<u8>, SortError>)
    ensures
        r is Ok <==> msg is Data,
        r matches Ok(v) ==> (msg matches Message::Data(d) && v == d),
        r matches Err(e) ==> e == SortError::ProtocolViolation,
{
    match msg {
        Message::Data(d) => Ok(d),
        Message::EndOfStream => Err(SortError::ProtocolViolation),
    }
}

} // verus!
