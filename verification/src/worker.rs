//! The worker role: receives bucketed record batches, keeps one sorted
//! accumulator per bucket, and on end-of-stream ships each owned bucket back
//! as one sorted byte buffer.

use vstd::prelude::*;
use vstd::multiset::Multiset;

use crate::codec::{bytes_to_records, decode, lemma_decode_len, lemma_round_trip,
    records_to_bytes};
use crate::error::SortError;
use crate::protocol::{data_ok, message_ok, Message};
use crate::record::{all_in_bucket, bucket_of, entry_wf, models, sorted, EntryView};
use crate::sorted_entries::SortedEntries;

verus! {

/// Every record of the multiset belongs to bucket `b` and is well formed.
pub open spec fn multiset_in_bucket(m: Multiset<EntryView>, b: int) -> bool {
    forall|v: EntryView| #[trigger] m.count(v) > 0 ==> entry_wf(v) && bucket_of(v) == b
}

/// A sequence whose records all lie in one bucket carries a multiset whose
/// records all lie in that bucket.
pub proof fn lemma_all_in_bucket_to_multiset(s: Seq<EntryView>, b: int)
    requires
        all_in_bucket(s, b),
    ensures
        multiset_in_bucket(s.to_multiset(), b),
{
    broadcast use vstd::seq_lib::group_to_multiset_ensures;

    assert forall|v: EntryView| #[trigger] s.to_multiset().count(v) > 0 implies entry_wf(v)
        && bucket_of(v) == b by {
        assert(s.contains(v));
        let i = choose|i: int| 0 <= i < s.len() && s[i] == v;
        assert(entry_wf(s[i]) && bucket_of(s[i]) == b);
    }
}

/// And back: the records of a sequence all lie in one bucket when its
/// multiset's do.
pub proof fn lemma_multiset_in_bucket_to_seq(s: Seq<EntryView>, b: int)
    requires
        multiset_in_bucket(s.to_multiset(), b),
    ensures
        all_in_bucket(s, b),
{
    broadcast use vstd::seq_lib::group_to_multiset_ensures;

    assert forall|k: int| 0 <= k < s.len() implies entry_wf(#[trigger] s[k]) && bucket_of(s[k])
        == b by {
        assert(s.contains(s[k]));
        assert(s.to_multiset().count(s[k]) > 0);
    }
}

/// A worker process's state: one lazily created accumulator per bucket, and
/// whether the manager's end-of-stream marker has been seen.
pub struct Worker {
    buffers: Vec<Option<SortedEntries>>,
    done: bool,
}

impl Worker {
    /// The records received so far for bucket `b`.
    pub closed spec fn bucket_contents(self, b: int) -> Multiset<EntryView> {
        match self.buffers@[b] {
            Some(se) => se.contents(),
            None => Multiset::empty(),
        }
    }

    /// Whether the end-of-stream marker has been seen.
    pub closed spec fn finished(self) -> bool {
        self.done
    }

    /// Internal consistency: 256 slots, each live accumulator sorted and
    /// holding only its own bucket's records.
    pub closed spec fn wf(self) -> bool {
        &&& self.buffers@.len() == 256
        &&& forall|b: int|
            0 <= b < 256 ==> match #[trigger] self.buffers@[b] {
                Some(se) => se.wf() && multiset_in_bucket(se.contents(), b),
                None => true,
            }
    }

    /// A fresh worker: nothing received, stream open.
    pub fn new() -> (r: Self)
        ensures
            r.wf(),
            !r.finished(),
            forall|b: int| 0 <= b < 256 ==> #[trigger] r.bucket_contents(b)
                == Multiset::<EntryView>::empty(),
    {
        let mut buffers: Vec<Option<SortedEntries>> = Vec::new();
        let mut i: usize = 0;
        while i < 256
            invariant
                0 <= i <= 256,
                buffers@.len() == i,
                forall|b: int| 0 <= b < i ==> #[trigger] buffers@[b] is None,
            decreases 256 - i,
        {
            buffers.push(None);
            i = i + 1;
        }
        Worker { buffers, done: false }
    }

    /// Takes one message from the manager. A data payload is decoded and
    /// merged into its bucket's accumulator; the end marker closes the
    /// stream. Fails, leaving the worker unchanged, exactly on a message
    /// after the end marker or a malformed payload.
    pub fn handle_message(&mut self, msg: Message) -> (r: Result<bool, SortError>)
        requires
            old(self).wf(),
        ensures
            final(self).wf(),
            r is Ok <==> (!old(self).finished() && message_ok(msg)),
            r matches Err(e) ==> e == SortError::ProtocolViolation && *final(self) == *old(self),
            r matches Ok(end) ==> end == (msg is EndOfStream),
            r is Ok ==> final(self).finished() == (msg is EndOfStream),
            r is Err ==> final(self).finished() == old(self).finished(),
            msg is EndOfStream ==> forall|b: int|
                0 <= b < 256 ==> #[trigger] final(self).bucket_contents(b) == old(
                    self,
                ).bucket_contents(b),
            r is Ok ==> (msg matches Message::Data(bytes) ==> {
                &&& final(self).bucket_contents(bytes@[0] as int) == old(self).bucket_contents(
                    bytes@[0] as int,
                ).add(decode(bytes@).to_multiset())
                &&& forall|b: int|
                    0 <= b < 256 && b != bytes@[0] as int
                        ==> #[trigger] final(self).bucket_contents(b)
                        == old(self).bucket_contents(b)
            }),
    {
        if self.done {
            return Err(SortError::ProtocolViolation);
        }
        match msg {
            Message::EndOfStream => {
                self.done = true;
                Ok(true)
            },
            Message::Data(bytes) => {
                if bytes.len() == 0 {
                    return Err(SortError::ProtocolViolation);
                }
                if bytes.len() % 100 != 0 {
                    proof {
                        assert(!data_ok(bytes@));
                    }
                    return Err(SortError::ProtocolViolation);
                }
                let entries = match bytes_to_records(&bytes) {
                    Ok(v) => v,
                    Err(_) => {
                        proof {
                            assert(false);
                        }
                        return Err(SortError::ProtocolViolation);
                    },
                };
                let b0 = bytes[0];
                let mut k: usize = 0;
                while k < entries.len()
                    invariant
                        0 <= k <= entries@.len(),
                        *self == *old(self),
                        old(self).wf(),
                        !old(self).finished(),
                        msg == Message::Data(bytes),
                        models(entries@) == decode(bytes@),
                        bytes@.len() > 0,
                        b0 == bytes@[0],
                        forall|t: int| 0 <= t < k ==> bucket_of(#[trigger] models(entries@)[t])
                            == b0 as int,
                    decreases entries@.len() - k,
                {
                    if entries[k].bucket() != b0 as usize {
                        proof {
                            assert(bucket_of(decode(bytes@)[k as int]) != b0 as int);
                            assert(!all_in_bucket(decode(bytes@), bytes@[0] as int));
                        }
                        return Err(SortError::ProtocolViolation);
                    }
                    k = k + 1;
                }
                proof {
                    lemma_decode_len(bytes@);
                    assert(all_in_bucket(decode(bytes@), b0 as int));
                }
                let bucket = b0 as usize;
                let ghost pre = *self;
                let ghost batch = decode(bytes@).to_multiset();
                let slot = &mut self.buffers[bucket];
                match slot {
                    Some(se) => {
                        se.join(entries);
                    },
                    None => {
                        let mut se = SortedEntries::new();
                        se.join(entries);
                        *slot = Some(se);
                    },
                }
                proof {
                    lemma_all_in_bucket_to_multiset(decode(bytes@), b0 as int);
                    assert(self.bucket_contents(bucket as int) =~= pre.bucket_contents(
                        bucket as int,
                    ).add(batch));
                    assert forall|b: int| 0 <= b < 256 && b != bucket as int implies #[trigger] self
                        .bucket_contents(b) == pre.bucket_contents(b) by {
                        assert(self.buffers@[b] == pre.buffers@[b]);
                    }
                    assert(multiset_in_bucket(self.bucket_contents(bucket as int), bucket as int));
                    assert(self.wf());
                }
                Ok(false)
            },
        }
    }

    /// The buckets this worker owns under the round-robin assignment, with
    /// their finalized payloads, in ascending bucket order: the `k`-th entry
    /// is bucket `rank - 1 + k * wc`, its payload the bucket's records sorted
    /// and encoded.
    pub open spec fn results_ok(self, out: Seq<(usize, Vec<u8>)>, rank: int, wc: int) -> bool {
        &&& forall|k: int| 0 <= k < out.len() ==> (#[trigger] out[k]).0 == rank - 1 + k * wc
        &&& forall|k: int| 0 <= k < out.len() ==> (#[trigger] out[k]).0 < 256
        &&& forall|k: int|
            0 <= k < out.len() ==> decode((#[trigger] out[k]).1@).to_multiset()
                == self.bucket_contents(out[k].0 as int)
        &&& forall|k: int| 0 <= k < out.len() ==> sorted(decode((#[trigger] out[k]).1@))
        &&& forall|k: int|
            0 <= k < out.len() ==> all_in_bucket(decode((#[trigger] out[k]).1@), out[k].0 as int)
        &&& forall|k: int| 0 <= k < out.len() ==> (#[trigger] out[k]).1@.len() % 100 == 0
        &&& rank - 1 + out.len() * wc >= 256
        &&& out.len() > 0 ==> rank - 1 + (out.len() - 1) * wc < 256
        &&& out.len() == 0 ==> rank - 1 >= 256
    }

    /// Finalizes every owned bucket into one flat sorted byte buffer each,
    /// ascending by bucket id, one entry per owned bucket even when empty.
    pub fn finish(self, rank: usize, worker_count: usize) -> (out: Vec<(usize, Vec<u8>)>)
        requires
            self.wf(),
            1 <= rank <= worker_count,
            worker_count <= 0x7fff_ffff,
        ensures
            self.results_ok(out@, rank as int, worker_count as int),
    {
        let ghost orig = self;
        let mut this = self;
        let mut out: Vec<(usize, Vec<u8>)> = Vec::new();
        let mut b: usize = rank - 1;
        proof {
            assert(out@.len() == 0);
            assert(out@.len() * worker_count == 0) by (nonlinear_arith)
                requires
                    out@.len() == 0,
            ;
        }
        while b < 256
            invariant
                this.buffers@.len() == 256,
                rank >= 1,
                worker_count >= 1,
                worker_count <= 0x7fff_ffff,
                b == rank - 1 + out@.len() * worker_count,
                out@.len() == 0 ==> b == rank - 1,
                out@.len() > 0 ==> rank - 1 + (out@.len() - 1) * worker_count < 256,
                forall|b2: int| b <= b2 < 256 ==> this.buffers@[b2] == orig.buffers@[b2],
                orig.wf(),
                forall|k: int| 0 <= k < out@.len() ==> (#[trigger] out@[k]).0 == rank - 1 + k
                    * worker_count,
                forall|k: int| 0 <= k < out@.len() ==> (#[trigger] out@[k]).0 < 256,
                forall|k: int|
                    0 <= k < out@.len() ==> decode((#[trigger] out@[k]).1@).to_multiset()
                        == orig.bucket_contents(out@[k].0 as int),
                forall|k: int| 0 <= k < out@.len() ==> sorted(decode((#[trigger] out@[k]).1@)),
                forall|k: int|
                    0 <= k < out@.len() ==> all_in_bucket(
                        decode((#[trigger] out@[k]).1@),
                        out@[k].0 as int,
                    ),
                forall|k: int| 0 <= k < out@.len() ==> (#[trigger] out@[k]).1@.len() % 100 == 0,
            decreases 256 + worker_count - b,
    {
            let mut taken: Option<SortedEntries> = None;
            let slot = &mut this.buffers[b];
            core::mem::swap(slot, &mut taken);
            let flat: Vec<crate::record::Entry> = match taken {
                Some(se) => se.into_vec(),
                None => Vec::new(),
            };
            let bytes = records_to_bytes(&flat);
            proof {
                broadcast use crate::record::lemma_entry_wf;

                assert(forall|t: int| 0 <= t < models(flat@).len() ==> entry_wf(
                    #[trigger] models(flat@)[t],
                ));
                lemma_round_trip(models(flat@));
                assert(decode(bytes@) == models(flat@));
                assert(decode(bytes@).to_multiset() == orig.bucket_contents(b as int)) by {
                    if orig.buffers@[b as int] is None {
                        crate::merge::lemma_to_multiset_empty(models(flat@));
                    }
                }
                assert(multiset_in_bucket(decode(bytes@).to_multiset(), b as int)) by {
                    if orig.buffers@[b as int] is Some {
                        assert(orig.wf());
                    } else {
                        crate::merge::lemma_to_multiset_empty(models(flat@));
                    }
                }
                lemma_multiset_in_bucket_to_seq(decode(bytes@), b as int);
            }
            out.push((b, bytes));
            proof {
                assert((out@.len() - 1) * worker_count == out@.len() * worker_count
                    - worker_count) by (nonlinear_arith);
            }
            b = b + worker_count;
        }
        proof {
            assert(rank - 1 + out@.len() * (worker_count as int) >= 256);
        }
        out
    }
}

} // verus!
