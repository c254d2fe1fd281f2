//! The bucketer: routes a stream of records into 256 key-range buckets with
//! bounded memory and explicit flush triggers.

use vstd::prelude::*;

use crate::codec::{encode, records_to_bytes};
use crate::error::SortError;
use crate::record::{all_in_bucket, bucket_of, entry_wf, models, Entry, EntryView};

verus! {

/// The records of `s` that belong to bucket `b`, in arrival order.
pub open spec fn bucket_filter(s: Seq<EntryView>, b: int) -> Seq<EntryView>
    decreases s.len(),
{
    if s.len() == 0 {
        s
    } else if bucket_of(s.last()) == b {
        bucket_filter(s.drop_last(), b).push(s.last())
    } else {
        bucket_filter(s.drop_last(), b)
    }
}

/// How many records of `s` belong to bucket `b`.
pub open spec fn bucket_count(s: Seq<EntryView>, b: int) -> nat {
    bucket_filter(s, b).len()
}

/// Longer prefixes of a stream route no fewer records to any bucket.
pub proof fn lemma_bucket_count_mono(s: Seq<EntryView>, i: int, j: int, b: int)
    requires
        0 <= i <= j <= s.len(),
    ensures
        bucket_count(s.take(i), b) <= bucket_count(s.take(j), b),
    decreases j - i,
{
    if i < j {
        lemma_bucket_count_mono(s, i, j - 1, b);
        assert(s.take(j).drop_last() =~= s.take(j - 1));
    }
}

/// The manager-side bucketer: one write cursor per bucket into a store sized
/// to twice the block size, so that a flush can lag a full block behind the
/// stream before capacity runs out.
pub struct RadixDivider {
    buffers: Vec<Vec<Entry>>,
    block_size: usize,
}

impl RadixDivider {
    /// The configured block size: the per-bucket batch threshold.
    pub closed spec fn spec_block_size(self) -> int {
        self.block_size as int
    }

    /// The records currently held for bucket `b`, in arrival order.
    pub closed spec fn bucket(self, b: int) -> Seq<EntryView> {
        models(self.buffers@[b]@)
    }

    /// Internal consistency: 256 buckets, each within capacity and holding
    /// only its own records.
    pub closed spec fn wf(self) -> bool {
        &&& self.buffers@.len() == 256
        &&& 1 <= self.block_size
        &&& self.block_size <= usize::MAX / 2
        &&& forall|b: int| 0 <= b < 256 ==> (#[trigger] self.bucket(b)).len() <= 2 * self.block_size
        &&& forall|b: int| 0 <= b < 256 ==> all_in_bucket(#[trigger] self.bucket(b), b)
    }

    /// What well-formedness guarantees about every bucket, for callers:
    /// each bucket holds only its own records and stays within capacity.
    pub proof fn lemma_wf_properties(self)
        requires
            self.wf(),
        ensures
            self.spec_block_size() >= 1,
            forall|b: int| 0 <= b < 256 ==> all_in_bucket(#[trigger] self.bucket(b), b),
            forall|b: int| 0 <= b < 256 ==> (#[trigger] self.bucket(b)).len() <= 2
                * self.spec_block_size(),
    {
    }

    /// Allocates an empty bucketer for the given block size.
    pub fn new(block_size: usize) -> (r: Self)
        requires
            1 <= block_size,
            block_size <= usize::MAX / 2,
        ensures
            r.wf(),
            r.spec_block_size() == block_size,
            forall|b: int| 0 <= b < 256 ==> (#[trigger] r.bucket(b)).len() == 0,
    {
        let mut buffers: Vec<Vec<Entry>> = Vec::new();
        let mut i: usize = 0;
        while i < 256
            invariant
                0 <= i <= 256,
                buffers@.len() == i,
                forall|b: int| 0 <= b < i ==> (#[trigger] buffers@[b]@).len() == 0,
            decreases 256 - i,
        {
            buffers.push(Vec::new());
            i = i + 1;
        }
        let r = RadixDivider { buffers, block_size };
        proof {
            assert(forall|b: int| 0 <= b < 256 ==> (#[trigger] r.bucket(b)).len() == 0);
        }
        r
    }

    /// Appends one record to the bucket selected by its leading key byte;
    /// fails, leaving the bucketer unchanged, exactly when that bucket is at
    /// capacity.
    pub fn push(&mut self, entry: &Entry) -> (r: Result<(), SortError>)
        requires
            old(self).wf(),
        ensures
            final(self).wf(),
            final(self).spec_block_size() == old(self).spec_block_size(),
            r is Ok <==> old(self).bucket(bucket_of(entry@)).len() < 2 * old(
                self,
            ).spec_block_size(),
            r matches Err(e) ==> e == SortError::CapacityExceeded && *final(self) == *old(self),
            r is Ok ==> final(self).bucket(bucket_of(entry@)) == old(self).bucket(
                bucket_of(entry@),
            ).push(entry@),
            r is Ok ==> forall|b: int|
                0 <= b < 256 && b != bucket_of(entry@) ==> #[trigger] final(self).bucket(b) == old(
                    self,
                ).bucket(b),
    {
        let b = entry.bucket();
        if self.buffers[b].len() >= 2 * self.block_size {
            return Err(SortError::CapacityExceeded);
        }
        let slot = &mut self.buffers[b];
        slot.push(*entry);
        proof {
            broadcast use crate::record::lemma_entry_wf;

            assert(self.bucket(b as int) =~= old(self).bucket(b as int).push(entry@));
            assert forall|t: int| 0 <= t < 256 && t != b implies #[trigger] self.bucket(t) == old(
                self,
            ).bucket(t) by {
                assert(self.buffers@[t] == old(self).buffers@[t]);
            }
            assert(all_in_bucket(self.bucket(b as int), b as int)) by {
                assert(all_in_bucket(old(self).bucket(b as int), b as int));
                assert(bucket_of(entry@) == b as int);
            }
            assert(self.wf());
        }
        Ok(())
    }

    /// Routes a whole batch of records; fails exactly when some bucket's
    /// current content plus the batch's records for it exceed its capacity.
    pub fn push_all(&mut self, entries: &[Entry]) -> (r: Result<(), SortError>)
        requires
            old(self).wf(),
        ensures
            final(self).wf(),
            final(self).spec_block_size() == old(self).spec_block_size(),
            r is Ok <==> forall|b: int|
                0 <= b < 256 ==> #[trigger] old(self).bucket(b).len() + bucket_count(
                    models(entries@),
                    b,
                ) <= 2 * old(self).spec_block_size(),
            r matches Err(e) ==> e == SortError::CapacityExceeded,
            r is Ok ==> forall|b: int|
                0 <= b < 256 ==> #[trigger] final(self).bucket(b) == old(self).bucket(b)
                    + bucket_filter(models(entries@), b),
    {
        let ghost orig = *old(self);
        let ghost stream = models(entries@);
        let mut i: usize = 0;
        proof {
            assert(forall|b: int|
                #![all_triggers]
                0 <= b < 256 ==> bucket_filter(models(entries@.take(0)), b)
                    =~= Seq::<EntryView>::empty());
            assert(forall|b: int| 0 <= b < 256 ==> #[trigger] self.bucket(b) =~= orig.bucket(b)
                + bucket_filter(models(entries@.take(0)), b));
        }
        while i < entries.len()
            invariant
                0 <= i <= entries@.len(),
                self.wf(),
                self.spec_block_size() == orig.spec_block_size(),
                orig == *old(self),
                orig.wf(),
                stream == models(entries@),
                forall|b: int|
                    0 <= b < 256 ==> #[trigger] self.bucket(b) == orig.bucket(b) + bucket_filter(
                        models(entries@.take(i as int)),
                        b,
                    ),
            decreases entries@.len() - i,
        {
            let e = &entries[i];
            let ghost b0 = bucket_of(e@);
            proof {
                assert(models(entries@.take(i + 1)).drop_last() =~= models(
                    entries@.take(i as int),
                ));
                assert(models(entries@.take(i + 1)).last() == e@);
                assert(forall|b: int|
                    0 <= b < 256 && b != b0 ==> #[trigger] bucket_filter(
                        models(entries@.take(i + 1)),
                        b,
                    ) == bucket_filter(models(entries@.take(i as int)), b));
                assert(bucket_filter(models(entries@.take(i + 1)), b0) == bucket_filter(
                    models(entries@.take(i as int)),
                    b0,
                ).push(e@));
            }
            let res = self.push(e);
            if res.is_err() {
                proof {
                    // The overflowing bucket already holds its capacity, and
                    // the stream still routes at least one more record to it.
                    assert(self.bucket(b0) == orig.bucket(b0) + bucket_filter(
                        models(entries@.take(i as int)),
                        b0,
                    ));
                    assert(self.bucket(b0).len() >= 2 * orig.spec_block_size());
                    assert(bucket_count(stream.take(i + 1), b0) == bucket_count(
                        stream.take(i as int),
                        b0,
                    ) + 1) by {
                        assert(stream.take(i + 1) =~= models(entries@.take(i + 1)));
                        assert(stream.take(i as int) =~= models(entries@.take(i as int)));
                    }
                    lemma_bucket_count_mono(stream, i + 1, stream.len() as int, b0);
                    assert(stream.take(stream.len() as int) =~= stream);
                    assert(orig.bucket(b0).len() + bucket_count(stream, b0) > 2
                        * orig.spec_block_size());
                }
                return Err(SortError::CapacityExceeded);
            }
            i = i + 1;
        }
        proof {
            assert(entries@.take(entries@.len() as int) =~= entries@);
            assert forall|b: int| 0 <= b < 256 implies #[trigger] orig.bucket(b).len()
                + bucket_count(stream, b) <= 2 * orig.spec_block_size() by {
                assert(self.bucket(b) == orig.bucket(b) + bucket_filter(stream, b));
                assert(self.bucket(b).len() <= 2 * self.spec_block_size());
            }
        }
        Ok(())
    }

    /// True once every bucket holds at least a full block: the all-or-nothing
    /// gate that batches the 256 sends together.
    pub fn ready_to_delegate(&mut self) -> (r: bool)
        requires
            old(self).wf(),
        ensures
            *final(self) == *old(self),
            r == forall|b: int|
                0 <= b < 256 ==> (#[trigger] old(self).bucket(b)).len() >= old(
                    self,
                ).spec_block_size(),
    {
        let mut b: usize = 0;
        while b < 256
            invariant
                0 <= b <= 256,
                self.wf(),
                *self == *old(self),
                forall|t: int| 0 <= t < b ==> (#[trigger] self.bucket(t)).len()
                    >= self.spec_block_size(),
            decreases 256 - b,
        {
            if self.buffers[b].len() < self.block_size {
                proof {
                    assert(self.bucket(b as int).len() < self.spec_block_size());
                }
                return false;
            }
            b = b + 1;
        }
        true
    }

    /// Drains every bucket into its byte buffer, resetting all cursors; the
    /// buffers come out in ascending bucket order, one per bucket, possibly
    /// empty.
    pub fn get_delegateable_buffers(&mut self) -> (out: Vec<(usize, Vec<u8>)>)
        requires
            old(self).wf(),
        ensures
            final(self).wf(),
            final(self).spec_block_size() == old(self).spec_block_size(),
            forall|b: int| 0 <= b < 256 ==> (#[trigger] final(self).bucket(b)).len() == 0,
            out@.len() == 256,
            forall|b: int| 0 <= b < 256 ==> (#[trigger] out@[b]).0 == b,
            forall|b: int| 0 <= b < 256 ==> (#[trigger] out@[b]).1@ == encode(
                old(self).bucket(b),
            ),
    {
        let mut out: Vec<(usize, Vec<u8>)> = Vec::new();
        let mut b: usize = 0;
        while b < 256
            invariant
                0 <= b <= 256,
                self.wf(),
                self.spec_block_size() == old(self).spec_block_size(),
                out@.len() == b,
                forall|t: int| b <= t < 256 ==> #[trigger] self.bucket(t) == old(self).bucket(t),
                forall|t: int| 0 <= t < b ==> (#[trigger] self.bucket(t)).len() == 0,
                forall|t: int| 0 <= t < b ==> (#[trigger] out@[t]).0 == t,
                forall|t: int| 0 <= t < b ==> (#[trigger] out@[t]).1@ == encode(
                    old(self).bucket(t),
                ),
            decreases 256 - b,
        {
            let ghost at_entry = *self;
            let mut taken: Vec<Entry> = Vec::new();
            let slot = &mut self.buffers[b];
            core::mem::swap(slot, &mut taken);
            let bytes = records_to_bytes(&taken);
            out.push((b, bytes));
            proof {
                assert(models(taken@) == at_entry.bucket(b as int));
                assert(self.buffers@.len() == 256);
                assert(self.bucket(b as int).len() == 0);
                assert forall|t: int| 0 <= t < 256 && t != b implies #[trigger] self.bucket(t)
                    == at_entry.bucket(t) by {
                    assert(self.buffers@[t] == at_entry.buffers@[t]);
                }
                assert(self.wf());
            }
            b = b + 1;
        }
        out
    }
}

/// Partitions a batch of records into the 256 buckets, preserving arrival
/// order within each bucket.
pub fn radix_divide(entries: &Vec<Entry>) -> (r: Vec<Vec<Entry>>)
    ensures
        r@.len() == 256,
        forall|b: int| 0 <= b < 256 ==> models(#[trigger] r@[b]@) == bucket_filter(
            models(entries@),
            b,
        ),
{
    let mut r: Vec<Vec<Entry>> = Vec::new();
    let mut i: usize = 0;
    while i < 256
        invariant
            0 <= i <= 256,
            r@.len() == i,
            forall|b: int| 0 <= b < i ==> (#[trigger] r@[b]@).len() == 0,
        decreases 256 - i,
    {
        r.push(Vec::new());
        i = i + 1;
    }
    proof {
        assert(forall|b: int|
            #![all_triggers]
            0 <= b < 256 ==> models(r@[b]@) =~= bucket_filter(models(entries@.take(0)), b));
    }
    let mut i: usize = 0;
    while i < entries.len()
        invariant
            0 <= i <= entries@.len(),
            r@.len() == 256,
            forall|b: int| 0 <= b < 256 ==> models(#[trigger] r@[b]@) == bucket_filter(
                models(entries@.take(i as int)),
                b,
            ),
        decreases entries@.len() - i,
    {
        let e = &entries[i];
        let ghost b0 = bucket_of(e@);
        proof {
            assert(models(entries@.take(i + 1)).drop_last() =~= models(entries@.take(i as int)));
            assert(models(entries@.take(i + 1)).last() == e@);
        }
        let b = e.bucket();
        let slot = &mut r[b];
        slot.push(*e);
        proof {
            assert(models(r@[b0]@) =~= bucket_filter(models(entries@.take(i as int)), b0).push(
                e@,
            ));
            assert(forall|t: int|
                0 <= t < 256 && t != b0 ==> models(#[trigger] r@[t]@) == bucket_filter(
                    models(entries@.take(i + 1)),
                    t,
                ));
        }
        i = i + 1;
    }
    proof {
        assert(entries@.take(entries@.len() as int) =~= entries@);
    }
    r
}

} // verus!
