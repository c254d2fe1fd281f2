//! The incremental per-bucket merge buffer: a sorted main run plus a list of
//! smaller sorted runs awaiting consolidation, so that repeated small batches
//! are merged with amortized cost instead of re-sorting from scratch.

use vstd::prelude::*;
use vstd::multiset::Multiset;

use crate::merge::{
    lemma_sum_multisets_push, lemma_to_multiset_empty, merge_sorted_vecs, run_multisets,
    sort_entries, sum_multisets,
};
use crate::record::{models, sorted, Entry, EntryView};

verus! {

/// Consolidate once the pending runs hold more than this many times the main
/// run's records.
pub const GROWTH_FACTOR: usize = 1;

/// A per-bucket accumulator that keeps its records sorted incrementally.
pub struct SortedEntries {
    entries: Vec<Entry>,
    others: Vec<Vec<Entry>>,
}

/// The union of a sequence of runs that are all empty is empty.
proof fn lemma_sum_multisets_empty_runs(vs: Seq<Vec<Entry>>)
    requires
        forall|k: int| 0 <= k < vs.len() ==> (#[trigger] vs[k]@).len() == 0,
    ensures
        sum_multisets(run_multisets(vs)) == Multiset::<EntryView>::empty(),
    decreases vs.len(),
{
    if vs.len() == 0 {
        assert(run_multisets(vs) =~= Seq::<Multiset<EntryView>>::empty());
    } else {
        lemma_to_multiset_empty(models(vs[0]@));
        assert(run_multisets(vs).skip(1) =~= run_multisets(vs.skip(1)));
        lemma_sum_multisets_empty_runs(vs.skip(1));
        assert(sum_multisets(run_multisets(vs)) =~= Multiset::<EntryView>::empty());
    }
}

impl SortedEntries {
    /// Internal consistency: the main run and every pending run are sorted.
    pub closed spec fn wf(self) -> bool {
        &&& sorted(models(self.entries@))
        &&& forall|k: int| 0 <= k < self.others@.len() ==> sorted(models(#[trigger] self.others@[k]@))
    }

    /// Every record held, main and pending together.
    pub closed spec fn contents(self) -> Multiset<EntryView> {
        models(self.entries@).to_multiset().add(sum_multisets(run_multisets(self.others@)))
    }

    /// The records of the main run, in order.
    pub closed spec fn main_models(self) -> Seq<EntryView> {
        models(self.entries@)
    }

    /// An empty accumulator.
    pub fn new() -> (r: Self)
        ensures
            r.wf(),
            r.contents() == Multiset::<EntryView>::empty(),
            r.main_models() == Seq::<EntryView>::empty(),
    {
        let r = SortedEntries { entries: Vec::new(), others: Vec::new() };
        proof {
            lemma_to_multiset_empty(models(r.entries@));
            assert(run_multisets(r.others@) =~= Seq::<Multiset<EntryView>>::empty());
            assert(r.contents() =~= Multiset::<EntryView>::empty());
            assert(r.main_models() =~= Seq::<EntryView>::empty());
        }
        r
    }

    /// Adopts a run the caller promises is already sorted; the promise is a
    /// precondition discharged at every call site, not taken on faith.
    pub fn trust_me_bro_this_is_already_sorted(entries: Vec<Entry>) -> (r: Self)
        requires
            sorted(models(entries@)),
        ensures
            r.wf(),
            r.main_models() == models(entries@),
            r.contents() == models(entries@).to_multiset(),
    {
        let r = SortedEntries { entries, others: Vec::new() };
        proof {
            assert(run_multisets(r.others@) =~= Seq::<Multiset<EntryView>>::empty());
            assert(r.contents() =~= models(r.entries@).to_multiset());
        }
        r
    }

    /// Sorts an arriving batch and queues it as a pending run; consolidates
    /// once the pending records outnumber the main run.
    pub fn join(&mut self, other: Vec<Entry>)
        requires
            old(self).wf(),
        ensures
            final(self).wf(),
            final(self).contents() == old(self).contents().add(models(other@).to_multiset()),
    {
        let ghost batch = models(other@).to_multiset();
        let mut other = other;
        sort_entries(&mut other);
        let ghost before_push = *self;
        self.others.push(other);
        proof {
            assert(run_multisets(self.others@) =~= run_multisets(before_push.others@).push(
                models(other@).to_multiset(),
            ));
            lemma_sum_multisets_push(run_multisets(before_push.others@), batch);
            assert(self.contents() =~= old(self).contents().add(batch));
        }
        let main_length = self.entries.len();
        let other_length = self.pending_len();
        if GROWTH_FACTOR * other_length > main_length {
            self.actually_join();
        }
    }

    /// Same operation as `join`, for callers holding a borrowed batch: the
    /// records are copied out of the slice first.
    pub fn join_slice(&mut self, other: &[Entry])
        requires
            old(self).wf(),
        ensures
            final(self).wf(),
            final(self).contents() == old(self).contents().add(models(other@).to_multiset()),
    {
        let mut owned: Vec<Entry> = Vec::new();
        let mut i: usize = 0;
        while i < other.len()
            invariant
                0 <= i <= other@.len(),
                owned@ == other@.take(i as int),
            decreases other@.len() - i,
        {
            owned.push(other[i]);
            proof {
                assert(other@.take(i + 1) =~= other@.take(i as int).push(other@[i as int]));
            }
            i = i + 1;
        }
        proof {
            assert(other@.take(other@.len() as int) =~= other@);
        }
        self.join(owned);
    }

    /// The number of records waiting in pending runs, saturating at the
    /// machine limit.
    fn pending_len(&self) -> (r: usize)
        ensures
            r == 0 ==> forall|k: int| 0 <= k < self.others@.len() ==> (#[trigger] self.others@[k]@).len() == 0,
    {
        let mut total: usize = 0;
        let mut k: usize = 0;
        while k < self.others.len()
            invariant
                0 <= k <= self.others@.len(),
                total == 0 ==> forall|t: int| 0 <= t < k ==> (#[trigger] self.others@[t]@).len() == 0,
            decreases self.others@.len() - k,
        {
            let l = self.others[k].len();
            if total <= usize::MAX - l {
                total = total + l;
            } else {
                total = usize::MAX;
            }
            k = k + 1;
        }
        total
    }

    /// Consolidates: merges the main run and every pending run into a new
    /// main run, emptying the pending list.
    pub fn actually_join(&mut self)
        requires
            old(self).wf(),
        ensures
            final(self).wf(),
            final(self).contents() == old(self).contents(),
            final(self).main_models().to_multiset() == old(self).contents(),
            sorted(final(self).main_models()),
    {
        let other_length = self.pending_len();
        if other_length == 0 {
            proof {
                lemma_sum_multisets_empty_runs(self.others@);
                assert(self.contents() =~= self.main_models().to_multiset());
            }
            return;
        }
        let mut all: Vec<Vec<Entry>> = Vec::new();
        core::mem::swap(&mut self.others, &mut all);
        let mut main: Vec<Entry> = Vec::new();
        core::mem::swap(&mut self.entries, &mut main);
        let ghost old_others = all@;
        let ghost old_main = main@;
        all.push(main);
        let merged = merge_sorted_vecs(all);
        self.entries = merged;
        proof {
            assert(run_multisets(old_others.push(main)) =~= run_multisets(old_others).push(
                models(old_main).to_multiset(),
            ));
            lemma_sum_multisets_push(
                run_multisets(old_others),
                models(old_main).to_multiset(),
            );
            assert(run_multisets(self.others@) =~= Seq::<Multiset<EntryView>>::empty());
            assert(self.contents() =~= old(self).contents());
            assert(self.main_models().to_multiset() =~= old(self).contents());
        }
    }

    /// Finalizes the accumulator into one flat sorted run holding every
    /// record it ever received.
    pub fn into_vec(self) -> (r: Vec<Entry>)
        requires
            self.wf(),
        ensures
            sorted(models(r@)),
            models(r@).to_multiset() == self.contents(),
    {
        let mut this = self;
        this.actually_join();
        this.entries
    }

    /// The length of the main run alone; pending runs are not counted.
    pub fn len(&self) -> (r: usize)
        ensures
            r == self.main_models().len(),
    {
        self.entries.len()
    }
}

} // verus!
