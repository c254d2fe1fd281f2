//! The manager role driver: routes the input records through the bucketer to
//! the workers' accumulators, then collects the 256 buckets in ascending
//! bucket order and concatenates them, which yields a globally sorted output
//! without a final merge step.

use vstd::prelude::*;
use vstd::multiset::Multiset;

use crate::bucketer::RadixDivider;
use crate::codec::{bytes_to_records, decode, encode, lemma_decode_concat, lemma_decode_len,
    lemma_encode_len, lemma_round_trip};
use crate::error::SortError;
use crate::merge::{lemma_sum_multisets_push, lemma_to_multiset_empty, sum_multisets};
use crate::protocol::{data_ok, get_worker, Message};
use crate::record::{all_in_bucket, bucket_of, entry_wf, models, sorted, EntryView};
use crate::worker::Worker;

verus! {

/// The records held in the bucketer, all buckets together.
pub open spec fn divider_total(d: RadixDivider) -> Multiset<EntryView> {
    sum_multisets(Seq::new(256, |b: int| d.bucket(b).to_multiset()))
}

/// Per bucket, the records its owning worker holds for it.
pub open spec fn owner_family(ws: Seq<Worker>, wc: int) -> Seq<Multiset<EntryView>> {
    Seq::new(256, |b: int| ws[b % wc].bucket_contents(b))
}

/// The records the workers hold, counted through each bucket's owner.
pub open spec fn owners_total(ws: Seq<Worker>, wc: int) -> Multiset<EntryView> {
    sum_multisets(owner_family(ws, wc))
}

/// Growing a single component of a family of multisets grows the union by
/// just that difference.
proof fn lemma_sum_pointwise_add(
    ms1: Seq<Multiset<EntryView>>,
    ms2: Seq<Multiset<EntryView>>,
    idx: int,
    delta: Multiset<EntryView>,
)
    requires
        ms1.len() == ms2.len(),
        0 <= idx < ms1.len(),
        ms2[idx] == ms1[idx].add(delta),
        forall|t: int| 0 <= t < ms1.len() && t != idx ==> ms2[t] == ms1[t],
    ensures
        sum_multisets(ms2) == sum_multisets(ms1).add(delta),
    decreases ms1.len(),
{
    if idx == 0 {
        assert(ms1.skip(1) =~= ms2.skip(1));
        assert(ms1[0].add(delta).add(sum_multisets(ms1.skip(1))) =~= ms1[0].add(
            sum_multisets(ms1.skip(1)),
        ).add(delta));
    } else {
        assert(ms1.skip(1)[idx - 1] == ms1[idx]);
        assert(forall|t: int|
            0 <= t < ms1.skip(1).len() && t != idx - 1 ==> ms2.skip(1)[t] == ms1.skip(1)[t]);
        lemma_sum_pointwise_add(ms1.skip(1), ms2.skip(1), idx - 1, delta);
        assert(ms2[0] == ms1[0]);
        assert(ms1[0].add(sum_multisets(ms1.skip(1)).add(delta)) =~= ms1[0].add(
            sum_multisets(ms1.skip(1)),
        ).add(delta));
    }
}

/// The union of the first `n` buckets of the bucketer.
spec fn divider_prefix(d: RadixDivider, n: int) -> Multiset<EntryView> {
    sum_multisets(Seq::new(n as nat, |b: int| d.bucket(b).to_multiset()))
}

/// Sends every bucket's current content to the worker that owns it and
/// resets the bucketer; the records move from the bucketer's account to the
/// workers' without loss or duplication.
fn flush_to_workers(d: &mut RadixDivider, workers: &mut Vec<Worker>, worker_count: usize)
    requires
        old(d).wf(),
        1 <= worker_count <= 0x7fff_ffff,
        old(workers)@.len() == worker_count,
        forall|w: int|
            0 <= w < worker_count
                ==> (#[trigger] old(workers)@[w]).wf() && !old(workers)@[w].finished(),
    ensures
        final(d).wf(),
        final(d).spec_block_size() == old(d).spec_block_size(),
        forall|b: int| 0 <= b < 256 ==> (#[trigger] final(d).bucket(b)).len() == 0,
        final(workers)@.len() == worker_count,
        forall|w: int|
            0 <= w < worker_count
                ==> (#[trigger] final(workers)@[w]).wf() && !final(workers)@[w].finished(),
        owners_total(final(workers)@, worker_count as int) == owners_total(
            old(workers)@,
            worker_count as int,
        ).add(divider_total(*old(d))),
{
    let ghost orig_d = *old(d);
    let ghost orig_ws = old(workers)@;
    let ghost wc = worker_count as int;
    let mut bufs = d.get_delegateable_buffers();
    proof {
        assert(Seq::new(256nat, |b: int| orig_d.bucket(b).to_multiset()) =~= Seq::new(
            256,
            |b: int| orig_d.bucket(b).to_multiset(),
        ));
        assert(divider_prefix(orig_d, 256) == divider_total(orig_d));
    }
    while bufs.len() > 0
        invariant
            bufs@.len() <= 256,
            orig_d.wf(),
            forall|k: int| 0 <= k < bufs@.len() ==> (#[trigger] bufs@[k]).0 == k,
            forall|k: int| 0 <= k < bufs@.len() ==> (#[trigger] bufs@[k]).1@ == encode(
                orig_d.bucket(k),
            ),
            1 <= worker_count <= 0x7fff_ffff,
            wc == worker_count as int,
            workers@.len() == worker_count,
            forall|w: int|
                0 <= w < worker_count ==> (#[trigger] workers@[w]).wf() && !workers@[w].finished(),
            owners_total(workers@, wc).add(divider_prefix(orig_d, bufs@.len() as int))
                == owners_total(orig_ws, wc).add(divider_total(orig_d)),
        decreases bufs@.len(),
    {
        let ghost n = bufs@.len() as int;
        let pair = match bufs.pop() {
            Some(p) => p,
            None => {
                proof {
                    assert(false);
                }
                return ;
            },
        };
        let (b, bytes) = pair;
        let ghost bseq = orig_d.bucket(b as int);
        proof {
            assert(b == n - 1);
            assert(bytes@ == encode(bseq));
            orig_d.lemma_wf_properties();
            assert(all_in_bucket(bseq, b as int));
            assert(forall|t: int| 0 <= t < bseq.len() ==> entry_wf(#[trigger] bseq[t]));
            lemma_encode_len(bseq);
            lemma_round_trip(bseq);
            assert(Seq::new(n as nat, |t: int| orig_d.bucket(t).to_multiset()) =~= Seq::new(
                (n - 1) as nat,
                |t: int| orig_d.bucket(t).to_multiset(),
            ).push(bseq.to_multiset()));
            lemma_sum_multisets_push(
                Seq::new((n - 1) as nat, |t: int| orig_d.bucket(t).to_multiset()),
                bseq.to_multiset(),
            );
            assert(divider_prefix(orig_d, n) == divider_prefix(orig_d, n - 1).add(
                bseq.to_multiset(),
            ));
        }
        if bytes.len() == 0 {
            proof {
                assert(bseq.len() == 0);
                lemma_to_multiset_empty(bseq);
                assert(owners_total(workers@, wc).add(divider_prefix(orig_d, n - 1))
                    =~= owners_total(workers@, wc).add(divider_prefix(orig_d, n)));
            }
        } else {
            let wi = get_worker(b as i32, worker_count as i32);
            let widx = (wi - 1) as usize;
            let ghost ws_before = workers@;
            proof {
                assert(bseq.len() > 0);
                assert(bytes@[0] == bseq[0].key[0]);
                assert(bucket_of(bseq[0]) == b as int);
                assert(bytes@[0] as int == b as int);
                assert(data_ok(bytes@));
                assert(widx as int == b as int % wc);
            }
            let wk = &mut workers[widx];
            let res = wk.handle_message(Message::Data(bytes));
            proof {
                assert(res is Ok);
                let ws_after = workers@;
                let delta = bseq.to_multiset();
                assert(ws_after[widx as int].bucket_contents(b as int) == ws_before[
                    widx as int].bucket_contents(b as int).add(delta));
                assert forall|t: int| 0 <= t < 256 && t != b as int implies owner_family(
                    ws_after,
                    wc,
                )[t] == owner_family(ws_before, wc)[t] by {
                    if t % wc == widx as int {
                        assert(ws_after[t % wc].bucket_contents(t) == ws_before[
                            t % wc].bucket_contents(t));
                    } else {
                        assert(ws_after[t % wc] == ws_before[t % wc]);
                    }
                }
                assert(owner_family(ws_after, wc)[b as int] == owner_family(ws_before, wc)[
                    b as int].add(delta));
                lemma_sum_pointwise_add(
                    owner_family(ws_before, wc),
                    owner_family(ws_after, wc),
                    b as int,
                    delta,
                );
                assert(owners_total(ws_after, wc).add(divider_prefix(orig_d, n - 1))
                    =~= owners_total(ws_before, wc).add(divider_prefix(orig_d, n)));
            }
        }
    }
    proof {
        assert(divider_prefix(orig_d, 0) == Multiset::<EntryView>::empty()) by {
            assert(Seq::new(0nat, |t: int| orig_d.bucket(t).to_multiset())
                =~= Seq::<Multiset<EntryView>>::empty());
        }
        assert(owners_total(workers@, wc).add(Multiset::<EntryView>::empty())
            =~= owners_total(workers@, wc));
    }
}

/// Every record of the sequence is well formed and lies in a bucket below `b`.
spec fn all_below(s: Seq<EntryView>, b: int) -> bool {
    forall|k: int| 0 <= k < s.len() ==> entry_wf(#[trigger] s[k]) && bucket_of(s[k]) < b
}

/// Appending one bucket's sorted records after records of strictly smaller
/// buckets keeps the whole sequence sorted.
proof fn lemma_concat_sorted(x: Seq<EntryView>, y: Seq<EntryView>, b: int)
    requires
        sorted(x),
        all_below(x, b),
        sorted(y),
        all_in_bucket(y, b),
    ensures
        sorted(x + y),
        all_below(x + y, b + 1),
{
    let z = x + y;
    assert forall|i: int, j: int| 0 <= i < j < z.len() implies crate::record::lex_le(
        z[i].key,
        z[j].key,
    ) by {
        if i < x.len() && j >= x.len() {
            assert(z[i] == x[i]);
            assert(z[j] == y[j - x.len()]);
            assert(z[i].key[0] < z[j].key[0]);
            crate::record::lemma_lex_le_first_byte(z[i].key, z[j].key);
        }
    }
}

/// Walks the 256 buckets in ascending order, popping each from its owning
/// worker's result queue in first-in-first-out order, and concatenates the
/// payloads: the per-channel delivery order lines up with the bucket order,
/// so the result is the workers' records, globally sorted.
fn collect_outputs(
    results: &Vec<Vec<(usize, Vec<u8>)>>,
    worker_count: usize,
    Ghost(w_snap): Ghost<Seq<Worker>>,
) -> (out: Vec<u8>)
    requires
        1 <= worker_count <= 0x7fff_ffff,
        results@.len() == worker_count,
        w_snap.len() == worker_count,
        forall|t: int|
            0 <= t < worker_count ==> (#[trigger] w_snap[t]).results_ok(
                results@[t]@,
                t + 1,
                worker_count as int,
            ),
    ensures
        out@.len() % 100 == 0,
        sorted(decode(out@)),
        decode(out@).to_multiset() == owners_total(w_snap, worker_count as int),
{
    let ghost wc = worker_count as int;
    let mut out: Vec<u8> = Vec::new();
    let mut cursors: Vec<usize> = Vec::new();
    while cursors.len() < worker_count
        invariant
            cursors@.len() <= worker_count,
            forall|t: int| 0 <= t < cursors@.len() ==> cursors@[t] == 0,
        decreases worker_count - cursors@.len(),
    {
        cursors.push(0);
    }
    let mut b: usize = 0;
    proof {
        lemma_to_multiset_empty(decode(out@));
        assert(owner_family(w_snap, wc).take(0) =~= Seq::<Multiset<EntryView>>::empty());
    }
    while b < 256
        invariant
            0 <= b <= 256,
            1 <= worker_count <= 0x7fff_ffff,
            wc == worker_count as int,
            cursors@.len() == worker_count,
            results@.len() == worker_count,
            w_snap.len() == worker_count,
            forall|t: int|
                0 <= t < worker_count ==> (#[trigger] w_snap[t]).results_ok(
                    results@[t]@,
                    t + 1,
                    wc,
                ),
            forall|t: int| 0 <= t < worker_count ==> b <= t + (#[trigger] cursors@[t]) * wc < b
                + wc,
            out@.len() % 100 == 0,
            sorted(decode(out@)),
            all_below(decode(out@), b as int),
            decode(out@).to_multiset() == sum_multisets(owner_family(w_snap, wc).take(b as int)),
        decreases 256 - b,
    {
        let wi = get_worker(b as i32, worker_count as i32);
        let widx = (wi - 1) as usize;
        let k = cursors[widx];
        proof {
            assert(widx as int == b as int % wc);
            let v = widx as int + (k as int) * wc;
            assert(b <= v < b + wc);
            assert(v % wc == widx as int) by {
                vstd::arithmetic::div_mod::lemma_mod_multiples_vanish(
                    k as int,
                    widx as int,
                    wc,
                );
                vstd::arithmetic::div_mod::lemma_small_mod(widx as nat, wc as nat);
                assert(wc * (k as int) == (k as int) * wc) by (nonlinear_arith);
            }
            assert(v == b) by {
                let d = v - (b as int);
                assert(0 <= d < wc);
                assert((b as int + d) % wc == (b as int) % wc);
                assert(d == 0) by (nonlinear_arith)
                    requires
                        0 <= d < wc,
                        ((b as int) + d) % wc == (b as int) % wc,
                        wc > 0,
                ;
            }
            let row = results@[widx as int]@;
            assert(w_snap[widx as int].results_ok(row, widx as int + 1, wc));
            assert(widx as int + row.len() * wc >= 256);
            assert((k as int) < row.len()) by (nonlinear_arith)
                requires
                    widx as int + (k as int) * wc < 256,
                    widx as int + row.len() * wc >= 256,
                    wc > 0,
            ;
            assert(row[k as int].0 == widx as int + (k as int) * wc);
            assert(row[k as int].0 == b as int);
            assert(k as int <= 255) by (nonlinear_arith)
                requires
                    (widx as int) + (k as int) * wc < 256,
                    wc >= 1,
                    k >= 0,
                    widx as int >= 0,
            ;
        }
        let row = &results[widx];
        let payload = &row[k].1;
        let ghost prev = out@;
        let mut t: usize = 0;
        while t < payload.len()
            invariant
                0 <= t <= payload@.len(),
                out@ == prev + payload@.take(t as int),
            decreases payload@.len() - t,
        {
            out.push(payload[t]);
            proof {
                assert(out@ =~= prev + payload@.take(t + 1));
            }
            t = t + 1;
        }
        proof {
            assert(out@ =~= prev + payload@);
            let x = decode(prev);
            let y = decode(payload@);
            lemma_decode_concat(prev, payload@);
            assert(decode(out@) == x + y);
            lemma_concat_sorted(x, y, b as int);
            vstd::seq_lib::lemma_multiset_commutative(x, y);
            assert(owner_family(w_snap, wc).take(b + 1) =~= owner_family(w_snap, wc).take(
                b as int,
            ).push(owner_family(w_snap, wc)[b as int]));
            lemma_sum_multisets_push(
                owner_family(w_snap, wc).take(b as int),
                owner_family(w_snap, wc)[b as int],
            );
            assert(owner_family(w_snap, wc)[b as int] == y.to_multiset());
            assert(decode(out@).to_multiset() == sum_multisets(
                owner_family(w_snap, wc).take(b + 1),
            ));
        }
        let cslot = &mut cursors[widx];
        *cslot = k + 1;
        proof {
            assert forall|r: int| 0 <= r < worker_count implies (b + 1) <= r
                + (#[trigger] cursors@[r]) * wc < (b + 1) + wc by {
                if r == widx as int {
                    assert(cursors@[r] == k + 1);
                    assert(r + (k + 1) * wc == (b as int) + wc) by (nonlinear_arith)
                        requires
                            r + (k as int) * wc == b as int,
                    ;
                } else {
                    let v = r + cursors@[r] * wc;
                    assert(b <= v < b + wc);
                    assert(v % wc == r) by {
                        vstd::arithmetic::div_mod::lemma_mod_multiples_vanish(
                            cursors@[r] as int,
                            r,
                            wc,
                        );
                        vstd::arithmetic::div_mod::lemma_small_mod(r as nat, wc as nat);
                        assert(wc * (cursors@[r] as int) == (cursors@[r] as int) * wc) by (nonlinear_arith);
                    }
                    assert(v != b);
                }
            }
        }
        b = b + 1;
    }
    proof {
        assert(owner_family(w_snap, wc).take(256) =~= owner_family(w_snap, wc));
    }
    out
}

/// Runs the whole distributed sort over an in-memory record file: the manager
/// buckets the records and streams them to the owning workers, every worker
/// sorts its buckets incrementally, and the manager collects the buckets in
/// ascending order. Succeeds exactly on a whole-record input; the output then
/// holds exactly the input's records, globally sorted, in the same number of
/// bytes.
pub fn distributed_sort(input: &Vec<u8>, worker_count: usize, block_size: usize) -> (r: Result<
    Vec<u8>,
    SortError,
>)
    requires
        1 <= worker_count <= 0x7fff_ffff,
        1 <= block_size <= usize::MAX / 2,
    ensures
        r is Ok <==> input@.len() % 100 == 0,
        r matches Err(e) ==> e == SortError::UnalignedInput,
        r matches Ok(out) ==> out@.len() == input@.len(),
        r matches Ok(out) ==> sorted(decode(out@)),
        r matches Ok(out) ==> decode(out@).to_multiset() == decode(input@).to_multiset(),
{
    let ghost wc = worker_count as int;
    let records = match bytes_to_records(input) {
        Ok(v) => v,
        Err(e) => {
            return Err(e);
        },
    };
    let mut divider = RadixDivider::new(block_size);
    let mut workers: Vec<Worker> = Vec::new();
    while workers.len() < worker_count
        invariant
            workers@.len() <= worker_count,
            forall|w: int|
                0 <= w < workers@.len() ==> (#[trigger] workers@[w]).wf()
                    && !workers@[w].finished() && forall|b: int|
                    0 <= b < 256 ==> #[trigger] workers@[w].bucket_contents(b)
                        == Multiset::<EntryView>::empty(),
        decreases worker_count - workers@.len(),
    {
        workers.push(Worker::new());
    }
    proof {
        lemma_owners_total_empty(workers@, wc);
        lemma_divider_total_empty(divider);
        lemma_to_multiset_empty(models(records@.take(0)));
        assert(models(records@.take(0)).to_multiset() =~= divider_total(divider).add(
            owners_total(workers@, wc),
        ));
    }
    let mut i: usize = 0;
    while i < records.len()
        invariant
            0 <= i <= records@.len(),
            1 <= worker_count <= 0x7fff_ffff,
            wc == worker_count as int,
            divider.wf(),
            workers@.len() == worker_count,
            forall|w: int|
                0 <= w < worker_count ==> (#[trigger] workers@[w]).wf()
                    && !workers@[w].finished(),
            models(records@.take(i as int)).to_multiset() == divider_total(divider).add(
                owners_total(workers@, wc),
            ),
        decreases records@.len() - i,
    {
        let e = records[i];
        let ghost d_pre = divider;
        let res = divider.push(&e);
        if res.is_err() {
            let ghost d1 = divider;
            let ghost ws1 = workers@;
            flush_to_workers(&mut divider, &mut workers, worker_count);
            proof {
                lemma_divider_total_empty(divider);
                assert(divider_total(divider).add(owners_total(workers@, wc))
                    =~= divider_total(d1).add(owners_total(ws1, wc)));
            }
            let ghost d_pre2 = divider;
            let ghost ot2 = owners_total(workers@, wc);
            let res2 = divider.push(&e);
            proof {
                divider.lemma_wf_properties();
                assert(res2 is Ok);
                broadcast use crate::record::lemma_entry_wf;

                lemma_divider_total_push(d_pre2, divider, e@);
                assert(divider_total(divider).add(ot2) =~= divider_total(d_pre2).add(
                    ot2,
                ).insert(e@));
            }
        } else {
            proof {
                broadcast use crate::record::lemma_entry_wf;

                lemma_divider_total_push(d_pre, divider, e@);
                assert(divider_total(divider).add(owners_total(workers@, wc)) =~= divider_total(
                    d_pre,
                ).add(owners_total(workers@, wc)).insert(e@));
            }
        }
        proof {
            assert(models(records@.take(i + 1)) =~= models(records@.take(i as int)).push(e@));
            broadcast use vstd::seq_lib::group_to_multiset_ensures;

            assert(models(records@.take(i + 1)).to_multiset() =~= models(
                records@.take(i as int),
            ).to_multiset().insert(e@));
            assert(models(records@.take(i + 1)).to_multiset() == divider_total(divider).add(
                owners_total(workers@, wc),
            ));
        }
        if divider.ready_to_delegate() {
            let ghost d2 = divider;
            let ghost ws2 = workers@;
            flush_to_workers(&mut divider, &mut workers, worker_count);
            proof {
                lemma_divider_total_empty(divider);
                assert(divider_total(divider).add(owners_total(workers@, wc))
                    =~= divider_total(d2).add(owners_total(ws2, wc)));
            }
        }
        i = i + 1;
    }
    let ghost d3 = divider;
    let ghost ws3 = workers@;
    flush_to_workers(&mut divider, &mut workers, worker_count);
    proof {
        lemma_divider_total_empty(divider);
        assert(records@.take(records@.len() as int) =~= records@);
        assert(owners_total(workers@, wc) =~= models(records@).to_multiset()) by {
            assert(divider_total(divider).add(owners_total(workers@, wc)) =~= divider_total(
                d3,
            ).add(owners_total(ws3, wc)));
        }
    }
    // Close every worker's channel; nothing they hold changes.
    let mut w: usize = 0;
    while w < worker_count
        invariant
            0 <= w <= worker_count,
            1 <= worker_count <= 0x7fff_ffff,
            wc == worker_count as int,
            workers@.len() == worker_count,
            forall|t: int| 0 <= t < w ==> (#[trigger] workers@[t]).wf(),
            forall|t: int| w <= t < worker_count ==> (#[trigger] workers@[t]).wf()
                && !workers@[t].finished(),
            owners_total(workers@, wc) == models(records@).to_multiset(),
        decreases worker_count - w,
    {
        let ghost ws_before = workers@;
        let wk = &mut workers[w];
        let res = wk.handle_message(Message::EndOfStream);
        proof {
            assert(res is Ok);
            assert(owner_family(workers@, wc) =~= owner_family(ws_before, wc));
        }
        w = w + 1;
    }
    // Every worker finalizes and ships its owned buckets.
    let ghost w_snap = workers@;
    let mut results: Vec<Vec<(usize, Vec<u8>)>> = Vec::new();
    let mut rank: usize = 1;
    while workers.len() > 0
        invariant
            1 <= worker_count <= 0x7fff_ffff,
            wc == worker_count as int,
            w_snap.len() == worker_count,
            results@.len() + workers@.len() == worker_count,
            rank == results@.len() + 1,
            workers@ == w_snap.skip(results@.len() as int),
            forall|t: int| 0 <= t < w_snap.len() ==> (#[trigger] w_snap[t]).wf(),
            forall|t: int|
                0 <= t < results@.len() ==> (#[trigger] w_snap[t]).results_ok(
                    results@[t]@,
                    t + 1,
                    wc,
                ),
        decreases workers@.len(),
    {
        let ghost done = results@.len() as int;
        let wk = workers.remove(0);
        proof {
            assert(wk == w_snap[done]);
            assert(workers@ =~= w_snap.skip(done + 1));
        }
        let out = wk.finish(rank, worker_count);
        results.push(out);
        rank = rank + 1;
    }
    // Collect the buckets in ascending order and concatenate.
    let out_bytes = collect_outputs(&results, worker_count, Ghost(w_snap));
    proof {
        broadcast use vstd::seq_lib::group_to_multiset_ensures;

        assert(decode(out_bytes@).to_multiset() == decode(input@).to_multiset()) by {
            assert(models(records@) == decode(input@));
        }
        assert(decode(out_bytes@).len() == decode(input@).len()) by {
            assert(decode(out_bytes@).len() == decode(out_bytes@).to_multiset().len());
            assert(decode(input@).len() == decode(input@).to_multiset().len());
        }
        lemma_decode_len(out_bytes@);
        lemma_decode_len(input@);
    }
    Ok(out_bytes)
}

/// Sorting an already-sorted file returns the identical file: a sorted
/// output that holds the same records as a sorted input with collision-free
/// keys is that input, byte for byte. Two records sharing a key but not a
/// payload may swap places, which is why the keys must be distinct here.
pub proof fn lemma_sort_idempotent(input: Seq<u8>, output: Seq<u8>)
    requires
        input.len() % 100 == 0,
        output.len() % 100 == 0,
        sorted(decode(input)),
        sorted(decode(output)),
        decode(output).to_multiset() == decode(input).to_multiset(),
        crate::merge::distinct_keys(decode(input)),
    ensures
        output == input,
{
    lemma_decode_len(input);
    crate::merge::lemma_sorted_unique(decode(input), decode(output));
    crate::codec::lemma_encode_decode(input);
    crate::codec::lemma_encode_decode(output);
}

/// An emptied bucketer accounts for no records.
proof fn lemma_divider_prefix_empty(d: RadixDivider, n: int)
    requires
        0 <= n <= 256,
        forall|b: int| 0 <= b < 256 ==> (#[trigger] d.bucket(b)).len() == 0,
    ensures
        divider_prefix(d, n) == Multiset::<EntryView>::empty(),
    decreases n,
{
    if n > 0 {
        lemma_divider_prefix_empty(d, n - 1);
        assert(Seq::new(n as nat, |b: int| d.bucket(b).to_multiset()) =~= Seq::new(
            (n - 1) as nat,
            |b: int| d.bucket(b).to_multiset(),
        ).push(d.bucket(n - 1).to_multiset()));
        lemma_sum_multisets_push(
            Seq::new((n - 1) as nat, |b: int| d.bucket(b).to_multiset()),
            d.bucket(n - 1).to_multiset(),
        );
        lemma_to_multiset_empty(d.bucket(n - 1));
        assert(divider_prefix(d, n - 1).add(Multiset::<EntryView>::empty())
            =~= Multiset::<EntryView>::empty());
    } else {
        assert(Seq::new(0nat, |b: int| d.bucket(b).to_multiset())
            =~= Seq::<Multiset<EntryView>>::empty());
    }
}

proof fn lemma_divider_total_empty(d: RadixDivider)
    requires
        forall|b: int| 0 <= b < 256 ==> (#[trigger] d.bucket(b)).len() == 0,
    ensures
        divider_total(d) == Multiset::<EntryView>::empty(),
{
    lemma_divider_prefix_empty(d, 256);
    assert(Seq::new(256nat, |b: int| d.bucket(b).to_multiset()) =~= Seq::new(
        256,
        |b: int| d.bucket(b).to_multiset(),
    ));
}

/// Workers that hold nothing account for nothing.
proof fn lemma_owners_prefix_empty(ws: Seq<Worker>, wc: int, n: int)
    requires
        0 <= n <= 256,
        wc >= 1,
        ws.len() == wc,
        forall|w: int, b: int|
            0 <= w < ws.len() && 0 <= b < 256 ==> #[trigger] ws[w].bucket_contents(b)
                == Multiset::<EntryView>::empty(),
    ensures
        sum_multisets(owner_family(ws, wc).take(n)) == Multiset::<EntryView>::empty(),
    decreases n,
{
    if n > 0 {
        lemma_owners_prefix_empty(ws, wc, n - 1);
        assert(owner_family(ws, wc).take(n) =~= owner_family(ws, wc).take(n - 1).push(
            owner_family(ws, wc)[n - 1],
        ));
        lemma_sum_multisets_push(owner_family(ws, wc).take(n - 1), owner_family(ws, wc)[n - 1]);
        vstd::arithmetic::div_mod::lemma_mod_division_less_than_divisor(n - 1, wc);
        assert(owner_family(ws, wc)[n - 1] == ws[(n - 1) % wc].bucket_contents(n - 1));
        assert(Multiset::<EntryView>::empty().add(Multiset::<EntryView>::empty())
            =~= Multiset::<EntryView>::empty());
    } else {
        assert(owner_family(ws, wc).take(0) =~= Seq::<Multiset<EntryView>>::empty());
    }
}

proof fn lemma_owners_total_empty(ws: Seq<Worker>, wc: int)
    requires
        wc >= 1,
        ws.len() == wc,
        forall|w: int, b: int|
            0 <= w < ws.len() && 0 <= b < 256 ==> #[trigger] ws[w].bucket_contents(b)
                == Multiset::<EntryView>::empty(),
    ensures
        owners_total(ws, wc) == Multiset::<EntryView>::empty(),
{
    lemma_owners_prefix_empty(ws, wc, 256);
    assert(owner_family(ws, wc).take(256) =~= owner_family(ws, wc));
}

/// Pushing one record into its bucket adds exactly that record to the
/// bucketer's account.
proof fn lemma_divider_total_push(d1: RadixDivider, d2: RadixDivider, e: EntryView)
    requires
        entry_wf(e),
        d2.bucket(bucket_of(e)) == d1.bucket(bucket_of(e)).push(e),
        forall|b: int|
            0 <= b < 256 && b != bucket_of(e) ==> #[trigger] d2.bucket(b) == d1.bucket(b),
    ensures
        divider_total(d2) == divider_total(d1).insert(e),
{
    broadcast use vstd::seq_lib::group_to_multiset_ensures;

    let b0 = bucket_of(e);
    assert(0 <= b0 < 256);
    let f1 = Seq::new(256, |b: int| d1.bucket(b).to_multiset());
    let f2 = Seq::new(256, |b: int| d2.bucket(b).to_multiset());
    let single = Multiset::<EntryView>::empty().insert(e);
    assert(f2[b0] == f1[b0].add(single)) by {
        assert(d2.bucket(b0).to_multiset() =~= d1.bucket(b0).to_multiset().insert(e));
        assert(d1.bucket(b0).to_multiset().insert(e) =~= d1.bucket(b0).to_multiset().add(single));
    }
    assert(forall|t: int| 0 <= t < 256 && t != b0 ==> f2[t] == f1[t]);
    lemma_sum_pointwise_add(f1, f2, b0, single);
    assert(divider_total(d1).add(single) =~= divider_total(d1).insert(e));
}

} // verus!
