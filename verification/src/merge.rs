//! Sorting and merging of record runs: an in-place insertion sort for newly
//! arrived batches and a multi-way merge of sorted runs.

use vstd::prelude::*;
use vstd::multiset::Multiset;

use crate::record::{entry_le, lemma_lex_le_total, lemma_lex_le_trans, lex_le, models, sorted, Entry, EntryView};

verus! {

/// The union of a sequence of multisets.
pub open spec fn sum_multisets(ms: Seq<Multiset<EntryView>>) -> Multiset<EntryView>
    decreases ms.len(),
{
    if ms.len() == 0 {
        Multiset::empty()
    } else {
        ms[0].add(sum_multisets(ms.skip(1)))
    }
}

/// The multisets of the record models of a sequence of runs.
pub open spec fn run_multisets(vs: Seq<Vec<Entry>>) -> Seq<Multiset<EntryView>> {
    Seq::new(vs.len(), |k: int| models(vs[k]@).to_multiset())
}

/// Summing one more multiset adds it to the union.
pub proof fn lemma_sum_multisets_push(ms: Seq<Multiset<EntryView>>, m: Multiset<EntryView>)
    ensures
        sum_multisets(ms.push(m)) == sum_multisets(ms).add(m),
    decreases ms.len(),
{
    if ms.len() == 0 {
        assert(ms.push(m).skip(1) =~= Seq::<Multiset<EntryView>>::empty());
        assert(sum_multisets(Seq::<Multiset<EntryView>>::empty())
            == Multiset::<EntryView>::empty());
        assert(ms.push(m)[0] == m);
        assert(m.add(Multiset::<EntryView>::empty()) =~= m);
        assert(Multiset::<EntryView>::empty().add(m) =~= m);
        assert(sum_multisets(ms.push(m)) =~= sum_multisets(ms).add(m));
    } else {
        assert(ms.push(m).skip(1) =~= ms.skip(1).push(m));
        lemma_sum_multisets_push(ms.skip(1), m);
        assert(sum_multisets(ms.push(m)) =~= sum_multisets(ms).add(m));
    }
}

/// A record sequence of length zero carries the empty multiset.
pub proof fn lemma_to_multiset_empty(s: Seq<EntryView>)
    requires
        s.len() == 0,
    ensures
        s.to_multiset() == Multiset::<EntryView>::empty(),
{
    broadcast use vstd::seq_lib::group_to_multiset_ensures;
    vstd::multiset::lemma_multiset_empty_len(s.to_multiset());
}

/// Sorts a batch of records in place by key.
pub fn sort_entries(v: &mut Vec<Entry>)
    ensures
        final(v)@.len() == old(v)@.len(),
        sorted(models(final(v)@)),
        models(final(v)@).to_multiset() == models(old(v)@).to_multiset(),
{
    let ghost orig = v@;
    if v.len() == 0 {
        return;
    }
    let mut i: usize = 1;
    while i < v.len()
        invariant
            1 <= i <= v@.len(),
            v@.len() == orig.len(),
            sorted(models(v@).take(i as int)),
            models(v@).to_multiset() == models(orig).to_multiset(),
        decreases v@.len() - i,
    {
        let ghost before = v@;
        let e = v[i];
        let mut p: usize = i;
        while p > 0 && !entry_le(&v[p - 1], &e)
            invariant
                0 <= p <= i < v@.len(),
                v@ == before,
                e == before[i as int],
                forall|q: int| p <= q < i ==> lex_le_of(e@, #[trigger] models(v@)[q]),
            decreases p,
        {
            proof {
                lemma_lex_le_total(v@[p - 1]@.key, e@.key);
            }
            p = p - 1;
        }
        proof {
            // Everything before the insertion point sorts no later than `e`.
            if p > 0 {
                let pre = models(before).take(i as int);
                assert forall|q: int| 0 <= q < p implies lex_le_of(
                    #[trigger] models(before)[q],
                    e@,
                ) by {
                    if q < p - 1 {
                        assert(lex_le_of(pre[q], pre[p - 1]));
                        lemma_lex_le_trans(before[q]@.key, before[p - 1]@.key, e@.key);
                    }
                }
            }
        }
        let removed = v.remove(i);
        v.insert(p, removed);
        proof {
            let m_before = models(before);
            let m_after = models(v@);
            assert(v@ == before.remove(i as int).insert(p as int, e));
            assert(m_after =~= m_before.remove(i as int).insert(p as int, e@));
            // Multiset preservation: remove then insert of the same element.
            broadcast use vstd::seq_lib::group_to_multiset_ensures;
            assert(m_before.remove(i as int).to_multiset() == m_before.to_multiset().remove(
                m_before[i as int],
            ));
            assert(m_after.to_multiset() == m_before.remove(i as int).to_multiset().insert(e@))
                by {
                assert(m_after == m_before.remove(i as int).insert(p as int, e@));
            }
            assert(m_before.to_multiset().contains(e@)) by {
                assert(m_before[i as int] == e@);
            }
            assert(m_after.to_multiset() =~= m_before.to_multiset());
            // Sortedness of the extended prefix.
            let pre = m_before.take(i as int);
            let post = m_after.take(i + 1);
            assert(post =~= pre.insert(p as int, e@));
            assert forall|a: int, b: int| 0 <= a < b < post.len() implies lex_le_of(
                post[a],
                post[b],
            ) by {
                lemma_sorted_insert_pair(pre, e@, p as int, a, b);
            }
            assert(sorted(post));
        }
        i = i + 1;
    }
    proof {
        assert(models(v@).take(v@.len() as int) =~= models(v@));
    }
}

/// `a` sorts no later than `b`.
pub open spec fn lex_le_of(a: EntryView, b: EntryView) -> bool {
    crate::record::lex_le(a.key, b.key)
}

/// Helper for insertion: an element ordered against both sides of the split
/// keeps the sequence sorted when inserted there.
proof fn lemma_sorted_insert_pair(pre: Seq<EntryView>, e: EntryView, p: int, a: int, b: int)
    requires
        sorted(pre),
        0 <= p <= pre.len(),
        forall|q: int| 0 <= q < p ==> lex_le_of(#[trigger] pre[q], e),
        forall|q: int| p <= q < pre.len() ==> lex_le_of(e, #[trigger] pre[q]),
        0 <= a < b < pre.len() + 1,
    ensures
        lex_le_of(pre.insert(p, e)[a], pre.insert(p, e)[b]),
{
    let s = pre.insert(p, e);
    assert(forall|q: int| 0 <= q < p ==> s[q] == pre[q]);
    assert(s[p] == e);
    assert(forall|q: int| p < q < s.len() ==> s[q] == pre[q - 1]);
    if a < p && b > p {
        lemma_lex_le_trans(pre[a].key, e.key, pre[b - 1].key);
    }
}

/// No two records of the sequence share a key.
pub open spec fn distinct_keys(s: Seq<EntryView>) -> bool {
    forall|i: int, j: int| 0 <= i < j < s.len() ==> (#[trigger] s[i]).key != (#[trigger] s[j]).key
}

/// Sorting is idempotent on collision-free keys: a sorted sequence is the
/// only sorted arrangement of its records, so re-partitioning and re-sorting
/// an already-sorted file with pairwise distinct keys reproduces it exactly.
/// With duplicate keys the records that share one may come back in either
/// order.
pub proof fn lemma_sorted_unique(a: Seq<EntryView>, b: Seq<EntryView>)
    requires
        sorted(a),
        sorted(b),
        a.to_multiset() == b.to_multiset(),
        distinct_keys(a),
        forall|k: int| 0 <= k < a.len() ==> crate::record::entry_wf(#[trigger] a[k]),
    ensures
        a == b,
    decreases a.len(),
{
    broadcast use vstd::seq_lib::group_to_multiset_ensures;

    if a.len() == 0 {
        assert(b.to_multiset().len() == b.len());
        assert(a.to_multiset().len() == a.len());
        assert(a =~= b);
    } else {
        assert(a.to_multiset().len() == a.len());
        assert(b.to_multiset().len() == b.len());
        assert(b.len() == a.len());
        assert(b.contains(b[0]));
        assert(a.to_multiset().count(b[0]) > 0);
        assert(a.contains(b[0]));
        let i = choose|i: int| 0 <= i < a.len() && a[i] == b[0];
        assert(a.contains(a[0]));
        assert(b.to_multiset().count(a[0]) > 0);
        assert(b.contains(a[0]));
        let j = choose|j: int| 0 <= j < b.len() && b[j] == a[0];
        assert(a[0] == b[0]) by {
            if i != 0 && j != 0 {
                assert(lex_le(a[0].key, a[i].key));
                assert(lex_le(b[0].key, b[j].key));
                crate::record::lemma_lex_le_antisym(a[0].key, b[0].key);
                assert(a[0].key == a[i].key);
                assert(false);
            }
        }
        let at = a.remove(0);
        let bt = b.remove(0);
        assert(at.to_multiset() == a.to_multiset().remove(a[0]));
        assert(bt.to_multiset() == b.to_multiset().remove(b[0]));
        assert(forall|x: int| 0 <= x < at.len() ==> #[trigger] at[x] == a[x + 1]);
        assert(forall|x: int| 0 <= x < bt.len() ==> #[trigger] bt[x] == b[x + 1]);
        assert(sorted(at));
        assert(sorted(bt));
        assert(distinct_keys(at));
        assert(forall|k: int| 0 <= k < at.len() ==> crate::record::entry_wf(#[trigger] at[k]));
        lemma_sorted_unique(at, bt);
        assert forall|x: int| 0 <= x < a.len() implies a[x] == b[x] by {
            if x > 0 {
                assert(a[x] == at[x - 1]);
                assert(b[x] == bt[x - 1]);
            }
        }
        assert(a =~= b);
    }
}

/// Merges two sorted runs into one sorted run holding exactly the records of
/// both.
pub fn merge_two(a: &Vec<Entry>, b: &Vec<Entry>) -> (r: Vec<Entry>)
    requires
        sorted(models(a@)),
        sorted(models(b@)),
    ensures
        r@.len() == a@.len() + b@.len(),
        sorted(models(r@)),
        models(r@).to_multiset() == models(a@).to_multiset().add(models(b@).to_multiset()),
{
    let mut r: Vec<Entry> = Vec::new();
    let mut i: usize = 0;
    let mut j: usize = 0;
    proof {
        lemma_to_multiset_empty(models(r@));
        lemma_to_multiset_empty(models(a@.take(0)));
        lemma_to_multiset_empty(models(b@.take(0)));
        assert(models(r@).to_multiset() =~= models(a@.take(0)).to_multiset().add(
            models(b@.take(0)).to_multiset(),
        ));
    }
    while i < a.len() || j < b.len()
        invariant
            0 <= i <= a@.len(),
            0 <= j <= b@.len(),
            sorted(models(a@)),
            sorted(models(b@)),
            r@.len() == i + j,
            sorted(models(r@)),
            models(r@).to_multiset() == models(a@.take(i as int)).to_multiset().add(
                models(b@.take(j as int)).to_multiset(),
            ),
            forall|q: int, t: int|
                0 <= q < r@.len() && i <= t < a@.len() ==> lex_le_of(
                    #[trigger] models(r@)[q],
                    #[trigger] models(a@)[t],
                ),
            forall|q: int, t: int|
                0 <= q < r@.len() && j <= t < b@.len() ==> lex_le_of(
                    #[trigger] models(r@)[q],
                    #[trigger] models(b@)[t],
                ),
        decreases a@.len() - i + b@.len() - j,
    {
        let from_a = if i < a.len() {
            if j < b.len() {
                entry_le(&a[i], &b[j])
            } else {
                true
            }
        } else {
            false
        };
        let ghost r_old = r@;
        if from_a {
            let e = a[i];
            r.push(e);
            proof {
                broadcast use vstd::seq_lib::group_to_multiset_ensures;
                assert(a@.take(i + 1) =~= a@.take(i as int).push(e));
                assert(models(a@.take(i + 1)) =~= models(a@.take(i as int)).push(e@));
                assert(models(r@) =~= models(r_old).push(e@));
                assert(models(a@)[i as int] == e@);
                lemma_add_insert_left(
                    models(a@.take(i as int)).to_multiset(),
                    models(b@.take(j as int)).to_multiset(),
                    e@,
                );
                // `e` sorts no later than everything still unmerged.
                assert forall|t: int| i + 1 <= t < a@.len() implies lex_le_of(
                    e@,
                    #[trigger] models(a@)[t],
                ) by {
                    assert(lex_le_of(models(a@)[i as int], models(a@)[t]));
                }
                assert forall|t: int| j <= t < b@.len() implies lex_le_of(
                    e@,
                    #[trigger] models(b@)[t],
                ) by {
                    lemma_lex_le_total(a@[i as int]@.key, b@[j as int]@.key);
                    if t > j {
                        assert(lex_le_of(models(b@)[j as int], models(b@)[t]));
                        lemma_lex_le_trans(e@.key, b@[j as int]@.key, b@[t]@.key);
                    }
                }
                assert forall|q: int, t: int|
                    0 <= q < r@.len() && i + 1 <= t < a@.len() implies lex_le_of(
                    #[trigger] models(r@)[q],
                    #[trigger] models(a@)[t],
                ) by {
                    if q < r_old.len() {
                        assert(models(r@)[q] == models(r_old)[q]);
                    }
                }
                assert(sorted(models(r@))) by {
                    assert forall|x: int, y: int| 0 <= x < y < r@.len() implies lex_le_of(
                        models(r@)[x],
                        models(r@)[y],
                    ) by {
                        if y < r_old.len() {
                            assert(lex_le_of(models(r_old)[x], models(r_old)[y]));
                        } else {
                            assert(models(r@)[y] == e@);
                            assert(lex_le_of(models(r_old)[x], models(a@)[i as int]));
                        }
                    }
                }
            }
            i = i + 1;
        } else {
            let e = b[j];
            r.push(e);
            proof {
                broadcast use vstd::seq_lib::group_to_multiset_ensures;
                assert(b@.take(j + 1) =~= b@.take(j as int).push(e));
                assert(models(b@.take(j + 1)) =~= models(b@.take(j as int)).push(e@));
                assert(models(r@) =~= models(r_old).push(e@));
                assert(models(b@)[j as int] == e@);
                lemma_add_insert_right(
                    models(a@.take(i as int)).to_multiset(),
                    models(b@.take(j as int)).to_multiset(),
                    e@,
                );
                assert forall|t: int| j + 1 <= t < b@.len() implies lex_le_of(
                    e@,
                    #[trigger] models(b@)[t],
                ) by {
                    assert(lex_le_of(models(b@)[j as int], models(b@)[t]));
                }
                assert forall|t: int| i <= t < a@.len() implies lex_le_of(
                    e@,
                    #[trigger] models(a@)[t],
                ) by {
                    lemma_lex_le_total(a@[i as int]@.key, b@[j as int]@.key);
                    if t > i {
                        assert(lex_le_of(models(a@)[i as int], models(a@)[t]));
                        lemma_lex_le_trans(e@.key, a@[i as int]@.key, a@[t]@.key);
                    }
                }
                assert forall|q: int, t: int|
                    0 <= q < r@.len() && j + 1 <= t < b@.len() implies lex_le_of(
                    #[trigger] models(r@)[q],
                    #[trigger] models(b@)[t],
                ) by {
                    if q < r_old.len() {
                        assert(models(r@)[q] == models(r_old)[q]);
                    }
                }
                assert(sorted(models(r@))) by {
                    assert forall|x: int, y: int| 0 <= x < y < r@.len() implies lex_le_of(
                        models(r@)[x],
                        models(r@)[y],
                    ) by {
                        if y < r_old.len() {
                            assert(lex_le_of(models(r_old)[x], models(r_old)[y]));
                        } else {
                            assert(models(r@)[y] == e@);
                            assert(lex_le_of(models(r_old)[x], models(b@)[j as int]));
                        }
                    }
                }
            }
            j = j + 1;
        }
    }
    proof {
        assert(a@.take(a@.len() as int) =~= a@);
        assert(b@.take(b@.len() as int) =~= b@);
    }
    r
}

/// Adding an element on the left of a multiset union.
proof fn lemma_add_insert_left(x: Multiset<EntryView>, y: Multiset<EntryView>, e: EntryView)
    ensures
        x.insert(e).add(y) == x.add(y).insert(e),
{
    assert(x.insert(e).add(y) =~= x.add(y).insert(e));
}

/// Adding an element on the right of a multiset union.
proof fn lemma_add_insert_right(x: Multiset<EntryView>, y: Multiset<EntryView>, e: EntryView)
    ensures
        x.add(y.insert(e)) == x.add(y).insert(e),
{
    assert(x.add(y.insert(e)) =~= x.add(y).insert(e));
}

/// Merges any number of sorted runs into one sorted run holding exactly the
/// records of all of them, consolidating run by run.
pub fn merge_sorted_vecs(vecs: Vec<Vec<Entry>>) -> (r: Vec<Entry>)
    requires
        forall|k: int| 0 <= k < vecs@.len() ==> sorted(models(#[trigger] vecs@[k]@)),
    ensures
        sorted(models(r@)),
        models(r@).to_multiset() == sum_multisets(run_multisets(vecs@)),
{
    let mut r: Vec<Entry> = Vec::new();
    let mut k: usize = 0;
    proof {
        assert(run_multisets(vecs@.take(0)) =~= Seq::<Multiset<EntryView>>::empty());
        lemma_to_multiset_empty(models(r@));
        assert(models(r@).to_multiset() =~= sum_multisets(run_multisets(vecs@.take(0))));
    }
    while k < vecs.len()
        invariant
            0 <= k <= vecs@.len(),
            forall|t: int| 0 <= t < vecs@.len() ==> sorted(models(#[trigger] vecs@[t]@)),
            sorted(models(r@)),
            models(r@).to_multiset() == sum_multisets(run_multisets(vecs@.take(k as int))),
        decreases vecs@.len() - k,
    {
        let next = merge_two(&r, &vecs[k]);
        proof {
            lemma_sum_multisets_push(
                run_multisets(vecs@.take(k as int)),
                models(vecs@[k as int]@).to_multiset(),
            );
            assert(run_multisets(vecs@.take(k + 1)) =~= run_multisets(vecs@.take(k as int)).push(
                models(vecs@[k as int]@).to_multiset(),
            ));
        }
        r = next;
        k = k + 1;
    }
    proof {
        assert(vecs@.take(vecs@.len() as int) =~= vecs@);
    }
    r
}

} // verus!
