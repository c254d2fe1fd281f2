//! Bounds-checked conversion between flat byte buffers and record sequences.
//!
//! A buffer is valid exactly when its length is a multiple of 100; each
//! 100-byte chunk is one record, the first 10 bytes its key and the remaining
//! 90 its payload. Decoding then re-encoding a valid buffer yields the
//! identical bytes, and re-encoding a decoded sequence yields the identical
//! records.

use vstd::prelude::*;

use crate::error::SortError;
use crate::record::{models, entry_wf, Entry, EntryView};

verus! {

/// The encoded bytes of one record: key bytes then payload bytes.
pub open spec fn entry_bytes(v: EntryView) -> Seq<u8> {
    v.key + v.data
}

/// The flat byte encoding of a sequence of record models.
pub open spec fn encode(s: Seq<EntryView>) -> Seq<u8>
    decreases s.len(),
{
    if s.len() == 0 {
        Seq::empty()
    } else {
        entry_bytes(s[0]) + encode(s.skip(1))
    }
}

/// The record models carried by a flat byte buffer; defined chunk by chunk,
/// meaningful when the buffer length is a multiple of 100.
pub open spec fn decode(b: Seq<u8>) -> Seq<EntryView>
    decreases b.len(),
{
    if b.len() < 100 {
        Seq::empty()
    } else {
        seq![EntryView { key: b.subrange(0, 10), data: b.subrange(10, 100) }] + decode(b.skip(100))
    }
}

/// Well-formed record sequences encode to 100 bytes per record.
pub proof fn lemma_encode_len(s: Seq<EntryView>)
    requires
        forall|i: int| 0 <= i < s.len() ==> entry_wf(#[trigger] s[i]),
    ensures
        encode(s).len() == 100 * s.len(),
    decreases s.len(),
{
    if s.len() > 0 {
        assert(forall|i: int| 0 <= i < s.skip(1).len() ==> entry_wf(#[trigger] s.skip(1)[i]));
        lemma_encode_len(s.skip(1));
    }
}

/// Encoding distributes over concatenation.
pub proof fn lemma_encode_concat(s: Seq<EntryView>, t: Seq<EntryView>)
    ensures
        encode(s + t) == encode(s) + encode(t),
    decreases s.len(),
{
    if s.len() == 0 {
        assert(s + t =~= t);
        assert(encode(s) + encode(t) =~= encode(t));
    } else {
        assert((s + t).skip(1) =~= s.skip(1) + t);
        lemma_encode_concat(s.skip(1), t);
        assert(encode(s + t) =~= encode(s) + encode(t));
    }
}

/// Encoding one more record appends its 100 bytes.
pub proof fn lemma_encode_push(s: Seq<EntryView>, v: EntryView)
    ensures
        encode(s.push(v)) == encode(s) + entry_bytes(v),
{
    assert(s.push(v) =~= s + seq![v]);
    lemma_encode_concat(s, seq![v]);
    assert(seq![v].skip(1) =~= Seq::<EntryView>::empty());
    assert(encode(Seq::<EntryView>::empty()) =~= Seq::<u8>::empty());
    assert(encode(seq![v]) =~= entry_bytes(v));
}

/// Decoding distributes over concatenation at a record boundary.
pub proof fn lemma_decode_concat(x: Seq<u8>, y: Seq<u8>)
    requires
        x.len() % 100 == 0,
    ensures
        decode(x + y) == decode(x) + decode(y),
    decreases x.len(),
{
    if x.len() == 0 {
        assert(x + y =~= y);
        assert(decode(x) + decode(y) =~= decode(y));
    } else {
        assert(x.len() >= 100);
        let xy = x + y;
        assert(xy.len() >= 100);
        assert(xy.subrange(0, 10) =~= x.subrange(0, 10));
        assert(xy.subrange(10, 100) =~= x.subrange(10, 100));
        assert(xy.skip(100) =~= x.skip(100) + y);
        assert(x.skip(100).len() % 100 == 0);
        lemma_decode_concat(x.skip(100), y);
        assert(decode(x + y) =~= decode(x) + decode(y));
    }
}

/// A valid buffer decodes to one record per 100 bytes.
pub proof fn lemma_decode_len(b: Seq<u8>)
    requires
        b.len() % 100 == 0,
    ensures
        decode(b).len() * 100 == b.len(),
        forall|i: int| 0 <= i < decode(b).len() ==> entry_wf(#[trigger] decode(b)[i]),
    decreases b.len(),
{
    if b.len() > 0 {
        assert(b.len() >= 100);
        lemma_decode_len(b.skip(100));
    }
}

/// Decoding inverts encoding: re-interpreting the encoded bytes of any
/// well-formed record sequence yields that sequence again.
pub proof fn lemma_round_trip(s: Seq<EntryView>)
    requires
        forall|i: int| 0 <= i < s.len() ==> entry_wf(#[trigger] s[i]),
    ensures
        decode(encode(s)) == s,
    decreases s.len(),
{
    if s.len() > 0 {
        let e = encode(s);
        assert(entry_wf(s[0]));
        assert(forall|i: int| 0 <= i < s.skip(1).len() ==> entry_wf(#[trigger] s.skip(1)[i]));
        lemma_encode_len(s.skip(1));
        assert(e.len() >= 100);
        assert(e.subrange(0, 10) =~= s[0].key);
        assert(e.subrange(10, 100) =~= s[0].data);
        assert(e.skip(100) =~= encode(s.skip(1)));
        lemma_round_trip(s.skip(1));
        assert(decode(e)[0] =~= s[0]);
        assert(decode(e) =~= s);
    }
}

/// Encoding inverts decoding: the bytes of the records read from a valid
/// buffer are the buffer itself.
pub proof fn lemma_encode_decode(b: Seq<u8>)
    requires
        b.len() % 100 == 0,
    ensures
        encode(decode(b)) == b,
    decreases b.len(),
{
    if b.len() > 0 {
        assert(b.len() >= 100);
        lemma_encode_decode(b.skip(100));
        assert(decode(b).skip(1) =~= decode(b.skip(100)));
        assert(entry_bytes(decode(b)[0]) =~= b.subrange(0, 100));
        assert(b.subrange(0, 100) + b.skip(100) =~= b);
        assert(encode(decode(b)) =~= b);
    }
}

/// Serializes records into the flat byte layout, 100 bytes per record.
pub fn records_to_bytes(records: &Vec<Entry>) -> (out: Vec<u8>)
    ensures
        out@ == encode(models(records@)),
        out@.len() == 100 * records@.len(),
{
    let mut out: Vec<u8> = Vec::new();
    let mut i: usize = 0;
    proof {
        assert(models(records@.take(0)) =~= Seq::<EntryView>::empty());
    }
    while i < records.len()
        invariant
            0 <= i <= records@.len(),
            out@ == encode(models(records@.take(i as int))),
            out@.len() == 100 * i,
        decreases records@.len() - i,
    {
        let e = &records[i];
        let ghost prev = out@;
        let key = e.key();
        let data = e.data();
        let mut j: usize = 0;
        while j < 10
            invariant
                0 <= j <= 10,
                key@ == e@.key,
                out@ == prev + e@.key.take(j as int),
            decreases 10 - j,
        {
            out.push(key[j]);
            proof {
                assert(out@ =~= prev + e@.key.take(j + 1));
            }
            j = j + 1;
        }
        proof {
            assert(out@ =~= prev + e@.key);
        }
        let ghost mid = out@;
        let mut j: usize = 0;
        while j < 90
            invariant
                0 <= j <= 90,
                data@ == e@.data,
                out@ == mid + e@.data.take(j as int),
            decreases 90 - j,
        {
            out.push(data[j]);
            proof {
                assert(out@ =~= mid + e@.data.take(j + 1));
            }
            j = j + 1;
        }
        proof {
            assert(out@ =~= prev + entry_bytes(e@));
            lemma_encode_push(models(records@.take(i as int)), e@);
            assert(models(records@.take(i + 1)) =~= models(records@.take(i as int)).push(e@));
        }
        i = i + 1;
    }
    proof {
        assert(records@.take(records@.len() as int) =~= records@);
    }
    out
}

/// Parses a flat byte buffer into its records; fails exactly when the buffer
/// length is not a multiple of the 100-byte record size.
pub fn bytes_to_records(bytes: &Vec<u8>) -> (r: Result<Vec<Entry>, SortError>)
    ensures
        r is Ok <==> bytes@.len() % 100 == 0,
        r matches Ok(v) ==> models(v@) == decode(bytes@),
        r matches Ok(v) ==> v@.len() * 100 == bytes@.len(),
        r matches Err(e) ==> e == SortError::UnalignedInput,
{
    if bytes.len() % 100 != 0 {
        return Err(SortError::UnalignedInput);
    }
    let blen: usize = bytes.len();
    let n = blen / 100;
    proof {
        vstd::arithmetic::div_mod::lemma_fundamental_div_mod(bytes@.len() as int, 100);
        assert(100 * n == bytes@.len());
        assert(bytes@.len() <= usize::MAX);
    }
    let mut out: Vec<Entry> = Vec::new();
    let mut i: usize = 0;
    let mut k: usize = 0;
    proof {
        assert(models(out@) =~= decode(bytes@.take(0)));
    }
    while k < n
        invariant
            0 <= k <= n,
            i == 100 * k,
            100 * n == bytes@.len(),
            bytes@.len() <= usize::MAX,
            models(out@) == decode(bytes@.take(i as int)),
            out@.len() == k,
        decreases n - k,
    {
        let mut key = [0u8; 10];
        let mut j: usize = 0;
        while j < 10
            invariant
                0 <= j <= 10,
                i + 100 <= bytes@.len(),
                bytes@.len() <= usize::MAX,
                forall|k: int| 0 <= k < j ==> key@[k] == bytes@[i + k],
            decreases 10 - j,
        {
            key[j] = bytes[i + j];
            j = j + 1;
        }
        let mut data = [0u8; 90];
        let mut j: usize = 0;
        while j < 90
            invariant
                0 <= j <= 90,
                i + 100 <= bytes@.len(),
                bytes@.len() <= usize::MAX,
                forall|k: int| 0 <= k < j ==> data@[k] == bytes@[i + 10 + k],
            decreases 90 - j,
        {
            data[j] = bytes[i + 10 + j];
            j = j + 1;
        }
        let e = Entry::new(key, data);
        proof {
            assert(e@.key =~= bytes@.take(i + 100).subrange(i as int, i + 10));
            assert(e@.data =~= bytes@.take(i + 100).subrange(i + 10, i + 100));
        }
        out.push(e);
        proof {
            let pre = bytes@.take(i as int);
            let chunk = bytes@.take(i + 100).subrange(i as int, i + 100);
            assert(pre.len() % 100 == 0);
            assert(bytes@.take(i + 100) =~= pre + chunk);
            lemma_decode_concat(pre, chunk);
            assert(chunk.subrange(0, 10) =~= e@.key);
            assert(chunk.subrange(10, 100) =~= e@.data);
            assert(chunk.skip(100) =~= Seq::<u8>::empty());
            assert(decode(Seq::<u8>::empty()) =~= Seq::<EntryView>::empty());
            assert(decode(chunk) =~= seq![e@]);
            assert(models(out@) =~= decode(bytes@.take(i + 100)));
        }
        i = i + 100;
        k = k + 1;
    }
    proof {
        assert(bytes@.take(bytes@.len() as int) =~= bytes@);
        lemma_decode_len(bytes@);
    }
    Ok(out)
}

} // verus!
