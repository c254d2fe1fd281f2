//! The fixed 100-byte record: a 10-byte key compared lexicographically and a
//! 90-byte opaque payload.

use vstd::prelude::*;

verus! {

/// A fixed 100-byte binary record. The total order over records is defined
/// solely by lexicographic comparison of the key bytes; the payload is carried
/// but never inspected.
#[derive(Clone, Copy, Debug)]
pub struct Entry {
    key: [u8; 10],
    data: [u8; 90],
}

/// Mathematical model of a record: its key bytes and its payload bytes.
#[verifier::ext_equal]
pub struct EntryView {
    pub key: Seq<u8>,
    pub data: Seq<u8>,
}

impl View for Entry {
    type V = EntryView;

    closed spec fn view(&self) -> EntryView {
        EntryView { key: self.key@, data: self.data@ }
    }
}

/// A well-formed record model has a 10-byte key and a 90-byte payload.
pub open spec fn entry_wf(v: EntryView) -> bool {
    v.key.len() == 10 && v.data.len() == 90
}

/// The model of every record value is well formed.
pub broadcast proof fn lemma_entry_wf(e: Entry)
    ensures
        entry_wf(#[trigger] e@),
{
}

/// The models of a sequence of records.
pub open spec fn models(s: Seq<Entry>) -> Seq<EntryView> {
    s.map_values(|e: Entry| e@)
}

/// Lexicographic order on byte strings: byte 0 is most significant, and a
/// proper prefix precedes every extension of it.
pub open spec fn lex_le(a: Seq<u8>, b: Seq<u8>) -> bool
    decreases a.len(),
{
    if a.len() == 0 {
        true
    } else if b.len() == 0 {
        false
    } else if a[0] < b[0] {
        true
    } else if a[0] > b[0] {
        false
    } else {
        lex_le(a.skip(1), b.skip(1))
    }
}

/// Any two byte strings are comparable.
pub proof fn lemma_lex_le_total(a: Seq<u8>, b: Seq<u8>)
    ensures
        lex_le(a, b) || lex_le(b, a),
    decreases a.len(),
{
    if a.len() != 0 && b.len() != 0 && a[0] == b[0] {
        lemma_lex_le_total(a.skip(1), b.skip(1));
    }
}

/// The lexicographic order is transitive.
pub proof fn lemma_lex_le_trans(a: Seq<u8>, b: Seq<u8>, c: Seq<u8>)
    requires
        lex_le(a, b),
        lex_le(b, c),
    ensures
        lex_le(a, c),
    decreases a.len(),
{
    if a.len() != 0 && b.len() != 0 && c.len() != 0 && a[0] == b[0] && b[0] == c[0] {
        lemma_lex_le_trans(a.skip(1), b.skip(1), c.skip(1));
    }
}

/// The order is reflexive.
pub proof fn lemma_lex_le_refl(a: Seq<u8>)
    ensures
        lex_le(a, a),
    decreases a.len(),
{
    if a.len() != 0 {
        lemma_lex_le_refl(a.skip(1));
    }
}

/// Two byte strings of equal length that precede each other are equal.
pub proof fn lemma_lex_le_antisym(a: Seq<u8>, b: Seq<u8>)
    requires
        a.len() == b.len(),
        lex_le(a, b),
        lex_le(b, a),
    ensures
        a == b,
    decreases a.len(),
{
    if a.len() > 0 {
        assert(a[0] == b[0]);
        lemma_lex_le_antisym(a.skip(1), b.skip(1));
        assert forall|x: int| 0 <= x < a.len() implies a[x] == b[x] by {
            if x > 0 {
                assert(a[x] == a.skip(1)[x - 1]);
                assert(b[x] == b.skip(1)[x - 1]);
            }
        }
        assert(a =~= b);
    } else {
        assert(a =~= b);
    }
}

/// A non-empty byte string with a smaller first byte precedes any byte string
/// with a larger first byte, whatever follows.
pub proof fn lemma_lex_le_first_byte(a: Seq<u8>, b: Seq<u8>)
    requires
        a.len() > 0,
        b.len() > 0,
        a[0] < b[0],
    ensures
        lex_le(a, b),
        !lex_le(b, a),
{
}

/// When the first `i` bytes agree, the order is decided by the remainders.
proof fn lemma_lex_le_skip(a: Seq<u8>, b: Seq<u8>, i: int)
    requires
        0 <= i <= a.len(),
        i <= b.len(),
        forall|j: int| 0 <= j < i ==> a[j] == b[j],
    ensures
        lex_le(a, b) == lex_le(a.skip(i), b.skip(i)),
    decreases i,
{
    if i > 0 {
        assert(a.len() != 0 && b.len() != 0 && a[0] == b[0]);
        assert(forall|j: int| 0 <= j < i - 1 ==> a.skip(1)[j] == b.skip(1)[j]);
        lemma_lex_le_skip(a.skip(1), b.skip(1), i - 1);
        assert(a.skip(1).skip(i - 1) =~= a.skip(i));
        assert(b.skip(1).skip(i - 1) =~= b.skip(i));
    } else {
        assert(a.skip(0) =~= a);
        assert(b.skip(0) =~= b);
    }
}

impl Entry {
    pub fn new(key: [u8; 10], data: [u8; 90]) -> (r: Self)
        ensures
            r@ == (EntryView { key: key@, data: data@ }),
    {
        Entry { key, data }
    }

    pub fn key(&self) -> (r: &[u8; 10])
        ensures
            r@ == self@.key,
    {
        &self.key
    }

    /// The bucket a record belongs to: its leading key byte.
    pub fn bucket(&self) -> (r: usize)
        ensures
            r == self@.key[0] as usize,
            r < 256,
    {
        self.key[0] as usize
    }

    pub fn data(&self) -> (r: &[u8; 90])
        ensures
            r@ == self@.data,
    {
        &self.data
    }
}

impl Default for Entry {
    fn default() -> (r: Self)
        ensures
            r@.key == Seq::new(10, |i: int| 0u8),
            r@.data == Seq::new(90, |i: int| 0u8),
    {
        let r = Entry { key: [0u8; 10], data: [0u8; 90] };
        proof {
            assert(r@.key =~= Seq::new(10, |i: int| 0u8));
            assert(r@.data =~= Seq::new(90, |i: int| 0u8));
        }
        r
    }
}

/// Compares two records by their keys alone: true when `a` sorts no later
/// than `b`.
pub fn entry_le(a: &Entry, b: &Entry) -> (r: bool)
    ensures
        r == lex_le(a@.key, b@.key),
{
    let mut i: usize = 0;
    loop
        invariant
            0 <= i <= 10,
            forall|j: int| 0 <= j < i ==> a@.key[j] == b@.key[j],
        decreases 10 - i,
    {
        if i == 10 {
            proof {
                lemma_lex_le_skip(a@.key, b@.key, 10);
                lemma_lex_le_refl(a@.key.skip(10));
            }
            return true;
        }
        let x = a.key[i];
        let y = b.key[i];
        if x < y {
            proof {
                lemma_lex_le_skip(a@.key, b@.key, i as int);
                lemma_lex_le_first_byte(a@.key.skip(i as int), b@.key.skip(i as int));
            }
            return true;
        }
        if x > y {
            proof {
                lemma_lex_le_skip(a@.key, b@.key, i as int);
                lemma_lex_le_first_byte(b@.key.skip(i as int), a@.key.skip(i as int));
            }
            return false;
        }
        i = i + 1;
    }
}

/// The bucket a record model belongs to: its leading key byte.
pub open spec fn bucket_of(v: EntryView) -> int {
    v.key[0] as int
}

/// Every record of the sequence belongs to bucket `b` and is well formed.
pub open spec fn all_in_bucket(s: Seq<EntryView>, b: int) -> bool {
    forall|k: int| 0 <= k < s.len() ==> entry_wf(#[trigger] s[k]) && bucket_of(s[k]) == b
}

/// A sequence of record models sorted by key: every earlier record's key is
/// lexicographically no greater than every later one's.
pub open spec fn sorted(s: Seq<EntryView>) -> bool {
    forall|i: int, j: int| 0 <= i < j < s.len() ==> lex_le(#[trigger] s[i].key, #[trigger] s[j].key)
}

} // verus!
