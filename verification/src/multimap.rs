//! A lock-sharded concurrent multimap from byte-string keys to ids.
//!
//! The map is a fixed vector of buckets chosen at creation and never
//! resized. Each bucket is an independently lockable list of (key, value)
//! pairs guarded by a reader-writer lock, so operations on different buckets
//! never contend and operations on one bucket serialize through that
//! bucket's lock alone; no global lock exists. Uniqueness is enforced on the
//! whole pair: a key may map to many distinct values, but inserting an
//! identical pair twice leaves the bucket unchanged.
//!
//! The pure bucket operations ([`bucket_insert`], [`bucket_collect`]) carry
//! the exact functional contracts; [`ConcurrentMultiMap::set`] and
//! [`ConcurrentMultiMap::get`] run them under the bucket lock, whose
//! invariant keeps every bucket duplicate-free and routed by the key's hash.

use vstd::prelude::*;
use vstd::rwlock::{RwLock, RwLockPredicate};

verus! {

// ---------------------------------------------------------------------------
// Hashing and bucket routing
// ---------------------------------------------------------------------------

/// A stable polynomial hash of a byte string, reduced below 2^32 at every
/// step. Stability across processes is all the routing needs; the value
/// itself carries no meaning.
pub open spec fn spec_hash_bytes(s: Seq<u8>) -> u64
    decreases s.len(),
{
    if s.len() == 0 {
        0
    } else {
        ((spec_hash_bytes(s.drop_last()) * 31 + s.last()) % 0x1_0000_0000) as u64
    }
}

/// The bucket that holds every pair whose key is `key`, among `count`
/// buckets.
pub open spec fn spec_bucket_index(key: Seq<u8>, count: int) -> int
    recommends
        count > 0,
{
    spec_hash_bytes(key) as int % count
}

fn hash_bytes(key: &Vec<u8>) -> (h: u64)
    ensures
        h == spec_hash_bytes(key@),
{
    let mut h: u64 = 0;
    let mut i: usize = 0;
    while i < key.len()
        invariant
            i <= key@.len(),
            h == spec_hash_bytes(key@.take(i as int)),
            h < 0x1_0000_0000,
        decreases key@.len() - i,
    {
        h = (h * 31 + (key[i] as u64)) % 0x1_0000_0000;
        i += 1;
        proof {
            assert(key@.take(i as int).drop_last() =~= key@.take(i as int - 1));
        }
    }
    proof {
        assert(key@.take(key@.len() as int) =~= key@);
    }
    h
}

/// Byte-string equality, stated over the views.
fn bytes_eq(a: &Vec<u8>, b: &Vec<u8>) -> (r: bool)
    ensures
        r == (a@ == b@),
{
    if a.len() != b.len() {
        return false;
    }
    let mut i: usize = 0;
    while i < a.len()
        invariant
            i <= a@.len(),
            a@.len() == b@.len(),
            forall|j: int| 0 <= j < i ==> a@[j] == b@[j],
        decreases a@.len() - i,
    {
        if a[i] != b[i] {
            return false;
        }
        i += 1;
    }
    proof {
        assert(a@ =~= b@);
    }
    true
}

// ---------------------------------------------------------------------------
// The bucket model
// ---------------------------------------------------------------------------

/// Whether entry `e` is the pair (`k`, `v`).
pub open spec fn entry_is(e: (Vec<u8>, u64), k: Seq<u8>, v: u64) -> bool {
    e.0@ == k && e.1 == v
}

/// Whether the bucket holds the pair (`k`, `v`).
pub open spec fn bucket_has_pair(s: Seq<(Vec<u8>, u64)>, k: Seq<u8>, v: u64) -> bool {
    exists|j: int| 0 <= j < s.len() && entry_is(#[trigger] s[j], k, v)
}

/// How many entries of the bucket are the pair (`k`, `v`).
pub open spec fn pair_count(s: Seq<(Vec<u8>, u64)>, k: Seq<u8>, v: u64) -> nat
    decreases s.len(),
{
    if s.len() == 0 {
        0
    } else {
        pair_count(s.drop_last(), k, v) + if entry_is(s.last(), k, v) {
            1nat
        } else {
            0nat
        }
    }
}

/// The values bound to `k`, in bucket order.
pub open spec fn spec_values_for(s: Seq<(Vec<u8>, u64)>, k: Seq<u8>) -> Seq<u64>
    decreases s.len(),
{
    if s.len() == 0 {
        Seq::empty()
    } else {
        spec_values_for(s.drop_last(), k) + if s.last().0@ == k {
            seq![s.last().1]
        } else {
            Seq::<u64>::empty()
        }
    }
}

/// What one insertion leaves behind: the pair appended when absent, the
/// bucket unchanged when the identical pair is already present.
pub open spec fn spec_bucket_insert(s: Seq<(Vec<u8>, u64)>, e: (Vec<u8>, u64)) -> Seq<
    (Vec<u8>, u64),
> {
    if bucket_has_pair(s, e.0@, e.1) {
        s
    } else {
        s.push(e)
    }
}

/// No two entries of the bucket are the same pair.
pub open spec fn bucket_distinct(s: Seq<(Vec<u8>, u64)>) -> bool {
    forall|i: int, j: int|
        0 <= i < j < s.len() ==> !((#[trigger] s[i]).0@ == (#[trigger] s[j]).0@ && s[i].1
            == s[j].1)
}

/// Every entry of the bucket belongs there by the hash of its key.
pub open spec fn bucket_routed(s: Seq<(Vec<u8>, u64)>, index: int, count: int) -> bool {
    forall|i: int| 0 <= i < s.len() ==> spec_bucket_index((#[trigger] s[i]).0@, count) == index
}

// ---------------------------------------------------------------------------
// The pure bucket operations
// ---------------------------------------------------------------------------

/// Linear-scans the bucket and appends the pair only when it is absent.
pub fn bucket_insert(list: &mut Vec<(Vec<u8>, u64)>, key: Vec<u8>, value: u64)
    ensures
        final(list)@ == spec_bucket_insert(old(list)@, (key, value)),
{
    let ghost s = list@;
    let mut i: usize = 0;
    let mut present = false;
    while i < list.len()
        invariant
            i <= s.len(),
            list@ == s,
            present == exists|j: int| 0 <= j < i && entry_is(#[trigger] s[j], key@, value),
        decreases s.len() - i,
    {
        let e = &list[i];
        if bytes_eq(&e.0, &key) && e.1 == value {
            present = true;
        }
        i += 1;
    }
    if !present {
        assert(!bucket_has_pair(s, key@, value));
        list.push((key, value));
    }
}

/// Linear-scans the bucket, collecting a copy of every value bound to `key`.
pub fn bucket_collect(list: &Vec<(Vec<u8>, u64)>, key: &Vec<u8>) -> (r: Vec<u64>)
    ensures
        r@ == spec_values_for(list@, key@),
{
    let mut r: Vec<u64> = Vec::new();
    let mut i: usize = 0;
    while i < list.len()
        invariant
            i <= list@.len(),
            r@ == spec_values_for(list@.take(i as int), key@),
        decreases list@.len() - i,
    {
        let e = &list[i];
        if bytes_eq(&e.0, key) {
            let v = e.1;
            r.push(v);
        }
        i += 1;
        proof {
            assert(list@.take(i as int).drop_last() =~= list@.take(i as int - 1));
            assert(list@.take(i as int).last() == list@[i as int - 1]);
        }
    }
    proof {
        assert(list@.take(list@.len() as int) =~= list@);
    }
    r
}

// ---------------------------------------------------------------------------
// The sharded map
// ---------------------------------------------------------------------------

/// The invariant each bucket lock protects: its index and the shared bucket
/// count, fixed at creation.
pub struct BucketPred {
    pub index: int,
    pub count: int,
}

impl RwLockPredicate<Vec<(Vec<u8>, u64)>> for BucketPred {
    open spec fn inv(self, v: Vec<(Vec<u8>, u64)>) -> bool {
        &&& bucket_distinct(v@)
        &&& bucket_routed(v@, self.index, self.count)
    }
}

/// A concurrent multimap sharded over independently locked buckets.
pub struct ConcurrentMultiMap {
    buckets: Vec<RwLock<Vec<(Vec<u8>, u64)>, BucketPred>>,
}

impl ConcurrentMultiMap {
    /// The number of buckets, and so the unit of lock granularity: pairs
    /// whose keys route to different buckets never contend.
    pub closed spec fn bucket_count(&self) -> nat {
        self.buckets@.len()
    }

    /// The map has at least one bucket and every bucket lock guards the
    /// invariant for its own position.
    pub closed spec fn wf(&self) -> bool {
        &&& self.buckets@.len() > 0
        &&& forall|i: int|
            0 <= i < self.buckets@.len() ==> (#[trigger] self.buckets@[i]).pred()
                == (BucketPred { index: i, count: self.buckets@.len() as int })
    }

    /// Creates an empty map with exactly `bucket_count` buckets; the count
    /// is fixed for the map's whole life.
    pub fn new(bucket_count: usize) -> (r: Self)
        requires
            bucket_count > 0,
        ensures
            r.wf(),
            r.bucket_count() == bucket_count,
    {
        let mut buckets: Vec<RwLock<Vec<(Vec<u8>, u64)>, BucketPred>> = Vec::new();
        let mut i: usize = 0;
        while i < bucket_count
            invariant
                i <= bucket_count,
                buckets@.len() == i,
                forall|j: int|
                    0 <= j < i ==> (#[trigger] buckets@[j]).pred() == (BucketPred {
                        index: j,
                        count: bucket_count as int,
                    }),
            decreases bucket_count - i,
        {
            let ghost pred = BucketPred { index: i as int, count: bucket_count as int };
            let empty: Vec<(Vec<u8>, u64)> = Vec::new();
            let lock = RwLock::new(empty, Ghost(pred));
            buckets.push(lock);
            i += 1;
        }
        ConcurrentMultiMap { buckets }
    }

    /// Associates `value` with `key`: hashes the key, takes an exclusive
    /// lock on that bucket alone, and inserts the pair unless it is already
    /// present. Other buckets stay concurrently accessible.
    pub fn set(&self, key: Vec<u8>, value: u64)
        requires
            self.wf(),
    {
        let count = self.buckets.len();
        let h = hash_bytes(&key);
        let idx = (h % (count as u64)) as usize;
        assert(idx as int == spec_bucket_index(key@, count as int));
        let (mut list, handle) = self.buckets[idx].acquire_write();
        let ghost before = list@;
        bucket_insert(&mut list, key, value);
        proof {
            lemma_insert_distinct(before, (key, value));
        }
        handle.release_write(list);
    }

    /// Returns a copy of every value bound to `key`, in bucket order: hashes
    /// the key, takes a shared lock on that bucket alone, and collects the
    /// matches. Pair uniqueness makes the returned values pairwise distinct.
    pub fn get(&self, key: &Vec<u8>) -> (r: Vec<u64>)
        requires
            self.wf(),
        ensures
            forall|a: int, b: int| 0 <= a < b < r@.len() ==> r@[a] != r@[b],
    {
        let count = self.buckets.len();
        let h = hash_bytes(key);
        let idx = (h % (count as u64)) as usize;
        let read_handle = self.buckets[idx].acquire_read();
        let list = read_handle.borrow();
        let r = bucket_collect(list, key);
        proof {
            lemma_values_for_distinct(list@, key@);
        }
        read_handle.release_read();
        r
    }
}

// ---------------------------------------------------------------------------
// Laws of the bucket model
// ---------------------------------------------------------------------------

/// A duplicate-free bucket holds a pair at most once, and exactly once when
/// the pair is present.
pub proof fn lemma_count_in_distinct(s: Seq<(Vec<u8>, u64)>, k: Seq<u8>, v: u64)
    requires
        bucket_distinct(s),
    ensures
        pair_count(s, k, v) == if bucket_has_pair(s, k, v) {
            1nat
        } else {
            0nat
        },
    decreases s.len(),
{
    if s.len() > 0 {
        assert(bucket_distinct(s.drop_last()));
        lemma_count_in_distinct(s.drop_last(), k, v);
        if entry_is(s.last(), k, v) {
            assert(!bucket_has_pair(s.drop_last(), k, v));
            assert(bucket_has_pair(s, k, v));
        } else {
            assert(bucket_has_pair(s, k, v) == bucket_has_pair(s.drop_last(), k, v)) by {
                if bucket_has_pair(s, k, v) {
                    let j = choose|j: int| 0 <= j < s.len() && entry_is(#[trigger] s[j], k, v);
                    assert(j < s.len() - 1);
                    assert(entry_is(s.drop_last()[j], k, v));
                }
            }
        }
    }
}

/// Insertion keeps a bucket duplicate-free.
pub proof fn lemma_insert_distinct(s: Seq<(Vec<u8>, u64)>, e: (Vec<u8>, u64))
    requires
        bucket_distinct(s),
    ensures
        bucket_distinct(spec_bucket_insert(s, e)),
{
    if !bucket_has_pair(s, e.0@, e.1) {
        let t = s.push(e);
        assert forall|i: int, j: int| 0 <= i < j < t.len() implies !((#[trigger] t[i]).0@
            == (#[trigger] t[j]).0@ && t[i].1 == t[j].1) by {
            if j == t.len() - 1 {
                assert(t[i] == s[i]);
                assert(!entry_is(s[i], e.0@, e.1));
            } else {
                assert(t[i] == s[i] && t[j] == s[j]);
            }
        }
    }
}

/// Inserting a pair makes it present.
pub proof fn lemma_insert_member(s: Seq<(Vec<u8>, u64)>, e: (Vec<u8>, u64))
    ensures
        bucket_has_pair(spec_bucket_insert(s, e), e.0@, e.1),
{
    if !bucket_has_pair(s, e.0@, e.1) {
        let t = s.push(e);
        assert(entry_is(t[t.len() - 1], e.0@, e.1));
    }
}

/// Inserting the same pair twice stores it exactly once: the second
/// insertion changes nothing, and a duplicate-free bucket then holds the
/// pair exactly one time.
pub proof fn lemma_set_idempotent(s: Seq<(Vec<u8>, u64)>, e1: (Vec<u8>, u64), e2: (Vec<u8>, u64))
    requires
        bucket_distinct(s),
        e1.0@ == e2.0@,
        e1.1 == e2.1,
    ensures
        spec_bucket_insert(spec_bucket_insert(s, e1), e2) == spec_bucket_insert(s, e1),
        pair_count(spec_bucket_insert(spec_bucket_insert(s, e1), e2), e1.0@, e1.1) == 1,
{
    lemma_insert_member(s, e1);
    lemma_insert_distinct(s, e1);
    lemma_count_in_distinct(spec_bucket_insert(s, e1), e1.0@, e1.1);
}

/// A key no pair was ever stored under has no values: collecting it yields
/// the empty sequence.
pub proof fn lemma_get_absent(s: Seq<(Vec<u8>, u64)>, k: Seq<u8>)
    requires
        forall|j: int| 0 <= j < s.len() ==> (#[trigger] s[j]).0@ != k,
    ensures
        spec_values_for(s, k) == Seq::<u64>::empty(),
    decreases s.len(),
{
    if s.len() > 0 {
        lemma_get_absent(s.drop_last(), k);
        assert(spec_values_for(s, k) =~= Seq::<u64>::empty());
    }
}

/// Inserting under one key never disturbs the values of another key.
pub proof fn lemma_insert_frame(s: Seq<(Vec<u8>, u64)>, e: (Vec<u8>, u64), k: Seq<u8>)
    requires
        k != e.0@,
    ensures
        spec_values_for(spec_bucket_insert(s, e), k) == spec_values_for(s, k),
{
    if !bucket_has_pair(s, e.0@, e.1) {
        let t = s.push(e);
        assert(t.drop_last() =~= s);
        assert(spec_values_for(t, k) =~= spec_values_for(s, k));
    }
}

/// An inserted pair is retrievable: its value is among the values collected
/// for its key afterwards.
pub proof fn lemma_insert_retrievable(s: Seq<(Vec<u8>, u64)>, e: (Vec<u8>, u64))
    ensures
        spec_values_for(spec_bucket_insert(s, e), e.0@).contains(e.1),
    decreases s.len(),
{
    if bucket_has_pair(s, e.0@, e.1) {
        lemma_present_retrievable(s, e.0@, e.1);
    } else {
        let t = s.push(e);
        assert(t.drop_last() =~= s);
        let vs = spec_values_for(t, e.0@);
        assert(vs.last() == e.1);
        assert(vs.contains(e.1));
    }
}

/// A pair the bucket holds contributes its value to its key's collection.
pub proof fn lemma_present_retrievable(s: Seq<(Vec<u8>, u64)>, k: Seq<u8>, v: u64)
    requires
        bucket_has_pair(s, k, v),
    ensures
        spec_values_for(s, k).contains(v),
    decreases s.len(),
{
    if entry_is(s.last(), k, v) {
        let vs = spec_values_for(s, k);
        assert(vs.last() == v);
        assert(vs.contains(v));
    } else {
        let j = choose|j: int| 0 <= j < s.len() && entry_is(#[trigger] s[j], k, v);
        assert(entry_is(s.drop_last()[j], k, v));
        lemma_present_retrievable(s.drop_last(), k, v);
        let vs0 = spec_values_for(s.drop_last(), k);
        let i = choose|i: int| 0 <= i < vs0.len() && vs0[i] == v;
        assert(spec_values_for(s, k)[i] == v);
        assert(spec_values_for(s, k).contains(v));
    }
}

/// The bucket after inserting each of `entries` in turn.
pub open spec fn spec_bucket_insert_all(
    s: Seq<(Vec<u8>, u64)>,
    entries: Seq<(Vec<u8>, u64)>,
) -> Seq<(Vec<u8>, u64)>
    decreases entries.len(),
{
    if entries.len() == 0 {
        s
    } else {
        spec_bucket_insert(spec_bucket_insert_all(s, entries.drop_last()), entries.last())
    }
}

/// Inserting any number of pairs with pairwise distinct keys leaves every
/// one of them retrievable afterwards, whatever the insertion order.
pub proof fn lemma_distinct_keys_all_retrievable(
    s: Seq<(Vec<u8>, u64)>,
    entries: Seq<(Vec<u8>, u64)>,
)
    requires
        forall|a: int, b: int|
            0 <= a < b < entries.len() ==> (#[trigger] entries[a]).0@ != (#[trigger] entries[b]).0@,
    ensures
        forall|k: int|
            0 <= k < entries.len() ==> spec_values_for(
                spec_bucket_insert_all(s, entries),
                (#[trigger] entries[k]).0@,
            ).contains(entries[k].1),
    decreases entries.len(),
{
    if entries.len() > 0 {
        let prefix = entries.drop_last();
        let last = entries.last();
        lemma_distinct_keys_all_retrievable(s, prefix);
        let t = spec_bucket_insert_all(s, prefix);
        assert forall|k: int|
            0 <= k < entries.len() implies spec_values_for(
            spec_bucket_insert_all(s, entries),
            (#[trigger] entries[k]).0@,
        ).contains(entries[k].1) by {
            if k == entries.len() - 1 {
                lemma_insert_retrievable(t, last);
            } else {
                assert(entries[k] == prefix[k]);
                lemma_insert_frame(t, last, entries[k].0@);
            }
        }
    }
}

/// A duplicate-free bucket yields pairwise distinct values for any key.
pub proof fn lemma_values_for_distinct(s: Seq<(Vec<u8>, u64)>, k: Seq<u8>)
    requires
        bucket_distinct(s),
    ensures
        forall|a: int, b: int|
            0 <= a < b < spec_values_for(s, k).len() ==> spec_values_for(s, k)[a]
                != spec_values_for(s, k)[b],
    decreases s.len(),
{
    if s.len() > 0 {
        assert(bucket_distinct(s.drop_last()));
        lemma_values_for_distinct(s.drop_last(), k);
        if s.last().0@ == k {
            assert(!bucket_has_pair(s.drop_last(), k, s.last().1)) by {
                if bucket_has_pair(s.drop_last(), k, s.last().1) {
                    let j = choose|j: int|
                        0 <= j < s.drop_last().len() && entry_is(
                            #[trigger] s.drop_last()[j],
                            k,
                            s.last().1,
                        );
                    assert(s[j].0@ == s[s.len() - 1].0@ && s[j].1 == s[s.len() - 1].1);
                }
            }
            assert(!spec_values_for(s.drop_last(), k).contains(s.last().1)) by {
                if spec_values_for(s.drop_last(), k).contains(s.last().1) {
                    lemma_value_has_pair(s.drop_last(), k, s.last().1);
                }
            }
        }
    }
}

/// Every collected value comes from some stored pair.
pub proof fn lemma_value_has_pair(s: Seq<(Vec<u8>, u64)>, k: Seq<u8>, v: u64)
    requires
        spec_values_for(s, k).contains(v),
    ensures
        bucket_has_pair(s, k, v),
    decreases s.len(),
{
    if s.len() > 0 {
        if s.last().0@ == k && s.last().1 == v {
            assert(entry_is(s[s.len() - 1], k, v));
        } else {
            let vs = spec_values_for(s, k);
            let vs0 = spec_values_for(s.drop_last(), k);
            let i = choose|i: int| 0 <= i < vs.len() && vs[i] == v;
            assert(i < vs0.len() && vs0[i] == v);
            lemma_value_has_pair(s.drop_last(), k, v);
            let j = choose|j: int|
                0 <= j < s.drop_last().len() && entry_is(#[trigger] s.drop_last()[j], k, v);
            assert(entry_is(s[j], k, v));
        }
    }
}

} // verus!
