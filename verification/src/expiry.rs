//! The expiration index: which keys expire at which time.
//!
//! Keys are grouped in buckets by expiration time in a `BTreeMap`, so that
//! the times due by a given moment come first.

use crate::buffer::{bytes_clone, bytes_slice, bytes_view};
use crate::order::compare_bytes;
use bytes::Bytes;
use std::collections::BTreeMap;
use vstd::prelude::*;

verus! {

/// Some key of the bucket is `k`.
pub open spec fn in_bucket(bucket: Seq<Bytes>, k: Seq<u8>) -> bool {
    exists|j: int| 0 <= j < bucket.len() && bytes_view(#[trigger] bucket[j]) == k
}

/// Adding a key to a bucket adds it and nothing else.
proof fn lemma_in_bucket_push(bucket: Seq<Bytes>, x: Bytes)
    ensures
        forall|k: Seq<u8>| #[trigger] in_bucket(bucket.push(x), k) == (in_bucket(bucket, k) || bytes_view(x) == k),
{
    let b2 = bucket.push(x);
    assert forall|k: Seq<u8>| #[trigger] in_bucket(b2, k) == (in_bucket(bucket, k) || bytes_view(x) == k) by {
        if in_bucket(b2, k) {
            let j = choose|j: int| 0 <= j < b2.len() && bytes_view(#[trigger] b2[j]) == k;
            if j < bucket.len() {
                assert(bucket[j] == b2[j]);
            }
        }
        if in_bucket(bucket, k) {
            let j = choose|j: int| 0 <= j < bucket.len() && bytes_view(#[trigger] bucket[j]) == k;
            assert(b2[j] == bucket[j]);
        }
        if bytes_view(x) == k {
            assert(b2[bucket.len() as int] == x);
        }
    }
}

/// The keys of `keys` other than `key`.
fn without_key(keys: Vec<Bytes>, key: &[u8]) -> (kept: Vec<Bytes>)
    ensures
        forall|k: Seq<u8>| #[trigger] in_bucket(kept@, k) == (in_bucket(keys@, k) && k != key@),
{
    let mut kept: Vec<Bytes> = Vec::new();
    let mut i: usize = 0;
    assert(keys@.take(0) =~= Seq::<Bytes>::empty());
    while i < keys.len()
        invariant
            i <= keys@.len(),
            forall|k: Seq<u8>| #[trigger] in_bucket(kept@, k) == (in_bucket(keys@.take(i as int), k) && k != key@),
        decreases keys@.len() - i,
    {
        assert(keys@.take(i + 1) =~= keys@.take(i as int).push(keys@[i as int]));
        proof {
            lemma_in_bucket_push(keys@.take(i as int), keys@[i as int]);
        }
        if compare_bytes(bytes_slice(&keys[i]), key) != 0 {
            let c = bytes_clone(&keys[i]);
            proof {
                lemma_in_bucket_push(kept@, c);
            }
            kept.push(c);
        }
        i = i + 1;
    }
    assert(keys@.take(keys@.len() as int) =~= keys@);
    kept
}

/// Keys grouped by expiration time.
pub struct ExpiryIndex {
    buckets: BTreeMap<u128, Vec<Bytes>>,
}

impl ExpiryIndex {
    /// No bucket is empty.
    pub closed spec fn wf(&self) -> bool {
        forall|t: u128| #[trigger] self.buckets@.contains_key(t) ==> self.buckets@[t]@.len() > 0
    }

    /// Key `k` is recorded as expiring at time `t`.
    pub closed spec fn contains(&self, t: u128, k: Seq<u8>) -> bool {
        self.buckets@.contains_key(t) && in_bucket(self.buckets@[t]@, k)
    }

    /// Key `k` is recorded as expiring at some time no later than `now`.
    pub open spec fn due_by(&self, now: u128, k: Seq<u8>) -> bool {
        exists|t: u128| t <= now && #[trigger] self.contains(t, k)
    }

    /// An empty index.
    pub fn new() -> (x: Self)
        ensures
            x.wf(),
            forall|t: u128, k: Seq<u8>| !x.contains(t, k),
    {
        ExpiryIndex { buckets: BTreeMap::new() }
    }

    /// Records that `key` expires at time `t`.
    pub fn add(&mut self, t: u128, key: Bytes)
        requires
            old(self).wf(),
        ensures
            final(self).wf(),
            forall|t2: u128, k2: Seq<u8>| #[trigger] final(self).contains(t2, k2) == (old(self).contains(t2, k2) || (t2 == t && k2 == bytes_view(key))),
    {
        let mut bucket = match self.buckets.remove(&t) {
            Some(v) => v,
            None => Vec::new(),
        };
        assert(old(self).buckets@.contains_key(t) ==> bucket@ == old(self).buckets@[t]@);
        assert(!old(self).buckets@.contains_key(t) ==> bucket@ == Seq::<Bytes>::empty());
        proof {
            lemma_in_bucket_push(bucket@, key);
        }
        let ghost b0 = bucket@;
        bucket.push(key);
        self.buckets.insert(t, bucket);
        assert forall|t2: u128, k2: Seq<u8>| #[trigger] self.contains(t2, k2) == (old(self).contains(t2, k2) || (t2 == t && k2 == bytes_view(key))) by {
            if t2 == t {
                assert(in_bucket(b0.push(key), k2) == (in_bucket(b0, k2) || bytes_view(key) == k2));
            } else {
                assert(self.buckets@[t2] == old(self).buckets@[t2]);
            }
        }
    }

    /// Forgets that `key` expires at time `t`.
    pub fn remove(&mut self, t: u128, key: &[u8])
        requires
            old(self).wf(),
        ensures
            final(self).wf(),
            forall|t2: u128, k2: Seq<u8>| #[trigger] final(self).contains(t2, k2) == (old(self).contains(t2, k2) && !(t2 == t && k2 == key@)),
    {
        match self.buckets.remove(&t) {
            Some(v) => {
                assert(v@ == old(self).buckets@[t]@);
                let kept = without_key(v, key);
                let ghost kv = kept@;
                if kept.len() > 0 {
                    self.buckets.insert(t, kept);
                }
                assert forall|t2: u128, k2: Seq<u8>| #[trigger] self.contains(t2, k2) == (old(self).contains(t2, k2) && !(t2 == t && k2 == key@)) by {
                    if t2 == t {
                        assert(in_bucket(kv, k2) == (in_bucket(v@, k2) && k2 != key@));
                        if kv.len() == 0 && in_bucket(kv, k2) {
                            let j = choose|j: int| 0 <= j < kv.len() && bytes_view(#[trigger] kv[j]) == k2;
                        }
                    } else {
                        assert(self.buckets@.contains_key(t2) == old(self).buckets@.contains_key(t2));
                    }
                }
            },
            None => {
                assert(self.buckets@ =~= old(self).buckets@);
            },
        }
    }

    /// Takes out every key that expires at or before `now`.
    pub fn take_due(&mut self, now: u128) -> (due: Vec<Bytes>)
        requires
            old(self).wf(),
        ensures
            final(self).wf(),
            forall|t: u128, k: Seq<u8>| #[trigger] final(self).contains(t, k) == (old(self).contains(t, k) && t > now),
            forall|t: u128, k: Seq<u8>| t <= now && #[trigger] old(self).contains(t, k) ==> due@.map_values(|b: Bytes| bytes_view(b)).contains(k),
            forall|i: int| 0 <= i < due@.len() ==> old(self).due_by(now, bytes_view(#[trigger] due@[i])),
    {
        let times = self.due_times(now);
        let mut due: Vec<Bytes> = Vec::new();
        let mut i: usize = 0;
        assert(times@.take(0) =~= Seq::<u128>::empty());
        while i < times.len()
            invariant
                i <= times@.len(),
                self.wf(),
                forall|j: int| 0 <= j < times@.len() ==> #[trigger] times@[j] <= now,
                forall|t: u128| t <= now && #[trigger] old(self).buckets@.contains_key(t) ==> times@.contains(t),
                forall|t: u128, k: Seq<u8>| #[trigger] self.contains(t, k) == (old(self).contains(t, k) && !times@.take(i as int).contains(t)),
                forall|t: u128, k: Seq<u8>| #[trigger] old(self).contains(t, k) && times@.take(i as int).contains(t) ==> due@.map_values(|b: Bytes| bytes_view(b)).contains(k),
                forall|j: int| 0 <= j < due@.len() ==> old(self).due_by(now, bytes_view(#[trigger] due@[j])),
            decreases times@.len() - i,
        {
            let t = times[i];
            assert(times@.take(i + 1) =~= times@.take(i as int).push(t));
            let ghost pre = *self;
            match self.buckets.remove(&t) {
                Some(v) => {
                    assert(v@ == pre.buckets@[t]@);
                    let ghost before = due@;
                    let mut j: usize = 0;
                    while j < v.len()
                        invariant
                            j <= v@.len(),
                            t <= now,
                            v@ == pre.buckets@[t]@,
                            pre.buckets@.contains_key(t),
                            forall|t2: u128, k: Seq<u8>| #[trigger] pre.contains(t2, k) ==> old(self).contains(t2, k),
                            due@.len() == before.len() + j,
                            forall|q: int| 0 <= q < before.len() ==> #[trigger] due@[q] == before[q],
                            forall|q: int| 0 <= q < j ==> bytes_view(#[trigger] due@[before.len() + q]) == bytes_view(v@[q]),
                        decreases v@.len() - j,
                    {
                        let c = bytes_clone(&v[j]);
                        due.push(c);
                        j = j + 1;
                    }
                    assert forall|q: int| 0 <= q < due@.len() implies old(self).due_by(now, bytes_view(#[trigger] due@[q])) by {
                        if q >= before.len() {
                            let e = v@[q - before.len()];
                            assert(bytes_view(due@[before.len() + (q - before.len())]) == bytes_view(e));
                            assert(pre.contains(t, bytes_view(e)));
                            assert(old(self).contains(t, bytes_view(e)));
                        } else {
                            assert(due@[q] == before[q]);
                        }
                    }
                    assert forall|t2: u128, k: Seq<u8>| #[trigger] old(self).contains(t2, k) && times@.take(i + 1).contains(t2) implies due@.map_values(|b: Bytes| bytes_view(b)).contains(k) by {
                        let dv = due@.map_values(|b: Bytes| bytes_view(b));
                        if times@.take(i as int).contains(t2) {
                            let bv = before.map_values(|b: Bytes| bytes_view(b));
                            assert(bv.contains(k));
                            let q = choose|q: int| 0 <= q < bv.len() && #[trigger] bv[q] == k;
                            assert(due@[q] == before[q]);
                            assert(dv[q] == bv[q]);
                        } else {
                            let q0 = choose|q: int| 0 <= q < times@.take(i + 1).len() && #[trigger] times@.take(i + 1)[q] == t2;
                            assert(q0 == i as int);
                            assert(t2 == t);
                            assert(pre.contains(t2, k));
                            let q = choose|q: int| 0 <= q < v@.len() && bytes_view(#[trigger] v@[q]) == k;
                            assert(bytes_view(due@[before.len() + q]) == bytes_view(v@[q]));
                            assert(dv[before.len() + q] == k);
                        }
                    }
                },
                None => {
                    assert(self.buckets@ =~= pre.buckets@);
                    assert forall|t2: u128, k: Seq<u8>| #[trigger] old(self).contains(t2, k) && times@.take(i + 1).contains(t2) implies due@.map_values(|b: Bytes| bytes_view(b)).contains(k) by {
                        if !times@.take(i as int).contains(t2) {
                            let q0 = choose|q: int| 0 <= q < times@.take(i + 1).len() && #[trigger] times@.take(i + 1)[q] == t2;
                            assert(q0 == i as int);
                            assert(pre.contains(t2, k));
                        }
                    }
                },
            }
            assert(times@.take(i + 1)[i as int] == t);
            assert forall|t2: u128, k: Seq<u8>| #[trigger] self.contains(t2, k) == (old(self).contains(t2, k) && !times@.take(i + 1).contains(t2)) by {
                if t2 == t {
                    assert(!self.buckets@.contains_key(t2));
                    assert(times@.take(i + 1).contains(t2));
                } else {
                    assert(self.buckets@.contains_key(t2) == pre.buckets@.contains_key(t2));
                    if self.buckets@.contains_key(t2) {
                        assert(self.buckets@[t2] == pre.buckets@[t2]);
                    }
                    assert(self.contains(t2, k) == pre.contains(t2, k));
                    if times@.take(i + 1).contains(t2) {
                        let q = choose|q: int| 0 <= q < times@.take(i + 1).len() && #[trigger] times@.take(i + 1)[q] == t2;
                        assert(times@.take(i as int)[q] == t2);
                    }
                    if times@.take(i as int).contains(t2) {
                        let q = choose|q: int| 0 <= q < times@.take(i as int).len() && #[trigger] times@.take(i as int)[q] == t2;
                        assert(times@.take(i + 1)[q] == t2);
                    }
                }
            }
            i = i + 1;
        }
        assert(times@.take(times@.len() as int) =~= times@);
        due
    }

    /// The times of the buckets that are due by `now`.
    fn due_times(&self, now: u128) -> (times: Vec<u128>)
        ensures
            forall|j: int| 0 <= j < times@.len() ==> #[trigger] times@[j] <= now,
            forall|t: u128| t <= now && #[trigger] self.buckets@.contains_key(t) ==> times@.contains(t),
    {
        let mut times: Vec<u128> = Vec::new();
        for t in it: self.buckets.keys()
            invariant
                forall|j: int| 0 <= j < times@.len() ==> #[trigger] times@[j] <= now,
                forall|j: int| 0 <= j < it.index() && *it.seq()[j] <= now ==> times@.contains(*#[trigger] it.seq()[j]),
        {
            let ghost prev = times@;
            if *t <= now {
                times.push(*t);
                assert(times@[prev.len() as int] == *t);
            }
            assert forall|y: u128| prev.contains(y) implies times@.contains(y) by {
                let q = choose|q: int| 0 <= q < prev.len() && #[trigger] prev[q] == y;
                assert(times@[q] == prev[q]);
            }
        }
        times
    }
}

} // verus!
