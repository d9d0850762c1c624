//! The ordered key space: items kept sorted by key, each key at most once.
//!
//! `ItemMap` is the ordered map from byte keys to items on which the database
//! and the in-memory storage backend are built. Its entries are kept strictly
//! increasing in lexicographic key order, so that a scan visits keys in order.

use crate::buffer::{bytes_clone, bytes_slice, bytes_view};
use crate::order::{
    calculate_prefix_end, compare_bytes, is_prefix, lemma_lex_asymmetric, lemma_lex_irreflexive, lemma_lex_total,
    lemma_lex_transitive, lemma_prefix_end, lex_lt, prefix_end, starts_with,
};
use crate::types::{expired_at, DbItem, ItemView};
use bytes::Bytes;
use vstd::prelude::*;

verus! {

/// An entry of the key space, taken by its bytes.
pub type EntryView = (Seq<u8>, ItemView);

/// Keys strictly increase along `s`.
pub open spec fn sorted_keys(s: Seq<EntryView>) -> bool {
    forall|i: int, j: int| 0 <= i < j < s.len() ==> lex_lt(#[trigger] s[i].0, #[trigger] s[j].0)
}

/// `k` is the key of some entry of `s`.
pub open spec fn has_key(s: Seq<EntryView>, k: Seq<u8>) -> bool {
    exists|i: int| 0 <= i < s.len() && #[trigger] s[i].0 == k
}

/// The item of some entry of `s` with key `k`.
pub open spec fn assoc_value(s: Seq<EntryView>, k: Seq<u8>) -> ItemView {
    s[assoc_index(s, k)].1
}

/// The index of some entry of `s` with key `k`.
pub open spec fn assoc_index(s: Seq<EntryView>, k: Seq<u8>) -> int {
    choose|i: int| 0 <= i < s.len() && #[trigger] s[i].0 == k
}

/// The map that a sequence of entries stands for.
pub open spec fn assoc_map(s: Seq<EntryView>) -> Map<Seq<u8>, ItemView> {
    Map::new(|k: Seq<u8>| has_key(s, k), |k: Seq<u8>| assoc_value(s, k))
}

/// The entries of `s` whose key starts with `p`, in order.
pub open spec fn with_prefix(s: Seq<EntryView>, p: Seq<u8>) -> Seq<EntryView>
    decreases s.len(),
{
    if s.len() == 0 {
        Seq::empty()
    } else {
        let r = with_prefix(s.drop_last(), p);
        if is_prefix(p, s.last().0) {
            r.push(s.last())
        } else {
            r
        }
    }
}

/// The entries of `s` that have not expired when the clock reads `now`, in order.
pub open spec fn unexpired(s: Seq<EntryView>, now: u128) -> Seq<EntryView>
    decreases s.len(),
{
    if s.len() == 0 {
        Seq::empty()
    } else {
        let r = unexpired(s.drop_last(), now);
        if !expired_at(s.last().1.expires_at, now) {
            r.push(s.last())
        } else {
            r
        }
    }
}

/// The view of a vector of entries.
pub open spec fn entry_views(v: Seq<(Bytes, DbItem)>) -> Seq<EntryView> {
    v.map_values(|e: (Bytes, DbItem)| (bytes_view(e.0), e.1@))
}

/// In a sorted sequence, a key names one entry.
pub proof fn lemma_sorted_unique(s: Seq<EntryView>, i: int, j: int)
    requires
        sorted_keys(s),
        0 <= i < s.len(),
        0 <= j < s.len(),
        s[i].0 == s[j].0,
    ensures
        i == j,
{
    if i < j {
        lemma_lex_irreflexive(s[i].0);
    } else if j < i {
        lemma_lex_irreflexive(s[i].0);
    }
}

/// The map of a sorted sequence maps the key of each entry to its item.
pub proof fn lemma_assoc_at(s: Seq<EntryView>, i: int)
    requires
        sorted_keys(s),
        0 <= i < s.len(),
    ensures
        assoc_map(s).contains_key(s[i].0),
        assoc_map(s)[s[i].0] == s[i].1,
{
    let k = s[i].0;
    assert(has_key(s, k));
    let j = assoc_index(s, k);
    assert(0 <= j < s.len() && s[j].0 == k);
    lemma_sorted_unique(s, i, j);
    assert(assoc_map(s)[k] == assoc_value(s, k));
}

/// A subsequence of a sorted sequence, taken in order, is sorted.
pub proof fn lemma_sorted_push(s: Seq<EntryView>, e: EntryView)
    requires
        sorted_keys(s),
        forall|i: int| 0 <= i < s.len() ==> lex_lt(#[trigger] s[i].0, e.0),
    ensures
        sorted_keys(s.push(e)),
{
    assert forall|i: int, j: int| 0 <= i < j < s.push(e).len() implies lex_lt(
        #[trigger] s.push(e)[i].0,
        #[trigger] s.push(e)[j].0,
    ) by {
        if j == s.len() {
            assert(s.push(e)[j] == e);
            assert(s.push(e)[i] == s[i]);
        } else {
            assert(s.push(e)[i] == s[i]);
            assert(s.push(e)[j] == s[j]);
        }
    }
}

/// Every entry kept by `with_prefix` is an entry of the sequence with that prefix.
pub proof fn lemma_with_prefix_members(s: Seq<EntryView>, p: Seq<u8>)
    ensures
        forall|i: int| 0 <= i < with_prefix(s, p).len() ==> is_prefix(p, #[trigger] with_prefix(s, p)[i].0),
        forall|i: int| 0 <= i < with_prefix(s, p).len() ==> exists|j: int| 0 <= j < s.len() && s[j] == #[trigger] with_prefix(s, p)[i],
        forall|j: int| 0 <= j < s.len() && is_prefix(p, #[trigger] s[j].0) ==> exists|i: int| 0 <= i < with_prefix(s, p).len() && with_prefix(s, p)[i] == s[j],
        sorted_keys(s) ==> sorted_keys(with_prefix(s, p)),
        with_prefix(s, p).len() <= s.len(),
    decreases s.len(),
{
    if s.len() > 0 {
        let t = s.drop_last();
        lemma_with_prefix_members(t, p);
        let r = with_prefix(t, p);
        assert forall|i: int| 0 <= i < r.len() implies exists|j: int| 0 <= j < s.len() && s[j] == #[trigger] r[i] by {
            let j = choose|j: int| 0 <= j < t.len() && t[j] == r[i];
            assert(s[j] == t[j]);
        }
        assert forall|j: int| 0 <= j < s.len() && is_prefix(p, #[trigger] s[j].0) implies exists|i: int| 0 <= i < with_prefix(s, p).len() && with_prefix(s, p)[i] == s[j] by {
            if j < t.len() {
                assert(s[j] == t[j]);
                let i = choose|i: int| 0 <= i < r.len() && r[i] == t[j];
                if is_prefix(p, s.last().0) {
                    assert(with_prefix(s, p) == r.push(s.last()));
                    assert(with_prefix(s, p)[i] == r[i]);
                } else {
                    assert(with_prefix(s, p) == r);
                }
                assert(with_prefix(s, p)[i] == s[j]);
            } else {
                assert(s[j] == s.last());
                assert(with_prefix(s, p) == r.push(s.last()));
                assert(with_prefix(s, p)[r.len() as int] == s.last());
            }
        }
        if sorted_keys(s) {
            assert(sorted_keys(t)) by {
                assert forall|i: int, j: int| 0 <= i < j < t.len() implies lex_lt(#[trigger] t[i].0, #[trigger] t[j].0) by {
                    assert(t[i] == s[i] && t[j] == s[j]);
                }
            }
            if is_prefix(p, s.last().0) {
                assert forall|i: int| 0 <= i < r.len() implies lex_lt(#[trigger] r[i].0, s.last().0) by {
                    let j = choose|j: int| 0 <= j < t.len() && t[j] == r[i];
                    assert(s[j] == t[j]);
                }
                lemma_sorted_push(r, s.last());
            }
        }
    }
}

/// The entries with a prefix of two sequences one after the other.
pub proof fn lemma_with_prefix_concat(a: Seq<EntryView>, b: Seq<EntryView>, p: Seq<u8>)
    ensures
        with_prefix(a + b, p) == with_prefix(a, p) + with_prefix(b, p),
    decreases b.len(),
{
    if b.len() == 0 {
        assert(a + b =~= a);
        assert(with_prefix(a, p) + with_prefix(b, p) =~= with_prefix(a, p));
    } else {
        assert((a + b).drop_last() =~= a + b.drop_last());
        assert((a + b).last() == b.last());
        lemma_with_prefix_concat(a, b.drop_last(), p);
        if is_prefix(p, b.last().0) {
            assert(with_prefix(a, p) + with_prefix(b.drop_last(), p).push(b.last()) =~= (with_prefix(a, p)
                + with_prefix(b.drop_last(), p)).push(b.last()));
        }
    }
}

/// No entry of `s` has the prefix: none is kept.
pub proof fn lemma_with_prefix_none(s: Seq<EntryView>, p: Seq<u8>)
    requires
        forall|i: int| 0 <= i < s.len() ==> !is_prefix(p, #[trigger] s[i].0),
    ensures
        with_prefix(s, p) == Seq::<EntryView>::empty(),
    decreases s.len(),
{
    if s.len() > 0 {
        assert(!is_prefix(p, s[s.len() - 1].0));
        assert forall|i: int| 0 <= i < s.drop_last().len() implies !is_prefix(p, #[trigger] s.drop_last()[i].0) by {
            assert(s.drop_last()[i] == s[i]);
        }
        lemma_with_prefix_none(s.drop_last(), p);
    }
}

/// Every key starts with the empty prefix.
pub proof fn lemma_with_prefix_all(s: Seq<EntryView>)
    ensures
        with_prefix(s, Seq::<u8>::empty()) == s,
    decreases s.len(),
{
    if s.len() > 0 {
        lemma_with_prefix_all(s.drop_last());
        assert(s.last().0.subrange(0, 0) =~= Seq::<u8>::empty());
        assert(s.drop_last().push(s.last()) =~= s);
    }
}

/// The key space: entries sorted by key, each key at most once.
pub struct ItemMap {
    entries: Vec<(Bytes, DbItem)>,
}

impl ItemMap {
    /// The entries, in key order, taken by their bytes.
    pub closed spec fn model(&self) -> Seq<EntryView> {
        entry_views(self.entries@)
    }

    /// The entries are sorted by key, each key at most once.
    pub closed spec fn wf(&self) -> bool {
        sorted_keys(self.model())
    }

    /// The map from keys to items.
    pub open spec fn view(&self) -> Map<Seq<u8>, ItemView> {
        assoc_map(self.model())
    }

    /// An empty key space.
    pub fn new() -> (m: Self)
        ensures
            m.wf(),
            m.model() == Seq::<EntryView>::empty(),
            m@ == Map::<Seq<u8>, ItemView>::empty(),
    {
        let m = ItemMap { entries: Vec::new() };
        assert(m.model() =~= Seq::<EntryView>::empty());
        assert(m@ =~= Map::<Seq<u8>, ItemView>::empty());
        m
    }

    /// The sorted entries are exactly the entries of the map.
    pub proof fn lemma_model_view(&self)
        requires
            self.wf(),
        ensures
            sorted_keys(self.model()),
            forall|i: int| 0 <= i < self.model().len() ==> self@.contains_key(#[trigger] self.model()[i].0) && self@[self.model()[i].0] == self.model()[i].1,
            forall|k: Seq<u8>| #[trigger] self@.contains_key(k) <==> has_key(self.model(), k),
    {
        assert forall|i: int| 0 <= i < self.model().len() implies self@.contains_key(#[trigger] self.model()[i].0) && self@[self.model()[i].0] == self.model()[i].1 by {
            lemma_assoc_at(self.model(), i);
        }
    }

    /// Number of entries.
    pub fn len(&self) -> (n: usize)
        ensures
            n == self.model().len(),
    {
        self.entries.len()
    }

    /// Binary search: the index of `key`, or where it would be inserted.
    fn find(&self, key: &[u8]) -> (r: Result<usize, usize>)
        requires
            self.wf(),
        ensures
            match r {
                Ok(i) => i < self.model().len() && self.model()[i as int].0 == key@,
                Err(i) => i <= self.model().len() && (forall|j: int| 0 <= j < i ==> lex_lt(#[trigger] self.model()[j].0, key@)) && (forall|j: int| i <= j < self.model().len() ==> lex_lt(key@, #[trigger] self.model()[j].0)),
            },
    {
        let ghost m = self.model();
        let mut lo: usize = 0;
        let mut hi: usize = self.entries.len();
        while lo < hi
            invariant
                m == self.model(),
                sorted_keys(m),
                0 <= lo <= hi <= m.len(),
                m.len() == self.entries@.len(),
                forall|j: int| 0 <= j < lo ==> lex_lt(#[trigger] m[j].0, key@),
                forall|j: int| hi <= j < m.len() ==> lex_lt(key@, #[trigger] m[j].0),
            decreases hi - lo,
        {
            let mid = lo + (hi - lo) / 2;
            let c = compare_bytes(bytes_slice(&self.entries[mid].0), key);
            assert(m[mid as int].0 == bytes_view(self.entries@[mid as int].0));
            if c == 0 {
                return Ok(mid);
            } else if c < 0 {
                assert forall|j: int| 0 <= j < mid + 1 implies lex_lt(#[trigger] m[j].0, key@) by {
                    if j < mid {
                        lemma_lex_transitive(m[j].0, m[mid as int].0, key@);
                    }
                }
                lo = mid + 1;
            } else {
                assert forall|j: int| mid <= j < m.len() implies lex_lt(key@, #[trigger] m[j].0) by {
                    if j > mid && j < hi {
                        lemma_lex_transitive(key@, m[mid as int].0, m[j].0);
                    }
                }
                hi = mid;
            }
        }
        Err(lo)
    }

    /// The item stored under `key`.
    pub fn get(&self, key: &[u8]) -> (r: Option<&DbItem>)
        requires
            self.wf(),
        ensures
            match r {
                Some(item) => self@.contains_key(key@) && item@ == self@[key@],
                None => !self@.contains_key(key@),
            },
    {
        proof {
            self.lemma_model_view();
        }
        match self.find(key) {
            Ok(i) => {
                assert(self.model()[i as int].1 == self.entries@[i as int].1@);
                Some(&self.entries[i].1)
            },
            Err(i) => {
                assert(!has_key(self.model(), key@)) by {
                    if has_key(self.model(), key@) {
                        let j = choose|j: int| 0 <= j < self.model().len() && #[trigger] self.model()[j].0 == key@;
                        if j < i {
                            lemma_lex_irreflexive(key@);
                        } else {
                            lemma_lex_irreflexive(key@);
                        }
                    }
                }
                None
            },
        }
    }

    /// Whether `key` is stored.
    pub fn contains_key(&self, key: &[u8]) -> (b: bool)
        requires
            self.wf(),
        ensures
            b == self@.contains_key(key@),
    {
        self.get(key).is_some()
    }

    /// Stores `item` under `key`, giving back the item that was stored there.
    pub fn insert(&mut self, key: Bytes, item: DbItem) -> (r: Option<DbItem>)
        requires
            old(self).wf(),
        ensures
            final(self).wf(),
            final(self)@ == old(self)@.insert(bytes_view(key), item@),
            match r {
                Some(o) => old(self)@.contains_key(bytes_view(key)) && o@ == old(self)@[bytes_view(key)],
                None => !old(self)@.contains_key(bytes_view(key)),
            },
    {
        let ghost k = bytes_view(key);
        let ghost v = item@;
        let ghost m0 = self.model();
        proof {
            self.lemma_model_view();
        }
        match self.find(bytes_slice(&key)) {
            Ok(i) => {
                let (old_key, old_item) = self.entries.remove(i);
                self.entries.insert(i, (old_key, item));
                let ghost m1 = self.model();
                assert(m1 =~= m0.update(i as int, (k, v))) by {
                    assert forall|j: int| 0 <= j < m1.len() implies m1[j] == m0.update(i as int, (k, v))[j] by {
                        if j < i {
                            assert(self.entries@[j] == old(self).entries@[j]);
                        } else if j > i {
                            assert(self.entries@[j] == old(self).entries@[j]);
                        }
                    }
                }
                assert(sorted_keys(m1)) by {
                    assert forall|a: int, b: int| 0 <= a < b < m1.len() implies lex_lt(#[trigger] m1[a].0, #[trigger] m1[b].0) by {
                        assert(m1[a].0 == m0[a].0);
                        assert(m1[b].0 == m0[b].0);
                    }
                }
                assert(self@ =~= old(self)@.insert(k, v)) by {
                    assert forall|k2: Seq<u8>| #[trigger] self@.contains_key(k2) == old(self)@.insert(k, v).contains_key(k2) by {
                        if has_key(m1, k2) {
                            let j = choose|j: int| 0 <= j < m1.len() && #[trigger] m1[j].0 == k2;
                            assert(m0[j].0 == k2);
                        }
                        if has_key(m0, k2) {
                            let j = choose|j: int| 0 <= j < m0.len() && #[trigger] m0[j].0 == k2;
                            assert(m1[j].0 == k2);
                        }
                    }
                    assert forall|k2: Seq<u8>| #[trigger] self@.contains_key(k2) implies self@[k2] == old(self)@.insert(k, v)[k2] by {
                        assert(has_key(m1, k2));
                        let j = choose|j: int| 0 <= j < m1.len() && #[trigger] m1[j].0 == k2;
                        lemma_assoc_at(m1, j);
                        if j != i {
                            assert(m1[j] == m0[j]);
                            lemma_assoc_at(m0, j);
                            if k2 == k {
                                lemma_sorted_unique(m0, i as int, j);
                            }
                            assert(old(self)@.insert(k, v)[k2] == old(self)@[k2]);
                        } else {
                            assert(m1[j] == (k, v));
                        }
                    }
                }
                proof {
                    lemma_assoc_at(m0, i as int);
                }
                Some(old_item)
            },
            Err(i) => {
                self.entries.insert(i, (key, item));
                let ghost m1 = self.model();
                assert(m1 =~= m0.insert(i as int, (k, v))) by {
                    assert forall|j: int| 0 <= j < m1.len() implies m1[j] == m0.insert(i as int, (k, v))[j] by {
                        if j < i {
                            assert(self.entries@[j] == old(self).entries@[j]);
                        } else if j > i {
                            assert(self.entries@[j] == old(self).entries@[j - 1]);
                        }
                    }
                }
                assert(sorted_keys(m1)) by {
                    assert forall|a: int, b: int| 0 <= a < b < m1.len() implies lex_lt(#[trigger] m1[a].0, #[trigger] m1[b].0) by {
                        if a < i && b < i {
                            assert(m1[a] == m0[a] && m1[b] == m0[b]);
                        } else if a < i && b == i {
                            assert(m1[a] == m0[a]);
                        } else if a < i && b > i {
                            assert(m1[a] == m0[a] && m1[b] == m0[b - 1]);
                        } else if a == i {
                            assert(m1[b] == m0[b - 1]);
                        } else {
                            assert(m1[a] == m0[a - 1] && m1[b] == m0[b - 1]);
                        }
                    }
                }
                assert(!has_key(m0, k)) by {
                    if has_key(m0, k) {
                        let j = choose|j: int| 0 <= j < m0.len() && #[trigger] m0[j].0 == k;
                        lemma_lex_irreflexive(k);
                    }
                }
                assert(self@ =~= old(self)@.insert(k, v)) by {
                    assert forall|k2: Seq<u8>| #[trigger] self@.contains_key(k2) == old(self)@.insert(k, v).contains_key(k2) by {
                        if has_key(m1, k2) {
                            let j = choose|j: int| 0 <= j < m1.len() && #[trigger] m1[j].0 == k2;
                            if j < i {
                                assert(m0[j].0 == k2);
                            } else if j > i {
                                assert(m0[j - 1].0 == k2);
                            }
                        }
                        if has_key(m0, k2) {
                            let j = choose|j: int| 0 <= j < m0.len() && #[trigger] m0[j].0 == k2;
                            if j < i {
                                assert(m1[j].0 == k2);
                            } else {
                                assert(m1[j + 1].0 == k2);
                            }
                        }
                        assert(m1[i as int].0 == k);
                    }
                    assert forall|k2: Seq<u8>| #[trigger] self@.contains_key(k2) implies self@[k2] == old(self)@.insert(k, v)[k2] by {
                        assert(has_key(m1, k2));
                        let j = choose|j: int| 0 <= j < m1.len() && #[trigger] m1[j].0 == k2;
                        lemma_assoc_at(m1, j);
                        assert(m1[i as int] == (k, v));
                        lemma_lex_irreflexive(k);
                        if j == i {
                            assert(self@[k2] == v);
                            assert(old(self)@.insert(k, v)[k2] == v);
                        }
                        if j < i {
                            assert(m1[j] == m0[j]);
                            lemma_assoc_at(m0, j);
                            assert(k2 != k);
                            assert(self@[k2] == old(self)@[k2]);
                            assert(old(self)@.insert(k, v)[k2] == old(self)@[k2]);
                        } else if j > i {
                            assert(m1[j] == m0[j - 1]);
                            lemma_assoc_at(m0, j - 1);
                            assert(k2 != k);
                            assert(self@[k2] == old(self)@[k2]);
                            assert(old(self)@.insert(k, v)[k2] == old(self)@[k2]);
                        }
                    }
                }
                None
            },
        }
    }

    /// Removes `key`, giving back the item that was stored there.
    pub fn remove(&mut self, key: &[u8]) -> (r: Option<DbItem>)
        requires
            old(self).wf(),
        ensures
            final(self).wf(),
            final(self)@ == old(self)@.remove(key@),
            match r {
                Some(o) => old(self)@.contains_key(key@) && o@ == old(self)@[key@],
                None => !old(self)@.contains_key(key@),
            },
    {
        let ghost k = key@;
        let ghost m0 = self.model();
        proof {
            self.lemma_model_view();
        }
        match self.find(key) {
            Ok(i) => {
                let (_old_key, old_item) = self.entries.remove(i);
                let ghost m1 = self.model();
                assert(m1 =~= m0.remove(i as int)) by {
                    assert forall|j: int| 0 <= j < m1.len() implies m1[j] == m0.remove(i as int)[j] by {
                        if j < i {
                            assert(self.entries@[j] == old(self).entries@[j]);
                        } else {
                            assert(self.entries@[j] == old(self).entries@[j + 1]);
                        }
                    }
                }
                assert(sorted_keys(m1)) by {
                    assert forall|a: int, b: int| 0 <= a < b < m1.len() implies lex_lt(#[trigger] m1[a].0, #[trigger] m1[b].0) by {
                        if b < i {
                            assert(m1[a] == m0[a] && m1[b] == m0[b]);
                        } else if a < i {
                            assert(m1[a] == m0[a] && m1[b] == m0[b + 1]);
                        } else {
                            assert(m1[a] == m0[a + 1] && m1[b] == m0[b + 1]);
                        }
                    }
                }
                assert(self@ =~= old(self)@.remove(k)) by {
                    assert forall|k2: Seq<u8>| #[trigger] self@.contains_key(k2) == old(self)@.remove(k).contains_key(k2) by {
                        if has_key(m1, k2) {
                            let j = choose|j: int| 0 <= j < m1.len() && #[trigger] m1[j].0 == k2;
                            if j < i {
                                assert(m0[j].0 == k2);
                                if k2 == k {
                                    lemma_sorted_unique(m0, j, i as int);
                                }
                            } else {
                                assert(m0[j + 1].0 == k2);
                                if k2 == k {
                                    lemma_sorted_unique(m0, j + 1, i as int);
                                }
                            }
                        }
                        if has_key(m0, k2) && k2 != k {
                            let j = choose|j: int| 0 <= j < m0.len() && #[trigger] m0[j].0 == k2;
                            if j < i {
                                assert(m1[j].0 == k2);
                            } else {
                                assert(j != i);
                                assert(m1[j - 1].0 == k2);
                            }
                        }
                    }
                    assert forall|k2: Seq<u8>| #[trigger] self@.contains_key(k2) implies self@[k2] == old(self)@.remove(k)[k2] by {
                        let j = choose|j: int| 0 <= j < m1.len() && #[trigger] m1[j].0 == k2;
                        lemma_assoc_at(m1, j);
                        if j < i {
                            lemma_assoc_at(m0, j);
                        } else {
                            lemma_assoc_at(m0, j + 1);
                        }
                    }
                }
                proof {
                    lemma_assoc_at(m0, i as int);
                }
                Some(old_item)
            },
            Err(i) => {
                assert(!has_key(m0, k)) by {
                    if has_key(m0, k) {
                        let j = choose|j: int| 0 <= j < m0.len() && #[trigger] m0[j].0 == k;
                        lemma_lex_irreflexive(k);
                    }
                }
                assert(self@ =~= old(self)@.remove(k));
                None
            },
        }
    }

    /// A copy of entry `i`.
    fn entry_copy(&self, i: usize) -> (e: (Bytes, DbItem))
        requires
            i < self.model().len(),
        ensures
            (bytes_view(e.0), e.1@) == self.model()[i as int],
    {
        let (k, item) = &self.entries[i];
        (bytes_clone(k), item.clone())
    }

    /// The first index whose key sorts no lower than `key`.
    fn lower_bound(&self, key: &[u8]) -> (i: usize)
        requires
            self.wf(),
        ensures
            i <= self.model().len(),
            forall|j: int| 0 <= j < i ==> lex_lt(#[trigger] self.model()[j].0, key@),
            forall|j: int| i <= j < self.model().len() ==> !lex_lt(#[trigger] self.model()[j].0, key@),
    {
        match self.find(key) {
            Ok(i) => {
                proof {
                    let m = self.model();
                    lemma_lex_irreflexive(key@);
                    assert forall|j: int| i <= j < m.len() implies !lex_lt(#[trigger] m[j].0, key@) by {
                        if j > i {
                            lemma_lex_asymmetric(m[i as int].0, m[j].0);
                        }
                    }
                }
                i
            },
            Err(i) => {
                proof {
                    let m = self.model();
                    assert forall|j: int| i <= j < m.len() implies !lex_lt(#[trigger] m[j].0, key@) by {
                        lemma_lex_asymmetric(key@, m[j].0);
                    }
                }
                i
            },
        }
    }

    /// Whether the key at `i` sorts strictly before `bound`.
    fn key_below(&self, i: usize, bound: &[u8]) -> (b: bool)
        requires
            i < self.model().len(),
        ensures
            b == lex_lt(self.model()[i as int].0, bound@),
    {
        compare_bytes(bytes_slice(&self.entries[i].0), bound) < 0
    }

    /// The entries whose key starts with `prefix`, in key order. Only the
    /// range from `prefix` up to `calculate_prefix_end(prefix)` is visited.
    pub fn scan_prefix(&self, prefix: &[u8]) -> (r: Vec<(Bytes, DbItem)>)
        requires
            self.wf(),
        ensures
            entry_views(r@) == with_prefix(self.model(), prefix@),
    {
        let ghost m = self.model();
        let lo = self.lower_bound(prefix);
        let end = calculate_prefix_end(prefix);
        let bounded = end.len() > 0;
        let mut result: Vec<(Bytes, DbItem)> = Vec::new();
        let mut i: usize = lo;
        assert(m.subrange(lo as int, lo as int) =~= Seq::<EntryView>::empty());
        assert(entry_views(result@) =~= Seq::<EntryView>::empty());
        while i < self.entries.len() && (!bounded || self.key_below(i, end.as_slice()))
            invariant
                m == self.model(),
                lo <= i <= m.len(),
                m.len() == self.entries@.len(),
                bounded == (end@.len() > 0),
                end@ == prefix_end(prefix@),
                entry_views(result@) == with_prefix(m.subrange(lo as int, i as int), prefix@),
            decreases m.len() - i,
        {
            assert(m.subrange(lo as int, i + 1).drop_last() =~= m.subrange(lo as int, i as int));
            assert(m.subrange(lo as int, i + 1).last() == m[i as int]);
            assert(m[i as int].0 == bytes_view(self.entries@[i as int].0));
            if starts_with(bytes_slice(&self.entries[i].0), prefix) {
                let e = self.entry_copy(i);
                let ghost before = entry_views(result@);
                result.push(e);
                assert(entry_views(result@) =~= before.push(m[i as int]));
            }
            i = i + 1;
        }
        proof {
            assert forall|j: int| 0 <= j < m.subrange(0, lo as int).len() implies !is_prefix(prefix@, #[trigger] m.subrange(0, lo as int)[j].0) by {
                assert(m.subrange(0, lo as int)[j] == m[j]);
                lemma_prefix_end(prefix@, m[j].0);
            }
            lemma_with_prefix_none(m.subrange(0, lo as int), prefix@);
            assert forall|j: int| 0 <= j < m.subrange(i as int, m.len() as int).len() implies !is_prefix(prefix@, #[trigger] m.subrange(i as int, m.len() as int)[j].0) by {
                let k = i + j;
                assert(m.subrange(i as int, m.len() as int)[j] == m[k]);
                lemma_prefix_end(prefix@, m[k].0);
                if k > i {
                    lemma_lex_total(m[i as int].0, end@);
                    if lex_lt(m[k].0, end@) {
                        lemma_lex_transitive(m[i as int].0, m[k].0, end@);
                        lemma_lex_asymmetric(m[i as int].0, m[k].0);
                    }
                }
            }
            lemma_with_prefix_none(m.subrange(i as int, m.len() as int), prefix@);
            lemma_with_prefix_concat(m.subrange(0, lo as int), m.subrange(lo as int, i as int), prefix@);
            lemma_with_prefix_concat(m.subrange(0, lo as int) + m.subrange(lo as int, i as int), m.subrange(i as int, m.len() as int), prefix@);
            assert(m.subrange(0, lo as int) + m.subrange(lo as int, i as int) + m.subrange(i as int, m.len() as int) =~= m);
            assert(with_prefix(m.subrange(0, lo as int), prefix@) + with_prefix(m.subrange(lo as int, i as int), prefix@) + with_prefix(m.subrange(i as int, m.len() as int), prefix@) =~= with_prefix(m.subrange(lo as int, i as int), prefix@));
        }
        result
    }

    /// The keys that start with `prefix`, in order.
    pub fn keys_with_prefix(&self, prefix: &[u8]) -> (r: Vec<Bytes>)
        requires
            self.wf(),
        ensures
            r@.map_values(|b: Bytes| bytes_view(b)) == with_prefix(self.model(), prefix@).map_values(|e: EntryView| e.0),
    {
        let ghost m = self.model();
        let mut result: Vec<Bytes> = Vec::new();
        let mut i: usize = 0;
        assert(result@.map_values(|b: Bytes| bytes_view(b)) =~= with_prefix(m.take(0), prefix@).map_values(|e: EntryView| e.0));
        while i < self.entries.len()
            invariant
                m == self.model(),
                i <= m.len(),
                m.len() == self.entries@.len(),
                result@.map_values(|b: Bytes| bytes_view(b)) == with_prefix(m.take(i as int), prefix@).map_values(|e: EntryView| e.0),
            decreases m.len() - i,
        {
            assert(m.take(i + 1).drop_last() =~= m.take(i as int));
            assert(m.take(i + 1).last() == m[i as int]);
            assert(m[i as int].0 == bytes_view(self.entries@[i as int].0));
            let ghost before = result@.map_values(|b: Bytes| bytes_view(b));
            let ghost w = with_prefix(m.take(i as int), prefix@);
            if starts_with(bytes_slice(&self.entries[i].0), prefix) {
                result.push(bytes_clone(&self.entries[i].0));
                assert(result@.map_values(|b: Bytes| bytes_view(b)) =~= before.push(m[i as int].0));
                assert(w.push(m[i as int]).map_values(|e: EntryView| e.0) =~= w.map_values(|e: EntryView| e.0).push(m[i as int].0));
            }
            i = i + 1;
        }
        assert(m.take(m.len() as int) =~= m);
        result
    }

    /// All entries, in key order.
    pub fn entries(&self) -> (r: Vec<(Bytes, DbItem)>)
        ensures
            entry_views(r@) == self.model(),
    {
        let ghost m = self.model();
        let mut result: Vec<(Bytes, DbItem)> = Vec::new();
        let mut i: usize = 0;
        assert(entry_views(result@) =~= m.take(0));
        while i < self.entries.len()
            invariant
                m == self.model(),
                i <= m.len(),
                m.len() == self.entries@.len(),
                entry_views(result@) == m.take(i as int),
            decreases m.len() - i,
        {
            let e = self.entry_copy(i);
            let ghost before = entry_views(result@);
            result.push(e);
            assert(entry_views(result@) =~= before.push(m[i as int]));
            assert(m.take(i + 1) =~= m.take(i as int).push(m[i as int]));
            i = i + 1;
        }
        assert(m.take(m.len() as int) =~= m);
        result
    }

    /// Removes every entry that has expired when the clock reads `now`,
    /// giving back how many were removed.
    pub fn remove_expired(&mut self, now: u128) -> (count: usize)
        requires
            old(self).wf(),
        ensures
            final(self).wf(),
            final(self).model() == unexpired(old(self).model(), now),
            count == old(self).model().len() - final(self).model().len(),
    {
        let ghost m = self.model();
        let mut kept: Vec<(Bytes, DbItem)> = Vec::new();
        let mut i: usize = 0;
        let n = self.entries.len();
        assert(entry_views(kept@) =~= unexpired(m.take(0), now));
        while i < n
            invariant
                m == self.model(),
                n == m.len(),
                i <= n,
                m.len() == self.entries@.len(),
                entry_views(kept@) == unexpired(m.take(i as int), now),
                kept@.len() <= i,
            decreases n - i,
        {
            assert(m.take(i + 1).drop_last() =~= m.take(i as int));
            assert(m.take(i + 1).last() == m[i as int]);
            assert(m[i as int].1 == self.entries@[i as int].1@);
            if !self.entries[i].1.is_expired_at(now) {
                let e = self.entry_copy(i);
                let ghost before = entry_views(kept@);
                kept.push(e);
                assert(entry_views(kept@) =~= before.push(m[i as int]));
            }
            i = i + 1;
        }
        assert(m.take(n as int) =~= m);
        let removed = n - kept.len();
        self.entries = kept;
        proof {
            lemma_unexpired_sorted(m, now);
            lemma_unexpired_members(m, now);
        }
        removed
    }

    /// The sum of the lengths of all keys and values, or `usize::MAX` if the
    /// sum is larger.
    pub fn total_size(&self) -> (r: usize)
        ensures
            r == if total_len(self.model()) > usize::MAX { usize::MAX as int } else { total_len(self.model()) },
    {
        let ghost m = self.model();
        let mut total: usize = 0;
        let mut i: usize = 0;
        while i < self.entries.len()
            invariant
                m == self.model(),
                i <= m.len(),
                m.len() == self.entries@.len(),
                total == if total_len(m.take(i as int)) > usize::MAX { usize::MAX as int } else { total_len(m.take(i as int)) },
            decreases m.len() - i,
        {
            assert(m.take(i + 1).drop_last() =~= m.take(i as int));
            assert(m.take(i + 1).last() == m[i as int]);
            assert(m[i as int].0 == bytes_view(self.entries@[i as int].0));
            assert(m[i as int].1.value == bytes_view(self.entries@[i as int].1.value));
            let kl = bytes_slice(&self.entries[i].0).len();
            let vl = bytes_slice(&self.entries[i].1.value).len();
            total = total.saturating_add(kl).saturating_add(vl);
            i = i + 1;
        }
        assert(m.take(m.len() as int) =~= m);
        total
    }
}

/// The sum of the lengths of the keys and values of `s`.
pub open spec fn total_len(s: Seq<EntryView>) -> int
    decreases s.len(),
{
    if s.len() == 0 {
        0
    } else {
        total_len(s.drop_last()) + s.last().0.len() + s.last().1.value.len()
    }
}

/// The entries kept by `unexpired` are the unexpired entries of the sequence.
pub proof fn lemma_unexpired_members(s: Seq<EntryView>, now: u128)
    ensures
        forall|i: int| 0 <= i < unexpired(s, now).len() ==> exists|j: int| 0 <= j < s.len() && s[j] == #[trigger] unexpired(s, now)[i],
        forall|i: int| 0 <= i < unexpired(s, now).len() ==> !expired_at(#[trigger] unexpired(s, now)[i].1.expires_at, now),
        forall|j: int| 0 <= j < s.len() && !expired_at(#[trigger] s[j].1.expires_at, now) ==> exists|i: int| 0 <= i < unexpired(s, now).len() && unexpired(s, now)[i] == s[j],
        unexpired(s, now).len() <= s.len(),
    decreases s.len(),
{
    if s.len() > 0 {
        let t = s.drop_last();
        lemma_unexpired_members(t, now);
        let r = unexpired(t, now);
        let u = unexpired(s, now);
        let keep = !expired_at(s.last().1.expires_at, now);
        assert forall|i: int| 0 <= i < u.len() implies exists|j: int| 0 <= j < s.len() && s[j] == #[trigger] u[i] by {
            if i < r.len() {
                assert(u[i] == r[i]);
                let j = choose|j: int| 0 <= j < t.len() && t[j] == r[i];
                assert(s[j] == t[j]);
            } else {
                assert(u[i] == s.last());
                assert(s[s.len() - 1] == s.last());
            }
        }
        assert forall|i: int| 0 <= i < u.len() implies !expired_at(#[trigger] u[i].1.expires_at, now) by {
            if i < r.len() {
                assert(u[i] == r[i]);
            }
        }
        assert forall|j: int| 0 <= j < s.len() && !expired_at(#[trigger] s[j].1.expires_at, now) implies exists|i: int| 0 <= i < u.len() && u[i] == s[j] by {
            if j < t.len() {
                assert(s[j] == t[j]);
                let i = choose|i: int| 0 <= i < r.len() && r[i] == t[j];
                assert(u[i] == r[i]);
            } else {
                assert(s[j] == s.last());
                assert(u[r.len() as int] == s.last());
            }
        }
    }
}

/// The entries kept by `unexpired` from a sorted sequence are sorted.
pub proof fn lemma_unexpired_sorted(s: Seq<EntryView>, now: u128)
    requires
        sorted_keys(s),
    ensures
        sorted_keys(unexpired(s, now)),
    decreases s.len(),
{
    if s.len() > 0 {
        let t = s.drop_last();
        assert(sorted_keys(t)) by {
            assert forall|i: int, j: int| 0 <= i < j < t.len() implies lex_lt(#[trigger] t[i].0, #[trigger] t[j].0) by {
                assert(t[i] == s[i] && t[j] == s[j]);
            }
        }
        lemma_unexpired_sorted(t, now);
        lemma_unexpired_members(t, now);
        let r = unexpired(t, now);
        if !expired_at(s.last().1.expires_at, now) {
            assert forall|i: int| 0 <= i < r.len() implies lex_lt(#[trigger] r[i].0, s.last().0) by {
                let j = choose|j: int| 0 <= j < t.len() && t[j] == r[i];
                assert(s[j] == t[j]);
            }
            lemma_sorted_push(r, s.last());
        }
    }
}

} // verus!
