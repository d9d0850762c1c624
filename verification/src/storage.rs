//! The in-memory storage backend: an ordered key space with statistics.

use crate::buffer::{bytes_copy, bytes_slice, bytes_view};
use crate::aof::{command_views, AOFCommand};
use crate::error::SpatioError;
use crate::store::{apply_commands, expired_keys, lemma_expired_split, seconds_to_nanos, without_expired};
use crate::ordered::{entry_views, total_len, unexpired, with_prefix, EntryView, ItemMap};
use crate::types::{expired_at, DbItem, ItemView};
use bytes::Bytes;
use vstd::prelude::*;

verus! {

/// Storage backend statistics
#[derive(Debug, Clone, Copy)]
pub struct StorageStats {
    /// Total number of keys
    pub key_count: usize,
    /// Number of expired keys cleaned up
    pub expired_count: usize,
    /// Storage size in bytes (approximate)
    pub size_bytes: usize,
    /// Number of operations performed
    pub operations_count: u64,
}

impl Default for StorageStats {
    fn default() -> (s: Self)
        ensures
            s == StorageStats::zero(),
    {
        StorageStats { key_count: 0, expired_count: 0, size_bytes: 0, operations_count: 0 }
    }
}

impl StorageStats {
    /// Statistics with every count at zero.
    pub open spec fn zero() -> StorageStats {
        StorageStats { key_count: 0, expired_count: 0, size_bytes: 0, operations_count: 0 }
    }
}

/// A storage operation of a batch.
#[derive(Debug)]
pub enum StorageOp {
    /// Put a key-value pair
    Put { key: Bytes, item: DbItem },
    /// Delete a key
    Delete { key: Bytes },
}

/// A storage operation, with its buffers taken by their bytes.
pub enum StorageOpView {
    Put { key: Seq<u8>, item: ItemView },
    Delete { key: Seq<u8> },
}

impl View for StorageOp {
    type V = StorageOpView;

    open spec fn view(&self) -> StorageOpView {
        match self {
            StorageOp::Put { key, item } => StorageOpView::Put { key: bytes_view(*key), item: item@ },
            StorageOp::Delete { key } => StorageOpView::Delete { key: bytes_view(*key) },
        }
    }
}

/// The key space after storage operations applied in order.
pub open spec fn apply_storage_ops(m: Map<Seq<u8>, ItemView>, ops: Seq<StorageOpView>) -> Map<
    Seq<u8>,
    ItemView,
>
    decreases ops.len(),
{
    if ops.len() == 0 {
        m
    } else {
        let r = apply_storage_ops(m, ops.drop_last());
        match ops.last() {
            StorageOpView::Put { key, item } => r.insert(key, item),
            StorageOpView::Delete { key } => r.remove(key),
        }
    }
}

/// In-memory storage backend.
pub struct MemoryBackend {
    data: ItemMap,
    stats: StorageStats,
}

impl MemoryBackend {
    /// The map from keys to items.
    pub closed spec fn view(&self) -> Map<Seq<u8>, ItemView> {
        self.data@
    }

    /// The entries in key order.
    pub closed spec fn entries_view(&self) -> Seq<EntryView> {
        self.data.model()
    }

    /// The statistics kept with the data.
    pub closed spec fn stats_view(&self) -> StorageStats {
        self.stats
    }

    /// The key space is sorted and the key count is the number of keys.
    pub closed spec fn wf(&self) -> bool {
        &&& self.data.wf()
        &&& self.stats.key_count == self.data.model().len()
    }

    /// The sorted entries stand for the map: each entry is a key of the map
    /// with the item stored under it, and each key of the map has an entry.
    pub proof fn lemma_entries(&self)
        requires
            self.wf(),
        ensures
            crate::ordered::sorted_keys(self.entries_view()),
            forall|i: int|
                0 <= i < self.entries_view().len() ==> self@.contains_key(#[trigger] self.entries_view()[i].0)
                    && self@[self.entries_view()[i].0] == self.entries_view()[i].1,
            forall|k: Seq<u8>| #[trigger] self@.contains_key(k) <==> crate::ordered::has_key(self.entries_view(), k),
            self.entries_view().len() == self@.dom().len(),
            self@.dom().finite(),
    {
        self.data.lemma_model_view();
        let es = self.entries_view();
        let ks = es.map_values(|e: EntryView| e.0);
        assert(ks.no_duplicates()) by {
            assert forall|i: int, j: int| 0 <= i < ks.len() && 0 <= j < ks.len() && i != j implies ks[i] != ks[j] by {
                if i < j {
                    crate::order::lemma_lex_irreflexive(es[i].0);
                    assert(crate::order::lex_lt(es[i].0, es[j].0));
                } else {
                    crate::order::lemma_lex_irreflexive(es[j].0);
                    assert(crate::order::lex_lt(es[j].0, es[i].0));
                }
            }
        }
        ks.unique_seq_to_set();
        vstd::seq_lib::seq_to_set_is_finite(ks);
        assert(ks.to_set() =~= self@.dom()) by {
            assert forall|k: Seq<u8>| ks.to_set().contains(k) <==> self@.dom().contains(k) by {
                if ks.to_set().contains(k) {
                    let i = choose|i: int| 0 <= i < ks.len() && #[trigger] ks[i] == k;
                    assert(es[i].0 == k);
                }
                if self@.dom().contains(k) {
                    assert(crate::ordered::has_key(es, k));
                    let i = choose|i: int| 0 <= i < es.len() && #[trigger] es[i].0 == k;
                    assert(ks[i] == k);
                }
            }
        }
    }

    /// An empty backend.
    pub fn new() -> (b: Self)
        ensures
            b.wf(),
            b@ == Map::<Seq<u8>, ItemView>::empty(),
            b.stats_view() == StorageStats::zero(),
    {
        MemoryBackend { data: ItemMap::new(), stats: StorageStats::default() }
    }

    /// An empty backend with a size estimate of 64 bytes for each of
    /// `capacity` items.
    pub fn with_capacity(capacity: usize) -> (b: Self)
        requires
            capacity * 64 <= usize::MAX,
        ensures
            b.wf(),
            b@ == Map::<Seq<u8>, ItemView>::empty(),
            b.stats_view() == (StorageStats { size_bytes: (capacity * 64) as usize, ..StorageStats::zero() }),
    {
        let mut b = Self::new();
        b.stats.size_bytes = capacity * 64;
        b
    }

    /// Stores a copy of `item` under `key`.
    pub fn put(&mut self, key: &[u8], item: &DbItem) -> (r: Result<(), SpatioError>)
        requires
            old(self).wf(),
            old(self).stats_view().operations_count < u64::MAX,
        ensures
            r is Ok,
            final(self).wf(),
            final(self)@ == old(self)@.insert(key@, item@),
            final(self).stats_view() == (StorageStats {
                key_count: final(self).stats_view().key_count,
                operations_count: (old(self).stats_view().operations_count + 1) as u64,
                ..old(self).stats_view()
            }),
    {
        self.data.insert(bytes_copy(key), item.clone());
        self.stats.key_count = self.data.len();
        self.stats.operations_count = self.stats.operations_count + 1;
        Ok(())
    }

    /// Applies recorded commands in order: a write is a put, a delete a
    /// delete, each counted as an operation.
    pub fn apply_all(&mut self, commands: Vec<AOFCommand>)
        requires
            old(self).wf(),
            old(self).stats_view().operations_count + commands@.len() <= u64::MAX,
        ensures
            final(self).wf(),
            final(self)@ == apply_commands(old(self)@, command_views(commands@)),
            final(self).stats_view() == (StorageStats {
                key_count: final(self).stats_view().key_count,
                operations_count: (old(self).stats_view().operations_count + commands@.len()) as u64,
                ..old(self).stats_view()
            }),
    {
        let ghost cs = command_views(commands@);
        let ghost m0 = self@;
        let mut rest = commands;
        let mut i: usize = 0;
        let n = rest.len();
        while rest.len() > 0
            invariant
                self.wf(),
                n == cs.len(),
                i + rest.len() == n,
                forall|j: int| 0 <= j < rest.len() ==> #[trigger] rest@[j]@ == cs[i + j],
                self@ == apply_commands(m0, cs.take(i as int)),
                old(self).stats_view().operations_count + n <= u64::MAX,
                self.stats_view() == (StorageStats {
                    key_count: self.stats_view().key_count,
                    operations_count: (old(self).stats_view().operations_count + i) as u64,
                    ..old(self).stats_view()
                }),
            decreases rest.len(),
        {
            let c = rest.remove(0);
            assert(c@ == cs[i as int]);
            assert(cs.take(i + 1).drop_last() =~= cs.take(i as int));
            match c {
                AOFCommand::SetItem { key, value, expires_at } => {
                    let item = DbItem {
                        value,
                        expires_at: match expires_at {
                            Some(secs) => Some(seconds_to_nanos(secs)),
                            None => None,
                        },
                    };
                    let _ = self.put(bytes_slice(&key), &item);
                },
                AOFCommand::Delete { key } => {
                    let _ = self.delete(bytes_slice(&key));
                },
            }
            i = i + 1;
        }
        assert(cs.take(n as int) =~= cs);
    }

    /// A copy of the item stored under `key`.
    pub fn get(&self, key: &[u8]) -> (r: Result<Option<DbItem>, SpatioError>)
        requires
            self.wf(),
        ensures
            match r {
                Ok(Some(item)) => self@.contains_key(key@) && item@ == self@[key@],
                Ok(None) => !self@.contains_key(key@),
                Err(_) => false,
            },
    {
        match self.data.get(key) {
            Some(item) => Ok(Some(item.clone())),
            None => Ok(None),
        }
    }

    /// Deletes `key`, giving back the item that was stored there.
    pub fn delete(&mut self, key: &[u8]) -> (r: Result<Option<DbItem>, SpatioError>)
        requires
            old(self).wf(),
            old(self).stats_view().operations_count < u64::MAX,
        ensures
            final(self).wf(),
            final(self)@ == old(self)@.remove(key@),
            match r {
                Ok(Some(item)) => old(self)@.contains_key(key@) && item@ == old(self)@[key@],
                Ok(None) => !old(self)@.contains_key(key@),
                Err(_) => false,
            },
            final(self).stats_view() == (StorageStats {
                key_count: final(self).stats_view().key_count,
                operations_count: (old(self).stats_view().operations_count + 1) as u64,
                ..old(self).stats_view()
            }),
    {
        let old = self.data.remove(key);
        self.stats.key_count = self.data.len();
        self.stats.operations_count = self.stats.operations_count + 1;
        Ok(old)
    }

    /// Whether `key` is stored.
    pub fn contains_key(&self, key: &[u8]) -> (r: Result<bool, SpatioError>)
        requires
            self.wf(),
        ensures
            r == Ok::<bool, SpatioError>(self@.contains_key(key@)),
    {
        Ok(self.data.contains_key(key))
    }

    /// The keys that start with `prefix`, in key order.
    pub fn keys_with_prefix(&self, prefix: &[u8]) -> (r: Result<Vec<Bytes>, SpatioError>)
        requires
            self.wf(),
        ensures
            match r {
                Ok(keys) => keys@.map_values(|b: Bytes| bytes_view(b)) == with_prefix(
                    self.entries_view(),
                    prefix@,
                ).map_values(|e: EntryView| e.0),
                Err(_) => false,
            },
    {
        Ok(self.data.keys_with_prefix(prefix))
    }

    /// The entries whose key starts with `prefix`, in key order.
    pub fn scan_prefix(&self, prefix: &[u8]) -> (r: Result<Vec<(Bytes, DbItem)>, SpatioError>)
        requires
            self.wf(),
        ensures
            match r {
                Ok(found) => entry_views(found@) == with_prefix(self.entries_view(), prefix@),
                Err(_) => false,
            },
    {
        Ok(self.data.scan_prefix(prefix))
    }

    /// Number of keys.
    pub fn len(&self) -> (r: Result<usize, SpatioError>)
        requires
            self.wf(),
        ensures
            r == Ok::<usize, SpatioError>(self.entries_view().len() as usize),
    {
        Ok(self.data.len())
    }

    /// Whether no key is stored.
    pub fn is_empty(&self) -> (r: Result<bool, SpatioError>)
        requires
            self.wf(),
        ensures
            r == Ok::<bool, SpatioError>(self.entries_view().len() == 0),
    {
        Ok(self.data.len() == 0)
    }

    /// Nothing is pending in memory: does nothing.
    pub fn sync(&mut self) -> (r: Result<(), SpatioError>)
        ensures
            r is Ok,
            *final(self) == *old(self),
    {
        Ok(())
    }

    /// Drops every key and resets the statistics.
    pub fn close(&mut self) -> (r: Result<(), SpatioError>)
        ensures
            r is Ok,
            final(self).wf(),
            final(self)@ == Map::<Seq<u8>, ItemView>::empty(),
            final(self).stats_view() == StorageStats::zero(),
    {
        self.data = ItemMap::new();
        self.stats = StorageStats::default();
        Ok(())
    }

    /// The statistics, with the key count and the size in bytes of all keys
    /// and values taken now.
    pub fn stats(&self) -> (r: Result<StorageStats, SpatioError>)
        requires
            self.wf(),
        ensures
            match r {
                Ok(s) => s == (StorageStats {
                    key_count: self.entries_view().len() as usize,
                    size_bytes: (if total_len(self.entries_view()) > usize::MAX {
                        usize::MAX as int
                    } else {
                        total_len(self.entries_view())
                    }) as usize,
                    ..self.stats_view()
                }),
                Err(_) => false,
            },
    {
        let mut s = self.stats;
        s.key_count = self.data.len();
        s.size_bytes = self.data.total_size();
        Ok(s)
    }

    /// Applies storage operations in order.
    pub fn batch(&mut self, ops: &[StorageOp]) -> (r: Result<(), SpatioError>)
        requires
            old(self).wf(),
            old(self).stats_view().operations_count + ops@.len() <= u64::MAX,
        ensures
            r is Ok,
            final(self).wf(),
            final(self)@ == apply_storage_ops(old(self)@, ops@.map_values(|o: StorageOp| o@)),
            final(self).stats_view() == (StorageStats {
                key_count: final(self).stats_view().key_count,
                operations_count: (old(self).stats_view().operations_count + ops@.len()) as u64,
                ..old(self).stats_view()
            }),
    {
        let ghost vs = ops@.map_values(|o: StorageOp| o@);
        let mut i: usize = 0;
        while i < ops.len()
            invariant
                self.wf(),
                i <= ops@.len(),
                vs == ops@.map_values(|o: StorageOp| o@),
                old(self).stats_view().operations_count + ops@.len() <= u64::MAX,
                self@ == apply_storage_ops(old(self)@, vs.take(i as int)),
                self.stats_view() == (StorageStats {
                    key_count: self.stats_view().key_count,
                    operations_count: (old(self).stats_view().operations_count + i) as u64,
                    ..old(self).stats_view()
                }),
            decreases ops@.len() - i,
        {
            assert(vs.take(i + 1).drop_last() =~= vs.take(i as int));
            assert(vs.take(i + 1).last() == ops@[i as int]@);
            match &ops[i] {
                StorageOp::Put { key, item } => {
                    self.put(bytes_slice(key), item);
                },
                StorageOp::Delete { key } => {
                    self.delete(bytes_slice(key));
                },
            }
            i = i + 1;
        }
        assert(vs.take(ops@.len() as int) =~= vs);
        Ok(())
    }

    /// All entries, in key order.
    pub fn iter(&self) -> (r: Result<Vec<(Bytes, DbItem)>, SpatioError>)
        requires
            self.wf(),
        ensures
            match r {
                Ok(all) => entry_views(all@) == self.entries_view(),
                Err(_) => false,
            },
    {
        Ok(self.data.entries())
    }

    /// Removes the items that have expired when the clock reads `now`, and
    /// gives back how many there were.
    pub fn cleanup_expired(&mut self, now: u128) -> (r: Result<usize, SpatioError>)
        requires
            old(self).wf(),
            old(self).stats_view().expired_count + old(self).entries_view().len() <= usize::MAX,
        ensures
            final(self).wf(),
            final(self).entries_view() == unexpired(old(self).entries_view(), now),
            final(self)@ == without_expired(old(self)@, now),
            match r {
                Ok(count) => count == expired_keys(old(self)@, now).len()
                    && count == old(self).entries_view().len() - final(self).entries_view().len()
                    && final(self).stats_view() == (StorageStats {
                    key_count: final(self).entries_view().len() as usize,
                    expired_count: (old(self).stats_view().expired_count + count) as usize,
                    ..old(self).stats_view()
                }),
                Err(_) => false,
            },
    {
        let ghost before = *self;
        let count = self.data.remove_expired(now);
        self.stats.key_count = self.data.len();
        self.stats.expired_count = self.stats.expired_count + count;
        proof {
            lemma_cleanup_view(before, *self, now);
            before.lemma_entries();
            self.lemma_entries();
            lemma_expired_split(before@, now);
        }
        Ok(count)
    }
}

/// An unexpired entry is kept by `unexpired`.
proof fn lemma_unexpired_found(s: Seq<EntryView>, now: u128, j: int)
    requires
        0 <= j < s.len(),
        !expired_at(s[j].1.expires_at, now),
    ensures
        exists|i: int| 0 <= i < unexpired(s, now).len() && #[trigger] unexpired(s, now)[i] == s[j],
{
    crate::ordered::lemma_unexpired_members(s, now);
}

/// Where the entries left are the unexpired ones, the map left is the map
/// without its expired items.
proof fn lemma_cleanup_view(before: MemoryBackend, after: MemoryBackend, now: u128)
    requires
        before.wf(),
        after.wf(),
        after.entries_view() == unexpired(before.entries_view(), now),
    ensures
        after@ == without_expired(before@, now),
{
    let old_es = before.entries_view();
    let new_es = after.entries_view();
    assert forall|k: Seq<u8>| #[trigger] after@.contains_key(k) implies before@.contains_key(k) && !expired_at(
        before@[k].expires_at,
        now,
    ) && after@[k] == before@[k] by {
        before.data.lemma_model_view();
        after.data.lemma_model_view();
        crate::ordered::lemma_unexpired_members(old_es, now);
        let i = choose|i: int| 0 <= i < new_es.len() && #[trigger] new_es[i].0 == k;
        let j = choose|j: int| 0 <= j < old_es.len() && old_es[j] == #[trigger] unexpired(old_es, now)[i];
        assert(before@[old_es[j].0] == old_es[j].1);
    }
    assert forall|k: Seq<u8>| #[trigger] before@.contains_key(k) && !expired_at(before@[k].expires_at, now) implies after@.contains_key(k) by {
        before.data.lemma_model_view();
        assert(crate::ordered::has_key(old_es, k));
        let j = choose|j: int| 0 <= j < old_es.len() && #[trigger] old_es[j].0 == k;
        assert(before@[old_es[j].0] == old_es[j].1);
        lemma_unexpired_found(old_es, now, j);
        let i = choose|i: int| 0 <= i < unexpired(old_es, now).len() && #[trigger] unexpired(old_es, now)[i] == old_es[j];
        assert(new_es[i].0 == k);
        after.data.lemma_model_view();
        assert(crate::ordered::has_key(new_es, k));
    }
    assert(after@ =~= without_expired(before@, now));
}

impl Default for MemoryBackend {
    fn default() -> (b: Self)
        ensures
            b.wf(),
            b@ == Map::<Seq<u8>, ItemView>::empty(),
            b.stats_view() == StorageStats::zero(),
    {
        Self::new()
    }
}

} // verus!
