//! The database core: the key space, the expiration index and statistics.
//!
//! `Store` holds what the database keeps in memory. Every key with an
//! expiration time is recorded in the expiration index under that time, and
//! nothing else is: the two agree after every operation.

use crate::aof::{
    command_views, encode_log, fields_fit, lemma_replay_encoded_log, recorded_expiry, replay_commands, replay_spec,
    AOFCommand, CommandView,
};
use crate::buffer::{bytes_clone, bytes_copy, bytes_slice, bytes_view};
use crate::error::SpatioError;
use crate::expiry::ExpiryIndex;
use crate::ordered::{unexpired, with_prefix, EntryView, ItemMap};
use crate::types::{expired_at, later, DbItem, DbStats, ItemView, SetOptions, NANOS_PER_SEC};
use bytes::Bytes;
use vstd::prelude::*;

verus! {

/// The views of keys paired with values.
pub open spec fn key_value_views(v: Seq<(Bytes, Bytes)>) -> Seq<(Seq<u8>, Seq<u8>)> {
    v.map_values(|p: (Bytes, Bytes)| (bytes_view(p.0), bytes_view(p.1)))
}

/// The expiration that a write with options `opts` gives an item when the
/// clock reads `now`: an absolute expiration takes precedence over a TTL,
/// which counts from `now`.
pub open spec fn write_expiry(opts: Option<SetOptions>, now: u128) -> Option<u128> {
    match opts {
        Some(o) => match o.expires_at {
            Some(t) => Some(t),
            None => match o.ttl {
                Some(ttl) => Some(later(now, ttl)),
                None => None,
            },
        },
        None => None,
    }
}

/// The value that a read of `k` gives when the clock reads `now`: the stored
/// value, unless there is none or it has expired.
pub open spec fn live_value(m: Map<Seq<u8>, ItemView>, k: Seq<u8>, now: u128) -> Option<Seq<u8>> {
    if m.contains_key(k) && !expired_at(m[k].expires_at, now) {
        Some(m[k].value)
    } else {
        None
    }
}

/// The key space after a write of `v` under `k` with options `opts` at `now`.
pub open spec fn after_write(
    m: Map<Seq<u8>, ItemView>,
    k: Seq<u8>,
    v: Seq<u8>,
    opts: Option<SetOptions>,
    now: u128,
) -> Map<Seq<u8>, ItemView> {
    m.insert(k, ItemView { value: v, expires_at: write_expiry(opts, now) })
}

/// The key space without the items that have expired when the clock reads `now`.
pub open spec fn without_expired(m: Map<Seq<u8>, ItemView>, now: u128) -> Map<Seq<u8>, ItemView> {
    m.restrict(m.dom().filter(|k: Seq<u8>| !expired_at(m[k].expires_at, now)))
}

/// The keys whose items have expired when the clock reads `now`.
pub open spec fn expired_keys(m: Map<Seq<u8>, ItemView>, now: u128) -> Set<Seq<u8>> {
    m.dom().filter(|k: Seq<u8>| expired_at(m[k].expires_at, now))
}

/// The keys of a finite key space are those kept by a cleanup and those it
/// removes, and no key is both.
pub proof fn lemma_expired_split(m: Map<Seq<u8>, ItemView>, now: u128)
    requires
        m.dom().finite(),
    ensures
        without_expired(m, now).dom().finite(),
        m.dom().len() == without_expired(m, now).dom().len() + expired_keys(m, now).len(),
{
    let kept = without_expired(m, now).dom();
    let gone = expired_keys(m, now);
    assert(kept =~= m.dom().filter(|k: Seq<u8>| !expired_at(m[k].expires_at, now)));
    m.dom().lemma_len_filter(|k: Seq<u8>| !expired_at(m[k].expires_at, now));
    m.dom().lemma_len_filter(|k: Seq<u8>| expired_at(m[k].expires_at, now));
    assert(kept.disjoint(gone));
    vstd::set_lib::lemma_set_disjoint_lens(kept, gone);
    assert(kept + gone =~= m.dom());
}

/// A time in whole seconds since the Unix epoch, in nanoseconds.
pub open spec fn secs_to_nanos(secs: u64) -> u128 {
    (secs * NANOS_PER_SEC) as u128
}

/// The key space after one recorded command is applied to it.
pub open spec fn apply_command(m: Map<Seq<u8>, ItemView>, c: CommandView) -> Map<Seq<u8>, ItemView> {
    match c {
        CommandView::SetItem { key, value, expires_at } => m.insert(
            key,
            ItemView {
                value,
                expires_at: match expires_at {
                    Some(secs) => Some(secs_to_nanos(secs)),
                    None => None,
                },
            },
        ),
        CommandView::Delete { key } => m.remove(key),
    }
}

/// The key space after recorded commands are applied to it in order.
pub open spec fn apply_commands(m: Map<Seq<u8>, ItemView>, cs: Seq<CommandView>) -> Map<Seq<u8>, ItemView>
    decreases cs.len(),
{
    if cs.len() == 0 {
        m
    } else {
        apply_command(apply_commands(m, cs.drop_last()), cs.last())
    }
}

/// The view of an optional buffer.
pub open spec fn opt_bytes(b: Option<Bytes>) -> Option<Seq<u8>> {
    match b {
        Some(x) => Some(bytes_view(x)),
        None => None,
    }
}

/// The database core.
pub struct Store {
    keys: ItemMap,
    expirations: ExpiryIndex,
    stats: DbStats,
}

impl Store {
    /// The map from keys to items.
    pub closed spec fn view(&self) -> Map<Seq<u8>, ItemView> {
        self.keys@
    }

    /// The entries in key order.
    pub closed spec fn entries(&self) -> Seq<EntryView> {
        self.keys.model()
    }

    /// The statistics kept with the data.
    pub closed spec fn stats_view(&self) -> DbStats {
        self.stats
    }

    /// The key space is sorted, the expiration index records exactly the
    /// expiration time of every key that has one, and the key count is the
    /// number of keys.
    pub closed spec fn wf(&self) -> bool {
        &&& self.keys.wf()
        &&& self.expirations.wf()
        &&& forall|t: u128, k: Seq<u8>| #[trigger] self.expirations.contains(t, k) <==> (self.keys@.contains_key(k) && self.keys@[k].expires_at == Some(t))
        &&& self.stats.key_count == self.keys.model().len()
    }

    /// The sorted entries stand for the map.
    pub proof fn lemma_entries(&self)
        requires
            self.wf(),
        ensures
            crate::ordered::sorted_keys(self.entries()),
            forall|i: int| 0 <= i < self.entries().len() ==> self@.contains_key(#[trigger] self.entries()[i].0) && self@[self.entries()[i].0] == self.entries()[i].1,
            forall|k: Seq<u8>| #[trigger] self@.contains_key(k) <==> crate::ordered::has_key(self.entries(), k),
    {
        self.keys.lemma_model_view();
    }

    /// An empty store.
    pub fn new() -> (s: Self)
        ensures
            s.wf(),
            s@ == Map::<Seq<u8>, ItemView>::empty(),
            s.stats_view() == DbStats::new_spec(),
    {
        let s = Store { keys: ItemMap::new(), expirations: ExpiryIndex::new(), stats: DbStats::new() };
        s
    }

    /// Number of keys.
    pub fn len(&self) -> (n: usize)
        ensures
            n == self.entries().len(),
    {
        self.keys.len()
    }

    /// Database statistics.
    pub fn stats(&self) -> (s: DbStats)
        requires
            self.wf(),
        ensures
            s == self.stats_view(),
            s.key_count == self.entries().len(),
    {
        self.stats
    }

    /// Stores `item` under `key`, giving back the item that was stored there.
    pub fn insert_item(&mut self, key: Bytes, item: DbItem) -> (r: Option<DbItem>)
        requires
            old(self).wf(),
        ensures
            final(self).wf(),
            final(self)@ == old(self)@.insert(bytes_view(key), item@),
            match r {
                Some(o) => old(self)@.contains_key(bytes_view(key)) && o@ == old(self)@[bytes_view(key)],
                None => !old(self)@.contains_key(bytes_view(key)),
            },
            final(self).stats_view() == (DbStats { key_count: final(self).stats_view().key_count, ..old(self).stats_view() }),
    {
        let ghost k = bytes_view(key);
        let ghost m0 = self.keys@;
        match self.keys.get(bytes_slice(&key)) {
            Some(old_item) => {
                match old_item.expires_at {
                    Some(t) => {
                        self.expirations.remove(t, bytes_slice(&key));
                    },
                    None => {},
                }
            },
            None => {},
        }
        match item.expires_at {
            Some(t) => {
                self.expirations.add(t, bytes_clone(&key));
            },
            None => {},
        }
        let ghost iv = item@;
        let r = self.keys.insert(key, item);
        self.stats.key_count = self.keys.len();
        assert forall|t: u128, k2: Seq<u8>| #[trigger] self.expirations.contains(t, k2) <==> (self.keys@.contains_key(k2) && self.keys@[k2].expires_at == Some(t)) by {
            if k2 != k {
                assert(old(self).expirations.contains(t, k2) == self.expirations.contains(t, k2));
            }
        }
        r
    }

    /// Removes `key`, giving back the item that was stored there.
    pub fn remove_item(&mut self, key: &[u8]) -> (r: Option<DbItem>)
        requires
            old(self).wf(),
        ensures
            final(self).wf(),
            final(self)@ == old(self)@.remove(key@),
            match r {
                Some(o) => old(self)@.contains_key(key@) && o@ == old(self)@[key@],
                None => !old(self)@.contains_key(key@),
            },
            final(self).stats_view() == (DbStats { key_count: final(self).stats_view().key_count, ..old(self).stats_view() }),
    {
        let r = self.keys.remove(key);
        match &r {
            Some(item) => {
                match item.expires_at {
                    Some(t) => {
                        self.expirations.remove(t, key);
                    },
                    None => {},
                }
            },
            None => {},
        }
        self.stats.key_count = self.keys.len();
        assert forall|t: u128, k2: Seq<u8>| #[trigger] self.expirations.contains(t, k2) <==> (self.keys@.contains_key(k2) && self.keys@[k2].expires_at == Some(t)) by {
            if k2 != key@ {
                assert(old(self).expirations.contains(t, k2) == self.expirations.contains(t, k2));
            }
        }
        r
    }

    /// The item stored under `key`, expired or not.
    pub fn get_item(&self, key: &[u8]) -> (r: Option<&DbItem>)
        requires
            self.wf(),
        ensures
            match r {
                Some(item) => self@.contains_key(key@) && item@ == self@[key@],
                None => !self@.contains_key(key@),
            },
    {
        self.keys.get(key)
    }

    /// Removes every item that has expired when the clock reads `now`.
    pub fn cleanup_expired(&mut self, now: u128)
        requires
            old(self).wf(),
        ensures
            final(self).wf(),
            final(self)@ == without_expired(old(self)@, now),
            final(self).stats_view() == (DbStats { key_count: final(self).stats_view().key_count, ..old(self).stats_view() }),
    {
        let ghost m0 = self.keys@;
        let due = self.expirations.take_due(now);
        let ghost e1 = self.expirations;
        let ghost dv = due@.map_values(|b: Bytes| bytes_view(b));
        let mut i: usize = 0;
        while i < due.len()
            invariant
                self.keys.wf(),
                self.expirations == e1,
                self.stats == old(self).stats,
                i <= due@.len(),
                dv == due@.map_values(|b: Bytes| bytes_view(b)),
                forall|k: Seq<u8>| #[trigger] self.keys@.contains_key(k) == (m0.contains_key(k) && !dv.take(i as int).contains(k)),
                forall|k: Seq<u8>| #[trigger] self.keys@.contains_key(k) ==> self.keys@[k] == m0[k],
            decreases due@.len() - i,
        {
            self.keys.remove(bytes_slice(&due[i]));
            assert forall|k: Seq<u8>| dv.take(i + 1).contains(k) == (dv.take(i as int).contains(k) || k == dv[i as int]) by {
                if dv.take(i + 1).contains(k) {
                    let j = choose|j: int| 0 <= j < dv.take(i + 1).len() && #[trigger] dv.take(i + 1)[j] == k;
                    if j < i {
                        assert(dv.take(i as int)[j] == k);
                    }
                }
                if dv.take(i as int).contains(k) {
                    let j = choose|j: int| 0 <= j < dv.take(i as int).len() && #[trigger] dv.take(i as int)[j] == k;
                    assert(dv.take(i + 1)[j] == k);
                }
                if k == dv[i as int] {
                    assert(dv.take(i + 1)[i as int] == k);
                }
            }
            i = i + 1;
        }
        assert(dv.take(due@.len() as int) =~= dv);
        self.stats.key_count = self.keys.len();
        proof {
            assert forall|k: Seq<u8>| dv.contains(k) <==> (m0.contains_key(k) && expired_at(m0[k].expires_at, now)) by {
                if dv.contains(k) {
                    let j = choose|j: int| 0 <= j < dv.len() && #[trigger] dv[j] == k;
                    assert(old(self).expirations.due_by(now, bytes_view(due@[j])));
                    let t = choose|t: u128| t <= now && #[trigger] old(self).expirations.contains(t, k);
                }
                if m0.contains_key(k) && expired_at(m0[k].expires_at, now) {
                    let t = m0[k].expires_at.unwrap();
                    assert(old(self).expirations.contains(t, k));
                }
            }
            assert(self.keys@ =~= without_expired(m0, now));
            assert forall|t: u128, k2: Seq<u8>| #[trigger] self.expirations.contains(t, k2) <==> (self.keys@.contains_key(k2) && self.keys@[k2].expires_at == Some(t)) by {
                assert(e1.contains(t, k2) == (old(self).expirations.contains(t, k2) && t > now));
                if self.keys@.contains_key(k2) && self.keys@[k2].expires_at == Some(t) {
                    assert(old(self).expirations.contains(t, k2));
                }
            }
        }
    }

    /// Stores `value` under `key`, expiring as `opts` says with the clock
    /// reading `now` (an absolute expiration before a TTL), and gives back
    /// the value that was stored there.
    pub fn insert(&mut self, key: &[u8], value: &[u8], opts: Option<SetOptions>, now: u128) -> (r: Option<Bytes>)
        requires
            old(self).wf(),
        ensures
            final(self).wf(),
            final(self)@ == after_write(old(self)@, key@, value@, opts, now),
            opt_bytes(r) == (if old(self)@.contains_key(key@) { Some(old(self)@[key@].value) } else { None }),
            final(self).stats_view() == (DbStats { key_count: final(self).stats_view().key_count, ..old(self).stats_view() }),
    {
        let k = bytes_copy(key);
        let v = bytes_copy(value);
        let item = match opts {
            Some(SetOptions { expires_at: Some(expires_at), .. }) => DbItem::with_expiration(v, expires_at),
            Some(SetOptions { ttl: Some(ttl), .. }) => DbItem::with_ttl_from(v, ttl, now),
            _ => DbItem::new(v),
        };
        let old = self.insert_item(k, item);
        match old {
            Some(item) => Some(item.value),
            None => None,
        }
    }

    /// The value stored under `key`, unless it has expired when the clock reads `now`.
    pub fn get(&self, key: &[u8], now: u128) -> (r: Option<Bytes>)
        requires
            self.wf(),
        ensures
            opt_bytes(r) == live_value(self@, key@, now),
    {
        match self.keys.get(key) {
            Some(item) => {
                if !item.is_expired_at(now) {
                    Some(bytes_clone(&item.value))
                } else {
                    None
                }
            },
            None => None,
        }
    }

    /// Deletes `key`, giving back the value that was stored there.
    pub fn delete(&mut self, key: &[u8]) -> (r: Option<Bytes>)
        requires
            old(self).wf(),
        ensures
            final(self).wf(),
            final(self)@ == old(self)@.remove(key@),
            opt_bytes(r) == (if old(self)@.contains_key(key@) { Some(old(self)@[key@].value) } else { None }),
            final(self).stats_view() == (DbStats { key_count: final(self).stats_view().key_count, ..old(self).stats_view() }),
    {
        match self.remove_item(key) {
            Some(item) => Some(item.value),
            None => None,
        }
    }

    /// Applies one recorded command.
    pub fn apply(&mut self, command: AOFCommand)
        requires
            old(self).wf(),
        ensures
            final(self).wf(),
            final(self)@ == apply_command(old(self)@, command@),
            final(self).stats_view() == (DbStats { key_count: final(self).stats_view().key_count, ..old(self).stats_view() }),
    {
        match command {
            AOFCommand::SetItem { key, value, expires_at } => {
                let item = match expires_at {
                    Some(secs) => DbItem::with_expiration(value, seconds_to_nanos(secs)),
                    None => DbItem::new(value),
                };
                self.insert_item(key, item);
            },
            AOFCommand::Delete { key } => {
                self.remove_item(bytes_slice(&key));
            },
        }
    }

    /// Applies recorded commands in order.
    pub fn apply_all(&mut self, commands: Vec<AOFCommand>)
        requires
            old(self).wf(),
        ensures
            final(self).wf(),
            final(self)@ == apply_commands(old(self)@, command_views(commands@)),
            final(self).stats_view() == (DbStats { key_count: final(self).stats_view().key_count, ..old(self).stats_view() }),
    {
        let ghost cs = command_views(commands@);
        let mut rest = commands;
        let ghost m0 = self@;
        let mut i: usize = 0;
        let n = rest.len();
        while rest.len() > 0
            invariant
                self.wf(),
                n == cs.len(),
                i + rest.len() == n,
                forall|j: int| 0 <= j < rest.len() ==> #[trigger] rest@[j]@ == cs[i + j],
                self@ == apply_commands(m0, cs.take(i as int)),
                self.stats_view() == (DbStats { key_count: self.stats_view().key_count, ..old(self).stats_view() }),
            decreases rest.len(),
        {
            let c = rest.remove(0);
            assert(c@ == cs[i as int]);
            assert(cs.take(i + 1).drop_last() =~= cs.take(i as int));
            self.apply(c);
            i = i + 1;
        }
        assert(cs.take(n as int) =~= cs);
    }

    /// Replays the records of an append-only file into the store. A file that
    /// cannot be parsed leaves the store as it was.
    pub fn load_log(&mut self, bytes: &[u8]) -> (r: Result<(), SpatioError>)
        requires
            old(self).wf(),
        ensures
            final(self).wf(),
            r is Ok <==> replay_spec(bytes@) is Ok,
            match replay_spec(bytes@) {
                Ok(cs) => final(self)@ == apply_commands(old(self)@, cs),
                Err(_) => final(self)@ == old(self)@,
            },
            final(self).stats_view() == (DbStats { key_count: final(self).stats_view().key_count, ..old(self).stats_view() }),
    {
        match replay_commands(bytes) {
            Ok(commands) => {
                self.apply_all(commands);
                Ok(())
            },
            Err(e) => Err(e),
        }
    }

    /// Every key, in order, expired or not.
    pub fn keys(&self) -> (r: Vec<Bytes>)
        requires
            self.wf(),
        ensures
            r@.map_values(|b: Bytes| bytes_view(b)) == self.entries().map_values(|e: EntryView| e.0),
    {
        let empty: Vec<u8> = Vec::new();
        let r = self.keys.keys_with_prefix(empty.as_slice());
        proof {
            crate::ordered::lemma_with_prefix_all(self.keys.model());
        }
        r
    }

    /// The keys and values, in key order, of the keys that start with
    /// `prefix` and have not expired when the clock reads `now`.
    pub fn live_entries_with_prefix(&self, prefix: &[u8], now: u128) -> (r: Vec<(Bytes, Bytes)>)
        requires
            self.wf(),
        ensures
            key_value_views(r@) == unexpired(with_prefix(self.entries(), prefix@), now).map_values(
                |e: EntryView| (e.0, e.1.value),
            ),
    {
        let found = self.keys.scan_prefix(prefix);
        let ghost w = with_prefix(self.entries(), prefix@);
        let mut result: Vec<(Bytes, Bytes)> = Vec::new();
        let mut i: usize = 0;
        assert(key_value_views(result@) =~= unexpired(w.take(0), now).map_values(|e: EntryView| (e.0, e.1.value)));
        while i < found.len()
            invariant
                i <= found@.len(),
                crate::ordered::entry_views(found@) == w,
                key_value_views(result@) == unexpired(w.take(i as int), now).map_values(|e: EntryView| (e.0, e.1.value)),
            decreases found@.len() - i,
        {
            assert(w.take(i + 1).drop_last() =~= w.take(i as int));
            assert(w.take(i + 1).last() == w[i as int]);
            assert(w[i as int] == (bytes_view(found@[i as int].0), found@[i as int].1@));
            let ghost before = key_value_views(result@);
            let ghost u = unexpired(w.take(i as int), now);
            if !found[i].1.is_expired_at(now) {
                result.push((bytes_clone(&found[i].0), bytes_clone(&found[i].1.value)));
                assert(key_value_views(result@) =~= before.push((w[i as int].0, w[i as int].1.value)));
                assert(u.push(w[i as int]).map_values(|e: EntryView| (e.0, e.1.value)) =~= u.map_values(
                    |e: EntryView| (e.0, e.1.value),
                ).push((w[i as int].0, w[i as int].1.value)));
            }
            i = i + 1;
        }
        assert(w.take(found@.len() as int) =~= w);
        result
    }
}


/// A read at the time of a write gives back the value written, unless the
/// write made the item expire at once; a write leaves every other key as it
/// reads.
pub proof fn lemma_read_your_write(
    m: Map<Seq<u8>, ItemView>,
    k: Seq<u8>,
    v: Seq<u8>,
    opts: Option<SetOptions>,
    now: u128,
    other: Seq<u8>,
    t: u128,
)
    ensures
        live_value(after_write(m, k, v, opts, now), k, now) == (if expired_at(write_expiry(opts, now), now) {
            None
        } else {
            Some(v)
        }),
        other != k ==> live_value(after_write(m, k, v, opts, now), other, t) == live_value(m, other, t),
{
}

/// A value written with a TTL is read back until the TTL has run out from
/// the time of the write, and not from then on.
pub proof fn lemma_ttl_expires(m: Map<Seq<u8>, ItemView>, k: Seq<u8>, v: Seq<u8>, ttl: u128, now: u128, t: u128)
    ensures
        live_value(after_write(m, k, v, Some(SetOptions { ttl: Some(ttl), expires_at: None }), now), k, t) == (if t
            >= later(now, ttl) {
            None
        } else {
            Some(v)
        }),
{
}

/// A value written with an absolute expiration is read back until that
/// time and not from then on, whatever TTL the write also gives.
pub proof fn lemma_expiration_over_ttl(
    m: Map<Seq<u8>, ItemView>,
    k: Seq<u8>,
    v: Seq<u8>,
    ttl: Option<u128>,
    expires_at: u128,
    now: u128,
    t: u128,
)
    ensures
        live_value(after_write(m, k, v, Some(SetOptions { ttl, expires_at: Some(expires_at) }), now), k, t) == (if t
            >= expires_at {
            None
        } else {
            Some(v)
        }),
{
}

/// A write without expiration is read back at every later time.
pub proof fn lemma_write_persists(m: Map<Seq<u8>, ItemView>, k: Seq<u8>, v: Seq<u8>, now: u128, t: u128)
    ensures
        live_value(after_write(m, k, v, None, now), k, t) == Some(v),
{
}

/// After a delete a key reads as absent; every other key reads as before.
pub proof fn lemma_delete_removes(m: Map<Seq<u8>, ItemView>, k: Seq<u8>, other: Seq<u8>, t: u128)
    ensures
        live_value(m.remove(k), k, t) is None,
        other != k ==> live_value(m.remove(k), other, t) == live_value(m, other, t),
{
}

/// Removing expired items changes no read made at that time or later.
pub proof fn lemma_cleanup_unobservable(m: Map<Seq<u8>, ItemView>, now: u128, k: Seq<u8>, t: u128)
    requires
        now <= t,
    ensures
        live_value(without_expired(m, now), k, t) == live_value(m, k, t),
{
}

/// A time that a record keeps exactly: none, or a whole second that fits
/// the record.
pub open spec fn kept_exactly(e: Option<u128>) -> bool {
    match e {
        Some(t) => t % NANOS_PER_SEC == 0 && t / NANOS_PER_SEC <= u64::MAX,
        None => true,
    }
}

/// Replaying the record of a write restores the write, where the expiration
/// that the write gives, absolute or from a TTL, is kept exactly by the
/// record (a whole second).
pub proof fn lemma_recorded_write_restores(
    m: Map<Seq<u8>, ItemView>,
    k: Seq<u8>,
    v: Seq<u8>,
    opts: Option<SetOptions>,
    now: u128,
)
    requires
        kept_exactly(write_expiry(opts, now)),
    ensures
        apply_command(
            m,
            CommandView::SetItem { key: k, value: v, expires_at: recorded_expiry(write_expiry(opts, now)) },
        ) == after_write(m, k, v, opts, now),
{
    match write_expiry(opts, now) {
        Some(e) => {
            let n = NANOS_PER_SEC;
            let s = (e / n) as u64;
            assert(s * NANOS_PER_SEC == e) by (nonlinear_arith)
                requires
                    e % n == 0,
                    e / n <= u64::MAX,
                    s == e / n,
                    n == 1_000_000_000,
                    NANOS_PER_SEC == 1_000_000_000u128,
            ;
        },
        None => {},
    }
}

/// Replaying the record of a delete deletes.
pub proof fn lemma_recorded_delete_restores(m: Map<Seq<u8>, ItemView>, k: Seq<u8>)
    ensures
        apply_command(m, CommandView::Delete { key: k }) == m.remove(k),
{
}

/// A file written as the records of a sequence of commands replays into the
/// same key space as the commands themselves.
pub proof fn lemma_replay_restores(m: Map<Seq<u8>, ItemView>, cs: Seq<CommandView>)
    requires
        forall|i: int| 0 <= i < cs.len() ==> fields_fit(#[trigger] cs[i]),
    ensures
        replay_spec(encode_log(cs)) is Ok,
        match replay_spec(encode_log(cs)) {
            Ok(r) => apply_commands(m, r) == apply_commands(m, cs),
            Err(_) => false,
        },
{
    lemma_replay_encoded_log(cs);
}

/// `secs` seconds in nanoseconds.
pub fn seconds_to_nanos(secs: u64) -> (n: u128)
    ensures
        n == secs_to_nanos(secs),
{
    assert(secs * NANOS_PER_SEC <= u128::MAX) by (nonlinear_arith)
        requires
            secs <= u64::MAX,
            NANOS_PER_SEC == 1_000_000_000u128,
    ;
    secs as u128 * NANOS_PER_SEC
}

} // verus!
