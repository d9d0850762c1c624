//! Options, items and statistics of the database.
//!
//! Clock readings and expiration times are nanoseconds since the Unix epoch
//! and spans of time (TTLs) are nanoseconds, all as `u128`, wide enough for
//! any `SystemTime` after the epoch and any `Duration`.

use crate::buffer::{bytes_clone, bytes_view};
use bytes::Bytes;
use vstd::prelude::*;
use vstd::string::*;

verus! {

/// Nanoseconds in one second.
pub const NANOS_PER_SEC: u128 = 1_000_000_000;

/// Synchronization policy for persistence
#[derive(Debug, Clone, Copy, PartialEq, Eq, Structural)]
pub enum SyncPolicy {
    /// Never sync to disk (fastest, least safe)
    Never,
    /// Sync every second (recommended default)
    EverySecond,
    /// Sync after every write (slowest, safest)
    Always,
}

impl Default for SyncPolicy {
    fn default() -> (p: Self)
        ensures
            p == SyncPolicy::EverySecond,
    {
        SyncPolicy::EverySecond
    }
}

/// Options for setting values with optional TTL
#[derive(Debug, Clone, Copy)]
pub struct SetOptions {
    /// Time-to-live for this item, in nanoseconds
    pub ttl: Option<u128>,
    /// Absolute expiration time in nanoseconds since the Unix epoch
    /// (takes precedence over TTL)
    pub expires_at: Option<u128>,
}

impl Default for SetOptions {
    fn default() -> (o: Self)
        ensures
            o.ttl is None,
            o.expires_at is None,
    {
        SetOptions { ttl: None, expires_at: None }
    }
}

impl SetOptions {
    /// Create options with TTL
    pub fn with_ttl(ttl: u128) -> (o: Self)
        ensures
            o.ttl == Some(ttl),
            o.expires_at is None,
    {
        SetOptions { ttl: Some(ttl), expires_at: None }
    }

    /// Create options with absolute expiration time
    pub fn with_expiration(expires_at: u128) -> (o: Self)
        ensures
            o.ttl is None,
            o.expires_at == Some(expires_at),
    {
        SetOptions { ttl: None, expires_at: Some(expires_at) }
    }
}


/// `SystemTime::now()` as nanoseconds since the Unix epoch; a clock set before
/// the epoch reads as 0. Nothing is stated of the value: it is the time.
#[verifier::external_body]
pub(crate) fn now_nanos() -> u128 {
    match std::time::SystemTime::now().duration_since(std::time::UNIX_EPOCH) {
        Ok(d) => d.as_nanos(),
        Err(_) => 0,
    }
}

/// The time `span` after `now`. (A sum beyond `u128` would need a span
/// longer than any `Duration`; it is taken as the last time.)
pub open spec fn later(now: u128, span: u128) -> u128 {
    if now + span > u128::MAX {
        u128::MAX
    } else {
        (now + span) as u128
    }
}

/// The time `span` after `now`.
fn time_after(now: u128, span: u128) -> (t: u128)
    ensures
        t == later(now, span),
{
    now.saturating_add(span)
}

impl SetOptions {
    /// The effective expiration time when the clock reads `now`: the absolute
    /// expiration if there is one, else `now` plus the TTL.
    pub open spec fn expiry_at(self, now: u128) -> Option<u128> {
        match self.expires_at {
            Some(t) => Some(t),
            None => match self.ttl {
                Some(ttl) => Some(later(now, ttl)),
                None => None,
            },
        }
    }

    /// The effective expiration time, with the clock reading `now`.
    pub fn effective_expires_at_from(&self, now: u128) -> (r: Option<u128>)
        ensures
            r == self.expiry_at(now),
    {
        match self.expires_at {
            Some(t) => Some(t),
            None => match self.ttl {
                Some(ttl) => Some(time_after(now, ttl)),
                None => None,
            },
        }
    }

    /// Get the effective expiration time
    pub fn effective_expires_at(&self) -> (r: Option<u128>)
        ensures
            self.expires_at is Some ==> r == self.expires_at,
            self.expires_at is None ==> (r is Some <==> self.ttl is Some),
            self.expires_at is None && self.ttl is Some ==> r.unwrap() >= self.ttl.unwrap(),
    {
        self.effective_expires_at_from(now_nanos())
    }
}

/// What an item holds: its value and its expiration time.
pub struct ItemView {
    pub value: Seq<u8>,
    pub expires_at: Option<u128>,
}

/// Internal representation of a database item
#[derive(Debug)]
pub struct DbItem {
    /// The value bytes
    pub value: Bytes,
    /// Expiration time (if any), in nanoseconds since the Unix epoch
    pub expires_at: Option<u128>,
}

impl View for DbItem {
    type V = ItemView;

    open spec fn view(&self) -> ItemView {
        ItemView { value: bytes_view(self.value), expires_at: self.expires_at }
    }
}

/// An item with expiration `e` has expired when the clock reads `now`.
pub open spec fn expired_at(e: Option<u128>, now: u128) -> bool {
    match e {
        Some(t) => now >= t,
        None => false,
    }
}

impl Clone for DbItem {
    fn clone(&self) -> (c: Self)
        ensures
            c@ == self@,
    {
        DbItem { value: bytes_clone(&self.value), expires_at: self.expires_at }
    }
}

impl DbItem {
    /// Create a new item without expiration
    pub fn new(value: Bytes) -> (item: Self)
        ensures
            item@ == (ItemView { value: bytes_view(value), expires_at: None }),
    {
        DbItem { value, expires_at: None }
    }

    /// Create an item with absolute expiration
    pub fn with_expiration(value: Bytes, expires_at: u128) -> (item: Self)
        ensures
            item@ == (ItemView { value: bytes_view(value), expires_at: Some(expires_at) }),
    {
        DbItem { value, expires_at: Some(expires_at) }
    }

    /// Create an item that expires `ttl` after `now`.
    pub fn with_ttl_from(value: Bytes, ttl: u128, now: u128) -> (item: Self)
        ensures
            item@ == (ItemView { value: bytes_view(value), expires_at: Some(later(now, ttl)) }),
    {
        DbItem { value, expires_at: Some(time_after(now, ttl)) }
    }

    /// Create an item with TTL
    pub fn with_ttl(value: Bytes, ttl: u128) -> (item: Self)
        ensures
            item@.value == bytes_view(value),
            item@.expires_at is Some,
            item@.expires_at.unwrap() >= ttl,
    {
        Self::with_ttl_from(value, ttl, now_nanos())
    }

    /// Create from SetOptions, with the clock reading `now`.
    pub fn from_options_at(value: Bytes, options: Option<&SetOptions>, now: u128) -> (item: Self)
        ensures
            item@ == (ItemView {
                value: bytes_view(value),
                expires_at: match options {
                    Some(o) => o.expiry_at(now),
                    None => None,
                },
            }),
    {
        match options {
            Some(opts) => {
                let expires_at = opts.effective_expires_at_from(now);
                DbItem { value, expires_at }
            },
            None => Self::new(value),
        }
    }

    /// Create from SetOptions
    pub fn from_options(value: Bytes, options: Option<&SetOptions>) -> (item: Self)
        ensures
            item@.value == bytes_view(value),
            match options {
                Some(o) => o.expires_at is Some ==> item@.expires_at == o.expires_at,
                None => item@.expires_at is None,
            },
            match options {
                Some(o) => item@.expires_at is Some <==> (o.expires_at is Some || o.ttl is Some),
                None => true,
            },
    {
        Self::from_options_at(value, options, now_nanos())
    }

    /// Check if this item has expired: its expiration time has been reached
    /// by the clock. Whatever the clock reads, an item without expiration has
    /// not expired and one that expires at the epoch has; for any other item
    /// the answer is the clock's, as `is_expired_at` states it.
    pub fn is_expired(&self) -> (b: bool)
        ensures
            self.expires_at is None ==> !b,
            self.expires_at == Some(0u128) ==> b,
    {
        self.is_expired_at(now_nanos())
    }

    /// Check if this item has expired at a specific time
    pub fn is_expired_at(&self, now: u128) -> (b: bool)
        ensures
            b == expired_at(self.expires_at, now),
    {
        match self.expires_at {
            Some(expires_at) => now >= expires_at,
            None => false,
        }
    }

    /// Get remaining TTL
    pub fn remaining_ttl(&self) -> (r: Option<u128>)
        ensures
            r is Some <==> self.expires_at is Some,
            r matches Some(d) ==> d <= self.expires_at.unwrap(),
    {
        self.remaining_ttl_at(now_nanos())
    }

    /// Get remaining TTL at a specific time: the time left until expiration,
    /// zero once expired, `None` for an item that never expires.
    pub fn remaining_ttl_at(&self, now: u128) -> (r: Option<u128>)
        ensures
            r == match self.expires_at {
                Some(t) => Some(if now < t { (t - now) as u128 } else { 0u128 }),
                None => None,
            },
    {
        match self.expires_at {
            Some(expires_at) => {
                if now < expires_at {
                    Some(expires_at - now)
                } else {
                    Some(0)
                }
            },
            None => None,
        }
    }
}

/// Database statistics
#[derive(Debug, Clone, Copy)]
pub struct DbStats {
    /// Number of keys in the database
    pub key_count: usize,
    /// Number of items that have expired
    pub expired_count: u64,
    /// Total number of operations performed
    pub operations_count: u64,
    /// Total size in bytes (approximate)
    pub size_bytes: usize,
}

impl Default for DbStats {
    fn default() -> (s: Self)
        ensures
            s.key_count == 0,
            s.expired_count == 0,
            s.operations_count == 0,
            s.size_bytes == 0,
    {
        DbStats { key_count: 0, expired_count: 0, operations_count: 0, size_bytes: 0 }
    }
}

impl DbStats {
    /// Statistics with every count at zero.
    pub open spec fn new_spec() -> DbStats {
        DbStats { key_count: 0, expired_count: 0, operations_count: 0, size_bytes: 0 }
    }

    /// Create new empty statistics
    pub fn new() -> (s: Self)
        ensures
            s.key_count == 0,
            s.expired_count == 0,
            s.operations_count == 0,
            s.size_bytes == 0,
    {
        Self::default()
    }

    /// Record an operation
    pub fn record_operation(&mut self)
        requires
            old(self).operations_count < u64::MAX,
        ensures
            *final(self) == (DbStats { operations_count: (old(self).operations_count + 1) as u64, ..*old(self) }),
    {
        self.operations_count = self.operations_count + 1;
    }

    /// Record expired items cleanup
    pub fn record_expired(&mut self, count: u64)
        requires
            old(self).expired_count + count <= u64::MAX,
        ensures
            *final(self) == (DbStats { expired_count: (old(self).expired_count + count) as u64, ..*old(self) }),
    {
        self.expired_count = self.expired_count + count;
    }

    /// Update key count
    pub fn set_key_count(&mut self, count: usize)
        ensures
            *final(self) == (DbStats { key_count: count, ..*old(self) }),
    {
        self.key_count = count;
    }

    /// Update size estimate
    pub fn set_size_bytes(&mut self, bytes: usize)
        ensures
            *final(self) == (DbStats { size_bytes: bytes, ..*old(self) }),
    {
        self.size_bytes = bytes;
    }
}

/// The geohash precision used when none is configured.
pub const DEFAULT_GEOHASH_PRECISION: usize = 8;

/// Geohash precision is between 1 and 12.
pub fn validate_geohash_precision(precision: usize) -> (r: Result<(), String>)
    ensures
        r is Ok <==> 1 <= precision <= 12,
        match r {
            Ok(()) => true,
            Err(msg) => msg@ == "Geohash precision must be between 1 and 12"@,
        },
{
    if precision < 1 || precision > 12 {
        return Err(String::from_str("Geohash precision must be between 1 and 12"));
    }
    Ok(())
}

} // verus!
