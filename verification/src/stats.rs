//! Statistics over the stored keys: how many are spatial points, and how
//! many are geohash, S2 and grid index entries, by precision and level.

use crate::buffer::{bytes_slice, bytes_view};
use crate::order::{all_digits, digits_value, find, find_bytes, lemma_find_from};
use crate::store::Store;
use bytes::Bytes;
use std::collections::HashMap;
use vstd::prelude::*;
use vstd::slice::slice_subrange;

verus! {

broadcast use vstd::std_specs::hash::group_hash_axioms;

/// Statistics about the index manager
#[derive(Debug, Clone, Copy)]
pub struct IndexStats {
    pub index_count: usize,
    pub total_points: usize,
}

/// The sum of the sizes.
pub open spec fn total_size(sizes: Seq<usize>) -> int
    decreases sizes.len(),
{
    if sizes.len() == 0 {
        0
    } else {
        total_size(sizes.drop_last()) + sizes.last()
    }
}

impl IndexStats {
    /// The statistics of indexes holding `sizes` points each.
    pub fn from_index_sizes(sizes: &[usize]) -> (s: IndexStats)
        requires
            total_size(sizes@) <= usize::MAX,
        ensures
            s.index_count == sizes@.len(),
            s.total_points == total_size(sizes@),
    {
        let mut total: usize = 0;
        let mut i: usize = 0;
        while i < sizes.len()
            invariant
                i <= sizes@.len(),
                total == total_size(sizes@.take(i as int)),
                total_size(sizes@) <= usize::MAX,
            decreases sizes@.len() - i,
        {
            assert(sizes@.take(i + 1).drop_last() =~= sizes@.take(i as int));
            proof {
                lemma_total_size_prefix(sizes@, i + 1);
            }
            total = total + sizes[i];
            i = i + 1;
        }
        assert(sizes@.take(sizes@.len() as int) =~= sizes@);
        IndexStats { index_count: sizes.len(), total_points: total }
    }
}

/// A prefix of the sizes sums to no more than all of them.
proof fn lemma_total_size_prefix(sizes: Seq<usize>, n: int)
    requires
        0 <= n <= sizes.len(),
    ensures
        total_size(sizes.take(n)) <= total_size(sizes),
    decreases sizes.len(),
{
    if n < sizes.len() {
        assert(sizes.drop_last().take(n) =~= sizes.take(n));
        lemma_total_size_prefix(sizes.drop_last(), n);
    } else {
        assert(sizes.take(n) =~= sizes);
    }
}

/// The number that text in the form of an unsigned integer stands for: an
/// optional `+` and one or more decimal digits.
pub open spec fn parsed_number(s: Seq<u8>) -> Option<nat> {
    let d = if s.len() > 0 && s[0] == 43u8 { s.drop_first() } else { s };
    if d.len() > 0 && all_digits(d) {
        Some(digits_value(d))
    } else {
        None
    }
}

/// The text between the first `marker` and the next one (or the end), up
/// to its first `:`.
pub open spec fn level_text(key: Seq<u8>, marker: Seq<u8>) -> Option<Seq<u8>> {
    match find(key, marker) {
        Some(p) => {
            let rest = key.subrange(p + marker.len(), key.len() as int);
            let piece = match find(rest, marker) {
                Some(q) => rest.subrange(0, q),
                None => rest,
            };
            Some(
                match find(piece, seq![58u8]) {
                    Some(c) => piece.subrange(0, c),
                    None => piece,
                },
            )
        },
        None => None,
    }
}

/// The precision or level written after `marker` in a key, when it is a
/// number no larger than `max`.
pub open spec fn key_level(key: Seq<u8>, marker: Seq<u8>, max: nat) -> Option<nat> {
    match level_text(key, marker) {
        Some(t) => match parsed_number(t) {
            Some(n) => if n <= max {
                Some(n)
            } else {
                None
            },
            None => None,
        },
        None => None,
    }
}

/// `marker` occurs somewhere in `key`.
pub open spec fn mentions(key: Seq<u8>, marker: Seq<u8>) -> bool {
    find(key, marker) is Some
}

pub open spec fn gh_key() -> Seq<u8> {
    seq![58u8, 103u8, 104u8, 58u8]
}

pub open spec fn s2_key() -> Seq<u8> {
    seq![58u8, 115u8, 50u8, 58u8]
}

pub open spec fn grid_key() -> Seq<u8> {
    seq![58u8, 103u8, 114u8, 105u8, 100u8, 58u8]
}

pub open spec fn gh_mark() -> Seq<u8> {
    seq![95u8, 103u8, 104u8]
}

pub open spec fn s2_mark() -> Seq<u8> {
    seq![95u8, 115u8, 50u8]
}

pub open spec fn grid_mark() -> Seq<u8> {
    seq![95u8, 103u8, 114u8, 105u8, 100u8]
}

/// What a stored key is, for the statistics.
pub enum KeyKind {
    /// A geohash index entry (`:gh:`), with the precision after `_gh` when
    /// it can be read.
    GeohashIndex(Option<nat>),
    /// An S2 index entry (`:s2:`), with the level after `_s2` when it can
    /// be read.
    S2Index(Option<nat>),
    /// A grid index entry (`:grid:`).
    GridIndex,
    /// A primary point: no index marker at all.
    Point,
    /// Anything else.
    Other,
}

/// What kind of key `key` is.
pub open spec fn key_kind(key: Seq<u8>) -> KeyKind {
    if mentions(key, gh_key()) {
        KeyKind::GeohashIndex(key_level(key, gh_mark(), usize::MAX as nat))
    } else if mentions(key, s2_key()) {
        KeyKind::S2Index(key_level(key, s2_mark(), 255))
    } else if mentions(key, grid_key()) {
        KeyKind::GridIndex
    } else if !mentions(key, gh_mark()) && !mentions(key, s2_mark()) && !mentions(key, grid_mark()) {
        KeyKind::Point
    } else {
        KeyKind::Other
    }
}

/// `m` occurs nowhere in `key`.
pub open spec fn absent(key: Seq<u8>, m: Seq<u8>) -> bool {
    forall|i: int| !#[trigger] crate::order::occurs_at(key, m, i)
}

/// A key is counted as a primary point exactly when none of the six index
/// markers `:gh:`, `:s2:`, `:grid:`, `_gh`, `_s2` and `_grid` occurs in it,
/// whatever else it holds (`user:123` is a point).
pub proof fn lemma_point_iff_unmarked(key: Seq<u8>)
    ensures
        key_kind(key) is Point <==> (absent(key, seq![58u8, 103u8, 104u8, 58u8]) && absent(
            key,
            seq![58u8, 115u8, 50u8, 58u8],
        ) && absent(key, seq![58u8, 103u8, 114u8, 105u8, 100u8, 58u8]) && absent(key, seq![95u8, 103u8, 104u8])
            && absent(key, seq![95u8, 115u8, 50u8]) && absent(key, seq![95u8, 103u8, 114u8, 105u8, 100u8])),
{
    let ms = seq![
        seq![58u8, 103u8, 104u8, 58u8],
        seq![58u8, 115u8, 50u8, 58u8],
        seq![58u8, 103u8, 114u8, 105u8, 100u8, 58u8],
        seq![95u8, 103u8, 104u8],
        seq![95u8, 115u8, 50u8],
        seq![95u8, 103u8, 114u8, 105u8, 100u8]
    ];
    lemma_find_from(key, ms[0], 0);
    lemma_find_from(key, ms[1], 0);
    lemma_find_from(key, ms[2], 0);
    lemma_find_from(key, ms[3], 0);
    lemma_find_from(key, ms[4], 0);
    lemma_find_from(key, ms[5], 0);
    assert(ms[0] == gh_key() && ms[1] == s2_key() && ms[2] == grid_key());
    assert(ms[3] == gh_mark() && ms[4] == s2_mark() && ms[5] == grid_mark());
}

/// How many of the keys are of the kind `k`.
pub open spec fn count_kind(keys: Seq<Seq<u8>>, k: KeyKind) -> nat
    decreases keys.len(),
{
    if keys.len() == 0 {
        0
    } else {
        count_kind(keys.drop_last(), k) + if key_kind(keys.last()) == k {
            1nat
        } else {
            0nat
        }
    }
}

/// Spatial database statistics
#[derive(Debug, Clone)]
pub struct SpatialStats {
    pub total_points: usize,
    /// precision -> count
    pub geohash_indexes: HashMap<usize, usize>,
    /// level -> count
    pub s2_indexes: HashMap<u8, usize>,
    pub grid_indexes: usize,
}

/// The number that text in the form of an unsigned integer stands for,
/// when it is no larger than `usize::MAX`.
fn parse_number(s: &[u8]) -> (r: Option<usize>)
    ensures
        r == match parsed_number(s@) {
            Some(n) => if n <= usize::MAX {
                Some(n as usize)
            } else {
                None::<usize>
            },
            None => None::<usize>,
        },
{
    let d = if s.len() > 0 && s[0] == 43u8 {
        slice_subrange(s, 1, s.len())
    } else {
        s
    };
    let ghost dd = if s@.len() > 0 && s@[0] == 43u8 { s@.drop_first() } else { s@ };
    assert(d@ =~= dd);
    if d.len() == 0 {
        return None;
    }
    let mut v: usize = 0;
    let mut i: usize = 0;
    while i < d.len()
        invariant
            i <= d@.len(),
            d@ == dd,
            dd == (if s@.len() > 0 && s@[0] == 43u8 { s@.drop_first() } else { s@ }),
            all_digits(d@.take(i as int)),
            v == digits_value(d@.take(i as int)),
        decreases d@.len() - i,
    {
        let b = d[i];
        assert(d@.take(i + 1).drop_last() =~= d@.take(i as int));
        if b < 48 || b > 57 {
            assert(!all_digits(d@)) by {
                assert(d@[i as int] == b);
            }
            assert(parsed_number(s@) is None);
            return None;
        }
        let digit = (b - 48) as usize;
        assert(d@.take(i + 1).last() == b);
        assert(digits_value(d@.take(i + 1)) == v * 10 + digit);
        match v.checked_mul(10) {
            Some(m) => match m.checked_add(digit) {
                Some(n) => {
                    v = n;
                },
                None => {
                    proof {
                        lemma_digits_grow(d@, i + 1);
                    }
                    return None;
                },
            },
            None => {
                proof {
                    lemma_digits_grow(d@, i + 1);
                }
                return None;
            },
        }
        i = i + 1;
    }
    assert(d@.take(d@.len() as int) =~= d@);
    Some(v)
}

/// Reading more digits never gives a smaller number.
proof fn lemma_digits_grow(d: Seq<u8>, n: int)
    requires
        0 <= n <= d.len(),
    ensures
        digits_value(d.take(n)) <= digits_value(d),
    decreases d.len(),
{
    if n < d.len() {
        assert(d.drop_last().take(n) =~= d.take(n));
        lemma_digits_grow(d.drop_last(), n);
    } else {
        assert(d.take(n) =~= d);
    }
}

/// Whether `marker` occurs in `key`.
fn contains(key: &[u8], marker: &[u8]) -> (b: bool)
    ensures
        b == mentions(key@, marker@),
{
    find_bytes(key, marker).is_some()
}

/// The text after the first `marker`, up to the next one, up to its first `:`.
fn level_text_of<'a>(key: &'a [u8], marker: &[u8]) -> (r: Option<&'a [u8]>)
    ensures
        match r {
            Some(t) => level_text(key@, marker@) == Some(t@),
            None => level_text(key@, marker@) is None,
        },
{
    match find_bytes(key, marker) {
        Some(p) => {
            proof {
                lemma_find_from(key@, marker@, 0);
            }
            let n = key.len();
            assert(p + marker@.len() <= n);
            let rest = slice_subrange(key, p + marker.len(), n);
            let piece = match find_bytes(rest, marker) {
                Some(q) => {
                    proof {
                        lemma_find_from(rest@, marker@, 0);
                    }
                    slice_subrange(rest, 0, q)
                },
                None => rest,
            };
            let colon: Vec<u8> = vec![58u8];
            assert(colon@ =~= seq![58u8]);
            let t = match find_bytes(piece, colon.as_slice()) {
                Some(c) => {
                    proof {
                        lemma_find_from(piece@, seq![58u8], 0);
                    }
                    slice_subrange(piece, 0, c)
                },
                None => piece,
            };
            Some(t)
        },
        None => None,
    }
}

/// Every key has at most one kind: a count never exceeds the number of keys.
proof fn lemma_count_bound(keys: Seq<Seq<u8>>, k: KeyKind)
    ensures
        count_kind(keys, k) <= keys.len(),
    decreases keys.len(),
{
    if keys.len() > 0 {
        lemma_count_bound(keys.drop_last(), k);
    }
}

/// What kind of key a stored key is, with the numbers read from it.
pub enum KeyClass {
    GeohashIndex(Option<usize>),
    S2Index(Option<u8>),
    GridIndex,
    Point,
    Other,
}

impl View for KeyClass {
    type V = KeyKind;

    open spec fn view(&self) -> KeyKind {
        match self {
            KeyClass::GeohashIndex(p) => KeyKind::GeohashIndex(
                match p {
                    Some(n) => Some(*n as nat),
                    None => None,
                },
            ),
            KeyClass::S2Index(l) => KeyKind::S2Index(
                match l {
                    Some(n) => Some(*n as nat),
                    None => None,
                },
            ),
            KeyClass::GridIndex => KeyKind::GridIndex,
            KeyClass::Point => KeyKind::Point,
            KeyClass::Other => KeyKind::Other,
        }
    }
}

/// What kind of key `key` is.
pub fn classify_key(key: &[u8]) -> (c: KeyClass)
    ensures
        c@ == key_kind(key@),
{
    let gh_key_bytes: Vec<u8> = vec![58u8, 103u8, 104u8, 58u8];
    let s2_key_bytes: Vec<u8> = vec![58u8, 115u8, 50u8, 58u8];
    let grid_key_bytes: Vec<u8> = vec![58u8, 103u8, 114u8, 105u8, 100u8, 58u8];
    let gh_mark_bytes: Vec<u8> = vec![95u8, 103u8, 104u8];
    let s2_mark_bytes: Vec<u8> = vec![95u8, 115u8, 50u8];
    let grid_mark_bytes: Vec<u8> = vec![95u8, 103u8, 114u8, 105u8, 100u8];
    assert(gh_key_bytes@ =~= gh_key());
    assert(s2_key_bytes@ =~= s2_key());
    assert(grid_key_bytes@ =~= grid_key());
    assert(gh_mark_bytes@ =~= gh_mark());
    assert(s2_mark_bytes@ =~= s2_mark());
    assert(grid_mark_bytes@ =~= grid_mark());
    if contains(key, gh_key_bytes.as_slice()) {
        let level = match level_text_of(key, gh_mark_bytes.as_slice()) {
            Some(t) => parse_number(t),
            None => None,
        };
        KeyClass::GeohashIndex(level)
    } else if contains(key, s2_key_bytes.as_slice()) {
        let level = match level_text_of(key, s2_mark_bytes.as_slice()) {
            Some(t) => match parse_number(t) {
                Some(n) => if n <= 255 {
                    Some(n as u8)
                } else {
                    None
                },
                None => None,
            },
            None => None,
        };
        KeyClass::S2Index(level)
    } else if contains(key, grid_key_bytes.as_slice()) {
        KeyClass::GridIndex
    } else if !contains(key, gh_mark_bytes.as_slice()) && !contains(key, s2_mark_bytes.as_slice()) && !contains(
        key,
        grid_mark_bytes.as_slice(),
    ) {
        KeyClass::Point
    } else {
        KeyClass::Other
    }
}

/// Adds one to the count of `k` in `m`.
fn bump<K: std::hash::Hash + Eq + Copy>(m: &mut HashMap<K, usize>, k: K)
    requires
        vstd::std_specs::hash::obeys_key_model::<K>(),
        old(m)@.contains_key(k) ==> old(m)@[k] < usize::MAX,
    ensures
        final(m)@ == old(m)@.insert(k, if old(m)@.contains_key(k) { (old(m)@[k] + 1) as usize } else { 1usize }),
{
    let c = match m.get(&k) {
        Some(c) => *c,
        None => 0,
    };
    m.insert(k, c + 1);
}

/// Statistics of the stored keys, expired or not: the keys that are
/// primary points, and the geohash, S2 and grid index entries, the first
/// two counted by the precision or level written in the key.
pub fn spatial_stats(store: &Store) -> (st: SpatialStats)
    requires
        store.wf(),
    ensures
        ({
            let keys = store.entries().map_values(|e: crate::ordered::EntryView| e.0);
            &&& st.total_points == count_kind(keys, KeyKind::Point)
            &&& st.grid_indexes == count_kind(keys, KeyKind::GridIndex)
            &&& forall|p: usize| #[trigger] st.geohash_indexes@.contains_key(p) <==> count_kind(keys, KeyKind::GeohashIndex(Some(p as nat))) > 0
            &&& forall|p: usize| #[trigger] st.geohash_indexes@.contains_key(p) ==> st.geohash_indexes@[p] == count_kind(keys, KeyKind::GeohashIndex(Some(p as nat)))
            &&& forall|l: u8| #[trigger] st.s2_indexes@.contains_key(l) <==> count_kind(keys, KeyKind::S2Index(Some(l as nat))) > 0
            &&& forall|l: u8| #[trigger] st.s2_indexes@.contains_key(l) ==> st.s2_indexes@[l] == count_kind(keys, KeyKind::S2Index(Some(l as nat)))
        }),
{
    let keys = store.keys();
    let ghost ks = store.entries().map_values(|e: crate::ordered::EntryView| e.0);
    assert(keys@.map_values(|b: Bytes| bytes_view(b)) == ks);
    let mut total: usize = 0;
    let mut grid: usize = 0;
    let mut gh: HashMap<usize, usize> = HashMap::new();
    let mut s2: HashMap<u8, usize> = HashMap::new();
    let mut i: usize = 0;
    while i < keys.len()
        invariant
            i <= keys@.len(),
            ks.len() == keys@.len(),
            forall|j: int| 0 <= j < ks.len() ==> #[trigger] ks[j] == bytes_view(keys@[j]),
            total == count_kind(ks.take(i as int), KeyKind::Point),
            grid == count_kind(ks.take(i as int), KeyKind::GridIndex),
            forall|p: usize| #[trigger] gh@.contains_key(p) <==> count_kind(ks.take(i as int), KeyKind::GeohashIndex(Some(p as nat))) > 0,
            forall|p: usize| #[trigger] gh@.contains_key(p) ==> gh@[p] == count_kind(ks.take(i as int), KeyKind::GeohashIndex(Some(p as nat))),
            forall|l: u8| #[trigger] s2@.contains_key(l) <==> count_kind(ks.take(i as int), KeyKind::S2Index(Some(l as nat))) > 0,
            forall|l: u8| #[trigger] s2@.contains_key(l) ==> s2@[l] == count_kind(ks.take(i as int), KeyKind::S2Index(Some(l as nat))),
        decreases keys@.len() - i,
    {
        let ghost t0 = ks.take(i as int);
        let ghost t1 = ks.take(i + 1);
        assert(t1.drop_last() =~= t0);
        assert(t1.last() == ks[i as int]);
        proof {
            lemma_count_bound(t0, KeyKind::Point);
            lemma_count_bound(t0, KeyKind::GridIndex);
        }
        let c = classify_key(bytes_slice(&keys[i]));
        assert(c@ == key_kind(t1.last()));
        match c {
            KeyClass::GeohashIndex(Some(p)) => {
                proof {
                    lemma_count_bound(t0, KeyKind::GeohashIndex(Some(p as nat)));
                }
                bump(&mut gh, p);
                assert forall|q: usize| #[trigger] gh@.contains_key(q) <==> count_kind(t1, KeyKind::GeohashIndex(Some(q as nat))) > 0 by {
                    if q != p {
                        assert(count_kind(t1, KeyKind::GeohashIndex(Some(q as nat))) == count_kind(t0, KeyKind::GeohashIndex(Some(q as nat))));
                    }
                }
                assert forall|q: usize| #[trigger] gh@.contains_key(q) implies gh@[q] == count_kind(t1, KeyKind::GeohashIndex(Some(q as nat))) by {
                    if q != p {
                        assert(count_kind(t1, KeyKind::GeohashIndex(Some(q as nat))) == count_kind(t0, KeyKind::GeohashIndex(Some(q as nat))));
                    }
                }
            },
            KeyClass::S2Index(Some(l)) => {
                proof {
                    lemma_count_bound(t0, KeyKind::S2Index(Some(l as nat)));
                }
                bump(&mut s2, l);
                assert forall|q: u8| #[trigger] s2@.contains_key(q) <==> count_kind(t1, KeyKind::S2Index(Some(q as nat))) > 0 by {
                    if q != l {
                        assert(count_kind(t1, KeyKind::S2Index(Some(q as nat))) == count_kind(t0, KeyKind::S2Index(Some(q as nat))));
                    }
                }
                assert forall|q: u8| #[trigger] s2@.contains_key(q) implies s2@[q] == count_kind(t1, KeyKind::S2Index(Some(q as nat))) by {
                    if q != l {
                        assert(count_kind(t1, KeyKind::S2Index(Some(q as nat))) == count_kind(t0, KeyKind::S2Index(Some(q as nat))));
                    }
                }
            },
            KeyClass::GridIndex => {
                grid = grid + 1;
            },
            KeyClass::Point => {
                total = total + 1;
            },
            _ => {},
        }
        i = i + 1;
    }
    assert(ks.take(keys@.len() as int) =~= ks);
    SpatialStats { total_points: total, geohash_indexes: gh, s2_indexes: s2, grid_indexes: grid }
}

} // verus!
