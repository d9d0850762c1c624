//! Trajectories: the points of a moving object stored under
//! `traj:{object_id}:{timestamp}:{index}`, each value the encoded point
//! followed by its timestamp.

use crate::buffer::{bytes_clone, bytes_slice, bytes_view};
use crate::keys::{ascii, lemma_trajectory_key_layout, padded_decimal, trajectory_key_chars, trajectory_prefix};
use crate::order::all_digits;
use crate::ordered::{unexpired, with_prefix, EntryView};
use crate::store::{key_value_views, Store};
use bytes::Bytes;
use vstd::prelude::*;
use vstd::utf8::*;

verus! {

/// The little-endian value of eight bytes.
pub open spec fn le64(b: Seq<u8>) -> nat {
    (b[0] + b[1] * 0x100 + b[2] * 0x1_0000 + b[3] * 0x100_0000 + b[4] * 0x1_0000_0000 + b[5] * 0x100_0000_0000
        + b[6] * 0x1_0000_0000_0000 + b[7] * 0x100_0000_0000_0000) as nat
}

/// The timestamp of a stored trajectory point: the point is two 8-byte
/// coordinates and the timestamp the little-endian `u64` after them; a
/// value too short for that holds none.
pub open spec fn point_timestamp(value: Seq<u8>) -> Option<u64> {
    if value.len() >= 24 {
        Some(le64(value.subrange(16, 24)) as u64)
    } else {
        None
    }
}

/// `bincode::deserialize` of a point and its timestamp, of which only the
/// timestamp is kept. With bincode's default options (fixed-width
/// little-endian integers, trailing bytes allowed) it succeeds exactly on
/// values of at least 24 bytes, the last 8 of the first 24 being the
/// timestamp.
#[verifier::external_body]
fn decode_timestamp(value: &[u8]) -> (t: Option<u64>)
    ensures
        t == point_timestamp(value@),
{
    match bincode::deserialize::<([u8; 16], u64)>(value) {
        Ok((_, timestamp)) => Some(timestamp),
        Err(_) => None,
    }
}

/// `rest` is the timestamp and index part of a point key split at `p`: at
/// least ten digits, a `:`, and at least six digits.
pub open spec fn point_key_split(rest: Seq<u8>, p: int) -> bool {
    &&& 10 <= p
    &&& p + 7 <= rest.len()
    &&& rest[p] == 58u8
    &&& all_digits(rest.subrange(0, p))
    &&& all_digits(rest.subrange(p + 1, rest.len() as int))
}

/// What follows the prefix `traj:{object_id}:` in a key of a point of that
/// object itself: `{timestamp}:{index}`, both in decimal. Keys of an object
/// whose id extends `object_id` with `:` hold a second `:` there.
pub open spec fn is_point_key_rest(rest: Seq<u8>) -> bool {
    exists|p: int| #[trigger] point_key_split(rest, p)
}

/// The values of the entries whose key, after its first `n` bytes, is the
/// rest of a point key, in order.
pub open spec fn point_values(s: Seq<(Seq<u8>, Seq<u8>)>, n: int) -> Seq<Seq<u8>>
    decreases s.len(),
{
    if s.len() == 0 {
        Seq::empty()
    } else {
        let r = point_values(s.drop_last(), n);
        if is_point_key_rest(s.last().0.subrange(n, s.last().0.len() as int)) {
            r.push(s.last().1)
        } else {
            r
        }
    }
}

/// Whether what follows the first `start` bytes of `key` is the rest of a
/// point key.
fn point_key_rest(key: &[u8], start: usize) -> (b: bool)
    requires
        start <= key@.len(),
    ensures
        b == is_point_key_rest(key@.subrange(start as int, key@.len() as int)),
{
    let ghost rest = key@.subrange(start as int, key@.len() as int);
    let n = key.len();
    let mut j: usize = start;
    while j < n && 48 <= key[j] && key[j] <= 57
        invariant
            start <= j <= n,
            n == key@.len(),
            forall|i: int| start <= i < j ==> 48 <= #[trigger] key@[i] <= 57,
        decreases n - j,
    {
        j = j + 1;
    }
    let p = j - start;
    let mut ok = p >= 10 && j < n && key[j] == 58 && n - j - 1 >= 6;
    if ok {
        let mut k: usize = j + 1;
        while k < n && ok
            invariant
                j + 1 <= k <= n,
                n == key@.len(),
                ok ==> forall|i: int| j + 1 <= i < k ==> 48 <= #[trigger] key@[i] <= 57,
                !ok ==> !(48 <= key@[k - 1] <= 57),
                k > j + 1 || ok,
            decreases n - k,
        {
            if !(48 <= key[k] && key[k] <= 57) {
                ok = false;
            }
            k = k + 1;
        }
        proof {
            if ok {
                assert(all_digits(rest.subrange(0, p as int))) by {
                    assert forall|i: int| 0 <= i < p implies 48 <= #[trigger] rest.subrange(0, p as int)[i] <= 57 by {
                        assert(rest.subrange(0, p as int)[i] == key@[start + i]);
                    }
                }
                assert(all_digits(rest.subrange(p + 1, rest.len() as int))) by {
                    assert forall|i: int| 0 <= i < rest.len() - p - 1 implies 48 <= #[trigger] rest.subrange(
                        p + 1,
                        rest.len() as int,
                    )[i] <= 57 by {
                        assert(rest.subrange(p + 1, rest.len() as int)[i] == key@[j + 1 + i]);
                    }
                }
                assert(point_key_split(rest, p as int));
            } else {
                assert forall|q: int| !#[trigger] point_key_split(rest, q) by {
                    if point_key_split(rest, q) {
                        if q < p {
                            assert(rest[q] == key@[start + q]);
                        } else if q > p {
                            assert(rest.subrange(0, q)[p as int] == key@[j as int]);
                        } else {
                            let k1 = (k - 1) as int;
                            assert(rest.subrange(q + 1, rest.len() as int)[k1 - start - q - 1] == key@[k1]);
                        }
                    }
                }
            }
        }
    } else {
        proof {
            assert forall|q: int| !#[trigger] point_key_split(rest, q) by {
                if point_key_split(rest, q) {
                    if q < p {
                        assert(rest[q] == key@[start + q]);
                    } else if q > p {
                        assert(rest.subrange(0, q)[p as int] == key@[j as int]);
                    }
                }
            }
        }
    }
    ok
}

/// The key of every point of an object passes, after the object's prefix,
/// as the rest of a point key.
pub proof fn lemma_own_point_keys_kept(object_id: Seq<char>, timestamp: u64, index: u64)
    ensures
        is_point_key_rest(
            encode_utf8(trajectory_key_chars(object_id, timestamp, index)).subrange(
                encode_utf8("traj:"@ + object_id + ":"@).len() as int,
                encode_utf8(trajectory_key_chars(object_id, timestamp, index)).len() as int,
            ),
        ),
{
    lemma_trajectory_key_layout(object_id, timestamp, index);
    let h = encode_utf8("traj:"@ + object_id + ":"@);
    let a = ascii(padded_decimal(timestamp as nat, 10));
    let b = ascii(padded_decimal(index as nat, 6));
    let k = encode_utf8(trajectory_key_chars(object_id, timestamp, index));
    let rest = k.subrange(h.len() as int, k.len() as int);
    assert(rest =~= a + seq![58u8] + b);
    assert(rest.subrange(0, a.len() as int) =~= a);
    assert(rest.subrange(a.len() + 1int, rest.len() as int) =~= b);
    assert(point_key_split(rest, a.len() as int));
}

/// No key of a point of another object whose id extends `object_id` with
/// `:` passes, after the prefix of `object_id`, as the rest of a point key:
/// the points of `v:1` are never taken for points of `v`.
pub proof fn lemma_other_object_keys_dropped(object_id: Seq<char>, suffix: Seq<char>, timestamp: u64, index: u64)
    ensures
        !is_point_key_rest(
            encode_utf8(trajectory_key_chars(object_id + ":"@ + suffix, timestamp, index)).subrange(
                encode_utf8("traj:"@ + object_id + ":"@).len() as int,
                encode_utf8(trajectory_key_chars(object_id + ":"@ + suffix, timestamp, index)).len() as int,
            ),
        ),
{
    let other = object_id + ":"@ + suffix;
    lemma_trajectory_key_layout(other, timestamp, index);
    crate::keys::lemma_encode_concat("traj:"@ + object_id + ":"@, suffix);
    crate::keys::lemma_encode_concat("traj:"@ + object_id + ":"@ + suffix, ":"@);
    crate::keys::lemma_encode_colon();
    assert("traj:"@ + other + ":"@ =~= "traj:"@ + object_id + ":"@ + suffix + ":"@);
    let h = encode_utf8("traj:"@ + object_id + ":"@);
    let x = encode_utf8(suffix);
    let a = ascii(padded_decimal(timestamp as nat, 10));
    let b = ascii(padded_decimal(index as nat, 6));
    let k = encode_utf8(trajectory_key_chars(other, timestamp, index));
    assert(k =~= h + x + seq![58u8] + a + seq![58u8] + b);
    let rest = k.subrange(h.len() as int, k.len() as int);
    assert(rest =~= x + seq![58u8] + a + seq![58u8] + b);
    let c1 = x.len() as int;
    let c2 = (x.len() + 1 + a.len()) as int;
    assert(rest[c1] == 58u8);
    assert(rest[c2] == 58u8);
    assert forall|p: int| !#[trigger] point_key_split(rest, p) by {
        if point_key_split(rest, p) {
            let q = if p == c1 { c2 } else { c1 };
            if q < p {
                assert(rest.subrange(0, p)[q] == rest[q]);
            } else {
                assert(rest.subrange(p + 1, rest.len() as int)[q - p - 1] == rest[q]);
            }
        }
    }
}

/// The values, with their timestamps, whose timestamp is within
/// `start..=end`, in order.
pub open spec fn in_window(values: Seq<Seq<u8>>, start: u64, end: u64) -> Seq<(Seq<u8>, u64)>
    decreases values.len(),
{
    if values.len() == 0 {
        Seq::empty()
    } else {
        let r = in_window(values.drop_last(), start, end);
        match point_timestamp(values.last()) {
            Some(t) => if start <= t && t <= end {
                r.push((values.last(), t))
            } else {
                r
            },
            None => r,
        }
    }
}

/// `s` with `x` placed after every point no later than it and before the
/// later ones that end `s`.
pub open spec fn insert_by_time(s: Seq<(Seq<u8>, u64)>, x: (Seq<u8>, u64)) -> Seq<(Seq<u8>, u64)>
    decreases s.len(),
{
    if s.len() == 0 || s.last().1 <= x.1 {
        s.push(x)
    } else {
        insert_by_time(s.drop_last(), x).push(s.last())
    }
}

/// The points ordered by timestamp; points with the same timestamp stay in
/// the order they had.
pub open spec fn sort_by_time(s: Seq<(Seq<u8>, u64)>) -> Seq<(Seq<u8>, u64)>
    decreases s.len(),
{
    if s.len() == 0 {
        s
    } else {
        insert_by_time(sort_by_time(s.drop_last()), s.last())
    }
}

/// Timestamps never decrease along the sequence.
pub open spec fn time_ordered(s: Seq<(Seq<u8>, u64)>) -> bool {
    forall|i: int, j: int| 0 <= i < j < s.len() ==> #[trigger] s[i].1 <= #[trigger] s[j].1
}

proof fn lemma_insert_keeps_order(s: Seq<(Seq<u8>, u64)>, x: (Seq<u8>, u64))
    requires
        time_ordered(s),
    ensures
        time_ordered(insert_by_time(s, x)),
        insert_by_time(s, x).len() == s.len() + 1,
        forall|k: int| 0 <= k < insert_by_time(s, x).len() ==> #[trigger] insert_by_time(s, x)[k] == x || exists|m: int| 0 <= m < s.len() && s[m] == insert_by_time(s, x)[k],
    decreases s.len(),
{
    if s.len() == 0 || s.last().1 <= x.1 {
        assert forall|k: int| 0 <= k < s.push(x).len() implies #[trigger] s.push(x)[k] == x || exists|m: int| 0 <= m < s.len() && s[m] == s.push(x)[k] by {
            if k < s.len() {
                assert(s[k] == s.push(x)[k]);
            }
        }
    } else {
        let t = s.drop_last();
        assert(time_ordered(t)) by {
            assert forall|i: int, j: int| 0 <= i < j < t.len() implies #[trigger] t[i].1 <= #[trigger] t[j].1 by {
                assert(t[i] == s[i] && t[j] == s[j]);
            }
        }
        lemma_insert_keeps_order(t, x);
        let r = insert_by_time(t, x);
        assert forall|k: int| 0 <= k < r.len() implies #[trigger] r[k].1 <= s.last().1 by {
            if r[k] != x {
                let m = choose|m: int| 0 <= m < t.len() && t[m] == r[k];
                assert(s[m] == t[m]);
            }
        }
        assert forall|k: int| 0 <= k < r.push(s.last()).len() implies #[trigger] r.push(s.last())[k] == x || exists|m: int| 0 <= m < s.len() && s[m] == r.push(s.last())[k] by {
            if k < r.len() {
                assert(r.push(s.last())[k] == r[k]);
                if r[k] != x {
                    let m = choose|m: int| 0 <= m < t.len() && t[m] == r[k];
                    assert(s[m] == t[m]);
                }
            } else {
                assert(s[s.len() - 1] == r.push(s.last())[k]);
            }
        }
        assert forall|i: int, j: int| 0 <= i < j < r.push(s.last()).len() implies #[trigger] r.push(s.last())[i].1 <= #[trigger] r.push(s.last())[j].1 by {
            if j == r.len() {
                assert(r.push(s.last())[i] == r[i]);
            } else {
                assert(r.push(s.last())[i] == r[i]);
                assert(r.push(s.last())[j] == r[j]);
            }
        }
    }
}

/// Trajectory points come back ordered by timestamp.
pub proof fn lemma_sort_by_time_ordered(s: Seq<(Seq<u8>, u64)>)
    ensures
        time_ordered(sort_by_time(s)),
        sort_by_time(s).len() == s.len(),
    decreases s.len(),
{
    if s.len() > 0 {
        lemma_sort_by_time_ordered(s.drop_last());
        lemma_insert_keeps_order(sort_by_time(s.drop_last()), s.last());
    }
}

/// Placing a point among others adds it and nothing else.
proof fn lemma_insert_by_time_multiset(s: Seq<(Seq<u8>, u64)>, x: (Seq<u8>, u64))
    ensures
        insert_by_time(s, x).to_multiset() == s.to_multiset().insert(x),
    decreases s.len(),
{
    broadcast use vstd::seq_lib::group_to_multiset_ensures;

    if s.len() == 0 || s.last().1 <= x.1 {
    } else {
        let t = s.drop_last();
        lemma_insert_by_time_multiset(t, x);
        assert(t.push(s.last()) =~= s);
        assert(insert_by_time(s, x).to_multiset() =~= s.to_multiset().insert(x));
    }
}

/// Ordering points by time keeps every point, as often as it came.
pub proof fn lemma_sort_by_time_permutes(s: Seq<(Seq<u8>, u64)>)
    ensures
        sort_by_time(s).to_multiset() == s.to_multiset(),
    decreases s.len(),
{
    broadcast use vstd::seq_lib::group_to_multiset_ensures;

    if s.len() > 0 {
        lemma_sort_by_time_permutes(s.drop_last());
        lemma_insert_by_time_multiset(sort_by_time(s.drop_last()), s.last());
        assert(s.drop_last().push(s.last()) =~= s);
        assert(sort_by_time(s).to_multiset() =~= s.to_multiset());
    }
}

/// Every point within a window has its own timestamp, and that timestamp is
/// in the window; an empty window holds no point.
pub proof fn lemma_in_window_bounds(values: Seq<Seq<u8>>, start: u64, end: u64)
    ensures
        forall|i: int|
            0 <= i < in_window(values, start, end).len() ==> start <= (#[trigger] in_window(values, start, end)[i]).1
                <= end && point_timestamp(in_window(values, start, end)[i].0) == Some(in_window(values, start, end)[i].1),
        start > end ==> in_window(values, start, end).len() == 0,
    decreases values.len(),
{
    if values.len() > 0 {
        lemma_in_window_bounds(values.drop_last(), start, end);
        let r = in_window(values.drop_last(), start, end);
        assert forall|i: int| 0 <= i < in_window(values, start, end).len() implies start <= (#[trigger] in_window(
            values,
            start,
            end,
        )[i]).1 <= end && point_timestamp(in_window(values, start, end)[i].0) == Some(in_window(values, start, end)[i].1) by {
            if i < r.len() {
                assert(in_window(values, start, end)[i] == r[i]);
            }
        }
    }
}

/// A stored value decodes with a timestamp within `start..=end`.
pub open spec fn in_time_window(v: Seq<u8>, start: u64, end: u64) -> bool {
    match point_timestamp(v) {
        Some(t) => start <= t && t <= end,
        None => false,
    }
}

/// A stored value with the timestamp it decodes with.
pub open spec fn with_timestamp(v: Seq<u8>) -> (Seq<u8>, u64) {
    (v, point_timestamp(v).unwrap())
}

/// The points within a window are exactly the stored values that decode
/// with a timestamp in the window, each with that timestamp, in the order
/// stored, every one of them as often as it is stored.
pub proof fn lemma_in_window_keeps_every_point(values: Seq<Seq<u8>>, start: u64, end: u64)
    ensures
        in_window(values, start, end) == values.filter(|v: Seq<u8>| in_time_window(v, start, end)).map_values(
            |v: Seq<u8>| with_timestamp(v),
        ),
    decreases values.len(),
{
    reveal(Seq::filter);
    let f = |v: Seq<u8>| in_time_window(v, start, end);
    let g = |v: Seq<u8>| with_timestamp(v);
    if values.len() == 0 {
        assert(values.filter(f).map_values(g) =~= Seq::<(Seq<u8>, u64)>::empty());
    } else {
        lemma_in_window_keeps_every_point(values.drop_last(), start, end);
        let r = values.drop_last().filter(f);
        if f(values.last()) {
            assert(values.filter(f) == r.push(values.last()));
            assert(r.push(values.last()).map_values(g) =~= r.map_values(g).push(g(values.last())));
        } else {
            assert(values.filter(f) == r);
        }
    }
}

/// What a trajectory query gives back: the points of the window ordered by
/// time, each point of the window exactly as often as it is stored, each
/// with its own timestamp, inside the window; nothing for an empty window.
pub proof fn lemma_trajectory_query(values: Seq<Seq<u8>>, start: u64, end: u64)
    ensures
        time_ordered(sort_by_time(in_window(values, start, end))),
        sort_by_time(in_window(values, start, end)).to_multiset() == in_window(values, start, end).to_multiset(),
        forall|p: (Seq<u8>, u64)|
            sort_by_time(in_window(values, start, end)).contains(p) ==> start <= p.1 <= end && point_timestamp(p.0)
                == Some(p.1),
        start > end ==> sort_by_time(in_window(values, start, end)).len() == 0,
{
    broadcast use vstd::seq_lib::group_to_multiset_ensures;

    let w = in_window(values, start, end);
    lemma_sort_by_time_ordered(w);
    lemma_sort_by_time_permutes(w);
    lemma_in_window_bounds(values, start, end);
    assert forall|p: (Seq<u8>, u64)| sort_by_time(w).contains(p) implies start <= p.1 <= end && point_timestamp(p.0) == Some(p.1) by {
        assert(sort_by_time(w).to_multiset().count(p) > 0);
        assert(w.to_multiset().count(p) > 0);
        assert(w.contains(p));
        let i = choose|i: int| 0 <= i < w.len() && w[i] == p;
        assert(start <= w[i].1 <= end);
    }
}

/// The view of points with their timestamps.
pub open spec fn point_views(v: Seq<(Bytes, u64)>) -> Seq<(Seq<u8>, u64)> {
    v.map_values(|p: (Bytes, u64)| (bytes_view(p.0), p.1))
}

/// Inserting at the place after the last point no later than `x`.
proof fn lemma_insert_by_time(s: Seq<(Seq<u8>, u64)>, x: (Seq<u8>, u64), j: int)
    requires
        0 <= j <= s.len(),
        j == 0 || s[j - 1].1 <= x.1,
        forall|k: int| j <= k < s.len() ==> #[trigger] s[k].1 > x.1,
    ensures
        insert_by_time(s, x) == s.insert(j, x),
    decreases s.len(),
{
    if s.len() == j {
        assert(s.insert(j, x) =~= s.push(x));
    } else {
        assert(s.last().1 > x.1);
        assert forall|k: int| j <= k < s.drop_last().len() implies #[trigger] s.drop_last()[k].1 > x.1 by {
            assert(s.drop_last()[k] == s[k]);
        }
        lemma_insert_by_time(s.drop_last(), x, j);
        assert(s.drop_last().insert(j, x).push(s.last()) =~= s.insert(j, x));
    }
}

/// Places `x` after the last point no later than it.
fn insert_point(out: &mut Vec<(Bytes, u64)>, x: (Bytes, u64))
    ensures
        point_views(final(out)@) == insert_by_time(point_views(old(out)@), (bytes_view(x.0), x.1)),
{
    let ghost s = point_views(out@);
    let ghost xv = (bytes_view(x.0), x.1);
    let mut j: usize = out.len();
    while j > 0 && out[j - 1].1 > x.1
        invariant
            s == point_views(out@),
            j <= out@.len(),
            forall|k: int| j <= k < s.len() ==> #[trigger] s[k].1 > xv.1,
            xv.1 == x.1,
        decreases j,
    {
        assert(s[j - 1].1 == out@[j - 1].1);
        j = j - 1;
    }
    proof {
        if j > 0 {
            assert(s[j - 1].1 == out@[j - 1].1);
        }
        lemma_insert_by_time(s, xv, j as int);
    }
    out.insert(j, x);
    assert(point_views(out@) =~= s.insert(j as int, xv));
}

/// The live keys under a prefix are at least as long as the prefix.
proof fn lemma_live_keys_extend_prefix(s: Seq<EntryView>, p: Seq<u8>, now: u128)
    ensures
        forall|k: int|
            0 <= k < unexpired(with_prefix(s, p), now).len() ==> p.len() <= (#[trigger] unexpired(
                with_prefix(s, p),
                now,
            )[k]).0.len(),
{
    let wp = with_prefix(s, p);
    let u = unexpired(wp, now);
    crate::ordered::lemma_with_prefix_members(s, p);
    crate::ordered::lemma_unexpired_members(wp, now);
    assert forall|k: int| 0 <= k < u.len() implies p.len() <= (#[trigger] u[k]).0.len() by {
        let j = choose|j: int| 0 <= j < wp.len() && wp[j] == u[k];
        assert(crate::order::is_prefix(p, wp[j].0));
    }
}

/// The points of the trajectory of `object_id` recorded within
/// `start_time..=end_time`, each value with its timestamp, ordered by
/// timestamp: the live values, when the clock reads `now`, in key order,
/// under the keys `traj:{object_id}:{timestamp}:{index}` of that object
/// alone, that decode with a timestamp in the window.
pub fn trajectory_points(store: &Store, object_id: &str, start_time: u64, end_time: u64, now: u128) -> (r: Vec<
    (Bytes, u64),
>)
    requires
        store.wf(),
    ensures
        point_views(r@) == sort_by_time(
            in_window(
                point_values(
                    unexpired(
                        with_prefix(store.entries(), encode_utf8("traj:"@ + object_id@ + ":"@)),
                        now,
                    ).map_values(|e: EntryView| (e.0, e.1.value)),
                    encode_utf8("traj:"@ + object_id@ + ":"@).len() as int,
                ),
                start_time,
                end_time,
            ),
        ),
        time_ordered(point_views(r@)),
        point_views(r@).to_multiset() == point_values(
            unexpired(
                with_prefix(store.entries(), encode_utf8("traj:"@ + object_id@ + ":"@)),
                now,
            ).map_values(|e: EntryView| (e.0, e.1.value)),
            encode_utf8("traj:"@ + object_id@ + ":"@).len() as int,
        ).filter(|v: Seq<u8>| in_time_window(v, start_time, end_time)).map_values(|v: Seq<u8>| with_timestamp(v)).to_multiset(),
{
    let prefix = trajectory_prefix(object_id);
    let pb = prefix.as_str().as_bytes();
    let entries = store.live_entries_with_prefix(pb, now);
    let ghost es = key_value_views(entries@);
    proof {
        lemma_live_keys_extend_prefix(store.entries(), pb@, now);
    }
    let ghost n = pb@.len() as int;
    assert forall|k: int| 0 <= k < es.len() implies n <= (#[trigger] es[k]).0.len() by {
        assert(es[k].0 == unexpired(with_prefix(store.entries(), pb@), now)[k].0);
    }
    let mut out: Vec<(Bytes, u64)> = Vec::new();
    let mut i: usize = 0;
    assert(es.take(0) =~= Seq::<(Seq<u8>, Seq<u8>)>::empty());
    assert(point_views(out@) =~= Seq::<(Seq<u8>, u64)>::empty());
    while i < entries.len()
        invariant
            i <= entries@.len(),
            es == key_value_views(entries@),
            n == pb@.len(),
            forall|k: int| 0 <= k < es.len() ==> n <= (#[trigger] es[k]).0.len(),
            point_views(out@) == sort_by_time(in_window(point_values(es.take(i as int), n), start_time, end_time)),
        decreases entries@.len() - i,
    {
        assert(es.take(i + 1).drop_last() =~= es.take(i as int));
        assert(es.take(i + 1).last() == es[i as int]);
        assert(es[i as int] == (bytes_view(entries@[i as int].0), bytes_view(entries@[i as int].1)));
        let ghost pv = point_values(es.take(i as int), n);
        let ghost w = in_window(pv, start_time, end_time);
        let key = bytes_slice(&entries[i].0);
        assert(n <= key@.len()) by {
            assert(n <= es[i as int].0.len());
        }
        if point_key_rest(key, pb.len()) {
            assert(point_values(es.take(i + 1), n) == pv.push(es[i as int].1));
            assert(pv.push(es[i as int].1).drop_last() =~= pv);
            match decode_timestamp(bytes_slice(&entries[i].1)) {
                Some(t) => {
                    if start_time <= t && t <= end_time {
                        let ghost x = (es[i as int].1, t);
                        assert(in_window(pv.push(es[i as int].1), start_time, end_time) == w.push(x));
                        assert(w.push(x).drop_last() =~= w);
                        insert_point(&mut out, (bytes_clone(&entries[i].1), t));
                    } else {
                        assert(in_window(pv.push(es[i as int].1), start_time, end_time) == w);
                    }
                },
                None => {
                    assert(in_window(pv.push(es[i as int].1), start_time, end_time) == w);
                },
            }
        } else {
            assert(point_values(es.take(i + 1), n) == pv);
        }
        i = i + 1;
    }
    assert(es.take(entries@.len() as int) =~= es);
    proof {
        let pv = point_values(es, n);
        lemma_sort_by_time_ordered(in_window(pv, start_time, end_time));
        lemma_sort_by_time_permutes(in_window(pv, start_time, end_time));
        lemma_in_window_keeps_every_point(pv, start_time, end_time);
    }
    out
}

} // verus!
