//! Byte strings: the lexicographic order in which keys are kept, prefixes and
//! search.

use vstd::prelude::*;

verus! {

/// `a` sorts strictly before `b` in lexicographic byte order.
pub open spec fn lex_lt(a: Seq<u8>, b: Seq<u8>) -> bool
    decreases a.len(),
{
    if a.len() == 0 {
        b.len() > 0
    } else if b.len() == 0 {
        false
    } else if a[0] != b[0] {
        a[0] < b[0]
    } else {
        lex_lt(a.drop_first(), b.drop_first())
    }
}

/// `p` is a prefix of `s`.
pub open spec fn is_prefix(p: Seq<u8>, s: Seq<u8>) -> bool {
    p.len() <= s.len() && s.subrange(0, p.len() as int) == p
}

pub proof fn lemma_lex_irreflexive(a: Seq<u8>)
    ensures
        !lex_lt(a, a),
    decreases a.len(),
{
    if a.len() > 0 {
        lemma_lex_irreflexive(a.drop_first());
    }
}

pub proof fn lemma_lex_transitive(a: Seq<u8>, b: Seq<u8>, c: Seq<u8>)
    requires
        lex_lt(a, b),
        lex_lt(b, c),
    ensures
        lex_lt(a, c),
    decreases a.len(),
{
    if a.len() > 0 && b.len() > 0 && c.len() > 0 {
        if a[0] == b[0] && b[0] == c[0] {
            lemma_lex_transitive(a.drop_first(), b.drop_first(), c.drop_first());
        }
    }
}

pub proof fn lemma_lex_total(a: Seq<u8>, b: Seq<u8>)
    ensures
        a == b || lex_lt(a, b) || lex_lt(b, a),
    decreases a.len(),
{
    if a.len() > 0 && b.len() > 0 && a[0] == b[0] {
        lemma_lex_total(a.drop_first(), b.drop_first());
        if a.drop_first() == b.drop_first() {
            assert(a =~= seq![a[0]] + a.drop_first());
            assert(b =~= seq![b[0]] + b.drop_first());
        }
    } else if a.len() == 0 && b.len() == 0 {
        assert(a =~= b);
    }
}

pub proof fn lemma_lex_asymmetric(a: Seq<u8>, b: Seq<u8>)
    requires
        lex_lt(a, b),
    ensures
        !lex_lt(b, a),
{
    if lex_lt(b, a) {
        lemma_lex_transitive(a, b, a);
        lemma_lex_irreflexive(a);
    }
}

/// Compares two byte strings: -1 when `a` sorts first, 0 when equal, 1 otherwise.
pub fn compare_bytes(a: &[u8], b: &[u8]) -> (r: i8)
    ensures
        r == 0 <==> a@ == b@,
        r < 0 <==> lex_lt(a@, b@),
        r > 0 <==> lex_lt(b@, a@),
{
    let mut i: usize = 0;
    assert(a@.subrange(0, a.len() as int) =~= a@);
    assert(b@.subrange(0, b.len() as int) =~= b@);
    while i < a.len() && i < b.len()
        invariant
            i <= a.len(),
            i <= b.len(),
            a@.subrange(0, i as int) == b@.subrange(0, i as int),
            lex_lt(a@, b@) == lex_lt(a@.subrange(i as int, a.len() as int), b@.subrange(i as int, b.len() as int)),
            lex_lt(b@, a@) == lex_lt(b@.subrange(i as int, b.len() as int), a@.subrange(i as int, a.len() as int)),
        decreases a.len() - i,
    {
        if a[i] != b[i] {
            proof {
                lemma_lex_total(a@, b@);
            }
            if a[i] < b[i] {
                proof { lemma_lex_asymmetric(a@, b@); }
                return -1;
            } else {
                proof { lemma_lex_asymmetric(b@, a@); }
                return 1;
            }
        }
        let ghost sa = a@.subrange(i as int, a.len() as int);
        let ghost sb = b@.subrange(i as int, b.len() as int);
        assert(sa.drop_first() =~= a@.subrange(i + 1, a.len() as int));
        assert(sb.drop_first() =~= b@.subrange(i + 1, b.len() as int));
        assert(a@.subrange(0, i + 1) =~= a@.subrange(0, i as int).push(a[i as int]));
        assert(b@.subrange(0, i + 1) =~= b@.subrange(0, i as int).push(b[i as int]));
        i = i + 1;
    }
    proof {
        lemma_lex_irreflexive(a@);
        lemma_lex_total(a@, b@);
    }
    if a.len() == b.len() {
        assert(a@ =~= a@.subrange(0, i as int));
        assert(b@ =~= b@.subrange(0, i as int));
        0
    } else if a.len() < b.len() {
        proof { lemma_lex_asymmetric(a@, b@); }
        -1
    } else {
        proof { lemma_lex_asymmetric(b@, a@); }
        1
    }
}

/// Whether `s` starts with `p`.
pub fn starts_with(s: &[u8], p: &[u8]) -> (b: bool)
    ensures
        b == is_prefix(p@, s@),
{
    if p.len() > s.len() {
        return false;
    }
    let mut i: usize = 0;
    while i < p.len()
        invariant
            p.len() <= s.len(),
            i <= p.len(),
            forall|j: int| 0 <= j < i ==> s@[j] == p@[j],
        decreases p.len() - i,
    {
        if s[i] != p[i] {
            assert(s@.subrange(0, p.len() as int)[i as int] != p@[i as int]);
            return false;
        }
        i = i + 1;
    }
    assert(s@.subrange(0, p.len() as int) =~= p@);
    true
}

/// `needle` occurs in `hay` starting at position `i`.
pub open spec fn occurs_at(hay: Seq<u8>, needle: Seq<u8>, i: int) -> bool {
    0 <= i && i + needle.len() <= hay.len() && hay.subrange(i, i + needle.len()) == needle
}

/// The first position, at `i` or after, at which `needle` occurs in `hay`.
pub open spec fn find_from(hay: Seq<u8>, needle: Seq<u8>, i: int) -> Option<int>
    decreases hay.len() - i,
{
    if i < 0 || i + needle.len() > hay.len() {
        None
    } else if occurs_at(hay, needle, i) {
        Some(i)
    } else if i >= hay.len() {
        None
    } else {
        find_from(hay, needle, i + 1)
    }
}

/// The first position at which `needle` occurs in `hay`.
pub open spec fn find(hay: Seq<u8>, needle: Seq<u8>) -> Option<int> {
    find_from(hay, needle, 0)
}

/// What the first occurrence found from `i` on is.
pub proof fn lemma_find_from(hay: Seq<u8>, needle: Seq<u8>, i: int)
    requires
        0 <= i,
    ensures
        match find_from(hay, needle, i) {
            Some(p) => i <= p && occurs_at(hay, needle, p) && forall|j: int| i <= j < p ==> !#[trigger] occurs_at(hay, needle, j),
            None => forall|j: int| i <= j ==> !#[trigger] occurs_at(hay, needle, j),
        },
    decreases hay.len() - i,
{
    if i + needle.len() > hay.len() {
    } else if occurs_at(hay, needle, i) {
    } else if i >= hay.len() {
    } else {
        lemma_find_from(hay, needle, i + 1);
    }
}

/// Whether `needle` occurs in `hay` at `i`.
pub fn matches_at(hay: &[u8], needle: &[u8], i: usize) -> (b: bool)
    requires
        i + needle@.len() <= hay@.len(),
    ensures
        b == occurs_at(hay@, needle@, i as int),
{
    let mut j: usize = 0;
    while j < needle.len()
        invariant
            i + needle@.len() <= hay@.len(),
            j <= needle@.len(),
            forall|k: int| 0 <= k < j ==> hay@[i + k] == needle@[k],
        decreases needle@.len() - j,
    {
        let n = hay.len();
        assert(i + j < n);
        if hay[i + j] != needle[j] {
            assert(hay@.subrange(i as int, i + needle@.len())[j as int] != needle@[j as int]);
            return false;
        }
        j = j + 1;
    }
    assert(hay@.subrange(i as int, i + needle@.len()) =~= needle@);
    true
}

/// The first position at which `needle` occurs in `hay`.
pub fn find_bytes(hay: &[u8], needle: &[u8]) -> (r: Option<usize>)
    ensures
        match r {
            Some(p) => find(hay@, needle@) == Some(p as int),
            None => find(hay@, needle@) is None,
        },
{
    if needle.len() > hay.len() {
        return None;
    }
    let mut i: usize = 0;
    while i <= hay.len() - needle.len()
        invariant
            needle@.len() <= hay@.len(),
            i <= hay@.len(),
            find(hay@, needle@) == find_from(hay@, needle@, i as int),
        decreases hay@.len() - i,
    {
        if matches_at(hay, needle, i) {
            return Some(i);
        }
        if needle.len() == 0 {
            assert(hay@.subrange(i as int, i as int) =~= needle@);
        }
        i = i + 1;
    }
    None
}

/// Whether `s` holds the byte `b`.
pub fn contains_byte(s: &[u8], b: u8) -> (r: bool)
    ensures
        r == s@.contains(b),
{
    let mut i: usize = 0;
    while i < s.len()
        invariant
            i <= s@.len(),
            forall|k: int| 0 <= k < i ==> s@[k] != b,
        decreases s@.len() - i,
    {
        if s[i] == b {
            assert(s@[i as int] == b);
            return true;
        }
        i = i + 1;
    }
    false
}

/// Appends the bytes of `s` to `v`.
pub fn push_all(v: &mut Vec<u8>, s: &[u8])
    ensures
        final(v)@ == old(v)@ + s@,
{
    let mut i: usize = 0;
    while i < s.len()
        invariant
            i <= s@.len(),
            v@ == old(v)@ + s@.subrange(0, i as int),
        decreases s@.len() - i,
    {
        v.push(s[i]);
        assert(s@.subrange(0, i + 1) =~= s@.subrange(0, i as int).push(s@[i as int]));
        i = i + 1;
    }
    assert(s@.subrange(0, s@.len() as int) =~= s@);
}

/// The smallest byte string greater than every string that starts with `p`,
/// or the empty string when there is none (every byte of `p` is `0xFF`):
/// `p` with its trailing `0xFF` bytes dropped and its last other byte raised
/// by one.
pub open spec fn prefix_end(p: Seq<u8>) -> Seq<u8>
    decreases p.len(),
{
    if p.len() == 0 {
        p
    } else if p.last() < 255 {
        p.drop_last().push((p.last() + 1) as u8)
    } else {
        prefix_end(p.drop_last())
    }
}

/// The upper bound of a prefix scan.
pub fn calculate_prefix_end(prefix: &[u8]) -> (e: Vec<u8>)
    ensures
        e@ == prefix_end(prefix@),
{
    let mut e: Vec<u8> = Vec::new();
    push_all(&mut e, prefix);
    while e.len() > 0
        invariant
            prefix_end(e@) == prefix_end(prefix@),
        decreases e@.len(),
    {
        let last = e.pop().unwrap();
        if last < 255 {
            e.push(last + 1);
            return e;
        }
    }
    e
}

/// A string sorts no lower than its prefixes.
proof fn lemma_prefix_not_above(p: Seq<u8>, k: Seq<u8>)
    requires
        is_prefix(p, k),
    ensures
        !lex_lt(k, p),
    decreases p.len(),
{
    if p.len() > 0 {
        assert(k.drop_first().subrange(0, p.len() - 1) =~= p.drop_first());
        lemma_prefix_not_above(p.drop_first(), k.drop_first());
    }
}

/// A string with prefix `q` followed by `x` sorts below `q` followed by a larger byte.
proof fn lemma_below_raised(q: Seq<u8>, x: u8, k: Seq<u8>)
    requires
        x < 255,
        is_prefix(q.push(x), k),
    ensures
        lex_lt(k, q.push((x + 1) as u8)),
    decreases q.len(),
{
    let p = q.push(x);
    let e = q.push((x + 1) as u8);
    assert(k.subrange(0, p.len() as int)[0] == k[0]);
    assert(p[0] == k[0]);
    if q.len() > 0 {
        assert(p.drop_first() =~= q.drop_first().push(x));
        assert(e.drop_first() =~= q.drop_first().push((x + 1) as u8));
        assert(k.drop_first().subrange(0, q.len() as int) =~= q.drop_first().push(x)) by {
            assert forall|i: int| 0 <= i < q.len() implies k.drop_first().subrange(0, q.len() as int)[i] == p.drop_first()[i] by {
                assert(k.subrange(0, p.len() as int)[i + 1] == p[i + 1]);
            }
        }
        lemma_below_raised(q.drop_first(), x, k.drop_first());
        assert(e[0] == q[0]);
    } else {
        assert(e =~= seq![(x + 1) as u8]);
        assert(p =~= seq![x]);
    }
}

/// A string between `q` followed by `x` and `q` followed by `x + 1` starts
/// with `q` followed by `x`.
proof fn lemma_between_raised(q: Seq<u8>, x: u8, k: Seq<u8>)
    requires
        x < 255,
        !lex_lt(k, q.push(x)),
        lex_lt(k, q.push((x + 1) as u8)),
    ensures
        is_prefix(q.push(x), k),
    decreases q.len(),
{
    let p = q.push(x);
    let e = q.push((x + 1) as u8);
    assert(p[0] == if q.len() > 0 { q[0] } else { x });
    assert(e[0] == if q.len() > 0 { q[0] } else { (x + 1) as u8 });
    if q.len() > 0 {
        assert(k.len() > 0);
        assert(k[0] == q[0]);
        assert(p.drop_first() =~= q.drop_first().push(x));
        assert(e.drop_first() =~= q.drop_first().push((x + 1) as u8));
        lemma_between_raised(q.drop_first(), x, k.drop_first());
        assert(k.subrange(0, p.len() as int) =~= p) by {
            assert forall|i: int| 0 <= i < p.len() implies k.subrange(0, p.len() as int)[i] == p[i] by {
                if i > 0 {
                    assert(k.drop_first().subrange(0, p.len() - 1)[i - 1] == p.drop_first()[i - 1]);
                }
            }
        }
    } else {
        assert(p =~= seq![x]);
        assert(e =~= seq![(x + 1) as u8]);
        assert(k.len() > 0);
        if k[0] != x {
            assert(lex_lt(k, p) == (k[0] < x));
            assert(lex_lt(k, e) == (k[0] < x + 1 || (k[0] == x + 1 && lex_lt(k.drop_first(), e.drop_first()))));
            assert(e.drop_first().len() == 0);
        }
        assert(k.subrange(0, 1) =~= p);
    }
}

/// A string that starts with `q` and sorts no lower than `q` followed by
/// `0xFF` starts with `q` followed by `0xFF`.
proof fn lemma_top_byte(q: Seq<u8>, k: Seq<u8>)
    requires
        is_prefix(q, k),
        !lex_lt(k, q.push(255u8)),
    ensures
        is_prefix(q.push(255u8), k),
    decreases q.len(),
{
    let p = q.push(255u8);
    if q.len() > 0 {
        assert(k.subrange(0, q.len() as int)[0] == k[0]);
        assert(k[0] == p[0]);
        assert(p.drop_first() =~= q.drop_first().push(255u8));
        assert(k.drop_first().subrange(0, q.len() - 1) =~= q.drop_first()) by {
            assert forall|i: int| 0 <= i < q.len() - 1 implies k.drop_first().subrange(0, q.len() - 1)[i] == q.drop_first()[i] by {
                assert(k.subrange(0, q.len() as int)[i + 1] == q[i + 1]);
            }
        }
        lemma_top_byte(q.drop_first(), k.drop_first());
        assert(k.subrange(0, p.len() as int) =~= p) by {
            assert forall|i: int| 0 <= i < p.len() implies k.subrange(0, p.len() as int)[i] == p[i] by {
                if i > 0 {
                    assert(k.drop_first().subrange(0, p.len() - 1)[i - 1] == p.drop_first()[i - 1]);
                }
            }
        }
    } else {
        assert(p =~= seq![255u8]);
        assert(k.len() > 0);
        assert(k[0] == 255u8);
        assert(k.subrange(0, 1) =~= p);
    }
}

/// The strings that start with `p` are exactly those from `p` up to, and not
/// including, `prefix_end(p)`; where `prefix_end(p)` is empty, every string
/// from `p` on.
pub proof fn lemma_prefix_end(p: Seq<u8>, k: Seq<u8>)
    ensures
        is_prefix(p, k) <==> (!lex_lt(k, p) && (prefix_end(p).len() == 0 || lex_lt(k, prefix_end(p)))),
    decreases p.len(),
{
    if p.len() == 0 {
        assert(k.subrange(0, 0) =~= p);
    } else {
        let q = p.drop_last();
        let x = p.last();
        assert(p =~= q.push(x));
        if x < 255 {
            if is_prefix(p, k) {
                lemma_prefix_not_above(p, k);
                lemma_below_raised(q, x, k);
            }
            if !lex_lt(k, p) && lex_lt(k, prefix_end(p)) {
                lemma_between_raised(q, x, k);
            }
        } else {
            lemma_prefix_end(q, k);
            if is_prefix(p, k) {
                lemma_prefix_not_above(p, k);
                assert(k.subrange(0, q.len() as int) =~= q);
            }
            if !lex_lt(k, p) && (prefix_end(p).len() == 0 || lex_lt(k, prefix_end(p))) {
                assert(is_prefix(q, p)) by {
                    assert(p.subrange(0, q.len() as int) =~= q);
                }
                lemma_prefix_not_above(q, p);
                if lex_lt(k, q) {
                    lemma_lex_total(q, p);
                    if lex_lt(q, p) {
                        lemma_lex_transitive(k, q, p);
                    }
                }
                lemma_top_byte(q, k);
            }
        }
    }
}

/// The value of decimal digits, most significant first.
pub open spec fn digits_value(d: Seq<u8>) -> nat
    decreases d.len(),
{
    if d.len() == 0 {
        0
    } else {
        digits_value(d.drop_last()) * 10 + (d.last() - 48) as nat
    }
}

/// Every byte is an ASCII digit.
pub open spec fn all_digits(d: Seq<u8>) -> bool {
    forall|i: int| 0 <= i < d.len() ==> 48 <= #[trigger] d[i] <= 57
}

} // verus!
