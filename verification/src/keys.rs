//! Keys under which spatial data is stored: geohash and S2 cell keys, and
//! the keys of trajectory points.

use crate::error::SpatioError;
use crate::order::{
    all_digits, digits_value, is_prefix, lemma_lex_irreflexive, lemma_lex_total, lex_lt, starts_with,
};
use vstd::utf8::*;
use vstd::prelude::*;
use vstd::string::*;

verus! {

/// The decimal digits of `n`, most significant first, without leading zeros.
pub open spec fn decimal(n: nat) -> Seq<char>
    decreases n,
{
    if n < 10 {
        seq![digit_char(n)]
    } else {
        decimal(n / 10).push(digit_char(n % 10))
    }
}

/// The character of a decimal digit.
pub open spec fn digit_char(d: nat) -> char {
    ((48 + d) as u32) as char
}

/// `n` in decimal, padded on the left with `0` to at least `width` digits.
pub open spec fn padded_decimal(n: nat, width: nat) -> Seq<char> {
    if decimal(n).len() < width {
        Seq::new((width - decimal(n).len()) as nat, |i: int| '0') + decimal(n)
    } else {
        decimal(n)
    }
}

/// `String::push`: appends `c` to `s`.
#[verifier::external_body]
pub(crate) fn push_char(s: &mut String, c: char)
    ensures
        final(s)@ == old(s)@.push(c),
{
    s.push(c);
}

/// Appends the decimal digits of `n` to `s`.
pub fn push_decimal(s: &mut String, n: u64)
    ensures
        final(s)@ == old(s)@ + decimal(n as nat),
    decreases n,
{
    if n >= 10 {
        push_decimal(s, n / 10);
    }
    let d = n % 10;
    let c = ((48 + d) as u8) as char;
    assert(c == digit_char((n % 10) as nat));
    push_char(s, c);
    assert(n >= 10 ==> decimal(n as nat) == decimal((n / 10) as nat).push(digit_char((n % 10) as nat)));
}

/// Appends `n` in decimal to `s`, padded on the left with `0` to at least
/// `width` digits.
pub fn push_padded_decimal(s: &mut String, n: u64, width: usize)
    ensures
        final(s)@ == old(s)@ + padded_decimal(n as nat, width as nat),
{
    let mut digits = String::new();
    push_decimal(&mut digits, n);
    let len = digits.as_str().unicode_len();
    let mut i: usize = len;
    let ghost s0 = s@;
    assert(s@ =~= s0 + Seq::new((i - len) as nat, |j: int| '0'));
    while i < width
        invariant
            len == decimal(n as nat).len(),
            len <= i,
            i <= width || len >= width,
            len >= width ==> i == len,
            s@ == s0 + Seq::new((i - len) as nat, |j: int| '0'),
        decreases width - i,
    {
        push_char(s, '0');
        assert(s@ =~= s0 + Seq::new((i + 1 - len) as nat, |j: int| '0'));
        i = i + 1;
    }
    assert(digits@ =~= decimal(n as nat));
    let ghost before = s@;
    s.append(digits.as_str());
    if len < width {
        assert(i == width);
        assert(s@ =~= s0 + (Seq::new((width - len) as nat, |j: int| '0') + decimal(n as nat)));
    } else {
        assert(i == len);
        assert(s@ =~= s0 + decimal(n as nat));
    }
}

/// The cell id of the grid cell at row `lat_cell` and column `lon_cell` of
/// the `2^level` by `2^level` grid over latitude and longitude: the level in
/// the top byte, the row from bit 28 and the column in the low bits. Levels
/// above 30 are refused.
pub fn s2_cell_value(level: u8, lat_cell: u64, lon_cell: u64) -> (r: Result<u64, SpatioError>)
    ensures
        level > 30 ==> (match r {
            Err(SpatioError::Other(msg)) => msg@ == "S2 level must be <= 30"@,
            _ => false,
        }),
        level <= 30 ==> r == Ok::<u64, SpatioError>(((level as u64) << 56u64) | (lat_cell << 28u64) | lon_cell),
{
    if level > 30 {
        return Err(SpatioError::Other(String::from_str("S2 level must be <= 30")));
    }
    Ok(((level as u64) << 56) | (lat_cell << 28) | lon_cell)
}

/// Whether one geohash cell contains the other: one geohash is a prefix of
/// the other.
pub fn geohash_cells_overlap(stored: &str, candidate: &str) -> (b: bool)
    ensures
        b == (is_prefix(encode_utf8(candidate@), encode_utf8(stored@)) || is_prefix(
            encode_utf8(stored@),
            encode_utf8(candidate@),
        )),
{
    starts_with(stored.as_bytes(), candidate.as_bytes()) || starts_with(candidate.as_bytes(), stored.as_bytes())
}

/// Builds the keys under which spatial data is stored.
pub struct SpatialKey;

impl SpatialKey {
    /// The key of a geohash cell under `prefix`: `{prefix}:gh:{geohash}`.
    pub fn geohash(prefix: &str, geohash: &str) -> (k: String)
        ensures
            k@ == prefix@ + ":gh:"@ + geohash@,
    {
        let mut k = String::from_str(prefix);
        k.append(":gh:");
        k.append(geohash);
        k
    }

    /// The key of an S2 cell under `prefix`: `{prefix}:s2:{cell_id}`, with
    /// the cell id in decimal.
    pub fn s2_cell(prefix: &str, cell_id: u64) -> (k: String)
        ensures
            k@ == prefix@ + ":s2:"@ + decimal(cell_id as nat),
    {
        let mut k = String::from_str(prefix);
        k.append(":s2:");
        push_decimal(&mut k, cell_id);
        k
    }
}

/// The prefix of the keys of the trajectory of `object_id`: `traj:{object_id}:`.
pub fn trajectory_prefix(object_id: &str) -> (k: String)
    ensures
        k@ == "traj:"@ + object_id@ + ":"@,
{
    let mut k = String::from_str("traj:");
    k.append(object_id);
    k.append(":");
    k
}

/// The characters of the key of a trajectory point.
pub open spec fn trajectory_key_chars(object_id: Seq<char>, timestamp: u64, index: u64) -> Seq<char> {
    "traj:"@ + object_id + ":"@ + padded_decimal(timestamp as nat, 10) + ":"@ + padded_decimal(index as nat, 6)
}

/// Ten to the power `k`.
pub open spec fn pow10(k: nat) -> nat
    decreases k,
{
    if k == 0 {
        1
    } else {
        10 * pow10((k - 1) as nat)
    }
}

/// The bytes of ASCII characters.
pub open spec fn ascii(cs: Seq<char>) -> Seq<u8> {
    cs.map_values(|c: char| c as u8)
}

/// A character is a decimal digit.
pub open spec fn is_digit_char(c: char) -> bool {
    '0' <= c <= '9'
}

proof fn lemma_digit_char(d: nat)
    requires
        d < 10,
    ensures
        is_digit_char(digit_char(d)),
        digit_char(d) as u8 == 48 + d,
{
    assert(((48 + d) as u32) as char as u32 == (48 + d) as u32);
}

/// The digits of a number are decimal digits, at least one and at most `k`
/// below `10^k`.
proof fn lemma_decimal_shape(n: nat, k: nat)
    requires
        1 <= k,
        n < pow10(k),
    ensures
        1 <= decimal(n).len() <= k,
        forall|i: int| 0 <= i < decimal(n).len() ==> is_digit_char(#[trigger] decimal(n)[i]),
    decreases n,
{
    if n < 10 {
        lemma_digit_char(n);
    } else {
        assert(k >= 2) by {
            if k == 1 {
                reveal_with_fuel(pow10, 2);
                assert(pow10(1) == 10);
            }
        }
        assert(n / 10 < pow10((k - 1) as nat)) by (nonlinear_arith)
            requires
                n < pow10(k),
                pow10(k) == 10 * pow10((k - 1) as nat),
        ;
        lemma_decimal_shape(n / 10, (k - 1) as nat);
        lemma_digit_char(n % 10);
        let p = decimal(n / 10);
        assert forall|i: int| 0 <= i < decimal(n).len() implies is_digit_char(#[trigger] decimal(n)[i]) by {
            if i < p.len() {
                assert(decimal(n)[i] == p[i]);
            }
        }
    }
}

/// The value of the digits of a number is the number.
proof fn lemma_decimal_value(n: nat)
    ensures
        digits_value(ascii(decimal(n))) == n,
        all_digits(ascii(decimal(n))),
    decreases n,
{
    if n < 10 {
        lemma_digit_char(n);
        let b = seq![(48 + n) as u8];
        assert(ascii(decimal(n)) =~= b);
        assert(b.drop_last() =~= Seq::<u8>::empty());
        assert(b.last() == (48 + n) as u8);
        assert(digits_value(b) == digits_value(Seq::<u8>::empty()) * 10 + (b.last() - 48) as nat);
        assert(digits_value(b) == n);
        assert(all_digits(b)) by {
            assert forall|i: int| 0 <= i < b.len() implies 48 <= #[trigger] b[i] <= 57 by {
                assert(b[i] == (48 + n) as u8);
            }
        }
    } else {
        lemma_decimal_value(n / 10);
        lemma_digit_char(n % 10);
        let p = ascii(decimal(n / 10));
        let b = p.push((48 + n % 10) as u8);
        assert(ascii(decimal(n)) =~= b);
        assert(b.drop_last() =~= p);
        assert(b.last() == (48 + n % 10) as u8);
        assert(digits_value(b) == digits_value(p) * 10 + (b.last() - 48) as nat);
        assert(n == (n / 10) * 10 + n % 10);
        assert(all_digits(b)) by {
            assert forall|i: int| 0 <= i < b.len() implies 48 <= #[trigger] b[i] <= 57 by {
                if i < p.len() {
                    assert(b[i] == p[i]);
                }
            }
        }
    }
}

/// Leading zeros do not change the value of digits.
proof fn lemma_leading_zeros(z: Seq<u8>, x: Seq<u8>)
    requires
        forall|i: int| 0 <= i < z.len() ==> #[trigger] z[i] == 48u8,
    ensures
        digits_value(z + x) == digits_value(x),
    decreases x.len(), z.len(),
{
    if x.len() == 0 {
        assert(z + x =~= z);
        if z.len() > 0 {
            assert forall|i: int| 0 <= i < z.drop_last().len() implies #[trigger] z.drop_last()[i] == 48u8 by {
                assert(z.drop_last()[i] == z[i]);
            }
            lemma_leading_zeros(z.drop_last(), x);
            assert(z.drop_last() + x =~= z.drop_last());
        }
    } else {
        lemma_leading_zeros(z, x.drop_last());
        assert((z + x).drop_last() =~= z + x.drop_last());
        assert((z + x).last() == x.last());
    }
}

/// Padded below `10^w`, a number has exactly `w` digits, whose value is the
/// number.
proof fn lemma_padded(n: nat, w: nat)
    requires
        1 <= w,
        n < pow10(w),
    ensures
        padded_decimal(n, w).len() == w,
        forall|i: int| 0 <= i < w ==> is_digit_char(#[trigger] padded_decimal(n, w)[i]),
        digits_value(ascii(padded_decimal(n, w))) == n,
        all_digits(ascii(padded_decimal(n, w))),
{
    lemma_decimal_shape(n, w);
    lemma_decimal_value(n);
    let d = decimal(n);
    if d.len() < w {
        let z = Seq::new((w - d.len()) as nat, |i: int| '0');
        assert(padded_decimal(n, w) == z + d);
        assert(ascii(z + d) =~= ascii(z) + ascii(d));
        lemma_leading_zeros(ascii(z), ascii(d));
        assert forall|i: int| 0 <= i < w implies is_digit_char(#[trigger] padded_decimal(n, w)[i]) by {
            if i >= z.len() {
                assert(padded_decimal(n, w)[i] == d[i - z.len()]);
            }
        }
        assert forall|i: int| 0 <= i < w implies 48 <= #[trigger] ascii(padded_decimal(n, w))[i] <= 57 by {
            if i >= z.len() {
                assert(ascii(padded_decimal(n, w))[i] == ascii(d)[i - z.len()]);
            }
        }
    }
}

/// The UTF-8 encoding of two strings one after the other.
pub(crate) proof fn lemma_encode_concat(a: Seq<char>, b: Seq<char>)
    ensures
        encode_utf8(a + b) == encode_utf8(a) + encode_utf8(b),
    decreases a.len(),
{
    if a.len() == 0 {
        assert(a + b =~= b);
        assert(encode_utf8(a) + encode_utf8(b) =~= encode_utf8(b));
    } else {
        assert((a + b).drop_first() =~= a.drop_first() + b);
        lemma_encode_concat(a.drop_first(), b);
        assert(encode_utf8(a + b) =~= encode_utf8(a) + encode_utf8(b));
    }
}

/// The UTF-8 encoding of decimal digits is their ASCII bytes.
proof fn lemma_encode_digits(cs: Seq<char>)
    requires
        forall|i: int| 0 <= i < cs.len() ==> is_digit_char(#[trigger] cs[i]),
    ensures
        encode_utf8(cs) == ascii(cs),
{
    assert(is_ascii_chars(cs)) by {
        assert forall|i: int| 0 <= i < cs.len() implies '\0' <= #[trigger] cs[i] <= '\u{7f}' by {
            assert(is_digit_char(cs[i]));
        }
    }
    is_ascii_chars_encode_utf8(cs);
    assert(encode_utf8(cs) =~= ascii(cs));
}

/// Comparing two strings that start with parts of one length: the first
/// parts decide, and where they are equal the rest does.
proof fn lemma_lex_split(x1: Seq<u8>, y1: Seq<u8>, x2: Seq<u8>, y2: Seq<u8>)
    requires
        x1.len() == x2.len(),
    ensures
        lex_lt(x1 + y1, x2 + y2) == (lex_lt(x1, x2) || (x1 == x2 && lex_lt(y1, y2))),
    decreases x1.len(),
{
    if x1.len() == 0 {
        assert(x1 + y1 =~= y1);
        assert(x2 + y2 =~= y2);
        assert(x1 =~= x2);
    } else {
        assert((x1 + y1)[0] == x1[0]);
        assert((x2 + y2)[0] == x2[0]);
        if x1[0] == x2[0] {
            assert((x1 + y1).drop_first() =~= x1.drop_first() + y1);
            assert((x2 + y2).drop_first() =~= x2.drop_first() + y2);
            lemma_lex_split(x1.drop_first(), y1, x2.drop_first(), y2);
            if x1.drop_first() == x2.drop_first() {
                assert(x1 =~= seq![x1[0]] + x1.drop_first());
                assert(x2 =~= seq![x2[0]] + x2.drop_first());
                assert(x1 =~= x2);
            }
            if x1 == x2 {
                assert(x1.drop_first() =~= x2.drop_first());
            }
        }
    }
}

/// Equally long digit strings sort lexicographically as their values do.
proof fn lemma_digits_below(x: Seq<u8>, y: Seq<u8>)
    requires
        x.len() == y.len(),
        all_digits(x),
        all_digits(y),
        lex_lt(x, y),
    ensures
        digits_value(x) < digits_value(y),
    decreases x.len(),
{
    let x0 = x.drop_last();
    let y0 = y.drop_last();
    assert(x =~= x0 + seq![x.last()]);
    assert(y =~= y0 + seq![y.last()]);
    lemma_lex_split(x0, seq![x.last()], y0, seq![y.last()]);
    assert(all_digits(x0)) by {
        assert forall|i: int| 0 <= i < x0.len() implies 48 <= #[trigger] x0[i] <= 57 by {
            assert(x0[i] == x[i]);
        }
    }
    assert(all_digits(y0)) by {
        assert forall|i: int| 0 <= i < y0.len() implies 48 <= #[trigger] y0[i] <= 57 by {
            assert(y0[i] == y[i]);
        }
    }
    let a = x.last();
    let b = y.last();
    assert(48 <= a <= 57 && 48 <= b <= 57) by {
        assert(x[x.len() - 1] == a);
        assert(y[y.len() - 1] == b);
    }
    if lex_lt(x0, y0) {
        lemma_digits_below(x0, y0);
        let vx = digits_value(x0);
        let vy = digits_value(y0);
        assert(vx * 10 + (a - 48) < vy * 10 + (b - 48)) by (nonlinear_arith)
            requires
                vx < vy,
                48 <= a <= 57,
                48 <= b <= 57,
        ;
    } else {
        assert(x0 == y0);
        assert(lex_lt(seq![a], seq![b]));
        assert(seq![a][0] == a && seq![b][0] == b);
        assert(seq![a].drop_first() =~= Seq::<u8>::empty());
        assert(seq![b].drop_first() =~= Seq::<u8>::empty());
        lemma_lex_irreflexive(Seq::<u8>::empty());
        assert(a < b);
    }
}

/// Equally long digit strings are equal when their values are.
proof fn lemma_digits_order(x: Seq<u8>, y: Seq<u8>)
    requires
        x.len() == y.len(),
        all_digits(x),
        all_digits(y),
    ensures
        lex_lt(x, y) <==> digits_value(x) < digits_value(y),
{
    lemma_lex_total(x, y);
    if lex_lt(x, y) {
        lemma_digits_below(x, y);
    } else if lex_lt(y, x) {
        lemma_digits_below(y, x);
    }
}

/// Keys of the points of one trajectory sort by timestamp, then by index,
/// as long as timestamps have at most 10 digits and indexes at most 6.
pub proof fn lemma_trajectory_keys_ordered(object_id: Seq<char>, t1: u64, i1: u64, t2: u64, i2: u64)
    requires
        t1 < 10_000_000_000,
        t2 < 10_000_000_000,
        i1 < 1_000_000,
        i2 < 1_000_000,
    ensures
        lex_lt(
            encode_utf8(trajectory_key_chars(object_id, t1, i1)),
            encode_utf8(trajectory_key_chars(object_id, t2, i2)),
        ) <==> (t1 < t2 || (t1 == t2 && i1 < i2)),
{
    reveal_with_fuel(pow10, 11);
    assert(pow10(10) == 10_000_000_000);
    assert(pow10(6) == 1_000_000);
    let head = "traj:"@ + object_id + ":"@;
    let sep = ":"@;
    let a1 = padded_decimal(t1 as nat, 10);
    let a2 = padded_decimal(t2 as nat, 10);
    let b1 = padded_decimal(i1 as nat, 6);
    let b2 = padded_decimal(i2 as nat, 6);
    lemma_padded(t1 as nat, 10);
    lemma_padded(t2 as nat, 10);
    lemma_padded(i1 as nat, 6);
    lemma_padded(i2 as nat, 6);
    lemma_encode_digits(a1);
    lemma_encode_digits(a2);
    lemma_encode_digits(b1);
    lemma_encode_digits(b2);
    lemma_encode_concat(head + a1 + sep, b1);
    lemma_encode_concat(head + a1, sep);
    lemma_encode_concat(head, a1);
    lemma_encode_concat(head + a2 + sep, b2);
    lemma_encode_concat(head + a2, sep);
    lemma_encode_concat(head, a2);
    let h = encode_utf8(head);
    let s = encode_utf8(sep);
    let e1 = encode_utf8(trajectory_key_chars(object_id, t1, i1));
    let e2 = encode_utf8(trajectory_key_chars(object_id, t2, i2));
    assert(e1 =~= h + (ascii(a1) + (s + ascii(b1))));
    assert(e2 =~= h + (ascii(a2) + (s + ascii(b2))));
    lemma_lex_irreflexive(h);
    lemma_lex_irreflexive(s);
    lemma_lex_split(h, ascii(a1) + (s + ascii(b1)), h, ascii(a2) + (s + ascii(b2)));
    lemma_lex_split(ascii(a1), s + ascii(b1), ascii(a2), s + ascii(b2));
    lemma_lex_split(s, ascii(b1), s, ascii(b2));
    lemma_digits_order(ascii(a1), ascii(a2));
    lemma_digits_order(ascii(b1), ascii(b2));
    if ascii(a1) == ascii(a2) {
        assert(t1 == t2);
    }
}

/// A padded number is at least `w` digits long, all of them decimal digits.
proof fn lemma_padded_digits(n: u64, w: nat)
    ensures
        padded_decimal(n as nat, w).len() >= w,
        forall|i: int| 0 <= i < padded_decimal(n as nat, w).len() ==> is_digit_char(#[trigger] padded_decimal(n as nat, w)[i]),
        all_digits(ascii(padded_decimal(n as nat, w))),
{
    reveal_with_fuel(pow10, 21);
    assert(pow10(20) == 100_000_000_000_000_000_000);
    lemma_decimal_shape(n as nat, 20);
    lemma_decimal_value(n as nat);
    let d = decimal(n as nat);
    let pd = padded_decimal(n as nat, w);
    if d.len() < w {
        let z = Seq::new((w - d.len()) as nat, |i: int| '0');
        assert(pd == z + d);
        assert forall|i: int| 0 <= i < pd.len() implies is_digit_char(#[trigger] pd[i]) by {
            if i >= z.len() {
                assert(pd[i] == d[i - z.len()]);
            }
        }
        assert(all_digits(ascii(pd))) by {
            assert forall|i: int| 0 <= i < ascii(pd).len() implies 48 <= #[trigger] ascii(pd)[i] <= 57 by {
                if i >= z.len() {
                    assert(ascii(pd)[i] == ascii(d)[i - z.len()]);
                } else {
                    assert(pd[i] == '0');
                }
            }
        }
    }
}

/// The bytes of a colon.
pub(crate) proof fn lemma_encode_colon()
    ensures
        encode_utf8(":"@) == seq![58u8],
{
    reveal_strlit(":");
    assert(is_ascii_chars(":"@));
    is_ascii_chars_encode_utf8(":"@);
    assert(encode_utf8(":"@) =~= seq![58u8]);
}

/// The bytes of the key of a trajectory point: the prefix of the object,
/// the timestamp in at least ten digits, a colon, and the index in at
/// least six digits.
pub proof fn lemma_trajectory_key_layout(object_id: Seq<char>, timestamp: u64, index: u64)
    ensures
        encode_utf8(trajectory_key_chars(object_id, timestamp, index)) == encode_utf8("traj:"@ + object_id + ":"@)
            + ascii(padded_decimal(timestamp as nat, 10)) + seq![58u8] + ascii(padded_decimal(index as nat, 6)),
        ascii(padded_decimal(timestamp as nat, 10)).len() >= 10,
        all_digits(ascii(padded_decimal(timestamp as nat, 10))),
        ascii(padded_decimal(index as nat, 6)).len() >= 6,
        all_digits(ascii(padded_decimal(index as nat, 6))),
{
    let head = "traj:"@ + object_id + ":"@;
    let a = padded_decimal(timestamp as nat, 10);
    let b = padded_decimal(index as nat, 6);
    lemma_padded_digits(timestamp, 10);
    lemma_padded_digits(index, 6);
    lemma_encode_digits(a);
    lemma_encode_digits(b);
    lemma_encode_colon();
    lemma_encode_concat(head + a + ":"@, b);
    lemma_encode_concat(head + a, ":"@);
    lemma_encode_concat(head, a);
}

/// The key of the point at `index` of the trajectory of `object_id`,
/// recorded at `timestamp`: `traj:{object_id}:{timestamp}:{index}`, with
/// the timestamp padded to 10 digits and the index to 6.
pub fn trajectory_key(object_id: &str, timestamp: u64, index: u64) -> (k: String)
    ensures
        k@ == trajectory_key_chars(object_id@, timestamp, index),
{
    let mut k = trajectory_prefix(object_id);
    push_padded_decimal(&mut k, timestamp, 10);
    k.append(":");
    push_padded_decimal(&mut k, index, 6);
    k
}

} // verus!
