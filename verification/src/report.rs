//! Naming for the benchmark report: benchmark names are `group/test`, and
//! groups and tests are shown under display names.

use crate::keys::{decimal, push_char, push_decimal};
use crate::order::{compare_bytes, find, find_bytes, lemma_find_from};
use vstd::prelude::*;
use vstd::string::*;
use vstd::utf8::*;

verus! {

/// The position of the first `/` in the UTF-8 bytes of a benchmark name.
pub open spec fn slash_at(name: Seq<u8>) -> Option<int> {
    find(name, seq![47u8])
}

/// The group of a benchmark name, by bytes: what comes before the first
/// `/`, or the whole name when there is none.
pub open spec fn group_part(name: Seq<u8>) -> Seq<u8> {
    match slash_at(name) {
        Some(p) => name.subrange(0, p),
        None => name,
    }
}

/// The test of a benchmark name, by bytes: what comes after the first `/`,
/// or the whole name when there is none.
pub open spec fn test_part(name: Seq<u8>) -> Seq<u8> {
    match slash_at(name) {
        Some(p) => name.subrange(p + 1, name.len() as int),
        None => name,
    }
}

/// The display name of a benchmark group; a group without one is shown
/// under its own name.
pub open spec fn group_label(name: Seq<char>) -> Seq<char> {
    if name == "basic_operations"@ {
        "🔧 Basic Operations"@
    } else if name == "spatial_operations"@ {
        "📍 Spatial Operations"@
    } else if name == "trajectory_operations"@ {
        "📈 Trajectory Operations"@
    } else if name == "concurrent_operations"@ {
        "🧵 Concurrent Operations"@
    } else if name == "high_throughput"@ {
        "⚡ High Throughput"@
    } else if name == "large_datasets"@ {
        "📊 Large Datasets"@
    } else if name == "persistence"@ {
        "💾 Persistence"@
    } else if name == "spatial_indexing"@ {
        "🗂️ Spatial Indexing"@
    } else if name == "ttl_operations"@ {
        "⏰ TTL Operations"@
    } else {
        name
    }
}

/// The groups of the benchmark table, in the order the table shows them.
pub open spec fn table_group(k: int) -> Seq<char> {
    if k == 0 {
        "basic_operations"@
    } else if k == 1 {
        "spatial_operations"@
    } else if k == 2 {
        "trajectory_operations"@
    } else if k == 3 {
        "concurrent_operations"@
    } else if k == 4 {
        "high_throughput"@
    } else if k == 5 {
        "large_datasets"@
    } else if k == 6 {
        "persistence"@
    } else if k == 7 {
        "spatial_indexing"@
    } else {
        "ttl_operations"@
    }
}

/// The number of groups of the benchmark table.
pub const TABLE_GROUPS: usize = 9;

/// A benchmark name is in group `g`: its group part is `g`.
pub open spec fn in_group(name: Seq<char>, g: Seq<char>) -> bool {
    group_part(encode_utf8(name)) == encode_utf8(g)
}

/// The positions, in increasing order, of the names that are in group `g`.
pub open spec fn group_members(names: Seq<Seq<char>>, g: Seq<char>) -> Seq<usize>
    decreases names.len(),
{
    if names.len() == 0 {
        Seq::empty()
    } else {
        let r = group_members(names.drop_last(), g);
        if in_group(names.last(), g) {
            r.push((names.len() - 1) as usize)
        } else {
            r
        }
    }
}

/// The year shown for a timestamp in seconds since the Unix epoch, counting
/// every year as 365 days.
pub open spec fn approximate_year(timestamp: u64) -> nat {
    (1970 + timestamp / 86400 / 365) as nat
}

/// The `/` in a UTF-8 name falls on a character boundary.
proof fn lemma_slash_boundary(chars: Seq<char>, p: int)
    requires
        0 <= p < encode_utf8(chars).len(),
        encode_utf8(chars)[p] == 47u8,
    ensures
        is_char_boundary(encode_utf8(chars), p),
        is_char_boundary(encode_utf8(chars), p + 1),
{
    let b = encode_utf8(chars);
    encode_utf8_valid_utf8(chars);
    is_char_boundary_iff_not_is_continuation_byte(b, p);
    is_char_boundary_start_end_of_seq(b);
    if p + 1 < b.len() {
        reveal_with_fuel(is_char_boundary, 2);
        is_char_boundary_iff_is_leading_byte(b, p);
        lemma_boundary_after_ascii(b, p);
    }
}

/// The byte after an ASCII byte on a character boundary is on one too.
proof fn lemma_boundary_after_ascii(b: Seq<u8>, p: int)
    requires
        valid_utf8(b),
        0 <= p,
        p + 1 < b.len(),
        is_char_boundary(b, p),
        b[p] < 128,
    ensures
        is_char_boundary(b, p + 1),
    decreases p,
{
    reveal_with_fuel(is_char_boundary, 2);
    if p == 0 {
        assert(is_leading_byte_width_1(b[0]));
        assert(length_of_first_scalar(b) == 1);
        is_char_boundary_start_end_of_seq(pop_first_scalar(b));
    } else {
        let n = length_of_first_scalar(b);
        assert(pop_first_scalar(b)[p - n] == b[p]);
        lemma_boundary_after_ascii(pop_first_scalar(b), p - n);
    }
}

/// The first `/` of a name, as a byte position.
fn find_slash(name: &str) -> (r: Option<usize>)
    ensures
        match r {
            Some(p) => slash_at(encode_utf8(name@)) == Some(p as int) && p < encode_utf8(name@).len()
                && encode_utf8(name@)[p as int] == 47u8 && p < usize::MAX,
            None => slash_at(encode_utf8(name@)) is None,
        },
{
    let slash: Vec<u8> = vec![47u8];
    assert(slash@ =~= seq![47u8]);
    let bytes = name.as_bytes();
    let n = bytes.len();
    let r = find_bytes(bytes, slash.as_slice());
    proof {
        lemma_find_from(encode_utf8(name@), seq![47u8], 0);
        match r {
            Some(p) => {
                assert(encode_utf8(name@).subrange(p as int, p + 1)[0] == encode_utf8(name@)[p as int]);
                assert(p < n);
            },
            None => {},
        }
    }
    r
}

/// The group of a benchmark name: what comes before the first `/`.
pub fn extract_group_name(benchmark_name: &str) -> (r: String)
    ensures
        encode_utf8(r@) == group_part(encode_utf8(benchmark_name@)),
{
    match find_slash(benchmark_name) {
        Some(p) => {
            proof {
                lemma_slash_boundary(benchmark_name@, p as int);
            }
            let (head, _) = benchmark_name.split_at(p);
            String::from_str(head)
        },
        None => String::from_str(benchmark_name),
    }
}

/// The test of a benchmark name: what comes after the first `/`, or the
/// whole name when there is none.
pub fn extract_test_name(benchmark_name: &str) -> (r: String)
    ensures
        encode_utf8(r@) == test_part(encode_utf8(benchmark_name@)),
{
    match find_slash(benchmark_name) {
        Some(p) => {
            proof {
                lemma_slash_boundary(benchmark_name@, p as int);
            }
            let (_, tail) = benchmark_name.split_at(p + 1);
            String::from_str(tail)
        },
        None => String::from_str(benchmark_name),
    }
}

/// Whether `name` is `label`.
fn same_text(name: &str, label: &str) -> (b: bool)
    ensures
        b == (name@ == label@),
{
    let r = compare_bytes(name.as_bytes(), label.as_bytes()) == 0;
    proof {
        encode_utf8_decode_utf8(name@);
        encode_utf8_decode_utf8(label@);
    }
    r
}

/// The display name of a benchmark group.
pub fn format_group_name(name: &str) -> (r: String)
    ensures
        r@ == group_label(name@),
{
    let label = if same_text(name, "basic_operations") {
        "🔧 Basic Operations"
    } else if same_text(name, "spatial_operations") {
        "📍 Spatial Operations"
    } else if same_text(name, "trajectory_operations") {
        "📈 Trajectory Operations"
    } else if same_text(name, "concurrent_operations") {
        "🧵 Concurrent Operations"
    } else if same_text(name, "high_throughput") {
        "⚡ High Throughput"
    } else if same_text(name, "large_datasets") {
        "📊 Large Datasets"
    } else if same_text(name, "persistence") {
        "💾 Persistence"
    } else if same_text(name, "spatial_indexing") {
        "🗂️ Spatial Indexing"
    } else if same_text(name, "ttl_operations") {
        "⏰ TTL Operations"
    } else {
        name
    };
    String::from_str(label)
}

/// The date shown for a timestamp in seconds since the Unix epoch: the
/// year, counting every year as 365 days, then ` (UTC)`.
pub fn format_timestamp(timestamp: u64) -> (r: String)
    ensures
        r@ == decimal(approximate_year(timestamp)) + " (UTC)"@,
{
    let days_since_epoch = timestamp / 86400;
    let years_since_1970 = days_since_epoch / 365;
    let year = 1970 + years_since_1970;
    let mut r = String::new();
    push_decimal(&mut r, year);
    r.append(" (UTC)");
    r
}

/// The name of the group at place `k` of the benchmark table.
pub fn table_group_name(k: usize) -> (r: &'static str)
    requires
        k < TABLE_GROUPS,
    ensures
        r@ == table_group(k as int),
{
    if k == 0 {
        "basic_operations"
    } else if k == 1 {
        "spatial_operations"
    } else if k == 2 {
        "trajectory_operations"
    } else if k == 3 {
        "concurrent_operations"
    } else if k == 4 {
        "high_throughput"
    } else if k == 5 {
        "large_datasets"
    } else if k == 6 {
        "persistence"
    } else if k == 7 {
        "spatial_indexing"
    } else {
        "ttl_operations"
    }
}

/// For each group of the benchmark table, in the table's order, the
/// positions of the benchmark names in that group, in the order the names
/// come.
pub fn table_groups(names: &[String]) -> (g: Vec<Vec<usize>>)
    ensures
        g@.len() == TABLE_GROUPS,
        forall|k: int|
            0 <= k < TABLE_GROUPS ==> (#[trigger] g@[k])@ == group_members(
                names@.map_values(|s: String| s@),
                table_group(k),
            ),
{
    let ghost ns = names@.map_values(|s: String| s@);
    let mut g: Vec<Vec<usize>> = Vec::new();
    let mut k: usize = 0;
    while k < TABLE_GROUPS
        invariant
            k <= TABLE_GROUPS,
            ns == names@.map_values(|s: String| s@),
            g@.len() == k,
            forall|j: int| 0 <= j < k ==> (#[trigger] g@[j])@ == group_members(ns, table_group(j)),
        decreases TABLE_GROUPS - k,
    {
        let label = table_group_name(k);
        let mut members: Vec<usize> = Vec::new();
        let mut i: usize = 0;
        assert(ns.take(0) =~= Seq::<Seq<char>>::empty());
        while i < names.len()
            invariant
                i <= names@.len(),
                ns == names@.map_values(|s: String| s@),
                label@ == table_group(k as int),
                members@ == group_members(ns.take(i as int), label@),
            decreases names@.len() - i,
        {
            assert(ns.take(i + 1).drop_last() =~= ns.take(i as int));
            assert(ns.take(i + 1).last() == names@[i as int]@);
            let group = extract_group_name(names[i].as_str());
            if compare_bytes(group.as_str().as_bytes(), label.as_bytes()) == 0 {
                members.push(i);
            }
            i = i + 1;
        }
        assert(ns.take(names@.len() as int) =~= ns);
        g.push(members);
        k = k + 1;
    }
    g
}

/// Whether a character has the Unicode `White_Space` property: the
/// controls U+0009 to U+000D, the space, U+0085, the no-break space,
/// U+1680, the spaces U+2000 to U+200A, the line and paragraph separators,
/// U+202F, U+205F and U+3000.
pub open spec fn white_space(c: char) -> bool {
    let u = c as u32;
    ||| 0x9 <= u <= 0xd
    ||| u == 0x20
    ||| u == 0x85
    ||| u == 0xa0
    ||| u == 0x1680
    ||| 0x2000 <= u <= 0x200a
    ||| u == 0x2028
    ||| u == 0x2029
    ||| u == 0x202f
    ||| u == 0x205f
    ||| u == 0x3000
}

/// The upper-case mapping of a character, one or more characters.
pub uninterp spec fn upper_case(c: char) -> Seq<char>;

/// The lower-case mapping of a string.
pub uninterp spec fn lower_case(s: Seq<char>) -> Seq<char>;

/// `char::is_whitespace`: whether `c` has the Unicode `White_Space`
/// property, whose characters `white_space` lists.
#[verifier::external_body]
pub(crate) fn char_is_whitespace(c: char) -> (b: bool)
    ensures
        b == white_space(c),
{
    c.is_whitespace()
}

/// `char::to_uppercase`, collected into a string: the upper-case mapping
/// of `c`.
#[verifier::external_body]
fn char_to_uppercase(c: char) -> (s: String)
    ensures
        s@ == upper_case(c),
{
    c.to_uppercase().collect::<String>()
}

/// `str::to_lowercase`: the lower-case mapping of `s`.
#[verifier::external_body]
fn str_to_lowercase(s: &str) -> (r: String)
    ensures
        r@ == lower_case(s@),
{
    s.to_lowercase()
}

/// A test name with every `_` shown as a space.
pub open spec fn spaced(s: Seq<char>) -> Seq<char> {
    s.map_values(|c: char| if c == '_' { ' ' } else { c })
}

/// The words of a string: its maximal runs of characters that are not
/// white space, in order.
pub open spec fn words(s: Seq<char>) -> Seq<Seq<char>>
    decreases s.len(),
{
    if s.len() == 0 {
        Seq::empty()
    } else {
        let w = words(s.drop_last());
        let c = s.last();
        if white_space(c) {
            w
        } else if s.len() > 1 && !white_space(s[s.len() - 2]) {
            w.update(w.len() - 1, w.last().push(c))
        } else {
            w.push(seq![c])
        }
    }
}

/// A word with its first character upper-cased and the rest lower-cased.
pub open spec fn capitalized(w: Seq<char>) -> Seq<char> {
    if w.len() == 0 {
        w
    } else {
        upper_case(w[0]) + lower_case(w.drop_first())
    }
}

/// Capitalized words joined by single spaces.
pub open spec fn title_of(ws: Seq<Seq<char>>) -> Seq<char>
    decreases ws.len(),
{
    if ws.len() == 0 {
        Seq::empty()
    } else if ws.len() == 1 {
        capitalized(ws[0])
    } else {
        title_of(ws.drop_last()) + seq![' '] + capitalized(ws.last())
    }
}

/// The display name of a test: `_` read as a space, and each word
/// capitalized, joined by single spaces.
pub open spec fn test_label(name: Seq<char>) -> Seq<char> {
    title_of(words(spaced(name)))
}

/// Writing out the last word, after a space where words came before it,
/// completes the title.
proof fn lemma_flush_word(ws: Seq<Seq<char>>, first: char, rest: Seq<char>, before: Seq<char>, after: Seq<char>, count: int)
    requires
        ws.len() >= 1,
        count == ws.len() - 1,
        before == title_of(ws.drop_last()),
        ws.last() == seq![first] + rest,
        after == before + (if count > 0 { " "@ } else { Seq::<char>::empty() }) + upper_case(first) + lower_case(rest),
    ensures
        after == title_of(ws),
{
    reveal_strlit(" ");
    let w = ws.last();
    assert(w[0] == first);
    assert(w.drop_first() =~= rest);
    if count > 0 {
        assert(after =~= title_of(ws.drop_last()) + seq![' '] + capitalized(w));
    } else {
        assert(ws.drop_last().len() == 0);
        assert(w == ws[0]);
        assert(after =~= capitalized(w));
    }
}

/// The display name of a test.
pub fn format_test_name(name: &str) -> (r: String)
    ensures
        r@ == test_label(name@),
{
    let ghost t = spaced(name@);
    let n = name.unicode_len();
    let mut out = String::new();
    let mut count: usize = 0;
    let mut in_word = false;
    let mut first: char = ' ';
    let mut rest = String::new();
    let mut i: usize = 0;
    assert(t.take(0) =~= Seq::<char>::empty());
    while i < n
        invariant
            n == name@.len(),
            t == spaced(name@),
            t.len() == n,
            i <= n,
            in_word == (i > 0 && !white_space(t[i - 1])),
            !in_word ==> out@ == title_of(words(t.take(i as int))),
            in_word ==> words(t.take(i as int)).len() >= 1 && out@ == title_of(words(t.take(i as int)).drop_last())
                && words(t.take(i as int)).last() == seq![first] + rest@,
            count == if in_word { words(t.take(i as int)).len() - 1 } else { words(t.take(i as int)).len() as int },
            count <= i,
        decreases n - i,
    {
        let ghost w0 = words(t.take(i as int));
        assert(t.take(i + 1).drop_last() =~= t.take(i as int));
        assert(t.take(i + 1).last() == t[i as int]);
        let raw = name.get_char(i);
        let c = if raw == '_' { ' ' } else { raw };
        assert(c == t[i as int]);
        if char_is_whitespace(c) {
            assert(words(t.take(i + 1)) == w0);
            if in_word {
                let ghost before = out@;
                if count > 0 {
                    out.append(" ");
                }
                let up = char_to_uppercase(first);
                out.append(up.as_str());
                let low = str_to_lowercase(rest.as_str());
                out.append(low.as_str());
                proof {
                    lemma_flush_word(w0, first, rest@, before, out@, count as int);
                }
                count = count + 1;
                rest = String::new();
            }
            in_word = false;
        } else {
            if in_word {
                let ghost wl = w0.last();
                push_char(&mut rest, c);
                assert(words(t.take(i + 1)) == w0.update(w0.len() - 1, wl.push(c)));
                assert(words(t.take(i + 1)).drop_last() =~= w0.drop_last());
                assert(seq![first] + rest@ =~= wl.push(c));
            } else {
                first = c;
                rest = String::new();
                assert(words(t.take(i + 1)) == w0.push(seq![c]));
                assert(words(t.take(i + 1)).drop_last() =~= w0);
                assert(seq![first] + rest@ =~= seq![c]);
            }
            in_word = true;
        }
        i = i + 1;
    }
    assert(t.take(n as int) =~= t);
    if in_word {
        let ghost ws = words(t);
        let ghost before = out@;
        if count > 0 {
            out.append(" ");
        }
        let up = char_to_uppercase(first);
        out.append(up.as_str());
        let low = str_to_lowercase(rest.as_str());
        out.append(low.as_str());
        proof {
            lemma_flush_word(ws, first, rest@, before, out@, count as int);
        }
    }
    out
}

} // verus!
