//! Reading benchmark timings out of the lines that `cargo bench` prints.
//!
//! Two formats are read. A libtest line, such as
//! `test benches::basic_operations::single_insert ... bench:     428 ns/iter (+/- 12)`,
//! names the benchmark in its first word with `::` and gives the time in
//! nanoseconds after the word `bench:`. A criterion line, such as
//! `basic_operations/single_insert  time:   [420.1 ns 428.3 ns 431.0 ns]`,
//! names the benchmark in its first word and gives times with a unit. The
//! numbers themselves are left as text: reading them is floating point.

use crate::keys::push_char;
use crate::report::{char_is_whitespace, white_space, words};
use vstd::prelude::*;
use vstd::string::*;

verus! {

/// Nanoseconds.
pub const UNIT_NS: u8 = 0;

/// Microseconds.
pub const UNIT_US: u8 = 1;

/// Milliseconds.
pub const UNIT_MS: u8 = 2;

/// `t` occurs in `s` at `i`.
pub open spec fn occurs(s: Seq<char>, t: Seq<char>, i: int) -> bool {
    0 <= i && i + t.len() <= s.len() && s.subrange(i, i + t.len()) == t
}

/// `t` occurs somewhere in `s`.
pub open spec fn contains_text(s: Seq<char>, t: Seq<char>) -> bool {
    exists|i: int| #[trigger] occurs(s, t, i)
}

/// `s` ends with `t`.
pub open spec fn ends_with_text(s: Seq<char>, t: Seq<char>) -> bool {
    t.len() <= s.len() && occurs(s, t, s.len() - t.len())
}

/// `s` with each occurrence of `pat`, from the left and without overlap,
/// replaced by `rep`.
pub open spec fn replace_text(s: Seq<char>, pat: Seq<char>, rep: Seq<char>) -> Seq<char>
    decreases s.len(),
{
    if pat.len() == 0 || s.len() == 0 {
        s
    } else if occurs(s, pat, 0) {
        rep + replace_text(s.skip(pat.len() as int), pat, rep)
    } else {
        seq![s[0]] + replace_text(s.drop_first(), pat, rep)
    }
}

/// `s` without its trailing repetitions of `pat`.
pub open spec fn trim_end_text(s: Seq<char>, pat: Seq<char>) -> Seq<char>
    decreases s.len(),
{
    if pat.len() > 0 && ends_with_text(s, pat) {
        trim_end_text(s.take(s.len() - pat.len()), pat)
    } else {
        s
    }
}

/// `s` without its commas.
pub open spec fn without_commas(s: Seq<char>) -> Seq<char>
    decreases s.len(),
{
    if s.len() == 0 {
        s
    } else if s.last() == ',' {
        without_commas(s.drop_last())
    } else {
        without_commas(s.drop_last()).push(s.last())
    }
}

/// The characters of `μs`.
pub open spec fn micros() -> Seq<char> {
    seq!['\u{3bc}', 's']
}

/// The first of `parts` from `i` on that contains `t`.
pub open spec fn first_containing(parts: Seq<Seq<char>>, t: Seq<char>, i: nat) -> Option<int>
    decreases parts.len() - i,
{
    if i >= parts.len() {
        None
    } else if contains_text(parts[i as int], t) {
        Some(i as int)
    } else {
        first_containing(parts, t, i + 1)
    }
}

/// The first of `parts` from `i` on that is `t`.
pub open spec fn first_equal(parts: Seq<Seq<char>>, t: Seq<char>, i: nat) -> Option<int>
    decreases parts.len() - i,
{
    if i >= parts.len() {
        None
    } else if parts[i as int] == t {
        Some(i as int)
    } else {
        first_equal(parts, t, i + 1)
    }
}

/// A word that ends in a time unit.
pub open spec fn timed(w: Seq<char>) -> bool {
    ends_with_text(w, seq!['n', 's']) || ends_with_text(w, micros()) || ends_with_text(w, seq!['m', 's'])
}

/// The number text of a timed word: the units trimmed off its end, and its
/// commas dropped.
pub open spec fn time_text(w: Seq<char>) -> Seq<char> {
    without_commas(trim_end_text(trim_end_text(trim_end_text(w, seq!['n', 's']), micros()), seq!['m', 's']))
}

/// The unit of a timed word.
pub open spec fn time_unit(w: Seq<char>) -> u8 {
    if contains_text(w, micros()) {
        UNIT_US
    } else if contains_text(w, seq!['m', 's']) {
        UNIT_MS
    } else {
        UNIT_NS
    }
}

/// The times that the first `n` words offer, in order: each timed word
/// after the third, as number text and unit.
pub open spec fn time_candidates(parts: Seq<Seq<char>>, n: int) -> Seq<(Seq<char>, u8)>
    decreases n,
{
    if n <= 0 {
        Seq::empty()
    } else {
        let r = time_candidates(parts, n - 1);
        if n - 1 > 2 && timed(parts[n - 1]) {
            r.push((time_text(parts[n - 1]), time_unit(parts[n - 1])))
        } else {
            r
        }
    }
}

/// What a line of benchmark output gives: the benchmark's name and the
/// times it offers, in order, each as number text and unit; the first of
/// them that reads as a number is the benchmark's time.
pub open spec fn bench_line(line: Seq<char>) -> Option<(Seq<char>, Seq<(Seq<char>, u8)>)> {
    let parts = words(line);
    if contains_text(line, "bench:"@) && contains_text(line, "ns/iter"@) {
        if parts.len() >= 4 {
            match (first_containing(parts, "::"@, 0), first_equal(parts, "bench:"@, 0)) {
                (Some(f), Some(b)) => if b + 1 < parts.len() {
                    Some(
                        (
                            replace_text(replace_text(parts[f], "benches::"@, Seq::empty()), "::"@, "/"@),
                            seq![(without_commas(parts[b + 1]), UNIT_NS)],
                        ),
                    )
                } else {
                    None
                },
                _ => None,
            }
        } else {
            None
        }
    } else if contains_text(line, "time:"@) && (contains_text(line, seq!['n', 's']) || contains_text(line, micros())
        || contains_text(line, seq!['m', 's'])) {
        if parts.len() >= 6 {
            Some((parts[0], time_candidates(parts, parts.len() as int)))
        } else {
            None
        }
    } else {
        None
    }
}

/// The characters of a string.
fn chars_of(s: &str) -> (v: Vec<char>)
    ensures
        v@ == s@,
{
    let n = s.unicode_len();
    let mut v: Vec<char> = Vec::new();
    let mut i: usize = 0;
    while i < n
        invariant
            n == s@.len(),
            i <= n,
            v@ == s@.take(i as int),
        decreases n - i,
    {
        v.push(s.get_char(i));
        i = i + 1;
        assert(v@ =~= s@.take(i as int));
    }
    assert(s@.take(n as int) =~= s@);
    v
}

/// The string of characters.
fn string_of(v: &Vec<char>) -> (s: String)
    ensures
        s@ == v@,
{
    let mut s = String::new();
    let mut i: usize = 0;
    while i < v.len()
        invariant
            i <= v@.len(),
            s@ == v@.take(i as int),
        decreases v@.len() - i,
    {
        push_char(&mut s, v[i]);
        i = i + 1;
        assert(s@ =~= v@.take(i as int));
    }
    assert(v@.take(v@.len() as int) =~= v@);
    s
}

/// Whether `t` occurs in `s` at `i`.
fn occurs_at(s: &Vec<char>, t: &Vec<char>, i: usize) -> (b: bool)
    ensures
        b == occurs(s@, t@, i as int),
{
    if i > s.len() || t.len() > s.len() - i {
        return false;
    }
    let mut j: usize = 0;
    while j < t.len()
        invariant
            i + t@.len() <= s@.len(),
            s@.len() <= usize::MAX,
            j <= t@.len(),
            forall|k: int| 0 <= k < j ==> s@[i + k] == t@[k],
        decreases t@.len() - j,
    {
        if s[i + j] != t[j] {
            assert(s@.subrange(i as int, i + t@.len())[j as int] != t@[j as int]);
            return false;
        }
        j = j + 1;
    }
    assert(s@.subrange(i as int, i + t@.len()) =~= t@);
    true
}

/// Whether `t` occurs in `s`.
fn contains_chars(s: &Vec<char>, t: &Vec<char>) -> (b: bool)
    ensures
        b == contains_text(s@, t@),
{
    let mut i: usize = 0;
    while i < s.len()
        invariant
            i <= s@.len(),
            forall|k: int| 0 <= k < i ==> !#[trigger] occurs(s@, t@, k),
        decreases s@.len() - i,
    {
        if occurs_at(s, t, i) {
            return true;
        }
        i = i + 1;
    }
    if occurs_at(s, t, i) {
        return true;
    }
    assert forall|k: int| !#[trigger] occurs(s@, t@, k) by {
        if 0 <= k <= i {
        }
    }
    false
}

/// Whether `s` ends with `t`.
fn ends_with_chars(s: &Vec<char>, t: &Vec<char>) -> (b: bool)
    ensures
        b == ends_with_text(s@, t@),
{
    t.len() <= s.len() && occurs_at(s, t, s.len() - t.len())
}

/// `s` with each occurrence of `pat` replaced by `rep`.
fn replace_chars(s: &Vec<char>, pat: &Vec<char>, rep: &Vec<char>) -> (r: Vec<char>)
    requires
        pat@.len() > 0,
    ensures
        r@ == replace_text(s@, pat@, rep@),
{
    let mut out: Vec<char> = Vec::new();
    let mut i: usize = 0;
    assert(s@.skip(0) =~= s@);
    while i < s.len()
        invariant
            pat@.len() > 0,
            i <= s@.len(),
            out@ + replace_text(s@.skip(i as int), pat@, rep@) == replace_text(s@, pat@, rep@),
        decreases s@.len() - i,
    {
        let ghost rest = s@.skip(i as int);
        let at = occurs_at(s, pat, i);
        assert(occurs(rest, pat@, 0) == at) by {
            if i + pat@.len() <= s@.len() {
                assert(rest.subrange(0, pat@.len() as int) =~= s@.subrange(i as int, i + pat@.len()));
            }
        }
        if at {
            let ghost before = out@;
            let mut j: usize = 0;
            while j < rep.len()
                invariant
                    j <= rep@.len(),
                    out@ == before + rep@.take(j as int),
                decreases rep@.len() - j,
            {
                out.push(rep[j]);
                j = j + 1;
                assert(out@ =~= before + rep@.take(j as int));
            }
            assert(rep@.take(rep@.len() as int) =~= rep@);
            assert(rest.skip(pat@.len() as int) =~= s@.skip(i + pat@.len()));
            assert(out@ + replace_text(s@.skip(i + pat@.len()), pat@, rep@) =~= before + (rep@ + replace_text(
                rest.skip(pat@.len() as int),
                pat@,
                rep@,
            )));
            i = i + pat.len();
        } else {
            let ghost before = out@;
            out.push(s[i]);
            assert(rest.drop_first() =~= s@.skip(i + 1));
            assert(rest[0] == s@[i as int]);
            assert(out@ + replace_text(s@.skip(i + 1), pat@, rep@) =~= before + (seq![rest[0]] + replace_text(
                rest.drop_first(),
                pat@,
                rep@,
            )));
            i = i + 1;
        }
    }
    assert(s@.skip(i as int) =~= Seq::<char>::empty());
    assert(out@ + Seq::<char>::empty() =~= out@);
    out
}

/// `s` without its trailing repetitions of `pat`.
fn trim_end_chars(s: &Vec<char>, pat: &Vec<char>) -> (r: Vec<char>)
    requires
        pat@.len() > 0,
    ensures
        r@ == trim_end_text(s@, pat@),
{
    let mut cur: Vec<char> = s.clone();
    assert(cur@ =~= s@);
    while ends_with_chars(&cur, pat)
        invariant
            pat@.len() > 0,
            trim_end_text(cur@, pat@) == trim_end_text(s@, pat@),
        decreases cur@.len(),
    {
        let keep = cur.len() - pat.len();
        let ghost before = cur@;
        let _tail = cur.split_off(keep);
        assert(cur@ =~= before.take(before.len() - pat@.len()));
    }
    cur
}

/// `s` without its commas.
fn drop_commas(s: &Vec<char>) -> (r: Vec<char>)
    ensures
        r@ == without_commas(s@),
{
    let mut out: Vec<char> = Vec::new();
    let mut i: usize = 0;
    assert(s@.take(0) =~= Seq::<char>::empty());
    while i < s.len()
        invariant
            i <= s@.len(),
            out@ == without_commas(s@.take(i as int)),
        decreases s@.len() - i,
    {
        assert(s@.take(i + 1).drop_last() =~= s@.take(i as int));
        assert(s@.take(i + 1).last() == s@[i as int]);
        if s[i] != ',' {
            out.push(s[i]);
        }
        i = i + 1;
    }
    assert(s@.take(s@.len() as int) =~= s@);
    out
}

/// The views of words.
pub open spec fn word_views(ws: Seq<Vec<char>>) -> Seq<Seq<char>> {
    ws.map_values(|w: Vec<char>| w@)
}

/// The words of `s`: its maximal runs of characters that are not white space.
fn split_words(s: &Vec<char>) -> (r: Vec<Vec<char>>)
    ensures
        word_views(r@) == words(s@),
{
    let mut out: Vec<Vec<char>> = Vec::new();
    let mut cur: Vec<char> = Vec::new();
    let mut in_word = false;
    let mut i: usize = 0;
    assert(s@.take(0) =~= Seq::<char>::empty());
    assert(word_views(out@) =~= Seq::<Seq<char>>::empty());
    while i < s.len()
        invariant
            i <= s@.len(),
            in_word == (i > 0 && !white_space(s@[i - 1])),
            !in_word ==> word_views(out@) == words(s@.take(i as int)),
            in_word ==> words(s@.take(i as int)) == word_views(out@).push(cur@),
        decreases s@.len() - i,
    {
        let ghost w0 = words(s@.take(i as int));
        let ghost t = s@.take(i + 1);
        assert(t.drop_last() =~= s@.take(i as int));
        assert(t.last() == s@[i as int]);
        let c = s[i];
        if char_is_whitespace(c) {
            assert(words(t) == w0);
            if in_word {
                let ghost ov = word_views(out@);
                let w = cur;
                cur = Vec::new();
                out.push(w);
                assert(word_views(out@) =~= ov.push(w@));
            }
            in_word = false;
        } else {
            if in_word {
                assert(t[t.len() - 2] == s@[i - 1]);
                let ghost cv = cur@;
                cur.push(c);
                assert(words(t) == w0.update(w0.len() - 1, w0.last().push(c)));
                assert(words(t) =~= word_views(out@).push(cur@));
            } else {
                if i > 0 {
                    assert(t[t.len() - 2] == s@[i - 1]);
                }
                cur = Vec::new();
                cur.push(c);
                assert(words(t) == w0.push(seq![c]));
                assert(cur@ =~= seq![c]);
            }
            in_word = true;
        }
        i = i + 1;
    }
    assert(s@.take(s@.len() as int) =~= s@);
    if in_word {
        let ghost ov = word_views(out@);
        let w = cur;
        out.push(w);
        assert(word_views(out@) =~= ov.push(w@));
    }
    out
}

/// The position of the first of `parts` that contains `t`.
fn find_containing(parts: &Vec<Vec<char>>, t: &Vec<char>) -> (r: Option<usize>)
    ensures
        r matches Some(i) ==> first_containing(word_views(parts@), t@, 0) == Some(i as int) && i < parts@.len(),
        r is None ==> first_containing(word_views(parts@), t@, 0) is None,
{
    let ghost ps = word_views(parts@);
    let mut i: usize = parts.len();
    let mut found: Option<usize> = None;
    while i > 0
        invariant
            i <= parts@.len(),
            ps == word_views(parts@),
            found matches Some(k) ==> first_containing(ps, t@, i as nat) == Some(k as int) && k < parts@.len(),
            found is None ==> first_containing(ps, t@, i as nat) is None,
        decreases i,
    {
        i = i - 1;
        assert(parts@[i as int]@ == ps[i as int]);
        if contains_chars(&parts[i], t) {
            found = Some(i);
        }
    }
    found
}

/// The position of the first of `parts` that is `t`.
fn find_equal(parts: &Vec<Vec<char>>, t: &Vec<char>) -> (r: Option<usize>)
    ensures
        r matches Some(i) ==> first_equal(word_views(parts@), t@, 0) == Some(i as int) && i < parts@.len(),
        r is None ==> first_equal(word_views(parts@), t@, 0) is None,
{
    let ghost ps = word_views(parts@);
    let mut i: usize = parts.len();
    let mut found: Option<usize> = None;
    while i > 0
        invariant
            i <= parts@.len(),
            ps == word_views(parts@),
            found matches Some(k) ==> first_equal(ps, t@, i as nat) == Some(k as int) && k < parts@.len(),
            found is None ==> first_equal(ps, t@, i as nat) is None,
        decreases i,
    {
        i = i - 1;
        assert(parts@[i as int]@ == ps[i as int]);
        let same = parts[i].len() == t.len() && occurs_at(&parts[i], t, 0);
        assert(same == (ps[i as int] == t@)) by {
            if parts@[i as int]@.len() == t@.len() {
                assert(parts@[i as int]@.subrange(0, t@.len() as int) =~= parts@[i as int]@);
            }
        }
        if same {
            found = Some(i);
        }
    }
    found
}

/// The views of number texts with their units.
pub open spec fn candidate_views(cs: Seq<(String, u8)>) -> Seq<(Seq<char>, u8)> {
    cs.map_values(|c: (String, u8)| (c.0@, c.1))
}

/// The name of the benchmark that a line of `cargo bench` output reports
/// and the times it offers, each as number text and unit (`UNIT_NS`,
/// `UNIT_US` or `UNIT_MS`), in order; the first one that reads as a number
/// is the time. `None` where the line reports no benchmark.
pub fn parse_benchmark_line(line: &str) -> (r: Option<(String, Vec<(String, u8)>)>)
    ensures
        match (r, bench_line(line@)) {
            (Some((name, cs)), Some((n, ts))) => name@ == n && candidate_views(cs@) == ts,
            (None, None) => true,
            _ => false,
        },
{
    let s = chars_of(line);
    let parts = split_words(&s);
    let ghost ps = word_views(parts@);
    let bench = chars_of("bench:");
    let per_iter = chars_of("ns/iter");
    let ns = chars_of("ns");
    let ms = chars_of("ms");
    let us = chars_of("\u{3bc}s");
    proof {
        reveal_strlit("ns");
        reveal_strlit("ms");
        reveal_strlit("\u{3bc}s");
        assert(ns@ =~= seq!['n', 's']);
        assert(ms@ =~= seq!['m', 's']);
        assert(us@ =~= micros());
    }
    if contains_chars(&s, &bench) && contains_chars(&s, &per_iter) {
        if parts.len() < 4 {
            return None;
        }
        let colons = chars_of("::");
        let f = find_containing(&parts, &colons);
        let b = find_equal(&parts, &bench);
        match (f, b) {
            (Some(f), Some(b)) => {
                if b + 1 < parts.len() {
                    let prefix = chars_of("benches::");
                    let empty: Vec<char> = Vec::new();
                    let slash = chars_of("/");
                    proof {
                        reveal_strlit("benches::");
                        reveal_strlit("::");
                    }
                    assert(parts@[f as int]@ == ps[f as int]);
                    assert(parts@[b + 1]@ == ps[b + 1]);
                    assert(empty@ =~= Seq::<char>::empty());
                    let stripped = replace_chars(&parts[f], &prefix, &empty);
                    let name = replace_chars(&stripped, &colons, &slash);
                    let number = drop_commas(&parts[b + 1]);
                    let mut cs: Vec<(String, u8)> = Vec::new();
                    cs.push((string_of(&number), UNIT_NS));
                    assert(candidate_views(cs@) =~= seq![(without_commas(ps[b + 1]), UNIT_NS)]);
                    Some((string_of(&name), cs))
                } else {
                    None
                }
            },
            _ => None,
        }
    } else {
        let time = chars_of("time:");
        if contains_chars(&s, &time) && (contains_chars(&s, &ns) || contains_chars(&s, &us) || contains_chars(
            &s,
            &ms,
        )) {
            if parts.len() < 6 {
                return None;
            }
            let mut cs: Vec<(String, u8)> = Vec::new();
            let mut i: usize = 0;
            while i < parts.len()
                invariant
                    i <= parts@.len(),
                    ps == word_views(parts@),
                    ns@ == seq!['n', 's'],
                    ms@ == seq!['m', 's'],
                    us@ == micros(),
                    candidate_views(cs@) == time_candidates(ps, i as int),
                decreases parts@.len() - i,
            {
                let w = &parts[i];
                assert(w@ == ps[i as int]);
                if i > 2 && (ends_with_chars(w, &ns) || ends_with_chars(w, &us) || ends_with_chars(w, &ms)) {
                    let t1 = trim_end_chars(w, &ns);
                    let t2 = trim_end_chars(&t1, &us);
                    let t3 = trim_end_chars(&t2, &ms);
                    let number = drop_commas(&t3);
                    let unit = if contains_chars(w, &us) {
                        UNIT_US
                    } else if contains_chars(w, &ms) {
                        UNIT_MS
                    } else {
                        UNIT_NS
                    };
                    let ghost before = candidate_views(cs@);
                    cs.push((string_of(&number), unit));
                    assert(candidate_views(cs@) =~= before.push((time_text(ps[i as int]), time_unit(ps[i as int]))));
                }
                i = i + 1;
            }
            assert(parts@[0]@ == ps[0]);
            Some((string_of(&parts[0]), cs))
        } else {
            None
        }
    }
}

/// The first position, at `i` or after, that holds `c`.
pub open spec fn char_at_from(s: Seq<char>, c: char, i: int) -> Option<int>
    decreases s.len() - i,
{
    if i < 0 || i >= s.len() {
        None
    } else if s[i] == c {
        Some(i)
    } else {
        char_at_from(s, c, i + 1)
    }
}

/// What the first position found from `i` on is.
pub proof fn lemma_char_at_from(s: Seq<char>, c: char, i: int)
    requires
        0 <= i,
    ensures
        match char_at_from(s, c, i) {
            Some(p) => i <= p < s.len() && s[p] == c,
            None => true,
        },
    decreases s.len() - i,
{
    if i < s.len() && s[i] != c {
        lemma_char_at_from(s, c, i + 1);
    }
}

/// `s` without the white space at its start.
pub open spec fn trim_start(s: Seq<char>) -> Seq<char>
    decreases s.len(),
{
    if s.len() > 0 && white_space(s[0]) {
        trim_start(s.drop_first())
    } else {
        s
    }
}

/// `s` without the white space at its end.
pub open spec fn trim_end(s: Seq<char>) -> Seq<char>
    decreases s.len(),
{
    if s.len() > 0 && white_space(s.last()) {
        trim_end(s.drop_last())
    } else {
        s
    }
}

/// The second field of a line split at `:`: what lies between its first
/// `:` and the next one, or the end of the line.
pub open spec fn second_field(line: Seq<char>) -> Option<Seq<char>> {
    match char_at_from(line, ':', 0) {
        Some(p) => match char_at_from(line, ':', p + 1) {
            Some(q) => Some(line.subrange(p + 1, q)),
            None => Some(line.subrange(p + 1, line.len() as int)),
        },
        None => None,
    }
}

/// The processor a `/proc/cpuinfo` line names: for a line that starts with
/// `model name` and holds a `:`, its second field without surrounding
/// white space.
pub open spec fn cpu_in_line(line: Seq<char>) -> Option<Seq<char>> {
    if occurs(line, "model name"@, 0) {
        match second_field(line) {
            Some(f) => Some(trim_end(trim_start(f))),
            None => None,
        }
    } else {
        None
    }
}

/// The processor named by the lines of `text` from position `i` on: that of
/// the first line naming one. Lines end at `\n`; a `\r` before the `\n` is
/// not part of the line.
pub open spec fn cpu_from(text: Seq<char>, i: int) -> Option<Seq<char>>
    decreases text.len() - i,
{
    if i < 0 || i >= text.len() {
        None
    } else {
        match char_at_from(text, '\n', i) {
            Some(p) => {
                proof {
                    lemma_char_at_from(text, '\n', i);
                }
                let raw = text.subrange(i, p);
                let line = if raw.len() > 0 && raw.last() == '\r' {
                    raw.drop_last()
                } else {
                    raw
                };
                match cpu_in_line(line) {
                    Some(c) => Some(c),
                    None => cpu_from(text, p + 1),
                }
            },
            None => cpu_in_line(text.subrange(i, text.len() as int)),
        }
    }
}

/// The first position, at `i` or after, of `c` in `s`.
fn find_char(s: &Vec<char>, c: char, i: usize) -> (r: Option<usize>)
    ensures
        match r {
            Some(p) => char_at_from(s@, c, i as int) == Some(p as int) && p < s@.len(),
            None => char_at_from(s@, c, i as int) is None,
        },
{
    let mut j: usize = i;
    while j < s.len()
        invariant
            i <= j,
            char_at_from(s@, c, j as int) == char_at_from(s@, c, i as int),
        decreases s@.len() - j,
    {
        if s[j] == c {
            return Some(j);
        }
        j = j + 1;
    }
    None
}

/// The characters of `s` from `i` to `j`.
fn slice_chars(s: &Vec<char>, i: usize, j: usize) -> (r: Vec<char>)
    requires
        i <= j <= s@.len(),
    ensures
        r@ == s@.subrange(i as int, j as int),
{
    let mut r: Vec<char> = Vec::new();
    let mut k: usize = i;
    while k < j
        invariant
            i <= k <= j,
            j <= s@.len(),
            r@ == s@.subrange(i as int, k as int),
        decreases j - k,
    {
        r.push(s[k]);
        k = k + 1;
        assert(r@ =~= s@.subrange(i as int, k as int));
    }
    r
}

/// `s` without white space at either end.
fn trim_chars(s: &Vec<char>) -> (r: Vec<char>)
    ensures
        r@ == trim_end(trim_start(s@)),
{
    let mut a: usize = 0;
    assert(s@.subrange(0, s@.len() as int) =~= s@);
    while a < s.len() && char_is_whitespace(s[a])
        invariant
            a <= s@.len(),
            trim_start(s@.subrange(a as int, s@.len() as int)) == trim_start(s@),
        decreases s@.len() - a,
    {
        assert(s@.subrange(a as int, s@.len() as int).drop_first() =~= s@.subrange(a + 1, s@.len() as int));
        a = a + 1;
    }
    assert(s@.subrange(s@.len() as int, s@.len() as int) =~= Seq::<char>::empty());
    let mut b: usize = s.len();
    let ghost t = s@.subrange(a as int, s@.len() as int);
    assert(trim_start(t) == t);
    while b > a && char_is_whitespace(s[b - 1])
        invariant
            a <= b <= s@.len(),
            t == s@.subrange(a as int, s@.len() as int),
            trim_end(s@.subrange(a as int, b as int)) == trim_end(t),
        decreases b,
    {
        assert(s@.subrange(a as int, b as int).drop_last() =~= s@.subrange(a as int, b - 1));
        b = b - 1;
    }
    assert(t =~= s@.subrange(a as int, s@.len() as int));
    let r = slice_chars(s, a, b);
    proof {
        if b > a {
            assert(!white_space(s@.subrange(a as int, b as int).last()));
        }
    }
    r
}

/// The processor a line names, as `cpu_in_line` says.
fn cpu_of_line(line: &Vec<char>) -> (r: Option<Vec<char>>)
    ensures
        match r {
            Some(c) => cpu_in_line(line@) == Some(c@),
            None => cpu_in_line(line@) is None,
        },
{
    let label = chars_of("model name");
    if !occurs_at(line, &label, 0) {
        return None;
    }
    match find_char(line, ':', 0) {
        Some(p) => {
            proof {
                lemma_char_at_from(line@, ':', 0);
            }
            let n = line.len();
            assert(p < n);
            let end = match find_char(line, ':', p + 1) {
                Some(q) => {
                    proof {
                        lemma_char_at_from(line@, ':', p + 1);
                    }
                    q
                },
                None => n,
            };
            let field = slice_chars(line, p + 1, end);
            Some(trim_chars(&field))
        },
        None => None,
    }
}

/// The processor that a `/proc/cpuinfo` text names: that of its first line
/// starting with `model name` and holding a `:`.
pub fn cpu_model(cpuinfo: &str) -> (r: Option<String>)
    ensures
        match r {
            Some(c) => cpu_from(cpuinfo@, 0) == Some(c@),
            None => cpu_from(cpuinfo@, 0) is None,
        },
{
    let text = chars_of(cpuinfo);
    let mut i: usize = 0;
    while i < text.len()
        invariant
            text@ == cpuinfo@,
            cpu_from(text@, i as int) == cpu_from(text@, 0),
        decreases text@.len() - i,
    {
        match find_char(&text, '\n', i) {
            Some(p) => {
                proof {
                    lemma_char_at_from(text@, '\n', i as int);
                }
                let raw = slice_chars(&text, i, p);
                let line = if raw.len() > 0 && raw[raw.len() - 1] == '\r' {
                    slice_chars(&raw, 0, raw.len() - 1)
                } else {
                    raw
                };
                assert(raw@.len() > 0 ==> raw@.drop_last() =~= raw@.subrange(0, raw@.len() - 1));
                match cpu_of_line(&line) {
                    Some(c) => {
                        return Some(string_of(&c));
                    },
                    None => {},
                }
                i = p + 1;
            },
            None => {
                let n = text.len();
                let line = slice_chars(&text, i, n);
                return match cpu_of_line(&line) {
                    Some(c) => Some(string_of(&c)),
                    None => None,
                };
            },
        }
    }
    None
}

/// Whole gibibytes in `bytes`.
pub fn whole_gib(bytes: u64) -> (g: u64)
    ensures
        g == bytes / 1073741824u64,
{
    bytes / 1073741824u64
}

/// The system lines of the benchmark report: the processor, the memory in
/// whole gibibytes and the operating system, each where known, or a line
/// saying that nothing is known.
pub fn system_info_text(cpu: Option<&str>, memory_bytes: Option<u64>, os: Option<&str>) -> (r: String)
    ensures
        r@ == system_info_spec(
            match cpu {
                Some(c) => Some(c@),
                None => None,
            },
            memory_bytes,
            match os {
                Some(o) => Some(o@),
                None => None,
            },
        ),
{
    let mut info = String::new();
    match cpu {
        Some(c) => {
            info.append("**CPU**: ");
            info.append(c);
            info.append("\n");
        },
        None => {},
    }
    match memory_bytes {
        Some(b) => {
            info.append("**Memory**: ");
            crate::keys::push_decimal(&mut info, whole_gib(b));
            info.append(" GB\n");
        },
        None => {},
    }
    match os {
        Some(o) => {
            info.append("**OS**: ");
            info.append(o);
            info.append("\n");
        },
        None => {},
    }
    if info.as_str().unicode_len() == 0 {
        info.append("**System**: Information not available\n");
    }
    info
}

/// The system lines of the benchmark report.
pub open spec fn system_info_spec(cpu: Option<Seq<char>>, memory_bytes: Option<u64>, os: Option<Seq<char>>) -> Seq<char> {
    let c = match cpu {
        Some(c) => "**CPU**: "@ + c + "\n"@,
        None => Seq::empty(),
    };
    let m = match memory_bytes {
        Some(b) => "**Memory**: "@ + crate::keys::decimal((b / 1073741824u64) as nat) + " GB\n"@,
        None => Seq::empty(),
    };
    let o = match os {
        Some(o) => "**OS**: "@ + o + "\n"@,
        None => Seq::empty(),
    };
    if (c + m + o).len() == 0 {
        "**System**: Information not available\n"@
    } else {
        c + m + o
    }
}

} // verus!
