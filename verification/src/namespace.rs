//! Namespaces: logical separation of data within one database.
//!
//! A namespace is a name and a separator; the keys of the namespace are the
//! name, the separator and then the key itself, all as bytes. Names and
//! separators are strings, taken by their UTF-8 bytes.

use crate::buffer::{bytes_copy, bytes_from_vec, bytes_slice, bytes_view};
use crate::error::SpatioError;
use crate::order::{
    compare_bytes, contains_byte, find, find_bytes, find_from, is_prefix, lemma_find_from, lemma_lex_total, lemma_lex_transitive,
    lex_lt, occurs_at, push_all, starts_with,
};
use bytes::Bytes;
use vstd::prelude::*;
use vstd::slice::slice_subrange;
use vstd::string::*;
use vstd::utf8::*;

verus! {

/// The separator that namespaces use unless given another: `::`.
pub open spec fn default_separator() -> Seq<char> {
    seq![':', ':']
}

/// A name and a separator make a namespace: both are non-empty, and the name
/// does not contain the separator.
pub open spec fn valid_parts(name: Seq<char>, separator: Seq<char>) -> bool {
    &&& name.len() > 0
    &&& separator.len() > 0
    &&& find(encode_utf8(name), encode_utf8(separator)) is None
}

/// Why `name` cannot be the name of a namespace with `separator`, as the
/// message of the error, or `None` when it can.
pub open spec fn name_problem(name: Seq<char>, separator: Seq<char>) -> Option<Seq<char>> {
    if name.len() == 0 {
        Some("Namespace name cannot be empty"@)
    } else if find(encode_utf8(name), encode_utf8(separator)) is Some {
        Some("Namespace name '"@ + name + "' cannot contain separator '"@ + separator + "'"@)
    } else if encode_utf8(name).contains(0u8) {
        Some("Namespace name cannot contain null bytes"@)
    } else if encode_utf8(name).len() > 255 {
        Some("Namespace name cannot exceed 255 characters"@)
    } else {
        None
    }
}

/// The namespace name and the key that a namespaced key is made of, by
/// bytes: the name is what comes before the first separator and must be
/// UTF-8; the key is every byte after that separator.
pub open spec fn parsed_key(key: Seq<u8>, separator: Seq<u8>) -> Option<(Seq<u8>, Seq<u8>)> {
    match find(key, separator) {
        Some(p) => if valid_utf8(key.subrange(0, p)) {
            Some((key.subrange(0, p), key.subrange(p + separator.len(), key.len() as int)))
        } else {
            None
        },
        None => None,
    }
}

/// `std::str::from_utf8`: the string whose UTF-8 encoding is `bytes`, or
/// `None` when `bytes` is not UTF-8.
#[verifier::external_body]
fn str_from_utf8(bytes: &[u8]) -> (r: Option<&str>)
    ensures
        match r {
            Some(s) => encode_utf8(s@) == bytes@,
            None => !valid_utf8(bytes@),
        },
{
    std::str::from_utf8(bytes).ok()
}

/// The namespace name of a key, by bytes, when it has one.
pub open spec fn namespace_of(key: Seq<u8>, separator: Seq<u8>) -> Option<Seq<u8>> {
    match parsed_key(key, separator) {
        Some((name, _)) => Some(name),
        None => None,
    }
}

/// The namespace names, by bytes, of the keys that have one.
pub open spec fn names_in(keys: Seq<Seq<u8>>, separator: Seq<u8>) -> Set<Seq<u8>> {
    Set::new(|n: Seq<u8>| exists|i: int| 0 <= i < keys.len() && #[trigger] namespace_of(keys[i], separator) == Some(n))
}

/// Each byte string sorts strictly before the next.
pub open spec fn strictly_sorted(s: Seq<Seq<u8>>) -> bool {
    forall|i: int, j: int| 0 <= i < j < s.len() ==> lex_lt(#[trigger] s[i], #[trigger] s[j])
}

/// The UTF-8 bytes of each string.
pub open spec fn utf8_all(s: Seq<String>) -> Seq<Seq<u8>> {
    s.map_values(|x: String| encode_utf8(x@))
}

/// Whether the name at `idx` sorts strictly before `name`.
fn sorts_before(out: &Vec<String>, idx: usize, name: &String) -> (b: bool)
    requires
        idx < out@.len(),
    ensures
        b == lex_lt(utf8_all(out@)[idx as int], encode_utf8(name@)),
{
    compare_bytes(out[idx].as_str().as_bytes(), name.as_str().as_bytes()) < 0
}

/// Inserts `name` into strictly sorted names, unless it is there already.
fn insert_sorted(out: &mut Vec<String>, name: String)
    requires
        strictly_sorted(utf8_all(old(out)@)),
    ensures
        strictly_sorted(utf8_all(final(out)@)),
        utf8_all(final(out)@).to_set() == utf8_all(old(out)@).to_set().insert(encode_utf8(name@)),
{
    let ghost v = utf8_all(out@);
    let ghost nb = encode_utf8(name@);
    let mut idx: usize = 0;
    while idx < out.len() && sorts_before(&out, idx, &name)
        invariant
            v == utf8_all(out@),
            nb == encode_utf8(name@),
            idx <= out@.len(),
            forall|j: int| 0 <= j < idx ==> lex_lt(#[trigger] v[j], nb),
        decreases out@.len() - idx,
    {
        assert(lex_lt(v[idx as int], nb));
        idx = idx + 1;
    }
    if idx < out.len() {
        assert(!lex_lt(v[idx as int], nb));
        if compare_bytes(out[idx].as_str().as_bytes(), name.as_str().as_bytes()) == 0 {
            assert(v[idx as int] == nb);
            assert(v.to_set().insert(nb) =~= v.to_set());
            return;
        }
        proof {
            lemma_lex_total(v[idx as int], nb);
        }
        assert(lex_lt(nb, v[idx as int]));
    }
    let ghost old_v = v;
    out.insert(idx, name);
    let ghost w = utf8_all(out@);
    assert(w =~= old_v.insert(idx as int, nb));
    proof {
        assert forall|i: int, j: int| 0 <= i < j < w.len() implies lex_lt(#[trigger] w[i], #[trigger] w[j]) by {
            if j == idx {
            } else if i == idx {
                if j > idx + 1 {
                    lemma_lex_transitive(nb, old_v[idx as int], old_v[j - 1]);
                }
            } else if i < idx && j > idx {
                if idx < old_v.len() {
                    lemma_lex_transitive(old_v[i], nb, old_v[idx as int]);
                    if j - 1 > idx {
                        lemma_lex_transitive(old_v[i], old_v[idx as int], old_v[j - 1]);
                    }
                }
            }
        }
        assert forall|x: Seq<u8>| w.to_set().contains(x) <==> old_v.to_set().insert(nb).contains(x) by {
            if w.to_set().contains(x) {
                let k = choose|k: int| 0 <= k < w.len() && #[trigger] w[k] == x;
                if k < idx {
                    assert(old_v[k] == x);
                } else if k > idx {
                    assert(old_v[k - 1] == x);
                }
            }
            if old_v.to_set().contains(x) {
                let k = choose|k: int| 0 <= k < old_v.len() && #[trigger] old_v[k] == x;
                if k < idx {
                    assert(w[k] == x);
                } else {
                    assert(w[k + 1] == x);
                }
            }
            if x == nb {
                assert(w[idx as int] == x);
            }
        }
        assert(w.to_set() =~= old_v.to_set().insert(nb));
    }
}

/// The first occurrence is the one before which there is none.
proof fn lemma_find_first(hay: Seq<u8>, needle: Seq<u8>, i: int, p: int)
    requires
        0 <= i <= p,
        occurs_at(hay, needle, p),
        forall|j: int| i <= j < p ==> !#[trigger] occurs_at(hay, needle, j),
    ensures
        find_from(hay, needle, i) == Some(p),
    decreases p - i,
{
    if i < p {
        assert(!occurs_at(hay, needle, i));
        lemma_find_first(hay, needle, i + 1, p);
    }
}

/// A key of a namespace starts with the namespace prefix, and taking the
/// prefix off gives back the key it was made from.
pub proof fn lemma_strip_key(prefix: Seq<u8>, key: Seq<u8>)
    ensures
        is_prefix(prefix, prefix + key),
        (prefix + key).subrange(prefix.len() as int, (prefix + key).len() as int) == key,
{
    assert((prefix + key).subrange(0, prefix.len() as int) =~= prefix);
    assert((prefix + key).subrange(prefix.len() as int, (prefix + key).len() as int) =~= key);
}

/// Two namespaces with different names and one separator make different
/// keys of the same key.
pub proof fn lemma_namespaces_isolated(name1: Seq<char>, name2: Seq<char>, separator: Seq<char>, key: Seq<u8>)
    requires
        name1 != name2,
    ensures
        encode_utf8(name1) + encode_utf8(separator) + key != encode_utf8(name2) + encode_utf8(separator) + key,
{
    let a = encode_utf8(name1) + encode_utf8(separator) + key;
    let b = encode_utf8(name2) + encode_utf8(separator) + key;
    if a == b {
        let n1 = encode_utf8(name1);
        assert(a.len() == b.len());
        assert(a.subrange(0, n1.len() as int) =~= n1);
        assert(b.subrange(0, n1.len() as int) =~= encode_utf8(name2));
        encode_utf8_decode_utf8(name1);
        encode_utf8_decode_utf8(name2);
    }
}

/// A key made by a namespace parses back into the namespace name and the
/// key, whatever bytes the key holds, where the separator does not start
/// inside the name: the first occurrence of the separator in the prefix is
/// the one after the name.
pub proof fn lemma_parse_namespaced_key(name: Seq<char>, separator: Seq<char>, key: Seq<u8>)
    requires
        find(encode_utf8(name) + encode_utf8(separator), encode_utf8(separator)) == Some(
            encode_utf8(name).len() as int,
        ),
    ensures
        parsed_key(encode_utf8(name) + encode_utf8(separator) + key, encode_utf8(separator)) == Some(
            (encode_utf8(name), key),
        ),
{
    let n = encode_utf8(name);
    let s = encode_utf8(separator);
    let p = n + s;
    let whole = p + key;
    encode_utf8_valid_utf8(name);
    lemma_find_from(p, s, 0);
    assert(whole.subrange(n.len() as int, (n.len() + s.len()) as int) =~= p.subrange(n.len() as int, (n.len() + s.len()) as int));
    assert forall|j: int| 0 <= j < n.len() implies !#[trigger] occurs_at(whole, s, j) by {
        assert(!occurs_at(p, s, j));
        assert(whole.subrange(j, j + s.len()) =~= p.subrange(j, j + s.len()));
    }
    lemma_find_first(whole, s, 0, n.len() as int);
    assert(whole.subrange(0, n.len() as int) =~= n);
    assert(whole.subrange((n.len() + s.len()) as int, whole.len() as int) =~= key);
}

/// No non-empty end of `name` is a proper beginning of `separator`: a
/// separator written after the name cannot be found starting inside it.
pub open spec fn no_overlap(name: Seq<u8>, separator: Seq<u8>) -> bool {
    forall|l: int|
        0 < l < separator.len() && l <= name.len() ==> #[trigger] name.subrange(name.len() - l, name.len() as int)
            != separator.subrange(0, l)
}

/// Parsing a key made by a namespace gives back the namespace name and the
/// key, whatever bytes the key holds, where no non-empty end of the name is
/// a proper beginning of the separator (for `::`, a name not ending in `:`).
pub proof fn lemma_parse_key_inverts_key(name: Seq<char>, separator: Seq<char>, key: Seq<u8>)
    requires
        valid_parts(name, separator),
        no_overlap(encode_utf8(name), encode_utf8(separator)),
    ensures
        parsed_key(encode_utf8(name) + encode_utf8(separator) + key, encode_utf8(separator)) == Some(
            (encode_utf8(name), key),
        ),
{
    let n = encode_utf8(name);
    let s = encode_utf8(separator);
    let p = n + s;
    lemma_find_from(n, s, 0);
    assert(p.subrange(n.len() as int, p.len() as int) =~= s);
    assert forall|j: int| 0 <= j < n.len() implies !#[trigger] occurs_at(p, s, j) by {
        if occurs_at(p, s, j) {
            if j + s.len() <= n.len() {
                assert(n.subrange(j, j + s.len()) =~= p.subrange(j, j + s.len()));
                assert(occurs_at(n, s, j));
            } else {
                let l = n.len() - j;
                assert(n.subrange(n.len() - l, n.len() as int) =~= s.subrange(0, l)) by {
                    assert forall|q: int| 0 <= q < l implies n.subrange(n.len() - l, n.len() as int)[q] == s.subrange(0, l)[q] by {
                        assert(p.subrange(j, j + s.len())[q] == p[j + q]);
                    }
                }
            }
        }
    }
    lemma_find_first(p, s, 0, n.len() as int);
    lemma_parse_namespaced_key(name, separator, key);
}

/// A key in which the separator does not occur is not a namespaced key.
pub proof fn lemma_parse_key_needs_separator(key: Seq<u8>, separator: Seq<u8>)
    requires
        forall|i: int| !#[trigger] occurs_at(key, separator, i),
    ensures
        parsed_key(key, separator) is None,
{
    lemma_find_from(key, separator, 0);
}

/// A name and a separator make a namespace (and `with_separator` takes
/// them) exactly when neither is empty and the separator occurs nowhere in
/// the name.
pub proof fn lemma_valid_parts_meaning(name: Seq<char>, separator: Seq<char>)
    ensures
        valid_parts(name, separator) <==> (name.len() > 0 && separator.len() > 0 && !exists|i: int|
            #[trigger] occurs_at(encode_utf8(name), encode_utf8(separator), i)),
{
    lemma_find_from(encode_utf8(name), encode_utf8(separator), 0);
}

/// A namespace for organizing and isolating data.
#[derive(Debug, Clone, Eq, Hash)]
pub struct Namespace {
    name: String,
    separator: String,
}

impl PartialEq for Namespace {
    fn eq(&self, other: &Self) -> (r: bool) {
        self.name == other.name && self.separator == other.separator
    }
}

impl vstd::std_specs::cmp::PartialEqSpecImpl for Namespace {
    open spec fn obeys_eq_spec() -> bool {
        true
    }

    open spec fn eq_spec(&self, other: &Self) -> bool {
        self.name_view() == other.name_view() && self.separator_view() == other.separator_view()
    }
}

impl Namespace {
    /// The name.
    pub closed spec fn name_view(&self) -> Seq<char> {
        self.name@
    }

    /// The separator.
    pub closed spec fn separator_view(&self) -> Seq<char> {
        self.separator@
    }

    /// The bytes that every key of the namespace starts with.
    pub open spec fn prefix_view(&self) -> Seq<u8> {
        encode_utf8(self.name_view()) + encode_utf8(self.separator_view())
    }

    /// The name and the separator make a namespace.
    pub open spec fn wf(&self) -> bool {
        valid_parts(self.name_view(), self.separator_view())
    }

    /// A namespace with the default separator `::`.
    pub fn new(name: &str) -> (ns: Self)
        requires
            valid_parts(name@, default_separator()),
        ensures
            ns.wf(),
            ns.name_view() == name@,
            ns.separator_view() == default_separator(),
    {
        proof {
            reveal_strlit("::");
        }
        assert("::"@ =~= default_separator());
        Self::with_separator(name, "::")
    }

    /// A namespace with a separator of its own.
    pub fn with_separator(name: &str, separator: &str) -> (ns: Self)
        requires
            valid_parts(name@, separator@),
        ensures
            ns.wf(),
            ns.name_view() == name@,
            ns.separator_view() == separator@,
    {
        Namespace { name: String::from_str(name), separator: String::from_str(separator) }
    }

    /// A namespace with a separator of its own, or `None` where the name or
    /// the separator is empty or the name contains the separator, the
    /// inputs on which `with_separator` cannot make one.
    pub fn try_with_separator(name: &str, separator: &str) -> (r: Option<Self>)
        ensures
            r is Some <==> valid_parts(name@, separator@),
            match r {
                Some(ns) => ns.wf() && ns.name_view() == name@ && ns.separator_view() == separator@,
                None => true,
            },
    {
        if name.is_empty() || separator.is_empty() {
            return None;
        }
        match find_bytes(name.as_bytes(), separator.as_bytes()) {
            Some(_) => None,
            None => Some(Self::with_separator(name, separator)),
        }
    }

    /// The name.
    pub fn name(&self) -> (r: &str)
        ensures
            r@ == self.name_view(),
    {
        self.name.as_str()
    }

    /// The separator.
    pub fn separator(&self) -> (r: &str)
        ensures
            r@ == self.separator_view(),
    {
        self.separator.as_str()
    }

    /// The name, as the namespace is displayed.
    pub fn to_string(&self) -> (r: String)
        ensures
            r@ == self.name_view(),
    {
        self.name.clone()
    }

    /// The prefix bytes, in a vector.
    fn prefix_vec(&self) -> (v: Vec<u8>)
        ensures
            v@ == self.prefix_view(),
    {
        let mut v: Vec<u8> = Vec::new();
        push_all(&mut v, self.name.as_str().as_bytes());
        push_all(&mut v, self.separator.as_str().as_bytes());
        v
    }

    /// The key of the namespace for `key`: `{name}{separator}{key}`.
    pub fn key(&self, key: &[u8]) -> (k: Bytes)
        ensures
            bytes_view(k) == self.prefix_view() + key@,
    {
        let mut v = self.prefix_vec();
        push_all(&mut v, key);
        bytes_from_vec(v)
    }

    /// The key of the namespace for the UTF-8 bytes of `key`.
    pub fn key_str(&self, key: &str) -> (k: Bytes)
        ensures
            bytes_view(k) == self.prefix_view() + encode_utf8(key@),
    {
        self.key(key.as_bytes())
    }

    /// The prefix that every key of the namespace starts with.
    pub fn prefix(&self) -> (p: Bytes)
        ensures
            bytes_view(p) == self.prefix_view(),
    {
        bytes_from_vec(self.prefix_vec())
    }

    /// Whether `key` belongs to the namespace: it starts with the prefix.
    pub fn owns_key(&self, key: &[u8]) -> (b: bool)
        ensures
            b == is_prefix(self.prefix_view(), key@),
    {
        let p = self.prefix_vec();
        starts_with(key, p.as_slice())
    }

    /// The key without the namespace prefix, or `None` when the key does not
    /// belong to the namespace.
    pub fn strip_prefix(&self, namespaced_key: &[u8]) -> (r: Option<Bytes>)
        ensures
            match r {
                Some(k) => is_prefix(self.prefix_view(), namespaced_key@) && bytes_view(k)
                    == namespaced_key@.subrange(self.prefix_view().len() as int, namespaced_key@.len() as int),
                None => !is_prefix(self.prefix_view(), namespaced_key@),
            },
    {
        let p = self.prefix_vec();
        if starts_with(namespaced_key, p.as_slice()) {
            let rest = slice_subrange(namespaced_key, p.len(), namespaced_key.len());
            Some(bytes_copy(rest))
        } else {
            None
        }
    }

    /// Checks that `name` can name a namespace with `separator`: it is not
    /// empty, does not contain the separator nor a NUL byte, and is at most
    /// 255 bytes long.
    pub fn validate_name(name: &str, separator: &str) -> (r: Result<(), SpatioError>)
        ensures
            r is Ok <==> name_problem(name@, separator@) is None,
            match r {
                Ok(()) => true,
                Err(SpatioError::Other(msg)) => Some(msg@) == name_problem(name@, separator@),
                Err(_) => false,
            },
    {
        if name.is_empty() {
            proof {
                reveal_strlit("Namespace name cannot be empty");
            }
            return Err(SpatioError::Other(String::from_str("Namespace name cannot be empty")));
        }
        let bytes = name.as_bytes();
        if find_bytes(bytes, separator.as_bytes()).is_some() {
            let mut msg = String::from_str("Namespace name '");
            msg.append(name);
            msg.append("' cannot contain separator '");
            msg.append(separator);
            msg.append("'");
            return Err(SpatioError::Other(msg));
        }
        if contains_byte(bytes, 0) {
            return Err(SpatioError::Other(String::from_str("Namespace name cannot contain null bytes")));
        }
        if bytes.len() > 255 {
            return Err(SpatioError::Other(String::from_str("Namespace name cannot exceed 255 characters")));
        }
        Ok(())
    }
}

impl Default for Namespace {
    fn default() -> (ns: Self)
        ensures
            ns.wf(),
            ns.name_view() == "default"@,
            ns.separator_view() == default_separator(),
    {
        proof {
            reveal_strlit("default");
            let n = "default"@;
            assert(is_ascii_chars(n));
            is_ascii_chars_encode_utf8(n);
            assert(is_ascii_chars(default_separator()));
            is_ascii_chars_encode_utf8(default_separator());
            let hb = encode_utf8(n);
            let sb = encode_utf8(default_separator());
            lemma_find_from(hb, sb, 0);
            if find(hb, sb) is Some {
                let p = find(hb, sb)->0;
                assert(hb.subrange(p, p + 2)[0] == sb[0]);
                assert(hb[p] == 58u8);
                assert(0 <= p < 7);
                assert(n[p] as u8 == 58u8);
                assert(false);
            }
        }
        Self::new("default")
    }
}

/// Works with namespaced keys under one separator.
#[derive(Debug, Clone)]
pub struct NamespaceManager {
    separator: String,
}

impl NamespaceManager {
    /// The separator.
    pub closed spec fn separator_view(&self) -> Seq<char> {
        self.separator@
    }

    /// The separator is not empty.
    pub open spec fn wf(&self) -> bool {
        self.separator_view().len() > 0
    }

    /// A manager with the default separator `::`.
    pub fn new() -> (m: Self)
        ensures
            m.wf(),
            m.separator_view() == default_separator(),
    {
        proof {
            reveal_strlit("::");
        }
        assert("::"@ =~= default_separator());
        Self::with_separator("::")
    }

    /// A manager with a separator of its own.
    pub fn with_separator(separator: &str) -> (m: Self)
        requires
            separator@.len() > 0,
        ensures
            m.wf(),
            m.separator_view() == separator@,
    {
        NamespaceManager { separator: String::from_str(separator) }
    }

    /// The separator.
    pub fn separator(&self) -> (r: &str)
        ensures
            r@ == self.separator_view(),
    {
        self.separator.as_str()
    }

    /// The namespace called `name`, with this manager's separator.
    pub fn namespace(&self, name: &str) -> (ns: Namespace)
        requires
            valid_parts(name@, self.separator_view()),
        ensures
            ns.wf(),
            ns.name_view() == name@,
            ns.separator_view() == self.separator_view(),
    {
        Namespace::with_separator(name, self.separator.as_str())
    }

    /// The namespace name and the original key of a namespaced key, or
    /// `None` when the key holds no separator or what comes before the
    /// first one is not UTF-8. The key after the separator may be any bytes.
    pub fn parse_key(&self, namespaced_key: &[u8]) -> (r: Option<(String, Bytes)>)
        requires
            self.wf(),
        ensures
            match (r, parsed_key(namespaced_key@, encode_utf8(self.separator_view()))) {
                (Some((name, key)), Some((nb, kb))) => encode_utf8(name@) == nb && bytes_view(key) == kb,
                (None, None) => true,
                _ => false,
            },
    {
        let sep = self.separator.as_str().as_bytes();
        match find_bytes(namespaced_key, sep) {
            Some(pos) => {
                proof {
                    lemma_find_from(namespaced_key@, sep@, 0);
                }
                let n = namespaced_key.len();
                assert(pos + sep@.len() <= n);
                let head = slice_subrange(namespaced_key, 0, pos);
                match str_from_utf8(head) {
                    Some(text) => {
                        proof {
                            encode_utf8_valid_utf8(text@);
                        }
                        let name = String::from_str(text);
                        let rest = slice_subrange(namespaced_key, pos + sep.len(), n);
                        Some((name, bytes_copy(rest)))
                    },
                    None => None,
                }
            },
            None => None,
        }
    }

    /// The distinct namespace names of the keys that have one, in sorted order.
    pub fn extract_namespaces(&self, keys: &[Bytes]) -> (r: Vec<String>)
        requires
            self.wf(),
        ensures
            strictly_sorted(utf8_all(r@)),
            utf8_all(r@).to_set() == names_in(
                keys@.map_values(|b: Bytes| bytes_view(b)),
                encode_utf8(self.separator_view()),
            ),
    {
        let ghost ks = keys@.map_values(|b: Bytes| bytes_view(b));
        let ghost sep = encode_utf8(self.separator_view());
        let mut out: Vec<String> = Vec::new();
        let mut i: usize = 0;
        assert(utf8_all(out@).to_set() =~= names_in(ks.take(0), sep));
        while i < keys.len()
            invariant
                self.wf(),
                i <= keys@.len(),
                ks == keys@.map_values(|b: Bytes| bytes_view(b)),
                sep == encode_utf8(self.separator_view()),
                strictly_sorted(utf8_all(out@)),
                utf8_all(out@).to_set() == names_in(ks.take(i as int), sep),
            decreases keys@.len() - i,
        {
            let ghost before = names_in(ks.take(i as int), sep);
            let ghost after = names_in(ks.take(i + 1), sep);
            assert(ks.take(i + 1)[i as int] == ks[i as int]);
            assert forall|j: int| 0 <= j < i implies ks.take(i + 1)[j] == #[trigger] ks.take(i as int)[j] by {}
            match self.parse_key(bytes_slice(&keys[i])) {
                Some((name, _)) => {
                    let ghost nb = encode_utf8(name@);
                    assert(namespace_of(ks[i as int], sep) == Some(nb));
                    insert_sorted(&mut out, name);
                    assert forall|x: Seq<u8>| after.contains(x) <==> before.insert(nb).contains(x) by {
                        if after.contains(x) {
                            let j = choose|j: int| 0 <= j < ks.take(i + 1).len() && #[trigger] namespace_of(ks.take(i + 1)[j], sep) == Some(x);
                            if j < i {
                                assert(namespace_of(ks.take(i as int)[j], sep) == Some(x));
                            }
                        }
                        if before.contains(x) {
                            let j = choose|j: int| 0 <= j < ks.take(i as int).len() && #[trigger] namespace_of(ks.take(i as int)[j], sep) == Some(x);
                            assert(namespace_of(ks.take(i + 1)[j], sep) == Some(x));
                        }
                        if x == nb {
                            assert(namespace_of(ks.take(i + 1)[i as int], sep) == Some(x));
                        }
                    }
                    assert(after =~= before.insert(nb));
                },
                None => {
                    assert(namespace_of(ks[i as int], sep) is None);
                    assert forall|x: Seq<u8>| after.contains(x) <==> before.contains(x) by {
                        if after.contains(x) {
                            let j = choose|j: int| 0 <= j < ks.take(i + 1).len() && #[trigger] namespace_of(ks.take(i + 1)[j], sep) == Some(x);
                            if j < i {
                                assert(namespace_of(ks.take(i as int)[j], sep) == Some(x));
                            }
                        }
                        if before.contains(x) {
                            let j = choose|j: int| 0 <= j < ks.take(i as int).len() && #[trigger] namespace_of(ks.take(i as int)[j], sep) == Some(x);
                            assert(namespace_of(ks.take(i + 1)[j], sep) == Some(x));
                        }
                    }
                    assert(after =~= before);
                },
            }
            i = i + 1;
        }
        assert(ks.take(keys@.len() as int) =~= ks);
        out
    }

    /// Whether `key` is a key of the namespace called `namespace_name`.
    pub fn key_belongs_to_namespace(&self, key: &[u8], namespace_name: &str) -> (b: bool)
        requires
            self.wf(),
        ensures
            b == match parsed_key(key@, encode_utf8(self.separator_view())) {
                Some((nb, _)) => nb == encode_utf8(namespace_name@),
                None => false,
            },
    {
        match self.parse_key(key) {
            Some((ns, _)) => compare_bytes(ns.as_str().as_bytes(), namespace_name.as_bytes()) == 0,
            None => false,
        }
    }
}

impl Default for NamespaceManager {
    fn default() -> (m: Self)
        ensures
            m.wf(),
            m.separator_view() == default_separator(),
    {
        Self::new()
    }
}

} // verus!
