//! Domain normalization shared by the DNS path and the list compiler.

use vstd::prelude::*;
use crate::text::{chars_of, string_from_chars};

verus! {

/// `char::is_whitespace`: the Unicode `White_Space` property.
pub open spec fn is_ws_spec(c: char) -> bool {
    let u = c as u32;
    (0x9 <= u <= 0xd) || u == 0x20 || u == 0x85 || u == 0xa0 || u == 0x1680
        || (0x2000 <= u <= 0x200a) || u == 0x2028 || u == 0x2029 || u == 0x202f
        || u == 0x205f || u == 0x3000
}

pub open spec fn is_quote(c: char) -> bool {
    c == '"' || c == '\''
}

/// Index of the first character of `s` at or after `i` that is not whitespace.
pub open spec fn skip_ws_front(s: Seq<char>, i: int) -> int
    decreases s.len() - i,
{
    if i < s.len() && is_ws_spec(s[i]) { skip_ws_front(s, i + 1) } else { i }
}

/// `str::trim`: `s` without leading and trailing whitespace.
pub open spec fn trim_ws(s: Seq<char>) -> Seq<char> {
    let a = skip_ws_front(s, 0);
    let b = skip_ws_back(s, s.len() as int, a);
    s.subrange(a, b)
}

/// One past the last non-whitespace character of `s` in `[lo, j)`, or `lo`.
pub open spec fn skip_ws_back(s: Seq<char>, j: int, lo: int) -> int
    decreases j - lo,
{
    if j > lo && is_ws_spec(s[j - 1]) { skip_ws_back(s, j - 1, lo) } else { j }
}

pub open spec fn skip_quote_front(s: Seq<char>, i: int) -> int
    decreases s.len() - i,
{
    if i < s.len() && is_quote(s[i]) { skip_quote_front(s, i + 1) } else { i }
}

pub open spec fn skip_quote_back(s: Seq<char>, j: int, lo: int) -> int
    decreases j - lo,
{
    if j > lo && is_quote(s[j - 1]) { skip_quote_back(s, j - 1, lo) } else { j }
}

/// `trim_matches` with the two quote characters.
pub open spec fn trim_quotes(s: Seq<char>) -> Seq<char> {
    let a = skip_quote_front(s, 0);
    let b = skip_quote_back(s, s.len() as int, a);
    s.subrange(a, b)
}

/// The characters a normalized domain may hold.
pub open spec fn is_domain_char(c: char) -> bool {
    ('a' <= c <= 'z') || ('0' <= c <= '9') || c == '-' || c == '.' || c == '_'
}

/// Lowercase of a character, where the result can be a domain character: ASCII
/// upper case letters map to lower case, and U+212A KELVIN SIGN maps to `k`.
/// Every other character lowercases to something that no domain may hold.
pub open spec fn lower_domain_char(c: char) -> Option<char> {
    if 'A' <= c <= 'Z' {
        Some(((c as u32) + 32) as char)
    } else if is_domain_char(c) {
        Some(c)
    } else if c as u32 == 0x212a {
        Some('k')
    } else {
        None
    }
}

pub open spec fn all_lowerable(s: Seq<char>) -> bool {
    forall|i: int| 0 <= i < s.len() ==> (#[trigger] lower_domain_char(s[i])) is Some
}

pub open spec fn lower_all(s: Seq<char>) -> Seq<char> {
    s.map_values(|c: char| lower_domain_char(c)->0)
}

pub open spec fn strip_trailing_dot(s: Seq<char>) -> Seq<char> {
    if s.len() > 0 && s.last() == '.' { s.drop_last() } else { s }
}

pub open spec fn localhost_chars() -> Seq<char> {
    seq!['l', 'o', 'c', 'a', 'l', 'h', 'o', 's', 't']
}

pub open spec fn dot_localhost_chars() -> Seq<char> {
    seq!['.', 'l', 'o', 'c', 'a', 'l', 'h', 'o', 's', 't']
}

pub open spec fn local_chars() -> Seq<char> {
    seq!['l', 'o', 'c', 'a', 'l']
}

pub open spec fn dot_local_chars() -> Seq<char> {
    seq!['.', 'l', 'o', 'c', 'a', 'l']
}

pub open spec fn ends_with(s: Seq<char>, suffix: Seq<char>) -> bool {
    suffix.len() <= s.len() && s.subrange(s.len() - suffix.len(), s.len() as int) == suffix
}

/// No label (maximal run of non-dot characters) is empty.
pub open spec fn no_empty_label(s: Seq<char>) -> bool {
    &&& s[0] != '.'
    &&& s.last() != '.'
    &&& forall|i: int| 0 <= i < s.len() - 1 ==> !(#[trigger] s[i] == '.' && s[i + 1] == '.')
}

/// No label is longer than 63 characters: every window of 64 holds a dot.
pub open spec fn no_long_label(s: Seq<char>) -> bool {
    forall|i: int| 0 <= i && i + 64 <= s.len() ==> #[trigger] window_has_dot(s, i)
}

/// The 64 characters of `s` from `i` on hold a dot.
pub open spec fn window_has_dot(s: Seq<char>, i: int) -> bool {
    exists|k: int| i <= k < i + 64 && #[trigger] s[k] == '.'
}

/// What `normalize_domain` returns for the characters `raw`.
pub open spec fn normalize_spec(raw: Seq<char>) -> Option<Seq<char>> {
    let t = trim_quotes(trim_ws(raw));
    if !all_lowerable(t) {
        None
    } else {
        let s = strip_trailing_dot(lower_all(t));
        if s.len() == 0 || s.len() > 253 {
            None
        } else if s == localhost_chars() || ends_with(s, dot_localhost_chars()) {
            None
        } else if !no_empty_label(s) || !no_long_label(s) {
            None
        } else {
            Some(s)
        }
    }
}

/// A normalized domain: what `normalize_domain` can return.
pub open spec fn is_normalized(s: Seq<char>) -> bool {
    &&& 0 < s.len() <= 253
    &&& forall|i: int| 0 <= i < s.len() ==> is_domain_char(#[trigger] s[i])
    &&& no_empty_label(s)
    &&& no_long_label(s)
    &&& s != localhost_chars()
    &&& !ends_with(s, dot_localhost_chars())
}

pub open spec fn is_local_bypass_spec(d: Seq<char>) -> bool {
    d == localhost_chars() || ends_with(d, dot_localhost_chars()) || ends_with(d, dot_local_chars())
        || d == local_chars()
}

pub(crate) fn is_ws(c: char) -> (r: bool)
    ensures
        r == is_ws_spec(c),
{
    let u = c as u32;
    (0x9 <= u && u <= 0xd) || u == 0x20 || u == 0x85 || u == 0xa0 || u == 0x1680 || (0x2000 <= u
        && u <= 0x200a) || u == 0x2028 || u == 0x2029 || u == 0x202f || u == 0x205f || u == 0x3000
}

fn lower_char(c: char) -> (r: Option<char>)
    ensures
        r == lower_domain_char(c),
{
    if 'A' <= c && c <= 'Z' {
        let u: u32 = (c as u32) + 32;
        // 'a'..='z'
        Some(char_from_ascii_lower(u))
    } else if ('a' <= c && c <= 'z') || ('0' <= c && c <= '9') || c == '-' || c == '.' || c
        == '_' {
        Some(c)
    } else if c as u32 == 0x212a {
        Some('k')
    } else {
        None
    }
}

fn char_from_ascii_lower(u: u32) -> (r: char)
    requires
        97 <= u <= 122,
    ensures
        r as u32 == u,
        r == u as char,
{
    let b: u8 = u as u8;
    b as char
}

/// Whether `s` ends with the characters `suffix`.
pub fn chars_end_with(s: &[char], suffix: &[char]) -> (r: bool)
    ensures
        r == ends_with(s@, suffix@),
{
    if suffix.len() > s.len() {
        return false;
    }
    let off = s.len() - suffix.len();
    let mut i: usize = 0;
    while i < suffix.len()
        invariant
            suffix@.len() <= s@.len(),
            off == s@.len() - suffix@.len(),
            i <= suffix@.len(),
            forall|k: int| 0 <= k < i ==> s@[off + k] == suffix@[k],
        decreases suffix@.len() - i,
    {
        assert(off + i < s.len());
        if s[off + i] != suffix[i] {
            assert(s@.subrange(off as int, s@.len() as int)[i as int] != suffix@[i as int]);
            return false;
        }
        i = i + 1;
    }
    assert(s@.subrange(off as int, s@.len() as int) =~= suffix@);
    true
}

/// Whether the characters of `a` and `b` are the same.
pub fn chars_equal(a: &[char], b: &[char]) -> (r: bool)
    ensures
        r == (a@ == b@),
{
    if a.len() != b.len() {
        return false;
    }
    let mut i: usize = 0;
    while i < a.len()
        invariant
            a@.len() == b@.len(),
            i <= a@.len(),
            forall|k: int| 0 <= k < i ==> a@[k] == b@[k],
        decreases a@.len() - i,
    {
        if a[i] != b[i] {
            return false;
        }
        i = i + 1;
    }
    assert(a@ =~= b@);
    true
}

pub(crate) proof fn lemma_skip_ws_front(s: Seq<char>, i: int)
    requires
        0 <= i <= s.len(),
    ensures
        i <= skip_ws_front(s, i) <= s.len(),
        forall|k: int| i <= k < skip_ws_front(s, i) ==> is_ws_spec(#[trigger] s[k]),
        skip_ws_front(s, i) < s.len() ==> !is_ws_spec(s[skip_ws_front(s, i)]),
    decreases s.len() - i,
{
    if i < s.len() && is_ws_spec(s[i]) {
        lemma_skip_ws_front(s, i + 1);
    }
}

pub(crate) proof fn lemma_skip_ws_back(s: Seq<char>, j: int, lo: int)
    requires
        0 <= lo <= j <= s.len(),
    ensures
        lo <= skip_ws_back(s, j, lo) <= j,
        forall|k: int| skip_ws_back(s, j, lo) <= k < j ==> is_ws_spec(#[trigger] s[k]),
        skip_ws_back(s, j, lo) > lo ==> !is_ws_spec(s[skip_ws_back(s, j, lo) - 1]),
    decreases j - lo,
{
    if j > lo && is_ws_spec(s[j - 1]) {
        lemma_skip_ws_back(s, j - 1, lo);
    }
}

proof fn lemma_skip_quote_front(s: Seq<char>, i: int)
    requires
        0 <= i <= s.len(),
    ensures
        i <= skip_quote_front(s, i) <= s.len(),
        forall|k: int| i <= k < skip_quote_front(s, i) ==> is_quote(#[trigger] s[k]),
        skip_quote_front(s, i) < s.len() ==> !is_quote(s[skip_quote_front(s, i)]),
    decreases s.len() - i,
{
    if i < s.len() && is_quote(s[i]) {
        lemma_skip_quote_front(s, i + 1);
    }
}

proof fn lemma_skip_quote_back(s: Seq<char>, j: int, lo: int)
    requires
        0 <= lo <= j <= s.len(),
    ensures
        lo <= skip_quote_back(s, j, lo) <= j,
        forall|k: int| skip_quote_back(s, j, lo) <= k < j ==> is_quote(#[trigger] s[k]),
        skip_quote_back(s, j, lo) > lo ==> !is_quote(s[skip_quote_back(s, j, lo) - 1]),
    decreases j - lo,
{
    if j > lo && is_quote(s[j - 1]) {
        lemma_skip_quote_back(s, j - 1, lo);
    }
}

/// The indices `[a, b)` of `trim_ws(s)`.
pub(crate) fn trim_ws_bounds(s: &Vec<char>) -> (r: (usize, usize))
    ensures
        r.0 == skip_ws_front(s@, 0),
        r.1 == skip_ws_back(s@, s@.len() as int, r.0 as int),
        r.0 <= r.1 <= s@.len(),
{
    proof {
        lemma_skip_ws_front(s@, 0);
    }
    let mut a: usize = 0;
    while a < s.len() && is_ws(s[a])
        invariant
            a <= s@.len(),
            skip_ws_front(s@, a as int) == skip_ws_front(s@, 0),
        decreases s@.len() - a,
    {
        a = a + 1;
    }
    let mut b: usize = s.len();
    while b > a && is_ws(s[b - 1])
        invariant
            a <= b <= s@.len(),
            skip_ws_back(s@, b as int, a as int) == skip_ws_back(s@, s@.len() as int, a as int),
        decreases b - a,
    {
        b = b - 1;
    }
    (a, b)
}

fn trim_quote_bounds(s: &Vec<char>) -> (r: (usize, usize))
    ensures
        r.0 == skip_quote_front(s@, 0),
        r.1 == skip_quote_back(s@, s@.len() as int, r.0 as int),
        r.0 <= r.1 <= s@.len(),
{
    proof {
        lemma_skip_quote_front(s@, 0);
    }
    let mut a: usize = 0;
    while a < s.len() && (s[a] == '"' || s[a] == '\'')
        invariant
            a <= s@.len(),
            skip_quote_front(s@, a as int) == skip_quote_front(s@, 0),
        decreases s@.len() - a,
    {
        a = a + 1;
    }
    let mut b: usize = s.len();
    while b > a && (s[b - 1] == '"' || s[b - 1] == '\'')
        invariant
            a <= b <= s@.len(),
            skip_quote_back(s@, b as int, a as int) == skip_quote_back(s@, s@.len() as int, a as int),
        decreases b - a,
    {
        b = b - 1;
    }
    (a, b)
}

pub(crate) fn slice_to_vec(s: &Vec<char>, a: usize, b: usize) -> (r: Vec<char>)
    requires
        a <= b <= s@.len(),
    ensures
        r@ == s@.subrange(a as int, b as int),
{
    let mut out: Vec<char> = Vec::new();
    let mut i = a;
    while i < b
        invariant
            a <= i <= b <= s@.len(),
            out@ == s@.subrange(a as int, i as int),
        decreases b - i,
    {
        out.push(s[i]);
        i = i + 1;
        assert(out@ =~= s@.subrange(a as int, i as int));
    }
    out
}

/// Checks the label rules on a non-empty sequence of domain characters.
fn labels_ok(s: &Vec<char>) -> (r: bool)
    requires
        s@.len() > 0,
    ensures
        r == (no_empty_label(s@) && no_long_label(s@)),
{
    let n = s.len();
    if s[0] == '.' || s[n - 1] == '.' {
        return false;
    }
    // cur: length of the run of non-dot characters that ends at i.
    let mut cur: usize = 0;
    let mut i: usize = 0;
    while i < n
        invariant
            n == s@.len(),
            i <= n,
            s@[0] != '.',
            cur <= i,
            cur <= 63,
            forall|k: int| i - cur <= k < i ==> s@[k] != '.',
            i - cur > 0 ==> s@[i - cur - 1] == '.',
            forall|k: int| 0 <= k < i - 1 ==> !(#[trigger] s@[k] == '.' && s@[k + 1] == '.'),
            forall|j: int| 0 <= j && j + 64 <= i ==> #[trigger] window_has_dot(s@, j),
        decreases n - i,
    {
        if s[i] == '.' {
            if i > 0 && s[i - 1] == '.' {
                assert(s@[i - 1] == '.' && s@[(i - 1) + 1] == '.');
                return false;
            }
            assert forall|j: int| 0 <= j && j + 64 <= i + 1 implies #[trigger] window_has_dot(
                s@,
                j,
            ) by {
                if j + 64 == i + 1 {
                    assert(s@[i as int] == '.');
                }
            }
            cur = 0;
        } else {
            if cur == 63 {
                // the window [i - 63, i] holds no dot
                assert(!window_has_dot(s@, i - 63));
                return false;
            }
            assert forall|j: int| 0 <= j && j + 64 <= i + 1 implies #[trigger] window_has_dot(
                s@,
                j,
            ) by {
                if j + 64 == i + 1 {
                    assert(s@[i - cur - 1] == '.');
                }
            }
            cur = cur + 1;
        }
        i = i + 1;
    }
    true
}

/// Lowercase, strip trailing dot, reject empty / invalid-ish names.
pub fn normalize_domain(raw: &str) -> (r: Option<String>)
    ensures
        match r {
            Some(s) => normalize_spec(raw@) == Some(s@),
            None => normalize_spec(raw@) is None,
        },
{
    let chars = chars_of(raw);
    let (a, b) = trim_ws_bounds(&chars);
    let t1 = slice_to_vec(&chars, a, b);
    assert(t1@ == trim_ws(raw@));
    let (qa, qb) = trim_quote_bounds(&t1);
    let t = slice_to_vec(&t1, qa, qb);
    assert(t@ == trim_quotes(trim_ws(raw@)));
    let mut low: Vec<char> = Vec::new();
    let mut i: usize = 0;
    while i < t.len()
        invariant
            i <= t@.len(),
            t@ == trim_quotes(trim_ws(raw@)),
            low@.len() == i,
            forall|k: int| 0 <= k < i ==> (#[trigger] lower_domain_char(t@[k])) is Some,
            forall|k: int| 0 <= k < i ==> low@[k] == lower_domain_char(t@[k])->0,
        decreases t@.len() - i,
    {
        match lower_char(t[i]) {
            Some(c) => low.push(c),
            None => {
                assert(!all_lowerable(t@));
                return None;
            },
        }
        i = i + 1;
    }
    assert(all_lowerable(t@));
    assert(low@ =~= lower_all(t@));
    if low.len() > 0 && low[low.len() - 1] == '.' {
        low.pop();
    }
    let ghost s = strip_trailing_dot(lower_all(t@));
    assert(low@ =~= s);
    if low.len() == 0 || low.len() > 253 {
        return None;
    }
    let localhost = ['l', 'o', 'c', 'a', 'l', 'h', 'o', 's', 't'];
    let dot_localhost = ['.', 'l', 'o', 'c', 'a', 'l', 'h', 'o', 's', 't'];
    assert(localhost@ =~= localhost_chars());
    assert(dot_localhost@ =~= dot_localhost_chars());
    if chars_equal(low.as_slice(), &localhost) || chars_end_with(low.as_slice(), &dot_localhost) {
        return None;
    }
    if !labels_ok(&low) {
        return None;
    }
    Some(string_from_chars(low.as_slice()))
}

/// Names that always resolve locally and are never filtered.
pub fn is_local_bypass(domain: &str) -> (r: bool)
    ensures
        r == is_local_bypass_spec(domain@),
{
    let d = chars_of(domain);
    let localhost = ['l', 'o', 'c', 'a', 'l', 'h', 'o', 's', 't'];
    let dot_localhost = ['.', 'l', 'o', 'c', 'a', 'l', 'h', 'o', 's', 't'];
    let local = ['l', 'o', 'c', 'a', 'l'];
    let dot_local = ['.', 'l', 'o', 'c', 'a', 'l'];
    assert(localhost@ =~= localhost_chars());
    assert(dot_localhost@ =~= dot_localhost_chars());
    assert(local@ =~= local_chars());
    assert(dot_local@ =~= dot_local_chars());
    chars_equal(d.as_slice(), &localhost) || chars_end_with(d.as_slice(), &dot_localhost)
        || chars_end_with(d.as_slice(), &dot_local) || chars_equal(d.as_slice(), &local)
}

/// Law: what `normalize_domain` returns is a normalized name, and normalizing a
/// normalized name gives it back: normalization is idempotent, so a stored
/// (normalized) key matches the same name normalized again at query time.
pub proof fn normalize_is_idempotent(raw: Seq<char>)
    requires
        normalize_spec(raw) is Some,
    ensures
        is_normalized(normalize_spec(raw)->0),
        normalize_spec(normalize_spec(raw)->0) == normalize_spec(raw),
{
    let t = trim_quotes(trim_ws(raw));
    let s = normalize_spec(raw)->0;
    assert forall|i: int| 0 <= i < s.len() implies is_domain_char(#[trigger] s[i]) by {
        let l = lower_all(t);
        assert(s[i] == l[i]);
        assert(lower_domain_char(t[i]) is Some);
    }
    normalized_is_fixed(s);
}

/// A normalized name normalizes to itself.
pub proof fn normalized_is_fixed(s: Seq<char>)
    requires
        is_normalized(s),
    ensures
        normalize_spec(s) == Some(s),
{
    let n = s.len() as int;
    assert(!is_ws_spec(s[0]));
    assert(skip_ws_front(s, 0) == 0);
    assert(!is_ws_spec(s[n - 1]));
    assert(skip_ws_back(s, n, 0) == n);
    assert(trim_ws(s) =~= s);
    assert(!is_quote(s[0]));
    assert(skip_quote_front(s, 0) == 0);
    assert(!is_quote(s[n - 1]));
    assert(skip_quote_back(s, n, 0) == n);
    assert(trim_quotes(trim_ws(s)) =~= s);
    assert forall|i: int| 0 <= i < s.len() implies (#[trigger] lower_domain_char(s[i])) is Some && lower_domain_char(s[i])->0 == s[i] by {
        assert(is_domain_char(s[i]));
    }
    assert(lower_all(s) =~= s);
    assert(strip_trailing_dot(s) == s);
}


/// ASCII lowercase of one character: `A`..`Z` become `a`..`z`, every other
/// character stays.
pub open spec fn ascii_lower(c: char) -> char {
    let u = c as u32;
    if 0x41 <= u <= 0x5a {
        (u + 0x20) as char
    } else {
        c
    }
}

/// ASCII lowercase of a string.
pub open spec fn ascii_lowercase(s: Seq<char>) -> Seq<char> {
    s.map_values(|c: char| ascii_lower(c))
}

/// ASCII lowercasing changes neither whitespace nor quotes, and lowercases as
/// normalization does.
proof fn lemma_ascii_lower_char(c: char)
    ensures
        is_ws_spec(ascii_lower(c)) == is_ws_spec(c),
        is_quote(ascii_lower(c)) == is_quote(c),
        lower_domain_char(ascii_lower(c)) == lower_domain_char(c),
{
    let u = c as u32;
    if 0x41 <= u <= 0x5a {
        let v = u + 0x20;
        assert((v as char) as u32 == v);
    }
}

proof fn lemma_lowercase_skip_ws(s: Seq<char>, i: int, j: int, lo: int)
    requires
        0 <= i <= s.len(),
        0 <= lo <= j <= s.len(),
    ensures
        skip_ws_front(ascii_lowercase(s), i) == skip_ws_front(s, i),
        skip_ws_back(ascii_lowercase(s), j, lo) == skip_ws_back(s, j, lo),
        skip_quote_front(ascii_lowercase(s), i) == skip_quote_front(s, i),
        skip_quote_back(ascii_lowercase(s), j, lo) == skip_quote_back(s, j, lo),
    decreases s.len() - i + j - lo,
{
    let l = ascii_lowercase(s);
    if i < s.len() {
        lemma_ascii_lower_char(s[i]);
        assert(l[i] == ascii_lower(s[i]));
        lemma_lowercase_skip_ws(s, i + 1, j, lo);
    }
    if j > lo {
        lemma_ascii_lower_char(s[j - 1]);
        assert(l[j - 1] == ascii_lower(s[j - 1]));
        lemma_lowercase_skip_ws(s, i, j - 1, lo);
    }
}

/// Trimming commutes with ASCII lowercasing.
proof fn lemma_lowercase_trim(s: Seq<char>)
    ensures
        trim_ws(ascii_lowercase(s)) == ascii_lowercase(trim_ws(s)),
        trim_quotes(ascii_lowercase(s)) == ascii_lowercase(trim_quotes(s)),
{
    let l = ascii_lowercase(s);
    lemma_lowercase_skip_ws(s, 0, s.len() as int, 0);
    lemma_skip_ws_front(s, 0);
    lemma_skip_quote_front(s, 0);
    let a = skip_ws_front(s, 0);
    let q = skip_quote_front(s, 0);
    lemma_lowercase_skip_ws(s, 0, s.len() as int, a);
    lemma_lowercase_skip_ws(s, 0, s.len() as int, q);
    lemma_skip_ws_back(s, s.len() as int, a);
    lemma_skip_quote_back(s, s.len() as int, q);
    let b = skip_ws_back(s, s.len() as int, a);
    let qb = skip_quote_back(s, s.len() as int, q);
    assert(trim_ws(l) == l.subrange(a, b));
    assert(trim_ws(s) == s.subrange(a, b));
    assert(l.subrange(a, b) =~= ascii_lowercase(s.subrange(a, b)));
    assert(trim_quotes(l) == l.subrange(q, qb));
    assert(l.subrange(q, qb) =~= ascii_lowercase(s.subrange(q, qb)));
}

/// Law: normalization ignores ASCII case: a name and its ASCII lowercase
/// normalize alike, so every upper case letter `A`..`Z` lowercases.
pub proof fn normalize_ignores_ascii_case(raw: Seq<char>)
    ensures
        normalize_spec(ascii_lowercase(raw)) == normalize_spec(raw),
{
    lemma_lowercase_trim(raw);
    let t0 = trim_ws(raw);
    lemma_lowercase_trim(t0);
    let t = trim_quotes(t0);
    let lt = trim_quotes(trim_ws(ascii_lowercase(raw)));
    assert(lt == ascii_lowercase(t));
    assert forall|i: int| 0 <= i < t.len() implies lower_domain_char(#[trigger] lt[i]) == lower_domain_char(
        t[i],
    ) by {
        lemma_ascii_lower_char(t[i]);
    }
    assert(all_lowerable(lt) == all_lowerable(t)) by {
        if all_lowerable(t) {
            assert forall|i: int| 0 <= i < lt.len() implies (#[trigger] lower_domain_char(lt[i])) is Some by {
                assert(lower_domain_char(lt[i]) == lower_domain_char(t[i]));
            }
        }
        if all_lowerable(lt) {
            assert forall|i: int| 0 <= i < t.len() implies (#[trigger] lower_domain_char(t[i])) is Some by {
                assert(lower_domain_char(lt[i]) == lower_domain_char(t[i]));
            }
        }
    }
    assert(lower_all(lt) =~= lower_all(t));
}

} // verus!
