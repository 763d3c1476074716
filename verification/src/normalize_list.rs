//! Parses hosts files, plain domain lists and simple Adblock domain rules into
//! the sorted set of normalized domains they block.

use vstd::prelude::*;
use vstd::utf8::*;
use crate::normalize::{is_ws, is_ws_spec, lemma_skip_ws_front, normalize_domain, normalize_spec, skip_ws_front, slice_to_vec, trim_ws, trim_ws_bounds};
use crate::text::{chars_of, string_from_chars, string_from_utf8_lossy};
use crate::trie::{bytes_lt, strictly_increasing, views, sort_keys, dedup_sorted, lemma_strict_no_dup};
use crate::text::bytes_of;

verus! {

/// Whether `s` parses as an IP address (`core::net::IpAddr::from_str`).
pub uninterp spec fn parses_as_ip(s: Seq<char>) -> bool;

/// `IpAddr::from_str` succeeds on `s`.
#[verifier::external_body]
pub(crate) fn is_ip_addr(s: &str) -> (r: bool)
    ensures
        r == parses_as_ip(s@),
{
    s.parse::<core::net::IpAddr>().is_ok()
}

/// First index at or after `i` holding `c`, or the length.
pub open spec fn find_from(s: Seq<char>, c: char, i: int) -> int
    decreases s.len() - i,
{
    if i >= s.len() {
        s.len() as int
    } else if s[i] == c {
        i
    } else {
        find_from(s, c, i + 1)
    }
}

/// First index at or after `i` holding whitespace, or the length.
pub open spec fn ws_from(s: Seq<char>, i: int) -> int
    decreases s.len() - i,
{
    if i >= s.len() {
        s.len() as int
    } else if is_ws_spec(s[i]) {
        i
    } else {
        ws_from(s, i + 1)
    }
}

/// `s` up to (not including) its first `c`.
pub open spec fn before_char(s: Seq<char>, c: char) -> Seq<char> {
    s.subrange(0, find_from(s, c, 0))
}

pub open spec fn starts_with(s: Seq<char>, p: Seq<char>) -> bool {
    p.len() <= s.len() && s.subrange(0, p.len() as int) == p
}

pub open spec fn has_sub(s: Seq<char>, p: Seq<char>) -> bool {
    exists|i: int| 0 <= i && i + p.len() <= s.len() && #[trigger] s.subrange(i, i + p.len()) == p
}

pub open spec fn has_char(s: Seq<char>, c: char) -> bool {
    exists|i: int| 0 <= i < s.len() && s[i] == c
}

/// One past the last character of `s[lo..j]` that is not `c`.
pub open spec fn strip_back(s: Seq<char>, c: char, j: int, lo: int) -> int
    decreases j - lo,
{
    if j > lo && s[j - 1] == c {
        strip_back(s, c, j - 1, lo)
    } else {
        j
    }
}

/// `str::trim_end_matches` with one character.
pub open spec fn trim_end_char(s: Seq<char>, c: char) -> Seq<char> {
    s.subrange(0, strip_back(s, c, s.len() as int, 0))
}

/// The rule text of a line: empty, comment and cosmetic lines give none.
pub open spec fn rule_text(raw: Seq<char>) -> Option<Seq<char>> {
    let line = trim_ws(raw);
    if line.len() == 0 || line[0] == '#' || line[0] == '!' {
        None
    } else if starts_with(line, seq!['@', '@']) || has_sub(line, seq!['#', '#']) || has_sub(
        line,
        seq!['#', '@', '#'],
    ) || has_sub(line, seq!['#', '?', '#']) || has_sub(line, seq!['#', '$', '#']) {
        None
    } else {
        let l2 = trim_ws(before_char(line, '#'));
        if l2.len() == 0 {
            None
        } else {
            Some(l2)
        }
    }
}

/// The host of a rule text: `||host^...` for Adblock rules, the name after the
/// address for hosts lines, the first token otherwise.
pub open spec fn rule_host(l2: Seq<char>) -> Option<Seq<char>> {
    if starts_with(l2, seq!['|', '|']) {
        let rest = l2.subrange(2, l2.len() as int);
        let h1 = before_char(rest, '^');
        let h2 = trim_ws(before_char(h1, '$'));
        if has_char(h2, '/') || has_char(h2, '*') || has_char(h2, '^') {
            None
        } else {
            Some(h2)
        }
    } else {
        let e1 = ws_from(l2, 0);
        let t1 = l2.subrange(0, e1);
        if parses_as_ip(t1) {
            let s2 = skip_ws_front(l2, e1);
            if s2 >= l2.len() {
                None
            } else {
                Some(l2.subrange(s2, ws_from(l2, s2)))
            }
        } else {
            Some(trim_end_char(t1, '^'))
        }
    }
}

/// The domain one line of a list blocks, if any.
pub open spec fn line_domain(raw: Seq<char>) -> Option<Seq<char>> {
    match rule_text(raw) {
        None => None,
        Some(l2) => match rule_host(l2) {
            None => None,
            Some(d) => {
                let d2 = if starts_with(d, seq!['*', '.']) {
                    d.subrange(2, d.len() as int)
                } else {
                    d
                };
                if parses_as_ip(d2) {
                    None
                } else {
                    match normalize_spec(d2) {
                        Some(n) => if has_char(n, '.') {
                            Some(n)
                        } else {
                            None
                        },
                        None => None,
                    }
                }
            },
        },
    }
}

/// `text[a..b]` is a line: it is delimited by newlines or by the ends of the text.
pub open spec fn is_line(text: Seq<char>, a: int, b: int) -> bool {
    &&& 0 <= a <= b <= text.len()
    &&& (a == 0 || text[a - 1] == '\n')
    &&& (b == text.len() || text[b] == '\n')
    &&& forall|k: int| a <= k < b ==> text[k] != '\n'
}

/// The domains a list text blocks, as bytes.
pub open spec fn list_keys(text: Seq<char>) -> Set<Seq<u8>> {
    Set::new(
        |k: Seq<u8>|
            exists|a: int, b: int|
                #[trigger] is_line(text, a, b) && line_domain(text.subrange(a, b)) is Some && k
                    == encode_utf8(line_domain(text.subrange(a, b))->0),
    )
}

proof fn lemma_find_from(s: Seq<char>, c: char, i: int)
    requires
        0 <= i <= s.len(),
    ensures
        i <= find_from(s, c, i) <= s.len(),
        forall|k: int| i <= k < find_from(s, c, i) ==> s[k] != c,
        find_from(s, c, i) < s.len() ==> s[find_from(s, c, i)] == c,
    decreases s.len() - i,
{
    if i < s.len() && s[i] != c {
        lemma_find_from(s, c, i + 1);
    }
}

proof fn lemma_ws_from(s: Seq<char>, i: int)
    requires
        0 <= i <= s.len(),
    ensures
        i <= ws_from(s, i) <= s.len(),
        forall|k: int| i <= k < ws_from(s, i) ==> !is_ws_spec(s[k]),
        ws_from(s, i) < s.len() ==> is_ws_spec(s[ws_from(s, i)]),
    decreases s.len() - i,
{
    if i < s.len() && !is_ws_spec(s[i]) {
        lemma_ws_from(s, i + 1);
    }
}

pub(crate) fn find_char(s: &Vec<char>, c: char, start: usize) -> (r: usize)
    requires
        start <= s@.len(),
    ensures
        r == find_from(s@, c, start as int),
        start <= r <= s@.len(),
{
    proof {
        lemma_find_from(s@, c, start as int);
    }
    let mut i = start;
    while i < s.len() && s[i] != c
        invariant
            start <= i <= s@.len(),
            find_from(s@, c, i as int) == find_from(s@, c, start as int),
        decreases s@.len() - i,
    {
        i = i + 1;
    }
    i
}

fn find_ws(s: &Vec<char>, start: usize) -> (r: usize)
    requires
        start <= s@.len(),
    ensures
        r == ws_from(s@, start as int),
        start <= r <= s@.len(),
{
    proof {
        lemma_ws_from(s@, start as int);
    }
    let mut i = start;
    while i < s.len() && !is_ws(s[i])
        invariant
            start <= i <= s@.len(),
            ws_from(s@, i as int) == ws_from(s@, start as int),
        decreases s@.len() - i,
    {
        i = i + 1;
    }
    i
}

fn skip_ws(s: &Vec<char>, start: usize) -> (r: usize)
    requires
        start <= s@.len(),
    ensures
        r == skip_ws_front(s@, start as int),
        start <= r <= s@.len(),
{
    proof {
        lemma_skip_ws_front(s@, start as int);
    }
    let mut i = start;
    while i < s.len() && is_ws(s[i])
        invariant
            start <= i <= s@.len(),
            skip_ws_front(s@, i as int) == skip_ws_front(s@, start as int),
        decreases s@.len() - i,
    {
        i = i + 1;
    }
    i
}

pub(crate) fn trim_vec(s: &Vec<char>) -> (r: Vec<char>)
    ensures
        r@ == trim_ws(s@),
{
    let (a, b) = trim_ws_bounds(s);
    slice_to_vec(s, a, b)
}

pub(crate) fn starts_with_exec(s: &Vec<char>, p: &[char]) -> (r: bool)
    ensures
        r == starts_with(s@, p@),
{
    if p.len() > s.len() {
        return false;
    }
    let mut i: usize = 0;
    while i < p.len()
        invariant
            p@.len() <= s@.len(),
            i <= p@.len(),
            forall|k: int| 0 <= k < i ==> s@[k] == p@[k],
        decreases p@.len() - i,
    {
        if s[i] != p[i] {
            assert(s@.subrange(0, p@.len() as int)[i as int] != p@[i as int]);
            return false;
        }
        i = i + 1;
    }
    assert(s@.subrange(0, p@.len() as int) =~= p@);
    true
}

fn has_sub_exec(s: &Vec<char>, p: &[char]) -> (r: bool)
    requires
        p@.len() > 0,
    ensures
        r == has_sub(s@, p@),
{
    if p.len() > s.len() {
        return false;
    }
    let last = s.len() - p.len();
    let mut i: usize = 0;
    while i <= last
        invariant
            p@.len() <= s@.len(),
            last == s@.len() - p@.len(),
            i <= last + 1,
            forall|k: int| 0 <= k < i ==> #[trigger] s@.subrange(k, k + p@.len()) != p@,
        decreases last + 1 - i,
    {
        let mut j: usize = 0;
        let mut same = true;
        while j < p.len()
            invariant
                i <= last,
                p@.len() <= s@.len(),
                last == s@.len() - p@.len(),
                j <= p@.len(),
                same == (forall|k: int| 0 <= k < j ==> s@[i + k] == p@[k]),
            decreases p@.len() - j,
        {
            assert(i + j < s.len());
            if s[i + j] != p[j] {
                same = false;
            }
            j = j + 1;
        }
        if same {
            assert(s@.subrange(i as int, i + p@.len()) =~= p@);
            return true;
        } else {
            let ghost k0 = choose|k: int| 0 <= k < p@.len() && s@[i + k] != p@[k];
            assert(s@.subrange(i as int, i + p@.len())[k0] != p@[k0]);
        }
        if i == last {
            assert forall|k: int| 0 <= k && k + p@.len() <= s@.len() implies #[trigger] s@.subrange(
                k,
                k + p@.len(),
            ) != p@ by {
                assert(k <= i);
            }
            return false;
        }
        i = i + 1;
    }
    false
}

fn has_char_exec(s: &Vec<char>, c: char) -> (r: bool)
    ensures
        r == has_char(s@, c),
{
    let mut i: usize = 0;
    while i < s.len()
        invariant
            i <= s@.len(),
            forall|k: int| 0 <= k < i ==> s@[k] != c,
        decreases s@.len() - i,
    {
        if s[i] == c {
            return true;
        }
        i = i + 1;
    }
    false
}

fn trim_end_caret(s: &Vec<char>) -> (r: Vec<char>)
    ensures
        r@ == trim_end_char(s@, '^'),
{
    let mut j = s.len();
    while j > 0 && s[j - 1] == '^'
        invariant
            j <= s@.len(),
            strip_back(s@, '^', j as int, 0) == strip_back(s@, '^', s@.len() as int, 0),
        decreases j,
    {
        j = j - 1;
    }
    slice_to_vec(s, 0, j)
}

fn rule_text_exec(raw: &Vec<char>) -> (r: Option<Vec<char>>)
    ensures
        match r {
            Some(v) => rule_text(raw@) == Some(v@),
            None => rule_text(raw@) is None,
        },
{
    let line = trim_vec(raw);
    if line.len() == 0 || line[0] == '#' || line[0] == '!' {
        return None;
    }
    let at2 = ['@', '@'];
    let h2 = ['#', '#'];
    let h3a = ['#', '@', '#'];
    let h3b = ['#', '?', '#'];
    let h3c = ['#', '$', '#'];
    assert(at2@ =~= seq!['@', '@']);
    assert(h2@ =~= seq!['#', '#']);
    assert(h3a@ =~= seq!['#', '@', '#']);
    assert(h3b@ =~= seq!['#', '?', '#']);
    assert(h3c@ =~= seq!['#', '$', '#']);
    if starts_with_exec(&line, &at2) || has_sub_exec(&line, &h2) || has_sub_exec(&line, &h3a)
        || has_sub_exec(&line, &h3b) || has_sub_exec(&line, &h3c) {
        return None;
    }
    let cut = find_char(&line, '#', 0);
    let before = slice_to_vec(&line, 0, cut);
    let l2 = trim_vec(&before);
    if l2.len() == 0 {
        return None;
    }
    Some(l2)
}

fn rule_host_exec(l2: &Vec<char>) -> (r: Option<Vec<char>>)
    ensures
        match r {
            Some(v) => rule_host(l2@) == Some(v@),
            None => rule_host(l2@) is None,
        },
{
    let bars = ['|', '|'];
    assert(bars@ =~= seq!['|', '|']);
    if starts_with_exec(l2, &bars) {
        let rest = slice_to_vec(l2, 2, l2.len());
        let c1 = find_char(&rest, '^', 0);
        let h1 = slice_to_vec(&rest, 0, c1);
        let c2 = find_char(&h1, '$', 0);
        let h1b = slice_to_vec(&h1, 0, c2);
        let h2 = trim_vec(&h1b);
        if has_char_exec(&h2, '/') || has_char_exec(&h2, '*') || has_char_exec(&h2, '^') {
            None
        } else {
            Some(h2)
        }
    } else {
        let e1 = find_ws(l2, 0);
        let t1 = slice_to_vec(l2, 0, e1);
        let t1s = string_from_chars(t1.as_slice());
        if is_ip_addr(t1s.as_str()) {
            let s2 = skip_ws(l2, e1);
            if s2 >= l2.len() {
                None
            } else {
                let e2 = find_ws(l2, s2);
                Some(slice_to_vec(l2, s2, e2))
            }
        } else {
            Some(trim_end_caret(&t1))
        }
    }
}

/// The domain one line of a list blocks, if any.
pub fn line_domain_exec(raw: &Vec<char>) -> (r: Option<String>)
    ensures
        match r {
            Some(v) => line_domain(raw@) == Some(v@),
            None => line_domain(raw@) is None,
        },
{
    let l2 = match rule_text_exec(raw) {
        None => return None,
        Some(l) => l,
    };
    let d = match rule_host_exec(&l2) {
        None => return None,
        Some(d) => d,
    };
    let star = ['*', '.'];
    assert(star@ =~= seq!['*', '.']);
    let d2 = if starts_with_exec(&d, &star) {
        slice_to_vec(&d, 2, d.len())
    } else {
        d
    };
    let d2s = string_from_chars(d2.as_slice());
    if is_ip_addr(d2s.as_str()) {
        return None;
    }
    match normalize_domain(d2s.as_str()) {
        None => None,
        Some(n) => {
            let nc = chars_of(n.as_str());
            if has_char_exec(&nc, '.') {
                Some(n)
            } else {
                None
            }
        },
    }
}

/// The keys of the lines that end before position `a`.
pub open spec fn keys_before(text: Seq<char>, a: int) -> Set<Seq<u8>> {
    Set::new(
        |k: Seq<u8>|
            exists|a2: int, b2: int|
                #[trigger] is_line(text, a2, b2) && b2 < a && line_domain(text.subrange(a2, b2))
                    is Some && k == encode_utf8(line_domain(text.subrange(a2, b2))->0),
    )
}

/// The key of the line `text[a..b]`, if it has one.
pub open spec fn line_key(text: Seq<char>, a: int, b: int) -> Set<Seq<u8>> {
    match line_domain(text.subrange(a, b)) {
        Some(n) => set![encode_utf8(n)],
        None => Set::empty(),
    }
}

/// A line that ends within the line `text[a..i]` is that line.
proof fn lemma_line_unique(text: Seq<char>, a: int, i: int, a2: int, b2: int)
    requires
        is_line(text, a, i),
        is_line(text, a2, b2),
        a <= b2 <= i,
    ensures
        a2 == a,
        b2 == i,
{
    if a2 < a {
        assert(text[a - 1] == '\n');
        assert(a2 <= a - 1 < b2);
        assert(false);
    }
    if a2 > a {
        assert(text[a2 - 1] == '\n');
        if a2 - 1 < i {
            assert(a <= a2 - 1);
            assert(text[a2 - 1] != '\n');
            assert(false);
        }
    }
    assert(a2 == a);
    if b2 < i {
        assert(text[b2] == '\n');
        assert(false);
    }
    if b2 > i {
        assert(text[i] == '\n');
        assert(a2 <= i < b2);
        assert(false);
    }
}

proof fn lemma_step(text: Seq<char>, a: int, i: int)
    requires
        is_line(text, a, i),
        i < text.len(),
    ensures
        keys_before(text, i + 1) == keys_before(text, a).union(line_key(text, a, i)),
{
    assert forall|k: Seq<u8>| #[trigger] keys_before(text, i + 1).contains(k) implies keys_before(text, a).union(
        line_key(text, a, i),
    ).contains(k) by {
        let (a2, b2) = choose|a2: int, b2: int|
            #[trigger] is_line(text, a2, b2) && b2 < i + 1 && line_domain(text.subrange(a2, b2)) is Some
                && k == encode_utf8(line_domain(text.subrange(a2, b2))->0);
        if b2 >= a {
            lemma_line_unique(text, a, i, a2, b2);
        } else {
            assert(keys_before(text, a).contains(k));
        }
    }
    assert forall|k: Seq<u8>| keys_before(text, a).union(line_key(text, a, i)).contains(k) implies #[trigger] keys_before(
        text,
        i + 1,
    ).contains(k) by {
        if keys_before(text, a).contains(k) {
            let (a2, b2) = choose|a2: int, b2: int|
                #[trigger] is_line(text, a2, b2) && b2 < a && line_domain(text.subrange(a2, b2)) is Some
                    && k == encode_utf8(line_domain(text.subrange(a2, b2))->0);
            assert(is_line(text, a2, b2));
        } else {
            assert(is_line(text, a, i));
        }
    }
    assert(keys_before(text, i + 1) =~= keys_before(text, a).union(line_key(text, a, i)));
}

proof fn lemma_last(text: Seq<char>, a: int)
    requires
        is_line(text, a, text.len() as int),
    ensures
        list_keys(text) == keys_before(text, a).union(line_key(text, a, text.len() as int)),
{
    let n = text.len() as int;
    assert forall|k: Seq<u8>| #[trigger] list_keys(text).contains(k) implies keys_before(text, a).union(
        line_key(text, a, n),
    ).contains(k) by {
        let (a2, b2) = choose|a2: int, b2: int|
            #[trigger] is_line(text, a2, b2) && line_domain(text.subrange(a2, b2)) is Some && k
                == encode_utf8(line_domain(text.subrange(a2, b2))->0);
        if b2 >= a {
            lemma_line_unique(text, a, n, a2, b2);
        } else {
            assert(keys_before(text, a).contains(k));
        }
    }
    assert forall|k: Seq<u8>| keys_before(text, a).union(line_key(text, a, n)).contains(k) implies #[trigger] list_keys(
        text,
    ).contains(k) by {
        if keys_before(text, a).contains(k) {
            let (a2, b2) = choose|a2: int, b2: int|
                #[trigger] is_line(text, a2, b2) && b2 < a && line_domain(text.subrange(a2, b2)) is Some
                    && k == encode_utf8(line_domain(text.subrange(a2, b2))->0);
            assert(is_line(text, a2, b2));
        } else {
            assert(is_line(text, a, n));
        }
    }
    assert(list_keys(text) =~= keys_before(text, a).union(line_key(text, a, n)));
}

/// Adds the key of the line `chars[a..b]` to `keys`.
fn add_line(chars: &Vec<char>, a: usize, b: usize, keys: &mut Vec<Vec<u8>>)
    requires
        a <= b <= chars@.len(),
    ensures
        views(final(keys)@).to_set() == views(old(keys)@).to_set().union(
            line_key(chars@, a as int, b as int),
        ),
        forall|j: int|
            0 <= j < views(final(keys)@).len() ==> #[trigger] valid_utf8(views(final(keys)@)[j])
                || views(old(keys)@).contains(views(final(keys)@)[j]),
{
    let line = slice_to_vec(chars, a, b);
    let ghost before = views(keys@);
    match line_domain_exec(&line) {
        Some(n) => {
            keys.push(bytes_of(n.as_str()));
            proof {
                assert(views(keys@) =~= before.push(encode_utf8(n@)));
                before.lemma_push_to_set_commute(encode_utf8(n@));
                encode_utf8_valid_utf8(n@);
                assert(views(keys@).to_set() =~= before.to_set().union(set![encode_utf8(n@)]));
                assert forall|j: int| 0 <= j < views(keys@).len() implies #[trigger] valid_utf8(
                    views(keys@)[j],
                ) || before.contains(views(keys@)[j]) by {
                    if j < before.len() {
                        assert(views(keys@)[j] == before[j]);
                    }
                }
            }
        },
        None => {
            assert(before.to_set().union(Set::<Seq<u8>>::empty()) =~= before.to_set());
        },
    }
}

/// Parses hosts, plain domain and simple Adblock lists into normalized unique
/// domains, sorted. Single-label names, addresses, comments, cosmetic rules and
/// exceptions yield nothing.
pub fn normalize_list_text(text: &str) -> (r: Vec<String>)
    ensures
        strictly_increasing(r@.map_values(|s: String| encode_utf8(s@))),
        r@.map_values(|s: String| encode_utf8(s@)).to_set() == list_keys(text@),
{
    let chars = chars_of(text);
    let n = chars.len();
    let mut keys: Vec<Vec<u8>> = Vec::new();
    let mut a: usize = 0;
    let mut i: usize = 0;
    while i < n
        invariant
            chars@ == text@,
            n == chars@.len(),
            a <= i <= n,
            a == 0 || chars@[a - 1] == '\n',
            forall|k: int| a <= k < i ==> chars@[k] != '\n',
            views(keys@).to_set() == keys_before(text@, a as int),
            forall|j: int| 0 <= j < views(keys@).len() ==> #[trigger] valid_utf8(views(keys@)[j]),
        decreases n - i,
    {
        if chars[i] == '\n' {
            let ghost prev = views(keys@);
            add_line(&chars, a, i, &mut keys);
            proof {
                lemma_step(text@, a as int, i as int);
                assert forall|j: int| 0 <= j < views(keys@).len() implies #[trigger] valid_utf8(
                    views(keys@)[j],
                ) by {
                    if !valid_utf8(views(keys@)[j]) {
                        assert(prev.contains(views(keys@)[j]));
                        let q = choose|q: int| 0 <= q < prev.len() && prev[q] == views(keys@)[j];
                        assert(valid_utf8(prev[q]));
                    }
                }
            }
            a = i + 1;
        }
        i = i + 1;
    }
    let ghost prev = views(keys@);
    add_line(&chars, a, n, &mut keys);
    proof {
        lemma_last(text@, a as int);
        assert forall|j: int| 0 <= j < views(keys@).len() implies #[trigger] valid_utf8(
            views(keys@)[j],
        ) by {
            if !valid_utf8(views(keys@)[j]) {
                assert(prev.contains(views(keys@)[j]));
                let q = choose|q: int| 0 <= q < prev.len() && prev[q] == views(keys@)[j];
                assert(valid_utf8(prev[q]));
            }
        }
    }
    let ghost unsorted = views(keys@);
    sort_keys(&mut keys);
    proof {
        assert forall|k: Seq<u8>| views(keys@).to_set().contains(k) <==> unsorted.to_set().contains(
            k,
        ) by {
            vstd::seq_lib::to_multiset_contains(views(keys@), k);
            vstd::seq_lib::to_multiset_contains(unsorted, k);
        }
        assert(views(keys@).to_set() =~= unsorted.to_set());
    }
    let uniq = dedup_sorted(&keys);
    let mut out: Vec<String> = Vec::new();
    let mut j: usize = 0;
    while j < uniq.len()
        invariant
            j <= uniq@.len(),
            views(uniq@).to_set() == unsorted.to_set(),
            forall|q: int| 0 <= q < unsorted.len() ==> #[trigger] valid_utf8(unsorted[q]),
            out@.map_values(|s: String| encode_utf8(s@)) == views(uniq@).subrange(0, j as int),
        decreases uniq@.len() - j,
    {
        let ghost k = uniq@[j as int]@;
        proof {
            assert(views(uniq@)[j as int] == k);
            assert(views(uniq@).to_set().contains(k));
            let q = choose|q: int| 0 <= q < unsorted.len() && unsorted[q] == k;
            assert(valid_utf8(unsorted[q]));
            decode_utf8_encode_utf8(k);
        }
        let s = string_from_utf8_lossy(uniq[j].as_slice());
        let ghost prev = out@;
        out.push(s);
        assert(out@.map_values(|s: String| encode_utf8(s@)) =~= prev.map_values(
            |s: String| encode_utf8(s@),
        ).push(k));
        j = j + 1;
        assert(views(uniq@).subrange(0, j as int) =~= views(uniq@).subrange(0, j - 1).push(k));
    }
    assert(views(uniq@).subrange(0, uniq@.len() as int) =~= views(uniq@));
    out
}


/// No character of `s` is whitespace or `#`.
pub open spec fn plain_token(s: Seq<char>) -> bool {
    s.len() > 0 && forall|i: int| 0 <= i < s.len() ==> !is_ws_spec(#[trigger] s[i]) && s[i] != '#'
}

/// A text with no `#` holds none of the patterns that start with `#`.
proof fn lemma_no_hash_sub(line: Seq<char>, p: Seq<char>)
    requires
        p.len() > 0,
        p[0] == '#',
        forall|i: int| 0 <= i < line.len() ==> #[trigger] line[i] != '#',
    ensures
        !has_sub(line, p),
{
    assert forall|i: int| 0 <= i && i + p.len() <= line.len() implies #[trigger] line.subrange(
        i,
        i + p.len(),
    ) != p by {
        assert(line.subrange(i, i + p.len())[0] == line[i]);
    }
}

/// Law: a hosts line, an address and a name separated by any whitespace
/// character (a tab as well as a space), blocks the normalized name, and
/// nothing else.
pub proof fn hosts_lines_block_their_name(ip: Seq<char>, w: char, name: Seq<char>)
    requires
        plain_token(ip),
        parses_as_ip(ip),
        ip[0] != '!' && ip[0] != '@' && ip[0] != '|',
        is_ws_spec(w),
        w != '\n',
        plain_token(name),
        name[0] != '*',
        !parses_as_ip(name),
        normalize_spec(name) matches Some(n) && has_char(n, '.'),
    ensures
        list_keys(ip + seq![w] + name) == set![encode_utf8(normalize_spec(name)->0)],
{
    let line = ip + seq![w] + name;
    let m = ip.len() as int;
    let len = line.len() as int;
    assert(line[0] == ip[0]);
    assert(line[len - 1] == name[name.len() - 1]);
    assert(!is_ws_spec(line[0]));
    assert(skip_ws_front(line, 0) == 0);
    assert(!is_ws_spec(line[len - 1]));
    assert(crate::normalize::skip_ws_back(line, len, 0) == len);
    assert(trim_ws(line) =~= line);
    assert forall|i: int| 0 <= i < line.len() implies #[trigger] line[i] != '#' && line[i] != '\n' by {
        if i < m {
            assert(line[i] == ip[i]);
        } else if i > m {
            assert(line[i] == name[i - m - 1]);
        }
    }
    lemma_no_hash_sub(line, seq!['#', '#']);
    lemma_no_hash_sub(line, seq!['#', '@', '#']);
    lemma_no_hash_sub(line, seq!['#', '?', '#']);
    lemma_no_hash_sub(line, seq!['#', '$', '#']);
    assert(!starts_with(line, seq!['@', '@'])) by {
        if starts_with(line, seq!['@', '@']) {
            assert(line.subrange(0, 2)[0] == line[0]);
        }
    }
    lemma_find_from(line, '#', 0);
    assert(find_from(line, '#', 0) == len);
    assert(before_char(line, '#') =~= line);
    assert(rule_text(line) == Some(line));
    assert(!starts_with(line, seq!['|', '|'])) by {
        if starts_with(line, seq!['|', '|']) {
            assert(line.subrange(0, 2)[0] == line[0]);
        }
    }
    lemma_ws_from(line, 0);
    assert forall|k: int| 0 <= k < m implies !is_ws_spec(#[trigger] line[k]) by {
        assert(line[k] == ip[k]);
    }
    assert(line[m] == w);
    assert(ws_from(line, 0) == m);
    assert(line.subrange(0, m) =~= ip);
    assert(skip_ws_front(line, m) == m + 1) by {
        assert(line[m + 1] == name[0]);
        assert(skip_ws_front(line, m + 1) == m + 1);
    }
    lemma_ws_from(line, m + 1);
    assert forall|k: int| m + 1 <= k < len implies !is_ws_spec(#[trigger] line[k]) by {
        assert(line[k] == name[k - m - 1]);
    }
    assert(ws_from(line, m + 1) == len);
    assert(line.subrange(m + 1, len) =~= name);
    assert(rule_host(line) == Some(name));
    assert(!starts_with(name, seq!['*', '.'])) by {
        if starts_with(name, seq!['*', '.']) {
            assert(name.subrange(0, 2)[0] == name[0]);
        }
    }
    let n = normalize_spec(name)->0;
    assert(line_domain(line) == Some(n));
    assert(line.subrange(0, len) =~= line);
    assert(is_line(line, 0, len));
    assert forall|k: Seq<u8>| list_keys(line).contains(k) <==> k == encode_utf8(n) by {
        if list_keys(line).contains(k) {
            let (a, b) = choose|a: int, b: int|
                #[trigger] is_line(line, a, b) && line_domain(line.subrange(a, b)) is Some && k
                    == encode_utf8(line_domain(line.subrange(a, b))->0);
            if a > 0 {
                assert(line[a - 1] != '\n');
            }
            if b < len {
                assert(line[b] != '\n');
            }
        }
        if k == encode_utf8(n) {
            assert(is_line(line, 0, len));
        }
    }
    assert(list_keys(line) =~= set![encode_utf8(n)]);
}

} // verus!
