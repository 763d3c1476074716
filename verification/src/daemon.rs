//! The daemon's start-up decisions: which addresses it listens on, and which
//! names it always allows.

use vstd::prelude::*;
use vstd::utf8::*;
use crate::config::{strs, Config, ConfigView};
use crate::normalize::{normalize_spec, slice_to_vec, trim_ws};
use crate::normalize_list::{before_char, find_char, starts_with, starts_with_exec, trim_vec};
use crate::text::{chars_of, string_from_chars};
use crate::trie::{normalized_keys, Allowlist};

verus! {

/// The index of the last `c` in `s`, or -1.
pub open spec fn last_index(s: Seq<char>, c: char) -> int
    decreases s.len(),
{
    if s.len() == 0 {
        -1
    } else if s.last() == c {
        s.len() - 1
    } else {
        last_index(s.drop_last(), c)
    }
}

/// Where the last `c` is, and that none follows it.
pub proof fn lemma_last_index(s: Seq<char>, c: char)
    ensures
        -1 <= last_index(s, c) < s.len(),
        last_index(s, c) >= 0 ==> s[last_index(s, c)] == c,
        forall|k: int| last_index(s, c) < k < s.len() ==> s[k] != c,
    decreases s.len(),
{
    if s.len() > 0 && s.last() != c {
        lemma_last_index(s.drop_last(), c);
        assert forall|k: int| last_index(s, c) < k < s.len() implies s[k] != c by {
            if k < s.len() - 1 {
                assert(s.drop_last()[k] == s[k]);
            }
        }
    }
}

/// What follows the last `c` in `s`, or all of `s`.
pub open spec fn after_last(s: Seq<char>, c: char) -> Seq<char> {
    s.subrange(last_index(s, c) + 1, s.len() as int)
}

/// The host of an `http(s)://` URL: no path, no user info, no port, trimmed.
pub open spec fn url_host(url: Seq<char>) -> Option<Seq<char>> {
    let rest = if starts_with(url, "https://"@) {
        Some(url.subrange(8, url.len() as int))
    } else if starts_with(url, "http://"@) {
        Some(url.subrange(7, url.len() as int))
    } else {
        None
    };
    match rest {
        None => None,
        Some(r) => {
            let h = trim_ws(before_char(after_last(before_char(r, '/'), '@'), ':'));
            if h.len() == 0 {
                None
            } else {
                Some(h)
            }
        },
    }
}

/// The host of a list URL.
pub fn host_from_url(url: &str) -> (r: Option<String>)
    ensures
        match url_host(url@) {
            Some(h) => r matches Some(s) && s@ == h,
            None => r is None,
        },
{
    let c = chars_of(url);
    let https = ['h', 't', 't', 'p', 's', ':', '/', '/'];
    let http = ['h', 't', 't', 'p', ':', '/', '/'];
    proof {
        reveal_strlit("https://");
        reveal_strlit("http://");
    }
    assert(https@ =~= "https://"@);
    assert(http@ =~= "http://"@);
    let rest = if starts_with_exec(&c, &https) {
        slice_to_vec(&c, 8, c.len())
    } else if starts_with_exec(&c, &http) {
        slice_to_vec(&c, 7, c.len())
    } else {
        return None;
    };
    let cut = find_char(&rest, '/', 0);
    let h1 = slice_to_vec(&rest, 0, cut);
    proof {
        lemma_last_index(h1@, '@');
    }
    let mut j = h1.len();
    while j > 0 && h1[j - 1] != '@'
        invariant
            j <= h1@.len(),
            forall|k: int| j <= k < h1@.len() ==> h1@[k] != '@',
            last_index(h1@, '@') < j,
            -1 <= last_index(h1@, '@') < h1@.len(),
            last_index(h1@, '@') >= 0 ==> h1@[last_index(h1@, '@')] == '@',
            forall|k: int| last_index(h1@, '@') < k < h1@.len() ==> h1@[k] != '@',
        decreases j,
    {
        j = j - 1;
    }
    assert(j == last_index(h1@, '@') + 1);
    let h2 = slice_to_vec(&h1, j, h1.len());
    let colon = find_char(&h2, ':', 0);
    let h3 = slice_to_vec(&h2, 0, colon);
    let h = trim_vec(&h3);
    if h.len() == 0 {
        None
    } else {
        Some(string_from_chars(h.as_slice()))
    }
}

/// The names the lists' own hosts contribute to the allowlist, so that an
/// update never blocks its own downloads.
pub open spec fn host_keys(urls: Seq<Seq<char>>) -> Set<Seq<u8>> {
    Set::new(
        |k: Seq<u8>|
            exists|i: int|
                0 <= i < urls.len() && #[trigger] url_host(urls[i]) is Some && normalize_spec(
                    url_host(urls[i])->0,
                ) is Some && k == encode_utf8(normalize_spec(url_host(urls[i])->0)->0),
    )
}

/// The start-up allowlist: the configured domains and the host of every list URL.
pub fn startup_allowlist(config: &Config) -> (r: Allowlist)
    ensures
        r.wf(),
        r.keys() == normalized_keys(config.allowlist.domains@).union(host_keys(strs(config.lists.urls@))),
{
    let mut allow = Allowlist::from_domains(config.allowlist.domains.as_slice());
    let ghost base = normalized_keys(config.allowlist.domains@);
    let ghost uv = strs(config.lists.urls@);
    let mut i: usize = 0;
    while i < config.lists.urls.len()
        invariant
            allow.wf(),
            uv == strs(config.lists.urls@),
            base == normalized_keys(config.allowlist.domains@),
            i <= config.lists.urls@.len(),
            allow.keys() == base.union(host_keys(uv.subrange(0, i as int))),
        decreases config.lists.urls@.len() - i,
    {
        let ghost before = allow.keys();
        let ghost sub = uv.subrange(0, i as int);
        let ghost sub1 = uv.subrange(0, i + 1);
        assert(sub1[i as int] == config.lists.urls@[i as int]@);
        match host_from_url(config.lists.urls[i].as_str()) {
            Some(host) => {
                allow.insert(host.as_str());
            },
            None => {},
        }
        proof {
            assert forall|k: Seq<u8>| #[trigger] host_keys(sub1).contains(k) == (host_keys(sub).contains(k)
                || (url_host(sub1[i as int]) is Some && normalize_spec(url_host(sub1[i as int])->0) is Some
                && k == encode_utf8(normalize_spec(url_host(sub1[i as int])->0)->0))) by {
                if host_keys(sub1).contains(k) {
                    let q = choose|q: int|
                        0 <= q < sub1.len() && #[trigger] url_host(sub1[q]) is Some && normalize_spec(
                            url_host(sub1[q])->0,
                        ) is Some && k == encode_utf8(normalize_spec(url_host(sub1[q])->0)->0);
                    if q < i {
                        assert(sub[q] == sub1[q]);
                        assert(url_host(sub[q]) is Some);
                    }
                }
                if host_keys(sub).contains(k) {
                    let q = choose|q: int|
                        0 <= q < sub.len() && #[trigger] url_host(sub[q]) is Some && normalize_spec(
                            url_host(sub[q])->0,
                        ) is Some && k == encode_utf8(normalize_spec(url_host(sub[q])->0)->0);
                    assert(sub1[q] == sub[q]);
                    assert(url_host(sub1[q]) is Some);
                }
                if url_host(sub1[i as int]) is Some && normalize_spec(url_host(sub1[i as int])->0) is Some
                    && k == encode_utf8(normalize_spec(url_host(sub1[i as int])->0)->0) {
                    assert(url_host(sub1[i as int]) is Some);
                }
            }
            assert(allow.keys() =~= base.union(host_keys(sub1)));
        }
        i = i + 1;
    }
    assert(uv.subrange(0, config.lists.urls@.len() as int) =~= uv);
    allow
}

/// The items of a comma-separated list, each trimmed, empty ones dropped.
pub open spec fn comma_items(s: Seq<char>) -> Seq<Seq<char>>
    decreases s.len(),
{
    let i = last_index(s, ',');
    let head = if i < 0 {
        Seq::empty()
    } else {
        proof {
            lemma_last_index(s, ',');
        }
        comma_items(s.subrange(0, i))
    };
    let t = trim_ws(s.subrange(i + 1, s.len() as int));
    if t.len() > 0 {
        head.push(t)
    } else {
        head
    }
}

proof fn lemma_comma_items_step(s: Seq<char>, a: int, i: int)
    requires
        0 <= a <= i <= s.len(),
        a > 0 ==> s[a - 1] == ',',
        forall|k: int| a <= k < i ==> s[k] != ',',
    ensures
        comma_items(s.subrange(0, i)) == ({
            let head = if a == 0 {
                Seq::empty()
            } else {
                comma_items(s.subrange(0, a - 1))
            };
            let t = trim_ws(s.subrange(a, i));
            if t.len() > 0 {
                head.push(t)
            } else {
                head
            }
        }),
{
    let p = s.subrange(0, i);
    lemma_last_index(p, ',');
    let li = last_index(p, ',');
    if a > 0 {
        assert(p[a - 1] == ',');
        assert(li >= a - 1);
        if li > a - 1 {
            assert(p[li] == s[li]);
        }
        assert(li == a - 1);
        assert(p.subrange(0, li) =~= s.subrange(0, a - 1));
    } else {
        if li >= 0 {
            assert(p[li] == s[li]);
        }
        assert(li == -1);
    }
    assert(p.subrange(li + 1, p.len() as int) =~= s.subrange(a, i));
}

/// The listen addresses given as a comma-separated override.
pub fn listen_items(s: &str) -> (r: Vec<String>)
    ensures
        strs(r@) == comma_items(s@),
{
    let c = chars_of(s);
    let n = c.len();
    let mut out: Vec<String> = Vec::new();
    let mut a: usize = 0;
    let mut i: usize = 0;
    while i < n
        invariant
            c@ == s@,
            n == c@.len(),
            a <= i <= n,
            a > 0 ==> c@[a - 1] == ',',
            forall|k: int| a <= k < i ==> c@[k] != ',',
            strs(out@) == (if a == 0 {
                Seq::<Seq<char>>::empty()
            } else {
                comma_items(c@.subrange(0, a - 1))
            }),
        decreases n - i,
    {
        if c[i] == ',' {
            let seg = slice_to_vec(&c, a, i);
            let t = trim_vec(&seg);
            proof {
                lemma_comma_items_step(c@, a as int, i as int);
            }
            if t.len() > 0 {
                let ghost prev = strs(out@);
                out.push(string_from_chars(t.as_slice()));
                assert(strs(out@) =~= prev.push(t@));
            }
            a = i + 1;
            assert(c@.subrange(0, a - 1) =~= c@.subrange(0, i as int));
        }
        i = i + 1;
    }
    let seg = slice_to_vec(&c, a, n);
    let t = trim_vec(&seg);
    proof {
        lemma_comma_items_step(c@, a as int, n as int);
        assert(c@.subrange(0, n as int) =~= c@);
    }
    if t.len() > 0 {
        let ghost prev = strs(out@);
        out.push(string_from_chars(t.as_slice()));
        assert(strs(out@) =~= prev.push(t@));
    }
    out
}

/// The default dev ports: a single listener on one of them is moved to port
/// 53 when the daemon runs privileged.
pub open spec fn dev_port_listen(listen: Seq<Seq<char>>) -> bool {
    listen.len() == 1 && (crate::normalize::ends_with(listen[0], ":5353"@)
        || crate::normalize::ends_with(listen[0], ":53553"@))
}

/// The configuration the daemon starts with: a privileged daemon without a
/// listen override moves a lone dev-port listener to port 53; an override
/// (comma-separated) replaces the listeners.
pub fn startup_config(config: Config, dev: bool, listen_override: Option<String>) -> (r: Config)
    ensures
        ({
            let c1 = if !dev && listen_override is None && dev_port_listen(config@.listen) {
                ConfigView { listen: seq!["127.0.0.1:53"@, "[::1]:53"@], ..config@ }
            } else {
                config@
            };
            r@ == match listen_override {
                Some(l) => ConfigView { listen: comma_items(l@), ..c1 },
                None => c1,
            }
        }),
{
    let mut cfg = config;
    if !dev && listen_override.is_none() && cfg.daemon.listen.len() == 1 {
        let first = chars_of(cfg.daemon.listen[0].as_str());
        let p1 = [':', '5', '3', '5', '3'];
        let p2 = [':', '5', '3', '5', '5', '3'];
        proof {
            reveal_strlit(":5353");
            reveal_strlit(":53553");
        }
        assert(p1@ =~= ":5353"@);
        assert(p2@ =~= ":53553"@);
        assert(strs(cfg.daemon.listen@)[0] == cfg.daemon.listen@[0]@);
        if crate::normalize::chars_end_with(first.as_slice(), &p1)
            || crate::normalize::chars_end_with(first.as_slice(), &p2) {
            cfg = cfg.with_privileged_listen();
        }
    }
    match listen_override {
        Some(l) => {
            cfg.daemon.listen = listen_items(l.as_str());
            cfg
        },
        None => cfg,
    }
}

} // verus!
