//! DNS answer cache: an LRU of wire-format messages, bounded both by entry count
//! and by the total number of cached message bytes.

use vstd::prelude::*;

verus! {

/// Hard ceiling on cached message bytes. The entry count alone does not bound
/// memory: a cache full of answers near the 4 KB UDP ceiling would be far over
/// the idle memory budget.
pub const MAX_BYTES: usize = 4 * 1024 * 1024;

/// What a cached answer is stored under.
#[derive(Clone, Debug, PartialEq, Eq, Hash)]
pub struct CacheKey {
    pub name: String,
    pub qtype: u16,
    pub qclass: u16,
    /// A DO=1 client populates a signed answer; serving it to a DO=0 client
    /// hands it records it never asked for.
    pub dnssec_ok: bool,
}

/// The key as the LRU holds it.
pub type LruKey = (String, u16, u16, bool);

/// The value of a key: what two keys must agree on to be the same key.
pub type KeyView = (Seq<char>, u16, u16, bool);

pub open spec fn key_view(k: LruKey) -> KeyView {
    (k.0@, k.1, k.2, k.3)
}

impl CacheKey {
    pub open spec fn view_key(&self) -> KeyView {
        (self.name@, self.qtype, self.qclass, self.dnssec_ok)
    }
}

/// One cached answer.
pub struct CacheEntry {
    pub inserted: std::time::Instant,
    /// TTL when stored (seconds).
    pub ttl_secs: u32,
    /// Wire-format DNS message, stored with id 0; callers rewrite the id.
    pub message: Vec<u8>,
    pub is_nxdomain: bool,
}

#[verifier::external_type_specification]
#[verifier::external_body]
pub struct ExInstant(std::time::Instant);

#[verifier::external_type_specification]
#[verifier::external_body]
#[verifier::reject_recursive_types(K)]
#[verifier::reject_recursive_types(V)]
#[verifier::reject_recursive_types(S)]
pub struct ExLruCache<K, V, S>(lru::LruCache<K, V, S>);

#[verifier::external_type_specification]
#[verifier::external_body]
pub struct ExLruHasher(lru::DefaultHasher);

/// The entries of an LRU cache, least recently used first.
pub uninterp spec fn lru_entries(c: lru::LruCache<LruKey, CacheEntry>) -> Seq<(KeyView, CacheEntry)>;

/// The capacity an LRU cache was made with.
pub uninterp spec fn lru_cap(c: lru::LruCache<LruKey, CacheEntry>) -> nat;

pub open spec fn keys_unique(s: Seq<(KeyView, CacheEntry)>) -> bool {
    forall|i: int, j: int| 0 <= i < s.len() && 0 <= j < s.len() && i != j ==> s[i].0 != s[j].0
}

pub open spec fn has_key(s: Seq<(KeyView, CacheEntry)>, k: KeyView) -> bool {
    exists|j: int| 0 <= j < s.len() && #[trigger] s[j].0 == k
}

pub open spec fn key_pos(s: Seq<(KeyView, CacheEntry)>, k: KeyView) -> int {
    choose|j: int| 0 <= j < s.len() && #[trigger] s[j].0 == k
}

pub open spec fn lru_ok(c: lru::LruCache<LruKey, CacheEntry>) -> bool {
    &&& keys_unique(lru_entries(c))
    &&& lru_entries(c).len() <= lru_cap(c)
    &&& lru_cap(c) > 0
}

/// What `LruCache::push` makes of the entries `s`.
pub open spec fn lru_pushed(s: Seq<(KeyView, CacheEntry)>, cap: nat, k: KeyView, v: CacheEntry) -> Seq<
    (KeyView, CacheEntry),
> {
    if has_key(s, k) {
        s.remove(key_pos(s, k)).push((k, v))
    } else if s.len() == cap {
        s.drop_first().push((k, v))
    } else {
        s.push((k, v))
    }
}

/// `lru::LruCache::new`: an empty cache holding at most `cap` entries.
#[verifier::external_body]
fn lru_new(cap: usize) -> (r: lru::LruCache<LruKey, CacheEntry>)
    requires
        cap > 0,
    ensures
        lru_entries(r) == Seq::<(KeyView, CacheEntry)>::empty(),
        lru_cap(r) == cap,
{
    lru::LruCache::new(std::num::NonZeroUsize::new(cap).unwrap())
}

/// `lru::LruCache::push`: a present key has its value replaced and becomes the
/// most recent entry, and the old value comes back with the given key; a new key
/// in a full cache evicts the least recent entry, which comes back.
#[verifier::external_body]
fn lru_push(c: &mut lru::LruCache<LruKey, CacheEntry>, k: LruKey, v: CacheEntry) -> (r: Option<
    (LruKey, CacheEntry),
>)
    requires
        lru_ok(*old(c)),
    ensures
        lru_ok(*final(c)),
        lru_cap(*final(c)) == lru_cap(*old(c)),
        lru_entries(*final(c)) == lru_pushed(
            lru_entries(*old(c)),
            lru_cap(*old(c)),
            key_view(k),
            v,
        ),
        has_key(lru_entries(*old(c)), key_view(k)) ==> r == Some(
            (k, lru_entries(*old(c))[key_pos(lru_entries(*old(c)), key_view(k))].1),
        ),
        !has_key(lru_entries(*old(c)), key_view(k)) && lru_entries(*old(c)).len() == lru_cap(
            *old(c),
        ) ==> (r matches Some(e) && key_view(e.0) == lru_entries(*old(c))[0].0 && e.1
            == lru_entries(*old(c))[0].1),
        !has_key(lru_entries(*old(c)), key_view(k)) && lru_entries(*old(c)).len() < lru_cap(
            *old(c),
        ) ==> r is None,
{
    c.push(k, v)
}

/// `lru::LruCache::get`, with the value cloned: a present key becomes the most
/// recent entry. The clone keeps every field (the message by its bytes).
#[verifier::external_body]
fn lru_get(c: &mut lru::LruCache<LruKey, CacheEntry>, k: &LruKey) -> (r: Option<CacheEntry>)
    requires
        lru_ok(*old(c)),
    ensures
        lru_ok(*final(c)),
        lru_cap(*final(c)) == lru_cap(*old(c)),
        ({
            let s = lru_entries(*old(c));
            if has_key(s, key_view(*k)) {
                let j = key_pos(s, key_view(*k));
                &&& lru_entries(*final(c)) == s.remove(j).push(s[j])
                &&& r matches Some(e) && e.inserted == s[j].1.inserted && e.ttl_secs == s[j].1.ttl_secs
                    && e.message@ == s[j].1.message@ && e.is_nxdomain == s[j].1.is_nxdomain
            } else {
                lru_entries(*final(c)) == s && r is None
            }
        }),
{
    c.get(k).map(
        |e|
            CacheEntry {
                inserted: e.inserted,
                ttl_secs: e.ttl_secs,
                message: e.message.clone(),
                is_nxdomain: e.is_nxdomain,
            },
    )
}

/// `lru::LruCache::peek`, keeping the entry's insertion instant: the order of
/// the entries does not change.
#[verifier::external_body]
fn lru_peek_inserted(c: &lru::LruCache<LruKey, CacheEntry>, k: &LruKey) -> (r: Option<std::time::Instant>)
    ensures
        ({
            let s = lru_entries(*c);
            if has_key(s, key_view(*k)) {
                r == Some(s[key_pos(s, key_view(*k))].1.inserted)
            } else {
                r is None
            }
        }),
{
    c.peek(k).map(|e| e.inserted)
}

/// `lru::LruCache::pop`: removes a present key and hands back its value.
#[verifier::external_body]
fn lru_pop(c: &mut lru::LruCache<LruKey, CacheEntry>, k: &LruKey) -> (r: Option<CacheEntry>)
    requires
        lru_ok(*old(c)),
    ensures
        lru_ok(*final(c)),
        lru_cap(*final(c)) == lru_cap(*old(c)),
        ({
            let s = lru_entries(*old(c));
            if has_key(s, key_view(*k)) {
                let j = key_pos(s, key_view(*k));
                lru_entries(*final(c)) == s.remove(j) && r == Some(s[j].1)
            } else {
                lru_entries(*final(c)) == s && r is None
            }
        }),
{
    c.pop(k)
}

/// `lru::LruCache::pop_lru`: removes and hands back the least recent entry.
#[verifier::external_body]
fn lru_pop_lru(c: &mut lru::LruCache<LruKey, CacheEntry>) -> (r: Option<(LruKey, CacheEntry)>)
    requires
        lru_ok(*old(c)),
    ensures
        lru_ok(*final(c)),
        lru_cap(*final(c)) == lru_cap(*old(c)),
        ({
            let s = lru_entries(*old(c));
            if s.len() > 0 {
                &&& lru_entries(*final(c)) == s.drop_first()
                &&& r matches Some(e) && key_view(e.0) == s[0].0 && e.1 == s[0].1
            } else {
                lru_entries(*final(c)) == s && r is None
            }
        }),
{
    c.pop_lru()
}

/// `lru::LruCache::clear`: removes every entry.
#[verifier::external_body]
fn lru_clear(c: &mut lru::LruCache<LruKey, CacheEntry>)
    requires
        lru_ok(*old(c)),
    ensures
        lru_ok(*final(c)),
        lru_cap(*final(c)) == lru_cap(*old(c)),
        lru_entries(*final(c)) == Seq::<(KeyView, CacheEntry)>::empty(),
{
    c.clear()
}

/// `Instant::now`.
#[verifier::external_body]
fn instant_now() -> std::time::Instant {
    std::time::Instant::now()
}

/// Whole seconds elapsed since `i` (`Instant::elapsed`); nothing is promised of
/// the value, which depends on the clock.
#[verifier::external_body]
fn elapsed_secs(i: &std::time::Instant) -> u64 {
    i.elapsed().as_secs()
}

/// Big-endian 16-bit value of the two bytes at `i`.
pub open spec fn be16(b: Seq<u8>, i: int) -> int {
    b[i] as int * 256 + b[i + 1] as int
}

/// Position after the (possibly compressed) name that starts at `i`, or `None`
/// when the name runs off the end of `buf`.
pub open spec fn skip_name_spec(buf: Seq<u8>, i: int) -> Option<int>
    decreases buf.len() - i,
{
    if i < 0 || i >= buf.len() {
        None
    } else {
        let len = buf[i];
        if len == 0 {
            Some(i + 1)
        } else if len & 0xC0 == 0xC0 {
            if i + 1 >= buf.len() {
                None
            } else {
                Some(i + 2)
            }
        } else if i + 1 + len > buf.len() {
            None
        } else {
            skip_name_spec(buf, i + 1 + len)
        }
    }
}

/// Position after `n` questions that start at `i`, or `None` when they do not fit.
pub open spec fn skip_questions_spec(buf: Seq<u8>, i: int, n: nat) -> Option<int>
    decreases n,
{
    if n == 0 {
        Some(i)
    } else {
        match skip_name_spec(buf, i) {
            None => None,
            Some(j) => if j + 4 > buf.len() {
                None
            } else {
                skip_questions_spec(buf, j + 4, (n - 1) as nat)
            },
        }
    }
}

/// `buf` with the four TTL bytes at `p` set to `remaining`, big-endian.
pub open spec fn write_ttl(buf: Seq<u8>, p: int, remaining: u32) -> Seq<u8> {
    buf.update(p, (remaining >> 24u32) as u8).update(p + 1, (remaining >> 16u32) as u8).update(
        p + 2,
        (remaining >> 8u32) as u8,
    ).update(p + 3, remaining as u8)
}

/// Walks `n` resource records from `i`, setting the TTL of each that is not an
/// OPT pseudo-record (type 41) to `remaining`; stops at the first record that
/// does not fit, keeping what was already rewritten.
pub open spec fn rewrite_rrs_spec(buf: Seq<u8>, i: int, n: nat, remaining: u32) -> Seq<u8>
    decreases n,
{
    if n == 0 {
        buf
    } else {
        match skip_name_spec(buf, i) {
            None => buf,
            Some(j) => if j + 10 > buf.len() {
                buf
            } else {
                let b2 = if be16(buf, j) != 41 {
                    write_ttl(buf, j + 4, remaining)
                } else {
                    buf
                };
                let k = j + 10 + be16(buf, j + 8);
                if k > buf.len() {
                    b2
                } else {
                    rewrite_rrs_spec(b2, k, (n - 1) as nat, remaining)
                }
            },
        }
    }
}

/// The message `msg` with the TTL of every answer, authority and additional
/// record set to `remaining`, OPT records left alone.
pub open spec fn adjust_ttls_spec(msg: Seq<u8>, remaining: u32) -> Seq<u8> {
    if msg.len() < 12 {
        msg
    } else {
        match skip_questions_spec(msg, 12, be16(msg, 4) as nat) {
            None => msg,
            Some(i) => rewrite_rrs_spec(
                msg,
                i,
                (be16(msg, 6) + be16(msg, 8) + be16(msg, 10)) as nat,
                remaining,
            ),
        }
    }
}

fn be16_at(b: &Vec<u8>, i: usize) -> (r: usize)
    requires
        i + 1 < b@.len(),
    ensures
        r == be16(b@, i as int),
        r <= 65535,
{
    assert(i + 1 < b.len());
    (b[i] as usize) * 256 + (b[i + 1] as usize)
}

/// Position after the name that starts at `i`, as `skip_name_spec`.
fn skip_name(buf: &Vec<u8>, start: usize) -> (r: Option<usize>)
    ensures
        r matches Some(j) ==> skip_name_spec(buf@, start as int) == Some(j as int),
        r is None ==> skip_name_spec(buf@, start as int) is None,
        r matches Some(j) ==> j <= buf@.len(),
{
    let mut i = start;
    loop
        invariant
            skip_name_spec(buf@, i as int) == skip_name_spec(buf@, start as int),
        decreases buf@.len() - i,
    {
        if i >= buf.len() {
            return None;
        }
        let len = buf[i];
        if len == 0 {
            return Some(i + 1);
        }
        if len & 0xC0 == 0xC0 {
            if i + 1 >= buf.len() {
                return None;
            }
            return Some(i + 2);
        }
        if (len as usize) >= buf.len() - i {
            return None;
        }
        i = i + 1 + len as usize;
    }
}

pub(crate) fn copy_bytes(msg: &[u8]) -> (r: Vec<u8>)
    ensures
        r@ == msg@,
{
    let mut out: Vec<u8> = Vec::new();
    let mut i: usize = 0;
    while i < msg.len()
        invariant
            i <= msg@.len(),
            out@ == msg@.subrange(0, i as int),
        decreases msg@.len() - i,
    {
        out.push(msg[i]);
        i = i + 1;
        assert(out@ =~= msg@.subrange(0, i as int));
    }
    assert(msg@.subrange(0, msg@.len() as int) =~= msg@);
    out
}

/// Best-effort: rewrite answer/authority/additional TTLs to `remaining`,
/// leaving EDNS OPT records (whose "TTL" field holds flags) untouched.
pub fn adjust_ttls(msg: &[u8], remaining: u32) -> (r: Vec<u8>)
    ensures
        r@ == adjust_ttls_spec(msg@, remaining),
{
    let mut out = copy_bytes(msg);
    if out.len() < 12 {
        return out;
    }
    let qdcount = be16_at(&out, 4);
    let ancount = be16_at(&out, 6);
    let nscount = be16_at(&out, 8);
    let arcount = be16_at(&out, 10);
    let ghost m = msg@;
    let mut i: usize = 12;
    let mut q: usize = 0;
    while q < qdcount
        invariant
            out@ == m,
            m == msg@,
            m.len() >= 12,
            qdcount == be16(m, 4),
            q <= qdcount,
            i <= m.len(),
            skip_questions_spec(m, 12, qdcount as nat) == skip_questions_spec(
                m,
                i as int,
                (qdcount - q) as nat,
            ),
        decreases qdcount - q,
    {
        match skip_name(&out, i) {
            None => {
                assert(skip_questions_spec(m, i as int, (qdcount - q) as nat) is None);
                assert(adjust_ttls_spec(m, remaining) == m);
                return out;
            },
            Some(j) => {
                if j > out.len() - 4 {
                    assert(skip_questions_spec(m, i as int, (qdcount - q) as nat) is None);
                    assert(adjust_ttls_spec(m, remaining) == m);
                    return out;
                }
                assert(skip_questions_spec(m, i as int, (qdcount - q) as nat)
                    == skip_questions_spec(m, j + 4, (qdcount - (q + 1)) as nat));
                i = j + 4;
            },
        }
        q = q + 1;
    }
    let total_rr = ancount + nscount + arcount;
    assert(skip_questions_spec(m, 12, qdcount as nat) == Some(i as int));
    assert(adjust_ttls_spec(m, remaining) == rewrite_rrs_spec(m, i as int, total_rr as nat, remaining));
    let mut n: usize = 0;
    while n < total_rr
        invariant
            m.len() >= 12,
            m == msg@,
            out@.len() == m.len(),
            n <= total_rr,
            i <= out@.len(),
            adjust_ttls_spec(m, remaining) == rewrite_rrs_spec(
                out@,
                i as int,
                (total_rr - n) as nat,
                remaining,
            ),
        decreases total_rr - n,
    {
        let ghost before = out@;
        let j = match skip_name(&out, i) {
            None => {
                assert(rewrite_rrs_spec(before, i as int, (total_rr - n) as nat, remaining) == before);
                return out;
            },
            Some(j) => j,
        };
        if out.len() - j < 10 {
            assert(rewrite_rrs_spec(before, i as int, (total_rr - n) as nat, remaining) == before);
            return out;
        }
        let rtype = be16_at(&out, j);
        if rtype != 41 {
            out.set(j + 4, (remaining >> 24u32) as u8);
            out.set(j + 5, (remaining >> 16u32) as u8);
            out.set(j + 6, (remaining >> 8u32) as u8);
            out.set(j + 7, remaining as u8);
            assert(out@ =~= write_ttl(before, j + 4, remaining));
        }
        let rdlen = be16_at(&out, j + 8);
        assert(rdlen == be16(before, j + 8));
        assert(rtype == be16(before, j as int));
        if rdlen > out.len() - j - 10 {
            assert(rewrite_rrs_spec(before, i as int, (total_rr - n) as nat, remaining) == out@);
            return out;
        }
        assert(rewrite_rrs_spec(before, i as int, (total_rr - n) as nat, remaining)
            == rewrite_rrs_spec(out@, j + 10 + rdlen, (total_rr - (n + 1)) as nat, remaining));
        i = j + 10 + rdlen;
        n = n + 1;
    }
    out
}

/// Total message bytes held by the entries `s`.
pub open spec fn total_bytes(s: Seq<(KeyView, CacheEntry)>) -> nat
    decreases s.len(),
{
    if s.len() == 0 {
        0
    } else {
        s[0].1.message@.len() + total_bytes(s.drop_first())
    }
}

/// Drops least recent entries while the total exceeds `MAX_BYTES`.
pub open spec fn trim_to_budget(s: Seq<(KeyView, CacheEntry)>) -> Seq<(KeyView, CacheEntry)>
    decreases s.len(),
{
    if s.len() > 0 && total_bytes(s) > MAX_BYTES {
        trim_to_budget(s.drop_first())
    } else {
        s
    }
}

/// How long an entry may be served, in seconds.
pub open spec fn max_age(ttl_secs: u32, is_nxdomain: bool, nxdomain_ttl: u32) -> u32 {
    if is_nxdomain {
        nxdomain_ttl
    } else if ttl_secs > 1 {
        ttl_secs
    } else {
        1
    }
}

/// The TTL an answer is stored with.
pub open spec fn stored_ttl(ttl_secs: u32, is_nxdomain: bool, nxdomain_ttl: u32) -> u32 {
    if is_nxdomain {
        let m = if ttl_secs < nxdomain_ttl { ttl_secs } else { nxdomain_ttl };
        if m > 1 { m } else { 1 }
    } else if ttl_secs > 1 {
        ttl_secs
    } else {
        1
    }
}

/// What a stored answer is served as, `age` seconds after it was stored.
pub open spec fn answer_at_age(
    message: Seq<u8>,
    ttl_secs: u32,
    is_nxdomain: bool,
    nxdomain_ttl: u32,
    age: u32,
) -> Option<Seq<u8>> {
    let max = max_age(ttl_secs, is_nxdomain, nxdomain_ttl);
    if age >= max {
        None
    } else {
        Some(adjust_ttls_spec(message, (max - age) as u32))
    }
}

proof fn lemma_total_push(s: Seq<(KeyView, CacheEntry)>, x: (KeyView, CacheEntry))
    ensures
        total_bytes(s.push(x)) == total_bytes(s) + x.1.message@.len(),
    decreases s.len(),
{
    if s.len() > 0 {
        assert(s.push(x).drop_first() =~= s.drop_first().push(x));
        lemma_total_push(s.drop_first(), x);
        assert(s.push(x)[0] == s[0]);
        assert(total_bytes(s.push(x)) == s[0].1.message@.len() + total_bytes(s.push(x).drop_first()));
    } else {
        assert(s.push(x).drop_first() =~= Seq::<(KeyView, CacheEntry)>::empty());
        assert(total_bytes(s.push(x).drop_first()) == 0);
        assert(s.push(x)[0] == x);
        assert(total_bytes(s.push(x)) == x.1.message@.len() + total_bytes(s.push(x).drop_first()));
        assert(total_bytes(s) == 0);
    }
}

proof fn lemma_total_remove(s: Seq<(KeyView, CacheEntry)>, j: int)
    requires
        0 <= j < s.len(),
    ensures
        total_bytes(s.remove(j)) + s[j].1.message@.len() == total_bytes(s),
    decreases s.len(),
{
    if j > 0 {
        assert(s.remove(j).drop_first() =~= s.drop_first().remove(j - 1));
        lemma_total_remove(s.drop_first(), j - 1);
    } else {
        assert(s.remove(0) =~= s.drop_first());
    }
}

proof fn lemma_trim_bound(s: Seq<(KeyView, CacheEntry)>)
    ensures
        total_bytes(trim_to_budget(s)) <= MAX_BYTES,
    decreases s.len(),
{
    if s.len() > 0 && total_bytes(s) > MAX_BYTES {
        lemma_trim_bound(s.drop_first());
    }
}

proof fn lemma_trim_keeps_last(s: Seq<(KeyView, CacheEntry)>)
    requires
        s.len() > 0,
        s.last().1.message@.len() <= MAX_BYTES,
    ensures
        trim_to_budget(s).len() > 0,
        trim_to_budget(s).last() == s.last(),
    decreases s.len(),
{
    if s.len() > 0 && total_bytes(s) > MAX_BYTES {
        if s.len() == 1 {
            assert(s.drop_first().len() == 0);
            assert(total_bytes(s) == s[0].1.message@.len() + total_bytes(s.drop_first()));
        } else {
            lemma_trim_keeps_last(s.drop_first());
        }
    }
}

proof fn lemma_unique_sub(s: Seq<(KeyView, CacheEntry)>, t: Seq<(KeyView, CacheEntry)>)
    requires
        keys_unique(s),
        t.len() <= s.len(),
        forall|i: int| 0 <= i < t.len() ==> #[trigger] t[i] == s[s.len() - t.len() + i],
    ensures
        keys_unique(t),
{
}

/// The answer for a stored entry at a given age, `None` once it has expired.
pub fn answer_for_age(
    message: &[u8],
    ttl_secs: u32,
    is_nxdomain: bool,
    nxdomain_ttl: u32,
    age: u32,
) -> (r: Option<Vec<u8>>)
    ensures
        match r {
            Some(v) => answer_at_age(message@, ttl_secs, is_nxdomain, nxdomain_ttl, age) == Some(
                v@,
            ),
            None => answer_at_age(message@, ttl_secs, is_nxdomain, nxdomain_ttl, age) is None,
        },
{
    let max = if is_nxdomain {
        nxdomain_ttl
    } else if ttl_secs > 1 {
        ttl_secs
    } else {
        1
    };
    if age >= max {
        return None;
    }
    Some(adjust_ttls(message, max - age))
}

/// The bytes of an optional message.
pub open spec fn bytes_opt(r: Option<Vec<u8>>) -> Option<Seq<u8>> {
    match r {
        Some(v) => Some(v@),
        None => None,
    }
}

/// What looking `k` up in the entries `s` can give, and the entries it leaves:
/// a missing key gives nothing and changes nothing; a present one gives its
/// answer at some age and becomes the most recent entry, or is dropped once
/// expired.
pub open spec fn lookup(
    s: Seq<(KeyView, CacheEntry)>,
    nx_ttl: u32,
    k: KeyView,
    r: Option<Seq<u8>>,
    after: Seq<(KeyView, CacheEntry)>,
) -> bool {
    if !has_key(s, k) {
        r is None && after == s
    } else {
        let j = key_pos(s, k);
        let e = s[j].1;
        exists|age: u32|
            #![trigger answer_at_age(e.message@, e.ttl_secs, e.is_nxdomain, nx_ttl, age)]
            match answer_at_age(e.message@, e.ttl_secs, e.is_nxdomain, nx_ttl, age) {
                None => r is None && after == s.remove(j),
                Some(m) => r == Some(m) && after == s.remove(j).push(s[j]),
            }
    }
}

/// What looking `k` up in the entries `s` gives when its entry is `age`
/// seconds old, and the entries it leaves: a missing key gives nothing and
/// changes nothing; a present one gives its answer at that age and becomes the
/// most recent entry, or is dropped once expired.
pub open spec fn lookup_at(
    s: Seq<(KeyView, CacheEntry)>,
    nx_ttl: u32,
    k: KeyView,
    age: u32,
    r: Option<Seq<u8>>,
    after: Seq<(KeyView, CacheEntry)>,
) -> bool {
    if !has_key(s, k) {
        r is None && after == s
    } else {
        let j = key_pos(s, k);
        let e = s[j].1;
        match answer_at_age(e.message@, e.ttl_secs, e.is_nxdomain, nx_ttl, age) {
            None => r is None && after == s.remove(j),
            Some(m) => r == Some(m) && after == s.remove(j).push(s[j]),
        }
    }
}

/// What storing `msg` under `k` with the given TTL makes of the cache `o`: the
/// entry goes in as the most recent one (replacing the key's entry, or evicting
/// the least recent one when full), then least recent entries go until the
/// bytes fit in `MAX_BYTES`. A message that fits on its own stays.
pub open spec fn stored(
    o: DnsCache,
    n: DnsCache,
    k: KeyView,
    msg: Seq<u8>,
    ttl_secs: u32,
    is_nxdomain: bool,
) -> bool {
    &&& n.capacity() == o.capacity()
    &&& n.nx_ttl() == o.nx_ttl()
    &&& exists|e: CacheEntry|
        #![trigger lru_pushed(o.entries(), o.capacity(), k, e)]
        {
            &&& e.message@ == msg
            &&& e.ttl_secs == stored_ttl(ttl_secs, is_nxdomain, o.nx_ttl())
            &&& e.is_nxdomain == is_nxdomain
            &&& n.entries() == trim_to_budget(lru_pushed(o.entries(), o.capacity(), k, e))
        }
    &&& msg.len() <= MAX_BYTES ==> {
        let f = n.entries();
        f.len() > 0 && f.last().0 == k && f.last().1.message@ == msg
    }
}

/// LRU cache of wire-format answers, bounded by entry count and by `MAX_BYTES`.
pub struct DnsCache {
    inner: lru::LruCache<LruKey, CacheEntry>,
    /// Live sum of cached message bytes.
    bytes: usize,
    nxdomain_ttl_secs: u32,
}

impl DnsCache {
    /// The entries, least recently used first.
    pub closed spec fn entries(&self) -> Seq<(KeyView, CacheEntry)> {
        lru_entries(self.inner)
    }

    /// The most entries the cache holds.
    pub closed spec fn capacity(&self) -> nat {
        lru_cap(self.inner)
    }

    pub closed spec fn nx_ttl(&self) -> u32 {
        self.nxdomain_ttl_secs
    }

    pub closed spec fn wf(&self) -> bool {
        &&& lru_ok(self.inner)
        &&& self.bytes == total_bytes(lru_entries(self.inner))
        &&& self.bytes <= MAX_BYTES
    }

    pub fn new(capacity: usize, nxdomain_ttl_secs: u32) -> (r: Self)
        ensures
            r.wf(),
            r.entries() == Seq::<(KeyView, CacheEntry)>::empty(),
            r.capacity() == (if capacity > 1 { capacity } else { 1 }),
            r.nx_ttl() == nxdomain_ttl_secs,
    {
        let cap = if capacity > 1 {
            capacity
        } else {
            1
        };
        DnsCache { inner: lru_new(cap), bytes: 0, nxdomain_ttl_secs }
    }

    pub fn nxdomain_ttl(&self) -> (r: u32)
        ensures
            r == self.nx_ttl(),
    {
        self.nxdomain_ttl_secs
    }

    /// Current cached message bytes, for metrics.
    pub fn byte_len(&self) -> (r: usize)
        requires
            self.wf(),
        ensures
            r == total_bytes(self.entries()),
            r <= MAX_BYTES,
    {
        self.bytes
    }

    /// Looks an answer up. A present entry becomes the most recent one; when it
    /// has outlived its TTL it is dropped instead and nothing is returned. The
    /// entry's age is read from the clock, then `get_at_age` does the rest.
    pub fn get(&mut self, key: &CacheKey) -> (r: Option<Vec<u8>>)
        requires
            old(self).wf(),
        ensures
            final(self).wf(),
            final(self).capacity() == old(self).capacity(),
            final(self).nx_ttl() == old(self).nx_ttl(),
            lookup(
                old(self).entries(),
                old(self).nx_ttl(),
                key.view_key(),
                bytes_opt(r),
                final(self).entries(),
            ),
    {
        let k: LruKey = (key.name.clone(), key.qtype, key.qclass, key.dnssec_ok);
        assert(key_view(k) == key.view_key());
        let inserted = match lru_peek_inserted(&self.inner, &k) {
            None => return None,
            Some(i) => i,
        };
        let age = elapsed_secs(&inserted) as u32;
        let r = self.get_at_age(key, age);
        proof {
            let s = old(self).entries();
            let j = key_pos(s, key.view_key());
            let e = s[j].1;
            let _ = answer_at_age(e.message@, e.ttl_secs, e.is_nxdomain, old(self).nx_ttl(), age);
        }
        r
    }

    /// Looks an answer up as `get` does, with its entry taken to be `age`
    /// seconds old.
    pub fn get_at_age(&mut self, key: &CacheKey, age: u32) -> (r: Option<Vec<u8>>)
        requires
            old(self).wf(),
        ensures
            final(self).wf(),
            final(self).capacity() == old(self).capacity(),
            final(self).nx_ttl() == old(self).nx_ttl(),
            lookup_at(
                old(self).entries(),
                old(self).nx_ttl(),
                key.view_key(),
                age,
                bytes_opt(r),
                final(self).entries(),
            ),
    {
        let k: LruKey = (key.name.clone(), key.qtype, key.qclass, key.dnssec_ok);
        assert(key_view(k) == key.view_key());
        let ghost s = self.entries();
        let entry = match lru_get(&mut self.inner, &k) {
            None => {
                assert(!has_key(s, key.view_key()));
                return None;
            },
            Some(e) => e,
        };
        let ghost j = key_pos(s, key_view(k));
        proof {
            lemma_total_remove(s, j);
            lemma_total_push(s.remove(j), s[j]);
            lemma_unique_sub(s, s);
        }
        let ans = answer_for_age(
            entry.message.as_slice(),
            entry.ttl_secs,
            entry.is_nxdomain,
            self.nxdomain_ttl_secs,
            age,
        );
        match ans {
            Some(v) => {
                assert(answer_at_age(s[j].1.message@, s[j].1.ttl_secs, s[j].1.is_nxdomain, self.nx_ttl(), age) == Some(v@));
                assert(self.entries() == s.remove(j).push(s[j]));
                assert(self.wf());
                assert(has_key(s, key.view_key()));
                assert(j == key_pos(s, key.view_key()));
                assert(answer_at_age(s[j].1.message@, s[j].1.ttl_secs, s[j].1.is_nxdomain, old(self).nx_ttl(), age) == Some(v@));
                let r = Some(v);
                assert(bytes_opt(r) == Some(v@));
                r
            },
            None => {
                let ghost s2 = self.entries();
                let dropped = lru_pop(&mut self.inner, &k);
                proof {
                    let j2 = key_pos(s2, key_view(k));
                    assert(s2[s2.len() - 1].0 == key_view(k));
                    assert(j2 == s2.len() - 1);
                    assert(s2.remove(j2) =~= s.remove(j));
                    lemma_total_remove(s2, j2);
                }
                match dropped {
                    Some(e) => {
                        self.bytes = self.bytes - e.message.len();
                    },
                    None => {},
                }
                assert(answer_at_age(s[j].1.message@, s[j].1.ttl_secs, s[j].1.is_nxdomain, self.nx_ttl(), age) is None);
                None
            },
        }
    }

    /// Stores an answer as the most recent entry, then evicts least recent
    /// entries until the byte total fits in `MAX_BYTES`.
    pub fn insert(&mut self, key: CacheKey, message: Vec<u8>, ttl_secs: u32, is_nxdomain: bool)
        requires
            old(self).wf(),
            message@.len() <= isize::MAX,
        ensures
            final(self).wf(),
            stored(*old(self), *final(self), key.view_key(), message@, ttl_secs, is_nxdomain),
    {
        let ttl = if is_nxdomain {
            let m = if ttl_secs < self.nxdomain_ttl_secs {
                ttl_secs
            } else {
                self.nxdomain_ttl_secs
            };
            if m > 1 {
                m
            } else {
                1
            }
        } else if ttl_secs > 1 {
            ttl_secs
        } else {
            1
        };
        let added = message.len();
        let entry = CacheEntry { inserted: instant_now(), ttl_secs: ttl, message, is_nxdomain };
        let ghost e = entry;
        let ghost s = self.entries();
        let ghost cap = self.capacity();
        let k: LruKey = (key.name, key.qtype, key.qclass, key.dnssec_ok);
        assert(key_view(k) == key.view_key());
        let evicted = lru_push(&mut self.inner, k, entry);
        let ghost pushed = lru_pushed(s, cap, key_view(k), e);
        proof {
            if has_key(s, key_view(k)) {
                let j = key_pos(s, key_view(k));
                lemma_total_remove(s, j);
                lemma_total_push(s.remove(j), (key_view(k), e));
            } else if s.len() == cap {
                lemma_total_remove(s, 0);
                assert(s.remove(0) =~= s.drop_first());
                lemma_total_push(s.drop_first(), (key_view(k), e));
            } else {
                lemma_total_push(s, (key_view(k), e));
            }
        }
        match evicted {
            Some(old_entry) => {
                self.bytes = self.bytes - old_entry.1.message.len();
            },
            None => {},
        }
        assert(self.bytes + added == total_bytes(pushed));
        assert(MAX_BYTES + isize::MAX <= usize::MAX);
        self.bytes = self.bytes + added;
        while self.bytes > MAX_BYTES
            invariant
                lru_ok(self.inner),
                lru_cap(self.inner) == cap,
                self.nxdomain_ttl_secs == old(self).nxdomain_ttl_secs,
                self.bytes == total_bytes(lru_entries(self.inner)),
                trim_to_budget(lru_entries(self.inner)) == trim_to_budget(pushed),
            decreases lru_entries(self.inner).len(),
        {
            let ghost cur = lru_entries(self.inner);
            match lru_pop_lru(&mut self.inner) {
                Some(popped) => {
                    proof {
                        lemma_total_remove(cur, 0);
                        assert(cur.remove(0) =~= cur.drop_first());
                    }
                    self.bytes = self.bytes - popped.1.message.len();
                },
                None => {
                    assert(false);
                },
            }
        }
        proof {
            assert(trim_to_budget(lru_entries(self.inner)) == lru_entries(self.inner));
            if added <= MAX_BYTES {
                lemma_trim_keeps_last(pushed);
            }
        }
    }

    pub fn clear(&mut self)
        requires
            old(self).wf(),
        ensures
            final(self).wf(),
            final(self).capacity() == old(self).capacity(),
            final(self).nx_ttl() == old(self).nx_ttl(),
            final(self).entries() == Seq::<(KeyView, CacheEntry)>::empty(),
    {
        lru_clear(&mut self.inner);
        self.bytes = 0;
    }
}

/// Law: the cache never holds more than `MAX_BYTES` of messages, and its byte
/// counter always equals the sum of the cached message lengths.
pub proof fn cache_bytes_bounded(c: &DnsCache)
    requires
        c.wf(),
    ensures
        total_bytes(c.entries()) <= MAX_BYTES,
{
}

/// Law: the cache never holds more entries than its capacity, and no key
/// twice.
pub proof fn cache_entries_within_capacity(c: &DnsCache)
    requires
        c.wf(),
    ensures
        c.entries().len() <= c.capacity(),
        keys_unique(c.entries()),
{
}

/// Law: a read after a write gives back what was written. Once an answer that
/// fits the budget is stored under `k`, looking `k` up gives nothing (it has
/// expired) or that answer with its TTLs set to what remains of its lifetime.
pub proof fn cache_read_after_write(
    o: DnsCache,
    n: DnsCache,
    k: KeyView,
    msg: Seq<u8>,
    ttl_secs: u32,
    is_nxdomain: bool,
    r: Option<Seq<u8>>,
    after: Seq<(KeyView, CacheEntry)>,
)
    requires
        n.wf(),
        stored(o, n, k, msg, ttl_secs, is_nxdomain),
        msg.len() <= MAX_BYTES,
        lookup(n.entries(), n.nx_ttl(), k, r, after),
    ensures
        r is None || exists|rem: u32|
            0 < rem <= max_age(stored_ttl(ttl_secs, is_nxdomain, o.nx_ttl()), is_nxdomain, o.nx_ttl())
                && r == Some(#[trigger] adjust_ttls_spec(msg, rem)),
{
    let s = n.entries();
    let e = choose|e: CacheEntry|
        #![trigger lru_pushed(o.entries(), o.capacity(), k, e)]
        {
            &&& e.message@ == msg
            &&& e.ttl_secs == stored_ttl(ttl_secs, is_nxdomain, o.nx_ttl())
            &&& e.is_nxdomain == is_nxdomain
            &&& n.entries() == trim_to_budget(lru_pushed(o.entries(), o.capacity(), k, e))
        };
    let pushed = lru_pushed(o.entries(), o.capacity(), k, e);
    assert(pushed.last() == (k, e));
    lemma_trim_keeps_last(pushed);
    let last = s.len() - 1;
    assert(s[last] == (k, e));
    assert(has_key(s, k));
    let j = key_pos(s, k);
    assert(j == last) by {
        if j != last {
            assert(s[j].0 == s[last].0);
        }
    }
    if r is Some {
        let age = choose|age: u32|
            #![trigger answer_at_age(e.message@, e.ttl_secs, e.is_nxdomain, n.nx_ttl(), age)]
            match answer_at_age(e.message@, e.ttl_secs, e.is_nxdomain, n.nx_ttl(), age) {
                None => r is None && after == s.remove(j),
                Some(m) => r == Some(m) && after == s.remove(j).push(s[j]),
            };
        let max = max_age(e.ttl_secs, e.is_nxdomain, n.nx_ttl());
        let rem = (max - age) as u32;
        assert(r == Some(adjust_ttls_spec(msg, rem)));
    }
}

} // verus!
