//! Compact blocklist on a finite-state set (FST), and the small allowlist.
//!
//! The blocklist file ("AEG2") is a 12-byte header — magic, version and domain
//! count — followed by the FST bytes.

use vstd::prelude::*;
use vstd::utf8::encode_utf8;
use crate::normalize::{normalize_domain, normalize_spec};
use crate::text::{bytes_of, chars_of, decimal, decimal_string, string_of, concat};

verus! {

/// What can go wrong reading or writing a blocklist.
#[derive(Debug, Clone)]
pub enum TrieError {
    Io(String),
    Invalid(String),
    Fst(String),
}

#[verifier::external_type_specification]
#[verifier::external_body]
#[verifier::reject_recursive_types(D)]
pub struct ExFstSet<D>(fst::Set<D>);

#[verifier::external_type_specification]
#[verifier::external_body]
pub struct ExFstError(fst::Error);

/// The keys of an FST set.
pub uninterp spec fn fst_keys(s: fst::Set<Vec<u8>>) -> Set<Seq<u8>>;

/// The keys that `fst::Set::new` finds in `bytes`, or `None` when it refuses
/// them or their checksum does not verify.
pub uninterp spec fn fst_decoded(bytes: Seq<u8>) -> Option<Set<Seq<u8>>>;

/// Whether the bytes of an FST set are well formed as the crate's builder
/// writes them, so that reading the set cannot go astray.
pub uninterp spec fn fst_intact(s: fst::Set<Vec<u8>>) -> bool;

/// Whether `bytes` are an FST as the crate's builder writes them.
pub uninterp spec fn fst_well_formed(bytes: Seq<u8>) -> bool;

/// The message of an `fst::Error`.
pub uninterp spec fn fst_error_text(e: fst::Error) -> Seq<char>;

/// Strict lexicographic order on byte strings (the order of `[u8]`).
pub open spec fn bytes_lt(a: Seq<u8>, b: Seq<u8>) -> bool
    decreases a.len(),
{
    if a.len() == 0 {
        b.len() > 0
    } else if b.len() == 0 {
        false
    } else if a[0] != b[0] {
        a[0] < b[0]
    } else {
        bytes_lt(a.drop_first(), b.drop_first())
    }
}

/// Each key is greater than the one before it.
pub open spec fn strictly_increasing(s: Seq<Seq<u8>>) -> bool {
    forall|i: int| 0 <= i < s.len() - 1 ==> #[trigger] bytes_lt(s[i], s[i + 1])
}

/// No key is less than the one before it.
pub open spec fn non_decreasing(s: Seq<Seq<u8>>) -> bool {
    forall|i: int| 0 <= i < s.len() - 1 ==> !#[trigger] bytes_lt(s[i + 1], s[i])
}

pub open spec fn views(v: Seq<Vec<u8>>) -> Seq<Seq<u8>> {
    v.map_values(|x: Vec<u8>| x@)
}

/// `fst::Set::from_iter`: keys given in non-decreasing order build a set
/// holding exactly those keys (a repeated key is skipped); the builder refuses
/// a key that is less than the one before it, and writing to memory cannot fail
/// otherwise. The set is the builder's own output.
#[verifier::external_body]
fn fst_from_sorted(keys: &Vec<Vec<u8>>) -> (r: Result<fst::Set<Vec<u8>>, fst::Error>)
    ensures
        r is Ok <==> non_decreasing(views(keys@)),
        r matches Ok(s) ==> fst_keys(s) == views(keys@).to_set() && fst_intact(s),
{
    fst::Set::from_iter(keys.iter())
}

/// `fst::Set::contains`: whether `key` is one of the keys. The lookup indexes
/// the set's bytes as they are, so it is called only on intact sets: a
/// malformed FST may make it panic.
#[verifier::external_body]
fn fst_contains(s: &fst::Set<Vec<u8>>, key: &[u8]) -> (r: bool)
    requires
        fst_intact(*s),
    ensures
        r == fst_keys(*s).contains(key@),
{
    s.contains(key)
}

/// `fst::Set::new`, then `fst::raw::Fst::verify`: accepts `bytes` exactly
/// when `Set::new` reads their header and the checksum the builder wrote over
/// them matches, and the set then holds the keys encoded in them. The
/// checksum refuses damaged or truncated files; bytes crafted to carry a
/// matching checksum over a malformed FST are not told apart by either call,
/// so the set is intact only when the bytes are well formed.
#[verifier::external_body]
fn fst_from_bytes(bytes: Vec<u8>) -> (r: Result<fst::Set<Vec<u8>>, fst::Error>)
    ensures
        r is Ok <==> fst_decoded(bytes@) is Some,
        r matches Ok(s) ==> fst_keys(s) == fst_decoded(bytes@)->0,
        r matches Ok(s) ==> (fst_well_formed(bytes@) ==> fst_intact(s)),
{
    let set = fst::Set::new(bytes)?;
    set.as_fst().verify()?;
    Ok(set)
}

/// `fst::raw::Fst::to_vec`: the bytes of the set, which `fst::Set::new` reads
/// back as the same keys; the bytes of an intact set are well formed.
#[verifier::external_body]
fn fst_to_bytes(s: &fst::Set<Vec<u8>>) -> (r: Vec<u8>)
    requires
        fst_intact(*s),
    ensures
        fst_decoded(r@) == Some(fst_keys(*s)),
        fst_well_formed(r@),
{
    s.as_fst().to_vec()
}

/// The message of an `fst::Error` (its `Display`).
#[verifier::external_body]
fn fst_error_message(e: &fst::Error) -> (r: String)
    ensures
        r@ == fst_error_text(*e),
{
    e.to_string()
}

/// `<[Vec<u8>]>::sort_unstable`: the same keys, in lexicographic order.
#[verifier::external_body]
pub(crate) fn sort_keys(v: &mut Vec<Vec<u8>>)
    ensures
        views(final(v)@).to_multiset() == views(old(v)@).to_multiset(),
        non_decreasing(views(final(v)@)),
{
    v.sort_unstable()
}

proof fn lemma_lt_irrefl(a: Seq<u8>)
    ensures
        !bytes_lt(a, a),
    decreases a.len(),
{
    if a.len() > 0 {
        lemma_lt_irrefl(a.drop_first());
    }
}

proof fn lemma_lt_total(a: Seq<u8>, b: Seq<u8>)
    ensures
        a != b ==> bytes_lt(a, b) || bytes_lt(b, a),
    decreases a.len(),
{
    if a.len() > 0 && b.len() > 0 && a[0] == b[0] {
        lemma_lt_total(a.drop_first(), b.drop_first());
        if a.drop_first() == b.drop_first() {
            assert(a =~= seq![a[0]] + a.drop_first());
            assert(b =~= seq![b[0]] + b.drop_first());
        }
    } else if a.len() == 0 && b.len() == 0 {
        assert(a =~= b);
    }
}

/// Strictly increasing keys are non-decreasing.
pub(crate) proof fn lemma_strict_non_decreasing(s: Seq<Seq<u8>>)
    requires
        strictly_increasing(s),
    ensures
        non_decreasing(s),
{
    assert forall|i: int| 0 <= i < s.len() - 1 implies !#[trigger] bytes_lt(s[i + 1], s[i]) by {
        assert(bytes_lt(s[i], s[i + 1]));
        if bytes_lt(s[i + 1], s[i]) {
            lemma_lt_trans(s[i], s[i + 1], s[i]);
            lemma_lt_irrefl(s[i]);
        }
    }
}

proof fn lemma_lt_trans(a: Seq<u8>, b: Seq<u8>, c: Seq<u8>)
    requires
        bytes_lt(a, b),
        bytes_lt(b, c),
    ensures
        bytes_lt(a, c),
    decreases a.len(),
{
    if a.len() > 0 && b.len() > 0 && c.len() > 0 && a[0] == b[0] && b[0] == c[0] {
        lemma_lt_trans(a.drop_first(), b.drop_first(), c.drop_first());
    }
}

pub(crate) proof fn lemma_strict_no_dup(s: Seq<Seq<u8>>)
    requires
        strictly_increasing(s),
    ensures
        s.no_duplicates(),
        forall|i: int, j: int| 0 <= i < j < s.len() ==> bytes_lt(s[i], s[j]),
{
    assert forall|i: int, j: int| 0 <= i < j < s.len() implies bytes_lt(s[i], s[j]) by {
        lemma_strict_chain(s, i, j);
    }
    assert forall|i: int, j: int| 0 <= i < s.len() && 0 <= j < s.len() && i != j implies s[i]
        != s[j] by {
        if i < j {
            lemma_strict_chain(s, i, j);
            lemma_lt_irrefl(s[i]);
        } else {
            lemma_strict_chain(s, j, i);
            lemma_lt_irrefl(s[j]);
        }
    }
}

proof fn lemma_strict_chain(s: Seq<Seq<u8>>, i: int, j: int)
    requires
        strictly_increasing(s),
        0 <= i < j < s.len(),
    ensures
        bytes_lt(s[i], s[j]),
    decreases j - i,
{
    if j == i + 1 {
        assert(bytes_lt(s[i], s[i + 1]));
    } else {
        lemma_strict_chain(s, i, j - 1);
        assert(bytes_lt(s[j - 1], s[(j - 1) + 1]));
        lemma_lt_trans(s[i], s[j - 1], s[j]);
    }
}

pub(crate) fn bytes_equal(a: &[u8], b: &[u8]) -> (r: bool)
    ensures
        r == (a@ == b@),
{
    if a.len() != b.len() {
        return false;
    }
    let mut i: usize = 0;
    while i < a.len()
        invariant
            a@.len() == b@.len(),
            i <= a@.len(),
            forall|k: int| 0 <= k < i ==> a@[k] == b@[k],
        decreases a@.len() - i,
    {
        if a[i] != b[i] {
            return false;
        }
        i = i + 1;
    }
    assert(a@ =~= b@);
    true
}

/// Drops repeats from sorted keys, keeping one of each.
pub(crate) fn dedup_sorted(v: &Vec<Vec<u8>>) -> (r: Vec<Vec<u8>>)
    requires
        non_decreasing(views(v@)),
    ensures
        strictly_increasing(views(r@)),
        views(r@).to_set() == views(v@).to_set(),
{
    let mut out: Vec<Vec<u8>> = Vec::new();
    let mut i: usize = 0;
    while i < v.len()
        invariant
            i <= v@.len(),
            non_decreasing(views(v@)),
            strictly_increasing(views(out@)),
            views(out@).to_set() == views(v@.subrange(0, i as int)).to_set(),
            i > 0 ==> out@.len() > 0 && out@.last()@ == v@[i - 1]@,
            i == 0 ==> out@.len() == 0,
        decreases v@.len() - i,
    {
        let ghost before = views(out@);
        let ghost vi = views(v@.subrange(0, i as int));
        assert(views(v@.subrange(0, i + 1)) =~= vi.push(v@[i as int]@));
        proof {
            vi.lemma_push_to_set_commute(v@[i as int]@);
            before.lemma_push_to_set_commute(v@[i as int]@);
        }
        if out.len() > 0 && bytes_equal(out[out.len() - 1].as_slice(), v[i].as_slice()) {
            assert(views(v@.subrange(0, i + 1)).to_set() =~= vi.to_set().insert(v@[i as int]@));
            assert(vi.to_set().insert(v@[i as int]@) =~= vi.to_set()) by {
                assert(before.contains(before.last()));
            }
        } else {
            let x = copy_key(&v[i]);
            out.push(x);
            proof {
                if i > 0 {
                    let a = v@[i - 1]@;
                    let b = v@[i as int]@;
                    assert(views(v@)[i - 1] == a && views(v@)[(i - 1) + 1] == b);
                    lemma_lt_total(a, b);
                }
                assert(views(out@) =~= before.push(v@[i as int]@));
                assert(views(out@).to_set() =~= before.to_set().insert(v@[i as int]@));
                assert(views(v@.subrange(0, i + 1)).to_set() =~= vi.to_set().insert(v@[i as int]@));
            }
        }
        i = i + 1;
    }
    assert(v@.subrange(0, v@.len() as int) =~= v@);
    out
}

fn copy_key(k: &Vec<u8>) -> (r: Vec<u8>)
    ensures
        r@ == k@,
{
    let mut out: Vec<u8> = Vec::new();
    let mut i: usize = 0;
    while i < k.len()
        invariant
            i <= k@.len(),
            out@ == k@.subrange(0, i as int),
        decreases k@.len() - i,
    {
        out.push(k[i]);
        i = i + 1;
        assert(out@ =~= k@.subrange(0, i as int));
    }
    assert(k@.subrange(0, k@.len() as int) =~= k@);
    out
}

/// Byte `'.'`.
pub open spec fn dot() -> u8 {
    46u8
}

/// `i` is where `d` or one of its parent domains starts.
pub open spec fn label_start(d: Seq<u8>, i: int) -> bool {
    0 <= i <= d.len() && (i == 0 || d[i - 1] == dot())
}

/// `d` or one of its parent domains is in `keys`.
pub open spec fn suffix_listed(keys: Set<Seq<u8>>, d: Seq<u8>) -> bool {
    exists|i: int| #[trigger] label_start(d, i) && keys.contains(d.subrange(i, d.len() as int))
}

/// `k` is the key of the raw domain `d`: its normalized form, as bytes.
pub open spec fn key_of(d: Seq<char>, k: Seq<u8>) -> bool {
    normalize_spec(d) is Some && k == encode_utf8(normalize_spec(d)->0)
}

/// The keys that a list of raw domains contributes: each normalized domain, as bytes.
pub open spec fn normalized_keys(domains: Seq<String>) -> Set<Seq<u8>> {
    Set::new(
        |k: Seq<u8>|
            exists|i: int|
                0 <= i < domains.len() && #[trigger] key_of(domains[i]@, k),
    )
}

pub open spec fn le32(b: Seq<u8>, i: int) -> u32 {
    (b[i] as int + b[i + 1] as int * 256 + b[i + 2] as int * 65536 + b[i + 3] as int
        * 16777216) as u32
}

pub open spec fn magic_aeg2() -> Seq<u8> {
    seq![65u8, 69u8, 71u8, 50u8]
}

/// Version of the file format.
pub const FILE_VERSION: u32 = 2;

/// Bytes before the FST: magic, version, count.
pub const HEADER_LEN: usize = 12;

/// The domain count and keys a blocklist file holds, or `None` when it is not one.
pub open spec fn decode_file(b: Seq<u8>) -> Option<(u32, Set<Seq<u8>>)> {
    if b.len() >= 12 && b.subrange(0, 4) == magic_aeg2() && le32(b, 4) == FILE_VERSION {
        match fst_decoded(b.subrange(12, b.len() as int)) {
            Some(k) => Some((le32(b, 8), k)),
            None => None,
        }
    } else {
        None
    }
}

pub open spec fn le_bytes(x: u32) -> Seq<u8> {
    seq![
        (x % 256) as u8,
        ((x / 256) % 256) as u8,
        ((x / 65536) % 256) as u8,
        ((x / 16777216) % 256) as u8
    ]
}

/// The 12-byte header of a blocklist file holding `count` domains.
pub open spec fn header(count: u32) -> Seq<u8> {
    magic_aeg2() + le_bytes(FILE_VERSION) + le_bytes(count)
}

impl Default for Blocklist {
    fn default() -> (r: Self)
        ensures
            r.keys() == Set::<Seq<u8>>::empty(),
            r.count() == 0,
    {
        Self::new()
    }
}

/// The text of an error, as it is shown.
pub open spec fn trie_error_text(e: TrieError) -> Seq<char> {
    match e {
        TrieError::Io(m) => "io: "@ + m@,
        TrieError::Invalid(m) => "invalid blocklist file: "@ + m@,
        TrieError::Fst(m) => "fst: "@ + m@,
    }
}

impl TrieError {
    /// The error as it is shown.
    pub fn message(&self) -> (r: String)
        ensures
            r@ == trie_error_text(*self),
    {
        match self {
            TrieError::Io(m) => concat("io: ", m.as_str()),
            TrieError::Invalid(m) => concat("invalid blocklist file: ", m.as_str()),
            TrieError::Fst(m) => concat("fst: ", m.as_str()),
        }
    }
}

/// Domain blocklist. A blocked domain also blocks all its subdomains.
pub struct Blocklist {
    set: fst::Set<Vec<u8>>,
    count: usize,
}

impl Blocklist {
    /// The blocked domains, as bytes.
    pub closed spec fn keys(&self) -> Set<Seq<u8>> {
        fst_keys(self.set)
    }

    /// The domain count the list was made or loaded with.
    pub closed spec fn count(&self) -> nat {
        self.count as nat
    }

    /// Whether the list blocks the (normalized) name `d`.
    pub open spec fn blocks(&self, d: Seq<u8>) -> bool {
        self.count() > 0 && suffix_listed(self.keys(), d)
    }

    /// The list's FST is intact: it was built here, or read from bytes the
    /// builder wrote, so lookups in it are sound.
    pub closed spec fn wf(&self) -> bool {
        fst_intact(self.set)
    }

    pub fn new() -> (r: Self)
        ensures
            r.wf(),
            r.keys() == Set::<Seq<u8>>::empty(),
            r.count() == 0,
    {
        Self::empty()
    }

    fn empty() -> (r: Self)
        ensures
            r.wf(),
            r.keys() == Set::<Seq<u8>>::empty(),
            r.count() == 0,
    {
        let keys: Vec<Vec<u8>> = Vec::new();
        assert(views(keys@) =~= Seq::<Seq<u8>>::empty());
        match fst_from_sorted(&keys) {
            Ok(set) => {
                assert(views(keys@).to_set() =~= Set::<Seq<u8>>::empty());
                Blocklist { set, count: 0 }
            },
            Err(_) => vstd::pervasive::unreached(),
        }
    }

    pub fn len(&self) -> (r: usize)
        ensures
            r == self.count(),
    {
        self.count
    }

    pub fn is_empty(&self) -> (r: bool)
        ensures
            r == (self.count() == 0),
    {
        self.count == 0
    }

    /// Normalizes first. Use `contains_normalized` where the name is already normalized.
    pub fn contains(&self, domain: &str) -> (r: bool)
        requires
            self.wf(),
        ensures
            r == match normalize_spec(domain@) {
                Some(n) => self.blocks(encode_utf8(n)),
                None => false,
            },
    {
        match normalize_domain(domain) {
            Some(d) => self.contains_normalized(d.as_str()),
            None => false,
        }
    }

    /// `domain` must already be normalized. A blocked suffix blocks all subdomains.
    pub fn contains_normalized(&self, domain: &str) -> (r: bool)
        requires
            self.wf(),
        ensures
            r == self.blocks(encode_utf8(domain@)),
    {
        if self.count == 0 {
            return false;
        }
        let b = domain.as_bytes();
        let n = b.len();
        let mut i: usize = 0;
        while i < n
            invariant
                b@ == encode_utf8(domain@),
                n == b@.len(),
                self.count > 0,
                fst_intact(self.set),
                i <= n,
                forall|k: int|
                    0 <= k < i && #[trigger] label_start(b@, k) ==> !self.keys().contains(
                        b@.subrange(k, n as int),
                    ),
            decreases n - i,
        {
            if i == 0 || b[i - 1] == 46u8 {
                let rest = &b[i..n];
                if fst_contains(&self.set, rest) {
                    assert(label_start(b@, i as int));
                    return true;
                }
            }
            i = i + 1;
        }
        if n == 0 || b[n - 1] == 46u8 {
            let rest = &b[n..n];
            if fst_contains(&self.set, rest) {
                assert(label_start(b@, n as int));
                return true;
            }
        }
        false
    }

    fn build(sorted_unique: &Vec<Vec<u8>>) -> (r: Self)
        requires
            strictly_increasing(views(sorted_unique@)),
        ensures
            r.wf(),
            r.keys() == views(sorted_unique@).to_set(),
            r.count() == sorted_unique@.len(),
    {
        proof {
            lemma_strict_non_decreasing(views(sorted_unique@));
        }
        match fst_from_sorted(sorted_unique) {
            Ok(set) => Blocklist { set, count: sorted_unique.len() },
            Err(_) => Self::empty(),
        }
    }

    /// Builds the list from raw domains: each is normalized, invalid ones are
    /// dropped, and repeats count once.
    pub fn from_domains(domains: &[String]) -> (r: Self)
        ensures
            r.wf(),
            r.keys() == normalized_keys(domains@),
            r.count() == normalized_keys(domains@).len(),
    {
        let keys = normalized_sorted_keys(domains);
        let r = Self::build(&keys);
        proof {
            lemma_strict_no_dup(views(keys@));
            views(keys@).unique_seq_to_set();
        }
        r
    }

    /// Reads a blocklist file: the header, then the FST.
    pub fn load_from_bytes(bytes: Vec<u8>) -> (r: Result<Self, TrieError>)
        ensures
            r is Ok <==> decode_file(bytes@) is Some,
            r matches Ok(bl) ==> loaded_from(bytes@, bl),
            bytes@.len() < 4 ==> (r matches Err(TrieError::Io(m)) && m@ == short_read_text()),
            bytes@.len() >= 4 && bytes@.subrange(0, 4) != magic_aeg2() ==> (r matches Err(
                TrieError::Invalid(m),
            ) && m@ == "bad magic"@),
            bytes@.len() >= 4 && bytes@.subrange(0, 4) == magic_aeg2() && bytes@.len() < 8
                ==> (r matches Err(TrieError::Io(m)) && m@ == short_read_text()),
            bytes@.len() >= 8 && bytes@.subrange(0, 4) == magic_aeg2() && le32(bytes@, 4)
                != FILE_VERSION ==> (r matches Err(TrieError::Invalid(m)) && m@
                == "unsupported version "@ + decimal(le32(bytes@, 4) as nat)),
            bytes@.len() >= 8 && bytes@.subrange(0, 4) == magic_aeg2() && le32(bytes@, 4)
                == FILE_VERSION && bytes@.len() < 12 ==> (r matches Err(TrieError::Io(m)) && m@
                == short_read_text()),
            bytes@.len() >= 12 && bytes@.subrange(0, 4) == magic_aeg2() && le32(bytes@, 4)
                == FILE_VERSION && fst_decoded(bytes@.subrange(12, bytes@.len() as int)) is None
                ==> r matches Err(TrieError::Fst(_)),
    {
        let n = bytes.len();
        if n < 4 {
            return Err(TrieError::Io(short_read_message()));
        }
        if !(bytes[0] == 65u8 && bytes[1] == 69u8 && bytes[2] == 71u8 && bytes[3] == 50u8) {
            proof {
                if bytes@.subrange(0, 4) == magic_aeg2() {
                    assert(bytes@.subrange(0, 4)[0] == bytes@[0]);
                    assert(bytes@.subrange(0, 4)[1] == bytes@[1]);
                    assert(bytes@.subrange(0, 4)[2] == bytes@[2]);
                    assert(bytes@.subrange(0, 4)[3] == bytes@[3]);
                }
            }
            return Err(TrieError::Invalid(string_of("bad magic")));
        }
        assert(bytes@.subrange(0, 4) =~= magic_aeg2());
        if n < 8 {
            return Err(TrieError::Io(short_read_message()));
        }
        let ver = read_le32(&bytes, 4);
        if ver != FILE_VERSION {
            let m = concat("unsupported version ", decimal_string(ver as u64).as_str());
            return Err(TrieError::Invalid(m));
        }
        if n < 12 {
            return Err(TrieError::Io(short_read_message()));
        }
        let count = read_le32(&bytes, 8) as usize;
        let body = copy_range(&bytes, HEADER_LEN, n);
        match fst_from_bytes(body) {
            Ok(set) => Ok(Blocklist { set, count }),
            Err(e) => Err(TrieError::Fst(fst_error_message(&e))),
        }
    }
}

/// The FST of the blocklist file `b` is as the builder writes it.
pub open spec fn file_well_formed(b: Seq<u8>) -> bool {
    b.len() >= 12 && fst_well_formed(b.subrange(12, b.len() as int))
}

/// `bl` is what the blocklist file `b` reads as: its domain count and keys,
/// and an intact list when the file's FST is as the builder writes it.
pub open spec fn loaded_from(b: Seq<u8>, bl: Blocklist) -> bool {
    &&& decode_file(b) == Some((bl.count() as u32, bl.keys()))
    &&& bl.count() < 0x1_0000_0000
    &&& file_well_formed(b) ==> bl.wf()
}

/// The text of the error `read_exact` gives at an early end of file.
pub open spec fn short_read_text() -> Seq<char> {
    "failed to fill whole buffer"@
}

fn short_read_message() -> (r: String)
    ensures
        r@ == short_read_text(),
{
    string_of("failed to fill whole buffer")
}

fn read_le32(b: &Vec<u8>, i: usize) -> (r: u32)
    requires
        i + 4 <= b@.len(),
    ensures
        r == le32(b@, i as int),
{
    assert(i + 3 < b.len());
    let x: u32 = (b[i] as u32) + (b[i + 1] as u32) * 256 + (b[i + 2] as u32) * 65536 + (b[i + 3]
        as u32) * 16777216;
    x
}

fn copy_range(b: &Vec<u8>, lo: usize, hi: usize) -> (r: Vec<u8>)
    requires
        lo <= hi <= b@.len(),
    ensures
        r@ == b@.subrange(lo as int, hi as int),
{
    let mut out: Vec<u8> = Vec::new();
    let mut i = lo;
    while i < hi
        invariant
            lo <= i <= hi <= b@.len(),
            out@ == b@.subrange(lo as int, i as int),
        decreases hi - i,
    {
        out.push(b[i]);
        i = i + 1;
        assert(out@ =~= b@.subrange(lo as int, i as int));
    }
    out
}

fn push_le32(out: &mut Vec<u8>, x: u32)
    ensures
        final(out)@ == old(out)@ + le_bytes(x),
{
    out.push((x % 256) as u8);
    out.push(((x / 256) % 256) as u8);
    out.push(((x / 65536) % 256) as u8);
    out.push(((x / 16777216) % 256) as u8);
    assert(final(out)@ =~= old(out)@ + le_bytes(x));
}

/// Each domain normalized, as bytes, sorted and without repeats.
fn normalized_sorted_keys(domains: &[String]) -> (r: Vec<Vec<u8>>)
    ensures
        strictly_increasing(views(r@)),
        views(r@).to_set() == normalized_keys(domains@),
{
    let mut keys: Vec<Vec<u8>> = Vec::new();
    let mut i: usize = 0;
    while i < domains.len()
        invariant
            i <= domains@.len(),
            views(keys@).to_set() == normalized_keys(domains@.subrange(0, i as int)),
        decreases domains@.len() - i,
    {
        let ghost before = views(keys@);
        let ghost sub = domains@.subrange(0, i as int);
        let ghost sub1 = domains@.subrange(0, i + 1);
        match normalize_domain(domains[i].as_str()) {
            Some(n) => {
                keys.push(bytes_of(n.as_str()));
                proof {
                    let e = encode_utf8(n@);
                    assert(views(keys@) =~= before.push(e));
                    before.lemma_push_to_set_commute(e);
                    assert(sub1[i as int] == domains@[i as int]);
                    assert(key_of(sub1[i as int]@, e));
                    assert forall|k: Seq<u8>| #[trigger] normalized_keys(sub1).contains(k) implies views(
                        keys@,
                    ).to_set().contains(k) by {
                        let j = choose|j: int| 0 <= j < sub1.len() && #[trigger] key_of(sub1[j]@, k);
                        if j < i {
                            assert(sub[j] == sub1[j]);
                            assert(key_of(sub[j]@, k));
                            assert(normalized_keys(sub).contains(k));
                        }
                    }
                    assert forall|k: Seq<u8>| #[trigger] views(keys@).to_set().contains(k) implies normalized_keys(
                        sub1,
                    ).contains(k) by {
                        if k != e {
                            assert(before.to_set().contains(k));
                            assert(normalized_keys(sub).contains(k));
                            let j = choose|j: int| 0 <= j < sub.len() && #[trigger] key_of(sub[j]@, k);
                            assert(sub1[j] == sub[j]);
                            assert(key_of(sub1[j]@, k));
                        }
                    }
                    assert(normalized_keys(sub1) =~= views(keys@).to_set());
                }
            },
            None => {
                proof {
                    assert forall|k: Seq<u8>| normalized_keys(sub1).contains(k) <==> normalized_keys(
                        sub,
                    ).contains(k) by {
                        if normalized_keys(sub1).contains(k) {
                            let j = choose|j: int|
                                0 <= j < sub1.len() && #[trigger] key_of(sub1[j]@, k);
                            if j == i {
                                assert(sub1[j] == domains@[i as int]);
                            } else {
                                assert(sub[j] == sub1[j]);
                            }
                        }
                        if normalized_keys(sub).contains(k) {
                            let j = choose|j: int|
                                0 <= j < sub.len() && #[trigger] key_of(sub[j]@, k);
                            assert(sub1[j] == sub[j]);
                        }
                    }
                    assert(normalized_keys(sub1) =~= normalized_keys(sub));
                }
            },
        }
        i = i + 1;
    }
    assert(domains@.subrange(0, domains@.len() as int) =~= domains@);
    let ghost unsorted = views(keys@);
    sort_keys(&mut keys);
    proof {
        assert forall|k: Seq<u8>| views(keys@).to_set().contains(k) <==> unsorted.to_set().contains(
            k,
        ) by {
            vstd::seq_lib::to_multiset_contains(views(keys@), k);
            vstd::seq_lib::to_multiset_contains(unsorted, k);
        }
        assert(views(keys@).to_set() =~= unsorted.to_set());
    }
    dedup_sorted(&keys)
}

/// `b` is a blocklist file recording `count` domains over an FST of `keys`
/// that the builder wrote.
pub open spec fn file_of(count: u32, keys: Set<Seq<u8>>, b: Seq<u8>) -> bool {
    exists|f: Seq<u8>|
        #[trigger] fst_decoded(f) == Some(keys) && fst_well_formed(f) && b == header(count) + f
}

/// The bytes of a blocklist file holding `sorted_unique`, recorded as `count`
/// domains. Keys out of order are refused, as the FST builder refuses them; a
/// repeated key counts once.
pub fn write_sorted_domains(count: usize, sorted_unique: &Vec<Vec<u8>>) -> (r: Result<
    Vec<u8>,
    TrieError,
>)
    ensures
        r is Ok <==> non_decreasing(views(sorted_unique@)),
        r matches Ok(b) ==> file_of(count as u32, views(sorted_unique@).to_set(), b@),
        r matches Err(e) ==> e is Fst,
{
    match fst_from_sorted(sorted_unique) {
        Ok(set) => {
            let mut out: Vec<u8> = Vec::new();
            out.push(65u8);
            out.push(69u8);
            out.push(71u8);
            out.push(50u8);
            assert(out@ =~= magic_aeg2());
            push_le32(&mut out, FILE_VERSION);
            push_le32(&mut out, count as u32);
            let body = fst_to_bytes(&set);
            let ghost h = out@;
            let mut i: usize = 0;
            while i < body.len()
                invariant
                    i <= body@.len(),
                    out@ == h + body@.subrange(0, i as int),
                decreases body@.len() - i,
            {
                out.push(body[i]);
                i = i + 1;
                assert(out@ =~= h + body@.subrange(0, i as int));
            }
            assert(body@.subrange(0, body@.len() as int) =~= body@);
            assert(h =~= header(count as u32));
            Ok(out)
        },
        Err(e) => Err(TrieError::Fst(fst_error_message(&e))),
    }
}

/// Normalizes, sorts and dedups first, then writes as `write_sorted_domains`.
pub fn write_domains_file(domains: &[String]) -> (r: Result<Vec<u8>, TrieError>)
    ensures
        r matches Ok(b) && file_of(normalized_keys(domains@).len() as u32, normalized_keys(domains@), b@),
{
    let keys = normalized_sorted_keys(domains);
    proof {
        lemma_strict_no_dup(views(keys@));
        views(keys@).unique_seq_to_set();
        lemma_strict_non_decreasing(views(keys@));
    }
    write_sorted_domains(keys.len(), &keys)
}

proof fn lemma_le_bytes(x: u32)
    ensures
        le32(le_bytes(x), 0) == x,
{
    let b = le_bytes(x);
    assert(b[0] as int == x % 256);
    assert(b[1] as int == (x / 256) % 256);
    assert(b[2] as int == (x / 65536) % 256);
    assert(b[3] as int == (x / 16777216) % 256);
    assert((x % 256) + ((x / 256) % 256) * 256 + ((x / 65536) % 256) * 65536 + ((x / 16777216)
        % 256) * 16777216 == x) by (nonlinear_arith);
}

/// Whether `a` sorts before `b` (byte-wise lexicographic).
fn bytes_less(a: &[u8], b: &[u8]) -> (r: bool)
    ensures
        r == bytes_lt(a@, b@),
{
    let mut i: usize = 0;
    assert(a@.subrange(0, a@.len() as int) =~= a@);
    assert(b@.subrange(0, b@.len() as int) =~= b@);
    while i < a.len() && i < b.len() && a[i] == b[i]
        invariant
            i <= a@.len(),
            i <= b@.len(),
            a@.subrange(0, i as int) == b@.subrange(0, i as int),
            bytes_lt(a@, b@) == bytes_lt(a@.subrange(i as int, a@.len() as int), b@.subrange(
                i as int,
                b@.len() as int,
            )),
        decreases a@.len() - i,
    {
        let ghost sa = a@.subrange(i as int, a@.len() as int);
        let ghost sb = b@.subrange(i as int, b@.len() as int);
        assert(sa.drop_first() =~= a@.subrange(i + 1, a@.len() as int));
        assert(sb.drop_first() =~= b@.subrange(i + 1, b@.len() as int));
        i = i + 1;
        assert(a@.subrange(0, i as int) =~= a@.subrange(0, i - 1).push(a@[i - 1]));
        assert(b@.subrange(0, i as int) =~= b@.subrange(0, i - 1).push(b@[i - 1]));
    }
    let ghost sa = a@.subrange(i as int, a@.len() as int);
    let ghost sb = b@.subrange(i as int, b@.len() as int);
    if i == a.len() {
        i < b.len()
    } else if i == b.len() {
        false
    } else {
        assert(sa[0] == a@[i as int] && sb[0] == b@[i as int]);
        a[i] < b[i]
    }
}

/// Allowlist: a small sorted set of normalized domains. Allowing a domain
/// allows its subdomains.
#[derive(Debug, Clone)]
pub struct Allowlist {
    items: Vec<String>,
}

impl Allowlist {
    /// The allowed domains as bytes, in order.
    pub closed spec fn key_seq(&self) -> Seq<Seq<u8>> {
        self.items@.map_values(|s: String| encode_utf8(s@))
    }

    /// The allowed domains, as bytes.
    pub open spec fn keys(&self) -> Set<Seq<u8>> {
        self.key_seq().to_set()
    }

    pub closed spec fn wf(&self) -> bool {
        strictly_increasing(self.key_seq())
    }

    /// Whether the list allows the (normalized) name `d`.
    pub open spec fn allows(&self, d: Seq<u8>) -> bool {
        suffix_listed(self.keys(), d)
    }

    pub fn new() -> (r: Self)
        ensures
            r.wf(),
            r.keys() == Set::<Seq<u8>>::empty(),
    {
        let r = Allowlist { items: Vec::new() };
        assert(r.key_seq() =~= Seq::<Seq<u8>>::empty());
        r
    }

    /// Where `key` is, or would go: the first item not less than `key`.
    fn position(&self, key: &[u8]) -> (r: (usize, bool))
        requires
            self.wf(),
        ensures
            r.0 <= self.key_seq().len(),
            forall|q: int| 0 <= q < r.0 ==> bytes_lt(#[trigger] self.key_seq()[q], key@),
            r.0 < self.key_seq().len() ==> !bytes_lt(self.key_seq()[r.0 as int], key@),
            r.1 == (r.0 < self.key_seq().len() && self.key_seq()[r.0 as int] == key@),
            r.1 == self.keys().contains(key@),
    {
        let ghost ks = self.key_seq();
        let mut p: usize = 0;
        while p < self.items.len()
            invariant
                ks == self.key_seq(),
                self.wf(),
                ks.len() == self.items@.len(),
                p <= ks.len(),
                forall|q: int| 0 <= q < p ==> bytes_lt(#[trigger] ks[q], key@),
            decreases ks.len() - p,
        {
            let b = bytes_of(self.items[p].as_str());
            assert(b@ == ks[p as int]);
            if !bytes_less(b.as_slice(), key) {
                let eq = bytes_equal(b.as_slice(), key);
                proof {
                    lemma_strict_no_dup(ks);
                    if !eq {
                        lemma_lt_total(ks[p as int], key@);
                        assert forall|q: int| 0 <= q < ks.len() implies ks[q] != key@ by {
                            if q < p {
                                lemma_lt_irrefl(key@);
                            } else if q > p {
                                lemma_lt_trans(key@, ks[p as int], ks[q]);
                                lemma_lt_irrefl(key@);
                            }
                        }
                    } else {
                        assert(ks.contains(key@));
                    }
                }
                return (p, eq);
            }
            p = p + 1;
        }
        proof {
            assert forall|q: int| 0 <= q < ks.len() implies ks[q] != key@ by {
                lemma_lt_irrefl(key@);
            }
        }
        (p, false)
    }

    fn contains_key(&self, key: &[u8]) -> (r: bool)
        requires
            self.wf(),
        ensures
            r == self.keys().contains(key@),
    {
        self.position(key).1
    }

    /// Normalizes first. Prefer `contains_normalized` where the name is normalized.
    pub fn contains(&self, domain: &str) -> (r: bool)
        requires
            self.wf(),
        ensures
            r == match normalize_spec(domain@) {
                Some(n) => self.allows(encode_utf8(n)),
                None => false,
            },
    {
        match normalize_domain(domain) {
            Some(d) => self.contains_normalized(d.as_str()),
            None => false,
        }
    }

    /// `domain` must already be normalized. Allowing a domain allows its subdomains.
    pub fn contains_normalized(&self, domain: &str) -> (r: bool)
        requires
            self.wf(),
        ensures
            r == self.allows(encode_utf8(domain@)),
    {
        let b = domain.as_bytes();
        let n = b.len();
        let mut i: usize = 0;
        while i < n
            invariant
                self.wf(),
                b@ == encode_utf8(domain@),
                n == b@.len(),
                i <= n,
                forall|k: int|
                    0 <= k < i && #[trigger] label_start(b@, k) ==> !self.keys().contains(
                        b@.subrange(k, n as int),
                    ),
            decreases n - i,
        {
            if i == 0 || b[i - 1] == 46u8 {
                if self.contains_key(&b[i..n]) {
                    assert(label_start(b@, i as int));
                    return true;
                }
            }
            i = i + 1;
        }
        if n == 0 || b[n - 1] == 46u8 {
            if self.contains_key(&b[n..n]) {
                assert(label_start(b@, n as int));
                return true;
            }
        }
        false
    }

    /// Adds the normalized form of `domain`; false when it is invalid or already there.
    pub fn insert(&mut self, domain: &str) -> (r: bool)
        requires
            old(self).wf(),
        ensures
            final(self).wf(),
            match normalize_spec(domain@) {
                None => !r && final(self).keys() == old(self).keys(),
                Some(n) => r == !old(self).keys().contains(encode_utf8(n)) && final(self).keys()
                    == old(self).keys().insert(encode_utf8(n)),
            },
    {
        match normalize_domain(domain) {
            None => false,
            Some(n) => {
                let key = bytes_of(n.as_str());
                let (p, found) = self.position(key.as_slice());
                if found {
                    assert(self.keys().insert(key@) =~= self.keys());
                    return false;
                }
                let ghost ks = self.key_seq();
                self.items.insert(p, n);
                proof {
                    assert(self.key_seq() =~= ks.insert(p as int, key@));
                    lemma_strict_no_dup(ks);
                    assert forall|i: int| 0 <= i < self.key_seq().len() - 1 implies #[trigger] bytes_lt(
                        self.key_seq()[i],
                        self.key_seq()[i + 1],
                    ) by {
                        if i + 1 < p {
                            assert(bytes_lt(ks[i], ks[i + 1]));
                        } else if i + 1 == p {
                        } else if i == p {
                            lemma_lt_total(ks[p as int], key@);
                        } else {
                            assert(bytes_lt(ks[i - 1], ks[(i - 1) + 1]));
                        }
                    }
                    ks.lemma_push_to_set_commute(key@);
                    assert forall|x: Seq<u8>| #[trigger] self.keys().contains(x) == ks.to_set().insert(key@).contains(x) by {
                        if self.keys().contains(x) {
                            let j = choose|j: int| 0 <= j < self.key_seq().len() && self.key_seq()[j] == x;
                            if j < p {
                                assert(ks[j] == x);
                            } else if j > p {
                                assert(ks[j - 1] == x);
                            }
                        }
                        if ks.to_set().contains(x) && x != key@ {
                            let j = choose|j: int| 0 <= j < ks.len() && ks[j] == x;
                            if j < p {
                                assert(self.key_seq()[j] == x);
                            } else {
                                assert(self.key_seq()[j + 1] == x);
                            }
                        }
                        if x == key@ {
                            assert(self.key_seq()[p as int] == x);
                        }
                    }
                    assert(self.keys() =~= ks.to_set().insert(key@));
                }
                true
            },
        }
    }

    /// Removes the normalized form of `domain`; false when it is invalid or absent.
    pub fn remove(&mut self, domain: &str) -> (r: bool)
        requires
            old(self).wf(),
        ensures
            final(self).wf(),
            match normalize_spec(domain@) {
                None => !r && final(self).keys() == old(self).keys(),
                Some(n) => r == old(self).keys().contains(encode_utf8(n)) && final(self).keys()
                    == old(self).keys().remove(encode_utf8(n)),
            },
    {
        match normalize_domain(domain) {
            None => false,
            Some(n) => {
                let key = bytes_of(n.as_str());
                let (p, found) = self.position(key.as_slice());
                if !found {
                    assert(self.keys().remove(key@) =~= self.keys());
                    return false;
                }
                let ghost ks = self.key_seq();
                self.items.remove(p);
                proof {
                    assert(self.key_seq() =~= ks.remove(p as int));
                    lemma_strict_no_dup(ks);
                    assert forall|i: int| 0 <= i < self.key_seq().len() - 1 implies #[trigger] bytes_lt(
                        self.key_seq()[i],
                        self.key_seq()[i + 1],
                    ) by {
                        if i + 1 < p {
                            assert(bytes_lt(ks[i], ks[i + 1]));
                        } else if i + 1 == p {
                            assert(bytes_lt(ks[i], ks[i + 2]));
                        } else {
                            assert(bytes_lt(ks[i + 1], ks[(i + 1) + 1]));
                        }
                    }
                    assert forall|x: Seq<u8>| #[trigger] self.keys().contains(x) == ks.to_set().remove(key@).contains(x) by {
                        if self.keys().contains(x) {
                            let j = choose|j: int| 0 <= j < self.key_seq().len() && self.key_seq()[j] == x;
                            if j < p {
                                assert(ks[j] == x);
                                assert(x != key@);
                            } else {
                                assert(ks[j + 1] == x);
                                assert(x != key@);
                            }
                        }
                        if ks.to_set().contains(x) && x != key@ {
                            let j = choose|j: int| 0 <= j < ks.len() && ks[j] == x;
                            if j < p {
                                assert(self.key_seq()[j] == x);
                            } else {
                                assert(j != p);
                                assert(self.key_seq()[j - 1] == x);
                            }
                        }
                    }
                    assert(self.keys() =~= ks.to_set().remove(key@));
                }
                true
            },
        }
    }

    /// A copy holding the same domains.
    pub fn duplicate(&self) -> (r: Self)
        requires
            self.wf(),
        ensures
            r.wf(),
            r.key_seq() == self.key_seq(),
    {
        let mut items: Vec<String> = Vec::new();
        let mut i: usize = 0;
        while i < self.items.len()
            invariant
                i <= self.items@.len(),
                items@.map_values(|s: String| encode_utf8(s@)) == self.key_seq().subrange(0, i as int),
            decreases self.items@.len() - i,
        {
            let s = self.items[i].clone();
            let ghost prev = items@;
            items.push(s);
            assert(items@.map_values(|s: String| encode_utf8(s@)) =~= prev.map_values(|s: String| encode_utf8(s@)).push(encode_utf8(s@)));
            i = i + 1;
            assert(items@.map_values(|s: String| encode_utf8(s@)) =~= self.key_seq().subrange(0, i as int));
        }
        assert(self.key_seq().subrange(0, self.key_seq().len() as int) =~= self.key_seq());
        Allowlist { items }
    }

    /// Builds the list from raw domains; invalid ones are dropped.
    pub fn from_domains(domains: &[String]) -> (r: Self)
        ensures
            r.wf(),
            r.keys() == normalized_keys(domains@),
    {
        let mut a = Allowlist::new();
        let mut i: usize = 0;
        while i < domains.len()
            invariant
                i <= domains@.len(),
                a.wf(),
                a.keys() == normalized_keys(domains@.subrange(0, i as int)),
            decreases domains@.len() - i,
        {
            let ghost sub = domains@.subrange(0, i as int);
            let ghost sub1 = domains@.subrange(0, i + 1);
            let ghost before = a.keys();
            a.insert(domains[i].as_str());
            proof {
                assert(sub1[i as int] == domains@[i as int]);
                assert forall|k: Seq<u8>| #[trigger] normalized_keys(sub1).contains(k) == a.keys().contains(k) by {
                    if normalized_keys(sub1).contains(k) {
                        let j = choose|j: int| 0 <= j < sub1.len() && #[trigger] key_of(sub1[j]@, k);
                        if j < i {
                            assert(sub[j] == sub1[j]);
                            assert(key_of(sub[j]@, k));
                            assert(normalized_keys(sub).contains(k));
                        }
                    }
                    if a.keys().contains(k) && before.contains(k) {
                        let j = choose|j: int| 0 <= j < sub.len() && #[trigger] key_of(sub[j]@, k);
                        assert(sub1[j] == sub[j]);
                        assert(key_of(sub1[j]@, k));
                    }
                    if a.keys().contains(k) && !before.contains(k) {
                        assert(key_of(sub1[i as int]@, k));
                    }
                }
                assert(normalized_keys(sub1) =~= a.keys());
            }
            i = i + 1;
        }
        assert(domains@.subrange(0, domains@.len() as int) =~= domains@);
        a
    }

    /// The allowed domains, sorted.
    pub fn list(&self) -> (r: Vec<String>)
        requires
            self.wf(),
        ensures
            r@.map_values(|s: String| encode_utf8(s@)) == self.key_seq(),
            strictly_increasing(r@.map_values(|s: String| encode_utf8(s@))),
            r@.map_values(|s: String| encode_utf8(s@)).to_set() == self.keys(),
    {
        let mut out: Vec<String> = Vec::new();
        let mut i: usize = 0;
        while i < self.items.len()
            invariant
                i <= self.items@.len(),
                out@.map_values(|s: String| encode_utf8(s@)) == self.key_seq().subrange(0, i as int),
            decreases self.items@.len() - i,
        {
            let s = self.items[i].clone();
            assert(s == self.items@[i as int]);
            let ghost prev = out@;
            out.push(s);
            assert(out@ == prev.push(s));
            assert(out@.map_values(|s: String| encode_utf8(s@)) =~= prev.map_values(|s: String| encode_utf8(s@)).push(encode_utf8(s@)));
            i = i + 1;
            assert(out@.map_values(|s: String| encode_utf8(s@)) =~= self.key_seq().subrange(0, i as int));
        }
        assert(self.key_seq().subrange(0, self.key_seq().len() as int) =~= self.key_seq());
        out
    }
}

/// Law: allowing a domain allows every name under it.
pub proof fn allowing_covers_subdomains(al: Allowlist, d: Seq<u8>, sub: Seq<u8>)
    requires
        al.keys().contains(d),
    ensures
        al.allows(d),
        al.allows(sub + seq![dot()] + d),
{
    assert(label_start(d, 0));
    assert(d.subrange(0, d.len() as int) =~= d);
    let x = sub + seq![dot()] + d;
    let i: int = sub.len() as int + 1;
    assert(label_start(x, i));
    assert(x.subrange(i, x.len() as int) =~= d);
}

/// Law: what `write_sorted_domains` and `write_domains_file` produce, a load
/// reads back as the same domains and the same count.
pub proof fn blocklist_file_roundtrip(count: u32, f: Seq<u8>, keys: Set<Seq<u8>>)
    requires
        fst_decoded(f) == Some(keys),
    ensures
        decode_file(header(count) + f) == Some((count, keys)),
{
    let b = header(count) + f;
    lemma_le_bytes(FILE_VERSION);
    lemma_le_bytes(count);
    assert(b.subrange(0, 4) =~= magic_aeg2());
    assert(b.subrange(4, 8) =~= le_bytes(FILE_VERSION));
    assert(b.subrange(8, 12) =~= le_bytes(count));
    assert(le32(b, 4) == le32(le_bytes(FILE_VERSION), 0));
    assert(le32(b, 8) == le32(le_bytes(count), 0));
    assert(b.subrange(12, b.len() as int) =~= f);
}

/// Law: a blocklist file written for a set of domains loads back as an intact
/// list of those domains, with their number as its count, blocking each of
/// them (and so every name under each, by `blocking_covers_subdomains`).
pub proof fn written_list_loads_back(count: u32, keys: Set<Seq<u8>>, b: Seq<u8>, bl: Blocklist)
    requires
        file_of(count, keys, b),
        loaded_from(b, bl),
    ensures
        bl.wf(),
        bl.keys() == keys,
        bl.count() == count,
        bl.count() > 0 ==> forall|d: Seq<u8>| #[trigger] keys.contains(d) ==> bl.blocks(d),
{
    let f = choose|f: Seq<u8>|
        #[trigger] fst_decoded(f) == Some(keys) && fst_well_formed(f) && b == header(count) + f;
    blocklist_file_roundtrip(count, f, keys);
    assert(b.subrange(12, b.len() as int) =~= f);
    if bl.count() > 0 {
        assert forall|d: Seq<u8>| #[trigger] keys.contains(d) implies bl.blocks(d) by {
            blocking_covers_subdomains(bl, d, seq![]);
        }
    }
}

/// Law: blocking a domain blocks every name under it.
pub proof fn blocking_covers_subdomains(bl: Blocklist, d: Seq<u8>, sub: Seq<u8>)
    requires
        bl.count() > 0,
        bl.keys().contains(d),
    ensures
        bl.blocks(d),
        bl.blocks(sub + seq![dot()] + d),
{
    assert(label_start(d, 0));
    assert(d.subrange(0, d.len() as int) =~= d);
    let x = sub + seq![dot()] + d;
    let i: int = sub.len() as int + 1;
    assert(label_start(x, i));
    assert(x.subrange(i, x.len() as int) =~= d);
}

} // verus!
