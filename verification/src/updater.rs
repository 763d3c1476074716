//! The decisions of a blocklist update: what the fetches came to, whether the
//! rebuilt list may replace the current one, and what the update reports.
//! Downloads, the list metadata database and the blocklist file are the
//! caller's; it runs the steps in order and hands each decision its inputs.

use vstd::prelude::*;
use vstd::utf8::*;
use crate::dns::FilterState;
use crate::normalize_list::{list_keys, normalize_list_text};
use crate::text::{bytes_of, concat, decimal, decimal_string, string_of};
use crate::trie::{
    dedup_sorted, lemma_strict_no_dup, sort_keys, strictly_increasing, views, write_sorted_domains,
    Blocklist, TrieError,
};

verus! {

/// How an update ended.
#[derive(Debug, Clone)]
pub enum UpdateOutcome {
    NotModified,
    Updated { domains: usize },
    Failed { message: String },
}

/// What one conditional download gave.
pub enum FetchResult {
    NotModified,
    Body { text: String, etag: Option<String>, last_modified: Option<String> },
}

/// A downloaded list and the validators to send next time.
pub struct ListBody {
    pub url: String,
    pub text: String,
    pub etag: Option<String>,
    pub last_modified: Option<String>,
}

/// The downloads of one update, sorted out.
pub struct FetchTally {
    /// URLs whose download failed, in the order met.
    pub failed_urls: Vec<String>,
    /// The error of each failed download, to record against its URL.
    pub errors: Vec<(String, String)>,
    /// URLs that answered 304.
    pub not_modified: Vec<String>,
    pub bodies: Vec<ListBody>,
}

/// Last known state of one list URL.
#[derive(Debug, Clone)]
pub struct ListSourceStat {
    pub url: String,
    pub domain_count: i64,
    pub last_success_unix: Option<i64>,
    pub last_error: Option<String>,
}

/// The stat of `url` from its database row (domain count, last success,
/// last error), or a fresh one when the URL has no row yet.
pub fn stat_or_default(url: &str, row: Option<(i64, Option<i64>, Option<String>)>) -> (r: ListSourceStat)
    ensures
        r.url@ == url@,
        match row {
            Some((c, s, e)) => r.domain_count == c && r.last_success_unix == s && r.last_error == e,
            None => r.domain_count == 0 && r.last_success_unix is None && r.last_error is None,
        },
{
    match row {
        Some((c, s, e)) => ListSourceStat {
            url: string_of(url),
            domain_count: c,
            last_success_unix: s,
            last_error: e,
        },
        None => ListSourceStat {
            url: string_of(url),
            domain_count: 0,
            last_success_unix: None,
            last_error: None,
        },
    }
}

/// A downloaded list as plain values: URL, text, ETag, Last-Modified.
pub type BodyView = (Seq<char>, Seq<char>, Option<Seq<char>>, Option<Seq<char>>);

pub open spec fn opt_chars(o: Option<String>) -> Option<Seq<char>> {
    crate::dns::opt_chars(o)
}

pub open spec fn body_view(b: ListBody) -> BodyView {
    (b.url@, b.text@, opt_chars(b.etag), opt_chars(b.last_modified))
}

pub open spec fn body_views(b: Seq<ListBody>) -> Seq<BodyView> {
    b.map_values(|x: ListBody| body_view(x))
}

pub open spec fn body_texts(b: Seq<ListBody>) -> Seq<Seq<char>> {
    b.map_values(|x: ListBody| x.text@)
}

pub open spec fn error_views(e: Seq<(String, String)>) -> Seq<(Seq<char>, Seq<char>)> {
    e.map_values(|x: (String, String)| (x.0@, x.1@))
}

pub open spec fn failed(t: FetchTally) -> Seq<Seq<char>> {
    t.failed_urls@.map_values(|s: String| s@)
}

pub open spec fn not_modified(t: FetchTally) -> Seq<Seq<char>> {
    t.not_modified@.map_values(|s: String| s@)
}

/// The URLs of the failed downloads, in order.
pub open spec fn failed_of(v: Seq<(String, Result<FetchResult, String>)>) -> Seq<Seq<char>>
    decreases v.len(),
{
    if v.len() == 0 {
        Seq::empty()
    } else {
        let rest = failed_of(v.drop_last());
        match v.last().1 {
            Err(_) => rest.push(v.last().0@),
            _ => rest,
        }
    }
}

/// The failed downloads and their errors, in order.
pub open spec fn errors_of(v: Seq<(String, Result<FetchResult, String>)>) -> Seq<(Seq<char>, Seq<char>)>
    decreases v.len(),
{
    if v.len() == 0 {
        Seq::empty()
    } else {
        let rest = errors_of(v.drop_last());
        match v.last().1 {
            Err(e) => rest.push((v.last().0@, e@)),
            _ => rest,
        }
    }
}

/// The URLs that answered 304, in order.
pub open spec fn unchanged_of(v: Seq<(String, Result<FetchResult, String>)>) -> Seq<Seq<char>>
    decreases v.len(),
{
    if v.len() == 0 {
        Seq::empty()
    } else {
        let rest = unchanged_of(v.drop_last());
        match v.last().1 {
            Ok(FetchResult::NotModified) => rest.push(v.last().0@),
            _ => rest,
        }
    }
}

/// The downloaded lists, in order.
pub open spec fn bodies_of(v: Seq<(String, Result<FetchResult, String>)>) -> Seq<BodyView>
    decreases v.len(),
{
    if v.len() == 0 {
        Seq::empty()
    } else {
        let rest = bodies_of(v.drop_last());
        match v.last().1 {
            Ok(FetchResult::Body { text, etag, last_modified }) => rest.push(
                (v.last().0@, text@, opt_chars(etag), opt_chars(last_modified)),
            ),
            _ => rest,
        }
    }
}

/// Sorts the download results, in order, into failures, 304s and bodies.
pub fn tally_fetches(fetched: Vec<(String, Result<FetchResult, String>)>) -> (t: FetchTally)
    ensures
        failed(t) == failed_of(fetched@),
        error_views(t.errors@) == errors_of(fetched@),
        not_modified(t) == unchanged_of(fetched@),
        body_views(t.bodies@) == bodies_of(fetched@),
{
    let ghost all = fetched@;
    let mut t = FetchTally {
        failed_urls: Vec::new(),
        errors: Vec::new(),
        not_modified: Vec::new(),
        bodies: Vec::new(),
    };
    let mut rest = fetched;
    let ghost done: Seq<(String, Result<FetchResult, String>)> = Seq::empty();
    assert(failed(t) =~= failed_of(done));
    assert(error_views(t.errors@) =~= errors_of(done));
    assert(not_modified(t) =~= unchanged_of(done));
    assert(body_views(t.bodies@) =~= bodies_of(done));
    assert(done + rest@ =~= all);
    while rest.len() > 0
        invariant
            done + rest@ == all,
            failed(t) == failed_of(done),
            error_views(t.errors@) == errors_of(done),
            not_modified(t) == unchanged_of(done),
            body_views(t.bodies@) == bodies_of(done),
        decreases rest@.len(),
    {
        let ghost before = rest@;
        let (url, res) = rest.remove(0);
        let ghost item = (url, res);
        let ghost done2 = done.push(item);
        proof {
            assert(before[0] == item);
            assert(rest@ =~= before.subrange(1, before.len() as int));
            assert(done2 + rest@ =~= done + before);
            assert(done2.drop_last() =~= done);
            assert(done2.last() == item);
        }
        let ghost f0 = failed(t);
        let ghost e0 = error_views(t.errors@);
        let ghost n0 = not_modified(t);
        let ghost b0 = body_views(t.bodies@);
        match res {
            Ok(FetchResult::NotModified) => {
                t.not_modified.push(url);
                assert(not_modified(t) =~= n0.push(item.0@));
            },
            Ok(FetchResult::Body { text, etag, last_modified }) => {
                let b = ListBody { url, text, etag, last_modified };
                let ghost bv = body_view(b);
                t.bodies.push(b);
                assert(body_views(t.bodies@) =~= b0.push(bv));
            },
            Err(e) => {
                let u2 = url.clone();
                let ghost ev = (url@, e@);
                t.failed_urls.push(url);
                t.errors.push((u2, e));
                assert(failed(t) =~= f0.push(item.0@));
                assert(error_views(t.errors@) =~= e0.push(ev));
            },
        }
        proof {
            done = done2;
        }
    }
    assert(done =~= all);
    t
}

/// Every download answered 304: the current list stays, and the update is a
/// healthy one.
pub open spec fn all_unchanged(t: FetchTally) -> bool {
    t.bodies@.len() == 0 && t.failed_urls@.len() == 0
}

pub fn nothing_changed(t: &FetchTally) -> (r: bool)
    ensures
        r == all_unchanged(*t),
{
    t.bodies.len() == 0 && t.failed_urls.len() == 0
}

/// Adds the unconditional download of a URL that had answered 304: its body
/// (with no validators), or its failure.
pub fn add_refetch(t: &mut FetchTally, url: String, res: Result<String, String>)
    ensures
        match res {
            Ok(text) => {
                &&& body_views(final(t).bodies@) == body_views(old(t).bodies@).push(
                    (url@, text@, None, None),
                )
                &&& final(t).failed_urls@ == old(t).failed_urls@
                &&& final(t).errors@ == old(t).errors@
            },
            Err(e) => {
                &&& failed(*final(t)) == failed(*old(t)).push(url@)
                &&& error_views(final(t).errors@) == error_views(old(t).errors@).push((url@, e@))
                &&& final(t).bodies@ == old(t).bodies@
            },
        },
        final(t).not_modified@ == old(t).not_modified@,
{
    let ghost f0 = failed(*t);
    let ghost e0 = error_views(t.errors@);
    let ghost b0 = body_views(t.bodies@);
    match res {
        Ok(text) => {
            let b = ListBody { url, text, etag: None, last_modified: None };
            let ghost bv = body_view(b);
            t.bodies.push(b);
            assert(body_views(t.bodies@) =~= b0.push(bv));
        },
        Err(e) => {
            let u2 = url.clone();
            let ghost ev = (url@, e@);
            t.failed_urls.push(url);
            t.errors.push((u2, e));
            assert(failed(*t) =~= f0.push(url@));
            assert(error_views(t.errors@) =~= e0.push(ev));
        },
    }
}

/// A failed list that contributed domains before: the rebuild would silently
/// miss a whole feed.
pub open spec fn lost_feed_at(stats: Seq<ListSourceStat>, i: int) -> bool {
    0 <= i < stats.len() && stats[i].domain_count > 0 && forall|j: int|
        0 <= j < i ==> #[trigger] stats[j].domain_count <= 0
}

pub open spec fn lost_feed_message(s: ListSourceStat) -> Seq<char> {
    "a lista "@ + s.url@ + " falhou e antes contribuía com "@ + decimal(s.domain_count as nat)
        + " domínios; mantendo a blocklist anterior."@
}

/// The refusal for the first failed list that used to contribute domains, if any.
pub fn lost_feed(stats: &Vec<ListSourceStat>) -> (r: Option<String>)
    ensures
        match r {
            Some(m) => exists|i: int| #[trigger] lost_feed_at(stats@, i) && m@ == lost_feed_message(stats@[i]),
            None => forall|j: int| 0 <= j < stats@.len() ==> #[trigger] stats@[j].domain_count <= 0,
        },
{
    let mut i: usize = 0;
    while i < stats.len()
        invariant
            i <= stats@.len(),
            forall|j: int| 0 <= j < i ==> #[trigger] stats@[j].domain_count <= 0,
        decreases stats@.len() - i,
    {
        let s = &stats[i];
        if s.domain_count > 0 {
            let a = concat("a lista ", s.url.as_str());
            let b = concat(a.as_str(), " falhou e antes contribuía com ");
            let c = concat(b.as_str(), decimal_string(s.domain_count as u64).as_str());
            let m = concat(c.as_str(), " domínios; mantendo a blocklist anterior.");
            assert(lost_feed_at(stats@, i as int));
            return Some(m);
        }
        i = i + 1;
    }
    None
}

/// The domains the lists `texts` block together, as bytes.
pub open spec fn merged_keys(texts: Seq<Seq<char>>) -> Set<Seq<u8>>
    decreases texts.len(),
{
    if texts.len() == 0 {
        Set::empty()
    } else {
        merged_keys(texts.drop_last()).union(list_keys(texts.last()))
    }
}

/// The rebuilt list and how many domains each downloaded list gave.
pub struct MergedLists {
    pub keys: Vec<Vec<u8>>,
    pub counts: Vec<usize>,
}

/// The union of the lists, sorted and without repeats, and the size of each list.
pub fn merge_lists(bodies: &Vec<ListBody>) -> (r: MergedLists)
    ensures
        strictly_increasing(views(r.keys@)),
        views(r.keys@).to_set() == merged_keys(body_texts(bodies@)),
        r.counts@.len() == bodies@.len(),
        forall|i: int| 0 <= i < bodies@.len() ==> #[trigger] r.counts@[i] == list_keys(bodies@[i].text@).len(),
{
    let ghost texts = body_texts(bodies@);
    let mut keys: Vec<Vec<u8>> = Vec::new();
    let mut counts: Vec<usize> = Vec::new();
    let mut i: usize = 0;
    while i < bodies.len()
        invariant
            texts == body_texts(bodies@),
            i <= bodies@.len(),
            views(keys@).to_set() == merged_keys(texts.subrange(0, i as int)),
            counts@.len() == i,
            forall|q: int| 0 <= q < i ==> #[trigger] counts@[q] == list_keys(bodies@[q].text@).len(),
        decreases bodies@.len() - i,
    {
        let d = normalize_list_text(bodies[i].text.as_str());
        let ghost enc = d@.map_values(|s: String| encode_utf8(s@));
        proof {
            lemma_strict_no_dup(enc);
            enc.unique_seq_to_set();
        }
        counts.push(d.len());
        let ghost prev = views(keys@).to_set();
        let mut j: usize = 0;
        while j < d.len()
            invariant
                j <= d@.len(),
                enc == d@.map_values(|s: String| encode_utf8(s@)),
                views(keys@).to_set() == prev.union(enc.subrange(0, j as int).to_set()),
            decreases d@.len() - j,
        {
            let ghost before = views(keys@);
            keys.push(bytes_of(d[j].as_str()));
            proof {
                assert(views(keys@) =~= before.push(enc[j as int]));
                before.lemma_push_to_set_commute(enc[j as int]);
                assert(enc.subrange(0, j + 1) =~= enc.subrange(0, j as int).push(enc[j as int]));
                enc.subrange(0, j as int).lemma_push_to_set_commute(enc[j as int]);
                assert(views(keys@).to_set() =~= prev.union(enc.subrange(0, j + 1).to_set()));
            }
            j = j + 1;
        }
        proof {
            assert(enc.subrange(0, d@.len() as int) =~= enc);
            let sub1 = texts.subrange(0, i + 1);
            assert(sub1.drop_last() =~= texts.subrange(0, i as int));
            assert(sub1.last() == bodies@[i as int].text@);
        }
        i = i + 1;
    }
    assert(texts.subrange(0, bodies@.len() as int) =~= texts);
    let ghost unsorted = views(keys@);
    sort_keys(&mut keys);
    proof {
        assert forall|k: Seq<u8>| views(keys@).to_set().contains(k) <==> unsorted.to_set().contains(
            k,
        ) by {
            vstd::seq_lib::to_multiset_contains(views(keys@), k);
            vstd::seq_lib::to_multiset_contains(unsorted, k);
        }
        assert(views(keys@).to_set() =~= unsorted.to_set());
    }
    let merged = dedup_sorted(&keys);
    MergedLists { keys: merged, counts }
}

pub open spec fn all_failed_message() -> Seq<char> {
    "all list fetches failed; keeping previous blocklist"@
}

pub open spec fn nothing_recognized_message(url_count: usize, prev_count: usize) -> Seq<char> {
    "as "@ + decimal(url_count as nat)
        + " lista(s) baixaram, mas nenhum domínio foi reconhecido; mantendo a blocklist anterior ("@
        + decimal(prev_count as nat) + " domínios)."@
}

pub open spec fn shrunk_message(url_count: usize, fetch_errors: usize, prev_count: usize, new_count: usize) -> Seq<char> {
    decimal(fetch_errors as nat) + " de "@ + decimal(url_count as nat)
        + " lista(s) falharam ao baixar, então a lista reconstruída ficou pequena demais ("@
        + decimal(new_count as nat) + " < 50% dos "@ + decimal(prev_count as nat)
        + " anteriores); mantendo a anterior. Veja o erro de cada lista em Ajustes → Listas."@
}

/// Why the rebuilt list of `new_count` domains may not replace the current one
/// of `prev_count`, if it may not: every download failed and nothing was
/// rebuilt; or the lists downloaded but none of their lines was recognized (a
/// captive portal's HTML, say); or a download failed and the list shrank below
/// half of the previous list.
pub open spec fn rebuild_refusal(url_count: usize, fetch_errors: usize, prev_count: usize, new_count: usize) -> Option<Seq<char>> {
    if new_count == 0 && fetch_errors > 0 {
        Some(all_failed_message())
    } else if new_count == 0 && prev_count > 0 {
        Some(nothing_recognized_message(url_count, prev_count))
    } else if fetch_errors > 0 && new_count * 2 < prev_count {
        Some(shrunk_message(url_count, fetch_errors, prev_count, new_count))
    } else {
        None
    }
}

/// Whether the rebuilt list may replace the current one (see `rebuild_refusal`).
pub fn check_rebuild(url_count: usize, fetch_errors: usize, prev_count: usize, new_count: usize) -> (r: Result<(), String>)
    ensures
        match rebuild_refusal(url_count, fetch_errors, prev_count, new_count) {
            None => r is Ok,
            Some(m) => r matches Err(e) && e@ == m,
        },
{
    if new_count == 0 && fetch_errors > 0 {
        return Err(string_of("all list fetches failed; keeping previous blocklist"));
    }
    if new_count == 0 && prev_count > 0 {
        let a = concat("as ", decimal_string(url_count as u64).as_str());
        let b = concat(
            a.as_str(),
            " lista(s) baixaram, mas nenhum domínio foi reconhecido; mantendo a blocklist anterior (",
        );
        let c = concat(b.as_str(), decimal_string(prev_count as u64).as_str());
        return Err(concat(c.as_str(), " domínios)."));
    }
    if fetch_errors > 0 && new_count < prev_count && new_count < prev_count
        - new_count {
        let a = concat(decimal_string(fetch_errors as u64).as_str(), " de ");
        let b = concat(a.as_str(), decimal_string(url_count as u64).as_str());
        let c = concat(
            b.as_str(),
            " lista(s) falharam ao baixar, então a lista reconstruída ficou pequena demais (",
        );
        let d = concat(c.as_str(), decimal_string(new_count as u64).as_str());
        let e = concat(d.as_str(), " < 50% dos ");
        let f = concat(e.as_str(), decimal_string(prev_count as u64).as_str());
        return Err(
            concat(
                f.as_str(),
                " anteriores); mantendo a anterior. Veja o erro de cada lista em Ajustes → Listas.",
            ),
        );
    }
    Ok(())
}

/// Where the downloaded lists lead.
pub enum Rebuild {
    /// A failed list used to contribute domains: nothing is merged, and the
    /// update fails with this message.
    LostFeed(String),
    /// The lists were merged: the domain count of each list, to record, and the
    /// blocklist file to write with its domain count, or why the current list stays.
    Merged { counts: Vec<usize>, file: Result<(usize, Vec<u8>), String> },
}

/// The rebuild from the downloaded lists of `tally`, given `url_count`
/// configured lists, a current list of `prev_count` domains, and the stored
/// statistics of the failed lists (`None` when none failed or they could not
/// be read). A file comes back only when no guard refuses the rebuild.
pub fn rebuild(url_count: usize, prev_count: usize, tally: &FetchTally, failed_stats: Option<Vec<ListSourceStat>>) -> (r: Rebuild)
    ensures
        match failed_stats {
            Some(st) if exists|i: int| #[trigger] lost_feed_at(st@, i) => r matches Rebuild::LostFeed(m)
                && exists|i: int| #[trigger] lost_feed_at(st@, i) && m@ == lost_feed_message(st@[i]),
            _ => r matches Rebuild::Merged { counts, file } && {
                let keys = merged_keys(body_texts(tally.bodies@));
                &&& counts@.len() == tally.bodies@.len()
                &&& forall|i: int|
                    0 <= i < counts@.len() ==> #[trigger] counts@[i] == list_keys(tally.bodies@[i].text@).len()
                &&& match rebuild_refusal(url_count, tally.failed_urls@.len() as usize, prev_count, keys.len() as usize) {
                    Some(m) => file matches Err(e) && e@ == m,
                    None => file matches Ok((n, b)) && n == keys.len()
                        && crate::trie::file_of(n as u32, keys, b@),
                }
            },
        },
{
    match &failed_stats {
        Some(st) => match lost_feed(st) {
            Some(m) => return Rebuild::LostFeed(m),
            None => {
                proof {
                    assert forall|i: int| !#[trigger] lost_feed_at(st@, i) by {}
                }
            },
        },
        None => {},
    }
    let merged = merge_lists(&tally.bodies);
    let n = merged.keys.len();
    proof {
        lemma_strict_no_dup(views(merged.keys@));
        views(merged.keys@).unique_seq_to_set();
        crate::trie::lemma_strict_non_decreasing(views(merged.keys@));
    }
    let file = match check_rebuild(url_count, tally.failed_urls.len(), prev_count, n) {
        Err(m) => Err(m),
        Ok(()) => match write_sorted_domains(n, &merged.keys) {
            Ok(b) => Ok((n, b)),
            Err(_) => vstd::pervasive::unreached(),
        },
    };
    Rebuild::Merged { counts: merged.counts, file }
}

/// The file of an empty blocklist, written when no list is configured.
pub fn empty_blocklist_file() -> (r: Vec<u8>)
    ensures
        crate::trie::file_of(0, Set::<Seq<u8>>::empty(), r@),
{
    let keys: Vec<Vec<u8>> = Vec::new();
    assert(views(keys@) =~= Seq::<Seq<u8>>::empty());
    assert(views(keys@).to_set() =~= Set::<Seq<u8>>::empty());
    match write_sorted_domains(0, &keys) {
        Ok(b) => b,
        Err(_) => vstd::pervasive::unreached(),
    }
}

/// Every list answered 304: the error banner goes, and nothing else changes.
pub fn settle_unchanged(filter: &mut FilterState) -> (r: UpdateOutcome)
    ensures
        r is NotModified,
        final(filter).last_update_error is None,
        final(filter).blocklist == old(filter).blocklist,
        final(filter).allowlist == old(filter).allowlist,
        final(filter).domain_count == old(filter).domain_count,
        final(filter).list_updated_at_unix == old(filter).list_updated_at_unix,
        final(filter).recent == old(filter).recent,
{
    filter.last_update_error = None;
    UpdateOutcome::NotModified
}

/// The rebuilt list goes in place: it is recorded with its size and the time,
/// the error banner goes, and the update reports `domains`.
pub fn adopt_blocklist(filter: &mut FilterState, bl: Blocklist, domains: usize) -> (r: UpdateOutcome)
    ensures
        r == (UpdateOutcome::Updated { domains }),
        final(filter).blocklist == bl,
        final(filter).domain_count == bl.count(),
        final(filter).last_update_error is None,
        final(filter).allowlist == old(filter).allowlist,
        final(filter).recent == old(filter).recent,
{
    filter.swap_blocklist(bl);
    filter.last_update_error = None;
    UpdateOutcome::Updated { domains }
}

/// The update failed: the current list stays and the error is shown.
pub fn fail_update(filter: &mut FilterState, message: String) -> (r: UpdateOutcome)
    ensures
        r matches UpdateOutcome::Failed { message: m } && m@ == message@,
        final(filter).last_update_error matches Some(e) && e@ == message@,
        final(filter).blocklist == old(filter).blocklist,
        final(filter).allowlist == old(filter).allowlist,
        final(filter).domain_count == old(filter).domain_count,
        final(filter).list_updated_at_unix == old(filter).list_updated_at_unix,
        final(filter).recent == old(filter).recent,
{
    let shown = message.clone();
    filter.last_update_error = Some(shown);
    UpdateOutcome::Failed { message }
}

/// The message of an update that overlapped a running one.
pub fn busy_outcome() -> (r: UpdateOutcome)
    ensures
        r matches UpdateOutcome::Failed { message: m } && m@ == "update already running"@,
{
    UpdateOutcome::Failed { message: string_of("update already running") }
}

/// Law: when a download failed and the rebuilt list holds less than half of
/// the previous list, the previous list is kept.
pub proof fn failed_shrink_keeps_previous(url_count: usize, fetch_errors: usize, prev_count: usize, new_count: usize)
    requires
        fetch_errors > 0,
        new_count * 2 < prev_count,
    ensures
        rebuild_refusal(url_count, fetch_errors, prev_count, new_count) is Some,
{
}

/// Law: when the lists downloaded but no line was recognized, a previous
/// non-empty list is kept rather than replaced by an empty filter.
pub proof fn unrecognized_lists_keep_previous(url_count: usize, fetch_errors: usize, prev_count: usize)
    requires
        prev_count > 0,
    ensures
        rebuild_refusal(url_count, fetch_errors, prev_count, 0) is Some,
{
}

/// Law: with every download in hand, a non-empty rebuild is adopted, however
/// much it shrank: that is a real change upstream.
pub proof fn clean_rebuild_is_adopted(url_count: usize, prev_count: usize, new_count: usize)
    requires
        new_count > 0,
    ensures
        rebuild_refusal(url_count, 0, prev_count, new_count) is None,
{
}

} // verus!
