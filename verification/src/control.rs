//! The control protocol's decisions: one JSON request per line comes in, one
//! reply goes out. The socket, the JSON and the files are the caller's: it
//! hands `dispatch` the method and the parameters it read, performs the step it
//! gets back (save the configuration, load it, read the blocklist file, start
//! an update, read the list statistics) and passes the outcome on.

use vstd::prelude::*;
use vstd::utf8::*;
use crate::config::{copy_strings, strs, Config, ConfigView};
use crate::dns::{is_listener, socket_addr_of, DnsProxy, SockAddr};
use crate::metrics::{MetricsSnapshot, sat_sub};
use crate::paths::AegisPaths;
use crate::recent::RecentEntry;
use crate::text::{chars_of, concat, string_of};
use crate::normalize::chars_equal;
use crate::trie::{normalized_keys, trie_error_text, Allowlist, Blocklist, decode_file};
use crate::updater::ListSourceStat;

verus! {

/// What the methods read of a request's parameters. Each field is `None`
/// when the parameter is missing or not of the expected JSON type.
pub struct Params {
    /// `enabled`, a boolean.
    pub enabled: Option<bool>,
    /// `domain`, a string.
    pub domain: Option<String>,
    /// `url`, a string.
    pub url: Option<String>,
    /// `limit`, an unsigned integer.
    pub limit: Option<u64>,
    pub patch: ConfigPatch,
}

/// What `patch_config` reads of its parameters (JSON pointers). An array is
/// kept entry by entry, `None` for an entry that is not a string.
pub struct ConfigPatch {
    /// `/daemon/enabled`
    pub daemon_enabled: Option<bool>,
    /// `/upstream/servers`
    pub upstream_servers: Option<Vec<Option<String>>>,
    /// `/upstream/timeout_ms`
    pub upstream_timeout_ms: Option<u64>,
    /// `/lists/auto_update`
    pub lists_auto_update: Option<bool>,
    /// `/lists/interval_hours`
    pub lists_interval_hours: Option<u64>,
    /// `/lists/urls`
    pub lists_urls: Option<Vec<Option<String>>>,
    /// `/allowlist/domains`
    pub allowlist_domains: Option<Vec<Option<String>>>,
}

/// The daemon's state as the status method reports it.
pub struct StatusInfo {
    pub enabled: bool,
    pub filtering: bool,
    pub uptime_secs: u64,
    pub listen: Vec<String>,
    pub domain_count: usize,
    pub list_updated_at: u64,
    pub last_update_error: Option<String>,
    pub socket: String,
}

/// What the lists methods report.
pub struct ListsPayload {
    pub urls: Vec<String>,
    pub auto_update: bool,
    pub interval_hours: u64,
    pub list_count: usize,
    pub unique_domains: usize,
    pub sum_domain_counts: i64,
    pub sources: Vec<ListSourceStat>,
}

/// A reply to a control request.
pub enum Reply {
    Pong,
    Metrics(MetricsSnapshot),
    Status(StatusInfo),
    Enabled(bool),
    Reloaded,
    /// Domains in the reloaded blocklist.
    ListDomains(usize),
    Started,
    /// The update was not started, and why.
    NotStarted { reason: String },
    Config(Config),
    Saved,
    /// The allowlist, sorted.
    Allowlist(Vec<String>),
    Recent(Vec<RecentEntry>),
    Cleared,
    Lists(ListsPayload),
    Error { code: String, message: String },
}

/// What to do after the configuration was saved.
pub enum AfterSave {
    /// Publish it and set filtering to this.
    Enabled(bool),
    /// Publish it.
    Patch,
    /// Publish it with this allowlist, clearing the answer cache if asked.
    Allowlist { allow: Allowlist, clear_cache: bool },
    /// Publish it and report the lists.
    Lists,
}

/// The next step of a control request.
pub enum ControlStep {
    /// Send this reply.
    Done(Reply),
    /// Save `config` to the configuration file, then call `after_save`.
    Save { config: Config, then: AfterSave },
    /// Load the configuration file, then call `config_loaded`.
    LoadConfig,
    /// Read the blocklist file, then call `blocklist_read`.
    ReadBlocklist,
    /// Start a list update over `urls` in the background unless one is
    /// running, then call `update_start` with whether it began.
    StartUpdate { urls: Vec<String> },
    /// Read the statistics of `urls` from the list database, then call `stats_read`.
    ReadStats { urls: Vec<String> },
}

pub open spec fn reply_error(step: ControlStep, code: Seq<char>, message: Seq<char>) -> bool {
    step matches ControlStep::Done(Reply::Error { code: c, message: m }) && c@ == code && m@ == message
}

fn error_step(code: &str, message: String) -> (r: ControlStep)
    ensures
        reply_error(r, code@, message@),
{
    ControlStep::Done(Reply::Error { code: string_of(code), message })
}

// ---------------------------------------------------------------------------
// patch_config
// ---------------------------------------------------------------------------

pub open spec fn opt_strs(v: Option<Vec<Option<String>>>) -> Option<Seq<Option<Seq<char>>>> {
    match v {
        Some(x) => Some(x@.map_values(|o: Option<String>| crate::dns::opt_chars(o))),
        None => None,
    }
}

/// The strings among `v`, in order.
pub open spec fn only_strings(v: Seq<Option<Seq<char>>>) -> Seq<Seq<char>>
    decreases v.len(),
{
    if v.len() == 0 {
        Seq::empty()
    } else {
        let rest = only_strings(v.drop_last());
        match v.last() {
            Some(s) => rest.push(s),
            None => rest,
        }
    }
}

pub open spec fn not_string_message() -> Seq<char> {
    "upstream.servers deve conter apenas strings"@
}

pub open spec fn bad_address_message(s: Seq<char>) -> Seq<char> {
    "endereço de upstream inválido: "@ + s + " (use IP:porta)"@
}

pub open spec fn own_listener_message(s: Seq<char>) -> Seq<char> {
    s + " é o próprio Aegis; isso criaria um laço de DNS"@
}

pub open spec fn no_upstream_message() -> Seq<char> {
    "é preciso ao menos um servidor upstream"@
}

/// One entry of `/upstream/servers`: it must be a string holding a socket
/// address that is none of the daemon's listeners.
pub open spec fn server_entry(e: Option<Seq<char>>, listen: Seq<Seq<char>>) -> Result<Seq<char>, Seq<char>> {
    match e {
        None => Err(not_string_message()),
        Some(s) => match socket_addr_of(s) {
            None => Err(bad_address_message(s)),
            Some(a) => if is_listener(a, listen) {
                Err(own_listener_message(s))
            } else {
                Ok(s)
            },
        },
    }
}

/// The entries of `/upstream/servers`, checked in order: the first bad entry
/// rejects the whole array.
pub open spec fn server_entries(v: Seq<Option<Seq<char>>>, listen: Seq<Seq<char>>) -> Result<Seq<Seq<char>>, Seq<char>>
    decreases v.len(),
{
    if v.len() == 0 {
        Ok(Seq::empty())
    } else {
        match server_entries(v.drop_last(), listen) {
            Err(e) => Err(e),
            Ok(ps) => match server_entry(v.last(), listen) {
                Err(e) => Err(e),
                Ok(s) => Ok(ps.push(s)),
            },
        }
    }
}

/// `h` within `[1, 168]`.
pub open spec fn clamp_hours(h: u64) -> u64 {
    if h < 1 {
        1
    } else if h > 168 {
        168
    } else {
        h
    }
}

/// Every string among `v` is a list URL that may be fetched.
pub open spec fn all_https(v: Seq<Option<Seq<char>>>) -> bool {
    forall|i: int| 0 <= i < v.len() ==> (#[trigger] v[i] matches Some(u) ==> acceptable_url(u))
}

/// A patch's `/lists/urls` is acceptable: absent, or only `https://` URLs.
pub open spec fn urls_acceptable(urls: Option<Seq<Option<Seq<char>>>>) -> bool {
    urls matches Some(u) ==> all_https(u)
}

/// The configuration `c` with the patch applied, or why the patch is refused.
/// A list URL that is not `https://` refuses the whole patch before anything
/// else is looked at.
pub open spec fn patch_result(
    c: ConfigView,
    enabled: Option<bool>,
    servers: Option<Seq<Option<Seq<char>>>>,
    timeout_ms: Option<u64>,
    auto_update: Option<bool>,
    interval_hours: Option<u64>,
    urls: Option<Seq<Option<Seq<char>>>>,
    domains: Option<Seq<Option<Seq<char>>>>,
) -> Result<ConfigView, Seq<char>> {
    if !urls_acceptable(urls) {
        Err(https_message())
    } else {
        patch_checked(c, enabled, servers, timeout_ms, auto_update, interval_hours, urls, domains)
    }
}

/// The patch applied once its list URLs were found acceptable.
pub open spec fn patch_checked(
    c: ConfigView,
    enabled: Option<bool>,
    servers: Option<Seq<Option<Seq<char>>>>,
    timeout_ms: Option<u64>,
    auto_update: Option<bool>,
    interval_hours: Option<u64>,
    urls: Option<Seq<Option<Seq<char>>>>,
    domains: Option<Seq<Option<Seq<char>>>>,
) -> Result<ConfigView, Seq<char>> {
    let c1 = match enabled {
        Some(e) => ConfigView { enabled: e, ..c },
        None => c,
    };
    let checked: Result<Option<Seq<Seq<char>>>, Seq<char>> = match servers {
        None => Ok(None),
        Some(es) => match server_entries(es, c1.listen) {
            Err(e) => Err(e),
            Ok(ps) => if ps.len() == 0 {
                Err(no_upstream_message())
            } else {
                Ok(Some(ps))
            },
        },
    };
    match checked {
        Err(e) => Err(e),
        Ok(sv) => {
            let c2 = match sv {
                Some(ps) => ConfigView { servers: ps, ..c1 },
                None => c1,
            };
            let c3 = match timeout_ms {
                Some(t) => ConfigView { timeout_ms: t, ..c2 },
                None => c2,
            };
            let c4 = match auto_update {
                Some(a) => ConfigView { auto_update: a, ..c3 },
                None => c3,
            };
            let c5 = match interval_hours {
                Some(h) => ConfigView { interval_hours: clamp_hours(h), ..c4 },
                None => c4,
            };
            let c6 = match urls {
                Some(u) => ConfigView { urls: only_strings(u), ..c5 },
                None => c5,
            };
            let c7 = match domains {
                Some(d) => ConfigView { allow_domains: only_strings(d), ..c6 },
                None => c6,
            };
            Ok(c7)
        },
    }
}

pub open spec fn patch_of(c: ConfigView, p: ConfigPatch) -> Result<ConfigView, Seq<char>> {
    patch_result(
        c,
        p.daemon_enabled,
        opt_strs(p.upstream_servers),
        p.upstream_timeout_ms,
        p.lists_auto_update,
        p.lists_interval_hours,
        opt_strs(p.lists_urls),
        opt_strs(p.allowlist_domains),
    )
}

/// Whether every string among `v` is an acceptable list URL.
fn all_https_exec(v: &Vec<Option<String>>) -> (r: bool)
    ensures
        r == all_https(v@.map_values(|o: Option<String>| crate::dns::opt_chars(o))),
{
    let ghost vv = v@.map_values(|o: Option<String>| crate::dns::opt_chars(o));
    let mut i: usize = 0;
    while i < v.len()
        invariant
            vv == v@.map_values(|o: Option<String>| crate::dns::opt_chars(o)),
            i <= v@.len(),
            forall|k: int| 0 <= k < i ==> (#[trigger] vv[k] matches Some(u) ==> acceptable_url(u)),
        decreases v@.len() - i,
    {
        match &v[i] {
            Some(u) => {
                assert(vv[i as int] == Some(u@));
                if !acceptable_url_exec(u.as_str()) {
                    return false;
                }
            },
            None => {
                assert(vv[i as int] is None);
            },
        }
        i = i + 1;
    }
    true
}

/// The strings among `v`, in order.
fn keep_strings(v: &Vec<Option<String>>) -> (r: Vec<String>)
    ensures
        strs(r@) == only_strings(v@.map_values(|o: Option<String>| crate::dns::opt_chars(o))),
{
    let ghost vv = v@.map_values(|o: Option<String>| crate::dns::opt_chars(o));
    let mut out: Vec<String> = Vec::new();
    let mut i: usize = 0;
    while i < v.len()
        invariant
            vv == v@.map_values(|o: Option<String>| crate::dns::opt_chars(o)),
            i <= v@.len(),
            strs(out@) == only_strings(vv.subrange(0, i as int)),
        decreases v@.len() - i,
    {
        proof {
            let sub = vv.subrange(0, i + 1);
            assert(sub.drop_last() =~= vv.subrange(0, i as int));
            assert(sub.last() == crate::dns::opt_chars(v@[i as int]));
        }
        match &v[i] {
            Some(s) => {
                let ghost prev = strs(out@);
                out.push(s.clone());
                assert(strs(out@) =~= prev.push(s@));
            },
            None => {},
        }
        i = i + 1;
    }
    assert(vv.subrange(0, v@.len() as int) =~= vv);
    out
}

/// Checks the entries of `/upstream/servers` against the listeners `listen`.
fn check_servers(v: &Vec<Option<String>>, listen: &Vec<String>) -> (r: Result<Vec<String>, String>)
    ensures
        match server_entries(v@.map_values(|o: Option<String>| crate::dns::opt_chars(o)), strs(listen@)) {
            Ok(ps) => r matches Ok(x) && strs(x@) == ps,
            Err(e) => r matches Err(x) && x@ == e,
        },
{
    let ghost vv = v@.map_values(|o: Option<String>| crate::dns::opt_chars(o));
    let ghost lv = strs(listen@);
    let mut out: Vec<String> = Vec::new();
    let mut i: usize = 0;
    assert(strs(out@) =~= Seq::<Seq<char>>::empty());
    assert(vv.subrange(0, 0) =~= Seq::<Option<Seq<char>>>::empty());
    while i < v.len()
        invariant
            vv == v@.map_values(|o: Option<String>| crate::dns::opt_chars(o)),
            lv == strs(listen@),
            i <= v@.len(),
            server_entries(vv.subrange(0, i as int), lv) == Ok::<Seq<Seq<char>>, Seq<char>>(strs(out@)),
        decreases v@.len() - i,
    {
        let ghost sub = vv.subrange(0, i + 1);
        proof {
            assert(sub.drop_last() =~= vv.subrange(0, i as int));
            assert(sub.last() == crate::dns::opt_chars(v@[i as int]));
        }
        let s = match &v[i] {
            None => {
                proof {
                    lemma_server_entries_err_sticks(vv, lv, i as int + 1);
                }
                return Err(string_of("upstream.servers deve conter apenas strings"));
            },
            Some(s) => s,
        };
        let addr = match crate::dns::parse_socket_addr(s.as_str()) {
            None => {
                proof {
                    lemma_server_entries_err_sticks(vv, lv, i as int + 1);
                }
                let a = concat("endereço de upstream inválido: ", s.as_str());
                return Err(concat(a.as_str(), " (use IP:porta)"));
            },
            Some(a) => a,
        };
        if crate::dns::is_own_listener(&addr, listen) {
            proof {
                lemma_server_entries_err_sticks(vv, lv, i as int + 1);
            }
            return Err(concat(s.as_str(), " é o próprio Aegis; isso criaria um laço de DNS"));
        }
        let ghost prev = strs(out@);
        out.push(s.clone());
        assert(strs(out@) =~= prev.push(s@));
        i = i + 1;
    }
    assert(vv.subrange(0, v@.len() as int) =~= vv);
    Ok(out)
}

/// Once a prefix of the entries is refused, the whole array is refused for the same reason.
proof fn lemma_server_entries_err_sticks(v: Seq<Option<Seq<char>>>, listen: Seq<Seq<char>>, k: int)
    requires
        0 <= k <= v.len(),
        server_entries(v.subrange(0, k), listen) is Err,
    ensures
        server_entries(v, listen) == server_entries(v.subrange(0, k), listen),
    decreases v.len() - k,
{
    if k < v.len() {
        let sub = v.subrange(0, k + 1);
        assert(sub.drop_last() =~= v.subrange(0, k));
        lemma_server_entries_err_sticks(v, listen, k + 1);
    } else {
        assert(v.subrange(0, k) =~= v);
    }
}

/// The configuration `config` with `patch` applied, or why the patch is refused.
fn patched_config(config: &Config, patch: &ConfigPatch) -> (r: Result<Config, String>)
    ensures
        match patch_of(config@, *patch) {
            Ok(c) => r matches Ok(x) && x@ == c,
            Err(e) => r matches Err(x) && x@ == e,
        },
{
    match &patch.lists_urls {
        Some(urls) => {
            if !all_https_exec(urls) {
                return Err(string_of("a URL precisa começar com https://"));
            }
        },
        None => {},
    }
    let mut cfg = config.duplicate();
    match patch.daemon_enabled {
        Some(en) => {
            cfg.daemon.enabled = en;
        },
        None => {},
    }
    match &patch.upstream_servers {
        Some(servers) => {
            let parsed = match check_servers(servers, &cfg.daemon.listen) {
                Ok(p) => p,
                Err(e) => return Err(e),
            };
            if parsed.len() == 0 {
                return Err(string_of("é preciso ao menos um servidor upstream"));
            }
            cfg.upstream.servers = parsed;
        },
        None => {},
    }
    match patch.upstream_timeout_ms {
        Some(ms) => {
            cfg.upstream.timeout_ms = ms;
        },
        None => {},
    }
    match patch.lists_auto_update {
        Some(au) => {
            cfg.lists.auto_update = au;
        },
        None => {},
    }
    match patch.lists_interval_hours {
        Some(h) => {
            cfg.lists.interval_hours = if h < 1 {
                1
            } else if h > 168 {
                168
            } else {
                h
            };
        },
        None => {},
    }
    match &patch.lists_urls {
        Some(urls) => {
            cfg.lists.urls = keep_strings(urls);
        },
        None => {},
    }
    match &patch.allowlist_domains {
        Some(domains) => {
            cfg.allowlist.domains = keep_strings(domains);
        },
        None => {},
    }
    Ok(cfg)
}

/// Applies `patch` to a copy of the configuration. Once every check passed,
/// setting `/daemon/enabled` switches filtering at once, and a new
/// `/allowlist/domains` is published at once; the caller saves the returned
/// configuration and then publishes it with `after_save`. Any bad upstream
/// entry or list URL refuses the whole patch, and nothing is changed.
pub fn patch_config(proxy: &mut DnsProxy, patch: &ConfigPatch) -> (r: Result<Config, String>)
    requires
        old(proxy).wf(),
    ensures
        final(proxy).wf(),
        match patch_of(old(proxy).config@, *patch) {
            Ok(c) => r matches Ok(x) && x@ == c,
            Err(e) => r matches Err(x) && x@ == e && *final(proxy) == *old(proxy),
        },
        final(proxy).metrics == (crate::metrics::Metrics {
            filtering: match patch.daemon_enabled {
                Some(e) => if patch_of(old(proxy).config@, *patch) is Ok {
                    e
                } else {
                    old(proxy).metrics.filtering
                },
                None => old(proxy).metrics.filtering,
            },
            ..old(proxy).metrics
        }),
        r matches Ok(c) ==> (patch.allowlist_domains is Some ==> final(proxy).filter.allowlist.keys()
            == normalized_keys(c.allowlist.domains@)),
        !(r is Ok && patch.allowlist_domains is Some) ==> final(proxy).filter.allowlist
            == old(proxy).filter.allowlist,
        final(proxy).config == old(proxy).config,
        final(proxy).cache == old(proxy).cache,
        final(proxy).preferred() == old(proxy).preferred(),
        final(proxy).filter.blocklist == old(proxy).filter.blocklist,
        final(proxy).filter.domain_count == old(proxy).filter.domain_count,
        final(proxy).filter.list_updated_at_unix == old(proxy).filter.list_updated_at_unix,
        final(proxy).filter.last_update_error == old(proxy).filter.last_update_error,
        final(proxy).filter.recent == old(proxy).filter.recent,
{
    let cfg = match patched_config(&proxy.config, patch) {
        Err(e) => return Err(e),
        Ok(c) => c,
    };
    match &patch.allowlist_domains {
        Some(_) => {
            proxy.filter.allowlist = Allowlist::from_domains(cfg.allowlist.domains.as_slice());
        },
        None => {},
    }
    match patch.daemon_enabled {
        Some(en) => {
            proxy.metrics.filtering = en;
        },
        None => {},
    }
    Ok(cfg)
}

// ---------------------------------------------------------------------------
// Lists, allowlist edits.
// ---------------------------------------------------------------------------

/// The wrapping sum of the domain counts, as the report adds them.
pub open spec fn sum_counts(s: Seq<ListSourceStat>) -> i64
    decreases s.len(),
{
    if s.len() == 0 {
        0
    } else {
        sum_counts(s.drop_last()).wrapping_add(s.last().domain_count)
    }
}

/// `p` reports the lists of `config`, `unique` domains in the blocklist, and
/// the database rows `stats` when there are any, or a fresh entry per URL.
pub open spec fn lists_report(config: Config, unique: usize, stats: Option<Vec<ListSourceStat>>, p: ListsPayload) -> bool {
    &&& strs(p.urls@) == strs(config.lists.urls@)
    &&& p.auto_update == config.lists.auto_update
    &&& p.interval_hours == config.lists.interval_hours
    &&& p.list_count == config.lists.urls@.len()
    &&& p.unique_domains == unique
    &&& if stats is Some && stats->0@.len() > 0 {
        p.sum_domain_counts == sum_counts(stats->0@) && p.sources@ == stats->0@
    } else {
        &&& p.sum_domain_counts == 0
        &&& p.sources@.len() == config.lists.urls@.len()
        &&& forall|i: int|
            0 <= i < p.sources@.len() ==> {
                let s = #[trigger] p.sources@[i];
                &&& s.url@ == config.lists.urls@[i]@
                &&& s.domain_count == 0
                &&& s.last_success_unix is None
                &&& s.last_error is None
            }
    }
}

/// What the lists methods report.
pub fn lists_payload(config: &Config, unique: usize, stats: Option<Vec<ListSourceStat>>) -> (r: ListsPayload)
    ensures
        lists_report(*config, unique, stats, r),
{
    let ghost st = stats;
    let mut sum: i64 = 0;
    let mut sources: Vec<ListSourceStat> = Vec::new();
    match stats {
        Some(rows) => {
            let mut i: usize = 0;
            while i < rows.len()
                invariant
                    i <= rows@.len(),
                    sum == sum_counts(rows@.subrange(0, i as int)),
                decreases rows@.len() - i,
            {
                proof {
                    let sub = rows@.subrange(0, i + 1);
                    assert(sub.drop_last() =~= rows@.subrange(0, i as int));
                }
                sum = sum.wrapping_add(rows[i].domain_count);
                i = i + 1;
            }
            assert(rows@.subrange(0, rows@.len() as int) =~= rows@);
            if rows.len() > 0 {
                sources = rows;
            } else {
                sum = 0;
            }
        },
        None => {},
    }
    if sources.len() == 0 {
        let mut i: usize = 0;
        while i < config.lists.urls.len()
            invariant
                i <= config.lists.urls@.len(),
                sources@.len() == i,
                forall|q: int|
                    0 <= q < i ==> {
                        let s = #[trigger] sources@[q];
                        &&& s.url@ == config.lists.urls@[q]@
                        &&& s.domain_count == 0
                        &&& s.last_success_unix is None
                        &&& s.last_error is None
                    },
            decreases config.lists.urls@.len() - i,
        {
            sources.push(
                ListSourceStat {
                    url: config.lists.urls[i].clone(),
                    domain_count: 0,
                    last_success_unix: None,
                    last_error: None,
                },
            );
            i = i + 1;
        }
    }
    ListsPayload {
        urls: copy_strings(&config.lists.urls),
        auto_update: config.lists.auto_update,
        interval_hours: config.lists.interval_hours,
        list_count: config.lists.urls.len(),
        unique_domains: unique,
        sum_domain_counts: sum,
        sources,
    }
}

/// The allowlist keys after adding (or removing) the normalized `d`; a name
/// that does not normalize changes nothing.
pub open spec fn keys_after(k: Set<Seq<u8>>, d: Seq<char>, remove: bool) -> Set<Seq<u8>> {
    match crate::normalize::normalize_spec(d) {
        None => k,
        Some(n) => if remove {
            k.remove(encode_utf8(n))
        } else {
            k.insert(encode_utf8(n))
        },
    }
}

/// A copy of the allowlist with `domain` added (or removed), and the
/// configuration that records it, for the caller to save before publishing:
/// a change that is live but unsaved would vanish at the next restart.
pub fn mutate_allowlist(proxy: &DnsProxy, domain: &str, remove: bool) -> (r: (Allowlist, Config))
    requires
        proxy.wf(),
    ensures
        r.0.wf(),
        r.0.keys() == keys_after(proxy.filter.allowlist.keys(), domain@, remove),
        r.1.allowlist.domains@.map_values(|s: String| encode_utf8(s@)) == r.0.key_seq(),
        r.1@ == (ConfigView { allow_domains: r.1@.allow_domains, ..proxy.config@ }),
{
    let mut allow = proxy.filter.allowlist.duplicate();
    if remove {
        allow.remove(domain);
    } else {
        allow.insert(domain);
    }
    let domains = allow.list();
    let mut cfg = proxy.config.duplicate();
    cfg.allowlist.domains = domains;
    (allow, cfg)
}

// ---------------------------------------------------------------------------
// Dispatch.
// ---------------------------------------------------------------------------

/// The methods of the control protocol.
pub enum Method {
    Ping,
    Metrics,
    Status,
    SetEnabled,
    ReloadConfig,
    ReloadLists,
    UpdateLists,
    GetConfig,
    PatchConfig,
    AllowlistAdd,
    AllowlistRemove,
    RecentBlocked,
    RecentClear,
    AllowlistList,
    ListsAddUrl,
    ListsRemoveUrl,
    ListsList,
    CacheClear,
    Unknown,
}

pub open spec fn method_of(m: Seq<char>) -> Method {
    if m == "ping"@ {
        Method::Ping
    } else if m == "metrics"@ {
        Method::Metrics
    } else if m == "status"@ {
        Method::Status
    } else if m == "set_enabled"@ {
        Method::SetEnabled
    } else if m == "reload_config"@ {
        Method::ReloadConfig
    } else if m == "reload_lists"@ {
        Method::ReloadLists
    } else if m == "update_lists"@ {
        Method::UpdateLists
    } else if m == "get_config"@ {
        Method::GetConfig
    } else if m == "patch_config"@ {
        Method::PatchConfig
    } else if m == "allowlist.add"@ {
        Method::AllowlistAdd
    } else if m == "allowlist.remove"@ {
        Method::AllowlistRemove
    } else if m == "recent.blocked"@ {
        Method::RecentBlocked
    } else if m == "recent.clear"@ {
        Method::RecentClear
    } else if m == "allowlist.list"@ {
        Method::AllowlistList
    } else if m == "lists.add_url"@ {
        Method::ListsAddUrl
    } else if m == "lists.remove_url"@ {
        Method::ListsRemoveUrl
    } else if m == "lists.list"@ {
        Method::ListsList
    } else if m == "cache.clear"@ {
        Method::CacheClear
    } else {
        Method::Unknown
    }
}

fn str_is(a: &str, b: &str) -> (r: bool)
    ensures
        r == (a@ == b@),
{
    let x = chars_of(a);
    let y = chars_of(b);
    chars_equal(x.as_slice(), y.as_slice())
}

pub fn method_kind(m: &str) -> (r: Method)
    ensures
        r == method_of(m@),
{
    if str_is(m, "ping") {
        Method::Ping
    } else if str_is(m, "metrics") {
        Method::Metrics
    } else if str_is(m, "status") {
        Method::Status
    } else if str_is(m, "set_enabled") {
        Method::SetEnabled
    } else if str_is(m, "reload_config") {
        Method::ReloadConfig
    } else if str_is(m, "reload_lists") {
        Method::ReloadLists
    } else if str_is(m, "update_lists") {
        Method::UpdateLists
    } else if str_is(m, "get_config") {
        Method::GetConfig
    } else if str_is(m, "patch_config") {
        Method::PatchConfig
    } else if str_is(m, "allowlist.add") {
        Method::AllowlistAdd
    } else if str_is(m, "allowlist.remove") {
        Method::AllowlistRemove
    } else if str_is(m, "recent.blocked") {
        Method::RecentBlocked
    } else if str_is(m, "recent.clear") {
        Method::RecentClear
    } else if str_is(m, "allowlist.list") {
        Method::AllowlistList
    } else if str_is(m, "lists.add_url") {
        Method::ListsAddUrl
    } else if str_is(m, "lists.remove_url") {
        Method::ListsRemoveUrl
    } else if str_is(m, "lists.list") {
        Method::ListsList
    } else if str_is(m, "cache.clear") {
        Method::CacheClear
    } else {
        Method::Unknown
    }
}

/// `s` snapshots the counters `m` at some moment.
pub open spec fn snapshot_of(m: crate::metrics::Metrics, s: MetricsSnapshot) -> bool {
    &&& s.queries == m.queries
    &&& s.blocked == m.blocked
    &&& s.cache_hit == m.cache_hit
    &&& s.cache_miss == m.cache_miss
    &&& s.upstream_ok == m.upstream_ok
    &&& s.upstream_errors == m.upstream_errors
    &&& s.filtering == m.filtering
    &&& exists|now: u64| s.uptime_secs == #[trigger] sat_sub(now, m.started_at_unix)
}

pub open spec fn opt_str(o: Option<String>) -> Option<Seq<char>> {
    crate::dns::opt_chars(o)
}

/// `i` reports the state of `p` with the socket of `paths`.
pub open spec fn status_of(p: DnsProxy, paths: AegisPaths, i: StatusInfo) -> bool {
    &&& i.enabled == p.config.daemon.enabled
    &&& i.filtering == p.metrics.filtering
    &&& exists|now: u64| i.uptime_secs == #[trigger] sat_sub(now, p.metrics.started_at_unix)
    &&& strs(i.listen@) == strs(p.config.daemon.listen@)
    &&& i.domain_count == p.filter.domain_count
    &&& i.list_updated_at == p.filter.list_updated_at_unix
    &&& opt_str(i.last_update_error) == opt_str(p.filter.last_update_error)
    &&& i.socket@ == paths.socket@
}

/// The recent blocks to report: `limit` (50 when absent), at most 256.
pub open spec fn recent_limit(limit: Option<u64>) -> u64 {
    let l = match limit {
        Some(x) => x,
        None => 50,
    };
    if l < 256 { l } else { 256 }
}

/// Only `https://` URLs of at most 2048 bytes are fetched: the daemon fetches
/// them as root, and plain http would let anyone on the path choose what the
/// machine resolves.
pub open spec fn acceptable_url(url: Seq<char>) -> bool {
    url.len() >= 8 && url.subrange(0, 8) == "https://"@ && encode_utf8(url).len() <= 2048
}

pub open spec fn https_message() -> Seq<char> {
    "a URL precisa começar com https://"@
}

/// `urls` with `url` appended unless it is there.
pub open spec fn with_url(urls: Seq<Seq<char>>, url: Seq<char>) -> Seq<Seq<char>> {
    if urls.contains(url) {
        urls
    } else {
        urls.push(url)
    }
}

/// `urls` without `url`.
pub open spec fn without_url(urls: Seq<Seq<char>>, url: Seq<char>) -> Seq<Seq<char>>
    decreases urls.len(),
{
    if urls.len() == 0 {
        Seq::empty()
    } else {
        let rest = without_url(urls.drop_last(), url);
        if urls.last() == url {
            rest
        } else {
            rest.push(urls.last())
        }
    }
}

/// The step `dispatch` takes for `method` with `params`, from state `o` to `n`.
pub open spec fn dispatched(
    o: DnsProxy,
    n: DnsProxy,
    paths: AegisPaths,
    method: Seq<char>,
    params: Params,
    step: ControlStep,
) -> bool {
    match method_of(method) {
        Method::Ping => step matches ControlStep::Done(Reply::Pong) && n == o,
        Method::Metrics => step matches ControlStep::Done(Reply::Metrics(s)) && snapshot_of(o.metrics, s)
            && n == o,
        Method::Status => step matches ControlStep::Done(Reply::Status(i)) && status_of(o, paths, i)
            && n == o,
        Method::SetEnabled => {
            let e = match params.enabled {
                Some(x) => x,
                None => true,
            };
            &&& step matches ControlStep::Save { config, then: AfterSave::Enabled(x) } && x == e
                && config@ == (ConfigView { enabled: e, ..o.config@ })
            &&& n == o
        },
        Method::ReloadConfig => step is LoadConfig && n == o,
        Method::ReloadLists => step is ReadBlocklist && n == o,
        Method::UpdateLists => step matches ControlStep::StartUpdate { urls } && strs(urls@) == o.config@.urls
            && n == o,
        Method::GetConfig => step matches ControlStep::Done(Reply::Config(c)) && c@ == o.config@ && n == o,
        Method::PatchConfig => {
            &&& match patch_of(o.config@, params.patch) {
                Ok(c) => step matches ControlStep::Save { config, then: AfterSave::Patch } && config@ == c,
                Err(e) => reply_error(step, "bad_request"@, e) && n == o,
            }
            &&& n.metrics == (crate::metrics::Metrics {
                filtering: match params.patch.daemon_enabled {
                    Some(x) => if patch_of(o.config@, params.patch) is Ok {
                        x
                    } else {
                        o.metrics.filtering
                    },
                    None => o.metrics.filtering,
                },
                ..o.metrics
            })
            &&& (patch_of(o.config@, params.patch) is Ok && params.patch.allowlist_domains is Some)
                ==> (step matches ControlStep::Save { config, then: AfterSave::Patch }
                && n.filter.allowlist.keys() == normalized_keys(config.allowlist.domains@))
            &&& !(patch_of(o.config@, params.patch) is Ok && params.patch.allowlist_domains is Some)
                ==> n.filter.allowlist == o.filter.allowlist
            &&& n.config == o.config
            &&& n.cache == o.cache
            &&& n.preferred() == o.preferred()
            &&& n.filter.blocklist == o.filter.blocklist
            &&& n.filter.domain_count == o.filter.domain_count
            &&& n.filter.list_updated_at_unix == o.filter.list_updated_at_unix
            &&& n.filter.last_update_error == o.filter.last_update_error
            &&& n.filter.recent == o.filter.recent
        },
        Method::AllowlistAdd | Method::AllowlistRemove => {
            let remove = method_of(method) is AllowlistRemove;
            &&& n == o
            &&& match params.domain {
                None => reply_error(step, "bad_request"@, "missing domain"@),
                Some(d) => step matches ControlStep::Save {
                    config,
                    then: AfterSave::Allowlist { allow, clear_cache },
                } && clear_cache == remove && allow.wf() && allow.keys() == keys_after(
                    o.filter.allowlist.keys(),
                    d@,
                    remove,
                ) && config.allowlist.domains@.map_values(|s: String| encode_utf8(s@))
                    == allow.key_seq() && config@ == (ConfigView {
                    allow_domains: config@.allow_domains,
                    ..o.config@
                }),
            }
        },
        Method::RecentBlocked => {
            let l = recent_limit(params.limit);
            &&& step matches ControlStep::Done(Reply::Recent(r)) && r@.len() == (if o.filter.recent@.len() < l {
                o.filter.recent@.len()
            } else {
                l as nat
            }) && forall|b: int|
                0 <= b < r@.len() ==> {
                    let e = #[trigger] r@[b];
                    let v = o.filter.recent@[o.filter.recent@.len() - 1 - b];
                    e.domain@ == v.0 && e.at_unix == v.1 && e.hits == v.2
                }
            &&& n == o
        },
        Method::RecentClear => {
            &&& step matches ControlStep::Done(Reply::Cleared)
            &&& n.filter.recent@.len() == 0
            &&& n == (DnsProxy { filter: crate::dns::FilterState { recent: n.filter.recent, ..o.filter }, ..o })
        },
        Method::AllowlistList => step matches ControlStep::Done(Reply::Allowlist(l)) && l@.map_values(
            |s: String| encode_utf8(s@),
        ) == o.filter.allowlist.key_seq() && n == o,
        Method::ListsAddUrl => {
            &&& n == o
            &&& match params.url {
                None => reply_error(step, "bad_request"@, "missing url"@),
                Some(u) => if !acceptable_url(u@) {
                    reply_error(step, "bad_request"@, https_message())
                } else {
                    step matches ControlStep::Save { config, then: AfterSave::Lists } && config@ == (ConfigView {
                        urls: with_url(o.config@.urls, u@),
                        ..o.config@
                    })
                },
            }
        },
        Method::ListsRemoveUrl => {
            &&& n == o
            &&& match params.url {
                None => reply_error(step, "bad_request"@, "missing url"@),
                Some(u) => step matches ControlStep::Save { config, then: AfterSave::Lists } && config@
                    == (ConfigView { urls: without_url(o.config@.urls, u@), ..o.config@ }),
            }
        },
        Method::ListsList => step matches ControlStep::ReadStats { urls } && strs(urls@) == o.config@.urls
            && n == o,
        Method::CacheClear => {
            &&& step matches ControlStep::Done(Reply::Cleared)
            &&& n.cache.entries().len() == 0
            &&& n.cache.capacity() == o.cache.capacity()
            &&& n.cache.nx_ttl() == o.cache.nx_ttl()
            &&& n == (DnsProxy { cache: n.cache, ..o })
        },
        Method::Unknown => reply_error(step, "unknown_method"@, "unknown method: "@ + method) && n == o,
    }
}

/// Whether `url` may be added to the lists.
fn acceptable_url_exec(url: &str) -> (r: bool)
    ensures
        r == acceptable_url(url@),
{
    let c = chars_of(url);
    if c.len() < 8 {
        return false;
    }
    let prefix = ['h', 't', 't', 'p', 's', ':', '/', '/'];
    proof {
        reveal_strlit("https://");
    }
    assert(prefix@ =~= "https://"@);
    let mut i: usize = 0;
    while i < 8
        invariant
            c@ == url@,
            c@.len() >= 8,
            prefix@ == "https://"@,
            i <= 8,
            forall|k: int| 0 <= k < i ==> c@[k] == prefix@[k],
        decreases 8 - i,
    {
        if c[i] != prefix[i] {
            assert(url@.subrange(0, 8)[i as int] != "https://"@[i as int]);
            return false;
        }
        i = i + 1;
    }
    assert(url@.subrange(0, 8) =~= "https://"@);
    url.as_bytes().len() <= 2048
}

fn urls_with(urls: &Vec<String>, url: &str) -> (r: Vec<String>)
    ensures
        strs(r@) == with_url(strs(urls@), url@),
{
    let mut out = copy_strings(urls);
    let mut i: usize = 0;
    while i < urls.len()
        invariant
            i <= urls@.len(),
            strs(out@) == strs(urls@),
            forall|k: int| 0 <= k < i ==> strs(urls@)[k] != url@,
        decreases urls@.len() - i,
    {
        if str_is(urls[i].as_str(), url) {
            assert(strs(urls@)[i as int] == url@);
            assert(strs(urls@).contains(url@));
            return out;
        }
        i = i + 1;
    }
    assert(!strs(urls@).contains(url@));
    let ghost prev = strs(out@);
    out.push(string_of(url));
    assert(strs(out@) =~= prev.push(url@));
    out
}

fn urls_without(urls: &Vec<String>, url: &str) -> (r: Vec<String>)
    ensures
        strs(r@) == without_url(strs(urls@), url@),
{
    let ghost uv = strs(urls@);
    let mut out: Vec<String> = Vec::new();
    let mut i: usize = 0;
    assert(strs(out@) =~= without_url(uv.subrange(0, 0), url@));
    while i < urls.len()
        invariant
            uv == strs(urls@),
            i <= urls@.len(),
            strs(out@) == without_url(uv.subrange(0, i as int), url@),
        decreases urls@.len() - i,
    {
        proof {
            let sub = uv.subrange(0, i + 1);
            assert(sub.drop_last() =~= uv.subrange(0, i as int));
            assert(sub.last() == urls@[i as int]@);
        }
        if !str_is(urls[i].as_str(), url) {
            let ghost prev = strs(out@);
            out.push(urls[i].clone());
            assert(strs(out@) =~= prev.push(urls@[i as int]@));
        }
        i = i + 1;
    }
    assert(uv.subrange(0, urls@.len() as int) =~= uv);
    out
}

/// The first step of the control request `method` with `params`.
pub fn dispatch(proxy: &mut DnsProxy, paths: &AegisPaths, method: &str, params: Params) -> (step: ControlStep)
    requires
        old(proxy).wf(),
    ensures
        final(proxy).wf(),
        dispatched(*old(proxy), *final(proxy), *paths, method@, params, step),
{
    match method_kind(method) {
        Method::Ping => ControlStep::Done(Reply::Pong),
        Method::Metrics => ControlStep::Done(Reply::Metrics(proxy.metrics.snapshot())),
        Method::Status => {
            let snap = proxy.metrics.snapshot();
            let err = match &proxy.filter.last_update_error {
                Some(e) => Some(e.clone()),
                None => None,
            };
            ControlStep::Done(
                Reply::Status(
                    StatusInfo {
                        enabled: proxy.config.daemon.enabled,
                        filtering: snap.filtering,
                        uptime_secs: snap.uptime_secs,
                        listen: copy_strings(&proxy.config.daemon.listen),
                        domain_count: proxy.filter.domain_count,
                        list_updated_at: proxy.filter.list_updated_at_unix,
                        last_update_error: err,
                        socket: paths.socket.clone(),
                    },
                ),
            )
        },
        Method::SetEnabled => {
            let enabled = match params.enabled {
                Some(x) => x,
                None => true,
            };
            let mut cfg = proxy.config.duplicate();
            cfg.daemon.enabled = enabled;
            ControlStep::Save { config: cfg, then: AfterSave::Enabled(enabled) }
        },
        Method::ReloadConfig => ControlStep::LoadConfig,
        Method::ReloadLists => ControlStep::ReadBlocklist,
        Method::UpdateLists => ControlStep::StartUpdate { urls: copy_strings(&proxy.config.lists.urls) },
        Method::GetConfig => ControlStep::Done(Reply::Config(proxy.config.duplicate())),
        Method::PatchConfig => match patch_config(proxy, &params.patch) {
            Ok(cfg) => ControlStep::Save { config: cfg, then: AfterSave::Patch },
            Err(e) => error_step("bad_request", e),
        },
        Method::AllowlistAdd => match &params.domain {
            None => error_step("bad_request", string_of("missing domain")),
            Some(d) => {
                let (allow, cfg) = mutate_allowlist(proxy, d.as_str(), false);
                ControlStep::Save {
                    config: cfg,
                    then: AfterSave::Allowlist { allow, clear_cache: false },
                }
            },
        },
        Method::AllowlistRemove => match &params.domain {
            None => error_step("bad_request", string_of("missing domain")),
            Some(d) => {
                let (allow, cfg) = mutate_allowlist(proxy, d.as_str(), true);
                ControlStep::Save {
                    config: cfg,
                    then: AfterSave::Allowlist { allow, clear_cache: true },
                }
            },
        },
        Method::RecentBlocked => {
            let l = match params.limit {
                Some(x) => x,
                None => 50,
            };
            let limit: u64 = if l < 256 {
                l
            } else {
                256
            };
            ControlStep::Done(Reply::Recent(proxy.filter.recent.snapshot(limit as usize)))
        },
        Method::RecentClear => {
            proxy.filter.recent.clear();
            ControlStep::Done(Reply::Cleared)
        },
        Method::AllowlistList => ControlStep::Done(Reply::Allowlist(proxy.filter.allowlist.list())),
        Method::ListsAddUrl => match &params.url {
            None => error_step("bad_request", string_of("missing url")),
            Some(u) => {
                if !acceptable_url_exec(u.as_str()) {
                    return error_step("bad_request", string_of("a URL precisa começar com https://"));
                }
                let mut cfg = proxy.config.duplicate();
                cfg.lists.urls = urls_with(&proxy.config.lists.urls, u.as_str());
                ControlStep::Save { config: cfg, then: AfterSave::Lists }
            },
        },
        Method::ListsRemoveUrl => match &params.url {
            None => error_step("bad_request", string_of("missing url")),
            Some(u) => {
                let mut cfg = proxy.config.duplicate();
                cfg.lists.urls = urls_without(&proxy.config.lists.urls, u.as_str());
                ControlStep::Save { config: cfg, then: AfterSave::Lists }
            },
        },
        Method::ListsList => ControlStep::ReadStats { urls: copy_strings(&proxy.config.lists.urls) },
        Method::CacheClear => {
            proxy.cache.clear();
            ControlStep::Done(Reply::Cleared)
        },
        Method::Unknown => error_step("unknown_method", concat("unknown method: ", method)),
    }
}

/// What saving `config` (with outcome `saved`, the error's text when it
/// failed) and then doing `then` makes of the state `o`, and the next step.
/// Nothing is published when the save failed.
pub open spec fn after_saved(
    o: DnsProxy,
    n: DnsProxy,
    config: Config,
    then: AfterSave,
    saved: Result<(), String>,
    step: ControlStep,
) -> bool {
    match saved {
        Err(m) => n == o && match then {
            AfterSave::Enabled(_) => reply_error(step, "io"@, m@),
            AfterSave::Patch => reply_error(step, "bad_request"@, m@),
            AfterSave::Allowlist { .. } => reply_error(
                step,
                "io"@,
                "não foi possível salvar a allowlist: "@ + m@,
            ),
            AfterSave::Lists => reply_error(step, "io"@, "não foi possível salvar: "@ + m@),
        },
        Ok(_) => match then {
            AfterSave::Enabled(e) => step matches ControlStep::Done(Reply::Enabled(x)) && x == e && n == (
            DnsProxy {
                config,
                metrics: crate::metrics::Metrics { filtering: e, ..o.metrics },
                ..o
            }),
            AfterSave::Patch => step matches ControlStep::Done(Reply::Saved) && n == (DnsProxy {
                config,
                ..o
            }),
            AfterSave::Allowlist { allow, clear_cache } => {
                &&& step matches ControlStep::Done(Reply::Allowlist(l)) && l@.map_values(
                    |s: String| encode_utf8(s@),
                ) == allow.key_seq()
                &&& n.config == config
                &&& n.filter == (crate::dns::FilterState { allowlist: allow, ..o.filter })
                &&& n.metrics == o.metrics
                &&& n.preferred() == o.preferred()
                &&& if clear_cache {
                    &&& n.cache.entries().len() == 0
                    &&& n.cache.capacity() == o.cache.capacity()
                    &&& n.cache.nx_ttl() == o.cache.nx_ttl()
                } else {
                    n.cache == o.cache
                }
            },
            AfterSave::Lists => step matches ControlStep::ReadStats { urls } && strs(urls@) == strs(
                config.lists.urls@,
            ) && n == (DnsProxy { config, ..o }),
        },
    }
}

/// Publishes what a `Save` step saved, or reports why it could not be saved.
/// A removed allowlist entry clears the answer cache: the name may sit there
/// as an NXDOMAIN the proxy synthesized.
pub fn after_save(proxy: &mut DnsProxy, config: Config, then: AfterSave, saved: Result<(), String>) -> (step: ControlStep)
    requires
        old(proxy).wf(),
        then matches AfterSave::Allowlist { allow, .. } ==> allow.wf(),
    ensures
        final(proxy).wf(),
        after_saved(*old(proxy), *final(proxy), config, then, saved, step),
{
    match saved {
        Err(m) => match then {
            AfterSave::Enabled(_) => error_step("io", m),
            AfterSave::Patch => error_step("bad_request", m),
            AfterSave::Allowlist { .. } => error_step(
                "io",
                concat("não foi possível salvar a allowlist: ", m.as_str()),
            ),
            AfterSave::Lists => error_step("io", concat("não foi possível salvar: ", m.as_str())),
        },
        Ok(()) => match then {
            AfterSave::Enabled(e) => {
                proxy.config = config;
                proxy.metrics.filtering = e;
                ControlStep::Done(Reply::Enabled(e))
            },
            AfterSave::Patch => {
                proxy.config = config;
                ControlStep::Done(Reply::Saved)
            },
            AfterSave::Allowlist { allow, clear_cache } => {
                proxy.filter.allowlist = allow;
                proxy.config = config;
                if clear_cache {
                    proxy.cache.clear();
                }
                ControlStep::Done(Reply::Allowlist(proxy.filter.allowlist.list()))
            },
            AfterSave::Lists => {
                proxy.config = config;
                ControlStep::ReadStats { urls: copy_strings(&proxy.config.lists.urls) }
            },
        },
    }
}

/// Publishes a reloaded configuration: its allowlist and its filtering switch
/// take effect; a load error (its text) is reported.
pub fn config_loaded(proxy: &mut DnsProxy, loaded: Result<Config, String>) -> (r: Reply)
    requires
        old(proxy).wf(),
    ensures
        final(proxy).wf(),
        match loaded {
            Ok(c) => {
                &&& r is Reloaded
                &&& final(proxy).config == c
                &&& final(proxy).filter.allowlist.keys() == normalized_keys(c.allowlist.domains@)
                &&& final(proxy).metrics == (crate::metrics::Metrics {
                    filtering: c.daemon.enabled,
                    ..old(proxy).metrics
                })
                &&& final(proxy).filter == (crate::dns::FilterState {
                    allowlist: final(proxy).filter.allowlist,
                    ..old(proxy).filter
                })
                &&& final(proxy).cache == old(proxy).cache
                &&& final(proxy).preferred() == old(proxy).preferred()
            },
            Err(m) => r matches Reply::Error { code, message } && code@ == "io"@ && message@ == m@
                && *final(proxy) == *old(proxy),
        },
{
    match loaded {
        Ok(cfg) => {
            let allow = Allowlist::from_domains(cfg.allowlist.domains.as_slice());
            proxy.filter.allowlist = allow;
            proxy.metrics.filtering = cfg.daemon.enabled;
            proxy.config = cfg;
            Reply::Reloaded
        },
        Err(m) => Reply::Error { code: string_of("io"), message: m },
    }
}

pub open spec fn fst_message(t: Seq<char>) -> Seq<char> {
    "fst: "@ + t
}

/// The message a refused blocklist file is reported with: a short file is a
/// read error, then the magic and the version are checked; `None` when the
/// FST itself is refused, with the FST crate's own text.
pub open spec fn bad_file_message(b: Seq<u8>) -> Option<Seq<char>> {
    let short = "io: "@ + crate::trie::short_read_text();
    if b.len() < 4 {
        Some(short)
    } else if b.subrange(0, 4) != crate::trie::magic_aeg2() {
        Some("invalid blocklist file: "@ + "bad magic"@)
    } else if b.len() < 8 {
        Some(short)
    } else if crate::trie::le32(b, 4) != crate::trie::FILE_VERSION {
        Some("invalid blocklist file: "@ + ("unsupported version "@ + crate::text::decimal(crate::trie::le32(b, 4) as nat)))
    } else if b.len() < 12 {
        Some(short)
    } else {
        None
    }
}

/// Puts the blocklist read back from its file in place, or reports why it
/// cannot be read (its file's read error, or what is wrong with its bytes).
/// The new list's lookups are sound when its FST is as the builder writes it;
/// a file crafted to pass the checks over a malformed FST is not told apart.
pub fn blocklist_read(proxy: &mut DnsProxy, read: Result<Vec<u8>, String>) -> (r: Reply)
    requires
        old(proxy).wf(),
    ensures
        (match read {
            Ok(b) => decode_file(b@) is Some ==> crate::trie::file_well_formed(b@),
            Err(_) => true,
        }) ==> final(proxy).wf(),
        match read {
            Err(m) => r matches Reply::Error { code, message } && code@ == "io"@ && message@ == m@
                && *final(proxy) == *old(proxy),
            Ok(b) => match decode_file(b@) {
                Some((count, keys)) => {
                    &&& r matches Reply::ListDomains(n) && n == final(proxy).filter.blocklist.count()
                    &&& final(proxy).filter.blocklist.count() as u32 == count
                    &&& final(proxy).filter.blocklist.keys() == keys
                    &&& final(proxy).filter.domain_count == final(proxy).filter.blocklist.count()
                    &&& final(proxy).filter.allowlist == old(proxy).filter.allowlist
                    &&& final(proxy).filter.last_update_error == old(proxy).filter.last_update_error
                    &&& final(proxy).filter.recent == old(proxy).filter.recent
                    &&& final(proxy).config == old(proxy).config
                    &&& final(proxy).metrics == old(proxy).metrics
                    &&& final(proxy).cache == old(proxy).cache
                },
                None => {
                    &&& r matches Reply::Error { code, message } && code@ == "io"@ && match bad_file_message(b@) {
                        Some(m) => message@ == m,
                        None => exists|t: Seq<char>| message@ == #[trigger] fst_message(t),
                    }
                    &&& *final(proxy) == *old(proxy)
                },
            },
        },
{
    match read {
        Err(m) => Reply::Error { code: string_of("io"), message: m },
        Ok(bytes) => {
            let ghost b = bytes@;
            match Blocklist::load_from_bytes(bytes) {
                Ok(bl) => {
                    let n = bl.len();
                    proxy.filter.swap_blocklist(bl);
                    Reply::ListDomains(n)
                },
                Err(e) => {
                    let message = e.message();
                    proof {
                        if bad_file_message(b) is None {
                            let t = e->Fst_0@;
                            assert(message@ == fst_message(t));
                        }
                    }
                    Reply::Error { code: string_of("io"), message }
                },
            }
        },
    }
}

/// The reason an update is not started while another one runs.
pub open spec fn update_running_text() -> Seq<char> {
    "update already running"@
}

/// The reply to `update_lists`, once the daemon tried to start the update:
/// `Started` when it began, else `NotStarted` because one is already running.
pub fn update_start(began: bool) -> (r: Reply)
    ensures
        began ==> r is Started,
        !began ==> (r matches Reply::NotStarted { reason } && reason@ == update_running_text()),
{
    if began {
        Reply::Started
    } else {
        Reply::NotStarted { reason: string_of("update already running") }
    }
}

/// Reports the lists, with the statistics read from the list database
/// (`None` when it could not be read).
pub fn stats_read(proxy: &DnsProxy, stats: Option<Vec<ListSourceStat>>) -> (r: Reply)
    ensures
        r matches Reply::Lists(p) && lists_report(proxy.config, proxy.filter.domain_count, stats, p),
{
    Reply::Lists(lists_payload(&proxy.config, proxy.filter.domain_count, stats))
}

/// Every entry of a checked upstream array parses and is none of the listeners.
proof fn lemma_server_entries_usable(v: Seq<Option<Seq<char>>>, listen: Seq<Seq<char>>)
    requires
        server_entries(v, listen) is Ok,
    ensures
        forall|i: int|
            0 <= i < server_entries(v, listen)->Ok_0.len() ==> crate::dns::upstream_usable(
                #[trigger] server_entries(v, listen)->Ok_0[i],
                listen,
            ),
    decreases v.len(),
{
    if v.len() > 0 {
        lemma_server_entries_usable(v.drop_last(), listen);
        let ps = server_entries(v.drop_last(), listen)->Ok_0;
        let all = server_entries(v, listen)->Ok_0;
        assert forall|i: int| 0 <= i < all.len() implies crate::dns::upstream_usable(#[trigger] all[i], listen) by {
            if i < ps.len() {
                assert(all[i] == ps[i]);
            }
        }
    }
}

/// Law: a patch that sets the upstream servers is accepted only with at least
/// one server, each of which parses and is none of the daemon's listeners.
pub proof fn patched_upstreams_are_usable(c: ConfigView, p: ConfigPatch)
    requires
        p.upstream_servers is Some,
        patch_of(c, p) is Ok,
    ensures
        patch_of(c, p)->Ok_0.servers.len() > 0,
        forall|i: int|
            0 <= i < patch_of(c, p)->Ok_0.servers.len() ==> crate::dns::upstream_usable(
                #[trigger] patch_of(c, p)->Ok_0.servers[i],
                patch_of(c, p)->Ok_0.listen,
            ),
{
    let c1 = match p.daemon_enabled {
        Some(e) => ConfigView { enabled: e, ..c },
        None => c,
    };
    lemma_server_entries_usable(opt_strs(p.upstream_servers)->0, c1.listen);
}

/// Law: a list URL that is not `https://` (or is longer than 2048 bytes) is
/// refused and the configuration is not touched.
pub proof fn plain_http_lists_refused(
    o: DnsProxy,
    n: DnsProxy,
    paths: AegisPaths,
    method: Seq<char>,
    params: Params,
    step: ControlStep,
)
    requires
        method_of(method) is ListsAddUrl,
        dispatched(o, n, paths, method, params, step),
        params.url matches Some(u) && !acceptable_url(u@),
    ensures
        reply_error(step, "bad_request"@, https_message()),
        n == o,
{
}

/// Law: a patch whose `/lists/urls` holds a URL that is not `https://` (or
/// is longer than 2048 bytes) is refused; an accepted patch that sets the list
/// URLs leaves only `https://` URLs in the configuration.
pub proof fn patched_lists_are_https(c: ConfigView, p: ConfigPatch)
    requires
        p.lists_urls is Some,
    ensures
        !all_https(opt_strs(p.lists_urls)->0) ==> patch_of(c, p) == Err::<ConfigView, Seq<char>>(
            https_message(),
        ),
        patch_of(c, p) is Ok ==> forall|i: int|
            0 <= i < patch_of(c, p)->Ok_0.urls.len() ==> acceptable_url(
                #[trigger] patch_of(c, p)->Ok_0.urls[i],
            ),
{
    let u = opt_strs(p.lists_urls)->0;
    if patch_of(c, p) is Ok {
        lemma_only_strings_https(u);
    }
}

/// The strings kept from an array of acceptable URLs are acceptable.
proof fn lemma_only_strings_https(v: Seq<Option<Seq<char>>>)
    requires
        all_https(v),
    ensures
        forall|i: int| 0 <= i < only_strings(v).len() ==> acceptable_url(#[trigger] only_strings(v)[i]),
    decreases v.len(),
{
    if v.len() > 0 {
        let w = v.drop_last();
        assert forall|i: int| 0 <= i < w.len() implies (#[trigger] w[i] matches Some(u) ==> acceptable_url(u)) by {
            assert(w[i] == v[i]);
        }
        lemma_only_strings_https(w);
        let rest = only_strings(w);
        assert(v.last() == v[v.len() - 1]);
        assert forall|i: int| 0 <= i < only_strings(v).len() implies acceptable_url(
            #[trigger] only_strings(v)[i],
        ) by {
            match v.last() {
                Some(x) => {
                    assert(only_strings(v) == rest.push(x));
                    if i < rest.len() {
                        assert(only_strings(v)[i] == rest[i]);
                    }
                },
                None => {
                    assert(only_strings(v) == rest);
                },
            }
        }
    }
}

/// Law: removing a domain from the allowlist undoes adding it, when it was not
/// allowed before; and adding one makes the domain and every name under it allowed.
pub proof fn allowlist_remove_undoes_add(k: Set<Seq<u8>>, d: Seq<char>)
    requires
        crate::normalize::normalize_spec(d) matches Some(n) ==> !k.contains(encode_utf8(n)),
    ensures
        keys_after(keys_after(k, d, false), d, true) == k,
        crate::normalize::normalize_spec(d) matches Some(n) ==> crate::trie::suffix_listed(
            keys_after(k, d, false),
            encode_utf8(n),
        ),
{
    match crate::normalize::normalize_spec(d) {
        Some(n) => {
            let e = encode_utf8(n);
            assert(k.insert(e).remove(e) =~= k);
            assert(crate::trie::label_start(e, 0));
            assert(e.subrange(0, e.len() as int) =~= e);
        },
        None => {},
    }
}

} // verus!
