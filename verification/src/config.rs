//! Daemon configuration: the values it is made of and their defaults.
//! Reading and writing `config.toml` is the caller's concern.

use vstd::prelude::*;
use crate::text::string_of;

verus! {

/// The characters of each string, in order.
pub open spec fn strs(v: Seq<String>) -> Seq<Seq<char>> {
    v.map_values(|s: String| s@)
}

#[derive(Debug, Clone)]
pub struct Config {
    pub daemon: DaemonConfig,
    pub upstream: UpstreamConfig,
    pub cache: CacheConfig,
    pub lists: ListsConfig,
    pub allowlist: AllowlistConfig,
}

#[derive(Debug, Clone)]
pub struct DaemonConfig {
    pub listen: Vec<String>,
    pub enabled: bool,
}

#[derive(Debug, Clone)]
pub struct UpstreamConfig {
    pub servers: Vec<String>,
    pub timeout_ms: u64,
    pub max_inflight: usize,
}

#[derive(Debug, Clone)]
pub struct CacheConfig {
    pub size: usize,
    pub nxdomain_ttl_secs: u32,
}

#[derive(Debug, Clone)]
pub struct ListsConfig {
    pub auto_update: bool,
    pub interval_hours: u64,
    pub urls: Vec<String>,
}

#[derive(Debug, Clone)]
pub struct AllowlistConfig {
    pub domains: Vec<String>,
}

/// A configuration as plain values.
pub struct ConfigView {
    pub listen: Seq<Seq<char>>,
    pub enabled: bool,
    pub servers: Seq<Seq<char>>,
    pub timeout_ms: u64,
    pub max_inflight: usize,
    pub cache_size: usize,
    pub nxdomain_ttl_secs: u32,
    pub auto_update: bool,
    pub interval_hours: u64,
    pub urls: Seq<Seq<char>>,
    pub allow_domains: Seq<Seq<char>>,
}

impl View for Config {
    type V = ConfigView;

    open spec fn view(&self) -> ConfigView {
        ConfigView {
            listen: strs(self.daemon.listen@),
            enabled: self.daemon.enabled,
            servers: strs(self.upstream.servers@),
            timeout_ms: self.upstream.timeout_ms,
            max_inflight: self.upstream.max_inflight,
            cache_size: self.cache.size,
            nxdomain_ttl_secs: self.cache.nxdomain_ttl_secs,
            auto_update: self.lists.auto_update,
            interval_hours: self.lists.interval_hours,
            urls: strs(self.lists.urls@),
            allow_domains: strs(self.allowlist.domains@),
        }
    }
}

/// A copy of the strings.
pub fn copy_strings(v: &Vec<String>) -> (r: Vec<String>)
    ensures
        strs(r@) == strs(v@),
{
    let mut out: Vec<String> = Vec::new();
    let mut i: usize = 0;
    while i < v.len()
        invariant
            i <= v@.len(),
            strs(out@) == strs(v@).subrange(0, i as int),
        decreases v@.len() - i,
    {
        let s = v[i].clone();
        let ghost prev = out@;
        out.push(s);
        assert(strs(out@) =~= strs(prev).push(s@));
        i = i + 1;
        assert(strs(out@) =~= strs(v@).subrange(0, i as int));
    }
    assert(strs(v@).subrange(0, v@.len() as int) =~= strs(v@));
    out
}

impl Config {
    /// A copy holding the same values.
    pub fn duplicate(&self) -> (r: Config)
        ensures
            r@ == self@,
    {
        Config {
            daemon: DaemonConfig {
                listen: copy_strings(&self.daemon.listen),
                enabled: self.daemon.enabled,
            },
            upstream: UpstreamConfig {
                servers: copy_strings(&self.upstream.servers),
                timeout_ms: self.upstream.timeout_ms,
                max_inflight: self.upstream.max_inflight,
            },
            cache: CacheConfig {
                size: self.cache.size,
                nxdomain_ttl_secs: self.cache.nxdomain_ttl_secs,
            },
            lists: ListsConfig {
                auto_update: self.lists.auto_update,
                interval_hours: self.lists.interval_hours,
                urls: copy_strings(&self.lists.urls),
            },
            allowlist: AllowlistConfig { domains: copy_strings(&self.allowlist.domains) },
        }
    }

    /// Listens on the privileged DNS port, on loopback, for IPv4 and IPv6.
    pub fn with_privileged_listen(self) -> (r: Self)
        ensures
            r@ == (ConfigView { listen: seq!["127.0.0.1:53"@, "[::1]:53"@], ..self@ }),
    {
        let mut c = self;
        c.daemon.listen = vec![string_of("127.0.0.1:53"), string_of("[::1]:53")];
        assert(strs(c.daemon.listen@) =~= seq!["127.0.0.1:53"@, "[::1]:53"@]);
        c
    }
}

pub fn default_true() -> (r: bool)
    ensures
        r,
{
    true
}

/// Avoids 5353, which mDNS/Bonjour holds on macOS.
pub fn default_listen_dev() -> (r: Vec<String>)
    ensures
        strs(r@) == seq!["127.0.0.1:53553"@],
{
    let v = vec![string_of("127.0.0.1:53553")];
    assert(strs(v@) =~= seq!["127.0.0.1:53553"@]);
    v
}

/// Keeps one IPv6 literal: on an IPv6-only network an all-IPv4 list would make
/// every cache miss fail.
pub fn default_upstreams() -> (r: Vec<String>)
    ensures
        strs(r@) == seq!["1.1.1.1:53"@, "1.0.0.1:53"@, "[2606:4700:4700::1111]:53"@],
{
    let v = vec![
        string_of("1.1.1.1:53"),
        string_of("1.0.0.1:53"),
        string_of("[2606:4700:4700::1111]:53"),
    ];
    assert(strs(v@) =~= seq!["1.1.1.1:53"@, "1.0.0.1:53"@, "[2606:4700:4700::1111]:53"@]);
    v
}

pub fn default_timeout() -> (r: u64)
    ensures
        r == 1500,
{
    1500
}

pub fn default_inflight() -> (r: usize)
    ensures
        r == 256,
{
    256
}

pub fn default_cache_size() -> (r: usize)
    ensures
        r == 8192,
{
    8192
}

pub fn default_nx_ttl() -> (r: u32)
    ensures
        r == 45,
{
    45
}

pub fn default_interval() -> (r: u64)
    ensures
        r == 24,
{
    24
}

/// The default list: a plain domain list, served from raw.githubusercontent.
pub open spec fn default_list_url() -> Seq<char> {
    "https://raw.githubusercontent.com/hagezi/dns-blocklists/main/wildcard/multi-onlydomains.txt"@
}

pub fn default_list_urls() -> (r: Vec<String>)
    ensures
        strs(r@) == seq![default_list_url()],
{
    let v = vec![
        string_of(
            "https://raw.githubusercontent.com/hagezi/dns-blocklists/main/wildcard/multi-onlydomains.txt",
        ),
    ];
    assert(strs(v@) =~= seq![default_list_url()]);
    v
}

impl Default for DaemonConfig {
    fn default() -> (r: Self)
        ensures
            strs(r.listen@) == seq!["127.0.0.1:53553"@],
            r.enabled,
    {
        DaemonConfig { listen: default_listen_dev(), enabled: true }
    }
}

impl Default for UpstreamConfig {
    fn default() -> (r: Self)
        ensures
            strs(r.servers@) == seq!["1.1.1.1:53"@, "1.0.0.1:53"@, "[2606:4700:4700::1111]:53"@],
            r.timeout_ms == 1500,
            r.max_inflight == 256,
    {
        UpstreamConfig {
            servers: default_upstreams(),
            timeout_ms: default_timeout(),
            max_inflight: default_inflight(),
        }
    }
}

impl Default for CacheConfig {
    fn default() -> (r: Self)
        ensures
            r.size == 8192,
            r.nxdomain_ttl_secs == 45,
    {
        CacheConfig { size: default_cache_size(), nxdomain_ttl_secs: default_nx_ttl() }
    }
}

impl Default for ListsConfig {
    fn default() -> (r: Self)
        ensures
            r.auto_update,
            r.interval_hours == 24,
            strs(r.urls@) == seq![default_list_url()],
    {
        ListsConfig {
            auto_update: true,
            interval_hours: default_interval(),
            urls: default_list_urls(),
        }
    }
}

impl Default for AllowlistConfig {
    fn default() -> (r: Self)
        ensures
            r.domains@.len() == 0,
    {
        AllowlistConfig { domains: Vec::new() }
    }
}

/// The values of the default configuration.
pub open spec fn default_view() -> ConfigView {
    ConfigView {
        listen: seq!["127.0.0.1:53553"@],
        enabled: true,
        servers: seq!["1.1.1.1:53"@, "1.0.0.1:53"@, "[2606:4700:4700::1111]:53"@],
        timeout_ms: 1500,
        max_inflight: 256,
        cache_size: 8192,
        nxdomain_ttl_secs: 45,
        auto_update: true,
        interval_hours: 24,
        urls: seq![default_list_url()],
        allow_domains: Seq::empty(),
    }
}

impl Default for Config {
    fn default() -> (r: Self)
        ensures
            r@ == default_view(),
    {
        let r = Config {
            daemon: DaemonConfig::default(),
            upstream: UpstreamConfig::default(),
            cache: CacheConfig::default(),
            lists: ListsConfig::default(),
            allowlist: AllowlistConfig::default(),
        };
        assert(strs(r.allowlist.domains@) =~= Seq::<Seq<char>>::empty());
        r
    }
}

} // verus!
