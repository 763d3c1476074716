//! Where the daemon keeps its files. Dev mode uses `~/.aegis/`; the privileged
//! daemon uses `/Library/Application Support/Aegis` and `/var/run/aegis.sock`.

use vstd::prelude::*;
use crate::text::{concat, string_of};

verus! {

/// `Path::join` of a relative name: a separator goes between the two unless
/// `root` is empty or already ends with one.
pub open spec fn join_spec(root: Seq<char>, name: Seq<char>) -> Seq<char> {
    if root.len() == 0 || root.last() == '/' {
        root + name
    } else {
        root + seq!['/'] + name
    }
}

/// Joins the relative name `name` onto `root`.
pub fn join(root: &str, name: &str) -> (r: String)
    ensures
        r@ == join_spec(root@, name@),
{
    let n = root.unicode_len();
    if n == 0 || root.get_char(n - 1) == '/' {
        concat(root, name)
    } else {
        let with_sep = concat(root, "/");
        proof {
            reveal_strlit("/");
        }
        let r = concat(with_sep.as_str(), name);
        r
    }
}

/// The runtime file layout.
#[derive(Debug, Clone)]
pub struct AegisPaths {
    pub root: String,
    pub config: String,
    pub blocklist: String,
    pub meta_db: String,
    pub dns_backup: String,
    pub socket: String,
}

/// Where the privileged daemon keeps its files.
pub open spec fn privileged_root() -> Seq<char> {
    "/Library/Application Support/Aegis"@
}

/// The socket of the privileged daemon.
pub open spec fn privileged_socket() -> Seq<char> {
    "/var/run/aegis.sock"@
}

/// The user's home directory (`dirs::home_dir`), as text. It depends on the
/// environment, so nothing is promised of it.
#[verifier::external_body]
fn home_dir() -> Option<String> {
    dirs::home_dir().map(|p| p.to_string_lossy().into_owned())
}

impl AegisPaths {
    /// The layout under `root`. Dev mode keeps the socket there too.
    pub fn from_root(root: String, dev: bool) -> (r: Self)
        ensures
            r.root@ == root@,
            r.config@ == join_spec(root@, "config.toml"@),
            r.blocklist@ == join_spec(root@, "blocklist.bin"@),
            r.meta_db@ == join_spec(root@, "meta.sqlite"@),
            r.dns_backup@ == join_spec(root@, "dns-backup.json"@),
            r.socket@ == (if dev {
                join_spec(root@, "aegis.sock"@)
            } else {
                privileged_socket()
            }),
    {
        let socket = if dev {
            join(root.as_str(), "aegis.sock")
        } else {
            string_of("/var/run/aegis.sock")
        };
        AegisPaths {
            config: join(root.as_str(), "config.toml"),
            blocklist: join(root.as_str(), "blocklist.bin"),
            meta_db: join(root.as_str(), "meta.sqlite"),
            dns_backup: join(root.as_str(), "dns-backup.json"),
            socket,
            root,
        }
    }

    /// The privileged layout.
    pub fn privileged() -> (r: Self)
        ensures
            r.root@ == privileged_root(),
            r.config@ == join_spec(privileged_root(), "config.toml"@),
            r.blocklist@ == join_spec(privileged_root(), "blocklist.bin"@),
            r.meta_db@ == join_spec(privileged_root(), "meta.sqlite"@),
            r.dns_backup@ == join_spec(privileged_root(), "dns-backup.json"@),
            r.socket@ == privileged_socket(),
    {
        Self::from_root(string_of("/Library/Application Support/Aegis"), false)
    }

    /// The dev layout under `home/.aegis`, or `./.aegis` without a home.
    pub fn dev_under(home: Option<String>) -> (r: Self)
        ensures
            dev_layout(
                r,
                match home {
                    Some(h) => h@,
                    None => "."@,
                },
            ),
    {
        let base = match home {
            Some(h) => h,
            None => string_of("."),
        };
        let root = join(base.as_str(), ".aegis");
        Self::from_root(root, true)
    }

    /// The dev layout under the user's home directory.
    pub fn dev() -> (r: Self)
        ensures
            exists|home: Seq<char>| #[trigger] dev_layout(r, home),
    {
        let home = home_dir();
        Self::dev_under(home)
    }
}

/// `p` is the dev layout under `home/.aegis`.
pub open spec fn dev_layout(p: AegisPaths, home: Seq<char>) -> bool {
    let root = join_spec(home, ".aegis"@);
    &&& p.root@ == root
    &&& p.config@ == join_spec(root, "config.toml"@)
    &&& p.blocklist@ == join_spec(root, "blocklist.bin"@)
    &&& p.meta_db@ == join_spec(root, "meta.sqlite"@)
    &&& p.dns_backup@ == join_spec(root, "dns-backup.json"@)
    &&& p.socket@ == join_spec(root, "aegis.sock"@)
}

/// The DNS servers of each network service, saved before the daemon takes
/// over system DNS.
#[derive(Debug, Clone)]
pub struct DnsBackup {
    pub saved_at: String,
    pub services: Vec<DnsServiceBackup>,
}

#[derive(Debug, Clone)]
pub struct DnsServiceBackup {
    pub name: String,
    pub servers: Vec<String>,
}

} // verus!
