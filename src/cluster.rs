//! Cluster snapshots: load-balancing method, egress TLS policy, health-check
//! policy and members.
use vstd::prelude::*;
use crate::config::{bool_of, int_of, is_map, list_of, lookup, str_of, Node};
use crate::text::str_eq;

verus! {

/// The buffer budget of a cluster or listener that names none.
pub const DEFAULT_BUFFER: i64 = 1048578;

pub const DEFAULT_INTERVAL: i64 = 10;

pub const DEFAULT_DEAD_INTERVAL: i64 = 3;

pub const DEFAULT_LIVE_INTERVAL: i64 = 5;

pub const DEFAULT_WEIGHT: i64 = 1;

pub open spec fn opt(o: Option<&Node>) -> Option<Node> {
    match o {
        Some(n) => Some(*n),
        None => None,
    }
}

pub open spec fn lookup_in(o: Option<Node>, key: Seq<char>) -> Option<Node> {
    match o {
        Some(n) => lookup(n, key),
        None => None,
    }
}

/// The administrative or observed state of a member.  `Active` carries the
/// number of connections in flight.
#[derive(Clone, Copy, Debug, PartialEq, Eq, Structural)]
pub enum ClusterMemberStatus {
    Active(u16),
    Disabled,
    Unavailable,
}

#[derive(Clone, Copy, Debug, PartialEq, Eq, Structural)]
pub enum LbMethod {
    RoundRobin,
    LeastConn,
}

/// The status a member is configured with: `active` or `disabled`.
pub open spec fn status_from(o: Option<Node>) -> Option<ClusterMemberStatus> {
    match str_of(o) {
        Some(s) => if s == "active"@ {
            Some(ClusterMemberStatus::Active(0))
        } else if s == "disabled"@ {
            Some(ClusterMemberStatus::Disabled)
        } else {
            None
        },
        None => None,
    }
}

impl ClusterMemberStatus {
    pub fn new(status: Option<&Node>) -> (r: Option<Self>)
        ensures
            r == status_from(opt(status)),
    {
        let s = match status {
            Some(Node::Str(s)) => s,
            _ => return None,
        };
        if str_eq(s.as_str(), "active") {
            Some(ClusterMemberStatus::Active(0))
        } else if str_eq(s.as_str(), "disabled") {
            Some(ClusterMemberStatus::Disabled)
        } else {
            None
        }
    }
}

/// The method a cluster names: `leastconn`, or round-robin otherwise.
pub open spec fn lb_from(o: Option<Node>) -> LbMethod {
    if str_of(o) == Some("leastconn"@) {
        LbMethod::LeastConn
    } else {
        LbMethod::RoundRobin
    }
}

impl LbMethod {
    pub fn new(name: Option<&Node>) -> (r: Self)
        ensures
            r == lb_from(opt(name)),
    {
        match name {
            Some(Node::Str(s)) => if str_eq(s.as_str(), "leastconn") {
                LbMethod::LeastConn
            } else {
                LbMethod::RoundRobin
            },
            _ => LbMethod::RoundRobin,
        }
    }
}

/// How connections to members are wrapped in TLS: not at all, with the
/// client's own server name, or with a fixed one; the last field names the
/// TLS configuration.
#[derive(Clone, Debug, PartialEq, Eq)]
pub enum ClusterTlsConfig {
    NoTls,
    TransparentSni(String),
    Sni(String, String),
}

/// Whether `r` is the egress policy a `tls` entry describes: none unless it
/// is a map with a `name`; with an `sni` string that name is fixed,
/// otherwise the client's is passed on.
pub open spec fn tls_from(r: ClusterTlsConfig, o: Option<Node>) -> bool {
    let name = str_of(lookup_in(o, "name"@));
    let sni = str_of(lookup_in(o, "sni"@));
    if is_map(o) && name is Some {
        match sni {
            Some(x) => r matches ClusterTlsConfig::Sni(a, b) && a@ == x && b@ == name->0,
            None => r matches ClusterTlsConfig::TransparentSni(b) && b@ == name->0,
        }
    } else {
        r is NoTls
    }
}

impl ClusterTlsConfig {
    pub fn new(config: Option<&Node>) -> (r: Self)
        ensures
            tls_from(r, opt(config)),
    {
        let n = match config {
            Some(n) => n,
            None => return ClusterTlsConfig::NoTls,
        };
        if !n.is_map() {
            return ClusterTlsConfig::NoTls;
        }
        match n.get_str("name") {
            Some(name) => match n.get_str("sni") {
                Some(sni) => ClusterTlsConfig::Sni(sni.clone(), name.clone()),
                None => ClusterTlsConfig::TransparentSni(name.clone()),
            },
            None => ClusterTlsConfig::NoTls,
        }
    }
}

/// Probe period in seconds, and the numbers of contrary probes after which
/// a member is taken out (`dead_interval`) or put back (`live_interval`).
#[derive(Clone, Copy, Debug, PartialEq, Eq, Structural)]
pub struct CommonKeepaliveConfig {
    pub interval: i64,
    pub dead_interval: i64,
    pub live_interval: i64,
}

#[derive(Clone, Copy, Debug, PartialEq, Eq, Structural)]
pub struct IcmpKeepaliveConfig {
    pub common_config: CommonKeepaliveConfig,
}

#[derive(Clone, Copy, Debug, PartialEq, Eq, Structural)]
pub struct TcpKeepaliveConfig {
    pub common_config: CommonKeepaliveConfig,
}

#[derive(Clone, Debug, PartialEq, Eq)]
pub struct HttpKeepaliveConfig {
    pub common_config: CommonKeepaliveConfig,
    pub use_tls: bool,
    pub uri: String,
    pub response_code: i64,
}

pub open spec fn int_or(o: Option<i64>, d: i64) -> i64 {
    match o {
        Some(v) => v,
        None => d,
    }
}

/// The common settings under `common.config`, each defaulted.
pub open spec fn common_from(o: Option<Node>) -> CommonKeepaliveConfig {
    let c = lookup_in(lookup_in(o, "common"@), "config"@);
    if is_map(lookup_in(o, "common"@)) && is_map(c) {
        CommonKeepaliveConfig {
            interval: int_or(int_of(lookup_in(c, "interval"@)), DEFAULT_INTERVAL),
            dead_interval: int_or(int_of(lookup_in(c, "dead_interval"@)), DEFAULT_DEAD_INTERVAL),
            live_interval: int_or(int_of(lookup_in(c, "live_interval"@)), DEFAULT_LIVE_INTERVAL),
        }
    } else {
        CommonKeepaliveConfig {
            interval: DEFAULT_INTERVAL,
            dead_interval: DEFAULT_DEAD_INTERVAL,
            live_interval: DEFAULT_LIVE_INTERVAL,
        }
    }
}

/// Whether `r` is the policy a `keepalive` entry describes: the first of
/// `icmp`, `tcp`, `http` that is a map decides, and its `config` must be a
/// map; an HTTP probe needs a `uri` and a `response_code`.
pub open spec fn keepalive_from(r: Option<Keepalive>, o: Option<Node>) -> bool {
    let common = common_from(o);
    let icmp = lookup_in(o, "icmp"@);
    let tcp = lookup_in(o, "tcp"@);
    let http = lookup_in(o, "http"@);
    if !is_map(o) {
        r is None
    } else if is_map(icmp) {
        if is_map(lookup_in(icmp, "config"@)) {
            r == Some(Keepalive::IcmpKeepalive(IcmpKeepaliveConfig { common_config: common }))
        } else {
            r is None
        }
    } else if is_map(tcp) {
        if is_map(lookup_in(tcp, "config"@)) {
            r == Some(Keepalive::TcpKeepalive(TcpKeepaliveConfig { common_config: common }))
        } else {
            r is None
        }
    } else if is_map(http) {
        let c = lookup_in(http, "config"@);
        if is_map(c) && str_of(lookup_in(c, "uri"@)) is Some && int_of(lookup_in(c, "response_code"@)) is Some {
            r matches Some(Keepalive::HttpKeepalive(h)) && h.common_config == common && h.use_tls == match bool_of(
                lookup_in(c, "use_tls"@),
            ) {
                Some(b) => b,
                None => false,
            } && h.uri@ == str_of(lookup_in(c, "uri"@))->0 && h.response_code == int_of(
                lookup_in(c, "response_code"@),
            )->0
        } else {
            r is None
        }
    } else {
        r is None
    }
}

fn entry_of<'a>(o: Option<&'a Node>, key: &str) -> (r: Option<&'a Node>)
    ensures
        opt(r) == lookup_in(opt(o), key@),
{
    match o {
        Some(n) => n.get(key),
        None => None,
    }
}

fn is_map_opt(o: Option<&Node>) -> (r: bool)
    ensures
        r == is_map(opt(o)),
{
    match o {
        Some(n) => n.is_map(),
        None => false,
    }
}

fn int_or_default(o: Option<&Node>, d: i64) -> (r: i64)
    ensures
        r == int_or(int_of(opt(o)), d),
{
    match o {
        Some(Node::Int(v)) => *v,
        _ => d,
    }
}

impl CommonKeepaliveConfig {
    pub fn new(config: Option<&Node>) -> (r: Self)
        ensures
            r == common_from(opt(config)),
    {
        let common = entry_of(config, "common");
        let c = entry_of(common, "config");
        if is_map_opt(common) && is_map_opt(c) {
            CommonKeepaliveConfig {
                interval: int_or_default(entry_of(c, "interval"), DEFAULT_INTERVAL),
                dead_interval: int_or_default(entry_of(c, "dead_interval"), DEFAULT_DEAD_INTERVAL),
                live_interval: int_or_default(entry_of(c, "live_interval"), DEFAULT_LIVE_INTERVAL),
            }
        } else {
            CommonKeepaliveConfig {
                interval: DEFAULT_INTERVAL,
                dead_interval: DEFAULT_DEAD_INTERVAL,
                live_interval: DEFAULT_LIVE_INTERVAL,
            }
        }
    }
}

/// The health-check policy of a cluster.
#[derive(Clone, Debug, PartialEq, Eq)]
pub enum Keepalive {
    IcmpKeepalive(IcmpKeepaliveConfig),
    TcpKeepalive(TcpKeepaliveConfig),
    HttpKeepalive(HttpKeepaliveConfig),
}

impl Keepalive {
    pub fn new(config: Option<&Node>) -> (r: Option<Self>)
        ensures
            keepalive_from(r, opt(config)),
    {
        if !is_map_opt(config) {
            return None;
        }
        let common = CommonKeepaliveConfig::new(config);
        let icmp = entry_of(config, "icmp");
        let tcp = entry_of(config, "tcp");
        let http = entry_of(config, "http");
        if is_map_opt(icmp) {
            if is_map_opt(entry_of(icmp, "config")) {
                return Some(Keepalive::IcmpKeepalive(IcmpKeepaliveConfig { common_config: common }));
            }
            return None;
        }
        if is_map_opt(tcp) {
            if is_map_opt(entry_of(tcp, "config")) {
                return Some(Keepalive::TcpKeepalive(TcpKeepaliveConfig { common_config: common }));
            }
            return None;
        }
        if is_map_opt(http) {
            let c = entry_of(http, "config");
            if !is_map_opt(c) {
                return None;
            }
            let uri = match entry_of(c, "uri") {
                Some(Node::Str(u)) => u.clone(),
                _ => return None,
            };
            let code = match entry_of(c, "response_code") {
                Some(Node::Int(v)) => *v,
                _ => return None,
            };
            let use_tls = match entry_of(c, "use_tls") {
                Some(Node::Bool(b)) => *b,
                _ => false,
            };
            return Some(
                Keepalive::HttpKeepalive(
                    HttpKeepaliveConfig { common_config: common, use_tls, uri, response_code: code },
                ),
            );
        }
        None
    }

    pub open spec fn spec_common(&self) -> CommonKeepaliveConfig {
        match self {
            Keepalive::IcmpKeepalive(c) => c.common_config,
            Keepalive::TcpKeepalive(c) => c.common_config,
            Keepalive::HttpKeepalive(c) => c.common_config,
        }
    }

    /// The settings every policy has.
    pub fn common(&self) -> (r: CommonKeepaliveConfig)
        ensures
            r == self.spec_common(),
    {
        match self {
            Keepalive::IcmpKeepalive(c) => c.common_config,
            Keepalive::TcpKeepalive(c) => c.common_config,
            Keepalive::HttpKeepalive(c) => c.common_config,
        }
    }
}

/// A member as configured: its socket address, its initial status and its
/// weight.
#[derive(Clone, Debug)]
pub struct ClusterMemberConfig {
    pub address: String,
    pub status: ClusterMemberStatus,
    pub weight: i64,
}

/// Whether an entry of `members` describes a member: a map with a
/// `socket_address` string.
#[verifier::opaque]
pub open spec fn is_member_entry(n: Node) -> bool {
    n is Hash && str_of(lookup(n, "socket_address"@)) is Some
}

/// Whether an entry has a known `status`.
#[verifier::opaque]
pub open spec fn has_status(n: Node) -> bool {
    status_from(lookup(n, "status"@)) is Some
}

/// Whether `m` is the member an entry of `members` describes: a map with a
/// `socket_address` string and a known `status`.
#[verifier::opaque]
pub open spec fn member_from(m: ClusterMemberConfig, n: Node) -> bool {
    &&& str_of(lookup(n, "socket_address"@)) == Some(m.address@)
    &&& status_from(lookup(n, "status"@)) == Some(m.status)
    &&& m.weight == int_or(int_of(lookup(n, "weight"@)), DEFAULT_WEIGHT)
}

/// Whether a list of member entries can be read: every map entry with a
/// `socket_address` string has a known status.
pub open spec fn members_ok(l: Seq<Node>) -> bool {
    forall|i: int| 0 <= i < l.len() && is_member_entry(#[trigger] l[i]) ==> has_status(l[i])
}

/// The entries of `l` that describe members: maps with a `socket_address`
/// string.
pub open spec fn member_entries(l: Seq<Node>) -> Seq<Node>
    decreases l.len(),
{
    if l.len() == 0 {
        Seq::empty()
    } else {
        let p = member_entries(l.drop_last());
        let n = l.last();
        if is_member_entry(n) {
            p.push(n)
        } else {
            p
        }
    }
}

fn read_member(n: &Node) -> (r: Option<Option<ClusterMemberConfig>>)
    ensures
        !is_member_entry(*n) ==> r == Some(None::<ClusterMemberConfig>),
        is_member_entry(*n) && has_status(*n) ==> (r matches Some(Some(m)) && member_from(m, *n)),
        is_member_entry(*n) && !has_status(*n) ==> r is None,
{
    reveal(is_member_entry);
    reveal(has_status);
    reveal(member_from);
    if !n.is_map() {
        return Some(None);
    }
    let address = match n.get_str("socket_address") {
        Some(a) => a.clone(),
        None => return Some(None),
    };
    let status = match ClusterMemberStatus::new(n.get("status")) {
        Some(s) => s,
        None => return None,
    };
    let weight = int_or_default(n.get("weight"), DEFAULT_WEIGHT);
    Some(Some(ClusterMemberConfig { address, status, weight }))
}

/// A cluster snapshot.
#[derive(Clone, Debug)]
pub struct ClusterConfig {
    pub name: String,
    pub buffer: i64,
    pub lb_method: LbMethod,
    pub tls: ClusterTlsConfig,
    pub keepalive: Option<Keepalive>,
    pub members: Vec<ClusterMemberConfig>,
}

/// Whether `c` is the snapshot a `clusters` entry describes, its members
/// being `ms`.
pub open spec fn cluster_from(c: ClusterConfig, n: Node) -> bool {
    let ms = match list_of(lookup(n, "members"@)) {
        Some(l) => member_entries(l),
        None => Seq::empty(),
    };
    &&& str_of(lookup(n, "name"@)) == Some(c.name@)
    &&& c.buffer == int_or(int_of(lookup(n, "buffer"@)), DEFAULT_BUFFER)
    &&& c.lb_method == lb_from(lookup(n, "lb_method"@))
    &&& keepalive_from(c.keepalive, lookup(n, "keepalive"@))
    &&& tls_from(c.tls, lookup(n, "tls"@))
    &&& c.members@.len() == ms.len()
    &&& forall|i: int| 0 <= i < ms.len() ==> member_from(#[trigger] c.members@[i], ms[i])
}

/// Whether a `clusters` entry can be read: a map with a `name`, whose
/// members all have a known status.
pub open spec fn cluster_ok(n: Node) -> bool {
    &&& n is Hash
    &&& str_of(lookup(n, "name"@)) is Some
    &&& match list_of(lookup(n, "members"@)) {
        Some(l) => members_ok(l),
        None => true,
    }
}

fn read_members(l: &Vec<Node>) -> (r: Option<Vec<ClusterMemberConfig>>)
    ensures
        r is Some == members_ok(l@),
        r matches Some(ms) ==> ms@.len() == member_entries(l@).len() && forall|k: int|
            0 <= k < ms@.len() ==> member_from(#[trigger] ms@[k], member_entries(l@)[k]),
{
    let mut members: Vec<ClusterMemberConfig> = Vec::new();
    let mut i: usize = 0;
    assert(l@.subrange(0, 0) =~= Seq::<Node>::empty());
    while i < l.len()
        invariant
            i <= l@.len(),
            members@.len() == member_entries(l@.subrange(0, i as int)).len(),
            forall|k: int| 0 <= k < members@.len() ==> member_from(#[trigger] members@[k], member_entries(l@.subrange(0, i as int))[k]),
            members_ok(l@.subrange(0, i as int)),
        decreases l@.len() - i,
    {
        let ghost pre = l@.subrange(0, i as int);
        let ghost cur = l@.subrange(0, i + 1);
        assert(cur.drop_last() =~= pre);
        assert(cur.last() == l@[i as int]);
        match read_member(&l[i]) {
            None => {
                assert(!members_ok(l@)) by {
                    assert(is_member_entry(l@[i as int]));
                }
                return None;
            },
            Some(None) => {},
            Some(Some(m)) => {
                members.push(m);
            },
        }
        assert forall|k: int| 0 <= k < cur.len() && is_member_entry(#[trigger] cur[k]) implies has_status(cur[k]) by {
            if k < i {
                assert(cur[k] == pre[k]);
            }
        }
        i = i + 1;
    }
    assert(l@.subrange(0, l@.len() as int) =~= l@);
    Some(members)
}

impl ClusterConfig {
    /// Reads a cluster snapshot; `None` when the entry is not a map, has no
    /// name, or has a member without a known status.
    pub fn new(config: &Node) -> (r: Option<Self>)
        ensures
            r is Some == cluster_ok(*config),
            r matches Some(c) ==> cluster_from(c, *config),
    {
        if !config.is_map() {
            return None;
        }
        let name = match config.get_str("name") {
            Some(s) => s.clone(),
            None => return None,
        };
        let buffer = int_or_default(config.get("buffer"), DEFAULT_BUFFER);
        let lb_method = LbMethod::new(config.get("lb_method"));
        let keepalive = Keepalive::new(config.get("keepalive"));
        let tls = ClusterTlsConfig::new(config.get("tls"));
        let members: Vec<ClusterMemberConfig> = match config.get_list("members") {
            Some(l) => match read_members(l) {
                Some(ms) => ms,
                None => return None,
            },
            None => Vec::new(),
        };
        assert(match list_of(lookup(*config, "members"@)) {
            Some(l) => member_entries(l).len() == members@.len(),
            None => members@.len() == 0,
        });
        Some(ClusterConfig { name, buffer, lb_method, tls, keepalive, members })
    }
}

} // verus!
