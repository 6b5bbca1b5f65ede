//! Listener snapshots: bind address, preprocessors, and HTTP protocol
//! configurations with their virtual hosts and routes.
use vstd::prelude::*;
use crate::cluster::{int_or, DEFAULT_BUFFER};
use crate::config::{int_of, list_of, lookup, str_of, Node};
use crate::matcher::{regex_builds, Key, KV, Pattern, Value};
use crate::nocase::NoCaseStr;
use crate::text::str_eq;

verus! {

pub open spec fn node_text(n: Node) -> Option<Seq<char>> {
    match n {
        Node::Str(s) => Some(s@),
        _ => None,
    }
}

/// Every entry is a string.
pub open spec fn strings_ok(l: Seq<Node>) -> bool {
    forall|j: int| 0 <= j < l.len() ==> node_text(#[trigger] l[j]) is Some
}

/// Every entry is a string that compiles as a regular expression.
pub open spec fn patterns_ok(l: Seq<Node>, no_case: bool) -> bool {
    forall|j: int| 0 <= j < l.len() ==> node_text(#[trigger] l[j]) is Some && regex_builds(node_text(l[j])->0, no_case)
}

/// `ps` are the patterns compiled from the strings of `l`.
pub open spec fn patterns_from(ps: Seq<Pattern>, l: Seq<Node>, no_case: bool) -> bool {
    &&& ps.len() == l.len()
    &&& forall|j: int| 0 <= j < l.len() ==> node_text(#[trigger] l[j]) == Some(ps[j].source()) && ps[j].no_case() == no_case
}

/// `vs` are regular-expression values compiled from the strings of `l`.
pub open spec fn regex_values_from(vs: Seq<Value>, l: Seq<Node>, no_case: bool) -> bool {
    &&& vs.len() == l.len()
    &&& forall|j: int| 0 <= j < l.len() ==> (#[trigger] vs[j] matches Value::Regex(p) && node_text(l[j]) == Some(p.source())
        && p.no_case() == no_case)
}

fn read_patterns(l: &Vec<Node>, no_case: bool) -> (r: Option<Vec<Pattern>>)
    ensures
        r is Some == patterns_ok(l@, no_case),
        r matches Some(ps) ==> patterns_from(ps@, l@, no_case),
{
    let mut ps: Vec<Pattern> = Vec::new();
    let mut i: usize = 0;
    while i < l.len()
        invariant
            i <= l@.len(),
            ps@.len() == i,
            forall|j: int| 0 <= j < i ==> node_text(#[trigger] l@[j]) is Some && regex_builds(node_text(l@[j])->0, no_case),
            forall|j: int| 0 <= j < i ==> node_text(#[trigger] l@[j]) == Some(ps@[j].source()) && ps@[j].no_case() == no_case,
        decreases l@.len() - i,
    {
        match &l[i] {
            Node::Str(src) => match Pattern::new(src.as_str(), no_case) {
                Some(p) => ps.push(p),
                None => return None,
            },
            _ => return None,
        }
        i = i + 1;
    }
    Some(ps)
}

fn read_regex_values(l: &Vec<Node>, no_case: bool) -> (r: Option<Vec<Value>>)
    ensures
        r is Some == patterns_ok(l@, no_case),
        r matches Some(vs) ==> regex_values_from(vs@, l@, no_case),
{
    let mut vs: Vec<Value> = Vec::new();
    let mut i: usize = 0;
    while i < l.len()
        invariant
            i <= l@.len(),
            vs@.len() == i,
            forall|j: int| 0 <= j < i ==> node_text(#[trigger] l@[j]) is Some && regex_builds(node_text(l@[j])->0, no_case),
            forall|j: int| 0 <= j < i ==> (#[trigger] vs@[j] matches Value::Regex(p) && node_text(l@[j]) == Some(p.source())
                && p.no_case() == no_case),
        decreases l@.len() - i,
    {
        match &l[i] {
            Node::Str(src) => match Pattern::new(src.as_str(), no_case) {
                Some(p) => vs.push(Value::Regex(p)),
                None => return None,
            },
            _ => return None,
        }
        i = i + 1;
    }
    Some(vs)
}

fn read_strings(l: &Vec<Node>) -> (r: Option<Vec<String>>)
    ensures
        r is Some == strings_ok(l@),
        r matches Some(ss) ==> ss@.len() == l@.len() && forall|j: int|
            0 <= j < l@.len() ==> node_text(#[trigger] l@[j]) == Some(ss@[j]@),
{
    let mut ss: Vec<String> = Vec::new();
    let mut i: usize = 0;
    while i < l.len()
        invariant
            i <= l@.len(),
            ss@.len() == i,
            forall|j: int| 0 <= j < i ==> node_text(#[trigger] l@[j]) == Some(ss@[j]@),
        decreases l@.len() - i,
    {
        match &l[i] {
            Node::Str(x) => ss.push(x.clone()),
            _ => {
                assert(node_text(l@[i as int]) is None);
                return None;
            },
        }
        i = i + 1;
    }
    Some(ss)
}

/// Whether an entry of a header clause describes a header match: a
/// `header_name` string with a `header_value` or `header_regex` string.
#[verifier::opaque]
pub open spec fn is_header_entry(n: Node) -> bool {
    str_of(lookup(n, "header_name"@)) is Some && (str_of(lookup(n, "header_value"@)) is Some || str_of(
        lookup(n, "header_regex"@),
    ) is Some)
}

/// Whether a header entry can be read: a regex value must compile.
#[verifier::opaque]
pub open spec fn header_entry_ok(n: Node) -> bool {
    str_of(lookup(n, "header_value"@)) is None && str_of(lookup(n, "header_regex"@)) is Some ==> regex_builds(
        str_of(lookup(n, "header_regex"@))->0,
        false,
    )
}

/// Whether `kv` is what a header entry describes: an exact name and value,
/// or a case-insensitive name and a regular expression.
#[verifier::opaque]
pub open spec fn header_kv_from(kv: KV, n: Node) -> bool {
    let name = str_of(lookup(n, "header_name"@))->0;
    match str_of(lookup(n, "header_value"@)) {
        Some(v) => (kv.key matches Key::String(k) && k@ == name) && (kv.value matches Value::String(x) && x@ == v),
        None => (kv.key matches Key::NoCaseString(k) && k@ == name) && (kv.value matches Value::Regex(p) && Some(
            p.source(),
        ) == str_of(lookup(n, "header_regex"@)) && !p.no_case()),
    }
}

pub open spec fn header_entries(l: Seq<Node>) -> Seq<Node>
    decreases l.len(),
{
    if l.len() == 0 {
        Seq::empty()
    } else if is_header_entry(l.last()) {
        header_entries(l.drop_last()).push(l.last())
    } else {
        header_entries(l.drop_last())
    }
}

pub open spec fn headers_ok(l: Seq<Node>) -> bool {
    forall|j: int| 0 <= j < l.len() && is_header_entry(#[trigger] l[j]) ==> header_entry_ok(l[j])
}

fn read_header_entry(n: &Node) -> (r: Option<Option<KV>>)
    ensures
        !is_header_entry(*n) ==> r == Some(None::<KV>),
        is_header_entry(*n) && header_entry_ok(*n) ==> (r matches Some(Some(kv)) && header_kv_from(kv, *n)),
        is_header_entry(*n) && !header_entry_ok(*n) ==> r is None,
{
    reveal(is_header_entry);
    reveal(header_entry_ok);
    reveal(header_kv_from);
    let name = match n.get_str("header_name") {
        Some(x) => x,
        None => return Some(None),
    };
    match n.get_str("header_value") {
        Some(v) => Some(Some(KV { key: Key::String(name.clone()), value: Value::String(v.clone()) })),
        None => match n.get_str("header_regex") {
            Some(src) => match Pattern::new(src.as_str(), false) {
                Some(p) => Some(Some(KV { key: Key::NoCaseString(NoCaseStr::new(name.as_str())), value: Value::Regex(p) })),
                None => None,
            },
            None => Some(None),
        },
    }
}

fn read_headers_list(l: &Vec<Node>) -> (r: Option<Vec<KV>>)
    ensures
        r is Some == headers_ok(l@),
        r matches Some(kvs) ==> kvs@.len() == header_entries(l@).len() && forall|k: int|
            0 <= k < kvs@.len() ==> header_kv_from(#[trigger] kvs@[k], header_entries(l@)[k]),
{
    let mut kvs: Vec<KV> = Vec::new();
    let mut i: usize = 0;
    assert(l@.subrange(0, 0) =~= Seq::<Node>::empty());
    while i < l.len()
        invariant
            i <= l@.len(),
            kvs@.len() == header_entries(l@.subrange(0, i as int)).len(),
            forall|k: int| 0 <= k < kvs@.len() ==> header_kv_from(#[trigger] kvs@[k], header_entries(l@.subrange(0, i as int))[k]),
            headers_ok(l@.subrange(0, i as int)),
        decreases l@.len() - i,
    {
        let ghost pre = l@.subrange(0, i as int);
        let ghost cur = l@.subrange(0, i + 1);
        assert(cur.drop_last() =~= pre);
        assert(cur.last() == l@[i as int]);
        match read_header_entry(&l[i]) {
            None => {
                assert(!headers_ok(l@)) by {
                    assert(is_header_entry(l@[i as int]));
                }
                return None;
            },
            Some(None) => {},
            Some(Some(kv)) => kvs.push(kv),
        }
        assert forall|k: int| 0 <= k < cur.len() && is_header_entry(#[trigger] cur[k]) implies header_entry_ok(cur[k]) by {
            if k < i {
                assert(cur[k] == pre[k]);
            }
        }
        i = i + 1;
    }
    assert(l@.subrange(0, l@.len() as int) =~= l@);
    Some(kvs)
}

pub struct Listener {
    pub name: String,
}

/// A listener snapshot.
#[derive(Clone, Debug)]
pub struct ListenerConfig {
    pub name: String,
    pub listen: String,
    pub preprocessors: Vec<KV>,
    pub buffer: i64,
    pub protocols: Vec<ListenerProtocolConfig>,
}

#[derive(Clone, Debug)]
pub enum ListenerProtocolConfig {
    HTTPListener(ListenerHttpProtocolConfig),
    GrpcListener,
}

/// An HTTP protocol on a listener: server names it answers for, its buffer
/// budget and its virtual hosts.
#[derive(Clone, Debug)]
pub struct ListenerHttpProtocolConfig {
    pub name: String,
    pub sni: Vec<Value>,
    pub buffer: i64,
    pub virtual_hosts: Vec<VirtualHostConfig>,
}

#[derive(Clone, Debug)]
pub struct VirtualHostConfig {
    pub name: String,
    pub host_names: Vec<Value>,
    pub routes: Vec<RouteConfig>,
}

/// A route: every clause must match; the actions are taken from the front.
#[derive(Clone, Debug)]
pub struct RouteConfig {
    pub name: String,
    pub path_matches: Vec<PathMatchConfig>,
    pub actions: Vec<ActionConfig>,
}

#[derive(Clone, Debug)]
pub struct PathMatchConfig {
    pub name: String,
    pub action: PathMatchActionConfig,
}

/// One clause of a route.
#[derive(Clone, Debug)]
pub enum PathMatchActionConfig {
    PathRegex(Vec<Pattern>),
    PathPrefix(Vec<String>),
    Method(Vec<NoCaseStr>),
    HeaderMatch(Vec<KV>),
}

/// What a matched route does.
#[derive(Clone, Debug)]
pub enum ActionConfig {
    Backend(String),
    NoAction,
}

} // verus!

verus! {

/// Whether an entry of `path_matches` describes a clause: it has a `name`
/// and one of `path_regex`, `path_prefix`, `header`, `method` as a list.
#[verifier::opaque]
pub open spec fn is_path_entry(n: Node) -> bool {
    &&& str_of(lookup(n, "name"@)) is Some
    &&& (list_of(lookup(n, "path_regex"@)) is Some || list_of(lookup(n, "path_prefix"@)) is Some || list_of(
        lookup(n, "header"@),
    ) is Some || list_of(lookup(n, "method"@)) is Some)
}

/// Whether a clause entry can be read; the first of the four lists present
/// decides.
#[verifier::opaque]
pub open spec fn path_entry_ok(n: Node) -> bool {
    match list_of(lookup(n, "path_regex"@)) {
        Some(l) => patterns_ok(l, false),
        None => match list_of(lookup(n, "path_prefix"@)) {
            Some(l) => strings_ok(l),
            None => match list_of(lookup(n, "header"@)) {
                Some(l) => headers_ok(l),
                None => match list_of(lookup(n, "method"@)) {
                    Some(l) => strings_ok(l),
                    None => true,
                },
            },
        },
    }
}

/// Whether `p` is the clause an entry describes.
#[verifier::opaque]
pub open spec fn path_match_from(p: PathMatchConfig, n: Node) -> bool {
    &&& str_of(lookup(n, "name"@)) == Some(p.name@)
    &&& match list_of(lookup(n, "path_regex"@)) {
        Some(l) => p.action matches PathMatchActionConfig::PathRegex(ps) && patterns_from(ps@, l, false),
        None => match list_of(lookup(n, "path_prefix"@)) {
            Some(l) => p.action matches PathMatchActionConfig::PathPrefix(ps) && ps@.len() == l.len() && forall|j: int|
                0 <= j < l.len() ==> node_text(#[trigger] l[j]) == Some(ps@[j]@),
            None => match list_of(lookup(n, "header"@)) {
                Some(l) => p.action matches PathMatchActionConfig::HeaderMatch(kvs) && kvs@.len() == header_entries(
                    l,
                ).len() && forall|k: int| 0 <= k < kvs@.len() ==> header_kv_from(#[trigger] kvs@[k], header_entries(l)[k]),
                None => match list_of(lookup(n, "method"@)) {
                    Some(l) => p.action matches PathMatchActionConfig::Method(ms) && ms@.len() == l.len() && forall|j: int|
                        0 <= j < l.len() ==> node_text(#[trigger] l[j]) == Some(ms@[j]@),
                    None => false,
                },
            },
        },
    }
}

fn read_path_entry(n: &Node) -> (r: Option<Option<PathMatchConfig>>)
    ensures
        !is_path_entry(*n) ==> r == Some(None::<PathMatchConfig>),
        is_path_entry(*n) && path_entry_ok(*n) ==> (r matches Some(Some(p)) && path_match_from(p, *n)),
        is_path_entry(*n) && !path_entry_ok(*n) ==> r is None,
{
    reveal(is_path_entry);
    reveal(path_entry_ok);
    reveal(path_match_from);
    let name = match n.get_str("name") {
        Some(x) => x.clone(),
        None => return Some(None),
    };
    if let Some(l) = n.get_list("path_regex") {
        return match read_patterns(l, false) {
            Some(ps) => Some(Some(PathMatchConfig { name, action: PathMatchActionConfig::PathRegex(ps) })),
            None => None,
        };
    }
    if let Some(l) = n.get_list("path_prefix") {
        return match read_strings(l) {
            Some(ps) => Some(Some(PathMatchConfig { name, action: PathMatchActionConfig::PathPrefix(ps) })),
            None => None,
        };
    }
    if let Some(l) = n.get_list("header") {
        return match read_headers_list(l) {
            Some(kvs) => Some(Some(PathMatchConfig { name, action: PathMatchActionConfig::HeaderMatch(kvs) })),
            None => None,
        };
    }
    if let Some(l) = n.get_list("method") {
        return match read_strings(l) {
            Some(ss) => {
                let mut ms: Vec<NoCaseStr> = Vec::new();
                let mut i: usize = 0;
                while i < ss.len()
                    invariant
                        i <= ss@.len(),
                        ms@.len() == i,
                        forall|j: int| 0 <= j < i ==> (#[trigger] ms@[j])@ == ss@[j]@,
                    decreases ss@.len() - i,
                {
                    ms.push(NoCaseStr::new(ss[i].as_str()));
                    i = i + 1;
                }
                Some(Some(PathMatchConfig { name, action: PathMatchActionConfig::Method(ms) }))
            },
            None => None,
        };
    }
    Some(None)
}

pub open spec fn path_entries(l: Seq<Node>) -> Seq<Node>
    decreases l.len(),
{
    if l.len() == 0 {
        Seq::empty()
    } else if is_path_entry(l.last()) {
        path_entries(l.drop_last()).push(l.last())
    } else {
        path_entries(l.drop_last())
    }
}

pub open spec fn paths_ok(l: Seq<Node>) -> bool {
    forall|j: int| 0 <= j < l.len() && is_path_entry(#[trigger] l[j]) ==> path_entry_ok(l[j])
}

fn read_paths(l: &Vec<Node>) -> (r: Option<Vec<PathMatchConfig>>)
    ensures
        r is Some == paths_ok(l@),
        r matches Some(ps) ==> ps@.len() == path_entries(l@).len() && forall|k: int|
            0 <= k < ps@.len() ==> path_match_from(#[trigger] ps@[k], path_entries(l@)[k]),
{
    let mut ps: Vec<PathMatchConfig> = Vec::new();
    let mut i: usize = 0;
    assert(l@.subrange(0, 0) =~= Seq::<Node>::empty());
    while i < l.len()
        invariant
            i <= l@.len(),
            ps@.len() == path_entries(l@.subrange(0, i as int)).len(),
            forall|k: int| 0 <= k < ps@.len() ==> path_match_from(#[trigger] ps@[k], path_entries(l@.subrange(0, i as int))[k]),
            paths_ok(l@.subrange(0, i as int)),
        decreases l@.len() - i,
    {
        let ghost pre = l@.subrange(0, i as int);
        let ghost cur = l@.subrange(0, i + 1);
        assert(cur.drop_last() =~= pre);
        assert(cur.last() == l@[i as int]);
        match read_path_entry(&l[i]) {
            None => {
                assert(!paths_ok(l@)) by {
                    assert(is_path_entry(l@[i as int]));
                }
                return None;
            },
            Some(None) => {},
            Some(Some(p)) => ps.push(p),
        }
        assert forall|k: int| 0 <= k < cur.len() && is_path_entry(#[trigger] cur[k]) implies path_entry_ok(cur[k]) by {
            if k < i {
                assert(cur[k] == pre[k]);
            }
        }
        i = i + 1;
    }
    assert(l@.subrange(0, l@.len() as int) =~= l@);
    Some(ps)
}

pub open spec fn action_entries(l: Seq<Node>) -> Seq<Seq<char>>
    decreases l.len(),
{
    if l.len() == 0 {
        Seq::empty()
    } else {
        match str_of(lookup(l.last(), "backend"@)) {
            Some(b) => action_entries(l.drop_last()).push(b),
            None => action_entries(l.drop_last()),
        }
    }
}

fn read_actions(l: &Vec<Node>) -> (r: Vec<ActionConfig>)
    ensures
        r@.len() == action_entries(l@).len(),
        forall|k: int| 0 <= k < r@.len() ==> (#[trigger] r@[k] matches ActionConfig::Backend(b) && b@ == action_entries(l@)[k]),
{
    let mut r: Vec<ActionConfig> = Vec::new();
    let mut i: usize = 0;
    assert(l@.subrange(0, 0) =~= Seq::<Node>::empty());
    while i < l.len()
        invariant
            i <= l@.len(),
            r@.len() == action_entries(l@.subrange(0, i as int)).len(),
            forall|k: int| 0 <= k < r@.len() ==> (#[trigger] r@[k] matches ActionConfig::Backend(b) && b@ == action_entries(
                l@.subrange(0, i as int),
            )[k]),
        decreases l@.len() - i,
    {
        let ghost pre = l@.subrange(0, i as int);
        assert(l@.subrange(0, i + 1).drop_last() =~= pre);
        assert(l@.subrange(0, i + 1).last() == l@[i as int]);
        if let Some(b) = l[i].get_str("backend") {
            r.push(ActionConfig::Backend(b.clone()));
        }
        i = i + 1;
    }
    assert(l@.subrange(0, l@.len() as int) =~= l@);
    r
}

pub open spec fn list_or_empty(o: Option<Seq<Node>>) -> Seq<Node> {
    match o {
        Some(l) => l,
        None => Seq::empty(),
    }
}

/// Whether a `routes` entry can be read: a map with a `name` whose clauses
/// can be read.
#[verifier::opaque]
pub open spec fn route_ok(n: Node) -> bool {
    n is Hash && str_of(lookup(n, "name"@)) is Some && paths_ok(list_or_empty(list_of(lookup(n, "path_matches"@))))
}

/// Whether `r` is the route an entry describes: its name, its clauses and
/// the backends of its actions, in order.
#[verifier::opaque]
pub open spec fn route_from(r: RouteConfig, n: Node) -> bool {
    let paths = path_entries(list_or_empty(list_of(lookup(n, "path_matches"@))));
    let acts = action_entries(list_or_empty(list_of(lookup(n, "actions"@))));
    &&& str_of(lookup(n, "name"@)) == Some(r.name@)
    &&& r.path_matches@.len() == paths.len()
    &&& forall|k: int| 0 <= k < paths.len() ==> path_match_from(#[trigger] r.path_matches@[k], paths[k])
    &&& r.actions@.len() == acts.len()
    &&& forall|k: int| 0 <= k < acts.len() ==> (#[trigger] r.actions@[k] matches ActionConfig::Backend(b) && b@ == acts[k])
}

impl RouteConfig {
    /// Reads a route; `None` when the entry is not a map, has no name, or
    /// has a clause that cannot be read.
    pub fn new(config: &Node) -> (r: Option<Self>)
        ensures
            r is Some == route_ok(*config),
            r matches Some(rc) ==> route_from(rc, *config),
    {
        reveal(route_ok);
        reveal(route_from);
        if !config.is_map() {
            return None;
        }
        let name = match config.get_str("name") {
            Some(s) => s.clone(),
            None => return None,
        };
        let path_matches = match config.get_list("path_matches") {
            Some(l) => match read_paths(l) {
                Some(ps) => ps,
                None => return None,
            },
            None => {
                let v: Vec<PathMatchConfig> = Vec::new();
                assert(path_entries(Seq::<Node>::empty()) =~= Seq::<Node>::empty());
                v
            },
        };
        let actions = match config.get_list("actions") {
            Some(l) => read_actions(l),
            None => {
                assert(action_entries(Seq::<Node>::empty()) =~= Seq::<Seq<char>>::empty());
                Vec::new()
            },
        };
        Some(RouteConfig { name, path_matches, actions })
    }
}

/// Whether a `virtual_hosts` entry can be read: a map with a `name`, host
/// names that compile (case-insensitively) and routes that can be read.
#[verifier::opaque]
pub open spec fn vhost_ok(n: Node) -> bool {
    &&& n is Hash
    &&& str_of(lookup(n, "name"@)) is Some
    &&& patterns_ok(list_or_empty(list_of(lookup(n, "host_names"@))), true)
    &&& forall|j: int| 0 <= j < list_or_empty(list_of(lookup(n, "routes"@))).len() ==> route_ok(
        #[trigger] list_or_empty(list_of(lookup(n, "routes"@)))[j],
    )
}

/// Whether `v` is the virtual host an entry describes.
#[verifier::opaque]
pub open spec fn vhost_from(v: VirtualHostConfig, n: Node) -> bool {
    let routes = list_or_empty(list_of(lookup(n, "routes"@)));
    &&& str_of(lookup(n, "name"@)) == Some(v.name@)
    &&& regex_values_from(v.host_names@, list_or_empty(list_of(lookup(n, "host_names"@))), true)
    &&& v.routes@.len() == routes.len()
    &&& forall|j: int| 0 <= j < routes.len() ==> route_from(#[trigger] v.routes@[j], routes[j])
}

fn read_routes(l: &Vec<Node>) -> (r: Option<Vec<RouteConfig>>)
    ensures
        r is Some == forall|j: int| 0 <= j < l@.len() ==> route_ok(#[trigger] l@[j]),
        r matches Some(rs) ==> rs@.len() == l@.len() && forall|j: int| 0 <= j < l@.len() ==> route_from(#[trigger] rs@[j], l@[j]),
{
    let mut rs: Vec<RouteConfig> = Vec::new();
    let mut i: usize = 0;
    while i < l.len()
        invariant
            i <= l@.len(),
            rs@.len() == i,
            forall|j: int| 0 <= j < i ==> route_ok(#[trigger] l@[j]),
            forall|j: int| 0 <= j < i ==> route_from(#[trigger] rs@[j], l@[j]),
        decreases l@.len() - i,
    {
        match RouteConfig::new(&l[i]) {
            Some(r) => rs.push(r),
            None => return None,
        }
        i = i + 1;
    }
    Some(rs)
}

impl VirtualHostConfig {
    /// Reads a virtual host; `None` when it cannot be read, see [`vhost_ok`].
    pub fn new(config: &Node) -> (r: Option<Self>)
        ensures
            r is Some == vhost_ok(*config),
            r matches Some(v) ==> vhost_from(v, *config),
    {
        let ghost hl = list_or_empty(list_of(lookup(*config, "host_names"@)));
        let ghost rl = list_or_empty(list_of(lookup(*config, "routes"@)));
        if !config.is_map() {
            proof { reveal(vhost_ok); }
            return None;
        }
        let name = match config.get_str("name") {
            Some(s) => s.clone(),
            None => {
                proof { reveal(vhost_ok); }
                return None;
            },
        };
        let host_names = match config.get_list("host_names") {
            Some(l) => match read_regex_values(l, true) {
                Some(v) => v,
                None => {
                    proof { reveal(vhost_ok); }
                    return None;
                },
            },
            None => {
                assert(patterns_ok(hl, true));
                Vec::new()
            },
        };
        let routes = match config.get_list("routes") {
            Some(l) => match read_routes(l) {
                Some(v) => v,
                None => {
                    proof {
                        reveal(vhost_ok);
                        assert(l@ == rl);
                    }
                    return None;
                },
            },
            None => {
                assert(rl.len() == 0);
                Vec::new()
            },
        };
        let r = VirtualHostConfig { name, host_names, routes };
        proof {
            reveal(vhost_ok);
            reveal(vhost_from);
            assert(regex_values_from(r.host_names@, hl, true));
        }
        Some(r)
    }
}

/// Whether an HTTP protocol entry can be read.
#[verifier::opaque]
pub open spec fn protocol_ok(n: Node) -> bool {
    &&& n is Hash
    &&& str_of(lookup(n, "name"@)) is Some
    &&& patterns_ok(list_or_empty(list_of(lookup(n, "sni"@))), true)
    &&& forall|j: int| 0 <= j < list_or_empty(list_of(lookup(n, "virtual_hosts"@))).len() ==> vhost_ok(
        #[trigger] list_or_empty(list_of(lookup(n, "virtual_hosts"@)))[j],
    )
}

/// Whether `p` is the HTTP protocol an entry describes; its budget
/// defaults to 0.
#[verifier::opaque]
pub open spec fn protocol_from(p: ListenerHttpProtocolConfig, n: Node) -> bool {
    let vhosts = list_or_empty(list_of(lookup(n, "virtual_hosts"@)));
    &&& str_of(lookup(n, "name"@)) == Some(p.name@)
    &&& p.buffer == int_or(int_of(lookup(n, "buffer"@)), 0)
    &&& regex_values_from(p.sni@, list_or_empty(list_of(lookup(n, "sni"@))), true)
    &&& p.virtual_hosts@.len() == vhosts.len()
    &&& forall|j: int| 0 <= j < vhosts.len() ==> vhost_from(#[trigger] p.virtual_hosts@[j], vhosts[j])
}

fn read_vhosts(l: &Vec<Node>) -> (r: Option<Vec<VirtualHostConfig>>)
    ensures
        r is Some == forall|j: int| 0 <= j < l@.len() ==> vhost_ok(#[trigger] l@[j]),
        r matches Some(vs) ==> vs@.len() == l@.len() && forall|j: int| 0 <= j < l@.len() ==> vhost_from(#[trigger] vs@[j], l@[j]),
{
    let mut vs: Vec<VirtualHostConfig> = Vec::new();
    let mut i: usize = 0;
    while i < l.len()
        invariant
            i <= l@.len(),
            vs@.len() == i,
            forall|j: int| 0 <= j < i ==> vhost_ok(#[trigger] l@[j]),
            forall|j: int| 0 <= j < i ==> vhost_from(#[trigger] vs@[j], l@[j]),
        decreases l@.len() - i,
    {
        match VirtualHostConfig::new(&l[i]) {
            Some(v) => vs.push(v),
            None => return None,
        }
        i = i + 1;
    }
    Some(vs)
}

fn int_or_zero(o: Option<&Node>) -> (r: i64)
    ensures
        r == int_or(int_of(crate::cluster::opt(o)), 0),
{
    match o {
        Some(Node::Int(v)) => *v,
        _ => 0,
    }
}

impl ListenerHttpProtocolConfig {
    /// Reads an HTTP protocol; `None` when it cannot be read, see
    /// [`protocol_ok`].
    pub fn new(config: &Node) -> (r: Option<Self>)
        ensures
            r is Some == protocol_ok(*config),
            r matches Some(p) ==> protocol_from(p, *config),
    {
        let ghost sl = list_or_empty(list_of(lookup(*config, "sni"@)));
        let ghost vl = list_or_empty(list_of(lookup(*config, "virtual_hosts"@)));
        if !config.is_map() {
            proof { reveal(protocol_ok); }
            return None;
        }
        let name = match config.get_str("name") {
            Some(s) => s.clone(),
            None => {
                proof { reveal(protocol_ok); }
                return None;
            },
        };
        let buffer = int_or_zero(config.get("buffer"));
        let sni = match config.get_list("sni") {
            Some(l) => match read_regex_values(l, true) {
                Some(v) => v,
                None => {
                    proof { reveal(protocol_ok); }
                    return None;
                },
            },
            None => {
                assert(patterns_ok(sl, true));
                Vec::new()
            },
        };
        let virtual_hosts = match config.get_list("virtual_hosts") {
            Some(l) => match read_vhosts(l) {
                Some(v) => v,
                None => {
                    proof {
                        reveal(protocol_ok);
                        assert(l@ == vl);
                    }
                    return None;
                },
            },
            None => {
                assert(vl.len() == 0);
                Vec::new()
            },
        };
        let r = ListenerHttpProtocolConfig { name, sni, buffer, virtual_hosts };
        proof {
            reveal(protocol_ok);
            reveal(protocol_from);
            assert(regex_values_from(r.sni@, sl, true));
        }
        Some(r)
    }
}

/// Whether every preprocessor entry has a `name` and a `config` string.
#[verifier::opaque]
pub open spec fn preprocessors_ok(l: Seq<Node>) -> bool {
    forall|j: int| 0 <= j < l.len() ==> str_of(lookup(#[trigger] l[j], "name"@)) is Some && str_of(lookup(l[j], "config"@)) is Some
}

/// Whether `kvs` are the preprocessors the entries describe, as name and
/// configuration-name pairs.
#[verifier::opaque]
pub open spec fn preprocessors_from(kvs: Seq<KV>, l: Seq<Node>) -> bool {
    &&& kvs.len() == l.len()
    &&& forall|j: int| 0 <= j < l.len() ==> ((#[trigger] kvs[j]).key matches Key::String(k) && Some(k@) == str_of(
        lookup(l[j], "name"@),
    )) && (kvs[j].value matches Value::String(v) && Some(v@) == str_of(lookup(l[j], "config"@)))
}

/// Whether a protocol entry is for HTTP.
pub open spec fn is_http_entry(n: Node) -> bool {
    str_of(lookup(n, "engine"@)) == Some("http"@)
}

pub open spec fn http_entries(l: Seq<Node>) -> Seq<Node>
    decreases l.len(),
{
    if l.len() == 0 {
        Seq::empty()
    } else if is_http_entry(l.last()) {
        http_entries(l.drop_last()).push(l.last())
    } else {
        http_entries(l.drop_last())
    }
}

/// Whether a `listeners` entry can be read.
pub open spec fn listener_ok(n: Node) -> bool {
    let ps = list_or_empty(list_of(lookup(n, "protocols"@)));
    &&& n is Hash
    &&& str_of(lookup(n, "name"@)) is Some
    &&& str_of(lookup(n, "listen"@)) is Some
    &&& preprocessors_ok(list_or_empty(list_of(lookup(n, "preprocessors"@))))
    &&& forall|j: int| 0 <= j < ps.len() && is_http_entry(#[trigger] ps[j]) ==> protocol_ok(ps[j])
}

/// Whether `c` is the listener snapshot an entry describes; protocols
/// other than HTTP are left out.
pub open spec fn listener_from(c: ListenerConfig, n: Node) -> bool {
    let hs = http_entries(list_or_empty(list_of(lookup(n, "protocols"@))));
    &&& str_of(lookup(n, "name"@)) == Some(c.name@)
    &&& str_of(lookup(n, "listen"@)) == Some(c.listen@)
    &&& c.buffer == int_or(int_of(lookup(n, "buffer"@)), DEFAULT_BUFFER)
    &&& preprocessors_from(c.preprocessors@, list_or_empty(list_of(lookup(n, "preprocessors"@))))
    &&& c.protocols@.len() == hs.len()
    &&& forall|k: int| 0 <= k < hs.len() ==> (#[trigger] c.protocols@[k] matches ListenerProtocolConfig::HTTPListener(p)
        && protocol_from(p, hs[k]))
}

fn read_preprocessors(l: &Vec<Node>) -> (r: Option<Vec<KV>>)
    ensures
        r is Some == preprocessors_ok(l@),
        r matches Some(kvs) ==> preprocessors_from(kvs@, l@),
{
    reveal(preprocessors_ok);
    reveal(preprocessors_from);
    let mut kvs: Vec<KV> = Vec::new();
    let mut i: usize = 0;
    while i < l.len()
        invariant
            i <= l@.len(),
            kvs@.len() == i,
            forall|j: int| 0 <= j < i ==> str_of(lookup(#[trigger] l@[j], "name"@)) is Some && str_of(lookup(l@[j], "config"@)) is Some,
            forall|j: int| 0 <= j < i ==> ((#[trigger] kvs@[j]).key matches Key::String(k) && Some(k@) == str_of(
                lookup(l@[j], "name"@),
            )) && (kvs@[j].value matches Value::String(v) && Some(v@) == str_of(lookup(l@[j], "config"@))),
        decreases l@.len() - i,
    {
        let name = match l[i].get_str("name") {
            Some(x) => x.clone(),
            None => {
                assert(str_of(lookup(l@[i as int], "name"@)) is None);
                proof {
                    reveal(preprocessors_ok);
                }
                return None;
            },
        };
        let conf = match l[i].get_str("config") {
            Some(x) => x.clone(),
            None => {
                assert(str_of(lookup(l@[i as int], "config"@)) is None);
                proof {
                    reveal(preprocessors_ok);
                }
                return None;
            },
        };
        kvs.push(KV { key: Key::String(name), value: Value::String(conf) });
        i = i + 1;
    }
    Some(kvs)
}

fn read_protocols(l: &Vec<Node>) -> (r: Option<Vec<ListenerProtocolConfig>>)
    ensures
        r is Some == forall|j: int| 0 <= j < l@.len() && is_http_entry(#[trigger] l@[j]) ==> protocol_ok(l@[j]),
        r matches Some(ps) ==> ps@.len() == http_entries(l@).len() && forall|k: int| 0 <= k < ps@.len() ==> (
        #[trigger] ps@[k] matches ListenerProtocolConfig::HTTPListener(p) && protocol_from(p, http_entries(l@)[k])),
{
    let mut ps: Vec<ListenerProtocolConfig> = Vec::new();
    let mut i: usize = 0;
    assert(l@.subrange(0, 0) =~= Seq::<Node>::empty());
    while i < l.len()
        invariant
            i <= l@.len(),
            ps@.len() == http_entries(l@.subrange(0, i as int)).len(),
            forall|k: int| 0 <= k < ps@.len() ==> (#[trigger] ps@[k] matches ListenerProtocolConfig::HTTPListener(p)
                && protocol_from(p, http_entries(l@.subrange(0, i as int))[k])),
            forall|j: int| 0 <= j < i && is_http_entry(#[trigger] l@[j]) ==> protocol_ok(l@[j]),
        decreases l@.len() - i,
    {
        let ghost pre = l@.subrange(0, i as int);
        assert(l@.subrange(0, i + 1).drop_last() =~= pre);
        assert(l@.subrange(0, i + 1).last() == l@[i as int]);
        let is_http = match l[i].get_str("engine") {
            Some(e) => str_eq(e.as_str(), "http"),
            None => false,
        };
        if is_http {
            match ListenerHttpProtocolConfig::new(&l[i]) {
                Some(p) => ps.push(ListenerProtocolConfig::HTTPListener(p)),
                None => return None,
            }
        }
        i = i + 1;
    }
    assert(l@.subrange(0, l@.len() as int) =~= l@);
    Some(ps)
}

fn int_or_buffer(o: Option<&Node>) -> (r: i64)
    ensures
        r == int_or(int_of(crate::cluster::opt(o)), DEFAULT_BUFFER),
{
    match o {
        Some(Node::Int(v)) => *v,
        _ => DEFAULT_BUFFER,
    }
}

impl ListenerConfig {
    /// Reads a listener snapshot; `None` when it cannot be read, see
    /// [`listener_ok`].
    pub fn new(config: &Node) -> (r: Option<Self>)
        ensures
            r is Some == listener_ok(*config),
            r matches Some(c) ==> listener_from(c, *config),
    {
        let ghost pl = list_or_empty(list_of(lookup(*config, "preprocessors"@)));
        let ghost rl = list_or_empty(list_of(lookup(*config, "protocols"@)));
        if !config.is_map() {
            return None;
        }
        let name = match config.get_str("name") {
            Some(s) => s.clone(),
            None => return None,
        };
        let listen = match config.get_str("listen") {
            Some(s) => s.clone(),
            None => return None,
        };
        let buffer = int_or_buffer(config.get("buffer"));
        let preprocessors = match config.get_list("preprocessors") {
            Some(l) => match read_preprocessors(l) {
                Some(v) => v,
                None => return None,
            },
            None => {
                proof {
                    reveal(preprocessors_ok);
                    reveal(preprocessors_from);
                }
                Vec::new()
            },
        };
        let protocols = match config.get_list("protocols") {
            Some(l) => match read_protocols(l) {
                Some(v) => v,
                None => {
                    assert(l@ == rl);
                    return None;
                },
            },
            None => {
                assert(http_entries(rl) =~= Seq::<Node>::empty());
                Vec::new()
            },
        };
        Some(ListenerConfig { name, listen, preprocessors, buffer, protocols })
    }
}

} // verus!
