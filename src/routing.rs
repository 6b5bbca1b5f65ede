//! Routing a parsed request: virtual host by `Host` header, then the first
//! route whose clauses all match.
use vstd::prelude::*;
use crate::head::RequestHead;
use crate::listener::{ActionConfig, ListenerHttpProtocolConfig, PathMatchActionConfig, RouteConfig, VirtualHostConfig};
use crate::matcher::{key_text, regex_matches, value_match, value_matches, Key, Value};
use crate::nocase::{header_value, names_match, same_name, HeaderMap};

verus! {

pub open spec fn is_prefix(p: Seq<char>, s: Seq<char>) -> bool {
    p.len() <= s.len() && s.subrange(0, p.len() as int) == p
}

/// Whether one clause matches a request with this method, URI and headers.
/// Method, prefix and regex clauses need one hit; a header clause needs
/// every listed header present and matching.
pub open spec fn clause_matches(
    c: PathMatchActionConfig,
    method: Seq<char>,
    uri: Seq<char>,
    hs: Seq<(Seq<char>, Seq<char>)>,
) -> bool {
    match c {
        PathMatchActionConfig::Method(ms) => exists|i: int| 0 <= i < ms@.len() && same_name(#[trigger] ms@[i]@, method),
        PathMatchActionConfig::PathPrefix(ps) => exists|i: int| 0 <= i < ps@.len() && is_prefix(#[trigger] ps@[i]@, uri),
        PathMatchActionConfig::PathRegex(rs) => exists|i: int|
            0 <= i < rs@.len() && regex_matches((#[trigger] rs@[i]).source(), rs@[i].no_case(), uri),
        PathMatchActionConfig::HeaderMatch(kvs) => forall|i: int|
            0 <= i < kvs@.len() ==> match header_value(hs, key_text((#[trigger] kvs@[i]).key)) {
                Some(v) => value_matches(v, kvs@[i].value),
                None => false,
            },
    }
}

pub open spec fn route_matches(r: RouteConfig, method: Seq<char>, uri: Seq<char>, hs: Seq<(Seq<char>, Seq<char>)>) -> bool {
    forall|i: int| 0 <= i < r.path_matches@.len() ==> clause_matches((#[trigger] r.path_matches@[i]).action, method, uri, hs)
}

/// Whether a virtual host answers for a `Host` header value.
pub open spec fn vhost_matches(v: VirtualHostConfig, host: Option<Seq<char>>) -> bool {
    match host {
        Some(h) => exists|i: int| 0 <= i < v.host_names@.len() && value_matches(h, #[trigger] v.host_names@[i]),
        None => false,
    }
}

/// The first of `vs` that answers for `host`.
pub open spec fn first_vhost(vs: Seq<VirtualHostConfig>, host: Option<Seq<char>>) -> Option<int> {
    if exists|i: int| 0 <= i < vs.len() && vhost_matches(#[trigger] vs[i], host) {
        Some(choose|i: int| 0 <= i < vs.len() && vhost_matches(#[trigger] vs[i], host)
            && forall|j: int| 0 <= j < i ==> !vhost_matches(#[trigger] vs[j], host))
    } else {
        None
    }
}

/// The first of `rs` that matches.
pub open spec fn first_route(rs: Seq<RouteConfig>, method: Seq<char>, uri: Seq<char>, hs: Seq<(Seq<char>, Seq<char>)>) -> Option<int> {
    if exists|i: int| 0 <= i < rs.len() && route_matches(#[trigger] rs[i], method, uri, hs) {
        Some(choose|i: int| 0 <= i < rs.len() && route_matches(#[trigger] rs[i], method, uri, hs)
            && forall|j: int| 0 <= j < i ==> !route_matches(#[trigger] rs[j], method, uri, hs))
    } else {
        None
    }
}

pub open spec fn host_word() -> Seq<char> {
    seq!['H', 'o', 's', 't']
}

/// Where a request goes: the first virtual host that answers for its
/// `Host` header, then the first of that host's routes that matches, as
/// positions.
pub open spec fn route_of(cfg: ListenerHttpProtocolConfig, method: Seq<char>, uri: Seq<char>, hs: Seq<(Seq<char>, Seq<char>)>) -> Option<(int, int)> {
    match first_vhost(cfg.virtual_hosts@, header_value(hs, host_word())) {
        None => None,
        Some(v) => match first_route(cfg.virtual_hosts@[v].routes@, method, uri, hs) {
            None => None,
            Some(r) => Some((v, r)),
        },
    }
}

proof fn lemma_first_unique_v(vs: Seq<VirtualHostConfig>, host: Option<Seq<char>>, i: int)
    requires
        0 <= i < vs.len(),
        vhost_matches(vs[i], host),
        forall|j: int| 0 <= j < i ==> !vhost_matches(#[trigger] vs[j], host),
    ensures
        first_vhost(vs, host) == Some(i),
{
    let c = choose|k: int| 0 <= k < vs.len() && vhost_matches(#[trigger] vs[k], host)
        && forall|j: int| 0 <= j < k ==> !vhost_matches(#[trigger] vs[j], host);
    assert(c == i) by {
        if c < i {
            assert(!vhost_matches(vs[c], host));
        } else if c > i {
            assert(!vhost_matches(vs[i], host));
        }
    }
}

proof fn lemma_first_unique_r(rs: Seq<RouteConfig>, m: Seq<char>, u: Seq<char>, hs: Seq<(Seq<char>, Seq<char>)>, i: int)
    requires
        0 <= i < rs.len(),
        route_matches(rs[i], m, u, hs),
        forall|j: int| 0 <= j < i ==> !route_matches(#[trigger] rs[j], m, u, hs),
    ensures
        first_route(rs, m, u, hs) == Some(i),
{
    let c = choose|k: int| 0 <= k < rs.len() && route_matches(#[trigger] rs[k], m, u, hs)
        && forall|j: int| 0 <= j < k ==> !route_matches(#[trigger] rs[j], m, u, hs);
    assert(c == i) by {
        if c < i {
            assert(!route_matches(rs[c], m, u, hs));
        } else if c > i {
            assert(!route_matches(rs[i], m, u, hs));
        }
    }
}

fn starts_with(s: &str, p: &str) -> (r: bool)
    ensures
        r == is_prefix(p@, s@),
{
    let cs = crate::text::chars_of(s);
    let ps = crate::text::chars_of(p);
    if ps.len() > cs.len() {
        return false;
    }
    let mut i: usize = 0;
    while i < ps.len()
        invariant
            i <= ps@.len() <= cs@.len(),
            cs@ == s@,
            ps@ == p@,
            forall|j: int| 0 <= j < i ==> cs@[j] == ps@[j],
        decreases ps@.len() - i,
    {
        if cs[i] != ps[i] {
            assert(cs@.subrange(0, ps@.len() as int)[i as int] != ps@[i as int]);
            return false;
        }
        i = i + 1;
    }
    assert(cs@.subrange(0, ps@.len() as int) =~= ps@);
    true
}

/// Whether one clause matches.
pub fn match_clause(c: &PathMatchActionConfig, method: &str, uri: &str, headers: &HeaderMap) -> (r: bool)
    requires
        headers.wf(),
    ensures
        r == clause_matches(*c, method@, uri@, headers@),
{
    match c {
        PathMatchActionConfig::Method(ms) => {
            let mut i: usize = 0;
            while i < ms.len()
                invariant
                    i <= ms@.len(),
                    *c == PathMatchActionConfig::Method(*ms),
                    forall|j: int| 0 <= j < i ==> !same_name(#[trigger] ms@[j]@, method@),
                decreases ms@.len() - i,
            {
                if names_match(ms[i].inner_value(), method) {
                    assert(match *c {
                        PathMatchActionConfig::Method(m2) => i < m2@.len() && same_name(m2@[i as int]@, method@),
                        _ => false,
                    });
                    assert(clause_matches(*c, method@, uri@, headers@));
                    return true;
                }
                i = i + 1;
            }
            false
        },
        PathMatchActionConfig::PathPrefix(ps) => {
            let mut i: usize = 0;
            while i < ps.len()
                invariant
                    i <= ps@.len(),
                    *c == PathMatchActionConfig::PathPrefix(*ps),
                    forall|j: int| 0 <= j < i ==> !is_prefix(#[trigger] ps@[j]@, uri@),
                decreases ps@.len() - i,
            {
                if starts_with(uri, ps[i].as_str()) {
                    assert(match *c {
                        PathMatchActionConfig::PathPrefix(p2) => i < p2@.len() && is_prefix(p2@[i as int]@, uri@),
                        _ => false,
                    });
                    assert(clause_matches(*c, method@, uri@, headers@));
                    return true;
                }
                i = i + 1;
            }
            false
        },
        PathMatchActionConfig::PathRegex(rs) => {
            let mut i: usize = 0;
            while i < rs.len()
                invariant
                    i <= rs@.len(),
                    *c == PathMatchActionConfig::PathRegex(*rs),
                    forall|j: int| 0 <= j < i ==> !regex_matches((#[trigger] rs@[j]).source(), rs@[j].no_case(), uri@),
                decreases rs@.len() - i,
            {
                if rs[i].is_match(uri) {
                    assert(match *c {
                        PathMatchActionConfig::PathRegex(r2) => i < r2@.len() && regex_matches(
                            r2@[i as int].source(),
                            r2@[i as int].no_case(),
                            uri@,
                        ),
                        _ => false,
                    });
                    assert(clause_matches(*c, method@, uri@, headers@));
                    return true;
                }
                i = i + 1;
            }
            false
        },
        PathMatchActionConfig::HeaderMatch(kvs) => {
            let mut i: usize = 0;
            while i < kvs.len()
                invariant
                    i <= kvs@.len(),
                    *c == PathMatchActionConfig::HeaderMatch(*kvs),
                    headers.wf(),
                    forall|j: int| 0 <= j < i ==> match header_value(headers@, key_text((#[trigger] kvs@[j]).key)) {
                        Some(v) => value_matches(v, kvs@[j].value),
                        None => false,
                    },
                decreases kvs@.len() - i,
            {
                let name: &str = match &kvs[i].key {
                    Key::String(s) => s.as_str(),
                    Key::NoCaseString(n) => n.inner_value(),
                };
                assert(name@ == key_text(kvs@[i as int].key));
                match headers.get(name) {
                    Some(v) => {
                        if !value_match(v, &kvs[i].value) {
                            assert(!match header_value(headers@, key_text(kvs@[i as int].key)) {
                                Some(x) => value_matches(x, kvs@[i as int].value),
                                None => false,
                            });
                            return false;
                        }
                    },
                    None => {
                        assert(header_value(headers@, key_text(kvs@[i as int].key)) is None);
                        return false;
                    },
                }
                i = i + 1;
            }
            true
        },
    }
}

/// Whether every clause of a route matches.
pub fn match_route(route: &RouteConfig, method: &str, uri: &str, headers: &HeaderMap) -> (r: bool)
    requires
        headers.wf(),
    ensures
        r == route_matches(*route, method@, uri@, headers@),
{
    let mut i: usize = 0;
    while i < route.path_matches.len()
        invariant
            i <= route.path_matches@.len(),
            headers.wf(),
            forall|j: int| 0 <= j < i ==> clause_matches((#[trigger] route.path_matches@[j]).action, method@, uri@, headers@),
        decreases route.path_matches@.len() - i,
    {
        if !match_clause(&route.path_matches[i].action, method, uri, headers) {
            return false;
        }
        i = i + 1;
    }
    true
}

/// Whether a virtual host answers for the `Host` header value, if any.
pub fn match_vhost(vhost: &VirtualHostConfig, host: Option<&str>) -> (r: bool)
    ensures
        r == vhost_matches(*vhost, match host {
            Some(h) => Some(h@),
            None => None,
        }),
{
    let h = match host {
        Some(h) => h,
        None => return false,
    };
    let mut i: usize = 0;
    while i < vhost.host_names.len()
        invariant
            i <= vhost.host_names@.len(),
            host == Some(h),
            forall|j: int| 0 <= j < i ==> !value_matches(h@, #[trigger] vhost.host_names@[j]),
        decreases vhost.host_names@.len() - i,
    {
        if value_match(h, &vhost.host_names[i]) {
            assert(value_matches(h@, vhost.host_names@[i as int]));
            return true;
        }
        i = i + 1;
    }
    false
}

/// Routes a request; see [`route_of`].  The result is the position of the
/// virtual host and of the route within it.
pub fn route(head: &RequestHead, config: &ListenerHttpProtocolConfig) -> (r: Option<(usize, usize)>)
    requires
        head.headers.wf(),
    ensures
        match route_of(*config, head.method@, head.uri@, head.headers@) {
            Some((v, rt)) => r == Some((v as usize, rt as usize)),
            None => r is None,
        },
{
    proof {
        reveal_strlit("Host");
    }
    let host = head.headers.get("Host");
    assert("Host"@ =~= host_word());
    let ghost hv = match host {
        Some(h) => Some(h@),
        None => None,
    };
    assert(hv == header_value(head.headers@, host_word()));
    let vs = &config.virtual_hosts;
    let mut v: usize = 0;
    while v < vs.len()
        invariant
            v <= vs@.len(),
            vs@ == config.virtual_hosts@,
            head.headers.wf(),
            hv == header_value(head.headers@, host_word()),
            hv == match host {
                Some(h) => Some(h@),
                None => None,
            },
            forall|j: int| 0 <= j < v ==> !vhost_matches(#[trigger] vs@[j], hv),
        decreases vs@.len() - v,
    {
        if match_vhost(&vs[v], host) {
            proof {
                lemma_first_unique_v(vs@, hv, v as int);
            }
            let rs = &vs[v].routes;
            let mut k: usize = 0;
            while k < rs.len()
                invariant
                    k <= rs@.len(),
                    rs@ == vs@[v as int].routes@,
                    vs@ == config.virtual_hosts@,
                    first_vhost(vs@, hv) == Some(v as int),
                    hv == header_value(head.headers@, host_word()),
                    head.headers.wf(),
                    forall|j: int| 0 <= j < k ==> !route_matches(#[trigger] rs@[j], head.method@, head.uri@, head.headers@),
                decreases rs@.len() - k,
            {
                if match_route(&rs[k], head.method.inner_value(), head.uri.as_str(), &head.headers) {
                    proof {
                        lemma_first_unique_r(rs@, head.method@, head.uri@, head.headers@, k as int);
                    }
                    return Some((v, k));
                }
                k = k + 1;
            }
            return None;
        }
        v = v + 1;
    }
    None
}

/// The action a route takes first, if it has one.
pub fn first_action(route: &RouteConfig) -> (r: Option<&ActionConfig>)
    ensures
        route.actions@.len() == 0 ==> r is None,
        route.actions@.len() > 0 ==> r == Some(&route.actions@[0]),
{
    if route.actions.len() == 0 {
        None
    } else {
        Some(&route.actions[0])
    }
}

} // verus!
