//! Messages between the proxy's components, and the decisions taken on
//! their replies.
use vstd::prelude::*;
use crate::cluster::{ClusterConfig, ClusterTlsConfig};
use crate::head::Refusal;
use crate::listener::{ListenerConfig, ListenerProtocolConfig};
use crate::matcher::value_matches;
use crate::routing::match_vhost;
use crate::tls::TlsConfig;

verus! {

/// A configuration change.
#[derive(Clone, Debug)]
pub enum ConfigUpdate {
    ListenerConfig(ListenerConfig),
    TlsConfig(TlsConfig),
    ClusterConfig(ClusterConfig),
    RemoveCluster(String),
    RemoveListener(String),
    NotExist,
}

/// What a component asks the configuration source for.
#[derive(Clone, Debug)]
pub enum ConfigRequestType {
    ListenerConfig(String),
    TlsConfig(String),
}

/// The cluster side's answer to a connection request; `R` is the reading
/// end of the pipe that carries the backend's bytes.
pub enum ListenerConnection<R> {
    ListenerBuffer(R),
    ClusterNotFound,
    NoAvailableMember,
    BufferOverLimit,
}

/// The accountant's answer to a pipe request; `P` is the pipe.
pub enum BufferResponseMessage<P> {
    Buffer(P),
    OverLimit,
}

/// How the client side answers a reply that brings no pipe.
pub open spec fn refusal_of<R>(reply: ListenerConnection<R>) -> Option<Refusal> {
    match reply {
        ListenerConnection::ListenerBuffer(_) => None,
        ListenerConnection::ClusterNotFound => Some(Refusal::ClusterNotFound),
        ListenerConnection::NoAvailableMember => Some(Refusal::NoAvailableBackends),
        ListenerConnection::BufferOverLimit => Some(Refusal::OutOfMemory),
    }
}

/// Decides [`refusal_of`].
pub fn refusal_for<R>(reply: &ListenerConnection<R>) -> (r: Option<Refusal>)
    ensures
        r == refusal_of(*reply),
{
    match reply {
        ListenerConnection::ListenerBuffer(_) => None,
        ListenerConnection::ClusterNotFound => Some(Refusal::ClusterNotFound),
        ListenerConnection::NoAvailableMember => Some(Refusal::NoAvailableBackends),
        ListenerConnection::BufferOverLimit => Some(Refusal::OutOfMemory),
    }
}

/// Whether a protocol serves a connection: an HTTP protocol does when TLS
/// is off, or when one of its server-name matchers matches the name the
/// client offered.
pub open spec fn protocol_serves(p: ListenerProtocolConfig, tls: bool, sni: Option<Seq<char>>) -> bool {
    match p {
        ListenerProtocolConfig::HTTPListener(h) => !tls || match sni {
            Some(s) => exists|i: int| 0 <= i < h.sni@.len() && value_matches(s, #[trigger] h.sni@[i]),
            None => false,
        },
        ListenerProtocolConfig::GrpcListener => false,
    }
}

/// The first protocol of a listener that serves a new connection.
pub fn select_protocol(protocols: &Vec<ListenerProtocolConfig>, tls: bool, sni: Option<&str>) -> (r: Option<usize>)
    ensures
        match r {
            Some(i) => i < protocols@.len() && protocol_serves(protocols@[i as int], tls, match sni {
                Some(s) => Some(s@),
                None => None,
            }) && forall|j: int| 0 <= j < i ==> !protocol_serves(#[trigger] protocols@[j], tls, match sni {
                Some(s) => Some(s@),
                None => None,
            }),
            None => forall|j: int| 0 <= j < protocols@.len() ==> !protocol_serves(#[trigger] protocols@[j], tls, match sni {
                Some(s) => Some(s@),
                None => None,
            }),
        },
{
    let ghost sv = match sni {
        Some(s) => Some(s@),
        None => None,
    };
    let mut i: usize = 0;
    while i < protocols.len()
        invariant
            i <= protocols@.len(),
            sv == match sni {
                Some(s) => Some(s@),
                None => None,
            },
            forall|j: int| 0 <= j < i ==> !protocol_serves(#[trigger] protocols@[j], tls, sv),
        decreases protocols@.len() - i,
    {
        match &protocols[i] {
            ListenerProtocolConfig::HTTPListener(h) => {
                if !tls {
                    return Some(i);
                }
                let mut k: usize = 0;
                match sni {
                    Some(s) => {
                        while k < h.sni.len()
                            invariant
                                k <= h.sni@.len(),
                                i < protocols@.len(),
                                protocols@[i as int] == ListenerProtocolConfig::HTTPListener(*h),
                                tls,
                                sni == Some(s),
                                sv == Some(s@),
                                forall|j: int| 0 <= j < i ==> !protocol_serves(#[trigger] protocols@[j], tls, sv),
                                forall|j: int| 0 <= j < k ==> !value_matches(s@, #[trigger] h.sni@[j]),
                            decreases h.sni@.len() - k,
                        {
                            if crate::matcher::value_match(s, &h.sni[k]) {
                                assert(match protocols@[i as int] {
                                    ListenerProtocolConfig::HTTPListener(h2) => k < h2.sni@.len() && value_matches(
                                        s@,
                                        h2.sni@[k as int],
                                    ),
                                    _ => false,
                                });
                                return Some(i);
                            }
                            k = k + 1;
                        }
                    },
                    None => {},
                }
            },
            ListenerProtocolConfig::GrpcListener => {},
        }
        i = i + 1;
    }
    None
}

/// The server name to offer a backend: none without TLS, the configured
/// one when there is one, otherwise the client's.
pub fn backend_sni(tls: &ClusterTlsConfig, client_sni: &str) -> (r: Option<String>)
    ensures
        match *tls {
            ClusterTlsConfig::NoTls => r is None,
            ClusterTlsConfig::Sni(o, _) => r matches Some(x) && x@ == o@,
            ClusterTlsConfig::TransparentSni(_) => r matches Some(x) && x@ == client_sni@,
        },
{
    match tls {
        ClusterTlsConfig::NoTls => None,
        ClusterTlsConfig::Sni(o, _) => Some(o.clone()),
        ClusterTlsConfig::TransparentSni(_) => Some(client_sni.to_owned()),
    }
}

} // verus!
