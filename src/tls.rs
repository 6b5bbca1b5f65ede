//! TLS configuration records; the TLS machinery itself is built from them
//! outside the library.
use vstd::prelude::*;
use crate::config::{lookup, Node};
use crate::nocase::{names_match, same_name};

verus! {

/// A TLS configuration: its name, the PEM certificate chain and key, the
/// allowed parameters, and the client-verification material.
#[derive(Clone, Debug, PartialEq, Eq)]
pub struct TlsConfig {
    pub name: String,
    pub certificate_chain: Vec<u8>,
    pub common_config: CommonTlsConfig,
    pub client_verify: ClientVerifyConfig,
}

/// Cipher suites, key-exchange groups and protocol versions, by name; an
/// empty list means the defaults.
#[derive(Clone, Debug, PartialEq, Eq)]
pub struct CommonTlsConfig {
    pub suites: Vec<String>,
    pub kx: Vec<String>,
    pub protocols: Vec<String>,
}

/// PEM trust roots and revocation lists for client certificates.
#[derive(Clone, Debug, PartialEq, Eq)]
pub struct ClientVerifyConfig {
    pub root_certificates: Vec<u8>,
    pub crls: Vec<u8>,
}

/// The strings among `l`, in order.
pub open spec fn strings_in(l: Seq<Node>) -> Seq<Seq<char>>
    decreases l.len(),
{
    if l.len() == 0 {
        Seq::empty()
    } else {
        match l.last() {
            Node::Str(s) => strings_in(l.drop_last()).push(s@),
            _ => strings_in(l.drop_last()),
        }
    }
}

pub open spec fn names_under(o: Option<Node>, key: Seq<char>) -> Seq<Seq<char>> {
    match o {
        Some(n) => match lookup(n, key) {
            Some(Node::List(l)) => strings_in(l@),
            _ => Seq::empty(),
        },
        None => Seq::empty(),
    }
}

fn strings_of(o: Option<&Node>, key: &str) -> (r: Vec<String>)
    ensures
        r@.map_values(|s: String| s@) == names_under(crate::cluster::opt(o), key@),
{
    let mut r: Vec<String> = Vec::new();
    let l = match o {
        Some(n) => match n.get_list(key) {
            Some(l) => l,
            None => {
                assert(r@.map_values(|s: String| s@) =~= Seq::<Seq<char>>::empty());
                return r;
            },
        },
        None => {
            assert(r@.map_values(|s: String| s@) =~= Seq::<Seq<char>>::empty());
            return r;
        },
    };
    let mut i: usize = 0;
    assert(l@.subrange(0, 0) =~= Seq::<Node>::empty());
    assert(r@.map_values(|s: String| s@) =~= Seq::<Seq<char>>::empty());
    while i < l.len()
        invariant
            i <= l@.len(),
            r@.map_values(|s: String| s@) == strings_in(l@.subrange(0, i as int)),
        decreases l@.len() - i,
    {
        assert(l@.subrange(0, i + 1).drop_last() =~= l@.subrange(0, i as int));
        assert(l@.subrange(0, i + 1).last() == l@[i as int]);
        let ghost before = r@.map_values(|s: String| s@);
        match &l[i] {
            Node::Str(s) => {
                r.push(s.clone());
                assert(r@.map_values(|s: String| s@) =~= before.push(s@));
            },
            _ => {},
        }
        i = i + 1;
    }
    assert(l@.subrange(0, l@.len() as int) =~= l@);
    r
}

impl CommonTlsConfig {
    /// Reads the `protocols`, `kx` and `ciphers` name lists of a TLS entry;
    /// entries that are not strings are left out.
    pub fn new(config: Option<&Node>) -> (r: Self)
        ensures
            r.protocols@.map_values(|s: String| s@) == names_under(crate::cluster::opt(config), "protocols"@),
            r.kx@.map_values(|s: String| s@) == names_under(crate::cluster::opt(config), "kx"@),
            r.suites@.map_values(|s: String| s@) == names_under(crate::cluster::opt(config), "ciphers"@),
    {
        CommonTlsConfig {
            protocols: strings_of(config, "protocols"),
            kx: strings_of(config, "kx"),
            suites: strings_of(config, "ciphers"),
        }
    }
}

/// The position of the first of `names` equal to `name` when case is
/// ignored.
pub fn find_no_case(names: &Vec<String>, name: &str) -> (r: Option<usize>)
    ensures
        match r {
            Some(i) => i < names@.len() && same_name(names@[i as int]@, name@) && forall|j: int|
                0 <= j < i ==> !same_name(#[trigger] names@[j]@, name@),
            None => forall|j: int| 0 <= j < names@.len() ==> !same_name(#[trigger] names@[j]@, name@),
        },
{
    let mut i: usize = 0;
    while i < names.len()
        invariant
            i <= names@.len(),
            forall|j: int| 0 <= j < i ==> !same_name(#[trigger] names@[j]@, name@),
        decreases names@.len() - i,
    {
        if names_match(names[i].as_str(), name) {
            return Some(i);
        }
        i = i + 1;
    }
    None
}

} // verus!
