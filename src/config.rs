//! The configuration document as a tree, and reading values out of it.
//! The document's syntax is read elsewhere; this module sees its structure.
use vstd::prelude::*;
use crate::text::str_eq;

verus! {

/// A node of a configuration document.
#[derive(Debug)]
pub enum Node {
    Null,
    Bool(bool),
    Int(i64),
    Str(String),
    List(Vec<Node>),
    Hash(Vec<(Node, Node)>),
    Other,
}

pub open spec fn is_key(k: Node, key: Seq<char>) -> bool {
    k matches Node::Str(s) && s@ == key
}

/// The value of the first entry of a map node whose key is `key`.
pub open spec fn lookup(n: Node, key: Seq<char>) -> Option<Node> {
    match n {
        Node::Hash(es) => if exists|i: int| 0 <= i < es@.len() && is_key((#[trigger] es@[i]).0, key) {
            let i = choose|i: int| 0 <= i < es@.len() && is_key((#[trigger] es@[i]).0, key)
                && forall|j: int| 0 <= j < i ==> !is_key((#[trigger] es@[j]).0, key);
            Some(es@[i].1)
        } else {
            None
        },
        _ => None,
    }
}

pub open spec fn str_of(o: Option<Node>) -> Option<Seq<char>> {
    match o {
        Some(Node::Str(s)) => Some(s@),
        _ => None,
    }
}

pub open spec fn int_of(o: Option<Node>) -> Option<i64> {
    match o {
        Some(Node::Int(v)) => Some(v),
        _ => None,
    }
}

pub open spec fn bool_of(o: Option<Node>) -> Option<bool> {
    match o {
        Some(Node::Bool(b)) => Some(b),
        _ => None,
    }
}

pub open spec fn list_of(o: Option<Node>) -> Option<Seq<Node>> {
    match o {
        Some(Node::List(v)) => Some(v@),
        _ => None,
    }
}

pub open spec fn is_map(o: Option<Node>) -> bool {
    o matches Some(Node::Hash(_))
}

impl Node {
    /// The value under `key`, if this is a map that has one.
    pub fn get(&self, key: &str) -> (r: Option<&Node>)
        ensures
            match lookup(*self, key@) {
                Some(v) => r == Some(&v),
                None => r is None,
            },
    {
        match self {
            Node::Hash(es) => {
                let mut i: usize = 0;
                while i < es.len()
                    invariant
                        i <= es@.len(),
                        *self == Node::Hash(*es),
                        forall|j: int| 0 <= j < i ==> !is_key((#[trigger] es@[j]).0, key@),
                    decreases es@.len() - i,
                {
                    let hit = match &es[i].0 {
                        Node::Str(s) => str_eq(s.as_str(), key),
                        _ => false,
                    };
                    if hit {
                        proof {
                            let c = choose|k: int| 0 <= k < es@.len() && is_key((#[trigger] es@[k]).0, key@)
                                && forall|j: int| 0 <= j < k ==> !is_key((#[trigger] es@[j]).0, key@);
                            assert(is_key(es@[i as int].0, key@));
                            assert(c == i as int) by {
                                if c < i {
                                    assert(!is_key(es@[c].0, key@));
                                } else if c > i {
                                    assert(!is_key(es@[i as int].0, key@));
                                }
                            }
                        }
                        return Some(&es[i].1);
                    }
                    i = i + 1;
                }
                None
            },
            _ => None,
        }
    }

    /// The string under `key`.
    pub fn get_str(&self, key: &str) -> (r: Option<&String>)
        ensures
            match str_of(lookup(*self, key@)) {
                Some(s) => r matches Some(x) && x@ == s,
                None => r is None,
            },
    {
        match self.get(key) {
            Some(Node::Str(s)) => Some(s),
            _ => None,
        }
    }

    /// The integer under `key`.
    pub fn get_i64(&self, key: &str) -> (r: Option<i64>)
        ensures
            r == int_of(lookup(*self, key@)),
    {
        match self.get(key) {
            Some(Node::Int(v)) => Some(*v),
            _ => None,
        }
    }

    /// The boolean under `key`.
    pub fn get_bool(&self, key: &str) -> (r: Option<bool>)
        ensures
            r == bool_of(lookup(*self, key@)),
    {
        match self.get(key) {
            Some(Node::Bool(b)) => Some(*b),
            _ => None,
        }
    }

    /// The list under `key`.
    pub fn get_list(&self, key: &str) -> (r: Option<&Vec<Node>>)
        ensures
            match list_of(lookup(*self, key@)) {
                Some(l) => r matches Some(v) && v@ == l,
                None => r is None,
            },
    {
        match self.get(key) {
            Some(Node::List(v)) => Some(v),
            _ => None,
        }
    }

    pub fn is_map(&self) -> (r: bool)
        ensures
            r == (*self is Hash),
    {
        match self {
            Node::Hash(_) => true,
            _ => false,
        }
    }
}

} // verus!

verus! {

/// Which entries of a list of record names are kept: the first record of
/// each name; a later one with a name already taken is refused.
pub fn first_of_each_name(names: &Vec<String>) -> (keep: Vec<bool>)
    ensures
        keep@.len() == names@.len(),
        forall|i: int| 0 <= i < names@.len() ==> #[trigger] keep@[i] == forall|j: int| 0 <= j < i ==> names@[j]@ != names@[i]@,
{
    let mut keep: Vec<bool> = Vec::new();
    let mut i: usize = 0;
    while i < names.len()
        invariant
            i <= names@.len(),
            keep@.len() == i,
            forall|k: int| 0 <= k < i ==> #[trigger] keep@[k] == forall|j: int| 0 <= j < k ==> names@[j]@ != names@[k]@,
        decreases names@.len() - i,
    {
        let mut fresh = true;
        let mut j: usize = 0;
        while j < i
            invariant
                j <= i < names@.len(),
                fresh == forall|m: int| 0 <= m < j ==> names@[m]@ != names@[i as int]@,
            decreases i - j,
        {
            if str_eq(names[j].as_str(), names[i].as_str()) {
                fresh = false;
            }
            j = j + 1;
        }
        keep.push(fresh);
        i = i + 1;
    }
    keep
}

} // verus!
