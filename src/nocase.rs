//! Names compared without regard to case, and the header map built on them.
use vstd::prelude::*;

verus! {

/// What `str::to_lowercase` makes of a string.
pub uninterp spec fn lower_of(s: Seq<char>) -> Seq<char>;

/// Relies on `str::to_lowercase`: the result depends on the characters of
/// `s` alone.
#[verifier::external_body]
fn lowercase(s: &str) -> (r: String)
    ensures
        r@ == lower_of(s@),
{
    s.to_lowercase()
}

/// Whether two names are equal when case is ignored.
pub open spec fn same_name(a: Seq<char>, b: Seq<char>) -> bool {
    lower_of(a) == lower_of(b)
}

/// Decides [`same_name`].
pub fn names_match(a: &str, b: &str) -> (r: bool)
    ensures
        r == same_name(a@, b@),
{
    let la = lowercase(a);
    let lb = lowercase(b);
    la == lb
}

/// A string that compares equal to every other casing of itself.
#[derive(Clone, Debug)]
pub struct NoCaseStr {
    value: String,
}

impl View for NoCaseStr {
    type V = Seq<char>;

    closed spec fn view(&self) -> Seq<char> {
        self.value@
    }
}

impl NoCaseStr {
    pub fn new(s: &str) -> (r: Self)
        ensures
            r@ == s@,
    {
        NoCaseStr { value: s.to_owned() }
    }

    /// The string as it was written.
    pub fn inner_value(&self) -> (r: &str)
        ensures
            r@ == self@,
    {
        self.value.as_str()
    }
}

impl PartialEq for NoCaseStr {
    fn eq(&self, other: &NoCaseStr) -> (r: bool)
        ensures
            r == same_name(self@, other@),
    {
        names_match(self.value.as_str(), other.value.as_str())
    }
}

impl vstd::std_specs::cmp::PartialEqSpecImpl for NoCaseStr {
    open spec fn obeys_eq_spec() -> bool {
        true
    }

    open spec fn eq_spec(&self, other: &NoCaseStr) -> bool {
        same_name(self@, other@)
    }
}

impl Eq for NoCaseStr {
}

/// The value stored under the name whose lowercase form is `lower`.
pub open spec fn value_of_lower(hs: Seq<(Seq<char>, Seq<char>)>, lower: Seq<char>) -> Option<Seq<char>> {
    if exists|i: int| 0 <= i < hs.len() && lower_of(#[trigger] hs[i].0) == lower {
        let i = choose|i: int| 0 <= i < hs.len() && lower_of(#[trigger] hs[i].0) == lower;
        Some(hs[i].1)
    } else {
        None
    }
}

/// The value stored under a name, looked up without regard to case.
pub open spec fn header_value(hs: Seq<(Seq<char>, Seq<char>)>, name: Seq<char>) -> Option<Seq<char>> {
    value_of_lower(hs, lower_of(name))
}

/// No two names of the map are equal up to case.
pub open spec fn names_distinct(hs: Seq<(Seq<char>, Seq<char>)>) -> bool {
    forall|i: int, j: int|
        0 <= i < hs.len() && 0 <= j < hs.len() && i != j ==> !same_name(#[trigger] hs[i].0, #[trigger] hs[j].0)
}

/// The map after storing `value` under `name`: an entry whose name matches
/// keeps its place and its spelling and takes the new value; otherwise the
/// pair goes at the end.
pub open spec fn headers_insert(
    hs: Seq<(Seq<char>, Seq<char>)>,
    name: Seq<char>,
    value: Seq<char>,
) -> Seq<(Seq<char>, Seq<char>)> {
    if exists|i: int| 0 <= i < hs.len() && same_name(#[trigger] hs[i].0, name) {
        let i = choose|i: int| 0 <= i < hs.len() && same_name(#[trigger] hs[i].0, name);
        hs.update(i, (hs[i].0, value))
    } else {
        hs.push((name, value))
    }
}

/// Header lines of a message, in the order they first appeared.  Lookups
/// ignore the case of the name.
#[derive(Clone, Debug)]
pub struct HeaderMap {
    entries: Vec<(NoCaseStr, String)>,
}

impl View for HeaderMap {
    type V = Seq<(Seq<char>, Seq<char>)>;

    closed spec fn view(&self) -> Seq<(Seq<char>, Seq<char>)> {
        self.entries@.map_values(|e: (NoCaseStr, String)| (e.0@, e.1@))
    }
}

impl HeaderMap {
    pub closed spec fn wf(&self) -> bool {
        names_distinct(self@)
    }

    pub fn new() -> (r: Self)
        ensures
            r.wf(),
            r@ == Seq::<(Seq<char>, Seq<char>)>::empty(),
    {
        let r = HeaderMap { entries: Vec::new() };
        assert(r@ =~= Seq::<(Seq<char>, Seq<char>)>::empty());
        r
    }

    pub fn len(&self) -> (r: usize)
        ensures
            r == self@.len(),
    {
        self.entries.len()
    }

    /// The name and value of entry `i`.
    pub fn entry(&self, i: usize) -> (r: (&str, &str))
        requires
            i < self@.len(),
        ensures
            r.0@ == self@[i as int].0,
            r.1@ == self@[i as int].1,
    {
        (self.entries[i].0.inner_value(), self.entries[i].1.as_str())
    }

    fn position(&self, name: &str) -> (r: Option<usize>)
        ensures
            match r {
                Some(i) => i < self@.len() && same_name(self@[i as int].0, name@),
                None => forall|i: int| 0 <= i < self@.len() ==> !same_name(#[trigger] self@[i].0, name@),
            },
    {
        let mut i: usize = 0;
        while i < self.entries.len()
            invariant
                i <= self@.len(),
                self@.len() == self.entries@.len(),
                forall|j: int| 0 <= j < i ==> !same_name(#[trigger] self@[j].0, name@),
            decreases self@.len() - i,
        {
            if names_match(self.entries[i].0.inner_value(), name) {
                return Some(i);
            }
            i = i + 1;
        }
        None
    }

    /// The value stored under `name`, whatever its case.
    pub fn get(&self, name: &str) -> (r: Option<&str>)
        requires
            self.wf(),
        ensures
            match header_value(self@, name@) {
                Some(v) => r matches Some(s) && s@ == v,
                None => r is None,
            },
    {
        match self.position(name) {
            Some(i) => {
                assert(exists|k: int| 0 <= k < self@.len() && lower_of(#[trigger] self@[k].0) == lower_of(name@)) by {
                    assert(same_name(self@[i as int].0, name@));
                }
                let ghost c = choose|k: int| 0 <= k < self@.len() && lower_of(#[trigger] self@[k].0) == lower_of(name@);
                assert(c == i as int) by {
                    if c != i as int {
                        assert(same_name(self@[c].0, self@[i as int].0));
                    }
                }
                Some(self.entries[i].1.as_str())
            },
            None => None,
        }
    }

    /// Stores `value` under `name`; see [`headers_insert`].
    pub fn insert(&mut self, name: &str, value: &str)
        requires
            old(self).wf(),
        ensures
            final(self).wf(),
            final(self)@ == headers_insert(old(self)@, name@, value@),
    {
        match self.position(name) {
            Some(i) => {
                assert(same_name(self@[i as int].0, name@));
                let ghost c = choose|k: int| 0 <= k < self@.len() && same_name(#[trigger] self@[k].0, name@);
                assert(c == i as int) by {
                    if c != i as int {
                        assert(same_name(self@[c].0, self@[i as int].0));
                    }
                }
                let key = NoCaseStr::new(self.entries[i].0.inner_value());
                self.entries.set(i, (key, value.to_owned()));
                assert(self@ =~= old(self)@.update(i as int, (old(self)@[i as int].0, value@)));
            },
            None => {
                self.entries.push((NoCaseStr::new(name), value.to_owned()));
                assert(self@ =~= old(self)@.push((name@, value@)));
                assert forall|a: int, b: int|
                    0 <= a < self@.len() && 0 <= b < self@.len() && a != b implies
                    !same_name(#[trigger] self@[a].0, #[trigger] self@[b].0) by {
                    if a == self@.len() - 1 {
                        assert(!same_name(old(self)@[b].0, name@));
                    } else if b == self@.len() - 1 {
                        assert(!same_name(old(self)@[a].0, name@));
                    }
                }
            },
        }
    }
}

/// Looking up a header does not depend on the case of the name asked for:
/// two names that lowercase alike find the same value.
pub proof fn lemma_lookup_ignores_case(hs: Seq<(Seq<char>, Seq<char>)>, k1: Seq<char>, k2: Seq<char>)
    requires
        lower_of(k1) == lower_of(k2),
    ensures
        header_value(hs, k1) == header_value(hs, k2),
{
}

} // verus!
