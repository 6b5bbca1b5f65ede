//! A table keyed by name: one entry per name, in the order names arrived.
use vstd::prelude::*;

verus! {

/// The value stored under `k`.
pub open spec fn table_get<V>(es: Seq<(Seq<char>, V)>, k: Seq<char>) -> Option<V> {
    if exists|i: int| 0 <= i < es.len() && (#[trigger] es[i]).0 == k {
        let i = choose|i: int| 0 <= i < es.len() && (#[trigger] es[i]).0 == k;
        Some(es[i].1)
    } else {
        None
    }
}

/// The entries after storing `v` under `k`: an existing entry keeps its
/// place, a new one goes at the end.
pub open spec fn table_set<V>(es: Seq<(Seq<char>, V)>, k: Seq<char>, v: V) -> Seq<(Seq<char>, V)> {
    if exists|i: int| 0 <= i < es.len() && (#[trigger] es[i]).0 == k {
        let i = choose|i: int| 0 <= i < es.len() && (#[trigger] es[i]).0 == k;
        es.update(i, (k, v))
    } else {
        es.push((k, v))
    }
}

/// The entries without the one stored under `k`.
pub open spec fn table_remove<V>(es: Seq<(Seq<char>, V)>, k: Seq<char>) -> Seq<(Seq<char>, V)> {
    if exists|i: int| 0 <= i < es.len() && (#[trigger] es[i]).0 == k {
        let i = choose|i: int| 0 <= i < es.len() && (#[trigger] es[i]).0 == k;
        es.remove(i)
    } else {
        es
    }
}

pub open spec fn keys_unique<V>(es: Seq<(Seq<char>, V)>) -> bool {
    forall|i: int, j: int|
        0 <= i < es.len() && 0 <= j < es.len() && i != j ==> (#[trigger] es[i]).0 != (#[trigger] es[j]).0
}

/// Reading a name just stored gives the value stored.
pub proof fn lemma_get_set<V>(es: Seq<(Seq<char>, V)>, k: Seq<char>, v: V)
    requires
        keys_unique(es),
    ensures
        table_get(table_set(es, k, v), k) == Some(v),
        keys_unique(table_set(es, k, v)),
{
    let es2 = table_set(es, k, v);
    if exists|i: int| 0 <= i < es.len() && (#[trigger] es[i]).0 == k {
        let i = choose|i: int| 0 <= i < es.len() && (#[trigger] es[i]).0 == k;
        assert(es2[i].0 == k);
        let j = choose|j: int| 0 <= j < es2.len() && (#[trigger] es2[j]).0 == k;
        assert(j == i) by {
            if j != i {
                assert(es[j].0 == es2[j].0);
            }
        }
        assert forall|a: int, b: int| 0 <= a < es2.len() && 0 <= b < es2.len() && a != b
            implies (#[trigger] es2[a]).0 != (#[trigger] es2[b]).0 by {
            assert(es2[a].0 == es[a].0 && es2[b].0 == es[b].0);
        }
    } else {
        assert(es2[es.len() as int].0 == k);
        let j = choose|j: int| 0 <= j < es2.len() && (#[trigger] es2[j]).0 == k;
        assert(j == es.len()) by {
            if j != es.len() {
                assert(es[j].0 == es2[j].0);
            }
        }
        assert forall|a: int, b: int| 0 <= a < es2.len() && 0 <= b < es2.len() && a != b
            implies (#[trigger] es2[a]).0 != (#[trigger] es2[b]).0 by {
            if a < es.len() && b < es.len() {
                assert(es2[a].0 == es[a].0 && es2[b].0 == es[b].0);
            } else if a < es.len() {
                assert(es2[a].0 == es[a].0);
            } else {
                assert(es2[b].0 == es[b].0);
            }
        }
    }
}

/// Storing under one name leaves what is read under another unchanged.
pub proof fn lemma_get_set_other<V>(es: Seq<(Seq<char>, V)>, k: Seq<char>, v: V, k2: Seq<char>)
    requires
        keys_unique(es),
        k2 != k,
    ensures
        table_get(table_set(es, k, v), k2) == table_get(es, k2),
{
    let es2 = table_set(es, k, v);
    lemma_get_set(es, k, v);
    if exists|i: int| 0 <= i < es.len() && (#[trigger] es[i]).0 == k2 {
        let i = choose|i: int| 0 <= i < es.len() && (#[trigger] es[i]).0 == k2;
        assert(es2[i].0 == k2);
        let j = choose|j: int| 0 <= j < es2.len() && (#[trigger] es2[j]).0 == k2;
        assert(j == i) by {
            if j != i {
                assert(es2[j].0 == es2[i].0);
            }
        }
        assert(es2[i] == es[i]);
    } else {
        assert forall|j: int| 0 <= j < es2.len() implies (#[trigger] es2[j]).0 != k2 by {
            if j < es.len() {
                if es2[j] != es[j] {
                    assert(es2[j].0 == k);
                }
            } else {
                assert(es2[j].0 == k);
            }
        }
    }
}

/// Removing one name leaves what is read under another unchanged, and
/// leaves nothing under the removed one.
pub proof fn lemma_get_remove<V>(es: Seq<(Seq<char>, V)>, k: Seq<char>, k2: Seq<char>)
    requires
        keys_unique(es),
    ensures
        k2 != k ==> table_get(table_remove(es, k), k2) == table_get(es, k2),
        table_get(table_remove(es, k), k) is None,
        keys_unique(table_remove(es, k)),
{
    let es2 = table_remove(es, k);
    if exists|i: int| 0 <= i < es.len() && (#[trigger] es[i]).0 == k {
        let i = choose|i: int| 0 <= i < es.len() && (#[trigger] es[i]).0 == k;
        assert(es2 == es.remove(i));
        assert forall|a: int, b: int| 0 <= a < es2.len() && 0 <= b < es2.len() && a != b implies (#[trigger] es2[a]).0 != (#[trigger] es2[b]).0 by {
            let a2 = if a < i { a } else { a + 1 };
            let b2 = if b < i { b } else { b + 1 };
            assert(es2[a] == es[a2] && es2[b] == es[b2]);
        }
        assert forall|j: int| 0 <= j < es2.len() implies (#[trigger] es2[j]).0 != k by {
            let j2 = if j < i { j } else { j + 1 };
            assert(es2[j] == es[j2]);
        }
        if k2 != k {
            if exists|a: int| 0 <= a < es.len() && (#[trigger] es[a]).0 == k2 {
                let a = choose|a: int| 0 <= a < es.len() && (#[trigger] es[a]).0 == k2;
                assert(a != i);
                let a2 = if a < i { a } else { a - 1 };
                assert(es2[a2] == es[a]);
                let c = choose|c: int| 0 <= c < es2.len() && (#[trigger] es2[c]).0 == k2;
                assert(c == a2) by {
                    if c != a2 {
                        assert(es2[c].0 == es2[a2].0);
                    }
                }
            } else {
                assert forall|j: int| 0 <= j < es2.len() implies (#[trigger] es2[j]).0 != k2 by {
                    let j2 = if j < i { j } else { j + 1 };
                    assert(es2[j] == es[j2]);
                }
            }
        }
    }
}

/// Two tables with the same names in the same places find a name at the
/// same place.
pub proof fn lemma_same_keys<V, W>(a: Seq<(Seq<char>, V)>, b: Seq<(Seq<char>, W)>, k: Seq<char>)
    requires
        keys_unique(a),
        a.len() == b.len(),
        forall|p: int| 0 <= p < a.len() ==> (#[trigger] a[p]).0 == b[p].0,
    ensures
        table_get(a, k) is Some == table_get(b, k) is Some,
        table_get(a, k) is Some ==> exists|p: int|
            0 <= p < a.len() && a[p].0 == k && table_get(a, k) == Some(a[p].1) && #[trigger] table_get(b, k) == Some(b[p].1),
{
    assert(keys_unique(b)) by {
        assert forall|x: int, y: int| 0 <= x < b.len() && 0 <= y < b.len() && x != y implies (#[trigger] b[x]).0 != (#[trigger] b[y]).0 by {
            assert(a[x].0 == b[x].0 && a[y].0 == b[y].0);
        }
    }
    if exists|i: int| 0 <= i < a.len() && (#[trigger] a[i]).0 == k {
        let i = choose|i: int| 0 <= i < a.len() && (#[trigger] a[i]).0 == k;
        assert(b[i].0 == k);
        lemma_get_index(a, k, i);
        lemma_get_index(b, k, i);
    } else {
        assert forall|j: int| 0 <= j < b.len() implies (#[trigger] b[j]).0 != k by {
            assert(a[j].0 == b[j].0);
        }
    }
}

/// In a table with distinct names, the entry at `i` is what its name finds.
pub proof fn lemma_get_index<V>(es: Seq<(Seq<char>, V)>, k: Seq<char>, i: int)
    requires
        keys_unique(es),
        0 <= i < es.len(),
        es[i].0 == k,
    ensures
        table_get(es, k) == Some(es[i].1),
{
    let c = choose|c: int| 0 <= c < es.len() && (#[trigger] es[c]).0 == k;
    assert(c == i) by {
        if c != i {
            assert(es[c].0 == es[i].0);
        }
    }
}

/// Entries keyed by name, without two entries of one name.
pub struct Table<V> {
    entries: Vec<(String, V)>,
}

impl<V> View for Table<V> {
    type V = Seq<(Seq<char>, V)>;

    closed spec fn view(&self) -> Seq<(Seq<char>, V)> {
        self.entries@.map_values(|e: (String, V)| (e.0@, e.1))
    }
}

impl<V> Table<V> {
    pub open spec fn wf(&self) -> bool {
        keys_unique(self@)
    }

    pub fn new() -> (r: Self)
        ensures
            r.wf(),
            r@ == Seq::<(Seq<char>, V)>::empty(),
    {
        let r = Table { entries: Vec::new() };
        assert(r@ =~= Seq::<(Seq<char>, V)>::empty());
        r
    }

    pub fn len(&self) -> (r: usize)
        ensures
            r == self@.len(),
    {
        self.entries.len()
    }

    /// The name and value of entry `i`.
    pub fn entry(&self, i: usize) -> (r: (&str, &V))
        requires
            i < self@.len(),
        ensures
            r.0@ == self@[i as int].0,
            *r.1 == self@[i as int].1,
    {
        (self.entries[i].0.as_str(), &self.entries[i].1)
    }

    fn position(&self, k: &str) -> (r: Option<usize>)
        requires
            self.wf(),
        ensures
            match r {
                Some(i) => i < self@.len() && self@[i as int].0 == k@
                    && table_get(self@, k@) == Some(self@[i as int].1)
                    && (choose|j: int| 0 <= j < self@.len() && (#[trigger] self@[j]).0 == k@) == i,
                None => table_get(self@, k@) is None
                    && forall|j: int| 0 <= j < self@.len() ==> (#[trigger] self@[j]).0 != k@,
            },
    {
        let mut i: usize = 0;
        while i < self.entries.len()
            invariant
                i <= self@.len(),
                self@.len() == self.entries@.len(),
                self.wf(),
                forall|j: int| 0 <= j < i ==> (#[trigger] self@[j]).0 != k@,
            decreases self@.len() - i,
        {
            if crate::text::str_eq(self.entries[i].0.as_str(), k) {
                assert(self@[i as int].0 == k@);
                let ghost c = choose|j: int| 0 <= j < self@.len() && (#[trigger] self@[j]).0 == k@;
                assert(c == i as int) by {
                    if c != i as int {
                        assert(self@[c].0 == self@[i as int].0);
                    }
                }
                return Some(i);
            }
            i = i + 1;
        }
        None
    }

    pub fn get(&self, k: &str) -> (r: Option<&V>)
        requires
            self.wf(),
        ensures
            match table_get(self@, k@) {
                Some(v) => r == Some(&v),
                None => r is None,
            },
    {
        match self.position(k) {
            Some(i) => Some(&self.entries[i].1),
            None => None,
        }
    }

    /// Adds an entry under a name the table does not hold yet.
    pub fn push_new(&mut self, k: &str, v: V)
        requires
            old(self).wf(),
            forall|i: int| 0 <= i < old(self)@.len() ==> (#[trigger] old(self)@[i]).0 != k@,
        ensures
            final(self).wf(),
            final(self)@ == old(self)@.push((k@, v)),
    {
        let ghost old_v = self@;
        self.entries.push((k.to_owned(), v));
        assert(self@ =~= old_v.push((k@, v)));
        assert forall|a: int, b: int| 0 <= a < self@.len() && 0 <= b < self@.len() && a != b
            implies (#[trigger] self@[a]).0 != (#[trigger] self@[b]).0 by {
            if a == old_v.len() {
                assert(old_v[b].0 != k@);
            } else if b == old_v.len() {
                assert(old_v[a].0 != k@);
            }
        }
    }

    pub fn set(&mut self, k: &str, v: V)
        requires
            old(self).wf(),
        ensures
            final(self).wf(),
            final(self)@ == table_set(old(self)@, k@, v),
    {
        let ghost old_v = self@;
        match self.position(k) {
            Some(i) => {
                self.entries.set(i, (k.to_owned(), v));
                assert(self@ =~= old_v.update(i as int, (k@, v)));
                assert forall|a: int, b: int| 0 <= a < self@.len() && 0 <= b < self@.len() && a != b
                    implies (#[trigger] self@[a]).0 != (#[trigger] self@[b]).0 by {
                    assert(self@[a].0 == old_v[a].0 && self@[b].0 == old_v[b].0);
                }
            },
            None => {
                self.entries.push((k.to_owned(), v));
                assert(self@ =~= old_v.push((k@, v)));
                assert forall|a: int, b: int| 0 <= a < self@.len() && 0 <= b < self@.len() && a != b
                    implies (#[trigger] self@[a]).0 != (#[trigger] self@[b]).0 by {
                    if a == old_v.len() {
                        assert(old_v[b].0 != k@);
                    } else if b == old_v.len() {
                        assert(old_v[a].0 != k@);
                    }
                }
            },
        }
    }

    /// Replaces the value of entry `i`, keeping its name and place.
    pub fn set_at(&mut self, i: usize, v: V)
        requires
            old(self).wf(),
            i < old(self)@.len(),
        ensures
            final(self).wf(),
            final(self)@ == old(self)@.update(i as int, (old(self)@[i as int].0, v)),
    {
        let ghost old_v = self@;
        let k = self.entries[i].0.clone();
        self.entries.set(i, (k, v));
        assert(self@ =~= old_v.update(i as int, (old_v[i as int].0, v)));
        assert forall|a: int, b: int| 0 <= a < self@.len() && 0 <= b < self@.len() && a != b
            implies (#[trigger] self@[a]).0 != (#[trigger] self@[b]).0 by {
            assert(self@[a].0 == old_v[a].0 && self@[b].0 == old_v[b].0);
        }
    }

    pub fn remove(&mut self, k: &str) -> (r: Option<V>)
        requires
            old(self).wf(),
        ensures
            final(self).wf(),
            final(self)@ == table_remove(old(self)@, k@),
            r == table_get(old(self)@, k@),
    {
        let ghost old_v = self@;
        match self.position(k) {
            Some(i) => {
                let e = self.entries.remove(i);
                assert(self@ =~= old_v.remove(i as int));
                assert forall|a: int, b: int| 0 <= a < self@.len() && 0 <= b < self@.len() && a != b
                    implies (#[trigger] self@[a]).0 != (#[trigger] self@[b]).0 by {
                    let a2 = if a < i { a } else { a + 1 };
                    let b2 = if b < i { b } else { b + 1 };
                    assert(self@[a] == old_v[a2] && self@[b] == old_v[b2]);
                }
                Some(e.1)
            },
            None => None,
        }
    }
}

} // verus!
