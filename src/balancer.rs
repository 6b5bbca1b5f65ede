//! Member selection for a cluster: the eligible set, round-robin and
//! least-connections, and the in-flight connection counts.
use vstd::prelude::*;
use crate::cluster::{ClusterMemberConfig, ClusterMemberStatus, LbMethod};
use crate::table::{Table, table_get, table_set};

verus! {

/// The positions of the members that may be chosen: every one that is not
/// `Unavailable`, in order.
pub open spec fn eligible(st: Seq<ClusterMemberStatus>) -> Seq<int>
    decreases st.len(),
{
    if st.len() == 0 {
        Seq::empty()
    } else {
        let p = eligible(st.drop_last());
        if st.last() is Unavailable {
            p
        } else {
            p.push(st.len() - 1)
        }
    }
}

pub open spec fn conns(s: ClusterMemberStatus) -> int {
    match s {
        ClusterMemberStatus::Active(n) => n as int,
        _ => 0,
    }
}

/// The first `Active` member with the fewest connections.
pub open spec fn least_conn(st: Seq<ClusterMemberStatus>) -> Option<int>
    decreases st.len(),
{
    if st.len() == 0 {
        None
    } else {
        let p = least_conn(st.drop_last());
        let i = st.len() - 1;
        if st.last() is Active {
            match p {
                None => Some(i),
                Some(j) => if conns(st.last()) < conns(st[j]) {
                    Some(i)
                } else {
                    p
                },
            }
        } else {
            p
        }
    }
}

/// The place in an eligible set of `n` that a round-robin cursor points at.
pub open spec fn rr_pick(cursor: int, n: int) -> int {
    if 0 <= cursor < n {
        cursor
    } else {
        0
    }
}

/// The cursor after a round-robin choice among `n`.
pub open spec fn rr_next(cursor: int, n: int) -> int {
    if rr_pick(cursor, n) + 1 < n {
        rr_pick(cursor, n) + 1
    } else {
        0
    }
}

/// The member a request goes to, by position.
pub open spec fn chosen(method: LbMethod, st: Seq<ClusterMemberStatus>, cursor: int) -> Option<int> {
    match method {
        LbMethod::RoundRobin => {
            let e = eligible(st);
            if e.len() == 0 {
                None
            } else {
                Some(e[rr_pick(cursor, e.len() as int)])
            }
        },
        LbMethod::LeastConn => least_conn(st),
    }
}

/// A status with one more connection in flight.
pub open spec fn with_one_more(s: ClusterMemberStatus) -> ClusterMemberStatus {
    match s {
        ClusterMemberStatus::Active(n) => ClusterMemberStatus::Active(if n < 65535 { (n + 1) as u16 } else { n }),
        _ => s,
    }
}

/// A status with one connection fewer in flight.
pub open spec fn with_one_less(s: ClusterMemberStatus) -> ClusterMemberStatus {
    match s {
        ClusterMemberStatus::Active(n) => ClusterMemberStatus::Active(if n > 0 { (n - 1) as u16 } else { n }),
        _ => s,
    }
}

proof fn lemma_eligible_props(st: Seq<ClusterMemberStatus>)
    ensures
        forall|k: int| 0 <= k < eligible(st).len() ==> 0 <= #[trigger] eligible(st)[k] < st.len()
            && !(st[eligible(st)[k]] is Unavailable),
        forall|i: int| 0 <= i < st.len() && !(st[i] is Unavailable) ==> exists|k: int|
            0 <= k < eligible(st).len() && #[trigger] eligible(st)[k] == i,
        forall|a: int, b: int| 0 <= a < b < eligible(st).len() ==> #[trigger] eligible(st)[a] < #[trigger] eligible(st)[b],
    decreases st.len(),
{
    if st.len() > 0 {
        lemma_eligible_props(st.drop_last());
        let p = eligible(st.drop_last());
        assert forall|i: int| 0 <= i < st.len() && !(st[i] is Unavailable) implies exists|k: int|
            0 <= k < eligible(st).len() && #[trigger] eligible(st)[k] == i by {
            if i < st.len() - 1 {
                assert(st.drop_last()[i] == st[i]);
                let k = choose|k: int| 0 <= k < p.len() && #[trigger] p[k] == i;
                assert(eligible(st)[k] == i);
            } else {
                assert(eligible(st)[p.len() as int] == i);
            }
        }
    }
}

proof fn lemma_least_conn_props(st: Seq<ClusterMemberStatus>)
    ensures
        match least_conn(st) {
            Some(i) => 0 <= i < st.len() && st[i] is Active
                && forall|j: int| 0 <= j < st.len() && #[trigger] st[j] is Active ==> conns(st[i]) <= conns(st[j]),
            None => forall|j: int| 0 <= j < st.len() ==> !(#[trigger] st[j] is Active),
        },
    decreases st.len(),
{
    if st.len() > 0 {
        lemma_least_conn_props(st.drop_last());
        assert forall|j: int| 0 <= j < st.len() - 1 implies #[trigger] st[j] == st.drop_last()[j] by {}
    }
}

/// The members of a cluster by address, with their statuses, and the
/// round-robin cursor.
pub struct ClusterBalancer {
    method: LbMethod,
    members: Table<ClusterMemberStatus>,
    cursor: usize,
}

pub open spec fn statuses(es: Seq<(Seq<char>, ClusterMemberStatus)>) -> Seq<ClusterMemberStatus> {
    es.map_values(|e: (Seq<char>, ClusterMemberStatus)| e.1)
}

impl ClusterBalancer {
    pub closed spec fn wf(&self) -> bool {
        self.members.wf()
    }

    pub closed spec fn method(&self) -> LbMethod {
        self.method
    }

    /// The members, in order, as (address, status).
    pub closed spec fn members(&self) -> Seq<(Seq<char>, ClusterMemberStatus)> {
        self.members@
    }

    pub closed spec fn cursor(&self) -> int {
        self.cursor as int
    }

    pub fn new(method: LbMethod) -> (r: Self)
        ensures
            r.wf(),
            r.method() == method,
            r.members() == Seq::<(Seq<char>, ClusterMemberStatus)>::empty(),
            r.cursor() == 0,
    {
        ClusterBalancer { method, members: Table::new(), cursor: 0 }
    }

    pub fn member_count(&self) -> (r: usize)
        ensures
            r == self.members().len(),
    {
        self.members.len()
    }

    /// The address and status of member `i`.
    pub fn member(&self, i: usize) -> (r: (&str, ClusterMemberStatus))
        requires
            i < self.members().len(),
        ensures
            r.0@ == self.members()[i as int].0,
            r.1 == self.members()[i as int].1,
    {
        let (a, s) = self.members.entry(i);
        (a, *s)
    }

    /// Sets the status of the member at `address`, adding it at the end if
    /// it is new.
    pub fn set_status(&mut self, address: &str, status: ClusterMemberStatus)
        requires
            old(self).wf(),
        ensures
            final(self).wf(),
            final(self).members() == table_set(old(self).members(), address@, status),
            final(self).method() == old(self).method(),
            final(self).cursor() == old(self).cursor(),
    {
        self.members.set(address, status);
    }

    /// The current status of the member at `address`.
    pub fn status_of(&self, address: &str) -> (r: Option<ClusterMemberStatus>)
        requires
            self.wf(),
        ensures
            r == table_get(self.members(), address@),
    {
        match self.members.get(address) {
            Some(s) => Some(*s),
            None => None,
        }
    }

    /// Records that a connection to the member at `address` has closed.
    pub fn connection_closed(&mut self, address: &str)
        requires
            old(self).wf(),
        ensures
            final(self).wf(),
            final(self).members() == match table_get(old(self).members(), address@) {
                Some(s) => table_set(old(self).members(), address@, with_one_less(s)),
                None => old(self).members(),
            },
            final(self).method() == old(self).method(),
            final(self).cursor() == old(self).cursor(),
    {
        match self.status_of(address) {
            Some(s) => {
                let next = match s {
                    ClusterMemberStatus::Active(n) => ClusterMemberStatus::Active(if n > 0 { n - 1 } else { n }),
                    other => other,
                };
                self.members.set(address, next);
            },
            None => {},
        }
    }

    fn eligible_positions(&self) -> (r: Vec<usize>)
        ensures
            r@.len() == eligible(statuses(self.members())).len(),
            forall|k: int| 0 <= k < r@.len() ==> r@[k] as int == #[trigger] eligible(statuses(self.members()))[k],
    {
        let ghost st = statuses(self.members());
        let mut r: Vec<usize> = Vec::new();
        let mut i: usize = 0;
        let n = self.members.len();
        while i < n
            invariant
                i <= n,
                n == st.len(),
                st == statuses(self.members()),
                r@.len() == eligible(st.subrange(0, i as int)).len(),
                forall|k: int| 0 <= k < r@.len() ==> r@[k] as int == #[trigger] eligible(st.subrange(0, i as int))[k],
            decreases n - i,
        {
            let (_, s) = self.members.entry(i);
            assert(st.subrange(0, i + 1).drop_last() =~= st.subrange(0, i as int));
            match s {
                ClusterMemberStatus::Unavailable => {},
                _ => {
                    r.push(i);
                },
            }
            i = i + 1;
        }
        assert(st.subrange(0, n as int) =~= st);
        r
    }

    fn least_conn_position(&self) -> (r: Option<usize>)
        ensures
            match least_conn(statuses(self.members())) {
                Some(i) => r == Some(i as usize),
                None => r is None,
            },
    {
        let ghost st = statuses(self.members());
        let mut best: Option<usize> = None;
        let mut best_conns: u16 = 0;
        let mut i: usize = 0;
        let n = self.members.len();
        while i < n
            invariant
                i <= n,
                n == st.len(),
                st == statuses(self.members()),
                match least_conn(st.subrange(0, i as int)) {
                    Some(j) => best == Some(j as usize) && 0 <= j < i && conns(st[j]) == best_conns as int,
                    None => best is None,
                },
            decreases n - i,
        {
            let s = *self.members.entry(i).1;
            let ghost pre = st.subrange(0, i as int);
            let ghost cur = st.subrange(0, i + 1);
            assert(cur.drop_last() =~= pre);
            proof {
                match least_conn(pre) {
                    Some(j) => { assert(cur[j] == st[j]); },
                    None => {},
                }
            }
            match s {
                ClusterMemberStatus::Active(c) => {
                    match best {
                        None => {
                            best = Some(i);
                            best_conns = c;
                        },
                        Some(_) => {
                            if c < best_conns {
                                best = Some(i);
                                best_conns = c;
                            }
                        },
                    }
                },
                _ => {},
            }
            i = i + 1;
        }
        assert(st.subrange(0, n as int) =~= st);
        best
    }

    /// Chooses the member for a new connection by the cluster's method and
    /// counts the connection on it.  Round-robin takes the eligible member
    /// under the cursor and moves the cursor on; least-connections takes
    /// the first `Active` member with the fewest connections.
    pub fn select(&mut self) -> (r: Option<usize>)
        requires
            old(self).wf(),
        ensures
            final(self).wf(),
            match chosen(old(self).method(), statuses(old(self).members()), old(self).cursor()) {
                Some(i) => r == Some(i as usize) && final(self).members() == old(self).members().update(
                    i,
                    (old(self).members()[i].0, with_one_more(old(self).members()[i].1)),
                ),
                None => r is None && final(self).members() == old(self).members(),
            },
            final(self).method() == old(self).method(),
            final(self).cursor() == (if old(self).method() == LbMethod::RoundRobin && eligible(
                statuses(old(self).members()),
            ).len() > 0 {
                rr_next(old(self).cursor(), eligible(statuses(old(self).members())).len() as int)
            } else {
                old(self).cursor()
            }),
    {
        let ghost st = statuses(self.members());
        let pick: Option<usize> = match self.method {
            LbMethod::RoundRobin => {
                let e = self.eligible_positions();
                if e.len() == 0 {
                    None
                } else {
                    let at = if self.cursor < e.len() { self.cursor } else { 0 };
                    self.cursor = if at + 1 < e.len() { at + 1 } else { 0 };
                    Some(e[at])
                }
            },
            LbMethod::LeastConn => self.least_conn_position(),
        };
        let ghost old_cursor = old(self).cursor();
        let count = self.members.len();
        assert(st.len() == count as int);
        assert(match chosen(self.method(), st, old_cursor) {
            Some(j) => pick == Some(j as usize),
            None => pick is None,
        });
        match pick {
            Some(i) => {
                proof {
                    lemma_eligible_props(st);
                    lemma_least_conn_props(st);
                    let e = eligible(st);
                    if self.method() == LbMethod::RoundRobin {
                        let k = rr_pick(old_cursor, e.len() as int);
                        assert(0 <= e[k] < st.len());
                    }
                    assert(match chosen(self.method(), st, old_cursor) {
                        Some(j) => 0 <= j < st.len() && i as int == j,
                        None => false,
                    });
                }
                assert(i < self.members().len());
                let s = *self.members.entry(i).1;
                let next = match s {
                    ClusterMemberStatus::Active(n) => ClusterMemberStatus::Active(if n < 65535 { n + 1 } else { n }),
                    other => other,
                };
                self.members.set_at(i, next);
                assert(next == with_one_more(old(self).members()[i as int].1));
                Some(i)
            },
            None => None,
        }
    }
}

/// The members after a new snapshot's list: in the snapshot's order, each
/// keeping the status it had if it was a member before, else taking the
/// configured one.
pub open spec fn resynced(
    old: Seq<(Seq<char>, ClusterMemberStatus)>,
    cfg: Seq<(Seq<char>, ClusterMemberStatus)>,
) -> Seq<(Seq<char>, ClusterMemberStatus)>
    decreases cfg.len(),
{
    if cfg.len() == 0 {
        Seq::empty()
    } else {
        let (a, st) = cfg.last();
        table_set(resynced(old, cfg.drop_last()), a, match table_get(old, a) {
            Some(s) => s,
            None => st,
        })
    }
}

/// The addresses of `old` that `cfg` no longer lists, in order.
pub open spec fn departed(old: Seq<(Seq<char>, ClusterMemberStatus)>, cfg: Seq<(Seq<char>, ClusterMemberStatus)>) -> Seq<Seq<char>>
    decreases old.len(),
{
    if old.len() == 0 {
        Seq::empty()
    } else {
        let a = old.last().0;
        let p = departed(old.drop_last(), cfg);
        if exists|j: int| 0 <= j < cfg.len() && (#[trigger] cfg[j]).0 == a {
            p
        } else {
            p.push(a)
        }
    }
}

pub open spec fn config_view(cfg: Seq<ClusterMemberConfig>) -> Seq<(Seq<char>, ClusterMemberStatus)> {
    cfg.map_values(|m: ClusterMemberConfig| (m.address@, m.status))
}

impl ClusterBalancer {
    /// Applies a new snapshot's method and member list; see [`resynced`].
    /// Returns the addresses of the members that left, see [`departed`].
    pub fn resync(&mut self, method: LbMethod, cfg: &Vec<ClusterMemberConfig>) -> (removed: Vec<String>)
        requires
            old(self).wf(),
        ensures
            final(self).wf(),
            final(self).method() == method,
            final(self).members() == resynced(old(self).members(), config_view(cfg@)),
            removed@.map_values(|x: String| x@) == departed(old(self).members(), config_view(cfg@)),
    {
        let ghost cv = config_view(cfg@);
        let mut fresh: Table<ClusterMemberStatus> = Table::new();
        let mut i: usize = 0;
        assert(cv.subrange(0, 0) =~= Seq::<(Seq<char>, ClusterMemberStatus)>::empty());
        while i < cfg.len()
            invariant
                i <= cfg@.len(),
                cv == config_view(cfg@),
                self.wf(),
                self.members() == old(self).members(),
                fresh.wf(),
                fresh@ == resynced(old(self).members(), cv.subrange(0, i as int)),
            decreases cfg@.len() - i,
        {
            let status = match self.status_of(cfg[i].address.as_str()) {
                Some(s) => s,
                None => cfg[i].status,
            };
            fresh.set(cfg[i].address.as_str(), status);
            let ghost cur = cv.subrange(0, i + 1);
            assert(cur.drop_last() =~= cv.subrange(0, i as int));
            assert(cur.last() == (cfg@[i as int].address@, cfg@[i as int].status));
            i = i + 1;
        }
        assert(cv.subrange(0, cfg@.len() as int) =~= cv);
        let mut removed: Vec<String> = Vec::new();
        let mut k: usize = 0;
        let ghost om = self.members();
        assert(om.subrange(0, 0) =~= Seq::<(Seq<char>, ClusterMemberStatus)>::empty());
        assert(removed@.map_values(|x: String| x@) =~= Seq::<Seq<char>>::empty());
        while k < self.members.len()
            invariant
                k <= om.len(),
                om == self.members(),
                om == old(self).members(),
                cv == config_view(cfg@),
                removed@.map_values(|x: String| x@) == departed(om.subrange(0, k as int), cv),
            decreases om.len() - k,
        {
            let (a, _) = self.members.entry(k);
            let mut listed = false;
            let mut j: usize = 0;
            while j < cfg.len()
                invariant
                    j <= cfg@.len(),
                    cv == config_view(cfg@),
                    listed == exists|m: int| 0 <= m < j && (#[trigger] cv[m]).0 == a@,
                decreases cfg@.len() - j,
            {
                if crate::text::str_eq(cfg[j].address.as_str(), a) {
                    assert(cv[j as int].0 == a@);
                    listed = true;
                }
                j = j + 1;
            }
            let ghost before = removed@.map_values(|x: String| x@);
            let ghost cur = om.subrange(0, k + 1);
            assert(cur.drop_last() =~= om.subrange(0, k as int));
            assert(cur.last().0 == a@);
            if !listed {
                removed.push(a.to_owned());
                assert(removed@.map_values(|x: String| x@) =~= before.push(a@));
            }
            k = k + 1;
        }
        assert(om.subrange(0, om.len() as int) =~= om);
        self.members = fresh;
        self.method = method;
        removed
    }
}

/// The cursor after `k` round-robin choices among `n`, from `c`.
pub open spec fn rr_cursor(c: int, n: int, k: nat) -> int
    decreases k,
{
    if k == 0 {
        c
    } else {
        rr_next(rr_cursor(c, n, (k - 1) as nat), n)
    }
}

proof fn lemma_rr_walk(c: int, n: int, k: nat)
    requires
        n > 0,
        k < n,
    ensures
        rr_pick(rr_cursor(c, n, k), n) == (if rr_pick(c, n) + k < n {
            rr_pick(c, n) + k
        } else {
            rr_pick(c, n) + k - n
        }),
    decreases k,
{
    if k > 0 {
        lemma_rr_walk(c, n, (k - 1) as nat);
    }
}

/// Whether one of the `n` choices from cursor `c` picks place `i`.
pub open spec fn picked_within(c: int, n: int, i: int) -> bool {
    exists|k: nat| k < n && #[trigger] rr_pick(rr_cursor(c, n, k), n) == i
}

/// Round-robin over a stable set of `n` eligible members: any `n`
/// consecutive choices pick every member exactly once.
pub proof fn lemma_round_robin_fair(c: int, n: int)
    requires
        n > 0,
    ensures
        forall|i: int| 0 <= i < n ==> #[trigger] picked_within(c, n, i),
        forall|k1: nat, k2: nat| k1 < n && k2 < n && k1 != k2 ==> rr_pick(rr_cursor(c, n, k1), n) != rr_pick(
            rr_cursor(c, n, k2),
            n,
        ),
{
    let c0 = rr_pick(c, n);
    assert forall|i: int| 0 <= i < n implies #[trigger] picked_within(c, n, i) by {
        let k: nat = if i >= c0 { (i - c0) as nat } else { (i + n - c0) as nat };
        lemma_rr_walk(c, n, k);
        assert(rr_pick(rr_cursor(c, n, k), n) == i);
    }
    assert forall|k1: nat, k2: nat| k1 < n && k2 < n && k1 != k2 implies rr_pick(rr_cursor(c, n, k1), n) != rr_pick(
        rr_cursor(c, n, k2),
        n,
    ) by {
        lemma_rr_walk(c, n, k1);
        lemma_rr_walk(c, n, k2);
    }
}

/// When every member is `Unavailable`, no method finds a member.
pub proof fn lemma_none_available(method: LbMethod, st: Seq<ClusterMemberStatus>, cursor: int)
    requires
        forall|i: int| 0 <= i < st.len() ==> #[trigger] st[i] is Unavailable,
    ensures
        chosen(method, st, cursor) is None,
{
    lemma_eligible_props(st);
    lemma_least_conn_props(st);
    if eligible(st).len() > 0 {
        assert(0 <= eligible(st)[0] < st.len());
    }
}

} // verus!
