//! The metric aggregator: values per (scope source, metric name), and the
//! periodic roll-up of rates.
use vstd::prelude::*;
use crate::table::{keys_unique, lemma_get_remove, lemma_get_set, lemma_get_set_other, lemma_same_keys, table_get, table_remove, table_set, Table};
use crate::text::{push_str};

verus! {

/// A metric value.
#[derive(Clone, Debug)]
pub enum MetricValue {
    Counter(u64),
    Gauge(i64),
    Rate(i64),
    String(String),
}

/// One element of the scope a metric is recorded under.
#[derive(Clone, Debug)]
pub enum MetricSource {
    Listener(String),
    ListenerProtocol(String),
    VirtualHost(String),
    Route(String),
    Cluster(String),
    ClusterMember(String),
}

/// A stored metric: its value, the time of its last update in seconds, and
/// for rates the accumulators of the previous and the current window.
#[derive(Clone, Debug)]
pub struct MetricEntry {
    pub metric: MetricValue,
    pub timestamp: u64,
    pub last_value: i64,
    pub current_value: i64,
}

/// A metric message: one value for every source of the scope.
#[derive(Clone, Debug)]
pub struct MetricMessage {
    pub scope: Vec<MetricSource>,
    pub name: String,
    pub value: MetricValue,
}

/// A value as tag, number and text.
pub open spec fn value_view(v: MetricValue) -> (int, int, Seq<char>) {
    match v {
        MetricValue::Counter(x) => (0, x as int, Seq::empty()),
        MetricValue::Gauge(x) => (1, x as int, Seq::empty()),
        MetricValue::Rate(x) => (2, x as int, Seq::empty()),
        MetricValue::String(s) => (3, 0, s@),
    }
}

/// An entry as value, timestamp, last and current accumulators.
pub open spec fn entry_view(e: MetricEntry) -> ((int, int, Seq<char>), int, int, int) {
    (value_view(e.metric), e.timestamp as int, e.last_value as int, e.current_value as int)
}

pub open spec fn sat_i64(x: int) -> int {
    if x > i64::MAX {
        i64::MAX as int
    } else if x < i64::MIN {
        i64::MIN as int
    } else {
        x
    }
}

/// An entry after a message: a new entry takes the value (a rate also
/// starts its current window with it); an existing rate adds to its
/// current window; an existing counter adds to a stored counter; a gauge
/// or string replaces the value.  Sums saturate.
pub open spec fn entry_after(old: Option<((int, int, Seq<char>), int, int, int)>, v: (int, int, Seq<char>), now: int) -> ((int, int, Seq<char>), int, int, int) {
    match old {
        None => (v, now, 0, if v.0 == 2 { v.1 } else { 0 }),
        Some(e) => if v.0 == 2 {
            (e.0, e.1, e.2, sat_i64(e.3 + v.1))
        } else if v.0 == 0 {
            if e.0.0 == 0 {
                ((0, if e.0.1 + v.1 > u64::MAX { u64::MAX as int } else { e.0.1 + v.1 }, e.0.2), now, e.2, e.3)
            } else {
                e
            }
        } else {
            (v, now, e.2, e.3)
        },
    }
}

/// Integer division rounding toward zero, as Rust's `/` does.
pub open spec fn trunc_div(a: int, b: int) -> int {
    if a >= 0 {
        a / b
    } else {
        -((-a) / b)
    }
}

/// A rate entry after the roll-up at `now`: the rate is the difference of
/// the windows over the seconds elapsed, the current window becomes the
/// last and a new one starts.  Nothing changes when no time has elapsed
/// or the entry is not a rate.
pub open spec fn entry_rolled(e: ((int, int, Seq<char>), int, int, int), now: int) -> ((int, int, Seq<char>), int, int, int) {
    if e.0.0 == 2 && now > e.1 {
        ((2, trunc_div(sat_i64(e.3 - e.2), now - e.1), e.0.2), now, e.3, 0)
    } else {
        e
    }
}

/// The key a source is stored under: its kind, a colon, and its name.
pub open spec fn source_key(s: MetricSource) -> Seq<char> {
    match s {
        MetricSource::Listener(n) => "listener:"@ + n@,
        MetricSource::ListenerProtocol(n) => "listener_protocol:"@ + n@,
        MetricSource::VirtualHost(n) => "virtual_host:"@ + n@,
        MetricSource::Route(n) => "route:"@ + n@,
        MetricSource::Cluster(n) => "cluster:"@ + n@,
        MetricSource::ClusterMember(n) => "cluster_member:"@ + n@,
    }
}

impl MetricSource {
    pub fn key(&self) -> (r: String)
        ensures
            r@ == source_key(*self),
    {
        let (kind, n): (&str, &String) = match self {
            MetricSource::Listener(n) => ("listener:", n),
            MetricSource::ListenerProtocol(n) => ("listener_protocol:", n),
            MetricSource::VirtualHost(n) => ("virtual_host:", n),
            MetricSource::Route(n) => ("route:", n),
            MetricSource::Cluster(n) => ("cluster:", n),
            MetricSource::ClusterMember(n) => ("cluster_member:", n),
        };
        let mut r = String::new();
        push_str(&mut r, kind);
        push_str(&mut r, n.as_str());
        r
    }
}

impl MetricValue {
    /// A copy of the value.
    pub fn copy(&self) -> (r: Self)
        ensures
            value_view(r) == value_view(*self),
    {
        match self {
            MetricValue::Counter(x) => MetricValue::Counter(*x),
            MetricValue::Gauge(x) => MetricValue::Gauge(*x),
            MetricValue::Rate(x) => MetricValue::Rate(*x),
            MetricValue::String(s) => MetricValue::String(s.clone()),
        }
    }
}

fn sat_add(a: i64, b: i64) -> (r: i64)
    ensures
        r as int == sat_i64(a + b),
{
    if b > 0 && a > i64::MAX - b {
        i64::MAX
    } else if b < 0 && a < i64::MIN - b {
        i64::MIN
    } else {
        a + b
    }
}

fn update_entry(old: Option<&MetricEntry>, v: &MetricValue, now: u64) -> (r: MetricEntry)
    ensures
        entry_view(r) == entry_after(match old {
            Some(e) => Some(entry_view(*e)),
            None => None,
        }, value_view(*v), now as int),
{
    match old {
        None => {
            let current = match v {
                MetricValue::Rate(x) => *x,
                _ => 0,
            };
            MetricEntry { metric: v.copy(), timestamp: now, last_value: 0, current_value: current }
        },
        Some(e) => match v {
            MetricValue::Rate(x) => MetricEntry {
                metric: e.metric.copy(),
                timestamp: e.timestamp,
                last_value: e.last_value,
                current_value: sat_add(e.current_value, *x),
            },
            MetricValue::Counter(x) => match &e.metric {
                MetricValue::Counter(c) => MetricEntry {
                    metric: MetricValue::Counter(if *c > u64::MAX - *x { u64::MAX } else { *c + *x }),
                    timestamp: now,
                    last_value: e.last_value,
                    current_value: e.current_value,
                },
                _ => MetricEntry {
                    metric: e.metric.copy(),
                    timestamp: e.timestamp,
                    last_value: e.last_value,
                    current_value: e.current_value,
                },
            },
            _ => MetricEntry { metric: v.copy(), timestamp: now, last_value: e.last_value, current_value: e.current_value },
        },
    }
}

/// Applies the roll-up at `now` to one entry; see [`entry_rolled`].
pub fn roll_entry(e: &MetricEntry, now: u64) -> (r: MetricEntry)
    ensures
        entry_view(r) == entry_rolled(entry_view(*e), now as int),
{
    match &e.metric {
        MetricValue::Rate(_) => {
            if now > e.timestamp {
                let elapsed = now - e.timestamp;
                let diff = if e.last_value < 0 && e.current_value > i64::MAX + e.last_value {
                    i64::MAX
                } else if e.last_value > 0 && e.current_value < i64::MIN + e.last_value {
                    i64::MIN
                } else {
                    e.current_value - e.last_value
                };
                let mag: u64 = if diff >= 0 { diff as u64 } else { (-(diff as i128)) as u64 };
                let qm: u64 = mag / elapsed;
                assert(qm <= mag) by (nonlinear_arith)
                    requires qm == mag / elapsed, elapsed >= 1;
                let rate: i64 = if diff >= 0 {
                    qm as i64
                } else if qm > i64::MAX as u64 {
                    i64::MIN
                } else {
                    -(qm as i64)
                };
                MetricEntry { metric: MetricValue::Rate(rate), timestamp: now, last_value: e.current_value, current_value: 0 }
            } else {
                MetricEntry { metric: e.metric.copy(), timestamp: e.timestamp, last_value: e.last_value, current_value: e.current_value }
            }
        },
        _ => MetricEntry { metric: e.metric.copy(), timestamp: e.timestamp, last_value: e.last_value, current_value: e.current_value },
    }
}

/// The entry stored for a source key and metric name, as its view.
pub open spec fn stored(es: Seq<(Seq<char>, Table<MetricEntry>)>, key: Seq<char>, name: Seq<char>) -> Option<((int, int, Seq<char>), int, int, int)> {
    match table_get(es, key) {
        Some(t) => match table_get(t@, name) {
            Some(e) => Some(entry_view(e)),
            None => None,
        },
        None => None,
    }
}

pub open spec fn inner_ok(o: Option<Table<MetricEntry>>) -> bool {
    match o {
        Some(t) => t.wf(),
        None => true,
    }
}

/// Metrics by source and name.
pub struct MetricStore {
    metrics: Table<Table<MetricEntry>>,
}

impl MetricStore {
    pub closed spec fn wf(&self) -> bool {
        &&& self.metrics.wf()
        &&& forall|k: Seq<char>| inner_ok(#[trigger] table_get(self.metrics@, k))
    }

    /// The entry stored for a source key and metric name.
    pub closed spec fn entry(&self, key: Seq<char>, name: Seq<char>) -> Option<((int, int, Seq<char>), int, int, int)> {
        stored(self.metrics@, key, name)
    }

    pub fn new() -> (r: Self)
        ensures
            r.wf(),
            forall|k: Seq<char>, n: Seq<char>| r.entry(k, n) is None,
    {
        MetricStore { metrics: Table::new() }
    }

    /// Records one value under one source.
    pub fn record(&mut self, source: &MetricSource, name: &str, value: &MetricValue, now: u64)
        requires
            old(self).wf(),
        ensures
            final(self).wf(),
            final(self).entry(source_key(*source), name@) == Some(
                entry_after(old(self).entry(source_key(*source), name@), value_view(*value), now as int),
            ),
            forall|k: Seq<char>, n: Seq<char>| !(k == source_key(*source) && n == name@) ==> #[trigger] final(self).entry(k, n)
                == old(self).entry(k, n),
    {
        let key = source.key();
        let ghost old_m = self.metrics@;
        let ghost k = key@;
        let removed = self.metrics.remove(key.as_str());
        proof {
            lemma_get_remove(old_m, k, k);
        }
        let mut inner: Table<MetricEntry> = match removed {
            Some(t) => {
                assert(inner_ok(table_get(old_m, k)));
                t
            },
            None => Table::new(),
        };
        let ghost old_inner = inner@;
        assert(match table_get(old_m, k) {
            Some(t) => t@ == old_inner,
            None => old_inner.len() == 0,
        });
        let e = update_entry(inner.get(name), value, now);
        let ghost ev = entry_view(e);
        inner.set(name, e);
        proof {
            lemma_get_set(old_inner, name@, e);
        }
        let ghost mid = self.metrics@;
        self.metrics.set(key.as_str(), inner);
        proof {
            lemma_get_set(mid, k, inner);
            assert forall|k2: Seq<char>| inner_ok(#[trigger] table_get(self.metrics@, k2)) by {
                if k2 != k {
                    lemma_get_set_other(mid, k, inner, k2);
                    lemma_get_remove(old_m, k, k2);
                    assert(inner_ok(table_get(old_m, k2)));
                }
            }
            assert forall|k2: Seq<char>, n: Seq<char>| !(k2 == k && n == name@) implies #[trigger] stored(self.metrics@, k2, n)
                == stored(old_m, k2, n) by {
                if k2 != k {
                    lemma_get_set_other(mid, k, inner, k2);
                    lemma_get_remove(old_m, k, k2);
                } else {
                    lemma_get_set_other(old_inner, name@, e, n);
                }
            }
        }
    }
}

/// How many sources of `scope` are stored under `key`.
pub open spec fn key_count(scope: Seq<MetricSource>, key: Seq<char>) -> nat
    decreases scope.len(),
{
    if scope.len() == 0 {
        0
    } else {
        key_count(scope.drop_last(), key) + if source_key(scope.last()) == key { 1nat } else { 0nat }
    }
}

/// An entry after `c` messages of value `v` at `now`.
pub open spec fn entry_after_times(e: Option<((int, int, Seq<char>), int, int, int)>, v: (int, int, Seq<char>), now: int, c: nat) -> Option<((int, int, Seq<char>), int, int, int)>
    decreases c,
{
    if c == 0 {
        e
    } else {
        Some(entry_after(entry_after_times(e, v, now, (c - 1) as nat), v, now))
    }
}

fn same_roll(a: &Table<MetricEntry>, now: u64) -> (r: Table<MetricEntry>)
    requires
        a.wf(),
    ensures
        r.wf(),
        r@.len() == a@.len(),
        forall|p: int| 0 <= p < a@.len() ==> (#[trigger] r@[p]).0 == a@[p].0 && entry_view(r@[p].1) == entry_rolled(entry_view(a@[p].1), now as int),
{
    let mut r: Table<MetricEntry> = Table::new();
    let mut j: usize = 0;
    while j < a.len()
        invariant
            j <= a@.len(),
            a.wf(),
            r.wf(),
            r@.len() == j,
            forall|p: int| 0 <= p < j ==> (#[trigger] r@[p]).0 == a@[p].0 && entry_view(r@[p].1) == entry_rolled(entry_view(a@[p].1), now as int),
        decreases a@.len() - j,
    {
        let (n, e) = a.entry(j);
        let e2 = roll_entry(e, now);
        assert forall|i: int| 0 <= i < r@.len() implies (#[trigger] r@[i]).0 != n@ by {
            assert(a@[i].0 != a@[j as int].0);
        }
        r.push_new(n, e2);
        j = j + 1;
    }
    r
}

impl MetricStore {
    /// Records a message under every source of its scope.
    pub fn apply(&mut self, msg: &MetricMessage, now: u64)
        requires
            old(self).wf(),
        ensures
            final(self).wf(),
            forall|k: Seq<char>, n: Seq<char>| #[trigger] final(self).entry(k, n) == if n == msg.name@ {
                entry_after_times(old(self).entry(k, n), value_view(msg.value), now as int, key_count(msg.scope@, k))
            } else {
                old(self).entry(k, n)
            },
    {
        let mut i: usize = 0;
        assert(msg.scope@.subrange(0, 0) =~= Seq::<MetricSource>::empty());
        while i < msg.scope.len()
            invariant
                i <= msg.scope@.len(),
                self.wf(),
                forall|k: Seq<char>, n: Seq<char>| #[trigger] self.entry(k, n) == if n == msg.name@ {
                    entry_after_times(old(self).entry(k, n), value_view(msg.value), now as int, key_count(msg.scope@.subrange(0, i as int), k))
                } else {
                    old(self).entry(k, n)
                },
            decreases msg.scope@.len() - i,
        {
            let ghost before = *self;
            self.record(&msg.scope[i], msg.name.as_str(), &msg.value, now);
            let ghost pre = msg.scope@.subrange(0, i as int);
            let ghost cur = msg.scope@.subrange(0, i + 1);
            assert(cur.drop_last() =~= pre);
            assert(cur.last() == msg.scope@[i as int]);
            assert forall|k: Seq<char>, n: Seq<char>| #[trigger] self.entry(k, n) == if n == msg.name@ {
                entry_after_times(old(self).entry(k, n), value_view(msg.value), now as int, key_count(cur, k))
            } else {
                old(self).entry(k, n)
            } by {
                assert(before.entry(k, n) == if n == msg.name@ {
                    entry_after_times(old(self).entry(k, n), value_view(msg.value), now as int, key_count(pre, k))
                } else {
                    old(self).entry(k, n)
                });
            }
            i = i + 1;
        }
        assert(msg.scope@.subrange(0, msg.scope@.len() as int) =~= msg.scope@);
    }

    /// The periodic roll-up: every entry is replaced by its rolled form;
    /// see [`entry_rolled`].
    pub fn tick(&mut self, now: u64)
        requires
            old(self).wf(),
        ensures
            final(self).wf(),
            forall|k: Seq<char>, n: Seq<char>| #[trigger] final(self).entry(k, n) == match old(self).entry(k, n) {
                Some(e) => Some(entry_rolled(e, now as int)),
                None => None,
            },
    {
        let mut out: Table<Table<MetricEntry>> = Table::new();
        let mut i: usize = 0;
        let ghost src = self.metrics@;
        while i < self.metrics.len()
            invariant
                i <= src.len(),
                src == self.metrics@,
                self.wf(),
                out.wf(),
                out@.len() == i,
                forall|p: int| 0 <= p < i ==> (#[trigger] out@[p]).0 == src[p].0 && out@[p].1.wf()
                    && out@[p].1@.len() == src[p].1@.len()
                    && forall|q: int| 0 <= q < src[p].1@.len() ==> (#[trigger] out@[p].1@[q]).0 == src[p].1@[q].0
                        && entry_view(out@[p].1@[q].1) == entry_rolled(entry_view(src[p].1@[q].1), now as int),
            decreases src.len() - i,
        {
            let (k, inner) = self.metrics.entry(i);
            proof {
                lemma_same_keys(src, src, k@);
                assert(table_get(src, k@) == Some(src[i as int].1)) by {
                    let c = choose|c: int| 0 <= c < src.len() && (#[trigger] src[c]).0 == k@;
                    assert(c == i as int) by {
                        if c != i as int {
                            assert(src[c].0 == src[i as int].0);
                        }
                    }
                }
                assert(inner_ok(table_get(src, k@)));
            }
            let rolled = same_roll(inner, now);
            assert forall|q: int| 0 <= q < out@.len() implies (#[trigger] out@[q]).0 != k@ by {
                assert(src[q].0 != src[i as int].0);
            }
            out.push_new(k, rolled);
            i = i + 1;
        }
        proof {
            assert forall|k: Seq<char>| inner_ok(#[trigger] table_get(out@, k)) by {
                lemma_same_keys(src, out@, k);
            }
            assert forall|k: Seq<char>, n: Seq<char>| #[trigger] stored(out@, k, n) == match stored(src, k, n) {
                Some(e) => Some(entry_rolled(e, now as int)),
                None => None,
            } by {
                lemma_same_keys(src, out@, k);
                if table_get(src, k) is Some {
                    let p = choose|p: int| 0 <= p < src.len() && src[p].0 == k && table_get(src, k) == Some(src[p].1)
                        && #[trigger] table_get(out@, k) == Some(out@[p].1);
                    let a = src[p].1;
                    let b = out@[p].1;
                    assert(inner_ok(table_get(src, k)));
                    lemma_same_keys(a@, b@, n);
                    if table_get(a@, n) is Some {
                        let q = choose|q: int| 0 <= q < a@.len() && a@[q].0 == n && table_get(a@, n) == Some(a@[q].1)
                            && #[trigger] table_get(b@, n) == Some(b@[q].1);
                        assert(entry_view(b@[q].1) == entry_rolled(entry_view(a@[q].1), now as int));
                    }
                }
            }
        }
        self.metrics = out;
    }

    /// The entry stored for a source and metric name.
    pub fn get(&self, source: &MetricSource, name: &str) -> (r: Option<&MetricEntry>)
        requires
            self.wf(),
        ensures
            match self.entry(source_key(*source), name@) {
                Some(e) => r matches Some(x) && entry_view(*x) == e,
                None => r is None,
            },
    {
        let key = source.key();
        match self.metrics.get(key.as_str()) {
            Some(t) => {
                assert(inner_ok(table_get(self.metrics@, key@)));
                t.get(name)
            },
            None => None,
        }
    }
}

} // verus!
