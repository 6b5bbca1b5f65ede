//! The buffer accountant: byte budgets per listener and per cluster, and
//! what has been granted against them.
use vstd::prelude::*;
use crate::table::{Table, table_get, table_set, keys_unique, lemma_get_set};

verus! {

/// A request to the accountant, for a listener or a cluster by name.
#[derive(Clone, Debug)]
pub enum BufferRequest {
    RequestListener(String, usize),
    RequestCluster(String, usize),
    ReleaseListener(String, usize),
    ReleaseCluster(String, usize),
}

/// The budget of `name`; none is 0, which means unlimited.
pub open spec fn budget_of(bs: Seq<(Seq<char>, usize)>, name: Seq<char>) -> int {
    match table_get(bs, name) {
        Some(b) => b as int,
        None => 0,
    }
}

/// Whether a request is granted: always for a name with nothing recorded,
/// otherwise when the new total stays below the budget or the budget is
/// unlimited.
pub open spec fn grants(bs: Seq<(Seq<char>, usize)>, al: Seq<(Seq<char>, usize)>, name: Seq<char>, size: int) -> bool {
    match table_get(al, name) {
        None => true,
        Some(a) => a + size < budget_of(bs, name) || budget_of(bs, name) == 0,
    }
}

/// The allocations after a request: a first request records its size, a
/// request within the budget adds to the total, anything else leaves it.
pub open spec fn after_request(
    bs: Seq<(Seq<char>, usize)>,
    al: Seq<(Seq<char>, usize)>,
    name: Seq<char>,
    size: usize,
) -> Seq<(Seq<char>, usize)> {
    match table_get(al, name) {
        None => table_set(al, name, size),
        Some(a) => if a + size < budget_of(bs, name) {
            table_set(al, name, (a + size) as usize)
        } else {
            al
        },
    }
}

/// The allocations after a release: the total goes down by `size`, not
/// below zero.
pub open spec fn after_release(al: Seq<(Seq<char>, usize)>, name: Seq<char>, size: usize) -> Seq<(Seq<char>, usize)> {
    match table_get(al, name) {
        Some(a) => table_set(al, name, if a < size { 0 } else { (a - size) as usize }),
        None => table_set(al, name, 0),
    }
}

/// The budget a configured size stands for: a negative size is no budget.
pub open spec fn budget_from(size: i64) -> usize {
    if size < 0 || size > usize::MAX {
        0
    } else {
        size as usize
    }
}

fn request(budgets: &Table<usize>, allocated: &mut Table<usize>, name: &str, size: usize) -> (r: bool)
    requires
        budgets.wf(),
        old(allocated).wf(),
    ensures
        final(allocated).wf(),
        r == grants(budgets@, old(allocated)@, name@, size as int),
        final(allocated)@ == after_request(budgets@, old(allocated)@, name@, size),
{
    let budget: usize = match budgets.get(name) {
        Some(b) => *b,
        None => 0,
    };
    match allocated.get(name) {
        None => {
            allocated.set(name, size);
            true
        },
        Some(a) => {
            let a = *a;
            if a as u128 + (size as u128) < budget as u128 {
                allocated.set(name, a + size);
                true
            } else {
                budget == 0
            }
        },
    }
}

fn release(allocated: &mut Table<usize>, name: &str, size: usize)
    requires
        old(allocated).wf(),
    ensures
        final(allocated).wf(),
        final(allocated)@ == after_release(old(allocated)@, name@, size),
{
    let next: usize = match allocated.get(name) {
        Some(a) => if *a < size { 0 } else { *a - size },
        None => 0,
    };
    allocated.set(name, next);
}

/// Budgets and allocations, per listener and per cluster.
pub struct BufferAccountant {
    listener_budgets: Table<usize>,
    cluster_budgets: Table<usize>,
    listener_allocated: Table<usize>,
    cluster_allocated: Table<usize>,
}

impl BufferAccountant {
    pub closed spec fn wf(&self) -> bool {
        &&& self.listener_budgets.wf()
        &&& self.cluster_budgets.wf()
        &&& self.listener_allocated.wf()
        &&& self.cluster_allocated.wf()
    }

    pub closed spec fn listener_budgets(&self) -> Seq<(Seq<char>, usize)> {
        self.listener_budgets@
    }

    pub closed spec fn cluster_budgets(&self) -> Seq<(Seq<char>, usize)> {
        self.cluster_budgets@
    }

    pub closed spec fn listener_allocated(&self) -> Seq<(Seq<char>, usize)> {
        self.listener_allocated@
    }

    pub closed spec fn cluster_allocated(&self) -> Seq<(Seq<char>, usize)> {
        self.cluster_allocated@
    }

    pub fn new() -> (r: Self)
        ensures
            r.wf(),
            r.listener_budgets().len() == 0,
            r.cluster_budgets().len() == 0,
            r.listener_allocated().len() == 0,
            r.cluster_allocated().len() == 0,
    {
        BufferAccountant {
            listener_budgets: Table::new(),
            cluster_budgets: Table::new(),
            listener_allocated: Table::new(),
            cluster_allocated: Table::new(),
        }
    }

    /// Refreshes the budget of a listener from its snapshot.
    pub fn set_listener_budget(&mut self, name: &str, size: i64)
        requires
            old(self).wf(),
        ensures
            final(self).wf(),
            final(self).listener_budgets() == table_set(old(self).listener_budgets(), name@, budget_from(size)),
            final(self).cluster_budgets() == old(self).cluster_budgets(),
            final(self).listener_allocated() == old(self).listener_allocated(),
            final(self).cluster_allocated() == old(self).cluster_allocated(),
    {
        let b: usize = if size < 0 || size as u64 > usize::MAX as u64 { 0 } else { size as usize };
        self.listener_budgets.set(name, b);
    }

    /// Refreshes the budget of a cluster from its snapshot.
    pub fn set_cluster_budget(&mut self, name: &str, size: i64)
        requires
            old(self).wf(),
        ensures
            final(self).wf(),
            final(self).cluster_budgets() == table_set(old(self).cluster_budgets(), name@, budget_from(size)),
            final(self).listener_budgets() == old(self).listener_budgets(),
            final(self).listener_allocated() == old(self).listener_allocated(),
            final(self).cluster_allocated() == old(self).cluster_allocated(),
    {
        let b: usize = if size < 0 || size as u64 > usize::MAX as u64 { 0 } else { size as usize };
        self.cluster_budgets.set(name, b);
    }

    /// Handles a request; the result says whether a pipe is granted, and is
    /// `true` for a release.
    pub fn handle(&mut self, req: &BufferRequest) -> (r: bool)
        requires
            old(self).wf(),
        ensures
            final(self).wf(),
            final(self).listener_budgets() == old(self).listener_budgets(),
            final(self).cluster_budgets() == old(self).cluster_budgets(),
            match req {
                BufferRequest::RequestListener(name, size) => {
                    &&& r == grants(old(self).listener_budgets(), old(self).listener_allocated(), name@, *size as int)
                    &&& final(self).listener_allocated() == after_request(
                        old(self).listener_budgets(),
                        old(self).listener_allocated(),
                        name@,
                        *size,
                    )
                    &&& final(self).cluster_allocated() == old(self).cluster_allocated()
                },
                BufferRequest::RequestCluster(name, size) => {
                    &&& r == grants(old(self).cluster_budgets(), old(self).cluster_allocated(), name@, *size as int)
                    &&& final(self).cluster_allocated() == after_request(
                        old(self).cluster_budgets(),
                        old(self).cluster_allocated(),
                        name@,
                        *size,
                    )
                    &&& final(self).listener_allocated() == old(self).listener_allocated()
                },
                BufferRequest::ReleaseListener(name, size) => {
                    &&& r
                    &&& final(self).listener_allocated() == after_release(old(self).listener_allocated(), name@, *size)
                    &&& final(self).cluster_allocated() == old(self).cluster_allocated()
                },
                BufferRequest::ReleaseCluster(name, size) => {
                    &&& r
                    &&& final(self).cluster_allocated() == after_release(old(self).cluster_allocated(), name@, *size)
                    &&& final(self).listener_allocated() == old(self).listener_allocated()
                },
            },
    {
        match req {
            BufferRequest::RequestListener(name, size) => request(
                &self.listener_budgets,
                &mut self.listener_allocated,
                name.as_str(),
                *size,
            ),
            BufferRequest::RequestCluster(name, size) => request(
                &self.cluster_budgets,
                &mut self.cluster_allocated,
                name.as_str(),
                *size,
            ),
            BufferRequest::ReleaseListener(name, size) => {
                release(&mut self.listener_allocated, name.as_str(), *size);
                true
            },
            BufferRequest::ReleaseCluster(name, size) => {
                release(&mut self.cluster_allocated, name.as_str(), *size);
                true
            },
        }
    }
}

/// With a non-zero budget, requests and releases keep the total granted to
/// a name within the budget, provided it was within before and a first
/// request does not by itself exceed it (a first request is granted
/// whatever its size).
pub proof fn lemma_within_budget(
    bs: Seq<(Seq<char>, usize)>,
    al: Seq<(Seq<char>, usize)>,
    name: Seq<char>,
    size: usize,
)
    requires
        keys_unique(al),
        budget_of(bs, name) > 0,
        match table_get(al, name) {
            Some(a) => a <= budget_of(bs, name),
            None => size <= budget_of(bs, name),
        },
    ensures
        match table_get(after_request(bs, al, name, size), name) {
            Some(a) => a <= budget_of(bs, name),
            None => false,
        },
        match table_get(after_release(al, name, size), name) {
            Some(a) => a <= budget_of(bs, name),
            None => false,
        },
{
    lemma_get_set(al, name, size);
    match table_get(al, name) {
        Some(a) => {
            lemma_get_set(al, name, (a + size) as usize);
            lemma_get_set(al, name, if a < size { 0 } else { (a - size) as usize });
        },
        None => {
            lemma_get_set(al, name, 0usize);
        },
    }
}

} // verus!
