//! Health-check hysteresis: a member changes state only after enough
//! consecutive probes that contradict it.
use vstd::prelude::*;
use crate::cluster::{ClusterMemberStatus, CommonKeepaliveConfig};

verus! {

/// Whether a probe result contradicts a status: a failed probe contradicts
/// `Active`, a successful one contradicts `Unavailable`.
pub open spec fn contradicts(status: ClusterMemberStatus, up: bool) -> bool {
    match status {
        ClusterMemberStatus::Active(_) => !up,
        ClusterMemberStatus::Unavailable => up,
        ClusterMemberStatus::Disabled => false,
    }
}

/// The number of contrary probes that flips `status`.
pub open spec fn threshold(status: ClusterMemberStatus, c: CommonKeepaliveConfig) -> int {
    match status {
        ClusterMemberStatus::Unavailable => c.live_interval as int,
        _ => c.dead_interval as int,
    }
}

/// The status and counter after one probe.  A contrary probe counts; when
/// the count reaches the threshold the status flips (`Active(0)` or
/// `Unavailable`) and the count restarts; any other probe restarts it.
pub open spec fn health_next(
    status: ClusterMemberStatus,
    counter: int,
    up: bool,
    c: CommonKeepaliveConfig,
) -> (ClusterMemberStatus, int) {
    if contradicts(status, up) {
        let n = if counter < i64::MAX { counter + 1 } else { counter };
        if n >= threshold(status, c) {
            (
                if up {
                    ClusterMemberStatus::Active(0)
                } else {
                    ClusterMemberStatus::Unavailable
                },
                0,
            )
        } else {
            (status, n)
        }
    } else {
        (status, 0)
    }
}

/// Applies one probe result to a member's status and counter.
pub fn health_step(
    status: ClusterMemberStatus,
    counter: i64,
    probe_up: bool,
    config: &CommonKeepaliveConfig,
) -> (r: (ClusterMemberStatus, i64))
    requires
        counter >= 0,
    ensures
        r.0 == health_next(status, counter as int, probe_up, *config).0,
        r.1 as int == health_next(status, counter as int, probe_up, *config).1,
        r.1 >= 0,
{
    let contrary = match status {
        ClusterMemberStatus::Active(_) => !probe_up,
        ClusterMemberStatus::Unavailable => probe_up,
        ClusterMemberStatus::Disabled => false,
    };
    if !contrary {
        return (status, 0);
    }
    let n = if counter < i64::MAX { counter + 1 } else { counter };
    let limit = match status {
        ClusterMemberStatus::Unavailable => config.live_interval,
        _ => config.dead_interval,
    };
    if n >= limit {
        if probe_up {
            (ClusterMemberStatus::Active(0), 0)
        } else {
            (ClusterMemberStatus::Unavailable, 0)
        }
    } else {
        (status, n)
    }
}

/// The status and counter after a run of probes.
pub open spec fn health_run(
    status: ClusterMemberStatus,
    counter: int,
    probes: Seq<bool>,
    c: CommonKeepaliveConfig,
) -> (ClusterMemberStatus, int)
    decreases probes.len(),
{
    if probes.len() == 0 {
        (status, counter)
    } else {
        let (s, n) = health_run(status, counter, probes.drop_last(), c);
        health_next(s, n, probes.last(), c)
    }
}

/// The number of probes at the end of `probes` that equal `up`.
pub open spec fn trailing(probes: Seq<bool>, up: bool) -> nat
    decreases probes.len(),
{
    if probes.len() == 0 || probes.last() != up {
        0
    } else {
        1 + trailing(probes.drop_last(), up)
    }
}

proof fn lemma_counter_bounded(status: ClusterMemberStatus, probes: Seq<bool>, c: CommonKeepaliveConfig)
    ensures
        ({
            let (s, n) = health_run(status, 0, probes, c);
            &&& 0 <= n
            &&& s is Disabled ==> n == 0
            &&& n > 0 ==> n <= trailing(probes, !(s is Active))
        }),
    decreases probes.len(),
{
    if probes.len() > 0 {
        lemma_counter_bounded(status, probes.drop_last(), c);
    }
}

/// A member starting afresh flips only at a probe that ends a run of at
/// least as many consecutive contrary probes as the threshold of the status
/// it leaves: `dead_interval` failures to leave `Active`, `live_interval`
/// successes to leave `Unavailable`.
pub proof fn lemma_no_early_flip(status: ClusterMemberStatus, probes: Seq<bool>, c: CommonKeepaliveConfig)
    requires
        probes.len() > 0,
    ensures
        ({
            let (before, _) = health_run(status, 0, probes.drop_last(), c);
            let (after, _) = health_run(status, 0, probes, c);
            after != before ==> trailing(probes, !(before is Active)) >= threshold(before, c)
                && contradicts(before, probes.last())
        }),
{
    lemma_counter_bounded(status, probes.drop_last(), c);
    let (before, n) = health_run(status, 0, probes.drop_last(), c);
    let up = probes.last();
    if contradicts(before, up) {
        assert(trailing(probes, !(before is Active)) == 1 + trailing(probes.drop_last(), !(before is Active)));
    }
}

} // verus!
