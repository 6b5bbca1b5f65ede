use gateway::balancer::ClusterBalancer;
use gateway::cluster::{ClusterMemberStatus, LbMethod};
use gateway::health::health_step;
use gateway::cluster::{ClusterMemberConfig, CommonKeepaliveConfig};

fn balancer(method: LbMethod, statuses: &[ClusterMemberStatus]) -> ClusterBalancer {
    let mut b = ClusterBalancer::new(method);
    for (i, s) in statuses.iter().enumerate() {
        b.set_status(&format!("10.0.0.{}:80", i), *s);
    }
    b
}

#[test]
fn round_robin_visits_each_member_once_per_round() {
    let mut b = balancer(
        LbMethod::RoundRobin,
        &[ClusterMemberStatus::Active(0), ClusterMemberStatus::Unavailable, ClusterMemberStatus::Active(0), ClusterMemberStatus::Disabled],
    );
    let picks: Vec<usize> = (0..6).map(|_| b.select().unwrap()).collect();
    assert_eq!(picks, vec![0, 2, 3, 0, 2, 3]);
}

#[test]
fn all_unavailable_gives_no_member() {
    let mut b = balancer(LbMethod::RoundRobin, &[ClusterMemberStatus::Unavailable, ClusterMemberStatus::Unavailable]);
    assert_eq!(b.select(), None);
    let mut b = balancer(LbMethod::LeastConn, &[ClusterMemberStatus::Unavailable]);
    assert_eq!(b.select(), None);
    let mut b = balancer(LbMethod::RoundRobin, &[]);
    assert_eq!(b.select(), None);
}

#[test]
fn least_conn_takes_the_fewest_connections() {
    let mut b = balancer(LbMethod::LeastConn, &[ClusterMemberStatus::Active(0), ClusterMemberStatus::Active(0)]);
    assert_eq!(b.select(), Some(0));
    assert_eq!(b.member(0).1, ClusterMemberStatus::Active(1));
    assert_eq!(b.select(), Some(1));
    assert_eq!(b.select(), Some(0));
    assert_eq!(b.select(), Some(1));
    assert_eq!(b.member(1).1, ClusterMemberStatus::Active(2));
    b.connection_closed("10.0.0.1:80");
    assert_eq!(b.status_of("10.0.0.1:80"), Some(ClusterMemberStatus::Active(1)));
    assert_eq!(b.select(), Some(1));
}

#[test]
fn health_flips_only_after_enough_consecutive_probes() {
    let c = CommonKeepaliveConfig { interval: 10, dead_interval: 3, live_interval: 5 };
    let mut s = (ClusterMemberStatus::Active(0), 0i64);
    for up in [false, false, true, false, false] {
        s = health_step(s.0, s.1, up, &c);
        assert_eq!(s.0, ClusterMemberStatus::Active(0));
    }
    s = health_step(s.0, s.1, false, &c);
    assert_eq!(s, (ClusterMemberStatus::Unavailable, 0));
    for _ in 0..4 {
        s = health_step(s.0, s.1, true, &c);
        assert_eq!(s.0, ClusterMemberStatus::Unavailable);
    }
    s = health_step(s.0, s.1, true, &c);
    assert_eq!(s, (ClusterMemberStatus::Active(0), 0));
    assert_eq!(health_step(ClusterMemberStatus::Disabled, 0, false, &c), (ClusterMemberStatus::Disabled, 0));
}

#[test]
fn dispatch_sees_the_update_that_arrived_before_it() {
    let mut b = balancer(LbMethod::RoundRobin, &[ClusterMemberStatus::Active(0), ClusterMemberStatus::Active(0)]);
    assert_eq!(b.select(), Some(0));
    b.set_status("10.0.0.1:80", ClusterMemberStatus::Unavailable);
    assert_eq!(b.select(), Some(0));
    b.set_status("10.0.0.2:80", ClusterMemberStatus::Active(0));
    assert_eq!(b.member_count(), 3);
    assert_eq!(b.select(), Some(0));
    let next = b.select().unwrap();
    assert_eq!(b.member(next).0, "10.0.0.2:80");
}

#[test]
fn new_member_list_keeps_known_statuses() {
    let mut b = balancer(LbMethod::RoundRobin, &[ClusterMemberStatus::Unavailable, ClusterMemberStatus::Active(3)]);
    let cfg = vec![
        ClusterMemberConfig { address: "10.0.0.9:80".to_string(), status: ClusterMemberStatus::Active(0), weight: 1 },
        ClusterMemberConfig { address: "10.0.0.0:80".to_string(), status: ClusterMemberStatus::Active(0), weight: 1 },
    ];
    let removed = b.resync(LbMethod::LeastConn, &cfg);
    assert_eq!(removed, vec!["10.0.0.1:80".to_string()]);
    assert_eq!(b.member_count(), 2);
    assert_eq!(b.member(0), ("10.0.0.9:80", ClusterMemberStatus::Active(0)));
    assert_eq!(b.member(1), ("10.0.0.0:80", ClusterMemberStatus::Unavailable));
    assert_eq!(b.select(), Some(0));
}
