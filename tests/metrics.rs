use gateway::metrics::{MetricMessage, MetricSource, MetricStore, MetricValue};

fn rate(store: &MetricStore, src: &MetricSource, name: &str) -> i64 {
    match &store.get(src, name).unwrap().metric {
        MetricValue::Rate(r) => *r,
        _ => panic!("not a rate"),
    }
}

#[test]
fn rate_rolls_up_over_the_window() {
    let mut m = MetricStore::new();
    let src = MetricSource::Listener("web".to_string());
    for t in [1u64, 5, 9] {
        m.apply(&MetricMessage { scope: vec![src.clone()], name: "requests".to_string(), value: MetricValue::Rate(10) }, t);
    }
    assert_eq!(m.get(&src, "requests").unwrap().current_value, 30);
    m.tick(31);
    assert_eq!(rate(&m, &src, "requests"), 1);
    assert_eq!(m.get(&src, "requests").unwrap().current_value, 0);
    assert_eq!(m.get(&src, "requests").unwrap().last_value, 30);
}

#[test]
fn counters_add_and_gauges_replace() {
    let mut m = MetricStore::new();
    let a = MetricSource::Cluster("c1".to_string());
    let b = MetricSource::ClusterMember("127.0.0.1:9001".to_string());
    m.apply(&MetricMessage { scope: vec![a.clone(), b.clone()], name: "n".to_string(), value: MetricValue::Counter(2) }, 1);
    m.apply(&MetricMessage { scope: vec![a.clone()], name: "n".to_string(), value: MetricValue::Counter(3) }, 2);
    match m.get(&a, "n").unwrap().metric {
        MetricValue::Counter(c) => assert_eq!(c, 5),
        _ => panic!("not a counter"),
    }
    match m.get(&b, "n").unwrap().metric {
        MetricValue::Counter(c) => assert_eq!(c, 2),
        _ => panic!("not a counter"),
    }
    m.apply(&MetricMessage { scope: vec![b.clone()], name: "rtt".to_string(), value: MetricValue::Gauge(7) }, 3);
    m.apply(&MetricMessage { scope: vec![b.clone()], name: "rtt".to_string(), value: MetricValue::Gauge(4) }, 4);
    match m.get(&b, "rtt").unwrap().metric {
        MetricValue::Gauge(g) => assert_eq!(g, 4),
        _ => panic!("not a gauge"),
    }
    assert!(m.get(&MetricSource::Route("r".to_string()), "n").is_none());
}
