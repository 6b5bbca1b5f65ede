use gateway::accountant::{BufferAccountant, BufferRequest};

#[test]
fn grants_stay_below_the_budget() {
    let mut a = BufferAccountant::new();
    a.set_listener_budget("l1", 100);
    assert!(a.handle(&BufferRequest::RequestListener("l1".to_string(), 40)));
    assert!(a.handle(&BufferRequest::RequestListener("l1".to_string(), 40)));
    assert!(!a.handle(&BufferRequest::RequestListener("l1".to_string(), 20)));
    assert!(a.handle(&BufferRequest::ReleaseListener("l1".to_string(), 50)));
    assert!(a.handle(&BufferRequest::RequestListener("l1".to_string(), 20)));
}

#[test]
fn zero_budget_is_unlimited() {
    let mut a = BufferAccountant::new();
    for _ in 0..10 {
        assert!(a.handle(&BufferRequest::RequestCluster("c1".to_string(), 1 << 30)));
    }
    a.set_listener_budget("l2", -5);
    assert!(a.handle(&BufferRequest::RequestListener("l2".to_string(), 10)));
    assert!(a.handle(&BufferRequest::RequestListener("l2".to_string(), 10)));
}

#[test]
fn release_saturates_at_zero() {
    let mut a = BufferAccountant::new();
    a.set_cluster_budget("c", 10);
    assert!(a.handle(&BufferRequest::RequestCluster("c".to_string(), 5)));
    assert!(a.handle(&BufferRequest::ReleaseCluster("c".to_string(), 50)));
    assert!(a.handle(&BufferRequest::RequestCluster("c".to_string(), 9)));
    assert!(!a.handle(&BufferRequest::RequestCluster("c".to_string(), 1)));
}
