use gateway::cluster::{ClusterConfig, ClusterMemberStatus, ClusterTlsConfig, Keepalive, LbMethod};
use gateway::config::Node;
use gateway::head::{parse_request_head, HeadParse, RequestHead};
use gateway::listener::{ActionConfig, ListenerConfig, ListenerProtocolConfig};
use gateway::message::{backend_sni, select_protocol};
use gateway::routing::{first_action, route};

fn s(x: &str) -> Node {
    Node::Str(x.to_string())
}

fn map(es: Vec<(&str, Node)>) -> Node {
    Node::Hash(es.into_iter().map(|(k, v)| (s(k), v)).collect())
}

fn listener_node() -> Node {
    map(vec![
        ("name", s("web")),
        ("listen", s("127.0.0.1:8080")),
        (
            "protocols",
            Node::List(vec![map(vec![
                ("name", s("http1")),
                ("engine", s("http")),
                (
                    "virtual_hosts",
                    Node::List(vec![map(vec![
                        ("name", s("example")),
                        ("host_names", Node::List(vec![s(".*\\.example\\.com")])),
                        (
                            "routes",
                            Node::List(vec![map(vec![
                                ("name", s("api")),
                                (
                                    "path_matches",
                                    Node::List(vec![map(vec![("name", s("p")), ("path_prefix", Node::List(vec![s("/api")]))])]),
                                ),
                                ("actions", Node::List(vec![map(vec![("backend", s("c1"))])])),
                            ])]),
                        ),
                    ])]),
                ),
            ])]),
        ),
    ])
}

fn head(raw: &[u8]) -> RequestHead {
    match parse_request_head(raw) {
        HeadParse::Complete(h, _) => h,
        _ => panic!("head not parsed"),
    }
}

#[test]
fn happy_path_routes_to_the_backend() {
    let l = ListenerConfig::new(&listener_node()).unwrap();
    assert_eq!(l.name, "web");
    assert_eq!(l.buffer, 1048578);
    let p = match &l.protocols[0] {
        ListenerProtocolConfig::HTTPListener(p) => p,
        _ => panic!("not http"),
    };
    assert_eq!(select_protocol(&l.protocols, false, None), Some(0));
    let h = head(b"GET /api/x?a=1 HTTP/1.1\r\nHost: a.example.com\r\n\r\n");
    let (v, r) = route(&h, p).unwrap();
    assert_eq!((v, r), (0, 0));
    match first_action(&p.virtual_hosts[v].routes[r]) {
        Some(ActionConfig::Backend(b)) => assert_eq!(b, "c1"),
        _ => panic!("no backend"),
    }
}

#[test]
fn unmatched_path_or_host_finds_no_route() {
    let l = ListenerConfig::new(&listener_node()).unwrap();
    let p = match &l.protocols[0] {
        ListenerProtocolConfig::HTTPListener(p) => p,
        _ => panic!("not http"),
    };
    assert_eq!(route(&head(b"GET / HTTP/1.1\r\nHost: a.example.com\r\n\r\n"), p), None);
    assert_eq!(route(&head(b"GET /api HTTP/1.1\r\nHost: other.org\r\n\r\n"), p), None);
    assert_eq!(route(&head(b"GET /api HTTP/1.1\r\n\r\n"), p), None);
    assert_eq!(route(&head(b"GET /api HTTP/1.1\r\nHOST: B.EXAMPLE.COM\r\n\r\n"), p), Some((0, 0)));
}

#[test]
fn tls_protocol_needs_a_matching_server_name() {
    let l = ListenerConfig::new(&listener_node()).unwrap();
    assert_eq!(select_protocol(&l.protocols, true, Some("a.example.com")), None);
    assert_eq!(select_protocol(&l.protocols, true, None), None);
}

#[test]
fn broken_records_are_rejected() {
    assert!(ListenerConfig::new(&map(vec![("name", s("x"))])).is_none());
    let bad_regex = map(vec![
        ("name", s("r")),
        ("path_matches", Node::List(vec![map(vec![("name", s("p")), ("path_regex", Node::List(vec![s("(")]))])])),
    ]);
    assert!(gateway::listener::RouteConfig::new(&bad_regex).is_none());
}

#[test]
fn cluster_snapshot_is_read() {
    let n = map(vec![
        ("name", s("c1")),
        ("lb_method", s("leastconn")),
        ("tls", map(vec![("name", s("t")), ("sni", s("backend.local"))])),
        (
            "keepalive",
            map(vec![
                ("common", map(vec![("config", map(vec![("interval", Node::Int(2)), ("dead_interval", Node::Int(4))]))])),
                ("tcp", map(vec![("config", map(vec![]))])),
            ]),
        ),
        (
            "members",
            Node::List(vec![
                map(vec![("socket_address", s("127.0.0.1:9001")), ("status", s("active"))]),
                map(vec![("socket_address", s("127.0.0.1:9002")), ("status", s("disabled")), ("weight", Node::Int(3))]),
                s("ignored"),
            ]),
        ),
    ]);
    let c = ClusterConfig::new(&n).unwrap();
    assert_eq!(c.lb_method, LbMethod::LeastConn);
    assert_eq!(c.buffer, 1048578);
    assert_eq!(c.tls, ClusterTlsConfig::Sni("backend.local".to_string(), "t".to_string()));
    match c.keepalive {
        Some(Keepalive::TcpKeepalive(k)) => {
            assert_eq!(k.common_config.interval, 2);
            assert_eq!(k.common_config.dead_interval, 4);
            assert_eq!(k.common_config.live_interval, 5);
        }
        _ => panic!("no keepalive"),
    }
    assert_eq!(c.members.len(), 2);
    assert_eq!(c.members[0].status, ClusterMemberStatus::Active(0));
    assert_eq!(c.members[1].weight, 3);
    assert_eq!(backend_sni(&c.tls, "client.example"), Some("backend.local".to_string()));
    assert_eq!(backend_sni(&ClusterTlsConfig::TransparentSni("t".into()), "client.example"), Some("client.example".to_string()));
    let bad = map(vec![("name", s("c2")), ("members", Node::List(vec![map(vec![("socket_address", s("x:1")), ("status", s("odd"))])]))]);
    assert!(ClusterConfig::new(&bad).is_none());
}

#[test]
fn later_records_with_a_taken_name_are_refused() {
    let names: Vec<String> = ["a", "b", "a", "c", "b"].iter().map(|s| s.to_string()).collect();
    assert_eq!(gateway::config::first_of_each_name(&names), vec![true, true, false, true, false]);
}
