use load_balancer::handler::{Route, NO_BACKEND_RESPONSE};
use load_balancer::load_balancer::{LoadBalancer, Server};

fn backend(name: &str, port: u16) -> Server {
    Server::new(
        name.to_string(),
        format!("127.0.0.1:{}", port),
        format!("127.0.0.1:{}", port + 1000),
    )
}

fn pool(n: u16) -> LoadBalancer {
    let servers: Vec<Server> = (0..n).map(|i| backend(&format!("s{}", i), 9000 + i)).collect();
    LoadBalancer::new(servers)
}

fn mark(lb: &mut LoadBalancer, port: u16, healthy: bool) {
    lb.update_health(&format!("127.0.0.1:{}", port), healthy);
}

fn pick(lb: &mut LoadBalancer) -> Option<String> {
    lb.choose_server().map(|s| s.id)
}

#[test]
fn new_backend_starts_unhealthy() {
    let s = backend("a", 9000);
    assert_eq!(s.id, "a");
    assert_eq!(s.url, "127.0.0.1:9000");
    assert_eq!(s.health_check_url, "127.0.0.1:10000");
    assert!(!s.healthy);
}

#[test]
fn empty_pool_selects_nothing() {
    let mut lb = LoadBalancer::new(Vec::new());
    assert!(lb.choose_server().is_none());
    assert!(matches!(lb.handle(), Route::NoBackend));
}

#[test]
fn unprobed_pool_selects_nothing() {
    let mut lb = pool(3);
    assert_eq!(pick(&mut lb), None);
}

#[test]
fn selection_returns_a_healthy_backend() {
    let mut lb = pool(4);
    mark(&mut lb, 9002, true);
    for _ in 0..10 {
        let s = lb.choose_server().expect("a healthy backend exists");
        assert!(s.healthy);
        assert_eq!(s.id, "s2");
    }
}

#[test]
fn round_robin_visits_each_backend_once() {
    let mut lb = pool(3);
    for p in 9000..9003 {
        mark(&mut lb, p, true);
    }
    let got: Vec<Option<String>> = (0..3).map(|_| pick(&mut lb)).collect();
    assert_eq!(
        got,
        vec![Some("s0".to_string()), Some("s1".to_string()), Some("s2".to_string())]
    );
    // the next round starts after the last one returned
    assert_eq!(pick(&mut lb), Some("s0".to_string()));
    assert_eq!(pick(&mut lb), Some("s1".to_string()));
}

#[test]
fn unhealthy_backend_is_skipped_until_healthy_again() {
    let mut lb = pool(3);
    for p in 9000..9003 {
        mark(&mut lb, p, true);
    }
    assert_eq!(pick(&mut lb), Some("s0".to_string()));
    mark(&mut lb, 9001, false);
    for _ in 0..6 {
        assert_ne!(pick(&mut lb), Some("s1".to_string()));
    }
    mark(&mut lb, 9001, true);
    let got: Vec<Option<String>> = (0..3).map(|_| pick(&mut lb)).collect();
    assert!(got.contains(&Some("s1".to_string())));
}

#[test]
fn skip_advances_the_cursor_past_failed_attempts() {
    let mut lb = pool(3);
    mark(&mut lb, 9000, true);
    mark(&mut lb, 9002, true);
    assert_eq!(pick(&mut lb), Some("s0".to_string()));
    assert_eq!(pick(&mut lb), Some("s2".to_string()));
    assert_eq!(pick(&mut lb), Some("s0".to_string()));
}

#[test]
fn unknown_address_changes_nothing() {
    let mut lb = pool(2);
    mark(&mut lb, 9000, true);
    lb.update_health(&"10.0.0.1:1".to_string(), true);
    let flags: Vec<bool> = lb.servers().iter().map(|s| s.healthy).collect();
    assert_eq!(flags, vec![true, false]);
}

#[test]
fn update_health_is_idempotent() {
    let mut lb = pool(2);
    mark(&mut lb, 9001, true);
    mark(&mut lb, 9001, true);
    let flags: Vec<bool> = lb.servers().iter().map(|s| s.healthy).collect();
    assert_eq!(flags, vec![false, true]);
}

#[test]
fn merge_last_outcome_for_an_address_wins() {
    let mut lb = pool(2);
    let outcomes = vec![
        ("127.0.0.1:9000".to_string(), true),
        ("127.0.0.1:9001".to_string(), true),
        ("127.0.0.1:9000".to_string(), false),
    ];
    lb.apply_outcomes(&outcomes);
    let flags: Vec<bool> = lb.servers().iter().map(|s| s.healthy).collect();
    assert_eq!(flags, vec![false, true]);
}

#[test]
fn merged_cycle_never_selects_failed_backend() {
    let mut lb = pool(3);
    let outcomes = vec![
        ("127.0.0.1:9000".to_string(), true),
        ("127.0.0.1:9001".to_string(), false),
        ("127.0.0.1:9002".to_string(), true),
    ];
    lb.apply_outcomes(&outcomes);
    let got: Vec<Option<String>> = (0..3).map(|_| pick(&mut lb)).collect();
    assert!(got.contains(&Some("s0".to_string())));
    assert!(got.contains(&Some("s2".to_string())));
    for _ in 0..9 {
        assert_ne!(pick(&mut lb), Some("s1".to_string()));
    }
}

#[test]
fn no_healthy_backend_routes_to_bad_gateway() {
    let mut lb = pool(2);
    assert!(matches!(lb.handle(), Route::NoBackend));
    assert_eq!(
        NO_BACKEND_RESPONSE,
        "HTTP/1.1 502 Bad Gateway\r\nContent-Length: 0\r\nConnection: close\r\n\r\n"
    );
}

#[test]
fn healthy_backend_routes_to_forward() {
    let mut lb = pool(2);
    mark(&mut lb, 9001, true);
    match lb.handle() {
        Route::Forward(s) => assert_eq!(s.url, "127.0.0.1:9001"),
        Route::NoBackend => panic!("expected a backend"),
    }
}
