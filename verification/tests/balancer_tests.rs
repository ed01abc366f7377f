use balancer::balancing_algorithm::{BalancingAlgorithm, ConversionError};
use balancer::dispatch::{
    apply_algo_request, change_algo_decision, compose_target_uri, create_load_balancer,
    route_request, DispatchRoute,
};
use balancer::load_balancer::LoadBalancer;
use balancer::server::Server;

fn pool(counts: &[usize]) -> LoadBalancer {
    let mut servers = Vec::new();
    for (i, c) in counts.iter().enumerate() {
        let mut s = Server::new(format!("127.0.0.1:{}", 3000 + i)).unwrap();
        for _ in 0..*c {
            s.increment_connections();
        }
        servers.push(s);
    }
    LoadBalancer::new_at(servers, 0).unwrap()
}

#[test]
fn algorithm_names_round_trip() {
    assert_eq!(
        BalancingAlgorithm::try_from("round_robin").unwrap(),
        BalancingAlgorithm::RoundRobin
    );
    assert_eq!(
        BalancingAlgorithm::try_from("least_connections").unwrap(),
        BalancingAlgorithm::LeastConnections
    );
    assert!(BalancingAlgorithm::try_from("bogus").is_err());
    assert!(BalancingAlgorithm::try_from("").is_err());
    assert_eq!(BalancingAlgorithm::RoundRobin.name(), "round_robin");
    assert_eq!(BalancingAlgorithm::LeastConnections.name(), "least_connections");
    assert_eq!(ConversionError.message(), "Invalid balancing algorithm");
}

#[test]
fn server_rejects_bad_addresses() {
    let e = Server::new(String::new()).unwrap_err();
    assert_eq!(e, "Address cannot be empty");
    let e = Server::new("not-an-address".to_string()).unwrap_err();
    assert_eq!(e, "Invalid address: not-an-address");
    let s = Server::new("127.0.0.1:3000".to_string()).unwrap();
    assert_eq!(s.get_address(), "127.0.0.1:3000");
    assert_eq!(s.get_connections(), 0);
}

#[test]
fn server_counter_is_guarded() {
    let mut s = Server::new("127.0.0.1:3000".to_string()).unwrap();
    s.decrement_connections();
    assert_eq!(s.get_connections(), 0);
    s.increment_connections();
    s.increment_connections();
    assert_eq!(s.get_connections(), 2);
    s.decrement_connections();
    assert_eq!(s.get_connections(), 1);
}

#[test]
fn empty_pool_is_rejected() {
    let e = LoadBalancer::new_at(Vec::new(), 0).unwrap_err();
    assert_eq!(e, "At least one server is required");
}

#[test]
fn round_robin_cycles_through_backends() {
    // Six serial picks with three backends, each released on completion:
    // the picks walk the pool in order twice and the counters end at zero.
    let mut lb = pool(&[0, 0, 0]);
    let mut picked = Vec::new();
    for _ in 0..6 {
        let i = lb.next_server_at(0);
        picked.push(i);
        let addr = lb.address_of(i);
        lb.release_connection(&addr);
    }
    assert_eq!(picked, vec![0, 1, 2, 0, 1, 2]);
    for i in 0..3 {
        assert_eq!(lb.connections_of(i), 0);
    }
}

#[test]
fn least_connections_avoids_the_loaded_backend() {
    // Backend 0 starts with five in flight; the next five picks go only
    // to backends 1 and 2.
    let mut lb = pool(&[5, 0, 0]);
    lb.set_algorithm(BalancingAlgorithm::LeastConnections);
    let mut picked = Vec::new();
    for _ in 0..5 {
        picked.push(lb.next_server_at(0));
    }
    assert_eq!(picked, vec![1, 2, 1, 2, 1]);
    assert!(picked.iter().all(|&i| i != 0));
    assert_eq!(lb.connections_of(0), 5);
}

#[test]
fn least_connections_breaks_ties_by_pool_order() {
    let mut lb = pool(&[1, 0, 0]);
    lb.set_algorithm(BalancingAlgorithm::LeastConnections);
    assert_eq!(lb.next_server_at(0), 1);
}

#[test]
fn supervisor_switches_after_cooldown() {
    // A counter spread above three under round-robin makes the
    // supervisor switch to least-connections, but only once five
    // seconds have passed.
    let mut servers = Vec::new();
    for (i, c) in [5usize, 0, 0].iter().enumerate() {
        let mut s = Server::new(format!("127.0.0.1:{}", 3000 + i)).unwrap();
        for _ in 0..*c {
            s.increment_connections();
        }
        servers.push(s);
    }
    let mut lb = LoadBalancer::new_at(servers, 1000).unwrap();
    // Within the cooldown the algorithm stays put and the cursor rules.
    let i = lb.next_server_at(5999);
    assert_eq!(i, 0);
    assert_eq!(lb.algorithm(), BalancingAlgorithm::RoundRobin);
    // Past the cooldown the spread (6 - 0 > 3) forces the switch.
    let i = lb.next_server_at(6000);
    assert_eq!(lb.algorithm(), BalancingAlgorithm::LeastConnections);
    assert_eq!(i, 1);
}

#[test]
fn supervisor_returns_to_round_robin_when_load_equalizes() {
    // Under least-connections, the cursor resting on the least-loaded
    // backend is the signal to go back to round-robin.
    let mut lb = pool(&[0, 0, 0]);
    lb.set_algorithm(BalancingAlgorithm::LeastConnections);
    let i = lb.next_server_at(0);
    assert_eq!(i, 0);
    let addr = lb.address_of(0);
    lb.release_connection(&addr);
    // Cursor is 0, backend 0 is least loaded: past the cooldown the
    // supervisor recommends round-robin and applies it.
    lb.next_server_at(6000);
    assert_eq!(lb.algorithm(), BalancingAlgorithm::RoundRobin);
}

#[test]
fn algo_change_accepts_known_names() {
    let mut lb = pool(&[0, 0, 0]);
    let (status, message) = apply_algo_request(&mut lb, "{\"algo\":\"least_connections\"}");
    assert_eq!(status, 200);
    assert_eq!(message, "Algorithm changed successfully to least_connections");
    assert_eq!(lb.algorithm(), BalancingAlgorithm::LeastConnections);
}

#[test]
fn algo_change_rejects_unknown_names() {
    let mut lb = pool(&[0, 0, 0]);
    let (status, message) = apply_algo_request(&mut lb, "{\"algo\":\"bogus\"}");
    assert_eq!(status, 400);
    assert_eq!(message, "Invalid algorithm value 'bogus'");
    assert_eq!(lb.algorithm(), BalancingAlgorithm::RoundRobin);
    // The next picks still use the previous algorithm.
    assert_eq!(lb.next_server_at(0), 0);
    assert_eq!(lb.next_server_at(0), 1);
}

#[test]
fn algo_change_rejects_missing_or_malformed_key() {
    let mut lb = pool(&[0, 0, 0]);
    let (status, message) = apply_algo_request(&mut lb, "{}");
    assert_eq!(status, 400);
    assert_eq!(message, "Missing or invalid 'algo' key");
    let (status, message) = apply_algo_request(&mut lb, "not json at all");
    assert_eq!(status, 400);
    assert_eq!(message, "Missing or invalid 'algo' key");
    let (status, _) = apply_algo_request(&mut lb, "{\"algo\": 7}");
    assert_eq!(status, 400);
}

#[test]
fn algo_decision_without_pool() {
    let d = change_algo_decision(Some("round_robin"));
    assert_eq!(d.status, 200);
    assert_eq!(d.message, "Algorithm changed successfully to round_robin");
    let d = change_algo_decision(None);
    assert_eq!(d.status, 400);
}

#[test]
fn release_by_address_matches_exactly() {
    let mut lb = pool(&[2, 1, 0]);
    lb.release_connection("127.0.0.1:3001");
    assert_eq!(lb.connections_of(1), 0);
    // Unknown address: no-op.
    lb.release_connection("127.0.0.1:9999");
    assert_eq!(lb.connections_of(0), 2);
    // Case-sensitive exact match only.
    lb.release_connection("127.0.0.1:3000 ");
    assert_eq!(lb.connections_of(0), 2);
    // Release at zero stays at zero.
    lb.release_connection("127.0.0.1:3002");
    assert_eq!(lb.connections_of(2), 0);
}

#[test]
fn get_server_by_address_finds_first_match() {
    let lb = pool(&[0, 0, 0]);
    assert_eq!(lb.get_server_by_address("127.0.0.1:3002"), Some(2));
    assert_eq!(lb.get_server_by_address("127.0.0.1:4000"), None);
}

#[test]
fn fixed_fleet_comes_up() {
    let lb = create_load_balancer().unwrap();
    assert_eq!(lb.server_count(), 3);
    assert_eq!(lb.address_of(0), "127.0.0.1:3000");
    assert_eq!(lb.address_of(1), "127.0.0.1:3001");
    assert_eq!(lb.address_of(2), "127.0.0.1:3002");
    assert_eq!(lb.algorithm(), BalancingAlgorithm::RoundRobin);
    assert!(lb.can_pick());
}

#[test]
fn dispatcher_routes_only_post_algo_inward() {
    assert_eq!(route_request("POST", "/algo"), DispatchRoute::ChangeAlgo);
    assert_eq!(route_request("GET", "/algo"), DispatchRoute::Forward);
    assert_eq!(route_request("POST", "/work"), DispatchRoute::Forward);
    assert_eq!(route_request("GET", "/health"), DispatchRoute::Forward);
}

#[test]
fn target_uri_composition() {
    assert_eq!(
        compose_target_uri("127.0.0.1:3000", Some("/work?x=1")),
        "http://127.0.0.1:3000/work?x=1"
    );
    assert_eq!(compose_target_uri("127.0.0.1:3000", None), "http://127.0.0.1:3000/");
}
