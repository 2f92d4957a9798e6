use rlb::backend::{Backend, BackendError, BackendPool};
use rlb::balancing::{
    get_balancer, Balancer, BalancingAlgorithm, BalancingError, HashingBalancing,
    LeastTrafficBalancing, LoadBalancing, RandomBalancing, RoundRobinBalancing,
};
use rlb::http::{HeaderMap, HttpMessage, HttpMethod};

#[test]
fn round_robin_test() {
    let mut rr_algo = RoundRobinBalancing::new();
    let mut backends = vec![
        Backend::new(String::from(":5000"), None),
        Backend::new(String::from(":5001"), None),
        Backend::new(String::from(":5002"), None),
        Backend::new(String::from(":5003"), None),
    ];
    let index = rr_algo.next_backend(&backends);
    assert_eq!(index, None);
    for backend in backends.iter_mut() {
        backend.set_online();
    }
    let index = rr_algo.next_backend(&backends).unwrap();
    assert_eq!(index, 1);
    let index = rr_algo.next_backend(&backends).unwrap();
    assert_eq!(index, 2);
    let index = rr_algo.next_backend(&backends).unwrap();
    assert_eq!(index, 3);
    let index = rr_algo.next_backend(&backends).unwrap();
    assert_eq!(index, 0);
}

#[test]
fn least_traffic_test() {
    let mut rr_algo = LeastTrafficBalancing;
    let mut backends = vec![
        Backend::new(String::from(":5000"), None),
        Backend::new(String::from(":5001"), None),
        Backend::new(String::from(":5002"), None),
        Backend::new(String::from(":5003"), None),
    ];
    backends[0].increase_byte_traffic(45);
    backends[1].increase_byte_traffic(40);
    backends[2].increase_byte_traffic(60);
    backends[3].increase_byte_traffic(70);
    let index = rr_algo.next_backend(&backends);
    assert_eq!(index, None);
    for backend in backends.iter_mut() {
        backend.set_online();
    }
    let index = rr_algo.next_backend(&backends).unwrap();
    assert_eq!(index, 1);
}

#[test]
fn hashing_test() {
    let mut headers = HeaderMap::new();
    headers.insert("Host".to_string(), "localhost".to_string());
    let request = HttpMessage::new(HttpMethod::Get("/hello".to_string()), headers);
    let mut rr_algo = HashingBalancing::new(&request);
    let mut backends = vec![
        Backend::new(String::from(":5000"), None),
        Backend::new(String::from(":5001"), None),
        Backend::new(String::from(":5002"), None),
        Backend::new(String::from(":5003"), None),
    ];
    let index = rr_algo.next_backend(&backends);
    assert_eq!(index, None);
    for backend in backends.iter_mut() {
        backend.set_online();
    }
    let index = rr_algo.next_backend(&backends).unwrap();
    assert_eq!(index, 3);
}

#[test]
fn hashing_is_deterministic() {
    let mut headers = HeaderMap::new();
    headers.insert("Host".to_string(), "localhost".to_string());
    let request = HttpMessage::new(HttpMethod::Get("/hello".to_string()), headers);
    let mut first = HashingBalancing::new(&request);
    let mut second = HashingBalancing::new(&request);
    let mut backends = Vec::new();
    for port in [":5000", ":5001", ":5002", ":5003"] {
        let mut b = Backend::new(String::from(port), None);
        b.set_online();
        backends.push(b);
    }
    let a = first.next_backend(&backends);
    let b = second.next_backend(&backends);
    assert_eq!(a, b);
    assert_eq!(first.next_backend(&backends), a);
}

#[test]
fn random_in_range() {
    let mut algo = RandomBalancing::new();
    let mut backends = Vec::new();
    for port in [":5000", ":5001", ":5002"] {
        let mut b = Backend::new(String::from(port), None);
        b.set_online();
        backends.push(b);
    }
    for _ in 0..32 {
        let picked = algo.next_backend(&backends).unwrap();
        assert!(picked < 3);
    }
}

#[test]
fn random_single_backend() {
    let mut algo = RandomBalancing::new();
    let mut b = Backend::new(String::from(":5000"), None);
    b.set_online();
    let backends = vec![b];
    assert_eq!(algo.next_backend(&backends), Some(0));
}

#[test]
fn get_balancer_tags() {
    assert!(matches!(
        get_balancer(&BalancingAlgorithm::round_robin()),
        Ok(Balancer::RoundRobin(_))
    ));
    assert!(matches!(
        get_balancer(&BalancingAlgorithm::random()),
        Ok(Balancer::Random(_))
    ));
    assert!(matches!(
        get_balancer(&BalancingAlgorithm::least_traffic()),
        Ok(Balancer::LeastTraffic(_))
    ));
    assert!(matches!(
        get_balancer(&BalancingAlgorithm::hashing()),
        Err(BalancingError::UnknownAlgorithm)
    ));
}

#[test]
fn pool_least_traffic_selection() {
    let mut backends = Vec::new();
    for (port, traffic) in [(":5000", 45), (":5001", 40), (":5002", 60), (":5003", 70)] {
        let mut b = Backend::new(String::from(port), None);
        b.increase_byte_traffic(traffic);
        b.set_online();
        backends.push(b);
    }
    let mut pool = BackendPool::from_backends_list(backends, Balancer::LeastTraffic(LeastTrafficBalancing));
    assert_eq!(pool.next_backend(), Ok(1));
}

#[test]
fn pool_least_traffic_falls_back_to_alive_minimum() {
    let mut backends = Vec::new();
    for (port, traffic) in [(":5000", 45), (":5001", 40), (":5002", 60), (":5003", 70)] {
        let mut b = Backend::new(String::from(port), None);
        b.increase_byte_traffic(traffic);
        backends.push(b);
    }
    backends[0].set_online();
    backends[2].set_online();
    let mut pool = BackendPool::from_backends_list(backends, Balancer::LeastTraffic(LeastTrafficBalancing));
    // the overall minimum (slot 1) is offline; the alive minimum is slot 0
    assert_eq!(pool.next_backend(), Ok(0));
}

#[test]
fn least_traffic_tie_takes_lowest_index() {
    let mut algo = LeastTrafficBalancing;
    let mut backends = Vec::new();
    for (port, traffic) in [(":5000", 40), (":5001", 40), (":5002", 60)] {
        let mut b = Backend::new(String::from(port), None);
        b.increase_byte_traffic(traffic);
        b.set_online();
        backends.push(b);
    }
    assert_eq!(algo.next_backend(&backends), Some(0));
}

#[test]
fn pool_random_only_picks_alive() {
    let mut backends = Vec::new();
    for port in [":5000", ":5001", ":5002", ":5003"] {
        backends.push(Backend::new(String::from(port), None));
    }
    backends[2].set_online();
    let mut pool = BackendPool::from_backends_list(backends, Balancer::Random(RandomBalancing));
    for _ in 0..16 {
        assert_eq!(pool.next_backend(), Ok(2));
    }
}
