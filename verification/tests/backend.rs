use rlb::backend::{Backend, BackendError, BackendPool};
use rlb::balancing::{Balancer, RoundRobinBalancing};

#[test]
fn backend_new_test() {
    let backend = Backend::new(String::from(":5000"), Some(String::from("/health")));
    assert_eq!(backend.alive, false);
    assert_eq!(backend.byte_traffic(), 0);
    assert_eq!(backend.health_endpoint(), &Some("/health".to_string()));
}

#[test]
fn backend_pool_len() {
    let mut pool = BackendPool::new(Balancer::RoundRobin(RoundRobinBalancing::new()));
    assert_eq!(pool.len(), 0);
    pool.push(Backend::new(String::from(":5000"), None));
    assert_eq!(pool.len(), 1);
}

#[test]
fn backend_pool_from_list() {
    let pool = BackendPool::from_backends_list(
        vec![
            Backend::new(String::from(":5000"), None),
            Backend::new(String::from(":5001"), None),
        ],
        Balancer::RoundRobin(RoundRobinBalancing::new()),
    );
    assert_eq!(pool.len(), 2);
}

#[test]
fn backend_pool_next_backend_round_robin() {
    let mut pool = BackendPool::from_backends_list(
        vec![
            Backend::new(String::from(":5000"), None),
            Backend::new(String::from(":5001"), None),
        ],
        Balancer::RoundRobin(RoundRobinBalancing::new()),
    );
    let index = pool.next_backend();
    assert_eq!(index, Err(BackendError::NoBackendAlive));
    pool.get_mut(1).set_online();
    let index = pool.next_backend();
    assert_eq!(index, Ok(1));
}

#[test]
fn backend_traffic_accumulates() {
    let mut backend = Backend::new(String::from(":5000"), None);
    backend.increase_byte_traffic(40);
    assert_eq!(backend.byte_traffic(), 40);
    backend.increase_byte_traffic(5);
    assert_eq!(backend.byte_traffic(), 45);
    backend.increase_byte_traffic(0);
    assert_eq!(backend.byte_traffic(), 45);
}

#[test]
fn backend_liveness_flag() {
    let mut backend = Backend::new(String::from(":5000"), None);
    assert!(!backend.alive);
    backend.set_online();
    assert!(backend.alive);
    backend.set_offline();
    assert!(!backend.alive);
}

#[test]
fn backend_pool_round_robin_cycle() {
    let mut backends = Vec::new();
    for port in [":5000", ":5001", ":5002", ":5003"] {
        let mut b = Backend::new(String::from(port), None);
        b.set_online();
        backends.push(b);
    }
    let mut pool = BackendPool::from_backends_list(
        backends,
        Balancer::RoundRobin(RoundRobinBalancing::new()),
    );
    assert_eq!(pool.next_backend(), Ok(1));
    assert_eq!(pool.next_backend(), Ok(2));
    assert_eq!(pool.next_backend(), Ok(3));
    assert_eq!(pool.next_backend(), Ok(0));
    // a second full cycle returns every index exactly once more
    let mut seen = [0usize; 4];
    for _ in 0..4 {
        let i = pool.next_backend().unwrap();
        seen[i] += 1;
    }
    assert_eq!(seen, [1, 1, 1, 1]);
}

#[test]
fn backend_pool_all_offline() {
    let mut pool = BackendPool::from_backends_list(
        vec![
            Backend::new(String::from(":5000"), None),
            Backend::new(String::from(":5001"), None),
            Backend::new(String::from(":5002"), None),
            Backend::new(String::from(":5003"), None),
        ],
        Balancer::RoundRobin(RoundRobinBalancing::new()),
    );
    assert_eq!(pool.next_backend(), Err(BackendError::NoBackendAlive));
}

#[test]
fn backend_pool_round_robin_skips_offline() {
    let mut backends = Vec::new();
    for port in [":5000", ":5001", ":5002"] {
        backends.push(Backend::new(String::from(port), None));
    }
    let mut pool = BackendPool::from_backends_list(
        backends,
        Balancer::RoundRobin(RoundRobinBalancing::new()),
    );
    pool.get_mut(2).set_online();
    // slots 1 and 2 are tried in turn; only 2 is alive
    assert_eq!(pool.next_backend(), Ok(2));
    assert_eq!(pool.next_backend(), Ok(2));
}
