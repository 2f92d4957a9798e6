use rlb::balancing::BalancingAlgorithm;
use rlb::Config;

#[test]
fn config_getters() {
    let config = Config::new(
        vec!["127.0.0.1:5000".to_string(), "127.0.0.1:5001".to_string()],
        30,
        BalancingAlgorithm::least_traffic(),
    );
    assert_eq!(config.backends().len(), 2);
    assert_eq!(config.backends()[0], "127.0.0.1:5000".to_string());
    assert_eq!(config.timeout(), 30);
    assert_eq!(config.balancing_algorithm(), &BalancingAlgorithm::LeastTraffic);
}
