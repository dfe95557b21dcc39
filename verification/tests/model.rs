//! Tests of the node model, the configuration, the forward policy and the
//! saturating counters.

use resilient_mesh::arith::add_sat;
use resilient_mesh::config::ConfigError;
use resilient_mesh::config::Mode;
use resilient_mesh::config::Region;
use resilient_mesh::config::SimConfig;
use resilient_mesh::node::Node;
use resilient_mesh::node::NodeType;
use resilient_mesh::node::Wallet;
use resilient_mesh::policy::forward_decision;

fn smartphone(id: u32, x: u32, y: u32, energy: u64, range: u32) -> Node {
    Node {
        id,
        x,
        y,
        node_type: NodeType::Smartphone,
        active: true,
        energy,
        range,
        peers: Vec::new(),
        wallet: Wallet { relay_reward: 0, compensation: 0 },
    }
}

fn station(id: u32, x: u32, y: u32, energy: u64, range: u32) -> Node {
    Node {
        id,
        x,
        y,
        node_type: NodeType::BaseStation,
        active: true,
        energy,
        range,
        peers: Vec::new(),
        wallet: Wallet { relay_reward: 0, compensation: 0 },
    }
}

fn valid_cfg() -> SimConfig {
    SimConfig {
        node_count: 4,
        width: 200,
        height: 200,
        station_prob_num: 15,
        station_prob_den: 100,
        smartphone_energy: 1000,
        station_energy: 999_999,
        smartphone_range: 40,
        station_range: 180,
        cost_idle: 1,
        cost_tx: 5,
        cost_rx: 2,
        relay_reward: 1,
        payout_amount: 10_000,
        disaster_step: 20,
        disaster_region: Region { y_min: 0, y_max: 80 },
        survival_num: 0,
        survival_den: 1,
        swarm_num: 50,
        swarm_den: 1000,
        ttl: 15,
        max_steps: 40,
        origin: 0,
        dest: 3,
    }
}

#[test]
fn consume_drains_and_clamps() {
    let mut n = smartphone(0, 0, 0, 10, 5);
    n.consume(4);
    assert_eq!(n.energy, 6);
    assert!(n.active);
    n.consume(7);
    assert_eq!(n.energy, 0);
    assert!(!n.active);
    n.consume(3);
    assert_eq!(n.energy, 0);
    assert!(!n.active);
}

#[test]
fn consume_deactivates_exactly_at_zero() {
    let mut n = smartphone(0, 0, 0, 5, 5);
    n.consume(4);
    assert_eq!(n.energy, 1);
    assert!(n.active);
    n.consume(1);
    assert_eq!(n.energy, 0);
    assert!(!n.active);
}

#[test]
fn base_station_immune_to_consumption() {
    let mut n = station(0, 0, 0, 999_999, 180);
    n.consume(500_000);
    assert_eq!(n.energy, 999_999);
    assert!(n.active);
    n.consume(999_999);
    assert_eq!(n.energy, 999_999);
    assert!(n.active);
}

#[test]
fn distance_is_squared_euclidean_and_symmetric() {
    let a = smartphone(0, 0, 10, 100, 5);
    let b = smartphone(1, 3, 14, 100, 5);
    assert_eq!(a.distance_sq_to(&b), 25);
    assert_eq!(b.distance_sq_to(&a), 25);
    assert_eq!(a.distance_sq_to(&a), 0);
}

#[test]
fn wallet_credits_are_independent() {
    let mut n = smartphone(0, 0, 0, 100, 5);
    n.credit_relay_reward(3);
    n.credit_relay_reward(4);
    n.credit_compensation(10);
    assert_eq!(n.wallet.relay_reward, 7);
    assert_eq!(n.wallet.compensation, 10);
    assert_eq!(n.energy, 100);
    assert!(n.active);
}

#[test]
fn destroy_zeroes_and_deactivates() {
    let mut n = station(0, 0, 0, 999_999, 180);
    n.destroy();
    assert_eq!(n.energy, 0);
    assert!(!n.active);
}

#[test]
fn saturating_addition_is_exact_then_caps() {
    assert_eq!(add_sat(2, 3), 5);
    assert_eq!(add_sat(u64::MAX - 1, 1), u64::MAX);
    assert_eq!(add_sat(u64::MAX, 1), u64::MAX);
    assert_eq!(add_sat(u64::MAX, u64::MAX), u64::MAX);
}

#[test]
fn flooding_always_accepts() {
    assert!(forward_decision(Mode::Flooding, NodeType::Smartphone, 0, 1000, 0, 0));
    assert!(forward_decision(Mode::Flooding, NodeType::BaseStation, 0, 1000, 0, 999));
}

#[test]
fn swarm_always_accepts_stations() {
    assert!(forward_decision(Mode::Swarm, NodeType::BaseStation, 0, 1000, 0, 999));
}

#[test]
fn swarm_smartphone_threshold_is_energy_scaled() {
    // threshold = num * energy / full = 50 * 1000 / 1000 = 50
    assert!(forward_decision(Mode::Swarm, NodeType::Smartphone, 1000, 1000, 50, 49));
    assert!(!forward_decision(Mode::Swarm, NodeType::Smartphone, 1000, 1000, 50, 50));
    // half battery: threshold 25
    assert!(forward_decision(Mode::Swarm, NodeType::Smartphone, 500, 1000, 50, 24));
    assert!(!forward_decision(Mode::Swarm, NodeType::Smartphone, 500, 1000, 50, 25));
    // empty battery never relays
    assert!(!forward_decision(Mode::Swarm, NodeType::Smartphone, 0, 1000, 50, 0));
}

#[test]
fn valid_config_passes_validation() {
    assert_eq!(valid_cfg().validate(), Ok(()));
}

#[test]
fn validation_rejects_zero_node_count() {
    let mut cfg = valid_cfg();
    cfg.node_count = 0;
    assert_eq!(cfg.validate(), Err(ConfigError::NodeCountZero));
}

#[test]
fn validation_rejects_empty_area() {
    let mut cfg = valid_cfg();
    cfg.width = 0;
    assert_eq!(cfg.validate(), Err(ConfigError::AreaEmpty));
    let mut cfg = valid_cfg();
    cfg.height = 0;
    assert_eq!(cfg.validate(), Err(ConfigError::AreaEmpty));
}

#[test]
fn validation_rejects_zero_smartphone_energy() {
    let mut cfg = valid_cfg();
    cfg.smartphone_energy = 0;
    assert_eq!(cfg.validate(), Err(ConfigError::SmartphoneEnergyZero));
}

#[test]
fn validation_rejects_bad_station_probability() {
    let mut cfg = valid_cfg();
    cfg.station_prob_den = 0;
    assert_eq!(cfg.validate(), Err(ConfigError::StationProbabilityInvalid));
    let mut cfg = valid_cfg();
    cfg.station_prob_num = 101;
    cfg.station_prob_den = 100;
    assert_eq!(cfg.validate(), Err(ConfigError::StationProbabilityInvalid));
}

#[test]
fn validation_rejects_inverted_region() {
    let mut cfg = valid_cfg();
    cfg.disaster_region = Region { y_min: 90, y_max: 80 };
    assert_eq!(cfg.validate(), Err(ConfigError::RegionInverted));
}

#[test]
fn validation_rejects_zero_denominators() {
    let mut cfg = valid_cfg();
    cfg.survival_den = 0;
    assert_eq!(cfg.validate(), Err(ConfigError::SurvivalThresholdInvalid));
    let mut cfg = valid_cfg();
    cfg.swarm_den = 0;
    assert_eq!(cfg.validate(), Err(ConfigError::SwarmDrawInvalid));
}

#[test]
fn validation_rejects_out_of_range_endpoints() {
    let mut cfg = valid_cfg();
    cfg.origin = 4;
    assert_eq!(cfg.validate(), Err(ConfigError::OriginOutOfRange));
    let mut cfg = valid_cfg();
    cfg.dest = 4;
    assert_eq!(cfg.validate(), Err(ConfigError::DestOutOfRange));
}

#[test]
fn error_messages_name_the_parameter() {
    assert_eq!(
        ConfigError::NodeCountZero.message(),
        "node_count must be positive"
    );
    assert_eq!(
        ConfigError::RegionInverted.message(),
        "disaster_region must have y_min <= y_max"
    );
    assert_eq!(
        ConfigError::OriginOutOfRange.message(),
        "origin must be below node_count"
    );
}

#[test]
fn region_membership_is_half_open() {
    let r = Region { y_min: 10, y_max: 20 };
    assert!(!r.contains(9));
    assert!(r.contains(10));
    assert!(r.contains(19));
    assert!(!r.contains(20));
}
