//! Tests of the two-mode benchmark harness and the full scenario driver.

use resilient_mesh::bench::run_benchmark;
use resilient_mesh::config::ConfigError;
use resilient_mesh::config::Mode;
use resilient_mesh::config::Region;
use resilient_mesh::config::SimConfig;
use resilient_mesh::sim::run_scenario;

fn small_cfg() -> SimConfig {
    SimConfig {
        node_count: 12,
        width: 100,
        height: 100,
        station_prob_num: 15,
        station_prob_den: 100,
        smartphone_energy: 1000,
        station_energy: 999_999,
        smartphone_range: 40,
        station_range: 90,
        cost_idle: 1,
        cost_tx: 5,
        cost_rx: 2,
        relay_reward: 1,
        payout_amount: 10_000,
        disaster_step: 4,
        disaster_region: Region { y_min: 0, y_max: 40 },
        survival_num: 0,
        survival_den: 1,
        swarm_num: 50,
        swarm_den: 1000,
        ttl: 10,
        max_steps: 8,
        origin: 0,
        dest: 11,
    }
}

#[test]
fn full_scenario_runs_to_completion() {
    let cfg = small_cfg();
    let sim = run_scenario(&cfg, Mode::Flooding).unwrap();
    assert_eq!(sim.cfg, cfg);
    assert!(
        sim.steps_done == cfg.max_steps
            || (sim.queue.is_empty() && !sim.nodes[cfg.origin as usize].active)
    );
    assert_eq!(sim.nodes.len(), cfg.node_count as usize);
}

#[test]
fn scenario_rejects_invalid_config() {
    let mut cfg = small_cfg();
    cfg.swarm_den = 0;
    let r = run_scenario(&cfg, Mode::Swarm);
    assert_eq!(r.err(), Some(ConfigError::SwarmDrawInvalid));
}

#[test]
fn benchmark_reports_consistent_metrics() {
    let cfg = small_cfg();
    let rep = run_benchmark(&cfg).unwrap();
    assert!(rep.energy_saved_percent <= 100);
    assert_eq!(
        rep.efficiency_num,
        rep.swarm.delivered as u128 * rep.flooding.total_energy as u128
    );
    assert_eq!(
        rep.efficiency_den,
        rep.flooding.delivered as u128 * rep.swarm.total_energy as u128
    );
    if rep.flooding.total_energy > 0 && rep.swarm.total_energy <= rep.flooding.total_energy {
        let exact = ((rep.flooding.total_energy - rep.swarm.total_energy) as u128 * 100)
            / rep.flooding.total_energy as u128;
        assert_eq!(rep.energy_saved_percent as u128, exact);
    } else {
        assert_eq!(rep.energy_saved_percent, 0);
    }
}

#[test]
fn benchmark_rejects_invalid_config() {
    let mut cfg = small_cfg();
    cfg.node_count = 0;
    assert_eq!(run_benchmark(&cfg).err(), Some(ConfigError::NodeCountZero));
}
