//! End-to-end scenario tests: topology construction, routing steps, the
//! disaster and payout triggers, and the two-mode comparison.

use resilient_mesh::config::ConfigError;
use resilient_mesh::config::Mode;
use resilient_mesh::config::Region;
use resilient_mesh::config::SimConfig;
use resilient_mesh::engine::region_survival;
use resilient_mesh::node::Node;
use resilient_mesh::node::NodeType;
use resilient_mesh::node::Wallet;
use resilient_mesh::population::build_network;
use resilient_mesh::sim::Simulation;
use resilient_mesh::targets::TargetSet;
use resilient_mesh::topology::connect_nodes;

fn phone(id: u32, x: u32, y: u32, energy: u64, range: u32) -> Node {
    Node {
        id,
        x,
        y,
        node_type: NodeType::Smartphone,
        active: true,
        energy,
        range,
        peers: Vec::new(),
        wallet: Wallet { relay_reward: 0, compensation: 0 },
    }
}

fn cfg_for(node_count: u32, origin: u32, dest: u32) -> SimConfig {
    SimConfig {
        node_count,
        width: 200,
        height: 200,
        station_prob_num: 0,
        station_prob_den: 1,
        smartphone_energy: 1000,
        station_energy: 999_999,
        smartphone_range: 40,
        station_range: 180,
        cost_idle: 1,
        cost_tx: 5,
        cost_rx: 2,
        relay_reward: 1,
        payout_amount: 10_000,
        disaster_step: 0, // never strikes: steps count from 1
        disaster_region: Region { y_min: 0, y_max: 80 },
        survival_num: 0,
        survival_den: 1,
        swarm_num: 50,
        swarm_den: 1000,
        ttl: 15,
        max_steps: 4,
        origin,
        dest,
    }
}

fn has_duplicate(path: &[u32]) -> bool {
    for i in 0..path.len() {
        for j in (i + 1)..path.len() {
            if path[i] == path[j] {
                return true;
            }
        }
    }
    false
}

/// A diamond: 0 reaches 1 and 2, both reach 3, and nothing else is in range.
fn diamond_nodes() -> Vec<Node> {
    let raw = vec![
        phone(0, 0, 10, 1000, 5),
        phone(1, 4, 13, 1000, 5),
        phone(2, 4, 7, 1000, 5),
        phone(3, 8, 10, 1000, 5),
    ];
    connect_nodes(raw)
}

#[test]
fn adjacency_is_derived_from_distance_and_sender_range() {
    // A at distance 10 from B; A's range 20, B's range 5.
    let nodes = connect_nodes(vec![phone(0, 0, 0, 1000, 20), phone(1, 10, 0, 1000, 5)]);
    assert_eq!(nodes[0].peers, vec![1]);
    assert!(nodes[1].peers.is_empty());
}

#[test]
fn adjacency_includes_the_exact_range_boundary() {
    let nodes = connect_nodes(vec![phone(0, 0, 0, 1000, 10), phone(1, 10, 0, 1000, 9)]);
    assert_eq!(nodes[0].peers, vec![1]);
    assert!(nodes[1].peers.is_empty());
}

#[test]
fn isolated_node_gets_empty_neighbor_list() {
    let nodes = connect_nodes(vec![
        phone(0, 0, 0, 1000, 5),
        phone(1, 100, 100, 1000, 5),
        phone(2, 0, 3, 1000, 5),
    ]);
    assert_eq!(nodes[0].peers, vec![2]);
    assert!(nodes[1].peers.is_empty());
    assert_eq!(nodes[2].peers, vec![0]);
}

#[test]
fn diamond_topology_is_as_expected() {
    let nodes = diamond_nodes();
    assert_eq!(nodes[0].peers, vec![1, 2]);
    assert_eq!(nodes[1].peers, vec![0, 3]);
    assert_eq!(nodes[2].peers, vec![0, 3]);
    assert_eq!(nodes[3].peers, vec![1, 2]);
}

#[test]
fn paths_never_repeat_a_node() {
    let mut sim = Simulation::new(cfg_for(4, 0, 3), Mode::Flooding, diamond_nodes()).unwrap();
    for _ in 0..4 {
        sim.advance();
        for p in &sim.queue {
            assert!(!has_duplicate(&p.path), "repeated node id in {:?}", p.path);
        }
    }
}

#[test]
fn packet_is_never_forwarded_to_same_neighbor_twice_in_one_step() {
    let mut sim = Simulation::new(cfg_for(4, 0, 3), Mode::Flooding, diamond_nodes()).unwrap();
    sim.advance();
    // After step 1 the injected packet was forwarded from 0 to both 1 and 2.
    let first: Vec<_> = sim.queue.iter().filter(|p| p.origin_step == 1).collect();
    assert_eq!(first.len(), 2);
    sim.advance();
    // In step 2 both copies offered the packet to node 3; only one got it.
    let first: Vec<_> = sim.queue.iter().filter(|p| p.origin_step == 1).collect();
    assert_eq!(first.len(), 1);
    assert_eq!(first[0].path, vec![0, 1, 3]);
}

#[test]
fn no_two_queue_copies_share_identity_and_position() {
    let mut sim = Simulation::new(cfg_for(4, 0, 3), Mode::Flooding, diamond_nodes()).unwrap();
    for _ in 0..4 {
        sim.advance();
        for i in 0..sim.queue.len() {
            for j in (i + 1)..sim.queue.len() {
                let a = &sim.queue[i];
                let b = &sim.queue[j];
                if a.origin_step == b.origin_step {
                    assert_ne!(a.path.last(), b.path.last());
                }
            }
        }
    }
}

#[test]
fn one_way_delivery_with_asymmetric_ranges() {
    // A reaches B (range 20 over distance 10), B cannot reach back (range 5).
    let nodes = connect_nodes(vec![phone(0, 0, 0, 1000, 20), phone(1, 10, 0, 1000, 5)]);
    let mut cfg = cfg_for(2, 0, 1);
    cfg.max_steps = 2;
    let mut sim = Simulation::new(cfg, Mode::Flooding, nodes).unwrap();
    sim.advance(); // packet forwarded from A to B
    assert_eq!(sim.stats.delivered, 0);
    let r = sim.advance(); // the copy at B is recognized as delivered
    assert_eq!(sim.stats.delivered, 1);
    assert_eq!(sim.stats.total_hops, 1);
    assert_eq!(r.delivered.len(), 1);
    assert_eq!(r.delivered[0].path, vec![0, 1]);

    // The return direction: a packet from B never reaches A.
    let nodes = connect_nodes(vec![phone(0, 0, 0, 1000, 20), phone(1, 10, 0, 1000, 5)]);
    let mut cfg = cfg_for(2, 1, 0);
    cfg.max_steps = 4;
    let mut sim = Simulation::new(cfg, Mode::Flooding, nodes).unwrap();
    sim.run();
    assert_eq!(sim.stats.delivered, 0);
}

#[test]
fn two_node_energy_accounting_is_exact() {
    let nodes = connect_nodes(vec![phone(0, 0, 0, 1000, 20), phone(1, 10, 0, 1000, 5)]);
    let mut cfg = cfg_for(2, 0, 1);
    cfg.max_steps = 2;
    let mut sim = Simulation::new(cfg, Mode::Flooding, nodes).unwrap();
    // Step 1: idle 2, transmit 5, receive 2.
    sim.advance();
    assert_eq!(sim.stats.total_energy, 9);
    assert_eq!(sim.nodes[0].energy, 1000 - 1 - 5);
    assert_eq!(sim.nodes[1].energy, 1000 - 1 - 2);
    // Step 2: delivery of the first packet (free), plus a fresh injection:
    // idle 2, transmit 5, receive 2.
    sim.advance();
    assert_eq!(sim.stats.total_energy, 18);
    assert_eq!(sim.stats.delivered, 1);
    assert_eq!(sim.nodes[0].energy, 1000 - 2 * 6);
    assert_eq!(sim.nodes[1].energy, 1000 - 2 * 3);
}

#[test]
fn disaster_deactivates_exactly_the_region() {
    // Two nodes inside the band y < 80, two outside; all isolated.
    let nodes = connect_nodes(vec![
        phone(0, 0, 100, 1000, 5),
        phone(1, 50, 10, 1000, 5),
        phone(2, 100, 20, 1000, 5),
        phone(3, 150, 150, 1000, 5),
    ]);
    let mut cfg = cfg_for(4, 0, 3);
    cfg.disaster_step = 2;
    cfg.max_steps = 3;
    let mut sim = Simulation::new(cfg, Mode::Flooding, nodes).unwrap();
    let r1 = sim.advance();
    assert!(!r1.disaster_started);
    assert!(sim.nodes[1].active && sim.nodes[2].active);
    let r2 = sim.advance();
    assert!(r2.disaster_started);
    assert!(sim.disaster_struck);
    // Region nodes are inactive with zero energy after that exact step.
    assert!(!sim.nodes[1].active && sim.nodes[1].energy == 0);
    assert!(!sim.nodes[2].active && sim.nodes[2].energy == 0);
    // Nodes outside the region only paid the normal idle and transmit costs.
    assert!(sim.nodes[0].active);
    assert_eq!(sim.nodes[0].energy, 1000 - 2 - 2 * 5);
    assert!(sim.nodes[3].active);
    assert_eq!(sim.nodes[3].energy, 1000 - 2);
}

#[test]
fn full_region_disaster_triggers_payout_exactly_once() {
    // Every node lies in the disaster region and survives until the strike.
    let nodes = connect_nodes(vec![
        phone(0, 0, 10, 1000, 5),
        phone(1, 50, 20, 1000, 5),
        phone(2, 100, 30, 1000, 5),
    ]);
    let mut cfg = cfg_for(3, 0, 2);
    cfg.disaster_step = 2;
    cfg.max_steps = 4;
    let mut sim = Simulation::new(cfg, Mode::Swarm, nodes).unwrap();
    let r1 = sim.advance();
    assert!(!r1.payout_fired);
    assert_eq!(sim.nodes[0].wallet.compensation, 0);
    // The monitor fires on the very step the disaster strikes: survivors
    // are at the threshold (none), and every region node is credited once.
    let r2 = sim.advance();
    assert!(r2.disaster_started && r2.payout_fired);
    assert!(sim.payout_done);
    for n in &sim.nodes {
        assert_eq!(n.wallet.compensation, 10_000);
    }
    // Re-running the monitor afterwards changes no balance.
    let r3 = sim.advance();
    assert!(!r3.payout_fired);
    let r4 = sim.advance();
    assert!(!r4.payout_fired);
    for n in &sim.nodes {
        assert_eq!(n.wallet.compensation, 10_000);
    }
}

#[test]
fn payout_never_fires_for_an_empty_region() {
    let nodes = connect_nodes(vec![phone(0, 0, 100, 1000, 5), phone(1, 50, 120, 1000, 5)]);
    let mut cfg = cfg_for(2, 0, 1);
    cfg.disaster_step = 1;
    cfg.max_steps = 3;
    let mut sim = Simulation::new(cfg, Mode::Swarm, nodes).unwrap();
    sim.run();
    assert!(sim.disaster_struck);
    assert!(!sim.payout_done);
    for n in &sim.nodes {
        assert_eq!(n.wallet.compensation, 0);
    }
}

#[test]
fn flooding_consumes_at_least_as_much_energy_as_swarm() {
    // Identical chain of smartphones, identical injection schedule; the
    // swarm ceiling is zero, so smartphones never relay in swarm mode.
    let build = || {
        connect_nodes(vec![
            phone(0, 0, 0, 1000, 7),
            phone(1, 6, 0, 1000, 7),
            phone(2, 12, 0, 1000, 7),
        ])
    };
    let mut cfg = cfg_for(3, 0, 2);
    cfg.swarm_num = 0;
    cfg.max_steps = 5;
    let mut flood = Simulation::new(cfg, Mode::Flooding, build()).unwrap();
    flood.run();
    let mut swarm = Simulation::new(cfg, Mode::Swarm, build()).unwrap();
    swarm.run();
    assert!(flood.stats.total_energy >= swarm.stats.total_energy);
    assert!(flood.stats.delivered >= swarm.stats.delivered);
}

#[test]
fn swarm_relays_earn_rewards() {
    // A chain through a base station: the station always relays in swarm
    // mode and earns the relay reward.
    let raw = vec![
        phone(0, 0, 0, 1000, 7),
        Node {
            id: 1,
            x: 6,
            y: 0,
            node_type: NodeType::BaseStation,
            active: true,
            energy: 999_999,
            range: 7,
            peers: Vec::new(),
            wallet: Wallet { relay_reward: 0, compensation: 0 },
        },
        phone(2, 12, 0, 1000, 7),
    ];
    let nodes = connect_nodes(raw);
    let mut cfg = cfg_for(3, 0, 2);
    cfg.swarm_num = 0;
    cfg.max_steps = 1;
    let mut sim = Simulation::new(cfg, Mode::Swarm, nodes).unwrap();
    sim.advance();
    assert_eq!(sim.nodes[1].wallet.relay_reward, 1);
    assert_eq!(sim.nodes[0].wallet.relay_reward, 0);
    assert_eq!(sim.nodes[2].wallet.relay_reward, 0);
}

#[test]
fn population_mismatch_is_rejected() {
    let cfg = cfg_for(4, 0, 3);
    let r = Simulation::new(cfg, Mode::Flooding, vec![phone(0, 0, 0, 1000, 5)]);
    assert_eq!(r.err(), Some(ConfigError::PopulationInvalid));
    // Wrong ids are rejected too.
    let cfg = cfg_for(2, 0, 1);
    let bad = vec![phone(7, 0, 0, 1000, 5), phone(1, 10, 0, 1000, 5)];
    assert!(Simulation::new(cfg, Mode::Flooding, bad).is_err());
}

#[test]
fn invalid_config_is_rejected_before_any_step() {
    let mut cfg = cfg_for(4, 0, 3);
    cfg.node_count = 0;
    let r = Simulation::new(cfg, Mode::Flooding, Vec::new());
    assert_eq!(r.err(), Some(ConfigError::NodeCountZero));
}

#[test]
fn generated_network_respects_type_parameters() {
    let mut cfg = cfg_for(10, 0, 9);
    cfg.station_prob_num = 1;
    cfg.station_prob_den = 1;
    let nodes = build_network(&cfg);
    assert_eq!(nodes.len(), 10);
    for (i, n) in nodes.iter().enumerate() {
        assert_eq!(n.id, i as u32);
        assert_eq!(n.node_type, NodeType::BaseStation);
        assert_eq!(n.energy, cfg.station_energy);
        assert_eq!(n.range, cfg.station_range);
        assert!(n.x < cfg.width && n.y < cfg.height);
        assert!(n.active);
        for &p in &n.peers {
            assert!((p as usize) < nodes.len());
            assert!(n.distance_sq_to(&nodes[p as usize]) <= (n.range as u128) * (n.range as u128));
        }
    }
    cfg.station_prob_num = 0;
    let nodes = build_network(&cfg);
    for n in &nodes {
        assert_eq!(n.node_type, NodeType::Smartphone);
        assert_eq!(n.energy, cfg.smartphone_energy);
        assert_eq!(n.range, cfg.smartphone_range);
    }
}

#[test]
fn target_set_records_pairs_per_identity() {
    let mut t = TargetSet::new();
    assert!(!t.is_targeted(1, 5));
    t.mark(1, 5);
    assert!(t.is_targeted(1, 5));
    assert!(!t.is_targeted(1, 6));
    assert!(!t.is_targeted(2, 5));
    t.mark(2, 5);
    assert!(t.is_targeted(2, 5));
    assert!(t.is_targeted(1, 5));
}

#[test]
fn exhausted_ttl_drops_packet_silently() {
    // A two-hop chain but only one permitted forward: the copy stranded at
    // the middle node is discarded, not an error.
    let nodes = connect_nodes(vec![
        phone(0, 0, 0, 1000, 7),
        phone(1, 6, 0, 1000, 7),
        phone(2, 12, 0, 1000, 7),
    ]);
    let mut cfg = cfg_for(3, 0, 2);
    cfg.ttl = 1;
    cfg.max_steps = 6;
    let mut sim = Simulation::new(cfg, Mode::Flooding, nodes).unwrap();
    sim.run();
    assert_eq!(sim.stats.delivered, 0);
}

#[test]
fn zero_ttl_packets_are_never_forwarded() {
    let nodes = connect_nodes(vec![phone(0, 0, 0, 1000, 20), phone(1, 10, 0, 1000, 5)]);
    let mut cfg = cfg_for(2, 0, 1);
    cfg.ttl = 0;
    cfg.max_steps = 3;
    let mut sim = Simulation::new(cfg, Mode::Flooding, nodes).unwrap();
    sim.run();
    assert_eq!(sim.stats.delivered, 0);
    // Only the idle drain is charged: a zero-TTL copy is dropped before the
    // holder is ever charged a transmission.
    assert_eq!(sim.stats.total_energy, 3 * 2);
}

#[test]
fn run_stops_early_once_no_packet_can_progress() {
    // An isolated origin with just enough energy for one step: after it
    // dies with an empty queue, nothing can ever be injected again.
    let nodes = connect_nodes(vec![phone(0, 0, 0, 6, 5), phone(1, 100, 100, 1000, 5)]);
    let mut cfg = cfg_for(2, 0, 1);
    cfg.max_steps = 10;
    let mut sim = Simulation::new(cfg, Mode::Flooding, nodes).unwrap();
    sim.run();
    assert_eq!(sim.steps_done, 1);
    assert!(!sim.nodes[0].active);
    assert!(sim.queue.is_empty());
    assert_eq!(sim.stats.delivered, 0);
}

#[test]
fn region_survival_counts_match() {
    let nodes = vec![
        phone(0, 0, 10, 1000, 5),
        phone(1, 0, 20, 0, 5),
        phone(2, 0, 100, 1000, 5),
    ];
    let mut dead = nodes;
    dead[1].active = false;
    let (total, active) = region_survival(&dead, &Region { y_min: 0, y_max: 80 });
    assert_eq!(total, 2);
    assert_eq!(active, 1);
}
