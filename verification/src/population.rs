//! Randomized construction of a run's population.
//!
//! Positions and node types are drawn through the library's single random
//! source; everything that follows from the draws — energy, range, the
//! wallet, the derived neighbor lists — is verified for every outcome.

use vstd::prelude::*;
use crate::config::SimConfig;
use crate::node::Node;
use crate::node::NodeType;
use crate::node::Wallet;
use crate::rng::rand_below;
use crate::topology::connect_nodes;
use crate::topology::node_connected;
use crate::topology::peers_exact;
use crate::topology::lemma_reaches_congruence;

verus! {

/// The type-determined part of a generated node: energy and range are fixed
/// by the node's type and the configuration.
pub open spec fn generated_form(n: Node, cfg: SimConfig) -> bool {
    if n.node_type == NodeType::BaseStation {
        n.energy == cfg.station_energy && n.range == cfg.station_range
    } else {
        n.energy == cfg.smartphone_energy && n.range == cfg.smartphone_range
    }
}

/// A freshly generated node: in bounds, active, with empty wallet and no
/// neighbors yet, its energy and range following its type.
pub open spec fn fresh_node(n: Node, id: u32, cfg: SimConfig) -> bool {
    &&& n.id == id
    &&& n.x < cfg.width
    &&& n.y < cfg.height
    &&& n.active
    &&& n.peers@.len() == 0
    &&& n.wallet == (Wallet { relay_reward: 0u64, compensation: 0u64 })
    &&& generated_form(n, cfg)
}

/// Create one node with a random position in `[0, width) x [0, height)` and
/// a random type: a base station with probability `station_prob_num` out of
/// `station_prob_den`, else a smartphone. Energy and range follow the type;
/// the node starts active with an empty wallet and no neighbors.
pub fn generate_node(id: u32, cfg: &SimConfig) -> (n: Node)
    requires
        cfg.valid(),
    ensures
        fresh_node(n, id, *cfg),
        n.inv(),
{
    let type_draw = rand_below(cfg.station_prob_den);
    let is_station = type_draw < cfg.station_prob_num;
    let x = rand_below(cfg.width as u64) as u32;
    let y = rand_below(cfg.height as u64) as u32;
    let node_type = if is_station {
        NodeType::BaseStation
    } else {
        NodeType::Smartphone
    };
    let energy = if is_station {
        cfg.station_energy
    } else {
        cfg.smartphone_energy
    };
    let range = if is_station {
        cfg.station_range
    } else {
        cfg.smartphone_range
    };
    Node {
        id,
        x,
        y,
        node_type,
        active: true,
        energy,
        range,
        peers: Vec::new(),
        wallet: Wallet { relay_reward: 0, compensation: 0 },
    }
}

/// Generate the whole population, node ids `0..node_count`.
pub fn generate_population(cfg: &SimConfig) -> (r: Vec<Node>)
    requires
        cfg.valid(),
    ensures
        r.len() == cfg.node_count,
        forall|i: int|
            0 <= i < r.len() ==> fresh_node(#[trigger] r@[i], i as u32, *cfg) && r@[i].inv(),
{
    let n = cfg.node_count;
    let mut r: Vec<Node> = Vec::new();
    let mut i: u32 = 0;
    while i < n
        invariant
            n == cfg.node_count,
            cfg.valid(),
            i <= n,
            r.len() == i,
            forall|i0: int|
                0 <= i0 < r.len() ==> fresh_node(#[trigger] r@[i0], i0 as u32, *cfg)
                    && r@[i0].inv(),
        decreases n - i,
    {
        let node = generate_node(i, cfg);
        r.push(node);
        i += 1;
    }
    r
}

/// A node of a freshly built network: still in its generated state, with
/// its id equal to its index.
pub open spec fn network_node(n: Node, i: int, cfg: SimConfig) -> bool {
    &&& n.id == i as u32
    &&& n.x < cfg.width
    &&& n.y < cfg.height
    &&& n.active
    &&& n.wallet == (Wallet { relay_reward: 0u64, compensation: 0u64 })
    &&& generated_form(n, cfg)
    &&& n.inv()
}

/// Generate a population and derive every node's directed neighbor list
/// from the generated positions and ranges.
///
/// The neighbor lists are exact: node `i` lists node `j` iff `i` reaches
/// `j` in the returned population, in strictly increasing id order.
pub fn build_network(cfg: &SimConfig) -> (r: Vec<Node>)
    requires
        cfg.valid(),
    ensures
        r.len() == cfg.node_count,
        forall|i: int| 0 <= i < r.len() ==> network_node(#[trigger] r@[i], i, *cfg),
        forall|i: int| 0 <= i < r.len() ==> peers_exact(r@, i),
{
    let gen = generate_population(cfg);
    let ghost gen_view = gen@;
    let r = connect_nodes(gen);
    proof {
        assert forall|i: int|
            #![trigger gen_view[i], r@[i]]
            0 <= i < r.len() implies gen_view[i].x == r@[i].x && gen_view[i].y == r@[i].y
            && gen_view[i].range == r@[i].range by {
            assert(node_connected(gen_view, r@, i));
        }
        lemma_reaches_congruence(gen_view, r@);
        assert forall|i: int| 0 <= i < r.len() implies network_node(r@[i], i, *cfg) by {
            assert(node_connected(gen_view, r@, i));
            assert(fresh_node(gen_view[i], i as u32, *cfg));
        }
        assert forall|i: int| 0 <= i < r.len() implies peers_exact(r@, i) by {
            assert(node_connected(gen_view, r@, i));
        }
    }
    r
}

} // verus!
