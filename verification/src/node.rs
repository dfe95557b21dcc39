//! The node model: one mesh participant with identity, position, type,
//! energy state, transmission radius, neighbor list and accounting wallet.

use vstd::prelude::*;
use crate::config::Region;

verus! {

/// The kind of a participant, fixed at creation.
#[derive(Clone, Copy, PartialEq, Eq, Structural, Debug)]
pub enum NodeType {
    /// Battery powered; drains energy and eventually deactivates.
    Smartphone,
    /// Mains powered; its reserve is never drained by consumption.
    BaseStation,
}

/// Accounting balances of one node. Both only ever grow during a run.
#[derive(Clone, Copy, PartialEq, Eq, Structural, Debug)]
pub struct Wallet {
    /// Rewards earned by relaying packets in swarm mode.
    pub relay_reward: u64,
    /// Compensation credited by the one-shot payout event.
    pub compensation: u64,
}

/// One mesh participant.
///
/// Deactivation is terminal within a run: the flag is cleared by energy
/// exhaustion or by the disaster, and nothing ever sets it again.
pub struct Node {
    /// Unique id; equals the node's index in the run's collection.
    pub id: u32,
    /// Position, in grid units.
    pub x: u32,
    /// Position, in grid units.
    pub y: u32,
    /// Kind, fixed at creation.
    pub node_type: NodeType,
    /// Whether the node still participates in the simulation.
    pub active: bool,
    /// Remaining energy, clamped at zero.
    pub energy: u64,
    /// Transmission radius: this node reaches every node within it.
    pub range: u32,
    /// Ids of the nodes this node can transmit to (directed).
    pub peers: Vec<u32>,
    /// Accounting balances.
    pub wallet: Wallet,
}

/// The absolute difference of two coordinates.
pub open spec fn abs_diff(a: u32, b: u32) -> int {
    if a >= b {
        a - b
    } else {
        b - a
    }
}

/// The squared Euclidean distance between two points.
pub open spec fn dist_sq(ax: u32, ay: u32, bx: u32, by: u32) -> int {
    abs_diff(ax, bx) * abs_diff(ax, bx) + abs_diff(ay, by) * abs_diff(ay, by)
}

/// The squared distance is symmetric in its two points.
pub proof fn lemma_dist_sq_symmetric(ax: u32, ay: u32, bx: u32, by: u32)
    ensures
        dist_sq(ax, ay, bx, by) == dist_sq(bx, by, ax, ay),
{
}

/// The node's energy level after being charged `cost`.
///
/// Only a smartphone is drained, and its level clamps at zero; a base
/// station's reserve is untouched.
pub open spec fn energy_after(n: Node, cost: u64) -> u64 {
    if n.node_type == NodeType::Smartphone {
        if n.energy >= cost {
            (n.energy - cost) as u64
        } else {
            0u64
        }
    } else {
        n.energy
    }
}

/// The node's active flag after being charged `cost`.
///
/// A smartphone deactivates exactly when its level reaches zero; a base
/// station's flag is untouched, and consumption never reactivates a node.
pub open spec fn active_after(n: Node, cost: u64) -> bool {
    if n.node_type == NodeType::Smartphone {
        if energy_after(n, cost) == 0 {
            false
        } else {
            n.active
        }
    } else {
        n.active
    }
}

/// The whole node after being charged `cost`: energy and activity evolve
/// by the lifecycle above, everything else is kept.
pub open spec fn consumed(n: Node, cost: u64) -> Node {
    Node { energy: energy_after(n, cost), active: active_after(n, cost), ..n }
}

/// All fields except `energy`, `active` and the wallet agree.
pub open spec fn same_identity(a: Node, b: Node) -> bool {
    &&& a.id == b.id
    &&& a.x == b.x
    &&& a.y == b.y
    &&& a.node_type == b.node_type
    &&& a.range == b.range
    &&& a.peers@ == b.peers@
}

impl Node {
    /// The node's state invariant: an active smartphone has energy left,
    /// because the flag is cleared exactly when the level reaches zero; and
    /// an inactive node holds no energy, because deactivation happens only
    /// at exhaustion or by the disaster, which zeroes the level.
    pub open spec fn inv(self) -> bool {
        &&& self.node_type == NodeType::Smartphone && self.active ==> self.energy > 0
        &&& !self.active ==> self.energy == 0
    }

    /// Whether the node's position lies in `region`.
    pub open spec fn in_region_spec(self, region: Region) -> bool {
        region.contains_spec(self.y)
    }

    /// Whether the node's position lies in `region`.
    pub fn in_region(&self, region: &Region) -> (r: bool)
        ensures
            r == self.in_region_spec(*region),
    {
        region.contains(self.y)
    }

    /// The squared distance from this node to `other`.
    pub fn distance_sq_to(&self, other: &Node) -> (r: u128)
        ensures
            r == dist_sq(self.x, self.y, other.x, other.y),
    {
        let dx: u64 = if self.x >= other.x {
            (self.x - other.x) as u64
        } else {
            (other.x - self.x) as u64
        };
        let dy: u64 = if self.y >= other.y {
            (self.y - other.y) as u64
        } else {
            (other.y - self.y) as u64
        };
        assert((dx as int) * (dx as int) + (dy as int) * (dy as int) < u128::MAX) by (nonlinear_arith)
            requires
                dx <= u32::MAX && dy <= u32::MAX,
        ;
        (dx as u128) * (dx as u128) + (dy as u128) * (dy as u128)
    }

    /// Charge the node `cost` energy units.
    ///
    /// Drains only a smartphone, clamps its level at zero, and clears the
    /// active flag exactly when the level reaches zero. A base station is
    /// unaffected. Identity, position, peers and wallet never change.
    pub fn consume(&mut self, cost: u64)
        ensures
            same_identity(*old(self), *final(self)),
            final(self).wallet == old(self).wallet,
            final(self).energy == energy_after(*old(self), cost),
            final(self).active == active_after(*old(self), cost),
            *final(self) == consumed(*old(self), cost),
    {
        if self.node_type == NodeType::Smartphone {
            if self.energy >= cost {
                self.energy = self.energy - cost;
            } else {
                self.energy = 0;
            }
            if self.energy == 0 {
                self.active = false;
            }
        }
    }

    /// Forcibly deactivate the node and zero its energy, as the disaster
    /// does; base stations are not exempt.
    pub fn destroy(&mut self)
        ensures
            same_identity(*old(self), *final(self)),
            final(self).wallet == old(self).wallet,
            final(self).energy == 0,
            !final(self).active,
            *final(self) == (Node { active: false, energy: 0u64, ..*old(self) }),
    {
        self.active = false;
        self.energy = 0;
    }

    /// Credit the relay reward earned by accepting a forward.
    pub fn credit_relay_reward(&mut self, amount: u64)
        ensures
            same_identity(*old(self), *final(self)),
            final(self).energy == old(self).energy,
            final(self).active == old(self).active,
            final(self).wallet.relay_reward == crate::arith::sat_add(
                old(self).wallet.relay_reward,
                amount,
            ),
            final(self).wallet.compensation == old(self).wallet.compensation,
    {
        self.wallet.relay_reward = crate::arith::add_sat(self.wallet.relay_reward, amount);
    }

    /// Credit the one-shot disaster compensation.
    pub fn credit_compensation(&mut self, amount: u64)
        ensures
            same_identity(*old(self), *final(self)),
            final(self).energy == old(self).energy,
            final(self).active == old(self).active,
            final(self).wallet.compensation == crate::arith::sat_add(
                old(self).wallet.compensation,
                amount,
            ),
            final(self).wallet.relay_reward == old(self).wallet.relay_reward,
            *final(self) == (Node {
                wallet: Wallet {
                    relay_reward: old(self).wallet.relay_reward,
                    compensation: crate::arith::sat_add(old(self).wallet.compensation, amount),
                },
                ..*old(self)
            }),
    {
        self.wallet.compensation = crate::arith::add_sat(self.wallet.compensation, amount);
    }
}

/// The energy lifecycle of one charge: the level is clamped at zero, a
/// smartphone stays active exactly while it was active and energy remains,
/// deactivation is never undone, and a base station is untouched.
pub proof fn lemma_energy_lifecycle(n: Node, cost: u64)
    ensures
        energy_after(n, cost) >= 0,
        n.node_type == NodeType::Smartphone ==> (active_after(n, cost) <==> n.active
            && energy_after(n, cost) > 0),
        n.node_type == NodeType::BaseStation ==> active_after(n, cost) == n.active
            && energy_after(n, cost) == n.energy,
        !n.active ==> !active_after(n, cost),
        n.inv() ==> (Node {
            energy: energy_after(n, cost),
            active: active_after(n, cost),
            ..n
        }).inv(),
{
}

/// A node whose energy and activity evolved by one charge keeps the state
/// invariant, whatever the cost.
pub proof fn lemma_consume_preserves_inv(b: Node, a: Node, cost: u64)
    requires
        b.inv(),
        a.node_type == b.node_type,
        a.energy == energy_after(b, cost),
        a.active == active_after(b, cost),
    ensures
        a.inv(),
{
}

} // verus!
