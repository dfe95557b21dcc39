//! The per-mode forward decision: whether a neighbor accepts a packet.
//!
//! Flooding accepts unconditionally. Swarm lets base stations always accept,
//! while a smartphone accepts only when a uniform draw falls below a
//! threshold that grows with its remaining energy, so traffic is pushed
//! preferentially onto base stations and full batteries.

use vstd::prelude::*;
use crate::config::Mode;
use crate::node::NodeType;
use vstd::arithmetic::div_mod::lemma_div_is_ordered;

verus! {

/// The swarm acceptance threshold of a smartphone holding `energy` out of
/// `full` units: a draw below `num * energy / full` accepts, so at full
/// battery the acceptance chance is about `num` out of the draw size.
pub open spec fn swarm_threshold(energy: u64, full: u64, num: u64) -> int
    recommends
        full > 0,
{
    num * energy / (full as int)
}

/// Whether a neighbor of the given type and energy accepts a forward, given
/// the uniform draw backing the probabilistic swarm decision.
pub open spec fn accepts_spec(
    mode: Mode,
    neighbor_type: NodeType,
    energy: u64,
    full: u64,
    num: u64,
    draw: u64,
) -> bool {
    match mode {
        Mode::Flooding => true,
        Mode::Swarm => {
            if neighbor_type == NodeType::BaseStation {
                true
            } else {
                (draw as int) < swarm_threshold(energy, full, num)
            }
        },
    }
}

/// Decide whether a neighbor accepts a forward.
///
/// `energy` is the neighbor's remaining energy, `full` the smartphone's full
/// level, `num` the swarm probability scale, and `draw` the uniform draw
/// backing the decision; flooding ignores all four.
pub fn forward_decision(
    mode: Mode,
    neighbor_type: NodeType,
    energy: u64,
    full: u64,
    num: u64,
    draw: u64,
) -> (r: bool)
    requires
        full > 0,
    ensures
        r == accepts_spec(mode, neighbor_type, energy, full, num, draw),
{
    match mode {
        Mode::Flooding => true,
        Mode::Swarm => {
            if neighbor_type == NodeType::BaseStation {
                true
            } else {
                assert((num as int) * (energy as int) <= (u64::MAX as int) * (
                u64::MAX as int)) by (nonlinear_arith)
                    requires
                        num <= u64::MAX && energy <= u64::MAX,
                ;
                let t: u128 = ((num as u128) * (energy as u128)) / (full as u128);
                (draw as u128) < t
            }
        },
    }
}

/// Flooding never withholds a forward that swarm would make: for one
/// decision with identical inputs, swarm acceptance implies flooding
/// acceptance. This is the policy hierarchy underlying the energy
/// comparison of the two modes.
pub proof fn lemma_swarm_implies_flooding(
    neighbor_type: NodeType,
    energy: u64,
    full: u64,
    num: u64,
    draw: u64,
)
    ensures
        accepts_spec(Mode::Swarm, neighbor_type, energy, full, num, draw) ==> accepts_spec(
            Mode::Flooding,
            neighbor_type,
            energy,
            full,
            num,
            draw,
        ),
{
}

/// Swarm acceptance is monotone in the smartphone's remaining energy: with
/// the same draw, a fuller battery never turns an acceptance into a refusal.
pub proof fn lemma_swarm_monotone_in_energy(
    neighbor_type: NodeType,
    energy1: u64,
    energy2: u64,
    full: u64,
    num: u64,
    draw: u64,
)
    requires
        full > 0,
        energy1 <= energy2,
    ensures
        accepts_spec(Mode::Swarm, neighbor_type, energy1, full, num, draw) ==> accepts_spec(
            Mode::Swarm,
            neighbor_type,
            energy2,
            full,
            num,
            draw,
        ),
{
    if neighbor_type != NodeType::BaseStation {
        assert(num * energy1 <= num * energy2) by (nonlinear_arith)
            requires
                energy1 <= energy2,
                num >= 0,
        ;
        lemma_div_is_ordered(num * energy1, num * energy2, full as int);
    }
}

} // verus!
