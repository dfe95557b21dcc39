//! The time-stepped routing engine: per-step disaster and payout triggers,
//! idle energy drain, packet injection, and queue draining with loop and
//! duplicate suppression.

use vstd::prelude::*;
use crate::arith::add_sat;
use crate::arith::sat_add;
use crate::arith::sat_cap;
use crate::arith::lemma_sat_cap_add;
use crate::config::Mode;
use crate::config::Region;
use crate::config::SimConfig;
use crate::node::Node;
use crate::node::NodeType;
use crate::node::Wallet;
use crate::node::consumed;
use crate::node::active_after;
use crate::node::energy_after;
use crate::node::lemma_consume_preserves_inv;
use crate::node::same_identity;
use crate::packet::Packet;
use crate::packet::contains_id;
use crate::packet::copy_ids;
use crate::packet::lemma_path_extension_nodup;
use crate::policy::forward_decision;
use crate::rng::rand_below;
use crate::targets::TargetSet;

verus! {

/// Population well-formedness for the engine: every node's id equals its
/// index, its invariant holds, and every neighbor id is a valid index.
pub open spec fn wf_node_at(nodes: Seq<Node>, i: int) -> bool {
    &&& nodes[i].id == i as u32
    &&& nodes[i].inv()
    &&& forall|k: int|
        0 <= k < nodes[i].peers@.len() ==> #[trigger] nodes[i].peers@[k] < nodes.len()
}

/// Population well-formedness for the engine.
pub open spec fn nodes_wf(nodes: Seq<Node>) -> bool {
    forall|i: int| 0 <= i < nodes.len() ==> #[trigger] wf_node_at(nodes, i)
}

/// What the disaster does to one node: an active node inside the region is
/// deactivated with its energy zeroed; every other node is untouched. The
/// wallet and all identity fields never change.
pub open spec fn disaster_effect(before: Node, after: Node, region: Region) -> bool {
    &&& same_identity(before, after)
    &&& after.wallet == before.wallet
    &&& if before.in_region_spec(region) && before.active {
        after.energy == 0 && !after.active
    } else {
        after.energy == before.energy && after.active == before.active
    }
}

/// What the payout does to one node: a node inside the region, active or
/// not, is credited the amount; every other node is untouched. Energy,
/// activity and the relay-reward balance never change.
pub open spec fn payout_effect(before: Node, after: Node, region: Region, amount: u64) -> bool {
    &&& same_identity(before, after)
    &&& after.energy == before.energy
    &&& after.active == before.active
    &&& after.wallet.relay_reward == before.wallet.relay_reward
    &&& after.wallet.compensation == if before.in_region_spec(region) {
        sat_add(before.wallet.compensation, amount)
    } else {
        before.wallet.compensation
    }
}

/// What the idle drain does to one node: an active node is charged the idle
/// cost through the usual energy lifecycle; an inactive node is untouched.
pub open spec fn idle_effect(before: Node, after: Node, cost: u64) -> bool {
    &&& same_identity(before, after)
    &&& after.wallet == before.wallet
    &&& if before.active {
        after.energy == energy_after(before, cost) && after.active == active_after(before, cost)
    } else {
        after.energy == before.energy && after.active == before.active
    }
}

/// The whole population after the disaster: every active node inside the
/// region deactivated and zeroed, every other node kept.
pub open spec fn disaster_applied(nodes: Seq<Node>, region: Region) -> Seq<Node> {
    Seq::new(
        nodes.len(),
        |i: int|
            if nodes[i].in_region_spec(region) && nodes[i].active {
                Node { active: false, energy: 0u64, ..nodes[i] }
            } else {
                nodes[i]
            },
    )
}

/// The whole population after the payout: every node inside the region
/// credited the amount, every other node kept.
pub open spec fn payout_applied(nodes: Seq<Node>, region: Region, amount: u64) -> Seq<Node> {
    Seq::new(
        nodes.len(),
        |i: int|
            if nodes[i].in_region_spec(region) {
                Node {
                    wallet: Wallet {
                        relay_reward: nodes[i].wallet.relay_reward,
                        compensation: sat_add(nodes[i].wallet.compensation, amount),
                    },
                    ..nodes[i]
                }
            } else {
                nodes[i]
            },
    )
}

/// The whole population after the idle drain: every active node charged the
/// idle cost, every inactive node kept.
pub open spec fn idle_applied(nodes: Seq<Node>, cost: u64) -> Seq<Node> {
    Seq::new(
        nodes.len(),
        |i: int|
            if nodes[i].active {
                consumed(nodes[i], cost)
            } else {
                nodes[i]
            },
    )
}

/// The number of nodes among the first `upto` whose position lies in the
/// region.
pub open spec fn count_in_region(nodes: Seq<Node>, region: Region, upto: int) -> int
    decreases upto,
{
    if upto <= 0 {
        0
    } else {
        count_in_region(nodes, region, upto - 1) + if nodes[upto - 1].in_region_spec(region) {
            1int
        } else {
            0int
        }
    }
}

/// The number of nodes among the first `upto` that lie in the region and
/// are still active.
pub open spec fn count_active_in_region(nodes: Seq<Node>, region: Region, upto: int) -> int
    decreases upto,
{
    if upto <= 0 {
        0
    } else {
        count_active_in_region(nodes, region, upto - 1) + if nodes[upto - 1].in_region_spec(region)
            && nodes[upto - 1].active {
            1int
        } else {
            0int
        }
    }
}

/// The number of active nodes among the first `upto`.
pub open spec fn count_active(nodes: Seq<Node>, upto: int) -> int
    decreases upto,
{
    if upto <= 0 {
        0
    } else {
        count_active(nodes, upto - 1) + if nodes[upto - 1].active {
            1int
        } else {
            0int
        }
    }
}

/// The prefix counts stay between zero and the prefix length, and the
/// active count never exceeds the region count.
pub proof fn lemma_counts_bounded(nodes: Seq<Node>, region: Region, upto: int)
    requires
        0 <= upto <= nodes.len(),
    ensures
        0 <= count_active_in_region(nodes, region, upto) <= count_in_region(nodes, region, upto)
            <= upto,
        0 <= count_active(nodes, upto) <= upto,
    decreases upto,
{
    if upto > 0 {
        lemma_counts_bounded(nodes, region, upto - 1);
    }
}

/// Deactivate and zero every active node inside the region, regardless of
/// type; nodes outside the region, and already-inactive nodes inside, are
/// untouched.
pub fn apply_disaster(nodes: &mut Vec<Node>, region: &Region)
    ensures
        final(nodes).len() == old(nodes).len(),
        final(nodes)@ == disaster_applied(old(nodes)@, *region),
        forall|i: int|
            0 <= i < old(nodes)@.len() ==> disaster_effect(
                old(nodes)@[i],
                #[trigger] final(nodes)@[i],
                *region,
            ),
{
    let n = nodes.len();
    let mut i: usize = 0;
    while i < n
        invariant
            n == nodes.len(),
            nodes.len() == old(nodes).len(),
            i <= n,
            forall|i0: int|
                0 <= i0 < i ==> #[trigger] nodes@[i0] == disaster_applied(
                    old(nodes)@,
                    *region,
                )[i0],
            forall|i0: int| i <= i0 < n ==> nodes@[i0] == old(nodes)@[i0],
        decreases n - i,
    {
        if nodes[i].active && nodes[i].in_region(region) {
            nodes[i].destroy();
        }
        i += 1;
    }
    proof {
        assert(nodes@ =~= disaster_applied(old(nodes)@, *region));
        assert forall|i: int|
            0 <= i < old(nodes)@.len() implies disaster_effect(
            old(nodes)@[i],
            #[trigger] nodes@[i],
            *region,
        ) by {
            assert(nodes@[i] == disaster_applied(old(nodes)@, *region)[i]);
        }
    }
}

/// Count the nodes inside the region and the active ones among them.
pub fn region_survival(nodes: &Vec<Node>, region: &Region) -> (r: (usize, usize))
    ensures
        r.0 == count_in_region(nodes@, *region, nodes@.len() as int),
        r.1 == count_active_in_region(nodes@, *region, nodes@.len() as int),
        r.1 <= r.0 <= nodes@.len(),
{
    let n = nodes.len();
    let mut total: usize = 0;
    let mut act: usize = 0;
    let mut i: usize = 0;
    while i < n
        invariant
            n == nodes.len(),
            i <= n,
            total == count_in_region(nodes@, *region, i as int),
            act == count_active_in_region(nodes@, *region, i as int),
        decreases n - i,
    {
        proof {
            lemma_counts_bounded(nodes@, *region, i as int);
        }
        if nodes[i].in_region(region) {
            total = total + 1;
            if nodes[i].active {
                act = act + 1;
            }
        }
        i += 1;
    }
    proof {
        lemma_counts_bounded(nodes@, *region, n as int);
    }
    (total, act)
}

/// Whether the payout is due: the region holds at least one node and the
/// ratio of still-active region nodes is at or below the survival
/// threshold, i.e. `active * survival_den <= survival_num * total`.
pub open spec fn payout_due(nodes: Seq<Node>, cfg: SimConfig) -> bool {
    let total = count_in_region(nodes, cfg.disaster_region, nodes.len() as int);
    let active = count_active_in_region(nodes, cfg.disaster_region, nodes.len() as int);
    total > 0 && active * cfg.survival_den <= cfg.survival_num * total
}

/// Decide whether the survival ratio in the disaster region has fallen to
/// or below the configured threshold.
pub fn check_payout_due(nodes: &Vec<Node>, cfg: &SimConfig) -> (r: bool)
    ensures
        r == payout_due(nodes@, *cfg),
{
    let (total, act) = region_survival(nodes, &cfg.disaster_region);
    if total == 0 {
        return false;
    }
    assert((act as int) * (cfg.survival_den as int) <= (u64::MAX as int) * (u64::MAX as int))
        by (nonlinear_arith)
        requires
            act as int <= u64::MAX as int && cfg.survival_den <= u64::MAX,
            act >= 0,
    ;
    assert((cfg.survival_num as int) * (total as int) <= (u64::MAX as int) * (u64::MAX as int))
        by (nonlinear_arith)
        requires
            total as int <= u64::MAX as int && cfg.survival_num <= u64::MAX,
            total >= 0,
    ;
    (act as u128) * (cfg.survival_den as u128) <= (cfg.survival_num as u128) * (total as u128)
}

/// Credit the compensation to every node whose position lies in the
/// region, whether or not it is still active; every other node is
/// untouched.
pub fn apply_payout(nodes: &mut Vec<Node>, region: &Region, amount: u64)
    ensures
        final(nodes).len() == old(nodes).len(),
        final(nodes)@ == payout_applied(old(nodes)@, *region, amount),
        forall|i: int|
            0 <= i < old(nodes)@.len() ==> payout_effect(
                old(nodes)@[i],
                #[trigger] final(nodes)@[i],
                *region,
                amount,
            ),
{
    let n = nodes.len();
    let mut i: usize = 0;
    while i < n
        invariant
            n == nodes.len(),
            nodes.len() == old(nodes).len(),
            i <= n,
            forall|i0: int|
                0 <= i0 < i ==> #[trigger] nodes@[i0] == payout_applied(
                    old(nodes)@,
                    *region,
                    amount,
                )[i0],
            forall|i0: int| i <= i0 < n ==> nodes@[i0] == old(nodes)@[i0],
        decreases n - i,
    {
        if nodes[i].in_region(region) {
            nodes[i].credit_compensation(amount);
        }
        i += 1;
    }
    proof {
        assert(nodes@ =~= payout_applied(old(nodes)@, *region, amount));
        assert forall|i: int|
            0 <= i < old(nodes)@.len() implies payout_effect(
            old(nodes)@[i],
            #[trigger] nodes@[i],
            *region,
            amount,
        ) by {
            assert(nodes@[i] == payout_applied(old(nodes)@, *region, amount)[i]);
        }
    }
}

/// The one-shot payout monitor: runs only once the disaster has struck and
/// only until it has fired; when the survival ratio is at or below the
/// threshold it credits every region node exactly once. Re-running the
/// monitor after it has fired changes nothing.
pub fn run_oracle(nodes: &mut Vec<Node>, cfg: &SimConfig, disaster_struck: bool, payout_done: bool) -> (fired: bool)
    ensures
        fired == (disaster_struck && !payout_done && payout_due(old(nodes)@, *cfg)),
        final(nodes).len() == old(nodes).len(),
        !fired ==> final(nodes)@ == old(nodes)@,
        fired ==> final(nodes)@ == payout_applied(
            old(nodes)@,
            cfg.disaster_region,
            cfg.payout_amount,
        ),
        fired ==> forall|i: int|
            0 <= i < old(nodes)@.len() ==> payout_effect(
                old(nodes)@[i],
                #[trigger] final(nodes)@[i],
                cfg.disaster_region,
                cfg.payout_amount,
            ),
{
    if !disaster_struck || payout_done {
        return false;
    }
    let due = check_payout_due(nodes, cfg);
    if due {
        apply_payout(nodes, &cfg.disaster_region, cfg.payout_amount);
        true
    } else {
        false
    }
}

/// Charge every active node the idle cost for this step. Returns the total
/// energy charged: the idle cost once per active node, saturating.
pub fn idle_drain(nodes: &mut Vec<Node>, cost: u64) -> (charged: u64)
    ensures
        final(nodes).len() == old(nodes).len(),
        final(nodes)@ == idle_applied(old(nodes)@, cost),
        forall|i: int|
            0 <= i < old(nodes)@.len() ==> idle_effect(
                old(nodes)@[i],
                #[trigger] final(nodes)@[i],
                cost,
            ),
        charged == sat_cap(cost * count_active(old(nodes)@, old(nodes)@.len() as int)),
{
    let n = nodes.len();
    let mut charged: u64 = 0;
    let mut i: usize = 0;
    while i < n
        invariant
            n == nodes.len(),
            nodes.len() == old(nodes).len(),
            i <= n,
            charged == sat_cap(cost * count_active(old(nodes)@, i as int)),
            forall|i0: int|
                0 <= i0 < i ==> #[trigger] nodes@[i0] == idle_applied(old(nodes)@, cost)[i0],
            forall|i0: int| i <= i0 < n ==> nodes@[i0] == old(nodes)@[i0],
        decreases n - i,
    {
        let ghost c = count_active(old(nodes)@, i as int);
        proof {
            lemma_counts_bounded(old(nodes)@, Region { y_min: 0, y_max: 0 }, i as int);
        }
        if nodes[i].active {
            nodes[i].consume(cost);
            proof {
                lemma_sat_cap_add(cost * c, cost);
                assert(cost * (c + 1) == cost * c + cost) by (nonlinear_arith);
            }
            charged = add_sat(charged, cost);
        }
        i += 1;
    }
    proof {
        assert(nodes@ =~= idle_applied(old(nodes)@, cost));
        assert forall|i: int|
            0 <= i < old(nodes)@.len() implies idle_effect(
            old(nodes)@[i],
            #[trigger] nodes@[i],
            cost,
        ) by {
            assert(nodes@[i] == idle_applied(old(nodes)@, cost)[i]);
        }
    }
    charged
}

/// Whether the packet must relay at the start of its processing: it has not
/// arrived, has forwards left, and its holder is still active.
pub open spec fn relays(nodes: Seq<Node>, packet: Packet) -> bool {
    &&& packet.current() != packet.dest
    &&& packet.ttl > 0
    &&& nodes[packet.current() as int].active
}

/// Whether neighbor `j` is eligible to receive the packet at the start of
/// its processing: on the holder's peer list, not yet on the packet's path,
/// not yet targeted by this identity this step, and active.
pub open spec fn eligible(nodes: Seq<Node>, targets: TargetSet, packet: Packet, j: u32) -> bool {
    &&& nodes[packet.current() as int].peers@.contains(j)
    &&& !packet.path@.contains(j)
    &&& !targets.targeted(packet.origin_step, j)
    &&& j < nodes.len()
    &&& nodes[j as int].active
}

/// Whether some packet at position `from` or later of the queue was
/// forwarded to node `j`, i.e. ends its path there.
pub open spec fn forwarded_to(q: Seq<Packet>, from: int, j: u32) -> bool {
    exists|m: int| from <= m < q.len() && (#[trigger] q[m]).path@.last() == j
}

/// One forwarded copy appended while processing `packet`: same identity and
/// destination, one more hop, one less TTL, and the path extended by exactly
/// one id that was eligible at the start of the processing.
pub open spec fn appended_ok(
    pre: Seq<Node>,
    t0: TargetSet,
    packet: Packet,
    q: Packet,
    n: int,
) -> bool {
    &&& q.origin_step == packet.origin_step
    &&& q.dest == packet.dest
    &&& q.hops == packet.hops + 1
    &&& q.ttl == packet.ttl - 1
    &&& q.path@.len() == packet.path@.len() + 1
    &&& q.path@ == packet.path@.push(q.path@.last())
    &&& eligible(pre, t0, packet, q.path@.last())
    &&& q.wf(n)
}

/// How one node's state evolves while `packet` is processed: the holder is
/// charged the transmit cost, each accepted neighbor is charged the receive
/// cost (plus, in swarm mode, the relay reward), and every other node is
/// untouched.
pub open spec fn node_evolution(
    pre: Seq<Node>,
    post: Seq<Node>,
    nq: Seq<Packet>,
    from: int,
    packet: Packet,
    mode: Mode,
    cfg: SimConfig,
    i: int,
) -> bool {
    let b = pre[i];
    let a = post[i];
    &&& same_identity(b, a)
    &&& a.wallet.compensation == b.wallet.compensation
    &&& if !relays(pre, packet) {
        a == b
    } else if i == packet.current() as int {
        a.energy == energy_after(b, cfg.cost_tx) && a.active == active_after(b, cfg.cost_tx)
            && a.wallet == b.wallet
    } else if forwarded_to(nq, from, i as u32) {
        a.energy == energy_after(b, cfg.cost_rx) && a.active == active_after(b, cfg.cost_rx)
            && a.wallet.relay_reward == (if mode == Mode::Swarm {
            sat_add(b.wallet.relay_reward, cfg.relay_reward)
        } else {
            b.wallet.relay_reward
        })
    } else {
        a == b
    }
}

/// The policy hierarchy made quantitative, for one packet processed from
/// one common state: flooding forwards a copy to every eligible neighbor,
/// while any swarm outcome forwards to a pairwise-distinct subset of the
/// eligible neighbors, so flooding appends at least as many copies and is
/// charged at least as much energy for this packet — whatever the swarm
/// draws were. The hypotheses are exactly what `process_packet` ensures of
/// a flooding call and of a swarm call made from the same state.
pub proof fn lemma_flooding_packet_charge_dominates(
    pre: Seq<Node>,
    t0: TargetSet,
    packet: Packet,
    cfg: SimConfig,
    flood_q: Seq<Packet>,
    from_f: int,
    swarm_q: Seq<Packet>,
    from_s: int,
)
    requires
        0 <= from_f <= flood_q.len(),
        0 <= from_s <= swarm_q.len(),
        forall|m: int|
            from_f <= m < flood_q.len() ==> eligible(
                pre,
                t0,
                packet,
                (#[trigger] flood_q[m]).path@.last(),
            ),
        forall|m1: int, m2: int|
            from_f <= m1 < m2 < flood_q.len() ==> (#[trigger] flood_q[m1]).path@.last() != (
            #[trigger] flood_q[m2]).path@.last(),
        forall|j: u32| #[trigger] eligible(pre, t0, packet, j) ==> forwarded_to(flood_q, from_f, j),
        forall|m: int|
            from_s <= m < swarm_q.len() ==> eligible(
                pre,
                t0,
                packet,
                (#[trigger] swarm_q[m]).path@.last(),
            ),
        forall|m1: int, m2: int|
            from_s <= m1 < m2 < swarm_q.len() ==> (#[trigger] swarm_q[m1]).path@.last() != (
            #[trigger] swarm_q[m2]).path@.last(),
    ensures
        swarm_q.len() - from_s <= flood_q.len() - from_f,
        sat_cap(cfg.cost_tx + cfg.cost_rx * (swarm_q.len() - from_s)) <= sat_cap(
            cfg.cost_tx + cfg.cost_rx * (flood_q.len() - from_f),
        ),
{
    let fl = flood_q.subrange(from_f, flood_q.len() as int).map_values(
        |p: Packet| p.path@.last(),
    );
    let sl = swarm_q.subrange(from_s, swarm_q.len() as int).map_values(
        |p: Packet| p.path@.last(),
    );
    assert(fl.len() == flood_q.len() - from_f);
    assert(sl.len() == swarm_q.len() - from_s);
    assert forall|i: int, j: int|
        0 <= i < fl.len() && 0 <= j < fl.len() && i != j implies fl[i] != fl[j] by {
        assert(fl[i] == flood_q[from_f + i].path@.last());
        assert(fl[j] == flood_q[from_f + j].path@.last());
    }
    assert forall|i: int, j: int|
        0 <= i < sl.len() && 0 <= j < sl.len() && i != j implies sl[i] != sl[j] by {
        assert(sl[i] == swarm_q[from_s + i].path@.last());
        assert(sl[j] == swarm_q[from_s + j].path@.last());
    }
    fl.unique_seq_to_set();
    sl.unique_seq_to_set();
    vstd::seq_lib::seq_to_set_is_finite(fl);
    assert forall|x: u32| sl.to_set().contains(x) implies fl.to_set().contains(x) by {
        assert(sl.contains(x));
        let i = choose|i: int| 0 <= i < sl.len() && sl[i] == x;
        assert(sl[i] == swarm_q[from_s + i].path@.last());
        assert(eligible(pre, t0, packet, x));
        assert(forwarded_to(flood_q, from_f, x));
        let m = choose|m: int|
            from_f <= m < flood_q.len() && (#[trigger] flood_q[m]).path@.last() == x;
        assert(fl[m - from_f] == x);
        assert(fl.contains(x));
    }
    assert(sl.to_set().subset_of(fl.to_set()));
    vstd::set_lib::lemma_len_subset(sl.to_set(), fl.to_set());
    let a = swarm_q.len() - from_s;
    let b = flood_q.len() - from_f;
    let c = cfg.cost_rx as int;
    assert(c * a <= c * b) by (nonlinear_arith)
        requires
            a <= b && 0 <= a && c >= 0,
    ;
}

/// `eligible`, with the suppression record given abstractly as the set of
/// already-targeted identity-node pairs.
pub open spec fn eligible_set(
    nodes: Seq<Node>,
    marked: Set<(u32, u32)>,
    packet: Packet,
    j: u32,
) -> bool {
    &&& nodes[packet.current() as int].peers@.contains(j)
    &&& !packet.path@.contains(j)
    &&& !marked.contains((packet.origin_step, j))
    &&& j < nodes.len()
    &&& nodes[j as int].active
}

/// `appended_ok`, over the abstract suppression set.
pub open spec fn appended_ok_set(
    pre: Seq<Node>,
    marked: Set<(u32, u32)>,
    packet: Packet,
    q: Packet,
    n: int,
) -> bool {
    &&& q.origin_step == packet.origin_step
    &&& q.dest == packet.dest
    &&& q.hops == packet.hops + 1
    &&& q.ttl == packet.ttl - 1
    &&& q.path@.len() == packet.path@.len() + 1
    &&& q.path@ == packet.path@.push(q.path@.last())
    &&& eligible_set(pre, marked, packet, q.path@.last())
    &&& q.wf(n)
}

/// One copy's processing, exactly as `process_packet` guarantees it, for
/// some outcome of the relay draws: how the population, the abstract
/// suppression set and the next-step queue may change, and what is charged.
pub open spec fn packet_step_rel(
    pre: Seq<Node>,
    marked0: Set<(u32, u32)>,
    nq0: Seq<Packet>,
    packet: Packet,
    mode: Mode,
    cfg: SimConfig,
    post: Seq<Node>,
    marked1: Set<(u32, u32)>,
    nq1: Seq<Packet>,
    charged: u64,
) -> bool {
    let from = nq0.len() as int;
    &&& post.len() == pre.len()
    &&& (!relays(pre, packet) ==> post == pre && nq1 == nq0 && marked1 == marked0 && charged == 0)
    &&& nq0.len() <= nq1.len()
    &&& (forall|m: int| 0 <= m < nq0.len() ==> nq1[m] == nq0[m])
    &&& (relays(pre, packet) ==> charged == sat_cap(
        cfg.cost_tx + cfg.cost_rx * (nq1.len() - nq0.len()),
    ))
    &&& (forall|m: int|
        from <= m < nq1.len() ==> appended_ok_set(
            pre,
            marked0,
            packet,
            #[trigger] nq1[m],
            pre.len() as int,
        ))
    &&& (forall|m1: int, m2: int|
        from <= m1 < m2 < nq1.len() ==> (#[trigger] nq1[m1]).path@.last() != (
        #[trigger] nq1[m2]).path@.last())
    &&& (forall|p: u32, j: u32|
        #[trigger] marked1.contains((p, j)) <==> marked0.contains((p, j)) || (p
            == packet.origin_step && forwarded_to(nq1, from, j)))
    &&& (forall|i: int|
        0 <= i < pre.len() ==> #[trigger] node_evolution(pre, post, nq1, from, packet, mode, cfg, i))
    &&& (mode == Mode::Flooding && relays(pre, packet) ==> forall|j: u32|
        #[trigger] eligible_set(pre, marked0, packet, j) ==> forwarded_to(nq1, from, j))
    &&& (mode == Mode::Swarm && relays(pre, packet) ==> forall|j: u32|
        #[trigger] eligible_set(pre, marked0, packet, j) && pre[j as int].node_type
            == NodeType::BaseStation ==> forwarded_to(nq1, from, j))
}

/// The whole queue drain, front to back: each copy of `q` is processed in
/// turn under `packet_step_rel`, and `charged` is the total energy charged
/// over all of them.
pub open spec fn drain_rel(
    pre: Seq<Node>,
    marked0: Set<(u32, u32)>,
    nq0: Seq<Packet>,
    q: Seq<Packet>,
    mode: Mode,
    cfg: SimConfig,
    post: Seq<Node>,
    marked1: Set<(u32, u32)>,
    nq1: Seq<Packet>,
    charged: int,
) -> bool
    decreases q.len(),
{
    if q.len() == 0 {
        post == pre && marked1 == marked0 && nq1 == nq0 && charged == 0
    } else {
        exists|mid: Seq<Node>, ms: Set<(u32, u32)>, mq: Seq<Packet>, c: u64|
            packet_step_rel(pre, marked0, nq0, q[0], mode, cfg, mid, ms, mq, c) && drain_rel(
                mid,
                ms,
                mq,
                q.drop_first(),
                mode,
                cfg,
                post,
                marked1,
                nq1,
                charged - c,
            )
    }
}

/// Extending a drain by one more processed copy.
pub proof fn lemma_drain_rel_snoc(
    pre: Seq<Node>,
    marked0: Set<(u32, u32)>,
    nq0: Seq<Packet>,
    q: Seq<Packet>,
    mode: Mode,
    cfg: SimConfig,
    mid: Seq<Node>,
    ms: Set<(u32, u32)>,
    mq: Seq<Packet>,
    c1: int,
    p: Packet,
    post: Seq<Node>,
    marked1: Set<(u32, u32)>,
    nq1: Seq<Packet>,
    c2: u64,
)
    requires
        drain_rel(pre, marked0, nq0, q, mode, cfg, mid, ms, mq, c1),
        packet_step_rel(mid, ms, mq, p, mode, cfg, post, marked1, nq1, c2),
    ensures
        drain_rel(pre, marked0, nq0, q.push(p), mode, cfg, post, marked1, nq1, c1 + c2),
    decreases q.len(),
{
    if q.len() == 0 {
        assert(q.push(p)[0] == p);
        assert(q.push(p).drop_first() =~= Seq::<Packet>::empty());
        assert(mid == pre && ms == marked0 && mq == nq0 && c1 == 0);
        assert(packet_step_rel(pre, marked0, nq0, q.push(p)[0], mode, cfg, post, marked1, nq1, c2));
        assert(drain_rel(
            post,
            marked1,
            nq1,
            q.push(p).drop_first(),
            mode,
            cfg,
            post,
            marked1,
            nq1,
            (c1 + c2) - c2,
        ));
    } else {
        let (m1, s1, q1, c0): (Seq<Node>, Set<(u32, u32)>, Seq<Packet>, u64) = choose|
            m1: Seq<Node>,
            s1: Set<(u32, u32)>,
            q1: Seq<Packet>,
            c0: u64,
        |
            packet_step_rel(pre, marked0, nq0, q[0], mode, cfg, m1, s1, q1, c0) && drain_rel(
                m1,
                s1,
                q1,
                q.drop_first(),
                mode,
                cfg,
                mid,
                ms,
                mq,
                c1 - c0,
            );
        lemma_drain_rel_snoc(
            m1,
            s1,
            q1,
            q.drop_first(),
            mode,
            cfg,
            mid,
            ms,
            mq,
            c1 - c0,
            p,
            post,
            marked1,
            nq1,
            c2,
        );
        assert(q.push(p)[0] == q[0]);
        assert(q.push(p).drop_first() =~= q.drop_first().push(p));
        assert(packet_step_rel(pre, marked0, nq0, q.push(p)[0], mode, cfg, m1, s1, q1, c0));
        assert(drain_rel(
            m1,
            s1,
            q1,
            q.push(p).drop_first(),
            mode,
            cfg,
            post,
            marked1,
            nq1,
            (c1 + c2) - c0,
        ));
    }
}

/// The total charge of a drain is never negative.
pub proof fn lemma_drain_rel_charge_nonneg(
    pre: Seq<Node>,
    marked0: Set<(u32, u32)>,
    nq0: Seq<Packet>,
    q: Seq<Packet>,
    mode: Mode,
    cfg: SimConfig,
    post: Seq<Node>,
    marked1: Set<(u32, u32)>,
    nq1: Seq<Packet>,
    charged: int,
)
    requires
        drain_rel(pre, marked0, nq0, q, mode, cfg, post, marked1, nq1, charged),
    ensures
        charged >= 0,
    decreases q.len(),
{
    if q.len() > 0 {
        let (m1, s1, q1, c0): (Seq<Node>, Set<(u32, u32)>, Seq<Packet>, u64) = choose|
            m1: Seq<Node>,
            s1: Set<(u32, u32)>,
            q1: Seq<Packet>,
            c0: u64,
        |
            packet_step_rel(pre, marked0, nq0, q[0], mode, cfg, m1, s1, q1, c0) && drain_rel(
                m1,
                s1,
                q1,
                q.drop_first(),
                mode,
                cfg,
                post,
                marked1,
                nq1,
                charged - c0,
            );
        lemma_drain_rel_charge_nonneg(
            m1,
            s1,
            q1,
            q.drop_first(),
            mode,
            cfg,
            post,
            marked1,
            nq1,
            charged - c0,
        );
    }
}

/// Process one in-flight packet copy.
///
/// A copy whose path ends at its destination is delivered and returned; a
/// copy with no TTL left or an inactive holder is silently dropped. Any
/// other copy charges its holder the transmit cost and offers itself to
/// every eligible neighbor — one not yet on its path, not yet targeted by
/// its identity this step, and active. Each neighbor that the mode's policy
/// accepts is charged the receive cost (and, in swarm mode, credited the
/// relay reward), recorded in the suppression set, and a copy extended to
/// it is appended to the next step's queue. The first component of the
/// result is the total energy charged.
///
/// In flooding mode every eligible neighbor is accepted; in swarm mode
/// every eligible base station is accepted, and smartphones are accepted
/// according to the energy-dependent draw.
pub fn process_packet(
    nodes: &mut Vec<Node>,
    targets: &mut TargetSet,
    next_queue: &mut Vec<Packet>,
    packet: &Packet,
    mode: Mode,
    cfg: &SimConfig,
) -> (r: (u64, bool))
    requires
        cfg.valid(),
        old(nodes)@.len() == cfg.node_count,
        nodes_wf(old(nodes)@),
        packet.wf(old(nodes)@.len() as int),
    ensures
        final(nodes)@.len() == old(nodes)@.len(),
        nodes_wf(final(nodes)@),
        r.1 == (packet.current() == packet.dest),
        !relays(old(nodes)@, *packet) ==> final(nodes)@ == old(nodes)@ && final(next_queue)@ == old(
            next_queue,
        )@ && *final(targets) == *old(targets) && r.0 == 0,
        old(next_queue)@.len() <= final(next_queue)@.len(),
        forall|m: int|
            0 <= m < old(next_queue)@.len() ==> final(next_queue)@[m] == old(next_queue)@[m],
        relays(old(nodes)@, *packet) ==> r.0 == sat_cap(
            cfg.cost_tx + cfg.cost_rx * (final(next_queue)@.len() - old(next_queue)@.len()),
        ),
        forall|m: int|
            old(next_queue)@.len() <= m < final(next_queue)@.len() ==> appended_ok(
                old(nodes)@,
                *old(targets),
                *packet,
                #[trigger] final(next_queue)@[m],
                old(nodes)@.len() as int,
            ),
        forall|m1: int, m2: int|
            old(next_queue)@.len() <= m1 < m2 < final(next_queue)@.len() ==> (
            #[trigger] final(next_queue)@[m1]).path@.last() != (
            #[trigger] final(next_queue)@[m2]).path@.last(),
        forall|p: u32, j: u32|
            #[trigger] final(targets).targeted(p, j) <==> old(targets).targeted(p, j) || (p
                == packet.origin_step && forwarded_to(
                final(next_queue)@,
                old(next_queue)@.len() as int,
                j,
            )),
        forall|i: int|
            0 <= i < old(nodes)@.len() ==> #[trigger] node_evolution(
                old(nodes)@,
                final(nodes)@,
                final(next_queue)@,
                old(next_queue)@.len() as int,
                *packet,
                mode,
                *cfg,
                i,
            ),
        mode == Mode::Flooding && relays(old(nodes)@, *packet) ==> forall|j: u32|
            #[trigger] eligible(old(nodes)@, *old(targets), *packet, j) ==> forwarded_to(
                final(next_queue)@,
                old(next_queue)@.len() as int,
                j,
            ),
        mode == Mode::Swarm && relays(old(nodes)@, *packet) ==> forall|j: u32|
            #[trigger] eligible(old(nodes)@, *old(targets), *packet, j) && old(
                nodes,
            )@[j as int].node_type == NodeType::BaseStation ==> forwarded_to(
                final(next_queue)@,
                old(next_queue)@.len() as int,
                j,
            ),
{
    let ghost pre = old(nodes)@;
    let ghost t0 = *old(targets);
    let ghost nq0 = old(next_queue)@;
    let ghost from = old(next_queue)@.len() as int;
    let cur = packet.path[packet.path.len() - 1];
    assert(cur == packet.current());
    if cur == packet.dest {
        return (0, true);
    }
    if packet.ttl == 0 || !nodes[cur as usize].active {
        return (0, false);
    }
    assert(relays(pre, *packet));
    assert(wf_node_at(pre, cur as int));
    nodes[cur as usize].consume(cfg.cost_tx);
    let mut charged: u64 = cfg.cost_tx;
    let peers_len = nodes[cur as usize].peers.len();
    let ghost cpeers = pre[cur as int].peers@;
    let mut k: usize = 0;
    while k < peers_len
        invariant
            cfg.valid(),
            nodes@.len() == pre.len(),
            pre.len() == cfg.node_count,
            nodes_wf(pre),
            packet.wf(pre.len() as int),
            cur == packet.current(),
            (cur as int) < pre.len(),
            relays(pre, *packet),
            cpeers == pre[cur as int].peers@,
            peers_len == cpeers.len(),
            k <= peers_len,
            from == nq0.len(),
            from <= next_queue@.len(),
            forall|m: int| 0 <= m < from ==> next_queue@[m] == nq0[m],
            charged == sat_cap(cfg.cost_tx + cfg.cost_rx * (next_queue@.len() - from)),
            forall|m: int|
                from <= m < next_queue@.len() ==> appended_ok(
                    pre,
                    t0,
                    *packet,
                    #[trigger] next_queue@[m],
                    pre.len() as int,
                ),
            forall|m1: int, m2: int|
                from <= m1 < m2 < next_queue@.len() ==> (#[trigger] next_queue@[m1]).path@.last()
                    != (#[trigger] next_queue@[m2]).path@.last(),
            forall|p: u32, j: u32|
                #[trigger] targets.targeted(p, j) <==> t0.targeted(p, j) || (p
                    == packet.origin_step && forwarded_to(next_queue@, from, j)),
            forall|i: int|
                0 <= i < pre.len() ==> #[trigger] node_evolution(
                    pre,
                    nodes@,
                    next_queue@,
                    from,
                    *packet,
                    mode,
                    *cfg,
                    i,
                ),
            mode == Mode::Flooding ==> forall|m: int|
                0 <= m < k ==> (eligible(pre, t0, *packet, #[trigger] cpeers[m]) ==> forwarded_to(
                    next_queue@,
                    from,
                    cpeers[m],
                )),
            mode == Mode::Swarm ==> forall|m: int|
                0 <= m < k ==> (eligible(pre, t0, *packet, #[trigger] cpeers[m])
                    && pre[cpeers[m] as int].node_type == NodeType::BaseStation ==> forwarded_to(
                    next_queue@,
                    from,
                    cpeers[m],
                )),
        decreases peers_len - k,
    {
        assert(node_evolution(pre, nodes@, next_queue@, from, *packet, mode, *cfg, cur as int));
        assert(nodes@[cur as int].peers@ == cpeers);
        let j = nodes[cur as usize].peers[k];
        assert(j < pre.len()) by {
            assert(wf_node_at(pre, cur as int));
            assert(j == cpeers[k as int]);
            assert(pre[cur as int].peers@[k as int] < pre.len());
        }
        let jx = j as usize;
        let on_path = contains_id(&packet.path, j);
        let already = targets.is_targeted(packet.origin_step, j);
        if !on_path && !already {
            assert(j != cur);
            assert(!forwarded_to(next_queue@, from, j));
            assert(node_evolution(pre, nodes@, next_queue@, from, *packet, mode, *cfg, j as int));
            assert(nodes@[j as int] == pre[j as int]);
            if nodes[jx].active {
                assert(eligible(pre, t0, *packet, j)) by {
                    assert(cpeers[k as int] == j);
                }
                let draw = if mode == Mode::Swarm {
                    rand_below(cfg.swarm_den)
                } else {
                    0
                };
                let accept = forward_decision(
                    mode,
                    nodes[jx].node_type,
                    nodes[jx].energy,
                    cfg.smartphone_energy,
                    cfg.swarm_num,
                    draw,
                );
                if accept {
                    let ghost nodes_before = nodes@;
                    let ghost nq_before = next_queue@;
                    let ghost count_before = next_queue@.len() - from;
                    nodes[jx].consume(cfg.cost_rx);
                    if mode == Mode::Swarm {
                        nodes[jx].credit_relay_reward(cfg.relay_reward);
                    }
                    proof {
                        lemma_sat_cap_add(
                            cfg.cost_tx + cfg.cost_rx * count_before,
                            cfg.cost_rx,
                        );
                        assert(cfg.cost_rx * (count_before + 1) == cfg.cost_rx * count_before
                            + cfg.cost_rx) by (nonlinear_arith);
                    }
                    charged = add_sat(charged, cfg.cost_rx);
                    let mut new_path = copy_ids(&packet.path);
                    new_path.push(j);
                    proof {
                        lemma_path_extension_nodup(packet.path@, j);
                    }
                    let fwd = Packet {
                        origin_step: packet.origin_step,
                        path: new_path,
                        dest: packet.dest,
                        hops: packet.hops + 1,
                        ttl: packet.ttl - 1,
                    };
                    next_queue.push(fwd);
                    targets.mark(packet.origin_step, j);
                    proof {
                        let nq = next_queue@;
                        let last = nq.len() - 1;
                        assert(nq[last].path@.last() == j);
                        assert(appended_ok(pre, t0, *packet, nq[last], pre.len() as int));
                        assert forall|jj: u32| #[trigger]
                            forwarded_to(nq, from, jj) implies (forwarded_to(nq_before, from, jj)
                            || jj == j) by {
                            let m = choose|m: int|
                                from <= m < nq.len() && (#[trigger] nq[m]).path@.last() == jj;
                            if m < last {
                                assert(nq_before[m].path@.last() == jj);
                            }
                        }
                        assert forall|jj: u32|
                            forwarded_to(nq_before, from, jj) implies #[trigger] forwarded_to(
                            nq,
                            from,
                            jj,
                        ) by {
                            let m = choose|m: int|
                                from <= m < nq_before.len() && (
                                #[trigger] nq_before[m]).path@.last() == jj;
                            assert(nq[m].path@.last() == jj);
                        }
                        assert(forwarded_to(nq, from, j));
                        assert forall|i: int| 0 <= i < pre.len() implies #[trigger] node_evolution(
                            pre,
                            nodes@,
                            nq,
                            from,
                            *packet,
                            mode,
                            *cfg,
                            i,
                        ) by {
                            assert(node_evolution(
                                pre,
                                nodes_before,
                                nq_before,
                                from,
                                *packet,
                                mode,
                                *cfg,
                                i,
                            ));
                            if i != j as int {
                                assert(nodes@[i] == nodes_before[i]);
                                assert(forwarded_to(nq, from, i as u32) == forwarded_to(
                                    nq_before,
                                    from,
                                    i as u32,
                                ));
                            }
                        }
                    }
                }
            }
        }
        k += 1;
    }
    proof {
        assert forall|i: int| 0 <= i < nodes@.len() implies #[trigger] wf_node_at(nodes@, i) by {
            assert(wf_node_at(pre, i));
            assert(node_evolution(pre, nodes@, next_queue@, from, *packet, mode, *cfg, i));
            let b = pre[i];
            let a = nodes@[i];
            if i == packet.current() as int {
                lemma_consume_preserves_inv(b, a, cfg.cost_tx);
            } else if forwarded_to(next_queue@, from, i as u32) {
                lemma_consume_preserves_inv(b, a, cfg.cost_rx);
            }
            assert forall|k2: int|
                0 <= k2 < a.peers@.len() implies #[trigger] a.peers@[k2] < nodes@.len() by {
                assert(pre[i].peers@[k2] < pre.len());
            }
        }
        if mode == Mode::Flooding {
            assert forall|j: u32| #[trigger]
                eligible(pre, t0, *packet, j) implies forwarded_to(next_queue@, from, j) by {
                let m = choose|m: int| 0 <= m < cpeers.len() && cpeers[m] == j;
                assert(eligible(pre, t0, *packet, cpeers[m]));
            }
        }
        if mode == Mode::Swarm {
            assert forall|j: u32| #[trigger]
                eligible(pre, t0, *packet, j) && pre[j as int].node_type
                == NodeType::BaseStation implies forwarded_to(next_queue@, from, j) by {
                let m = choose|m: int| 0 <= m < cpeers.len() && cpeers[m] == j;
                assert(eligible(pre, t0, *packet, cpeers[m]));
            }
        }
    }
    (charged, false)
}

} // verus!
