//! One simulation run: the state machine that advances step by step, and
//! the driver that runs a whole scenario.

use vstd::prelude::*;
use crate::arith::add_sat;
use crate::arith::sat_cap;
use crate::arith::lemma_sat_cap_add;
use crate::config::ConfigError;
use crate::config::Mode;
use crate::config::SimConfig;
use crate::arith::lemma_sat_cap_absorb;
use crate::engine::apply_disaster;
use crate::engine::appended_ok_set;
use crate::engine::count_active;
use crate::engine::disaster_applied;
use crate::engine::drain_rel;
use crate::engine::eligible_set;
use crate::engine::forwarded_to;
use crate::engine::idle_applied;
use crate::engine::idle_drain;
use crate::engine::lemma_counts_bounded;
use crate::engine::lemma_drain_rel_snoc;
use crate::engine::node_evolution;
use crate::engine::nodes_wf;
use crate::engine::packet_step_rel;
use crate::engine::payout_applied;
use crate::engine::payout_due;
use crate::engine::process_packet;
use crate::engine::relays;
use crate::engine::run_oracle;
use crate::engine::wf_node_at;
use crate::population::network_node;
use crate::topology::lemma_path_in_topology_congruence;
use crate::topology::path_in_topology;
use crate::topology::peers_exact;
use crate::node::Node;
use crate::node::NodeType;
use crate::node::same_identity;
use crate::packet::Packet;
use crate::population::build_network;
use crate::targets::TargetSet;

verus! {

/// Aggregate counters of one run, each saturating at the largest value.
#[derive(Clone, Copy, PartialEq, Eq, Structural, Debug)]
pub struct SimStats {
    /// Total energy charged across all nodes.
    pub total_energy: u64,
    /// Packets that reached their destination.
    pub delivered: u64,
    /// Hops summed over all delivered packets.
    pub total_hops: u64,
}

/// What one step reported to the outside observer.
pub struct StepReport {
    /// The disaster struck during this step.
    pub disaster_started: bool,
    /// The payout fired during this step.
    pub payout_fired: bool,
    /// The packets that completed delivery this step, with their paths.
    pub delivered: Vec<Packet>,
}

/// The hop counts of a list of packets, summed.
pub open spec fn hops_sum(s: Seq<Packet>) -> int
    decreases s.len(),
{
    if s.len() == 0 {
        0
    } else {
        hops_sum(s.drop_last()) + s.last().hops
    }
}

/// A value-level picture of one packet: identity, path, destination, hop
/// count and remaining TTL. Two copies with the same model are
/// interchangeable; delivery records are pinned by their models.
pub struct PacketModel {
    /// The step at which the copy's line was injected.
    pub origin_step: u32,
    /// The ids visited so far, in order.
    pub path: Seq<u32>,
    /// The id the copy is addressed to.
    pub dest: u32,
    /// Successful forwards so far.
    pub hops: u32,
    /// Remaining permitted forwards.
    pub ttl: u32,
}

/// The model of one packet.
pub open spec fn packet_model(p: Packet) -> PacketModel {
    PacketModel {
        origin_step: p.origin_step,
        path: p.path@,
        dest: p.dest,
        hops: p.hops,
        ttl: p.ttl,
    }
}

/// The models of a queue's copies, in order.
pub open spec fn models_of(s: Seq<Packet>) -> Seq<PacketModel> {
    s.map_values(|p: Packet| packet_model(p))
}

/// Whether a modeled copy has arrived: its path ends at its destination.
pub open spec fn model_arrived(m: PacketModel) -> bool {
    m.path.len() > 0 && m.path.last() == m.dest
}

/// The arrived copies among a modeled queue, in order.
pub open spec fn model_arrivals(q: Seq<PacketModel>) -> Seq<PacketModel>
    decreases q.len(),
{
    if q.len() == 0 {
        Seq::empty()
    } else {
        model_arrivals(q.drop_last()) + (if model_arrived(q.last()) {
            seq![q.last()]
        } else {
            Seq::empty()
        })
    }
}

/// The hop counts of a modeled queue, summed.
pub open spec fn model_hops_sum(s: Seq<PacketModel>) -> int
    decreases s.len(),
{
    if s.len() == 0 {
        0
    } else {
        model_hops_sum(s.drop_last()) + s.last().hops
    }
}

/// The hop sum of a queue equals the hop sum of its models.
pub proof fn lemma_hops_sum_models(s: Seq<Packet>)
    ensures
        model_hops_sum(models_of(s)) == hops_sum(s),
    decreases s.len(),
{
    if s.len() > 0 {
        lemma_hops_sum_models(s.drop_last());
        assert(models_of(s).drop_last() =~= models_of(s.drop_last()));
        assert(models_of(s).last() == packet_model(s.last()));
    }
}

/// What one simulated step may do to a node: identity fixed, deactivation
/// permanent, energy never rising, balances never falling.
pub open spec fn step_node_frame(b: Node, a: Node) -> bool {
    &&& same_identity(b, a)
    &&& (!b.active ==> !a.active)
    &&& a.energy <= b.energy
    &&& a.wallet.relay_reward >= b.wallet.relay_reward
    &&& a.wallet.compensation >= b.wallet.compensation
}

/// The full state of one run.
pub struct Simulation {
    /// The scenario being run; never changes during the run.
    pub cfg: SimConfig,
    /// The forwarding strategy; never changes during the run.
    pub mode: Mode,
    /// The population, indexed by node id.
    pub nodes: Vec<Node>,
    /// The in-flight packet copies of the current step.
    pub queue: Vec<Packet>,
    /// How many steps have completed.
    pub steps_done: u32,
    /// Whether the disaster has struck.
    pub disaster_struck: bool,
    /// Whether the one-shot payout has fired.
    pub payout_done: bool,
    /// The aggregate counters so far.
    pub stats: SimStats,
}

impl Simulation {
    /// Queue well-formedness: every queued copy is well-formed, was
    /// injected at a step that already ran, and no two copies of one
    /// identity were forwarded to the same node.
    pub open spec fn queue_wf(self) -> bool {
        &&& forall|m: int|
            0 <= m < self.queue@.len() ==> (#[trigger] self.queue@[m]).wf(self.nodes@.len() as int)
        &&& forall|m: int|
            0 <= m < self.queue@.len() ==> (#[trigger] self.queue@[m]).origin_step
                <= self.steps_done
        &&& forall|m1: int, m2: int|
            0 <= m1 < m2 < self.queue@.len() && (#[trigger] self.queue@[m1]).origin_step == (
            #[trigger] self.queue@[m2]).origin_step ==> self.queue@[m1].path@.last()
                != self.queue@[m2].path@.last()
        &&& forall|m: int|
            0 <= m < self.queue@.len() ==> path_in_topology(
                self.nodes@,
                (#[trigger] self.queue@[m]).path@,
            )
        &&& forall|m: int|
            0 <= m < self.queue@.len() ==> (#[trigger] self.queue@[m]).path@[0] == self.cfg.origin
        &&& forall|m: int|
            0 <= m < self.queue@.len() ==> (#[trigger] self.queue@[m]).hops + self.queue@[m].ttl
                == self.cfg.ttl
        &&& forall|m: int|
            0 <= m < self.queue@.len() ==> (#[trigger] self.queue@[m]).path@.len()
                == self.queue@[m].hops + 1
    }

    /// The run's state invariant.
    pub open spec fn wf(self) -> bool {
        &&& self.cfg.valid()
        &&& self.nodes@.len() == self.cfg.node_count
        &&& nodes_wf(self.nodes@)
        &&& self.queue_wf()
        &&& self.steps_done <= self.cfg.max_steps
    }

    /// Whether the disaster strikes on the next step.
    pub open spec fn disaster_strikes_next(self) -> bool {
        self.steps_done + 1 == self.cfg.disaster_step
    }

    /// The population as it stands right after the next step's disaster
    /// phase.
    pub open spec fn nodes_after_disaster(self) -> Seq<Node> {
        if self.disaster_strikes_next() {
            disaster_applied(self.nodes@, self.cfg.disaster_region)
        } else {
            self.nodes@
        }
    }

    /// Whether the payout fires on the next step: the disaster has struck
    /// (possibly this very step), the payout has not fired yet, and the
    /// survival ratio right after the disaster phase is at or below the
    /// threshold.
    pub open spec fn payout_fires_next(self) -> bool {
        &&& self.disaster_struck || self.disaster_strikes_next()
        &&& !self.payout_done
        &&& payout_due(self.nodes_after_disaster(), self.cfg)
    }

    /// The population as it stands right after the next step's payout
    /// phase.
    pub open spec fn nodes_after_oracle(self) -> Seq<Node> {
        if self.payout_fires_next() {
            payout_applied(
                self.nodes_after_disaster(),
                self.cfg.disaster_region,
                self.cfg.payout_amount,
            )
        } else {
            self.nodes_after_disaster()
        }
    }

    /// Whether the next step injects a fresh copy: the origin must still be
    /// active once the disaster and payout phases have run.
    pub open spec fn injects_next(self) -> bool {
        self.nodes_after_oracle()[self.cfg.origin as int].active
    }

    /// The model of the fresh copy the next step injects: a singleton path
    /// at the origin, addressed to the destination, with the full TTL.
    pub open spec fn injected_model(self) -> PacketModel {
        PacketModel {
            origin_step: (self.steps_done + 1) as u32,
            path: seq![self.cfg.origin],
            dest: self.cfg.dest,
            hops: 0u32,
            ttl: self.cfg.ttl,
        }
    }

    /// The models of the copies the next step drains: the queue carried
    /// over from the previous step, then the fresh injected copy, if any.
    pub open spec fn step_input_models(self) -> Seq<PacketModel> {
        models_of(self.queue@) + if self.injects_next() {
            seq![self.injected_model()]
        } else {
            Seq::empty()
        }
    }

    /// Start a run on the given population with empty queue and zeroed
    /// counters.
    ///
    /// Succeeds exactly when the configuration validates and the population
    /// is a well-formed network of the configured size; otherwise returns
    /// the configuration error, or `PopulationInvalid`.
    pub fn new(cfg: SimConfig, mode: Mode, nodes: Vec<Node>) -> (r: Result<Simulation, ConfigError>)
        ensures
            r is Ok <==> (cfg.validate_spec() is Ok && nodes@.len() == cfg.node_count && nodes_wf(
                nodes@,
            )),
            r is Ok ==> (r->Ok_0).wf() && (r->Ok_0).cfg == cfg && (r->Ok_0).mode == mode && (
            r->Ok_0).nodes@ == nodes@ && (r->Ok_0).queue@.len() == 0 && (r->Ok_0).steps_done == 0
                && !(r->Ok_0).disaster_struck && !(r->Ok_0).payout_done && (r->Ok_0).stats == (
            SimStats { total_energy: 0u64, delivered: 0u64, total_hops: 0u64 }),
            r is Err && cfg.validate_spec() is Err ==> r->Err_0 == cfg.validate_spec()->Err_0,
            r is Err && cfg.validate_spec() is Ok ==> r->Err_0 == ConfigError::PopulationInvalid,
    {
        match cfg.validate() {
            Err(e) => Err(e),
            Ok(()) => {
                if !check_population(&nodes, &cfg) {
                    Err(ConfigError::PopulationInvalid)
                } else {
                    Ok(
                        Simulation {
                            cfg,
                            mode,
                            nodes,
                            queue: Vec::new(),
                            steps_done: 0,
                            disaster_struck: false,
                            payout_done: false,
                            stats: SimStats { total_energy: 0, delivered: 0, total_hops: 0 },
                        },
                    )
                }
            },
        }
    }

    /// Execute one simulated step, in order: the scripted disaster (at its
    /// step), the one-shot payout monitor, packet injection at the origin
    /// (only while the origin is active), the idle energy drain, and the
    /// drain of the current queue under the mode's forward policy; the
    /// next-step queue then becomes current.
    #[verifier::rlimit(100)]
    pub fn advance(&mut self) -> (report: StepReport)
        requires
            old(self).wf(),
            old(self).steps_done < old(self).cfg.max_steps,
        ensures
            final(self).wf(),
            final(self).cfg == old(self).cfg,
            final(self).mode == old(self).mode,
            final(self).steps_done == old(self).steps_done + 1,
            final(self).nodes@.len() == old(self).nodes@.len(),
            forall|i: int|
                0 <= i < old(self).nodes@.len() ==> step_node_frame(
                    old(self).nodes@[i],
                    #[trigger] final(self).nodes@[i],
                ),
            report.disaster_started == old(self).disaster_strikes_next(),
            final(self).disaster_struck == (old(self).disaster_struck
                || old(self).disaster_strikes_next()),
            old(self).disaster_strikes_next() ==> forall|i: int|
                0 <= i < old(self).nodes@.len() && (#[trigger] old(self).nodes@[i]).in_region_spec(
                    old(self).cfg.disaster_region,
                ) ==> !final(self).nodes@[i].active && final(self).nodes@[i].energy == 0,
            report.payout_fired == old(self).payout_fires_next(),
            final(self).payout_done == (old(self).payout_done || report.payout_fired),
            forall|i: int|
                0 <= i < old(self).nodes@.len() ==> (#[trigger] final(self).nodes@[i]).wallet.compensation
                    == old(self).nodes_after_oracle()[i].wallet.compensation,
            final(self).stats.total_energy >= old(self).stats.total_energy,
            final(self).stats.delivered == sat_cap(
                old(self).stats.delivered + report.delivered@.len(),
            ),
            final(self).stats.total_hops == sat_cap(
                old(self).stats.total_hops + hops_sum(report.delivered@),
            ),
            forall|k: int|
                0 <= k < report.delivered@.len() ==> (#[trigger] report.delivered@[k]).path@.len()
                    > 0 && report.delivered@[k].path@.last() == report.delivered@[k].dest,
            forall|k: int|
                0 <= k < report.delivered@.len() ==> (#[trigger] report.delivered@[k]).wf(
                    old(self).nodes@.len() as int,
                ),
            models_of(report.delivered@) == model_arrivals(old(self).step_input_models()),
            forall|k: int|
                0 <= k < report.delivered@.len() ==> (#[trigger] report.delivered@[k]).path@[0]
                    == old(self).cfg.origin && report.delivered@[k].hops
                    + report.delivered@[k].ttl == old(self).cfg.ttl
                    && report.delivered@[k].path@.len() == report.delivered@[k].hops + 1,
            forall|k: int|
                0 <= k < report.delivered@.len() ==> path_in_topology(
                    final(self).nodes@,
                    (#[trigger] report.delivered@[k]).path@,
                ),
            exists|q_in: Seq<Packet>, marked: Set<(u32, u32)>, charge: int|
                step_drain_post(
                    *old(self),
                    final(self).nodes@,
                    final(self).queue@,
                    final(self).stats.total_energy,
                    q_in,
                    marked,
                    charge,
                ),
            advance_rel(*old(self), *final(self)),
    {
        let ghost s0 = self.nodes@;
        let ghost n = self.nodes@.len() as int;
        let step_index = self.steps_done + 1;
        let mut report_disaster = false;
        let mut report_payout = false;

        if step_index == self.cfg.disaster_step {
            apply_disaster(&mut self.nodes, &self.cfg.disaster_region);
            self.disaster_struck = true;
            report_disaster = true;
        }
        let ghost s1 = self.nodes@;
        proof {
            assert(s1 == old(self).nodes_after_disaster());
            assert forall|i: int| 0 <= i < n implies #[trigger] wf_node_at(s1, i) by {
                assert(wf_node_at(s0, i));
                if old(self).disaster_strikes_next() {
                    assert(s1[i] == disaster_applied(s0, old(self).cfg.disaster_region)[i]);
                    assert forall|k2: int|
                        0 <= k2 < s1[i].peers@.len() implies #[trigger] s1[i].peers@[k2]
                        < s1.len() by {
                        assert(s0[i].peers@[k2] < s0.len());
                    }
                }
            }
        }

        let fired = run_oracle(&mut self.nodes, &self.cfg, self.disaster_struck, self.payout_done);
        if fired {
            self.payout_done = true;
            report_payout = true;
        }
        let ghost s2 = self.nodes@;
        proof {
            assert(fired == old(self).payout_fires_next());
            assert(s2 == old(self).nodes_after_oracle());
            assert forall|i: int| 0 <= i < n implies #[trigger] wf_node_at(s2, i) by {
                assert(wf_node_at(s1, i));
                if fired {
                    assert(s2[i] == payout_applied(
                        s1,
                        old(self).cfg.disaster_region,
                        old(self).cfg.payout_amount,
                    )[i]);
                    assert forall|k2: int|
                        0 <= k2 < s2[i].peers@.len() implies #[trigger] s2[i].peers@[k2]
                        < s2.len() by {
                        assert(s1[i].peers@[k2] < s1.len());
                    }
                }
            }
        }

        if self.nodes[self.cfg.origin as usize].active {
            let mut first_path: Vec<u32> = Vec::new();
            first_path.push(self.cfg.origin);
            proof {
                assert(first_path@ =~= seq![self.cfg.origin]);
            }
            let injected = Packet {
                origin_step: step_index,
                path: first_path,
                dest: self.cfg.dest,
                hops: 0,
                ttl: self.cfg.ttl,
            };
            assert(injected.wf(n));
            proof {
                assert(packet_model(injected) == old(self).injected_model());
            }
            self.queue.push(injected);
        }
        proof {
            assert(old(self).injects_next() == s2[old(self).cfg.origin as int].active);
            if old(self).injects_next() {
                assert(self.queue@ == old(self).queue@.push(self.queue@.last()));
                assert(models_of(self.queue@) =~= old(self).step_input_models());
            } else {
                assert(self.queue@ == old(self).queue@);
                assert(models_of(self.queue@) =~= old(self).step_input_models());
            }
        }
        proof {
            assert forall|m1: int, m2: int|
                0 <= m1 < m2 < self.queue@.len() && (#[trigger] self.queue@[m1]).origin_step == (
                #[trigger] self.queue@[m2]).origin_step implies self.queue@[m1].path@.last()
                != self.queue@[m2].path@.last() by {
                assert(old(self).queue@[m1] == self.queue@[m1]);
                if m2 < old(self).queue@.len() {
                    assert(old(self).queue@[m2] == self.queue@[m2]);
                } else {
                    assert(self.queue@[m2].origin_step > old(self).steps_done);
                    assert(old(self).queue@[m1].origin_step <= old(self).steps_done);
                }
            }
        }

        let idle_charged = idle_drain(&mut self.nodes, self.cfg.cost_idle);
        let ghost idle_int: int = self.cfg.cost_idle * count_active(s2, n);
        proof {
            lemma_counts_bounded(s2, old(self).cfg.disaster_region, n);
            let cost: int = old(self).cfg.cost_idle as int;
            let cnt: int = count_active(s2, n);
            assert(cost * cnt >= 0) by (nonlinear_arith)
                requires
                    cost >= 0,
                    cnt >= 0,
            ;
            assert(idle_int >= 0);
            lemma_sat_cap_absorb(old(self).stats.total_energy as int, idle_int);
        }
        self.stats.total_energy = add_sat(self.stats.total_energy, idle_charged);
        proof {
            assert(self.stats.total_energy == sat_cap(old(self).stats.total_energy + idle_int));
        }
        let ghost s3 = self.nodes@;
        proof {
            assert forall|i: int| 0 <= i < n implies #[trigger] wf_node_at(s3, i) by {
                assert(wf_node_at(s2, i));
                assert(crate::engine::idle_effect(s2[i], s3[i], old(self).cfg.cost_idle));
                if s2[i].active {
                    crate::node::lemma_consume_preserves_inv(s2[i], s3[i], old(self).cfg.cost_idle);
                }
                assert forall|k2: int|
                    0 <= k2 < s3[i].peers@.len() implies #[trigger] s3[i].peers@[k2]
                    < s3.len() by {
                    assert(s2[i].peers@[k2] < s2.len());
                }
            }
        }

        let ghost q0 = self.queue@;
        proof {
            assert forall|i: int|
                #![trigger s3[i]]
                0 <= i < n implies s0[i].peers@ == s3[i].peers@ by {
                if old(self).disaster_strikes_next() {
                    assert(crate::engine::disaster_effect(
                        s0[i],
                        s1[i],
                        old(self).cfg.disaster_region,
                    ));
                } else {
                    assert(s1[i] == s0[i]);
                }
                if fired {
                    assert(crate::engine::payout_effect(
                        s1[i],
                        s2[i],
                        old(self).cfg.disaster_region,
                        old(self).cfg.payout_amount,
                    ));
                } else {
                    assert(s2[i] == s1[i]);
                }
                assert(crate::engine::idle_effect(s2[i], s3[i], old(self).cfg.cost_idle));
            }
            assert forall|m0: int|
                0 <= m0 < q0.len() implies path_in_topology(s3, (#[trigger] q0[m0]).path@)
                && q0[m0].path@[0] == old(self).cfg.origin && q0[m0].hops + q0[m0].ttl == old(
                self,
            ).cfg.ttl && q0[m0].path@.len() == q0[m0].hops + 1 by {
                if m0 < old(self).queue@.len() {
                    assert(q0[m0] == old(self).queue@[m0]);
                    assert(path_in_topology(s0, q0[m0].path@));
                    assert(q0[m0].wf(n));
                    lemma_path_in_topology_congruence(s0, s3, q0[m0].path@);
                } else {
                    assert(q0[m0].path@ =~= seq![old(self).cfg.origin]);
                }
            }
        }
        let ghost stats_mid = self.stats;
        let queue_len = self.queue.len();
        let mut targets = TargetSet::new();
        let mut next_queue: Vec<Packet> = Vec::new();
        let mut delivered_list: Vec<Packet> = Vec::new();
        let ghost mut charge_sum: int = 0;
        proof {
            assert(targets.to_set() =~= Set::<(u32, u32)>::empty());
            assert(q0.take(0) =~= Seq::<Packet>::empty());
            assert(next_queue@ =~= Seq::<Packet>::empty());
            assert(delivered_list@ =~= Seq::<Packet>::empty());
            assert(models_of(delivered_list@) =~= Seq::<PacketModel>::empty());
            assert(models_of(q0.take(0)) =~= Seq::<PacketModel>::empty());
            assert(drain_rel(
                s3,
                Set::<(u32, u32)>::empty(),
                Seq::<Packet>::empty(),
                q0.take(0),
                self.mode,
                self.cfg,
                self.nodes@,
                targets.to_set(),
                next_queue@,
                0,
            ));
        }
        let mut m: usize = 0;
        while m < queue_len
            invariant
                self.cfg == old(self).cfg,
                self.mode == old(self).mode,
                self.cfg.valid(),
                self.queue@ == q0,
                queue_len == q0.len(),
                m <= queue_len,
                n == self.cfg.node_count,
                self.nodes@.len() == n,
                nodes_wf(self.nodes@),
                s3.len() == n,
                forall|m0: int| 0 <= m0 < q0.len() ==> (#[trigger] q0[m0]).wf(n),
                forall|m0: int|
                    0 <= m0 < q0.len() ==> (#[trigger] q0[m0]).origin_step <= old(
                        self,
                    ).steps_done + 1,
                forall|k: int| 0 <= k < next_queue@.len() ==> (#[trigger] next_queue@[k]).wf(n),
                forall|k: int|
                    0 <= k < next_queue@.len() ==> (#[trigger] next_queue@[k]).origin_step <= old(
                        self,
                    ).steps_done + 1,
                forall|m0: int|
                    0 <= m0 < q0.len() ==> path_in_topology(s3, (#[trigger] q0[m0]).path@),
                forall|m0: int|
                    0 <= m0 < q0.len() ==> (#[trigger] q0[m0]).path@[0] == old(self).cfg.origin,
                forall|m0: int|
                    0 <= m0 < q0.len() ==> (#[trigger] q0[m0]).hops + q0[m0].ttl == old(
                        self,
                    ).cfg.ttl,
                forall|m0: int|
                    0 <= m0 < q0.len() ==> (#[trigger] q0[m0]).path@.len() == q0[m0].hops + 1,
                forall|k: int|
                    0 <= k < next_queue@.len() ==> path_in_topology(
                        s3,
                        (#[trigger] next_queue@[k]).path@,
                    ),
                forall|k: int|
                    0 <= k < next_queue@.len() ==> (#[trigger] next_queue@[k]).path@[0] == old(
                        self,
                    ).cfg.origin,
                forall|k: int|
                    0 <= k < next_queue@.len() ==> (#[trigger] next_queue@[k]).hops
                        + next_queue@[k].ttl == old(self).cfg.ttl,
                forall|k: int|
                    0 <= k < next_queue@.len() ==> (#[trigger] next_queue@[k]).path@.len()
                        == next_queue@[k].hops + 1,
                forall|k: int|
                    0 <= k < next_queue@.len() ==> targets.targeted(
                        (#[trigger] next_queue@[k]).origin_step,
                        next_queue@[k].path@.last(),
                    ),
                forall|k1: int, k2: int|
                    0 <= k1 < k2 < next_queue@.len() && (#[trigger] next_queue@[k1]).origin_step
                        == (#[trigger] next_queue@[k2]).origin_step ==> next_queue@[k1].path@.last()
                        != next_queue@[k2].path@.last(),
                forall|i: int|
                    0 <= i < n ==> step_node_frame(s3[i], #[trigger] self.nodes@[i]),
                forall|i: int|
                    0 <= i < n ==> (#[trigger] self.nodes@[i]).wallet.compensation
                        == s3[i].wallet.compensation,
                forall|i: int| 0 <= i < n && !s3[i].active ==> self.nodes@[i] == s3[i],
                self.stats.total_energy >= stats_mid.total_energy,
                stats_mid.delivered == old(self).stats.delivered,
                self.stats.delivered == sat_cap(
                    stats_mid.delivered + delivered_list@.len(),
                ),
                stats_mid.total_hops == old(self).stats.total_hops,
                0 <= hops_sum(delivered_list@),
                self.stats.total_hops == sat_cap(
                    stats_mid.total_hops + hops_sum(delivered_list@),
                ),
                forall|k: int|
                    0 <= k < delivered_list@.len() ==> (#[trigger] delivered_list@[k]).path@.len()
                        > 0 && delivered_list@[k].path@.last() == delivered_list@[k].dest,
                forall|k: int|
                    0 <= k < delivered_list@.len() ==> (#[trigger] delivered_list@[k]).wf(n),
                forall|k: int|
                    0 <= k < delivered_list@.len() ==> path_in_topology(
                        s3,
                        (#[trigger] delivered_list@[k]).path@,
                    ),
                forall|k: int|
                    0 <= k < delivered_list@.len() ==> (#[trigger] delivered_list@[k]).path@[0]
                        == old(self).cfg.origin && delivered_list@[k].hops
                        + delivered_list@[k].ttl == old(self).cfg.ttl
                        && delivered_list@[k].path@.len() == delivered_list@[k].hops + 1,
                models_of(delivered_list@) == model_arrivals(models_of(q0.take(m as int))),
                idle_int >= 0,
                charge_sum >= 0,
                self.stats.total_energy == sat_cap(
                    old(self).stats.total_energy + idle_int + charge_sum,
                ),
                drain_rel(
                    s3,
                    Set::<(u32, u32)>::empty(),
                    Seq::<Packet>::empty(),
                    q0.take(m as int),
                    self.mode,
                    self.cfg,
                    self.nodes@,
                    targets.to_set(),
                    next_queue@,
                    charge_sum,
                ),
                self.steps_done == old(self).steps_done,
                self.disaster_struck == (old(self).disaster_struck || old(
                    self,
                ).disaster_strikes_next()),
                self.payout_done == (old(self).payout_done || fired),
            decreases queue_len - m,
        {
            let ghost pre = self.nodes@;
            let ghost t_before = targets;
            let ghost nq_before = next_queue@;
            let ghost cs_before = charge_sum;
            let (charged, was_delivered) = process_packet(
                &mut self.nodes,
                &mut targets,
                &mut next_queue,
                &self.queue[m],
                self.mode,
                &self.cfg,
            );
            proof {
                lemma_sat_cap_add(
                    old(self).stats.total_energy + idle_int + cs_before,
                    charged,
                );
                charge_sum = cs_before + charged as int;
            }
            self.stats.total_energy = add_sat(self.stats.total_energy, charged);
            if was_delivered {
                proof {
                    lemma_sat_cap_add(
                        stats_mid.delivered + delivered_list@.len(),
                        1,
                    );
                }
                self.stats.delivered = add_sat(self.stats.delivered, 1);
                proof {
                    lemma_sat_cap_add(
                        stats_mid.total_hops + hops_sum(delivered_list@),
                        q0[m as int].hops as u64,
                    );
                }
                self.stats.total_hops = add_sat(self.stats.total_hops, self.queue[m].hops as u64);
                let ghost dl_before = delivered_list@;
                delivered_list.push(self.queue[m].duplicate());
                proof {
                    assert(delivered_list@.drop_last() =~= dl_before);
                    assert(hops_sum(delivered_list@) == hops_sum(dl_before)
                        + q0[m as int].hops);
                    assert(packet_model(delivered_list@.last()) == packet_model(q0[m as int]));
                    assert(models_of(delivered_list@).drop_last() =~= models_of(dl_before));
                    assert(models_of(delivered_list@).last() == packet_model(q0[m as int]));
                    assert(delivered_list@.last().path@ == q0[m as int].path@);
                    assert(path_in_topology(s3, q0[m as int].path@));
                    assert(path_in_topology(s3, delivered_list@.last().path@));
                }
            }
            proof {
                assert(q0.take((m + 1) as int).drop_last() =~= q0.take(m as int));
                assert(q0.take((m + 1) as int).last() == q0[m as int]);
                assert(models_of(q0.take((m + 1) as int)).drop_last() =~= models_of(
                    q0.take(m as int),
                ));
                assert(models_of(q0.take((m + 1) as int)).last() == packet_model(q0[m as int]));
                assert(model_arrived(packet_model(q0[m as int])) == was_delivered);
                if was_delivered {
                    assert(models_of(delivered_list@) =~= model_arrivals(
                        models_of(q0.take((m + 1) as int)),
                    ));
                } else {
                    assert(model_arrivals(models_of(q0.take((m + 1) as int))) =~= model_arrivals(
                        models_of(q0.take(m as int)),
                    ));
                }
            }
            proof {
                let packet = q0[m as int];
                let from = nq_before.len() as int;
                let nq = next_queue@;
                assert forall|k: int|
                    0 <= k < nq.len() implies targets.targeted(
                    (#[trigger] nq[k]).origin_step,
                    nq[k].path@.last(),
                ) by {
                    if k < from {
                        assert(nq[k] == nq_before[k]);
                        assert(t_before.targeted(nq[k].origin_step, nq[k].path@.last()));
                    } else {
                        assert(crate::engine::appended_ok(pre, t_before, packet, nq[k], n));
                        assert(crate::engine::forwarded_to(nq, from, nq[k].path@.last()));
                    }
                }
                assert forall|k1: int, k2: int|
                    0 <= k1 < k2 < nq.len() && (#[trigger] nq[k1]).origin_step == (
                    #[trigger] nq[k2]).origin_step implies nq[k1].path@.last()
                    != nq[k2].path@.last() by {
                    if k2 < from {
                        assert(nq[k1] == nq_before[k1] && nq[k2] == nq_before[k2]);
                    } else if k1 < from {
                        assert(nq[k1] == nq_before[k1]);
                        assert(t_before.targeted(nq[k1].origin_step, nq[k1].path@.last()));
                        assert(crate::engine::appended_ok(pre, t_before, packet, nq[k2], n));
                        assert(!t_before.targeted(packet.origin_step, nq[k2].path@.last()));
                    }
                }
                assert forall|k: int|
                    from <= k < nq.len() implies path_in_topology(s3, (#[trigger] nq[k]).path@)
                    && nq[k].path@[0] == old(self).cfg.origin && nq[k].hops + nq[k].ttl == old(
                    self,
                ).cfg.ttl && nq[k].path@.len() == nq[k].hops + 1 by {
                    assert(crate::engine::appended_ok(pre, t_before, packet, nq[k], n));
                    let qq = nq[k];
                    let plen = packet.path@.len() as int;
                    assert(qq.path@ == packet.path@.push(qq.path@.last()));
                    assert(path_in_topology(s3, packet.path@));
                    assert(packet.path@[0] == old(self).cfg.origin);
                    assert(qq.path@[0] == packet.path@[0]);
                    assert(crate::engine::eligible(pre, t_before, packet, qq.path@.last()));
                    assert(pre[packet.current() as int].peers@.contains(qq.path@.last()));
                    assert(step_node_frame(s3[packet.current() as int], pre[packet.current() as int]));
                    assert(s3[packet.current() as int].peers@ == pre[packet.current() as int].peers@);
                    assert forall|t: int|
                        #![trigger qq.path@[t]]
                        0 <= t < qq.path@.len() - 1 implies s3[qq.path@[t] as int].peers@.contains(
                        qq.path@[t + 1],
                    ) by {
                        if t < plen - 1 {
                            assert(qq.path@[t] == packet.path@[t]);
                            assert(qq.path@[t + 1] == packet.path@[t + 1]);
                            assert(s3[packet.path@[t] as int].peers@.contains(packet.path@[t + 1]));
                        } else {
                            assert(t == plen - 1);
                            assert(qq.path@[t] == packet.path@[plen - 1]);
                            assert(packet.path@[plen - 1] == packet.current());
                            assert(qq.path@[t + 1] == qq.path@.last());
                        }
                    }
                    assert(path_in_topology(s3, qq.path@));
                }
                assert forall|i: int|
                    0 <= i < n implies step_node_frame(s3[i], #[trigger] self.nodes@[i])
                    && self.nodes@[i].wallet.compensation == s3[i].wallet.compensation && (
                !s3[i].active ==> self.nodes@[i] == s3[i]) by {
                    assert(node_evolution(
                        pre,
                        self.nodes@,
                        nq,
                        from,
                        packet,
                        self.mode,
                        self.cfg,
                        i,
                    ));
                    assert(step_node_frame(s3[i], pre[i]));
                    assert(pre[i].wallet.compensation == s3[i].wallet.compensation);
                    if relays(pre, packet) {
                        if i == packet.current() as int {
                            assert(pre[i].active);
                        } else if crate::engine::forwarded_to(nq, from, i as u32) {
                            assert(crate::engine::eligible(pre, t_before, packet, i as u32)) by {
                                let k = choose|k: int|
                                    from <= k < nq.len() && (#[trigger] nq[k]).path@.last()
                                        == i as u32;
                                assert(crate::engine::appended_ok(pre, t_before, packet, nq[k], n));
                            }
                            assert(pre[i].active);
                        }
                    }
                }
                assert(packet_step_rel(
                    pre,
                    t_before.to_set(),
                    nq_before,
                    packet,
                    self.mode,
                    self.cfg,
                    self.nodes@,
                    targets.to_set(),
                    nq,
                    charged,
                )) by {
                    assert forall|mm: int|
                        from <= mm < nq.len() implies appended_ok_set(
                        pre,
                        t_before.to_set(),
                        packet,
                        #[trigger] nq[mm],
                        n,
                    ) by {
                        assert(crate::engine::appended_ok(pre, t_before, packet, nq[mm], n));
                        assert(t_before.to_set().contains(
                            (packet.origin_step, nq[mm].path@.last()),
                        ) == t_before.targeted(packet.origin_step, nq[mm].path@.last()));
                    }
                    assert forall|p: u32, j: u32|
                        #[trigger] targets.to_set().contains((p, j)) <==> t_before.to_set().contains(
                        (p, j),
                    ) || (p == packet.origin_step && forwarded_to(nq, from, j)) by {
                        assert(targets.to_set().contains((p, j)) == targets.targeted(p, j));
                        assert(t_before.to_set().contains((p, j)) == t_before.targeted(p, j));
                    }
                    if !relays(pre, packet) {
                        assert(targets.to_set() =~= t_before.to_set());
                    }
                    if self.mode == Mode::Flooding && relays(pre, packet) {
                        assert forall|j: u32|
                            #[trigger] eligible_set(pre, t_before.to_set(), packet, j) implies
                            forwarded_to(nq, from, j) by {
                            assert(t_before.to_set().contains((packet.origin_step, j))
                                == t_before.targeted(packet.origin_step, j));
                            assert(crate::engine::eligible(pre, t_before, packet, j));
                        }
                    }
                    if self.mode == Mode::Swarm && relays(pre, packet) {
                        assert forall|j: u32|
                            #[trigger] eligible_set(pre, t_before.to_set(), packet, j)
                                && pre[j as int].node_type == NodeType::BaseStation implies
                            forwarded_to(nq, from, j) by {
                            assert(t_before.to_set().contains((packet.origin_step, j))
                                == t_before.targeted(packet.origin_step, j));
                            assert(crate::engine::eligible(pre, t_before, packet, j));
                        }
                    }
                }
                lemma_drain_rel_snoc(
                    s3,
                    Set::<(u32, u32)>::empty(),
                    Seq::<Packet>::empty(),
                    q0.take(m as int),
                    self.mode,
                    self.cfg,
                    pre,
                    t_before.to_set(),
                    nq_before,
                    cs_before,
                    packet,
                    self.nodes@,
                    targets.to_set(),
                    nq,
                    charged,
                );
                assert(q0.take(m as int).push(packet) =~= q0.take((m + 1) as int));
                assert(drain_rel(
                    s3,
                    Set::<(u32, u32)>::empty(),
                    Seq::<Packet>::empty(),
                    q0.take((m + 1) as int),
                    self.mode,
                    self.cfg,
                    self.nodes@,
                    targets.to_set(),
                    nq,
                    charge_sum,
                ));
            }
            m += 1;
        }
        proof {
            if old(self).disaster_strikes_next() {
                assert forall|i: int|
                    0 <= i < n && (#[trigger] s0[i]).in_region_spec(
                        old(self).cfg.disaster_region,
                    ) implies !self.nodes@[i].active && self.nodes@[i].energy == 0 by {
                    assert(wf_node_at(s0, i));
                    assert(s1[i] == disaster_applied(s0, old(self).cfg.disaster_region)[i]);
                    assert(!s1[i].active && s1[i].energy == 0);
                    if fired {
                        assert(s2[i] == payout_applied(
                            s1,
                            old(self).cfg.disaster_region,
                            old(self).cfg.payout_amount,
                        )[i]);
                    }
                    assert(!s2[i].active && s2[i].energy == 0);
                    assert(crate::engine::idle_effect(s2[i], s3[i], old(self).cfg.cost_idle));
                    assert(!s3[i].active && s3[i].energy == 0);
                    assert(self.nodes@[i] == s3[i]);
                }
            }
        }
        proof {
            assert(q0.take(queue_len as int) =~= q0);
            assert(models_of(delivered_list@) == model_arrivals(models_of(q0)));
            assert(models_of(q0) == old(self).step_input_models());
            assert(s3 == idle_applied(old(self).nodes_after_oracle(), old(self).cfg.cost_idle));
            assert(drain_rel(
                s3,
                Set::<(u32, u32)>::empty(),
                Seq::<Packet>::empty(),
                q0,
                self.mode,
                self.cfg,
                self.nodes@,
                targets.to_set(),
                next_queue@,
                charge_sum,
            ));
        }
        let ghost nq_final = next_queue@;
        let ghost marked_final = targets.to_set();
        self.queue = next_queue;
        self.steps_done = step_index;
        proof {
            assert(self.queue@ == nq_final);
            assert(step_drain_post(
                *old(self),
                self.nodes@,
                self.queue@,
                self.stats.total_energy,
                q0,
                marked_final,
                charge_sum,
            ));
            lemma_hops_sum_models(delivered_list@);
            assert forall|i: int|
                #![trigger self.nodes@[i]]
                0 <= i < n implies s3[i].peers@ == self.nodes@[i].peers@ by {
                assert(step_node_frame(s3[i], self.nodes@[i]));
            }
            assert forall|mq: int|
                0 <= mq < self.queue@.len() implies path_in_topology(
                self.nodes@,
                (#[trigger] self.queue@[mq]).path@,
            ) by {
                assert(path_in_topology(s3, self.queue@[mq].path@));
                assert(self.queue@[mq].wf(n));
                lemma_path_in_topology_congruence(s3, self.nodes@, self.queue@[mq].path@);
            }
            assert forall|k: int|
                0 <= k < delivered_list@.len() implies path_in_topology(
                self.nodes@,
                (#[trigger] delivered_list@[k]).path@,
            ) by {
                assert(path_in_topology(s3, delivered_list@[k].path@));
                assert(delivered_list@[k].wf(n));
                lemma_path_in_topology_congruence(s3, self.nodes@, delivered_list@[k].path@);
            }
            assert(self.wf());
        }
        StepReport {
            disaster_started: report_disaster,
            payout_fired: report_payout,
            delivered: delivered_list,
        }
    }

    /// Run until the step budget is exhausted, or stop early when no packet
    /// can possibly progress: the queue is empty and the origin is inactive,
    /// so nothing will ever be injected again.
    pub fn run(&mut self)
        requires
            old(self).wf(),
        ensures
            final(self).wf(),
            final(self).cfg == old(self).cfg,
            final(self).mode == old(self).mode,
            final(self).steps_done >= old(self).steps_done,
            final(self).steps_done == final(self).cfg.max_steps || (final(self).queue@.len() == 0
                && !final(self).nodes@[final(self).cfg.origin as int].active),
            forall|i: int|
                0 <= i < old(self).nodes@.len() ==> step_node_frame(
                    old(self).nodes@[i],
                    #[trigger] final(self).nodes@[i],
                ),
            exists|k: nat| runs_to(*old(self), *final(self), k),
    {
        let ghost s0 = self.nodes@;
        proof {
            assert(runs_to(*old(self), *old(self), 0));
        }
        while self.steps_done < self.cfg.max_steps
            invariant
                self.wf(),
                self.cfg == old(self).cfg,
                self.mode == old(self).mode,
                self.steps_done >= old(self).steps_done,
                s0 == old(self).nodes@,
                s0.len() == self.nodes@.len(),
                forall|i: int|
                    0 <= i < s0.len() ==> step_node_frame(s0[i], #[trigger] self.nodes@[i]),
                exists|k: nat| runs_to(*old(self), *self, k),
            decreases self.cfg.max_steps - self.steps_done,
        {
            if self.queue.len() == 0 && !self.nodes[self.cfg.origin as usize].active {
                return ;
            }
            let ghost mid = self.nodes@;
            let ghost pre_step = *self;
            self.advance();
            proof {
                assert forall|i: int|
                    0 <= i < s0.len() implies step_node_frame(s0[i], #[trigger] self.nodes@[i]) by {
                    assert(step_node_frame(s0[i], mid[i]));
                    assert(step_node_frame(mid[i], self.nodes@[i]));
                }
                let k = choose|k: nat| runs_to(*old(self), pre_step, k);
                assert(advance_rel(pre_step, *self));
                lemma_runs_to_snoc(*old(self), pre_step, *self, k);
                assert(runs_to(*old(self), *self, (k + 1) as nat));
            }
        }
    }
}

/// The routing part of one step, between the state before the step and the
/// population, queue and energy counter after it: some queue `q_in` whose
/// models are exactly the step's input — the carried-over copies plus the
/// fresh injection, if owed — was drained copy by copy under the mode's
/// policy, and the energy counter grew by the idle charge and the drain's
/// total charge.
pub open spec fn step_drain_post(
    pre: Simulation,
    post_nodes: Seq<Node>,
    post_queue: Seq<Packet>,
    post_energy: u64,
    q_in: Seq<Packet>,
    marked: Set<(u32, u32)>,
    charge: int,
) -> bool {
    &&& models_of(q_in) == pre.step_input_models()
    &&& 0 <= charge
    &&& drain_rel(
        idle_applied(pre.nodes_after_oracle(), pre.cfg.cost_idle),
        Set::<(u32, u32)>::empty(),
        Seq::<Packet>::empty(),
        q_in,
        pre.mode,
        pre.cfg,
        post_nodes,
        marked,
        post_queue,
        charge,
    )
    &&& post_energy == sat_cap(
        pre.stats.total_energy + pre.cfg.cost_idle * count_active(
            pre.nodes_after_oracle(),
            pre.nodes@.len() as int,
        ) + charge,
    )
}

/// Everything one call to `advance` guarantees, stated between the states
/// alone: the scripted disaster and one-shot payout at their steps, the
/// per-node frame, the counter identities over the step's modeled input,
/// and the relational drain of the queue.
pub open spec fn advance_rel(pre: Simulation, post: Simulation) -> bool {
    &&& pre.wf()
    &&& pre.steps_done < pre.cfg.max_steps
    &&& post.wf()
    &&& post.cfg == pre.cfg
    &&& post.mode == pre.mode
    &&& post.steps_done == pre.steps_done + 1
    &&& post.nodes@.len() == pre.nodes@.len()
    &&& (forall|i: int|
        0 <= i < pre.nodes@.len() ==> step_node_frame(pre.nodes@[i], #[trigger] post.nodes@[i]))
    &&& post.disaster_struck == (pre.disaster_struck || pre.disaster_strikes_next())
    &&& (pre.disaster_strikes_next() ==> forall|i: int|
        0 <= i < pre.nodes@.len() && (#[trigger] pre.nodes@[i]).in_region_spec(
            pre.cfg.disaster_region,
        ) ==> !post.nodes@[i].active && post.nodes@[i].energy == 0)
    &&& post.payout_done == (pre.payout_done || pre.payout_fires_next())
    &&& (forall|i: int|
        0 <= i < pre.nodes@.len() ==> (#[trigger] post.nodes@[i]).wallet.compensation
            == pre.nodes_after_oracle()[i].wallet.compensation)
    &&& post.stats.delivered == sat_cap(
        pre.stats.delivered + model_arrivals(pre.step_input_models()).len(),
    )
    &&& post.stats.total_hops == sat_cap(
        pre.stats.total_hops + model_hops_sum(model_arrivals(pre.step_input_models())),
    )
    &&& (exists|q_in: Seq<Packet>, marked: Set<(u32, u32)>, charge: int|
        step_drain_post(pre, post.nodes@, post.queue@, post.stats.total_energy, q_in, marked, charge))
}

/// `post` is reached from `pre` by exactly `k` simulated steps.
pub open spec fn runs_to(pre: Simulation, post: Simulation, k: nat) -> bool
    decreases k,
{
    if k == 0 {
        post == pre
    } else {
        exists|mid: Simulation| #[trigger] advance_rel(pre, mid) && runs_to(mid, post, (k - 1) as nat)
    }
}

/// Extending a chain of steps by one more step.
pub proof fn lemma_runs_to_snoc(a: Simulation, b: Simulation, c: Simulation, k: nat)
    requires
        runs_to(a, b, k),
        advance_rel(b, c),
    ensures
        runs_to(a, c, (k + 1) as nat),
    decreases k,
{
    if k == 0 {
        assert(b == a);
        assert(advance_rel(a, c) && runs_to(c, c, 0));
    } else {
        let mid = choose|mid: Simulation|
            #[trigger] advance_rel(a, mid) && runs_to(mid, b, (k - 1) as nat);
        lemma_runs_to_snoc(mid, b, c, (k - 1) as nat);
        assert(advance_rel(a, mid) && runs_to(mid, c, k as nat));
    }
}

/// A freshly initialized run: a validated configuration, a well-formed
/// generated network with exact neighbor lists, an empty queue, zeroed
/// counters and both one-shot triggers still pending.
pub open spec fn fresh_run_start(s: Simulation, cfg: SimConfig, mode: Mode) -> bool {
    &&& s.wf()
    &&& s.cfg == cfg
    &&& s.mode == mode
    &&& s.queue@.len() == 0
    &&& s.steps_done == 0
    &&& !s.disaster_struck
    &&& !s.payout_done
    &&& s.stats == (SimStats { total_energy: 0u64, delivered: 0u64, total_hops: 0u64 })
    &&& s.nodes@.len() == cfg.node_count
    &&& (forall|i: int| 0 <= i < s.nodes@.len() ==> network_node(#[trigger] s.nodes@[i], i, cfg))
    &&& (forall|i: int| 0 <= i < s.nodes@.len() ==> peers_exact(s.nodes@, i))
}

/// What a completed scenario run guarantees: the returned state carries the
/// scenario's configuration and mode, was reached from a freshly
/// initialized run on some generated network by a chain of simulated steps,
/// and stopped at the step budget or at the no-progress condition.
pub open spec fn scenario_outcome(sim: Simulation, cfg: SimConfig, mode: Mode) -> bool {
    &&& sim.wf()
    &&& sim.cfg == cfg
    &&& sim.mode == mode
    &&& sim.steps_done == cfg.max_steps || (sim.queue@.len() == 0 && !sim.nodes@[cfg.origin as int].active)
    &&& (exists|init: Simulation, k: nat| #[trigger] runs_to(init, sim, k) && fresh_run_start(init, cfg, mode))
}

/// Whether the population forms a well-formed network for the
/// configuration: the configured size, ids equal to indices, every node's
/// invariant, and every neighbor id in range.
pub fn check_population(nodes: &Vec<Node>, cfg: &SimConfig) -> (r: bool)
    ensures
        r == (nodes@.len() == cfg.node_count && nodes_wf(nodes@)),
{
    if nodes.len() != cfg.node_count as usize {
        return false;
    }
    let n = nodes.len();
    let mut i: usize = 0;
    while i < n
        invariant
            n == nodes.len(),
            i <= n,
            forall|i0: int| 0 <= i0 < i ==> #[trigger] wf_node_at(nodes@, i0),
        decreases n - i,
    {
        if nodes[i].id != i as u32 {
            proof {
                assert(!wf_node_at(nodes@, i as int));
            }
            return false;
        }
        if nodes[i].node_type == NodeType::Smartphone && nodes[i].active && nodes[i].energy == 0 {
            proof {
                assert(!wf_node_at(nodes@, i as int));
            }
            return false;
        }
        if !nodes[i].active && nodes[i].energy != 0 {
            proof {
                assert(!wf_node_at(nodes@, i as int));
            }
            return false;
        }
        let peer_count = nodes[i].peers.len();
        let mut k: usize = 0;
        while k < peer_count
            invariant
                n == nodes.len(),
                i < n,
                peer_count == nodes@[i as int].peers@.len(),
                k <= peer_count,
                forall|k0: int|
                    0 <= k0 < k ==> #[trigger] nodes@[i as int].peers@[k0] < nodes@.len(),
            decreases peer_count - k,
        {
            if nodes[i].peers[k] as usize >= n {
                proof {
                    assert(!wf_node_at(nodes@, i as int));
                }
                return false;
            }
            k += 1;
        }
        proof {
            assert(wf_node_at(nodes@, i as int));
        }
        i += 1;
    }
    true
}

/// Validate the configuration, build a random network, and run the whole
/// scenario under the given mode. Succeeds exactly when the configuration
/// validates.
pub fn run_scenario(cfg: &SimConfig, mode: Mode) -> (r: Result<Simulation, ConfigError>)
    ensures
        r is Ok <==> cfg.validate_spec() is Ok,
        r is Err ==> r->Err_0 == cfg.validate_spec()->Err_0,
        r is Ok ==> (r->Ok_0).wf() && (r->Ok_0).cfg == *cfg && (r->Ok_0).mode == mode && ((
        r->Ok_0).steps_done == cfg.max_steps || ((r->Ok_0).queue@.len() == 0 && !(
        r->Ok_0).nodes@[cfg.origin as int].active)),
        r is Ok ==> scenario_outcome(r->Ok_0, *cfg, mode),
{
    match cfg.validate() {
        Err(e) => Err(e),
        Ok(()) => {
            let nodes = build_network(cfg);
            proof {
                assert forall|i: int| 0 <= i < nodes@.len() implies #[trigger] wf_node_at(
                    nodes@,
                    i,
                ) by {
                    assert(crate::population::network_node(nodes@[i], i, *cfg));
                    assert(crate::topology::peers_exact(nodes@, i));
                    assert forall|k2: int|
                        0 <= k2 < nodes@[i].peers@.len() implies #[trigger] nodes@[i].peers@[k2]
                        < nodes@.len() by {
                        assert(crate::topology::reaches(nodes@, i, nodes@[i].peers@[k2] as int));
                    }
                }
            }
            match Simulation::new(*cfg, mode, nodes) {
                Err(e) => Err(e),
                Ok(mut sim) => {
                    let ghost init = sim;
                    proof {
                        assert(fresh_run_start(init, *cfg, mode));
                    }
                    sim.run();
                    proof {
                        let k = choose|k: nat| runs_to(init, sim, k);
                        assert(runs_to(init, sim, k) && fresh_run_start(init, *cfg, mode));
                        assert(scenario_outcome(sim, *cfg, mode));
                    }
                    Ok(sim)
                },
            }
        },
    }
}

} // verus!
