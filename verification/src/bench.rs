//! The benchmark harness: run the identical scenario once per forwarding
//! mode and compare energy and delivery efficiency.
//!
//! Each run regenerates its population from fresh random draws under the
//! same generation parameters, as the scenario prescribes; a caller that
//! wants both modes on one shared topology can instead build a network once
//! and drive two `Simulation`s on copies of it.

use vstd::prelude::*;
use crate::config::ConfigError;
use crate::config::Mode;
use crate::config::SimConfig;
use crate::sim::SimStats;
use crate::sim::Simulation;
use crate::sim::run_scenario;
use crate::sim::scenario_outcome;
use vstd::arithmetic::div_mod::lemma_div_is_ordered;
use vstd::arithmetic::div_mod::lemma_div_by_multiple;
use vstd::arithmetic::div_mod::lemma_div_pos_is_pos;

verus! {

/// The outcome of one two-mode benchmark.
#[derive(Clone, Copy, PartialEq, Eq, Structural, Debug)]
pub struct BenchReport {
    /// Counters of the flooding (baseline) run.
    pub flooding: SimStats,
    /// Counters of the swarm run.
    pub swarm: SimStats,
    /// Whole-percent energy saving of the swarm run over the flooding run.
    pub energy_saved_percent: u64,
    /// Numerator of the exact delivery-efficiency ratio of the swarm run
    /// relative to the flooding run: `swarm.delivered * flooding.total_energy`.
    pub efficiency_num: u128,
    /// Denominator of that ratio: `flooding.delivered * swarm.total_energy`.
    pub efficiency_den: u128,
}

/// The energy saved by the second run relative to the first, in whole
/// percent: `(flood - swarm) * 100 / flood`, and zero when the first run
/// charged no energy or the second charged more.
pub open spec fn energy_saved_percent_spec(flood: u64, swarm: u64) -> int {
    if flood == 0 || swarm > flood {
        0
    } else {
        (flood - swarm) * 100 / (flood as int)
    }
}

/// The saving is a percentage: it never exceeds one hundred.
pub proof fn lemma_energy_saved_percent_bounded(flood: u64, swarm: u64)
    ensures
        0 <= energy_saved_percent_spec(flood, swarm) <= 100,
{
    if !(flood == 0 || swarm > flood) {
        let d = flood as int;
        let x = (flood - swarm) * 100;
        assert(0 <= x <= 100 * d) by (nonlinear_arith)
            requires
                d == flood && x == (flood - swarm) * 100 && flood >= swarm >= 0,
        ;
        lemma_div_is_ordered(x, 100 * d, d);
        lemma_div_by_multiple(100, d);
        lemma_div_pos_is_pos(x, d);
    }
}

/// Run the identical scenario once per mode: flooding first, then swarm.
/// Succeeds exactly when the configuration validates, and then reports both
/// runs' counters together with the derived comparison metrics.
pub fn run_benchmark(cfg: &SimConfig) -> (r: Result<BenchReport, ConfigError>)
    ensures
        r is Ok <==> cfg.validate_spec() is Ok,
        r is Err ==> r->Err_0 == cfg.validate_spec()->Err_0,
        r is Ok ==> (r->Ok_0).energy_saved_percent == energy_saved_percent_spec(
            (r->Ok_0).flooding.total_energy,
            (r->Ok_0).swarm.total_energy,
        ),
        r is Ok ==> (r->Ok_0).efficiency_num == (r->Ok_0).swarm.delivered as int * (
        r->Ok_0).flooding.total_energy as int && (r->Ok_0).efficiency_den == (
        r->Ok_0).flooding.delivered as int * (r->Ok_0).swarm.total_energy as int,
        r is Ok ==> exists|f: Simulation, sw: Simulation|
            (#[trigger] scenario_outcome(f, *cfg, Mode::Flooding) && #[trigger] scenario_outcome(
                sw,
                *cfg,
                Mode::Swarm,
            ) && (r->Ok_0).flooding == f.stats && (r->Ok_0).swarm == sw.stats),
{
    let flood_sim = match run_scenario(cfg, Mode::Flooding) {
        Err(e) => {
            return Err(e);
        },
        Ok(s) => s,
    };
    let ghost flood_run = flood_sim;
    let flooding = flood_sim.stats;
    let swarm_sim = match run_scenario(cfg, Mode::Swarm) {
        Err(e) => {
            return Err(e);
        },
        Ok(s) => s,
    };
    let ghost swarm_run = swarm_sim;
    let swarm = swarm_sim.stats;
    proof {
        assert(scenario_outcome(flood_run, *cfg, Mode::Flooding));
        assert(scenario_outcome(swarm_run, *cfg, Mode::Swarm));
    }
    let energy_saved_percent: u64 = if flooding.total_energy == 0 || swarm.total_energy
        > flooding.total_energy {
        0
    } else {
        proof {
            lemma_energy_saved_percent_bounded(flooding.total_energy, swarm.total_energy);
        }
        ((((flooding.total_energy - swarm.total_energy) as u128) * 100) / (
        flooding.total_energy as u128)) as u64
    };
    assert((swarm.delivered as int) * (flooding.total_energy as int) <= (u64::MAX as int) * (
    u64::MAX as int)) by (nonlinear_arith)
        requires
            swarm.delivered <= u64::MAX && flooding.total_energy <= u64::MAX,
            swarm.delivered >= 0,
    ;
    assert((flooding.delivered as int) * (swarm.total_energy as int) <= (u64::MAX as int) * (
    u64::MAX as int)) by (nonlinear_arith)
        requires
            flooding.delivered <= u64::MAX && swarm.total_energy <= u64::MAX,
            flooding.delivered >= 0,
    ;
    let efficiency_num = (swarm.delivered as u128) * (flooding.total_energy as u128);
    let efficiency_den = (flooding.delivered as u128) * (swarm.total_energy as u128);
    Ok(
        BenchReport {
            flooding,
            swarm,
            energy_saved_percent,
            efficiency_num,
            efficiency_den,
        },
    )
}

} // verus!
