//! Scenario configuration: population, geometry, energy and cost constants,
//! the disaster script, and the forwarding-policy parameters.
//!
//! Every tunable of a run lives here as an explicit field, so that tests and
//! benchmark runs can build identical scenarios. Validation happens once,
//! before any step executes; every later operation assumes a valid
//! configuration.

use vstd::prelude::*;

verus! {

/// The forwarding strategy driving a run.
#[derive(Clone, Copy, PartialEq, Eq, Structural, Debug)]
pub enum Mode {
    /// Baseline: every eligible neighbor always relays.
    Flooding,
    /// Battery-aware: base stations always relay; smartphones relay
    /// probabilistically, the more likely the fuller their battery.
    Swarm,
}

/// A horizontal band of the plane: all points whose `y` coordinate satisfies
/// `y_min <= y < y_max`. The disaster region is such a band.
#[derive(Clone, Copy, PartialEq, Eq, Structural, Debug)]
pub struct Region {
    pub y_min: u32,
    pub y_max: u32,
}

impl Region {
    /// Whether a point with the given `y` coordinate lies in the band.
    pub open spec fn contains_spec(self, y: u32) -> bool {
        self.y_min <= y < self.y_max
    }

    /// Whether a point with the given `y` coordinate lies in the band.
    pub fn contains(&self, y: u32) -> (r: bool)
        ensures
            r == self.contains_spec(y),
    {
        self.y_min <= y && y < self.y_max
    }
}

/// All tunables of one scenario.
///
/// Positions are grid units in `[0, width) x [0, height)`; energy, costs,
/// rewards and the payout are abstract energy and accounting units.
/// Probabilities are rationals: the chance that a generated node is a base
/// station is `station_prob_num / station_prob_den`, and the survival
/// threshold that fires the payout is `survival_num / survival_den`.
///
/// The swarm relay policy draws a uniform value below `swarm_den` and accepts
/// when the draw is below `swarm_num * energy / smartphone_energy`, so a
/// smartphone's acceptance chance grows with its remaining energy and is
/// about `swarm_num / swarm_den` at full battery.
#[derive(Clone, Copy, PartialEq, Eq, Structural, Debug)]
pub struct SimConfig {
    /// Number of nodes in the population; node ids are `0..node_count`.
    pub node_count: u32,
    /// Exclusive upper bound of the `x` coordinate.
    pub width: u32,
    /// Exclusive upper bound of the `y` coordinate.
    pub height: u32,
    /// Numerator of the base-station probability at generation.
    pub station_prob_num: u64,
    /// Denominator of the base-station probability at generation.
    pub station_prob_den: u64,
    /// Starting (full) energy of a smartphone.
    pub smartphone_energy: u64,
    /// Energy reserve of a base station; never drained by consumption.
    pub station_energy: u64,
    /// Transmission radius of a smartphone.
    pub smartphone_range: u32,
    /// Transmission radius of a base station.
    pub station_range: u32,
    /// Energy charged to every active node each step.
    pub cost_idle: u64,
    /// Energy charged to a node that transmits a packet.
    pub cost_tx: u64,
    /// Energy charged to a node that receives a forwarded packet.
    pub cost_rx: u64,
    /// Reward credited to a relaying node in swarm mode.
    pub relay_reward: u64,
    /// Compensation credited to each region node when the payout fires.
    pub payout_amount: u64,
    /// The step at which the disaster strikes (steps count from 1).
    pub disaster_step: u32,
    /// The region devastated by the disaster and monitored afterwards.
    pub disaster_region: Region,
    /// Numerator of the survival-ratio threshold for the payout.
    pub survival_num: u64,
    /// Denominator of the survival-ratio threshold for the payout.
    pub survival_den: u64,
    /// Numerator scale of the swarm relay-acceptance probability.
    pub swarm_num: u64,
    /// Size of the uniform draw backing a swarm relay decision.
    pub swarm_den: u64,
    /// Time-to-live of a freshly injected packet.
    pub ttl: u32,
    /// Number of simulated steps in a full run.
    pub max_steps: u32,
    /// Id of the node that injects a packet each step.
    pub origin: u32,
    /// Id of the node the injected packets are addressed to.
    pub dest: u32,
}

/// The reason a configuration was rejected, naming the invalid parameter.
#[derive(Clone, Copy, PartialEq, Eq, Structural, Debug)]
pub enum ConfigError {
    /// `node_count` is zero.
    NodeCountZero,
    /// `width` or `height` is zero, so no position could be generated.
    AreaEmpty,
    /// `smartphone_energy` is zero, so a smartphone could not start active.
    SmartphoneEnergyZero,
    /// `station_prob_den` is zero or `station_prob_num` exceeds it.
    StationProbabilityInvalid,
    /// The disaster region has `y_min > y_max`.
    RegionInverted,
    /// `survival_den` is zero.
    SurvivalThresholdInvalid,
    /// `swarm_den` is zero.
    SwarmDrawInvalid,
    /// `origin` is not a node id below `node_count`.
    OriginOutOfRange,
    /// `dest` is not a node id below `node_count`.
    DestOutOfRange,
    /// The supplied population does not form a well-formed network of the
    /// configured size.
    PopulationInvalid,
}

impl ConfigError {
    /// A human-readable description naming the invalid parameter.
    pub open spec fn message_spec(self) -> Seq<char> {
        match self {
            ConfigError::NodeCountZero => "node_count must be positive"@,
            ConfigError::AreaEmpty => "width and height must be positive"@,
            ConfigError::SmartphoneEnergyZero => "smartphone_energy must be positive"@,
            ConfigError::StationProbabilityInvalid => "station probability must be a fraction with positive denominator"@,
            ConfigError::RegionInverted => "disaster_region must have y_min <= y_max"@,
            ConfigError::SurvivalThresholdInvalid => "survival_den must be positive"@,
            ConfigError::SwarmDrawInvalid => "swarm_den must be positive"@,
            ConfigError::OriginOutOfRange => "origin must be below node_count"@,
            ConfigError::DestOutOfRange => "dest must be below node_count"@,
            ConfigError::PopulationInvalid => "population must be a well-formed network of node_count nodes"@,
        }
    }

    /// A human-readable description naming the invalid parameter.
    pub fn message(&self) -> (r: &'static str)
        ensures
            r@ == self.message_spec(),
    {
        match self {
            ConfigError::NodeCountZero => "node_count must be positive",
            ConfigError::AreaEmpty => "width and height must be positive",
            ConfigError::SmartphoneEnergyZero => "smartphone_energy must be positive",
            ConfigError::StationProbabilityInvalid => "station probability must be a fraction with positive denominator",
            ConfigError::RegionInverted => "disaster_region must have y_min <= y_max",
            ConfigError::SurvivalThresholdInvalid => "survival_den must be positive",
            ConfigError::SwarmDrawInvalid => "swarm_den must be positive",
            ConfigError::OriginOutOfRange => "origin must be below node_count",
            ConfigError::DestOutOfRange => "dest must be below node_count",
            ConfigError::PopulationInvalid => "population must be a well-formed network of node_count nodes",
        }
    }
}

impl SimConfig {
    /// A configuration on which a run is well-defined.
    pub open spec fn valid(self) -> bool {
        &&& self.node_count > 0
        &&& self.width > 0
        &&& self.height > 0
        &&& self.smartphone_energy > 0
        &&& self.station_prob_den > 0
        &&& self.station_prob_num <= self.station_prob_den
        &&& self.disaster_region.y_min <= self.disaster_region.y_max
        &&& self.survival_den > 0
        &&& self.swarm_den > 0
        &&& self.origin < self.node_count
        &&& self.dest < self.node_count
    }

    /// The outcome of validation: the first failing check, in a fixed order,
    /// or `Ok` exactly when the configuration is valid.
    pub open spec fn validate_spec(self) -> Result<(), ConfigError> {
        if self.node_count == 0 {
            Err(ConfigError::NodeCountZero)
        } else if self.width == 0 || self.height == 0 {
            Err(ConfigError::AreaEmpty)
        } else if self.smartphone_energy == 0 {
            Err(ConfigError::SmartphoneEnergyZero)
        } else if self.station_prob_den == 0 || self.station_prob_num > self.station_prob_den {
            Err(ConfigError::StationProbabilityInvalid)
        } else if self.disaster_region.y_min > self.disaster_region.y_max {
            Err(ConfigError::RegionInverted)
        } else if self.survival_den == 0 {
            Err(ConfigError::SurvivalThresholdInvalid)
        } else if self.swarm_den == 0 {
            Err(ConfigError::SwarmDrawInvalid)
        } else if self.origin >= self.node_count {
            Err(ConfigError::OriginOutOfRange)
        } else if self.dest >= self.node_count {
            Err(ConfigError::DestOutOfRange)
        } else {
            Ok(())
        }
    }

    /// Check the configuration before any step executes.
    ///
    /// Returns `Ok` exactly when the configuration is valid, and otherwise
    /// the first failing parameter in a fixed order.
    pub fn validate(&self) -> (r: Result<(), ConfigError>)
        ensures
            r == self.validate_spec(),
            r is Ok <==> self.valid(),
    {
        if self.node_count == 0 {
            Err(ConfigError::NodeCountZero)
        } else if self.width == 0 || self.height == 0 {
            Err(ConfigError::AreaEmpty)
        } else if self.smartphone_energy == 0 {
            Err(ConfigError::SmartphoneEnergyZero)
        } else if self.station_prob_den == 0 || self.station_prob_num > self.station_prob_den {
            Err(ConfigError::StationProbabilityInvalid)
        } else if self.disaster_region.y_min > self.disaster_region.y_max {
            Err(ConfigError::RegionInverted)
        } else if self.survival_den == 0 {
            Err(ConfigError::SurvivalThresholdInvalid)
        } else if self.swarm_den == 0 {
            Err(ConfigError::SwarmDrawInvalid)
        } else if self.origin >= self.node_count {
            Err(ConfigError::OriginOutOfRange)
        } else if self.dest >= self.node_count {
            Err(ConfigError::DestOutOfRange)
        } else {
            Ok(())
        }
    }
}

} // verus!
