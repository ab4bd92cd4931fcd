//! Requests for sample generation, range self-play, causal attribution and
//! continuation caches, with the rules that admit them. Each request carries
//! the solver's game configuration as `G`.
use vstd::prelude::*;
use vstd::string::StringExecFns;
use std::path::PathBuf;
use crate::workplan::{validate_causal_attribution, causal_attribution_admitted, scenario_count};

verus! {

/// A path on disk.
#[verifier::external_type_specification]
#[verifier::external_body]
pub struct ExPathBuf(PathBuf);

/// Neural traversal sample generation.
pub struct SampleGenerationConfig<G> {
    pub game: G,
    pub traversals: u64,
    pub start_iteration: u64,
    pub seed: u64,
    pub max_records: usize,
    pub output: PathBuf,
    pub network_path: Option<PathBuf>,
    pub trajectory_sampling: bool,
    pub evaluate_trajectory_values: bool,
    pub value_rollouts_per_action: u32,
    pub enumerate_turn_river_chance: bool,
}

/// The sampling settings of a generator are usable: traversals, records and
/// rollouts are positive, and trajectory action values are only evaluated on
/// sampled trajectories with at least two rollouts.
pub open spec fn sampling_admitted<G>(c: SampleGenerationConfig<G>) -> bool {
    &&& c.traversals > 0
    &&& c.max_records > 0
    &&& c.value_rollouts_per_action > 0
    &&& c.evaluate_trajectory_values ==> c.trajectory_sampling
    &&& c.evaluate_trajectory_values ==> c.value_rollouts_per_action >= 2
}

impl<G> SampleGenerationConfig<G> {
    /// Check the sampling settings, in the order the generator checks them
    /// once the game configuration is valid.
    pub fn check_sampling(&self) -> (r: Result<(), String>)
        ensures
            r is Ok <==> sampling_admitted(*self),
            self.traversals == 0 ==> (r matches Err(e) && e@ == "neural traversals must be positive"@),
            self.traversals > 0 && self.max_records == 0 ==> (r matches Err(e) && e@ == "neural record limit must be positive"@),
            self.traversals > 0 && self.max_records > 0 && self.value_rollouts_per_action == 0 ==> (r matches Err(e) && e@
                == "value rollouts per action must be positive"@),
            self.traversals > 0 && self.max_records > 0 && self.value_rollouts_per_action > 0 && self.evaluate_trajectory_values
                && !self.trajectory_sampling ==> (r matches Err(e) && e@
                == "trajectory action-value evaluation requires trajectory sampling"@),
            self.traversals > 0 && self.max_records > 0 && self.value_rollouts_per_action > 0 && self.evaluate_trajectory_values
                && self.trajectory_sampling && self.value_rollouts_per_action < 2 ==> (r matches Err(e) && e@
                == "trajectory action-value evaluation requires at least two rollouts"@),
    {
        if self.traversals == 0 {
            return Err(String::from_str("neural traversals must be positive"));
        }
        if self.max_records == 0 {
            return Err(String::from_str("neural record limit must be positive"));
        }
        if self.value_rollouts_per_action == 0 {
            return Err(String::from_str("value rollouts per action must be positive"));
        }
        if self.evaluate_trajectory_values && !self.trajectory_sampling {
            return Err(String::from_str("trajectory action-value evaluation requires trajectory sampling"));
        }
        if self.evaluate_trajectory_values && self.value_rollouts_per_action < 2 {
            return Err(String::from_str("trajectory action-value evaluation requires at least two rollouts"));
        }
        Ok(())
    }
}

/// Range-conditioned self-play sample generation.
pub struct RangeSelfPlaySampleConfig<G> {
    pub game: G,
    pub traversals: u64,
    pub start_iteration: u64,
    pub seed: u64,
    pub max_records: usize,
    pub network_path: PathBuf,
    pub range_policy_path: PathBuf,
    pub value_rollouts_per_action: u32,
    pub enumerate_turn_river_chance: bool,
    pub output: PathBuf,
}

impl<G> RangeSelfPlaySampleConfig<G> {
    /// Check a range self-play request before any file is read: at least two
    /// traversals, three records and two rollouts per action.
    pub fn check_request(&self) -> (r: Result<(), String>)
        ensures
            r is Ok <==> self.traversals >= 2 && self.max_records >= 3 && self.value_rollouts_per_action >= 2,
            self.traversals < 2 || self.max_records < 3 ==> (r matches Err(e) && e@
                == "range self-play requires two traversals and three records"@),
            self.traversals >= 2 && self.max_records >= 3 && self.value_rollouts_per_action < 2 ==> (r matches Err(e) && e@
                == "range self-play action values require at least two rollouts"@),
    {
        if self.traversals < 2 || self.max_records < 3 {
            return Err(String::from_str("range self-play requires two traversals and three records"));
        }
        if self.value_rollouts_per_action < 2 {
            return Err(String::from_str("range self-play action values require at least two rollouts"));
        }
        Ok(())
    }
}

/// Causal policy attribution over sampled deals.
pub struct CausalPolicyAttributionConfig<G> {
    pub game: G,
    pub deals: u64,
    pub seed: u64,
    pub threads: usize,
    pub network_path: PathBuf,
    pub range_policy_path: Option<PathBuf>,
    pub public_branches_per_street: u32,
    pub opponent_samples_per_runout: u32,
    pub max_records: usize,
    pub output: PathBuf,
}

impl<G> CausalPolicyAttributionConfig<G> {
    /// Check the request before any file is read; on success, the scenarios
    /// per deal (see [`validate_causal_attribution`]).
    pub fn check_request(&self) -> (r: Result<u64, String>)
        ensures
            r is Ok <==> causal_attribution_admitted(
                self.deals,
                self.threads,
                self.public_branches_per_street,
                self.opponent_samples_per_runout,
                self.max_records,
            ),
            r matches Ok(n) ==> n == scenario_count(self.public_branches_per_street, self.opponent_samples_per_runout),
    {
        validate_causal_attribution(
            self.deals,
            self.threads,
            self.public_branches_per_street,
            self.opponent_samples_per_runout,
            self.max_records,
        )
    }
}

/// Tabular continuation values of flop leaves under frozen policies.
pub struct ContinuationCacheConfig<G> {
    pub game: G,
    pub deals: usize,
    pub seed: u64,
    pub rollouts_per_leaf: u32,
    pub network_paths: Vec<PathBuf>,
}

/// The rollouts of a leaf split evenly over the frozen policies: at least
/// two deals and two rollouts, at least one policy, and a positive multiple
/// of the policy count (taken as a `u32`) of rollouts.
pub open spec fn continuation_request_admitted(deals: usize, rollouts: u32, policies: usize) -> bool {
    let counted = policies as u32;
    &&& deals >= 2 && rollouts >= 2
    &&& policies > 0 && counted > 0 && rollouts >= counted && rollouts % counted == 0
}

impl<G> ContinuationCacheConfig<G> {
    /// Check a continuation-cache request once the game configuration is valid.
    pub fn check_request(&self) -> (r: Result<(), String>)
        ensures
            r is Ok <==> continuation_request_admitted(self.deals, self.rollouts_per_leaf, self.network_paths@.len() as usize),
            self.deals < 2 || self.rollouts_per_leaf < 2 ==> (r matches Err(e) && e@
                == "continuation cache requires at least two deals and rollouts"@),
            self.deals >= 2 && self.rollouts_per_leaf >= 2 && !continuation_request_admitted(
                self.deals,
                self.rollouts_per_leaf,
                self.network_paths@.len() as usize,
            ) ==> (r matches Err(e) && e@ == "continuation cache requires an equal positive rollout count per frozen policy"@),
    {
        if self.deals < 2 || self.rollouts_per_leaf < 2 {
            return Err(String::from_str("continuation cache requires at least two deals and rollouts"));
        }
        let policies = self.network_paths.len();
        let counted = #[verifier::truncate] (policies as u32);
        if policies == 0 || self.rollouts_per_leaf < counted || counted == 0 || self.rollouts_per_leaf % counted != 0 {
            return Err(String::from_str("continuation cache requires an equal positive rollout count per frozen policy"));
        }
        Ok(())
    }
}

} // verus!
