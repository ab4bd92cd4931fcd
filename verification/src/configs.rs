//! Solver variants and the public-belief resolver settings, with the rules
//! that admit a resolver.
use vstd::prelude::*;
use vstd::string::StringExecFns;

verus! {

/// The tabular preflop solver's update rule.
#[derive(Clone, Copy, Debug, PartialEq, Eq, Structural)]
pub enum PreflopSolverVariant {
    Dcfr,
    MccfrPlus,
}

impl Default for PreflopSolverVariant {
    /// Discounted CFR.
    fn default() -> (v: Self)
        ensures
            v == PreflopSolverVariant::Dcfr,
    {
        PreflopSolverVariant::Dcfr
    }
}

/// Exact-range public-belief CFR at each reached river decision.
#[derive(Clone, Copy, Debug, PartialEq, Eq, Structural)]
pub struct RiverResolverConfig {
    pub iterations: u64,
    pub averaging_delay: u64,
}

/// Joint turn and river public-belief search.
#[derive(Clone, Copy, Debug, PartialEq, Eq, Structural)]
pub struct TurnResolverConfig {
    pub iterations: u64,
    pub averaging_delay: u64,
    pub river_refinement_iterations: u64,
    pub regret_matching_plus: bool,
}

/// A resolver runs at least two iterations and starts averaging before the last.
pub open spec fn resolver_schedule_valid(iterations: u64, averaging_delay: u64) -> bool {
    iterations >= 2 && averaging_delay < iterations
}

/// Whether a river resolver may be enabled on a policy: the policy must be
/// range-conditioned and the schedule valid; the error says which failed.
pub fn validate_river_resolver(range_conditioned: bool, resolver: RiverResolverConfig) -> (r: Result<(), String>)
    ensures
        r is Ok <==> range_conditioned && resolver_schedule_valid(resolver.iterations, resolver.averaging_delay),
        !range_conditioned ==> (r matches Err(e) && e@ == "river resolving requires a range-conditioned policy"@),
        range_conditioned && !resolver_schedule_valid(resolver.iterations, resolver.averaging_delay) ==> (r matches Err(e)
            && e@ == "river resolver configuration is invalid"@),
{
    if !range_conditioned {
        return Err(String::from_str("river resolving requires a range-conditioned policy"));
    }
    if resolver.iterations < 2 || resolver.averaging_delay >= resolver.iterations {
        return Err(String::from_str("river resolver configuration is invalid"));
    }
    Ok(())
}

/// Whether a turn resolver may be enabled on a policy: the policy must be
/// range-conditioned and the schedule valid; the error says which failed.
pub fn validate_turn_resolver(range_conditioned: bool, resolver: TurnResolverConfig) -> (r: Result<(), String>)
    ensures
        r is Ok <==> range_conditioned && resolver_schedule_valid(resolver.iterations, resolver.averaging_delay),
        !range_conditioned ==> (r matches Err(e) && e@ == "turn resolving requires a range-conditioned policy"@),
        range_conditioned && !resolver_schedule_valid(resolver.iterations, resolver.averaging_delay) ==> (r matches Err(e)
            && e@ == "turn resolver configuration is invalid"@),
{
    if !range_conditioned {
        return Err(String::from_str("turn resolving requires a range-conditioned policy"));
    }
    if resolver.iterations < 2 || resolver.averaging_delay >= resolver.iterations {
        return Err(String::from_str("turn resolver configuration is invalid"));
    }
    Ok(())
}

/// Whether a flop resolver may be enabled on a policy: the policy must be
/// range-conditioned, the schedule valid, at least one thread given, and
/// the resolved-policy weight (`weight_valid`) finite and within `[0, 1]`;
/// the error says which failed.
pub fn validate_flop_resolver(
    range_conditioned: bool,
    iterations: u64,
    averaging_delay: u64,
    threads: usize,
    weight_valid: bool,
) -> (r: Result<(), String>)
    ensures
        r is Ok <==> range_conditioned && resolver_schedule_valid(iterations, averaging_delay) && threads > 0 && weight_valid,
        !range_conditioned ==> (r matches Err(e) && e@ == "flop resolving requires a range-conditioned policy"@),
        range_conditioned && !(resolver_schedule_valid(iterations, averaging_delay) && threads > 0 && weight_valid) ==> (r matches Err(
            e,
        ) && e@ == "flop resolver configuration is invalid"@),
{
    if !range_conditioned {
        return Err(String::from_str("flop resolving requires a range-conditioned policy"));
    }
    if iterations < 2 || averaging_delay >= iterations || threads == 0 || !weight_valid {
        return Err(String::from_str("flop resolver configuration is invalid"));
    }
    Ok(())
}

} // verus!
