//! Planning the re-solve of a continuation cache by the flop resolver:
//! the request, which source deals it takes, how the work is shared, and
//! the label that records how the cache was valued.
use vstd::prelude::*;
use crate::checkpoint::{decimal, padded_decimal};
use crate::text::push_text;

verus! {

/// Whether a resolver re-solve request is sound: at least two deals, all
/// within the source cache, a schedule of at least two iterations that
/// starts averaging before its end, sound discount and uncertainty
/// parameters (`parameters_valid`), and at least one thread.
pub open spec fn resolver_request_valid(
    deals: usize,
    deal_offset: usize,
    source_deals: usize,
    resolver_iterations: u64,
    resolver_averaging_delay: u64,
    parameters_valid: bool,
    threads: usize,
) -> bool {
    &&& deals >= 2
    &&& deal_offset + deals <= source_deals
    &&& resolver_iterations >= 2
    &&& resolver_averaging_delay < resolver_iterations
    &&& parameters_valid
    &&& threads > 0
}

/// Check a resolver re-solve request.
pub fn validate_resolver_request(
    deals: usize,
    deal_offset: usize,
    source_deals: usize,
    resolver_iterations: u64,
    resolver_averaging_delay: u64,
    parameters_valid: bool,
    threads: usize,
) -> (r: Result<(), String>)
    ensures
        r is Ok <==> resolver_request_valid(
            deals,
            deal_offset,
            source_deals,
            resolver_iterations,
            resolver_averaging_delay,
            parameters_valid,
            threads,
        ),
        r matches Err(e) ==> e@ == "resolver continuation configuration is invalid"@,
{
    let within = match deal_offset.checked_add(deals) {
        Some(end) => end <= source_deals,
        None => false,
    };
    if deals < 2 || !within || resolver_iterations < 2 || resolver_averaging_delay >= resolver_iterations
        || !parameters_valid || threads == 0 {
        return Err(String::from_str("resolver continuation configuration is invalid"));
    }
    Ok(())
}

/// The source positions of the re-solved deals: `deals` positions from
/// `deal_offset` on.
pub fn source_deal_range(deal_offset: usize, deals: usize) -> (indices: Vec<usize>)
    requires
        deal_offset + deals <= usize::MAX,
    ensures
        indices@.len() == deals,
        forall|i: int| 0 <= i < deals ==> #[trigger] indices@[i] == deal_offset + i,
{
    let mut indices: Vec<usize> = Vec::new();
    let mut i: usize = 0;
    while i < deals
        invariant
            i <= deals,
            deal_offset + deals <= usize::MAX,
            indices@.len() == i,
            forall|j: int| 0 <= j < i ==> #[trigger] indices@[j] == deal_offset + j,
        decreases deals - i,
    {
        indices.push(deal_offset + i);
        i += 1;
    }
    indices
}

/// The workers of a re-solve and the resolver threads each gets: one per
/// thread but no more than deals, at least one, and an even share of the
/// threads, at least one.
pub fn resolver_worker_plan(threads: usize, deals: usize) -> (plan: (usize, usize))
    ensures
        plan.0 == (if threads < deals { if threads >= 1 { threads } else { 1 } } else { if deals >= 1 { deals } else { 1 } }),
        plan.1 == (if threads / plan.0 >= 1 { threads / plan.0 } else { 1 }),
{
    let fewer = if threads < deals { threads } else { deals };
    let workers = if fewer >= 1 { fewer } else { 1 };
    let share = threads / workers;
    (workers, if share >= 1 { share } else { 1 })
}

/// How a re-solved cache records the valuation of its continuations.
pub open spec fn resolver_mixture_label(
    cross_scored: bool,
    resolver_iterations: u64,
    regret_matching_plus: bool,
    range_policy_sha256: Option<Seq<char>>,
) -> Seq<char> {
    "turn_cfv_network_"@ + (if cross_scored { "cross_scored"@ } else { "self_scored"@ }) + "_plus_"@ + decimal(
        resolver_iterations as nat,
    ) + "_iteration_exact_all_in_flop_"@ + (if regret_matching_plus { "dcfr_plus"@ } else { "dcfr"@ })
        + "_ranges_from_"@ + match range_policy_sha256 {
        Some(d) => "tabular_preflop_policy_"@ + d,
        None => "uniform_range_control"@,
    }
}

/// The valuation label of a re-solved cache: whether an independent network
/// cross-scored it, the resolver iterations, whether regrets were clipped,
/// and the digest of the range policy, if one conditioned the ranges.
pub fn resolver_policy_mixture(
    cross_scored: bool,
    resolver_iterations: u64,
    regret_matching_plus: bool,
    range_policy_sha256: Option<&str>,
) -> (label: String)
    ensures
        label@ == resolver_mixture_label(
            cross_scored,
            resolver_iterations,
            regret_matching_plus,
            match range_policy_sha256 {
                Some(d) => Some(d@),
                None => None,
            },
        ),
{
    let mut label = String::from_str("turn_cfv_network_");
    push_text(&mut label, if cross_scored { "cross_scored" } else { "self_scored" });
    push_text(&mut label, "_plus_");
    let number = padded_decimal(resolver_iterations, 0);
    push_text(&mut label, number.as_str());
    push_text(&mut label, "_iteration_exact_all_in_flop_");
    push_text(&mut label, if regret_matching_plus { "dcfr_plus" } else { "dcfr" });
    push_text(&mut label, "_ranges_from_");
    match range_policy_sha256 {
        Some(d) => {
            push_text(&mut label, "tabular_preflop_policy_");
            push_text(&mut label, d);
        },
        None => {
            push_text(&mut label, "uniform_range_control");
        },
    }
    label
}

} // verus!
