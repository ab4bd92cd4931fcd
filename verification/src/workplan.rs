//! Admission and work division of the sampled certificates and of causal
//! policy attribution: which requests are refused, how many scenarios a deal
//! expands to, and how deals and record budgets are split among workers.
use vstd::prelude::*;
use vstd::string::StringExecFns;
use crate::batch::{attribution_street_capacities, street_capacities};

verus! {

/// Most sampled scenarios that one deal may expand to.
pub const MAX_CAUSAL_SCENARIOS: u64 = 1000000;

/// Scenarios per deal of a nested chance tree: `branches` flops, turns and
/// rivers, then `samples` hidden hands per runout.
pub open spec fn scenario_count(branches: u32, samples: u32) -> int {
    branches * branches * branches * samples
}

/// The count does not fit a `u64`: already the cube of `branches`, or the
/// full product, exceeds the largest `u64`.
pub open spec fn scenario_count_overflows(branches: u32, samples: u32) -> bool {
    branches * branches * branches > u64::MAX || scenario_count(branches, samples) > u64::MAX
}

/// The scenarios per deal, or `None` where the count does not fit a `u64`.
pub fn causal_scenarios_per_deal(branches: u32, samples: u32) -> (r: Option<u64>)
    ensures
        r is None <==> scenario_count_overflows(branches, samples),
        r matches Some(n) ==> n == scenario_count(branches, samples),
{
    let b = branches as u64;
    let s = samples as u64;
    proof {
        lemma_square_below_cube(b as int);
    }
    match b.checked_mul(b) {
        None => None,
        Some(square) => match square.checked_mul(b) {
            None => None,
            Some(cube) => cube.checked_mul(s),
        },
    }
}

proof fn lemma_square_below_cube(b: int)
    requires
        b >= 0,
    ensures
        b >= 1 ==> b * b <= b * b * b,
        b == 0 ==> b * b * b == 0,
{
    if b >= 1 {
        assert(b * b <= b * b * b) by (nonlinear_arith)
            requires b >= 1;
    }
}

/// Whether a causal policy-attribution request is admitted, in the order the
/// checks are made; on success, the scenarios per deal.
pub open spec fn causal_attribution_admitted(
    deals: u64,
    threads: usize,
    branches: u32,
    samples: u32,
    max_records: usize,
) -> bool {
    &&& deals > 0
    &&& threads > 0
    &&& branches > 0 && samples > 0
    &&& max_records >= 3
    &&& !scenario_count_overflows(branches, samples)
    &&& scenario_count(branches, samples) <= MAX_CAUSAL_SCENARIOS
}

/// Check a causal policy-attribution request before any file is read.
pub fn validate_causal_attribution(
    deals: u64,
    threads: usize,
    public_branches_per_street: u32,
    opponent_samples_per_runout: u32,
    max_records: usize,
) -> (r: Result<u64, String>)
    ensures
        r is Ok <==> causal_attribution_admitted(deals, threads, public_branches_per_street, opponent_samples_per_runout, max_records),
        r matches Ok(n) ==> n == scenario_count(public_branches_per_street, opponent_samples_per_runout),
        deals == 0 ==> (r matches Err(e) && e@ == "causal attribution requires at least one deal"@),
        deals > 0 && threads == 0 ==> (r matches Err(e) && e@ == "causal attribution thread count must be positive"@),
        deals > 0 && threads > 0 && (public_branches_per_street == 0 || opponent_samples_per_runout == 0) ==> (r matches Err(e)
            && e@ == "causal attribution requires public and hidden-hand samples"@),
        deals > 0 && threads > 0 && public_branches_per_street > 0 && opponent_samples_per_runout > 0 && max_records < 3 ==> (r matches Err(e)
            && e@ == "causal attribution requires at least three retained records"@),
        deals > 0 && threads > 0 && public_branches_per_street > 0 && opponent_samples_per_runout > 0 && max_records >= 3
            && scenario_count_overflows(public_branches_per_street, opponent_samples_per_runout) ==> (r matches Err(e)
            && e@ == "causal attribution scenario count overflows"@),
        deals > 0 && threads > 0 && public_branches_per_street > 0 && opponent_samples_per_runout > 0 && max_records >= 3
            && !scenario_count_overflows(public_branches_per_street, opponent_samples_per_runout)
            && scenario_count(public_branches_per_street, opponent_samples_per_runout) > MAX_CAUSAL_SCENARIOS ==> (r matches Err(e)
            && e@ == "causal attribution exceeds one million scenarios per deal"@),
{
    if deals == 0 {
        return Err(String::from_str("causal attribution requires at least one deal"));
    }
    if threads == 0 {
        return Err(String::from_str("causal attribution thread count must be positive"));
    }
    if public_branches_per_street == 0 || opponent_samples_per_runout == 0 {
        return Err(String::from_str("causal attribution requires public and hidden-hand samples"));
    }
    if max_records < 3 {
        return Err(String::from_str("causal attribution requires at least three retained records"));
    }
    let scenarios = match causal_scenarios_per_deal(public_branches_per_street, opponent_samples_per_runout) {
        Some(n) => n,
        None => {
            return Err(String::from_str("causal attribution scenario count overflows"));
        },
    };
    if scenarios > MAX_CAUSAL_SCENARIOS {
        return Err(String::from_str("causal attribution exceeds one million scenarios per deal"));
    }
    Ok(scenarios)
}

/// How an admitted attribution request is divided: the record budget of
/// each postflop street, the number of workers and the deals per worker.
#[derive(Clone, Copy, Debug)]
pub struct AttributionWork {
    pub capacities: [usize; 3],
    pub workers: usize,
    pub chunk_size: usize,
}

/// The least of three numbers.
pub open spec fn min3(a: int, b: int, c: int) -> int {
    if a <= b && a <= c {
        a
    } else if b <= c {
        b
    } else {
        c
    }
}

/// Split an admitted request: the record budget over streets, then as many
/// workers as there are threads, deals and records on the smallest street,
/// whichever is fewest, each taking `ceil(deals / workers)` deals.
pub fn causal_attribution_work(deals: u64, threads: usize, max_records: usize) -> (r: Result<AttributionWork, String>)
    requires
        deals > 0,
        deals <= usize::MAX,
        threads > 0,
        max_records >= 3,
        max_records * 3 <= usize::MAX,
    ensures
        ({
            let (f, t, v) = street_capacities(max_records as int);
            &&& r is Ok <==> v > 0
            &&& !(v > 0) ==> (r matches Err(e) && e@ == "causal attribution record budget cannot cover every postflop street"@)
            &&& r matches Ok(w) ==> {
                let n = deals as int;
                &&& (w.capacities[0] as int, w.capacities[1] as int, w.capacities[2] as int) == (f, t, v)
                &&& w.workers == min3(threads as int, n, min3(f, t, v))
                &&& w.workers >= 1
                &&& w.chunk_size == (n + w.workers - 1) / (w.workers as int)
            }
        }),
{
    let capacities = attribution_street_capacities(max_records);
    if capacities[2] == 0 {
        return Err(String::from_str("causal attribution record budget cannot cover every postflop street"));
    }
    let deal_count = deals as usize;
    let smallest = if capacities[0] <= capacities[1] && capacities[0] <= capacities[2] {
        capacities[0]
    } else if capacities[1] <= capacities[2] {
        capacities[1]
    } else {
        capacities[2]
    };
    let workers = if threads <= deal_count && threads <= smallest {
        threads
    } else if deal_count <= smallest {
        deal_count
    } else {
        smallest
    };
    let chunk_size = div_ceil(deal_count, workers);
    Ok(AttributionWork { capacities, workers, chunk_size })
}

/// `ceil(n / d)`.
pub fn div_ceil(n: usize, d: usize) -> (q: usize)
    requires
        d > 0,
    ensures
        q == (n + d - 1) / (d as int),
{
    let q = n / d;
    let ghost ni = n as int;
    let ghost di = d as int;
    if n % d == 0 {
        proof {
            assert((ni + di - 1) / di == ni / di) by (nonlinear_arith)
                requires ni % di == 0, di > 0, ni >= 0;
        }
        q
    } else {
        proof {
            assert((ni + di - 1) / di == ni / di + 1) by (nonlinear_arith)
                requires ni % di != 0, di > 0, ni >= 0;
            assert(ni / di < ni) by (nonlinear_arith)
                requires ni % di != 0, di > 0, ni >= 0;
        }
        q + 1
    }
}

/// The half-open ranges of positions that consecutive workers take:
/// `chunk` positions each, the last one possibly shorter.
pub fn chunk_ranges(len: usize, chunk: usize) -> (ranges: Vec<(usize, usize)>)
    requires
        chunk > 0,
    ensures
        ranges.len() == (len + chunk - 1) / (chunk as int),
        forall|i: int|
            0 <= i < ranges.len() ==> {
                &&& (#[trigger] ranges[i]).0 == i * chunk
                &&& ranges[i].1 == if (i + 1) * chunk < len { (i + 1) * chunk } else { len as int }
            },
{
    let mut ranges: Vec<(usize, usize)> = Vec::new();
    let mut start: usize = 0;
    proof {
        assert(0 * (chunk as int) == 0);
    }
    while start < len
        invariant
            chunk > 0,
            start <= len,
            start < len ==> start == ranges.len() * chunk,
            start == len ==> ranges.len() * chunk >= len,
            ranges.len() * chunk < len + chunk,
            forall|i: int|
                0 <= i < ranges.len() ==> {
                    &&& (#[trigger] ranges[i]).0 == i * chunk
                    &&& ranges[i].1 == if (i + 1) * chunk < len { (i + 1) * chunk } else { len as int }
                },
        decreases len - start,
    {
        let ghost k = ranges.len() as int;
        let end = if len - start > chunk { start + chunk } else { len };
        proof {
            assert((k + 1) * chunk == k * chunk + chunk) by (nonlinear_arith);
        }
        ranges.push((start, end));
        start = end;
    }
    proof {
        let k = ranges.len() as int;
        let c = chunk as int;
        let l = len as int;
        assert(k * c >= l);
        if k == 0 {
            assert(l == 0);
        }
        assert(k == (l + c - 1) / c) by (nonlinear_arith)
            requires k * c >= l, k * c < l + c, c > 0, l >= 0, k >= 0;
    }
    ranges
}

/// Dividing `len` deals into chunks of `ceil(len / workers)` leaves no more
/// chunks than workers, and the chunks cover every deal once: each chunk
/// starts where the previous one ended, and the last ends at `len`.
pub proof fn law_chunks_fit_workers(len: int, workers: int)
    requires
        len >= 0,
        workers >= 1,
    ensures
        ({
            let chunk = (len + workers - 1) / workers;
            &&& chunk >= 1 || len == 0
            &&& chunk >= 1 ==> (len + chunk - 1) / chunk <= workers
            &&& chunk >= 1 ==> ((len + chunk - 1) / chunk) * chunk >= len
        }),
{
    let chunk = (len + workers - 1) / workers;
    assert(chunk * workers >= len) by (nonlinear_arith)
        requires chunk == (len + workers - 1) / workers, workers >= 1, len >= 0;
    if len > 0 {
        assert(chunk >= 1) by (nonlinear_arith)
            requires chunk * workers >= len, len > 0, workers >= 1;
        let k = (len + chunk - 1) / chunk;
        assert(k <= workers) by (nonlinear_arith)
            requires k == (len + chunk - 1) / chunk, chunk * workers >= len, chunk >= 1, workers >= 1, len >= 0;
        assert(k * chunk >= len) by (nonlinear_arith)
            requires k == (len + chunk - 1) / chunk, chunk >= 1, len >= 0;
    } else {
        assert(chunk >= 0) by (nonlinear_arith)
            requires chunk == (len + workers - 1) / workers, workers >= 1, len >= 0;
        if chunk >= 1 {
            assert((len + chunk - 1) / chunk == 0) by (nonlinear_arith)
                requires len == 0, chunk >= 1;
        }
    }
}

/// The seed of the scenario stream of one responder on one deal.
pub open spec fn scenario_seed(seed: u64, index: u64, responder: usize) -> u64 {
    seed ^ vstd::wrapping::u64_specs::wrapping_mul(index, 0x9e37_79b9_7f4a_7c15u64)
        ^ vstd::wrapping::u64_specs::wrapping_mul((responder + 1) as u64, 0xbf58_476d_1ce4_e5b9u64)
}

/// Mix the base seed with the deal index and the responder seat.
pub fn causal_scenario_seed(seed: u64, index: u64, responder: usize) -> (s: u64)
    requires
        responder < 2,
    ensures
        s == scenario_seed(seed, index, responder),
{
    seed ^ index.wrapping_mul(0x9e37_79b9_7f4a_7c15) ^ (responder as u64 + 1).wrapping_mul(0xbf58_476d_1ce4_e5b9)
}

/// How the sampled certificates divide their deals: as many workers as
/// threads or deals, whichever is fewer, each taking `ceil(deals / workers)`.
pub fn certificate_work(deal_count: usize, threads: usize) -> (r: (usize, usize))
    requires
        deal_count > 0,
        threads > 0,
    ensures
        r.0 == if threads <= deal_count { threads } else { deal_count },
        r.1 == (deal_count + r.0 - 1) / (r.0 as int),
{
    let workers = if threads <= deal_count { threads } else { deal_count };
    (workers, div_ceil(deal_count, workers))
}

/// Check a sampled exploitability-certificate request: at least two deals,
/// a confidence strictly between zero and one, and at least one thread.
pub fn validate_certificate_request(deals: u64, confidence_in_range: bool, threads: usize) -> (r: Result<(), String>)
    ensures
        r is Ok <==> deals >= 2 && confidence_in_range && threads > 0,
        deals < 2 ==> (r matches Err(e) && e@ == "exploitability certification requires at least two deals"@),
        deals >= 2 && !confidence_in_range ==> (r matches Err(e) && e@
            == "certificate confidence must be strictly between zero and one"@),
        deals >= 2 && confidence_in_range && threads == 0 ==> (r matches Err(e) && e@ == "certificate thread count must be positive"@),
{
    if deals < 2 {
        return Err(String::from_str("exploitability certification requires at least two deals"));
    }
    if !confidence_in_range {
        return Err(String::from_str("certificate confidence must be strictly between zero and one"));
    }
    if threads == 0 {
        return Err(String::from_str("certificate thread count must be positive"));
    }
    Ok(())
}

/// Check an opponent-hidden certificate request: as the sampled certificate,
/// with at least one hidden-hand sample per deal checked after the deals.
pub fn validate_opponent_hidden_request(
    deals: u64,
    opponent_samples_per_deal: u32,
    confidence_in_range: bool,
    threads: usize,
) -> (r: Result<(), String>)
    ensures
        r is Ok <==> deals >= 2 && opponent_samples_per_deal > 0 && confidence_in_range && threads > 0,
        deals < 2 ==> (r matches Err(e) && e@ == "exploitability certification requires at least two deals"@),
        deals >= 2 && opponent_samples_per_deal == 0 ==> (r matches Err(e) && e@
            == "opponent-hidden certification requires opponent samples"@),
        deals >= 2 && opponent_samples_per_deal > 0 && !confidence_in_range ==> (r matches Err(e) && e@
            == "certificate confidence must be strictly between zero and one"@),
        deals >= 2 && opponent_samples_per_deal > 0 && confidence_in_range && threads == 0 ==> (r matches Err(e) && e@
            == "certificate thread count must be positive"@),
{
    if deals < 2 {
        return Err(String::from_str("exploitability certification requires at least two deals"));
    }
    if opponent_samples_per_deal == 0 {
        return Err(String::from_str("opponent-hidden certification requires opponent samples"));
    }
    validate_certificate_request(deals, confidence_in_range, threads)
}

/// Check a causal sample-game certificate request; on success, the
/// scenarios per deal.
pub fn validate_causal_certificate_request(
    deals: u64,
    public_branches_per_street: u32,
    opponent_samples_per_runout: u32,
    confidence_in_range: bool,
    threads: usize,
) -> (r: Result<u64, String>)
    ensures
        r is Ok <==> deals >= 2 && public_branches_per_street > 0 && opponent_samples_per_runout > 0 && confidence_in_range
            && threads > 0 && !scenario_count_overflows(public_branches_per_street, opponent_samples_per_runout)
            && scenario_count(public_branches_per_street, opponent_samples_per_runout) <= MAX_CAUSAL_SCENARIOS,
        r matches Ok(n) ==> n == scenario_count(public_branches_per_street, opponent_samples_per_runout),
        deals < 2 ==> (r matches Err(e) && e@ == "exploitability certification requires at least two deals"@),
        deals >= 2 && public_branches_per_street == 0 ==> (r matches Err(e) && e@ == "causal certification requires public chance branches"@),
        deals >= 2 && public_branches_per_street > 0 && opponent_samples_per_runout > 0 && !confidence_in_range ==> (r matches Err(e)
            && e@ == "certificate confidence must be strictly between zero and one"@),
        deals >= 2 && public_branches_per_street > 0 && opponent_samples_per_runout > 0 && confidence_in_range && threads == 0
            ==> (r matches Err(e) && e@ == "certificate thread count must be positive"@),
        deals >= 2 && public_branches_per_street > 0 && opponent_samples_per_runout == 0 ==> (r matches Err(e) && e@
            == "causal certification requires hidden-hand samples"@),
        deals >= 2 && public_branches_per_street > 0 && opponent_samples_per_runout > 0 && confidence_in_range && threads > 0
            && scenario_count_overflows(public_branches_per_street, opponent_samples_per_runout) ==> (r matches Err(e) && e@
            == "causal certificate scenario count overflows"@),
        deals >= 2 && public_branches_per_street > 0 && opponent_samples_per_runout > 0 && confidence_in_range && threads > 0
            && !scenario_count_overflows(public_branches_per_street, opponent_samples_per_runout)
            && scenario_count(public_branches_per_street, opponent_samples_per_runout) > MAX_CAUSAL_SCENARIOS ==> (r matches Err(e)
            && e@ == "causal certificate exceeds one million scenarios per deal"@),
{
    if deals < 2 {
        return Err(String::from_str("exploitability certification requires at least two deals"));
    }
    if public_branches_per_street == 0 {
        return Err(String::from_str("causal certification requires public chance branches"));
    }
    if opponent_samples_per_runout == 0 {
        return Err(String::from_str("causal certification requires hidden-hand samples"));
    }
    match validate_certificate_request(deals, confidence_in_range, threads) {
        Ok(()) => {},
        Err(e) => {
            return Err(e);
        },
    }
    let scenarios = match causal_scenarios_per_deal(public_branches_per_street, opponent_samples_per_runout) {
        Some(n) => n,
        None => {
            return Err(String::from_str("causal certificate scenario count overflows"));
        },
    };
    if scenarios > MAX_CAUSAL_SCENARIOS {
        return Err(String::from_str("causal certificate exceeds one million scenarios per deal"));
    }
    Ok(scenarios)
}

} // verus!
