//! The checks of an exact-deal continuation cache, in the order a reader
//! applies them: compatibility, metadata, the game, completeness and
//! provenance, the estimates, and the validation summary. The facts about
//! floating-point values come in as the outcomes of their own checks.
use vstd::prelude::*;
use vstd::utf8::encode_utf8;
use vstd::string::StrSliceExecFns;
use crate::cards::COMBO_COUNT;
use crate::provenance::{
    CYCLE_SIZE, complete_cycles, expected_balanced_marginals, expected_complete_cycles, has_repeated_index,
    is_hex_digest, is_hex_digest_bytes, is_source_order, merge_source_deal_indices, merged_cache_origin, merged_seed,
    order_indices,
    source_provenance_is_valid,
};
use crate::range_cache::{key_listed, keys_listed, optional_text, same_keys, same_optional_text};
use crate::text::str_eq;

verus! {

/// The resolver that re-solved a cache from a source cache.
pub struct ResolverProvenanceShape {
    pub iterations: u64,
    pub averaging_delay: u64,
    /// The three discount exponents are finite and non-negative.
    pub dcfr_valid: bool,
    /// The value uncertainty is finite and non-negative.
    pub value_uncertainty_valid: bool,
    pub threads: usize,
    pub value_network_sha256: String,
    pub evaluation_value_network_sha256: Option<String>,
    pub range_policy_sha256: Option<String>,
}

/// One cached deal: the history keys of its continuation estimates, and of
/// its exact-combo values with the lengths of the two players' vectors.
pub struct CachedDealShape {
    pub history_keys: Vec<u64>,
    pub exact_combo: Option<Vec<(u64, [usize; 2])>>,
    /// Every exact-combo value is finite and within the stack depth.
    pub exact_combo_values_valid: bool,
}

/// What the checks of a continuation cache read.
pub struct ContinuationCacheShape {
    pub schema: String,
    pub rollouts_per_leaf: u32,
    /// The game's effective stack is the cache's depth.
    pub stack_matches_depth: bool,
    pub complete_exact_combo_cycles: usize,
    pub balanced_exact_combo_marginals: bool,
    pub network_sha256: String,
    pub network_sha256s: Vec<String>,
    pub policy_mixture: String,
    pub resolver_provenance: Option<ResolverProvenanceShape>,
    pub source_cache_sha256: Option<String>,
    pub source_deal_indices: Option<Vec<usize>>,
    /// The keys of the cache's public histories.
    pub history_keys: Vec<u64>,
    pub deals: Vec<CachedDealShape>,
    /// Every continuation estimate is finite, within the stack depth, and
    /// has a non-negative standard error.
    pub estimates_valid: bool,
    pub validation_complete: bool,
    pub validation_probability_values_finite: bool,
    pub validation_utilities_within_stack: bool,
    pub validation_leaf_values: usize,
    /// The summary's fractions lie in the unit interval and its maxima are
    /// finite.
    pub validation_statistics_valid: bool,
}

/// The current schema of a continuation cache.
pub open spec fn continuation_schema() -> Seq<char> {
    "hu-preflop-continuation-cache-v2"@
}

/// The schema of the previous version, still read.
pub open spec fn legacy_continuation_schema() -> Seq<char> {
    "hu-preflop-continuation-cache-v1"@
}

/// A hexadecimal SHA-256 digest.
pub open spec fn hex_digest(s: String) -> bool {
    is_hex_digest_bytes(encode_utf8(s@))
}

/// The resolver provenance, if any, belongs to a cache derived from a
/// source cache, has a sound schedule and parameters, and names the value
/// networks the cache lists: the value network first, then the evaluation
/// network if there is one, and nothing else.
pub open spec fn resolver_provenance_valid(c: ContinuationCacheShape) -> bool {
    match c.resolver_provenance {
        None => true,
        Some(r) => {
            &&& c.source_cache_sha256 is Some
            &&& r.iterations >= 2
            &&& r.averaging_delay < r.iterations
            &&& r.dcfr_valid
            &&& r.value_uncertainty_valid
            &&& r.threads > 0
            &&& hex_digest(r.value_network_sha256)
            &&& r.value_network_sha256@ == c.network_sha256@
            &&& c.network_sha256s@.len() > 0 && c.network_sha256s@[0]@ == r.value_network_sha256@
            &&& match r.evaluation_value_network_sha256 {
                Some(d) => hex_digest(d) && c.network_sha256s@.len() == 2 && c.network_sha256s@[1]@ == d@,
                None => c.network_sha256s@.len() == 1,
            }
            &&& match r.range_policy_sha256 {
                Some(d) => hex_digest(d),
                None => true,
            }
        },
    }
}

/// A cached deal holds an estimate for exactly the cache's histories and,
/// if it has exact-combo values, one valid vector per player and combo for
/// exactly those histories.
pub open spec fn deal_shape_valid(d: CachedDealShape, history_keys: Seq<u64>) -> bool {
    &&& d.history_keys@.len() == history_keys.len()
    &&& forall|i: int| 0 <= i < d.history_keys@.len() ==> key_listed(history_keys, #[trigger] d.history_keys@[i])
    &&& match d.exact_combo {
        None => true,
        Some(values) => {
            &&& values@.len() == history_keys.len()
            &&& forall|i: int| 0 <= i < values@.len() ==> key_listed(history_keys, (#[trigger] values@[i]).0)
            &&& forall|i: int|
                0 <= i < values@.len() ==> (#[trigger] values@[i]).1[0] == COMBO_COUNT && values@[i].1[1] == COMBO_COUNT
            &&& d.exact_combo_values_valid
        },
    }
}

/// The source provenance: absent, or a source digest with one distinct
/// source index per deal.
pub open spec fn source_valid(c: ContinuationCacheShape) -> bool {
    match (c.source_cache_sha256, c.source_deal_indices) {
        (None, None) => true,
        (Some(digest), Some(indices)) => {
            &&& hex_digest(digest)
            &&& indices@.len() == c.deals@.len()
            &&& forall|i: int, j: int| 0 <= i < j < indices@.len() ==> indices@[i] != indices@[j]
        },
        _ => false,
    }
}

/// The complete exact-combo cycles the cache must report.
pub open spec fn cycles_expected(c: ContinuationCacheShape) -> int {
    match c.source_deal_indices {
        Some(indices) => complete_cycles(indices@).len() as int,
        None => c.deals@.len() as int / CYCLE_SIZE as int,
    }
}

/// Whether the cache must report balanced exact-combo marginals.
pub open spec fn balanced_expected(c: ContinuationCacheShape) -> bool {
    match c.source_deal_indices {
        Some(indices) => complete_cycles(indices@).len() * CYCLE_SIZE == indices@.len(),
        None => c.deals@.len() % (CYCLE_SIZE as nat) == 0,
    }
}

/// Everything the completeness check asks of a cache.
pub open spec fn cache_complete(c: ContinuationCacheShape) -> bool {
    &&& c.history_keys@.len() > 0
    &&& source_valid(c)
    &&& resolver_provenance_valid(c)
    &&& c.complete_exact_combo_cycles == cycles_expected(c)
    &&& c.balanced_exact_combo_marginals == balanced_expected(c)
    &&& hex_digest(c.network_sha256)
    &&& forall|i: int| 0 <= i < c.network_sha256s@.len() ==> hex_digest(#[trigger] c.network_sha256s@[i])
    &&& !(c.network_sha256s@.len() > 1 && c.policy_mixture@.len() == 0)
    &&& forall|i: int| 0 <= i < c.deals@.len() ==> deal_shape_valid(#[trigger] c.deals@[i], c.history_keys@)
}

/// The summary agrees with the cache: complete, finite and within the
/// stack, one leaf value per deal and history, and sound statistics.
pub open spec fn summary_valid(c: ContinuationCacheShape) -> bool {
    &&& c.validation_complete
    &&& c.validation_probability_values_finite
    &&& c.validation_utilities_within_stack
    &&& c.validation_leaf_values == c.deals@.len() * c.history_keys@.len()
    &&& c.validation_statistics_valid
}

/// The error the checks give, if any, in their order; `game` is the outcome
/// of the game configuration's own check.
pub open spec fn continuation_cache_error(c: ContinuationCacheShape, game: Result<(), Seq<char>>) -> Option<Seq<char>> {
    if !(c.schema@ == continuation_schema() || c.schema@ == legacy_continuation_schema()) || c.deals@.len() < 2 {
        Some("preflop continuation cache is incompatible"@)
    } else if !c.stack_matches_depth || c.rollouts_per_leaf < 2 {
        Some("preflop continuation cache metadata is invalid"@)
    } else if game is Err {
        Some(game->Err_0)
    } else if !cache_complete(c) {
        Some("preflop continuation cache is incomplete"@)
    } else if !c.estimates_valid {
        Some("preflop continuation cache contains invalid values"@)
    } else if !summary_valid(c) {
        Some("preflop continuation cache validation summary is invalid"@)
    } else {
        None
    }
}

fn digest_valid(s: &String) -> (b: bool)
    ensures
        b == hex_digest(*s),
{
    is_hex_digest(s.as_str())
}

fn resolver_valid(c: &ContinuationCacheShape) -> (b: bool)
    ensures
        b == resolver_provenance_valid(*c),
{
    match &c.resolver_provenance {
        None => true,
        Some(r) => {
            if c.source_cache_sha256.is_none() || r.iterations < 2 || r.averaging_delay >= r.iterations || !r.dcfr_valid
                || !r.value_uncertainty_valid || r.threads == 0 || !digest_valid(&r.value_network_sha256) {
                return false;
            }
            if !str_eq(r.value_network_sha256.as_str(), c.network_sha256.as_str()) {
                return false;
            }
            if c.network_sha256s.len() == 0 || !str_eq(c.network_sha256s[0].as_str(), r.value_network_sha256.as_str()) {
                return false;
            }
            let evaluation_ok = match &r.evaluation_value_network_sha256 {
                Some(d) => digest_valid(d) && c.network_sha256s.len() == 2 && str_eq(
                    c.network_sha256s[1].as_str(),
                    d.as_str(),
                ),
                None => c.network_sha256s.len() == 1,
            };
            let range_ok = match &r.range_policy_sha256 {
                Some(d) => digest_valid(d),
                None => true,
            };
            evaluation_ok && range_ok
        },
    }
}

fn exact_keys_listed(keys: &Vec<u64>, values: &Vec<(u64, [usize; 2])>) -> (b: bool)
    ensures
        b == (forall|i: int| 0 <= i < values@.len() ==> key_listed(keys@, (#[trigger] values@[i]).0)),
{
    let mut firsts: Vec<u64> = Vec::new();
    let mut i: usize = 0;
    while i < values.len()
        invariant
            i <= values@.len(),
            firsts@.len() == i,
            forall|j: int| 0 <= j < i ==> #[trigger] firsts@[j] == values@[j].0,
        decreases values.len() - i,
    {
        firsts.push(values[i].0);
        i += 1;
    }
    let b = keys_listed(keys, &firsts);
    proof {
        if b {
            assert forall|j: int| 0 <= j < values@.len() implies key_listed(keys@, (#[trigger] values@[j]).0) by {
                assert(firsts@[j] == values@[j].0);
            }
        } else {
            let j = choose|j: int| !(0 <= j < firsts@.len() ==> key_listed(keys@, #[trigger] firsts@[j]));
            assert(firsts@[j] == values@[j].0);
        }
    }
    b
}

fn deal_valid(d: &CachedDealShape, keys: &Vec<u64>) -> (b: bool)
    ensures
        b == deal_shape_valid(*d, keys@),
{
    if d.history_keys.len() != keys.len() || !keys_listed(keys, &d.history_keys) {
        return false;
    }
    match &d.exact_combo {
        None => true,
        Some(values) => {
            if values.len() != keys.len() || !exact_keys_listed(keys, values) {
                return false;
            }
            let mut i: usize = 0;
            while i < values.len()
                invariant
                    i <= values@.len(),
                    d.exact_combo == Some(*values),
                    forall|j: int|
                        0 <= j < i ==> (#[trigger] values@[j]).1[0] == COMBO_COUNT && values@[j].1[1] == COMBO_COUNT,
                decreases values.len() - i,
            {
                if values[i].1[0] != COMBO_COUNT || values[i].1[1] != COMBO_COUNT {
                    assert(!((values@[i as int]).1[0] == COMBO_COUNT && values@[i as int].1[1] == COMBO_COUNT));
                    return false;
                }
                i += 1;
            }
            d.exact_combo_values_valid
        },
    }
}

impl ContinuationCacheShape {
    fn complete(&self) -> (b: bool)
        ensures
            b == cache_complete(*self),
    {
        if self.history_keys.len() == 0 {
            return false;
        }
        let source_ok = source_provenance_is_valid(
            match &self.source_cache_sha256 {
                Some(d) => Some(d.as_str()),
                None => None,
            },
            match &self.source_deal_indices {
                Some(v) => Some(v.as_slice()),
                None => None,
            },
            self.deals.len(),
        );
        if !source_ok || !resolver_valid(self) {
            return false;
        }
        let indices = match &self.source_deal_indices {
            Some(v) => Some(v.as_slice()),
            None => None,
        };
        if self.complete_exact_combo_cycles != expected_complete_cycles(indices, self.deals.len())
            || self.balanced_exact_combo_marginals != expected_balanced_marginals(indices, self.deals.len()) {
            return false;
        }
        if !digest_valid(&self.network_sha256) {
            return false;
        }
        let mut i: usize = 0;
        while i < self.network_sha256s.len()
            invariant
                i <= self.network_sha256s@.len(),
                forall|j: int| 0 <= j < i ==> hex_digest(#[trigger] self.network_sha256s@[j]),
            decreases self.network_sha256s.len() - i,
        {
            if !digest_valid(&self.network_sha256s[i]) {
                return false;
            }
            i += 1;
        }
        if self.network_sha256s.len() > 1 && self.policy_mixture.as_str().unicode_len() == 0 {
            return false;
        }
        let mut k: usize = 0;
        while k < self.deals.len()
            invariant
                k <= self.deals@.len(),
                forall|j: int| 0 <= j < k ==> deal_shape_valid(#[trigger] self.deals@[j], self.history_keys@),
            decreases self.deals.len() - k,
        {
            if !deal_valid(&self.deals[k], &self.history_keys) {
                return false;
            }
            k += 1;
        }
        true
    }

    /// Check the cache, in order: its schema and deal count, its metadata,
    /// the game (`game` is the outcome of the game configuration's own
    /// check), completeness and provenance, the estimates, and the
    /// validation summary; the first failing check gives the error.
    pub fn validate(&self, game: Result<(), String>) -> (r: Result<(), String>)
        ensures
            ({
                let expected = continuation_cache_error(
                    *self,
                    match game {
                        Ok(()) => Ok(()),
                        Err(e) => Err(e@),
                    },
                );
                match r {
                    Ok(()) => expected is None,
                    Err(e) => expected == Some(e@),
                }
            }),
    {
        let schema_ok = str_eq(self.schema.as_str(), "hu-preflop-continuation-cache-v2") || str_eq(
            self.schema.as_str(),
            "hu-preflop-continuation-cache-v1",
        );
        if !schema_ok || self.deals.len() < 2 {
            return Err(String::from_str("preflop continuation cache is incompatible"));
        }
        if !self.stack_matches_depth || self.rollouts_per_leaf < 2 {
            return Err(String::from_str("preflop continuation cache metadata is invalid"));
        }
        game?;
        if !self.complete() {
            return Err(String::from_str("preflop continuation cache is incomplete"));
        }
        if !self.estimates_valid {
            return Err(String::from_str("preflop continuation cache contains invalid values"));
        }
        let leaf_values_ok = match self.deals.len().checked_mul(self.history_keys.len()) {
            Some(n) => n == self.validation_leaf_values,
            None => false,
        };
        if !self.validation_complete || !self.validation_probability_values_finite
            || !self.validation_utilities_within_stack || !leaf_values_ok || !self.validation_statistics_valid {
            return Err(String::from_str("preflop continuation cache validation summary is invalid"));
        }
        Ok(())
    }
}

/// The texts of a list, by their characters.
pub open spec fn texts(v: Seq<String>) -> Seq<Seq<char>> {
    v.map_values(|t: String| t@)
}

/// Two resolver provenances agree in everything but their floating-point
/// parameters.
pub open spec fn resolver_provenances_agree(a: Option<ResolverProvenanceShape>, b: Option<ResolverProvenanceShape>) -> bool {
    match (a, b) {
        (None, None) => true,
        (Some(x), Some(y)) => {
            &&& x.iterations == y.iterations
            &&& x.averaging_delay == y.averaging_delay
            &&& x.threads == y.threads
            &&& x.value_network_sha256@ == y.value_network_sha256@
            &&& optional_text(x.evaluation_value_network_sha256) == optional_text(y.evaluation_value_network_sha256)
            &&& optional_text(x.range_policy_sha256) == optional_text(y.range_policy_sha256)
        },
        _ => false,
    }
}

/// Two continuation caches can be merged: `same` says that their games,
/// the action lists of their public histories and the floating-point
/// parameters of their resolvers are equal; the rest is compared here, and
/// caches derived from a source cache must also share their seed.
pub open spec fn continuation_caches_compatible(
    first: ContinuationCacheShape,
    second: ContinuationCacheShape,
    first_seed: u64,
    second_seed: u64,
    same: bool,
) -> bool {
    &&& same
    &&& first.history_keys@ == second.history_keys@
    &&& first.rollouts_per_leaf == second.rollouts_per_leaf
    &&& first.network_sha256@ == second.network_sha256@
    &&& texts(first.network_sha256s@) == texts(second.network_sha256s@)
    &&& first.policy_mixture@ == second.policy_mixture@
    &&& resolver_provenances_agree(first.resolver_provenance, second.resolver_provenance)
    &&& optional_text(first.source_cache_sha256) == optional_text(second.source_cache_sha256)
    &&& (first.source_cache_sha256 is Some ==> first_seed == second_seed)
}

/// How two continuation caches merge: the merged seed and chance-sampling
/// label, the merged source deal indices if both caches have them, the
/// order of the deals (positions in the first cache's deals followed by the
/// second's), and the exact-combo cycles the merge must report.
pub struct ContinuationMerge {
    pub seed: u64,
    pub chance_sampling: String,
    pub source_deal_indices: Option<Vec<usize>>,
    pub deal_order: Vec<usize>,
    pub complete_exact_combo_cycles: usize,
    pub balanced_exact_combo_marginals: bool,
}

/// The source indices that pair with deals: as many as there are of both.
pub open spec fn paired_indices(indices: Seq<usize>, deal_count: int) -> Seq<usize> {
    if indices.len() <= deal_count {
        indices
    } else {
        indices.take(deal_count)
    }
}

fn paired_prefix(indices: &Vec<usize>, deal_count: usize) -> (v: Vec<usize>)
    ensures
        v@ == paired_indices(indices@, deal_count as int),
{
    let n = if indices.len() <= deal_count { indices.len() } else { deal_count };
    let mut v: Vec<usize> = Vec::new();
    let mut i: usize = 0;
    while i < n
        invariant
            n <= indices@.len(),
            n == (if indices@.len() <= deal_count { indices@.len() } else { deal_count as nat }),
            i <= n,
            v@ == indices@.take(i as int),
        decreases n - i,
    {
        proof {
            assert(indices@.take(i as int + 1) =~= indices@.take(i as int).push(indices@[i as int]));
        }
        v.push(indices[i]);
        i += 1;
    }
    proof {
        assert(indices@.take(n as int) =~= paired_indices(indices@, deal_count as int));
    }
    v
}

fn same_texts(a: &Vec<String>, b: &Vec<String>) -> (r: bool)
    ensures
        r == (texts(a@) == texts(b@)),
{
    if a.len() != b.len() {
        proof {
            assert(texts(a@).len() != texts(b@).len());
        }
        return false;
    }
    let mut i: usize = 0;
    while i < a.len()
        invariant
            a@.len() == b@.len(),
            i <= a@.len(),
            forall|x: int| 0 <= x < i ==> a@[x]@ == b@[x]@,
        decreases a.len() - i,
    {
        if !str_eq(a[i].as_str(), b[i].as_str()) {
            proof {
                assert(texts(a@)[i as int] != texts(b@)[i as int]);
            }
            return false;
        }
        i += 1;
    }
    proof {
        assert(texts(a@) =~= texts(b@));
    }
    true
}

fn resolvers_agree(a: &Option<ResolverProvenanceShape>, b: &Option<ResolverProvenanceShape>) -> (r: bool)
    ensures
        r == resolver_provenances_agree(*a, *b),
{
    match (a, b) {
        (None, None) => true,
        (Some(x), Some(y)) => {
            x.iterations == y.iterations && x.averaging_delay == y.averaging_delay && x.threads == y.threads
                && str_eq(x.value_network_sha256.as_str(), y.value_network_sha256.as_str())
                && same_optional_text(&x.evaluation_value_network_sha256, &y.evaluation_value_network_sha256)
                && same_optional_text(&x.range_policy_sha256, &y.range_policy_sha256)
        },
        _ => false,
    }
}

/// Merges two continuation caches. Refused unless they are compatible
/// (see `continuation_caches_compatible`). When both carry source deal
/// indices, the deals of both, each paired with its index, are put in
/// ascending order of index, refused when an index repeats; when neither
/// does, the deals are the first cache's followed by the second's; when
/// only one does, the merge is refused. The merge keeps the first seed
/// when the indices were merged and mixes both seeds otherwise, and counts
/// its complete exact-combo cycles as a cache of its kind must.
pub fn merge_continuation_caches(
    first: &ContinuationCacheShape,
    second: &ContinuationCacheShape,
    first_seed: u64,
    second_seed: u64,
    same_provenance: bool,
) -> (r: Result<ContinuationMerge, String>)
    requires
        first.deals@.len() + second.deals@.len() <= usize::MAX,
    ensures
        !continuation_caches_compatible(*first, *second, first_seed, second_seed, same_provenance) ==> (r matches Err(e)
            && e@ == "only compatible continuation caches with the same frozen policy mixture can be merged"@),
        continuation_caches_compatible(*first, *second, first_seed, second_seed, same_provenance) ==> match (
            first.source_deal_indices,
            second.source_deal_indices,
        ) {
            (Some(a), Some(b)) => {
                let combined = paired_indices(a@, first.deals@.len() as int) + paired_indices(b@, second.deals@.len() as int);
                &&& has_repeated_index(combined) ==> (r matches Err(e)
                    && e@ == "continuation cache chunks overlap source deal indices"@)
                &&& !has_repeated_index(combined) ==> (r matches Ok(m) && exists|order: Seq<(usize, usize)>| {
                    &&& is_source_order(combined, order)
                    &&& m.source_deal_indices matches Some(indices) && indices@ == order_indices(order)
                    &&& m.deal_order@ == order.map_values(|e: (usize, usize)| e.1)
                    &&& m.complete_exact_combo_cycles == complete_cycles(order_indices(order)).len()
                    &&& m.balanced_exact_combo_marginals == (complete_cycles(order_indices(order)).len() * CYCLE_SIZE
                        == order.len())
                } && m.seed == merged_seed(true, first_seed, second_seed)
                    && m.chance_sampling@ == "concatenated_provenance_checked_continuation_chunks"@)
            },
            (None, None) => {
                let n = first.deals@.len() + second.deals@.len();
                r matches Ok(m) && m.source_deal_indices is None
                    && m.deal_order@ == Seq::new(n as nat, |p: int| p as usize)
                    && m.complete_exact_combo_cycles == n / (CYCLE_SIZE as nat)
                    && m.balanced_exact_combo_marginals == (n % (CYCLE_SIZE as nat) == 0)
                    && m.seed == merged_seed(false, first_seed, second_seed)
                    && m.chance_sampling@ == "concatenated_independent_balanced_exact_combo_cycles"@
            },
            _ => r matches Err(e) && e@ == "continuation cache provenance is incompatible"@,
        },
        r is Ok ==> {
            &&& same_provenance
            &&& first.history_keys@ == second.history_keys@
            &&& first.rollouts_per_leaf == second.rollouts_per_leaf
            &&& first.network_sha256@ == second.network_sha256@
            &&& texts(first.network_sha256s@) == texts(second.network_sha256s@)
            &&& first.policy_mixture@ == second.policy_mixture@
            &&& optional_text(first.source_cache_sha256) == optional_text(second.source_cache_sha256)
            &&& (first.source_cache_sha256 is Some ==> first_seed == second_seed)
            &&& (first.resolver_provenance is Some <==> second.resolver_provenance is Some)
            &&& (first.resolver_provenance matches Some(x) ==> second.resolver_provenance matches Some(y)
                && x.iterations == y.iterations && x.averaging_delay == y.averaging_delay && x.threads == y.threads
                && x.value_network_sha256@ == y.value_network_sha256@
                && optional_text(x.evaluation_value_network_sha256) == optional_text(y.evaluation_value_network_sha256)
                && optional_text(x.range_policy_sha256) == optional_text(y.range_policy_sha256))
        },
{
    let compatible = same_provenance && same_keys(&first.history_keys, &second.history_keys)
        && first.rollouts_per_leaf == second.rollouts_per_leaf
        && str_eq(first.network_sha256.as_str(), second.network_sha256.as_str())
        && same_texts(&first.network_sha256s, &second.network_sha256s)
        && str_eq(first.policy_mixture.as_str(), second.policy_mixture.as_str())
        && resolvers_agree(&first.resolver_provenance, &second.resolver_provenance)
        && same_optional_text(&first.source_cache_sha256, &second.source_cache_sha256)
        && (first.source_cache_sha256.is_none() || first_seed == second_seed);
    if !compatible {
        return Err(String::from_str("only compatible continuation caches with the same frozen policy mixture can be merged"));
    }
    match (&first.source_deal_indices, &second.source_deal_indices) {
        (Some(a), Some(b)) => {
            let a_paired = paired_prefix(a, first.deals.len());
            let b_paired = paired_prefix(b, second.deals.len());
            let order = match merge_source_deal_indices(a_paired.as_slice(), b_paired.as_slice()) {
                Ok(order) => order,
                Err(e) => {
                    return Err(e);
                },
            };
            let mut indices: Vec<usize> = Vec::new();
            let mut positions: Vec<usize> = Vec::new();
            let mut k: usize = 0;
            while k < order.len()
                invariant
                    k <= order@.len(),
                    indices@ == order_indices(order@).take(k as int),
                    positions@ == order@.map_values(|e: (usize, usize)| e.1).take(k as int),
                decreases order.len() - k,
            {
                proof {
                    assert(order_indices(order@).take(k as int + 1) =~= order_indices(order@).take(k as int).push(order@[k as int].0));
                    assert(order@.map_values(|e: (usize, usize)| e.1).take(k as int + 1) =~= order@.map_values(
                        |e: (usize, usize)| e.1,
                    ).take(k as int).push(order@[k as int].1));
                }
                indices.push(order[k].0);
                positions.push(order[k].1);
                k += 1;
            }
            proof {
                assert(indices@ =~= order_indices(order@));
                assert(positions@ =~= order@.map_values(|e: (usize, usize)| e.1));
            }
            let cycles = expected_complete_cycles(Some(indices.as_slice()), 0);
            let balanced = expected_balanced_marginals(Some(indices.as_slice()), 0);
            let (seed, chance_sampling) = merged_cache_origin(true, first_seed, second_seed);
            Ok(ContinuationMerge {
                seed,
                chance_sampling,
                source_deal_indices: Some(indices),
                deal_order: positions,
                complete_exact_combo_cycles: cycles,
                balanced_exact_combo_marginals: balanced,
            })
        },
        (None, None) => {
            let n = first.deals.len() + second.deals.len();
            let mut positions: Vec<usize> = Vec::new();
            let mut p: usize = 0;
            while p < n
                invariant
                    p <= n,
                    positions@ == Seq::new(p as nat, |q: int| q as usize),
                decreases n - p,
            {
                proof {
                    assert(Seq::new(p as nat + 1, |q: int| q as usize) =~= Seq::new(p as nat, |q: int| q as usize).push(p));
                }
                positions.push(p);
                p += 1;
            }
            let (seed, chance_sampling) = merged_cache_origin(false, first_seed, second_seed);
            Ok(ContinuationMerge {
                seed,
                chance_sampling,
                source_deal_indices: None,
                deal_order: positions,
                complete_exact_combo_cycles: n / CYCLE_SIZE,
                balanced_exact_combo_marginals: n % CYCLE_SIZE == 0,
            })
        },
        _ => Err(String::from_str("continuation cache provenance is incompatible")),
    }
}

} // verus!
