//! The checks of a tabular preflop policy artifact, in order: compatibility,
//! the game, metadata, and every strategy row. The facts about
//! floating-point values come in as the outcomes of their own checks.
use vstd::prelude::*;
use crate::continuation_cache::hex_digest;
use crate::provenance::is_hex_digest;
use crate::text::str_eq;

verus! {

/// One strategy row of the artifact.
pub struct PolicyEntryShape {
    pub key: String,
    pub actor: usize,
    /// The number of action labels.
    pub action_count: usize,
    /// The number of action probabilities.
    pub probability_count: usize,
    /// The probabilities are finite, non-negative and sum to one within
    /// `1e-9`, and the average reach weight is finite and non-negative.
    pub values_valid: bool,
}

/// What the checks of a policy artifact read.
pub struct PolicyArtifactShape {
    pub schema: String,
    pub iterations: u64,
    /// The game's effective stack is the artifact's depth, the sampling
    /// exploration probability lies in `[0, 1)`, and the discount exponents
    /// are finite and non-negative.
    pub parameters_valid: bool,
    pub continuation_cache_sha256: String,
    pub strategies: Vec<PolicyEntryShape>,
}

/// The schema of a tabular preflop policy.
pub open spec fn policy_schema() -> Seq<char> {
    "hu-tabular-preflop-dcfr-v1"@
}

/// A strategy row names a seat, has at least one action, and one
/// probability per action.
pub open spec fn entry_valid(e: PolicyEntryShape) -> bool {
    &&& e.actor <= 1
    &&& e.action_count > 0
    &&& e.action_count == e.probability_count
    &&& e.values_valid
}

/// Every row is valid and no two rows share a key.
pub open spec fn strategies_valid(s: Seq<PolicyEntryShape>) -> bool {
    &&& forall|i: int| 0 <= i < s.len() ==> entry_valid(#[trigger] s[i])
    &&& forall|i: int, j: int| 0 <= i < j < s.len() ==> (#[trigger] s[i]).key@ != (#[trigger] s[j]).key@
}

/// The error the checks give, if any, in their order; `game` is the outcome
/// of the game configuration's own check.
pub open spec fn policy_artifact_error(a: PolicyArtifactShape, game: Result<(), Seq<char>>) -> Option<Seq<char>> {
    if a.schema@ != policy_schema() || a.iterations == 0 || a.strategies@.len() == 0 {
        Some("tabular preflop policy artifact is incompatible"@)
    } else if game is Err {
        Some(game->Err_0)
    } else if !a.parameters_valid || !hex_digest(a.continuation_cache_sha256) {
        Some("tabular preflop policy metadata is invalid"@)
    } else if !strategies_valid(a.strategies@) {
        Some("tabular preflop policy has invalid probabilities"@)
    } else {
        None
    }
}

fn rows_valid(s: &Vec<PolicyEntryShape>) -> (b: bool)
    ensures
        b == strategies_valid(s@),
{
    let n = s.len();
    let mut j: usize = 0;
    while j < n
        invariant
            n == s@.len(),
            j <= n,
            forall|x: int| 0 <= x < j ==> entry_valid(#[trigger] s@[x]),
            forall|x: int, y: int| 0 <= x < y < j ==> (#[trigger] s@[x]).key@ != (#[trigger] s@[y]).key@,
        decreases n - j,
    {
        let e = &s[j];
        if e.actor > 1 || e.action_count == 0 || e.action_count != e.probability_count || !e.values_valid {
            proof {
                assert(!entry_valid(s@[j as int]));
            }
            return false;
        }
        let mut i: usize = 0;
        while i < j
            invariant
                n == s@.len(),
                i <= j < n,
                forall|x: int| 0 <= x < i ==> (#[trigger] s@[x]).key@ != s@[j as int].key@,
            decreases j - i,
        {
            if str_eq(s[i].key.as_str(), s[j].key.as_str()) {
                return false;
            }
            i += 1;
        }
        j += 1;
    }
    true
}

impl PolicyArtifactShape {
    /// Check the artifact, in order: schema, iterations and rows present;
    /// the game (`game` is the outcome of the game configuration's own
    /// check); the metadata; and every strategy row, each key once.
    pub fn validate(&self, game: Result<(), String>) -> (r: Result<(), String>)
        ensures
            ({
                let expected = policy_artifact_error(
                    *self,
                    match game {
                        Ok(()) => Ok(()),
                        Err(e) => Err(e@),
                    },
                );
                match r {
                    Ok(()) => expected is None,
                    Err(e) => expected == Some(e@),
                }
            }),
    {
        if !str_eq(self.schema.as_str(), "hu-tabular-preflop-dcfr-v1") || self.iterations == 0
            || self.strategies.len() == 0 {
            return Err(String::from_str("tabular preflop policy artifact is incompatible"));
        }
        game?;
        if !self.parameters_valid || !is_hex_digest(self.continuation_cache_sha256.as_str()) {
            return Err(String::from_str("tabular preflop policy metadata is invalid"));
        }
        if !rows_valid(&self.strategies) {
            return Err(String::from_str("tabular preflop policy has invalid probabilities"));
        }
        Ok(())
    }
}

} // verus!
