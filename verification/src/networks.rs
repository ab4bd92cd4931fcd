//! The shape checks of dense scoring networks and of the bundle of
//! networks a trained policy ships: layer sizes chain from the model input
//! to the expected output, and parameter counts match. Whether parameters
//! are finite comes in as the outcome of its own check.
use vstd::prelude::*;
use crate::checkpoint::{decimal, padded_decimal};
use crate::text::{push_text, str_eq};

verus! {

/// Features describing the state.
pub const STATE_FEATURE_COUNT: usize = 716;

/// Features describing one candidate action.
pub const ACTION_FEATURE_COUNT: usize = 9;

/// Inputs of a scoring network: state then action features.
pub const MODEL_INPUT_COUNT: usize = STATE_FEATURE_COUNT + ACTION_FEATURE_COUNT;

/// One dense layer: its sizes, how many weights and biases it holds, and
/// whether all of them are finite.
pub struct DenseLayerShape {
    pub input_size: usize,
    pub output_size: usize,
    pub weight_count: usize,
    pub bias_count: usize,
    pub parameters_finite: bool,
}

/// A scoring network: its layers, first to last.
pub struct DenseScorerShape {
    pub layers: Vec<DenseLayerShape>,
}

/// A trained bundle: the per-seat networks, optional per-seat postflop
/// networks, and an optional sampling baseline whose scale is checked on
/// its own (`sampling_baseline_scale_valid`: the scale, zero when absent,
/// is finite and within `[0, 1]`).
pub struct TrainingBundleShape {
    pub schema: String,
    pub input_size: usize,
    pub networks: Vec<DenseScorerShape>,
    pub postflop_networks: Option<Vec<DenseScorerShape>>,
    pub sampling_baseline: Option<DenseScorerShape>,
    pub sampling_baseline_scale_valid: bool,
}

/// The message naming layer `k`.
pub open spec fn layer_message(k: int, what: Seq<char>) -> Seq<char> {
    "scoring network layer "@ + decimal(k as nat) + what
}

/// The first error of layers `k..` when layer `k` must read `input` values
/// and the last must produce `expected_output`.
pub open spec fn layers_error(layers: Seq<DenseLayerShape>, k: int, input: int, expected_output: int) -> Option<Seq<char>>
    decreases layers.len() - k,
{
    if k < 0 || k >= layers.len() {
        if input != expected_output {
            Some("scoring network must produce "@ + decimal(expected_output as nat) + " values"@)
        } else {
            None
        }
    } else {
        let l = layers[k];
        if l.input_size != input || l.output_size == 0 {
            Some(layer_message(k, " has an invalid shape"@))
        } else if l.weight_count != l.input_size * l.output_size || l.bias_count != l.output_size {
            Some(layer_message(k, " has an invalid parameter count"@))
        } else if !l.parameters_finite {
            Some(layer_message(k, " contains non-finite parameters"@))
        } else {
            layers_error(layers, k + 1, l.output_size as int, expected_output)
        }
    }
}

/// The first error of a scoring network, if any.
pub open spec fn scorer_error(s: DenseScorerShape, expected_input: int, expected_output: int) -> Option<Seq<char>> {
    if s.layers@.len() == 0 {
        Some("scoring network has no layers"@)
    } else {
        layers_error(s.layers@, 0, expected_input, expected_output)
    }
}

/// The first error among networks `k..`, each mapping the model input to
/// one score.
pub open spec fn networks_error(ns: Seq<DenseScorerShape>, k: int) -> Option<Seq<char>>
    decreases ns.len() - k,
{
    if k < 0 || k >= ns.len() {
        None
    } else {
        match scorer_error(ns[k], MODEL_INPUT_COUNT as int, 1) {
            Some(e) => Some(e),
            None => networks_error(ns, k + 1),
        }
    }
}

/// The first error of a bundle, if any.
pub open spec fn bundle_error(b: TrainingBundleShape) -> Option<Seq<char>> {
    if b.schema@ != "hu-neural-training-networks-v4"@ || b.input_size != MODEL_INPUT_COUNT || b.networks@.len() != 2 {
        Some("training network bundle is incompatible"@)
    } else if networks_error(b.networks@, 0) is Some {
        networks_error(b.networks@, 0)
    } else if b.postflop_networks is Some && b.postflop_networks->Some_0@.len() != 2 {
        Some("postflop training network bundle is incompatible"@)
    } else if b.postflop_networks is Some && networks_error(b.postflop_networks->Some_0@, 0) is Some {
        networks_error(b.postflop_networks->Some_0@, 0)
    } else if b.sampling_baseline is Some && scorer_error(b.sampling_baseline->Some_0, MODEL_INPUT_COUNT as int, 1) is Some {
        scorer_error(b.sampling_baseline->Some_0, MODEL_INPUT_COUNT as int, 1)
    } else if b.sampling_baseline is Some && !b.sampling_baseline_scale_valid {
        Some("sampling baseline scale must be between zero and one"@)
    } else {
        None
    }
}

fn layer_error_text(k: usize, what: &str) -> (s: String)
    ensures
        s@ == layer_message(k as int, what@),
{
    let mut s = String::from_str("scoring network layer ");
    let number = padded_decimal(k as u64, 0);
    push_text(&mut s, number.as_str());
    push_text(&mut s, what);
    s
}

impl DenseScorerShape {
    /// Check that the layers chain from `expected_input` values to
    /// `expected_output` values, each with a positive output, one weight per
    /// input and output and one bias per output, all finite; the first
    /// failing layer is named in the error.
    pub fn validate(&self, expected_input: usize, expected_output: usize) -> (r: Result<(), String>)
        ensures
            match r {
                Ok(()) => scorer_error(*self, expected_input as int, expected_output as int) is None,
                Err(e) => scorer_error(*self, expected_input as int, expected_output as int) == Some(e@),
            },
    {
        if self.layers.len() == 0 {
            return Err(String::from_str("scoring network has no layers"));
        }
        let ghost layers = self.layers@;
        let ghost total = layers_error(layers, 0, expected_input as int, expected_output as int);
        let mut input_size = expected_input;
        let mut k: usize = 0;
        while k < self.layers.len()
            invariant
                layers == self.layers@,
                k <= layers.len(),
                total == layers_error(layers, 0, expected_input as int, expected_output as int),
                total == layers_error(layers, k as int, input_size as int, expected_output as int),
            decreases self.layers.len() - k,
        {
            let layer = &self.layers[k];
            if layer.input_size != input_size || layer.output_size == 0 {
                return Err(layer_error_text(k, " has an invalid shape"));
            }
            let weights_ok = match layer.input_size.checked_mul(layer.output_size) {
                Some(n) => layer.weight_count == n,
                None => false,
            };
            if !weights_ok || layer.bias_count != layer.output_size {
                return Err(layer_error_text(k, " has an invalid parameter count"));
            }
            if !layer.parameters_finite {
                return Err(layer_error_text(k, " contains non-finite parameters"));
            }
            input_size = layer.output_size;
            k += 1;
        }
        if input_size != expected_output {
            let mut s = String::from_str("scoring network must produce ");
            let number = padded_decimal(expected_output as u64, 0);
            push_text(&mut s, number.as_str());
            push_text(&mut s, " values");
            return Err(s);
        }
        Ok(())
    }
}

fn validate_networks(ns: &Vec<DenseScorerShape>) -> (r: Result<(), String>)
    ensures
        match r {
            Ok(()) => networks_error(ns@, 0) is None,
            Err(e) => networks_error(ns@, 0) == Some(e@),
        },
{
    let mut k: usize = 0;
    while k < ns.len()
        invariant
            k <= ns@.len(),
            networks_error(ns@, 0) == networks_error(ns@, k as int),
        decreases ns.len() - k,
    {
        ns[k].validate(MODEL_INPUT_COUNT, 1)?;
        k += 1;
    }
    Ok(())
}

impl TrainingBundleShape {
    /// Check a bundle: its schema, model input size and two networks; each
    /// network; the postflop networks, two if any, and each of them; and the
    /// sampling baseline with its scale, if any.
    pub fn validate(&self) -> (r: Result<(), String>)
        ensures
            match r {
                Ok(()) => bundle_error(*self) is None,
                Err(e) => bundle_error(*self) == Some(e@),
            },
    {
        if !str_eq(self.schema.as_str(), "hu-neural-training-networks-v4") || self.input_size != MODEL_INPUT_COUNT
            || self.networks.len() != 2 {
            return Err(String::from_str("training network bundle is incompatible"));
        }
        validate_networks(&self.networks)?;
        match &self.postflop_networks {
            Some(ns) => {
                if ns.len() != 2 {
                    return Err(String::from_str("postflop training network bundle is incompatible"));
                }
                validate_networks(ns)?;
            },
            None => {},
        }
        match &self.sampling_baseline {
            Some(s) => {
                s.validate(MODEL_INPUT_COUNT, 1)?;
                if !self.sampling_baseline_scale_valid {
                    return Err(String::from_str("sampling baseline scale must be between zero and one"));
                }
            },
            None => {},
        }
        Ok(())
    }
}

} // verus!
