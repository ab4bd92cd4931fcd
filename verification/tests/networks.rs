use preflop_solver::networks::{DenseLayerShape, DenseScorerShape, TrainingBundleShape, MODEL_INPUT_COUNT};

fn layer(input: usize, output: usize) -> DenseLayerShape {
    DenseLayerShape {
        input_size: input,
        output_size: output,
        weight_count: input * output,
        bias_count: output,
        parameters_finite: true,
    }
}

fn scorer() -> DenseScorerShape {
    DenseScorerShape { layers: vec![layer(MODEL_INPUT_COUNT, 64), layer(64, 32), layer(32, 1)] }
}

fn bundle() -> TrainingBundleShape {
    TrainingBundleShape {
        schema: "hu-neural-training-networks-v4".to_string(),
        input_size: 725,
        networks: vec![scorer(), scorer()],
        postflop_networks: None,
        sampling_baseline: None,
        sampling_baseline_scale_valid: false,
    }
}

#[test]
fn scoring_networks_chain_their_layers() {
    assert_eq!(MODEL_INPUT_COUNT, 725);
    assert!(scorer().validate(MODEL_INPUT_COUNT, 1).is_ok());
    assert_eq!(DenseScorerShape { layers: vec![] }.validate(3, 1).unwrap_err(), "scoring network has no layers");
    let mut s = scorer();
    s.layers[1] = layer(63, 32);
    assert_eq!(s.validate(MODEL_INPUT_COUNT, 1).unwrap_err(), "scoring network layer 1 has an invalid shape");
    let mut s = scorer();
    s.layers[2].output_size = 0;
    assert_eq!(s.validate(MODEL_INPUT_COUNT, 1).unwrap_err(), "scoring network layer 2 has an invalid shape");
    let mut s = scorer();
    s.layers[0].weight_count -= 1;
    assert_eq!(s.validate(MODEL_INPUT_COUNT, 1).unwrap_err(), "scoring network layer 0 has an invalid parameter count");
    let mut s = scorer();
    s.layers[2].bias_count = 2;
    assert_eq!(s.validate(MODEL_INPUT_COUNT, 1).unwrap_err(), "scoring network layer 2 has an invalid parameter count");
    let mut s = scorer();
    s.layers[1].parameters_finite = false;
    assert_eq!(s.validate(MODEL_INPUT_COUNT, 1).unwrap_err(), "scoring network layer 1 contains non-finite parameters");
    assert_eq!(scorer().validate(MODEL_INPUT_COUNT, 12).unwrap_err(), "scoring network must produce 12 values");
    let mut long = DenseScorerShape { layers: (0..11).map(|_| layer(4, 4)).collect() };
    long.layers[10] = layer(5, 4);
    assert_eq!(long.validate(4, 4).unwrap_err(), "scoring network layer 10 has an invalid shape");
}

#[test]
fn training_bundles_hold_two_networks_per_kind() {
    assert!(bundle().validate().is_ok());
    let mut b = bundle();
    b.networks.pop();
    assert_eq!(b.validate().unwrap_err(), "training network bundle is incompatible");
    let mut b = bundle();
    b.input_size = 724;
    assert_eq!(b.validate().unwrap_err(), "training network bundle is incompatible");
    let mut b = bundle();
    b.networks[1].layers[2] = layer(32, 2);
    assert_eq!(b.validate().unwrap_err(), "scoring network must produce 1 values");
    let mut b = bundle();
    b.postflop_networks = Some(vec![scorer()]);
    assert_eq!(b.validate().unwrap_err(), "postflop training network bundle is incompatible");
    b.postflop_networks = Some(vec![scorer(), scorer()]);
    assert!(b.validate().is_ok());
    b.sampling_baseline = Some(scorer());
    assert_eq!(b.validate().unwrap_err(), "sampling baseline scale must be between zero and one");
    b.sampling_baseline_scale_valid = true;
    assert!(b.validate().is_ok());
    b.sampling_baseline = Some(DenseScorerShape { layers: vec![] });
    assert_eq!(b.validate().unwrap_err(), "scoring network has no layers");
}
