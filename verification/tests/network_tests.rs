use neural_net::matrix::{Matrix, SCALE};
use neural_net::network::{is_correct, NeuralNetwork};
use neural_net::training_data::{generate_training_data, make_sample};
use rand::SeedableRng;

/// A network with one layer pair whose weights form the scaled identity, so
/// a forward pass reproduces any non-negative input on the output layer.
fn identity_network() -> NeuralNetwork {
    let mut w = Matrix::zeros(2, 2);
    w.set(0, 0, SCALE);
    w.set(1, 1, SCALE);
    let b = Matrix::zeros(2, 1);
    NeuralNetwork::from_parameters(vec![w], vec![b])
}

#[test]
fn create_network() {
    let dimensions = vec![2, 3, 2, 3, 1];
    let mut rng = rand::rngs::StdRng::seed_from_u64(11);
    let mut network = NeuralNetwork::new(&dimensions, SCALE / 100, SCALE / 100, &mut rng);

    let mut inputs = Matrix::zeros(2, 1);

    inputs.set(0, 0, SCALE);
    inputs.set(1, 0, 2 * SCALE);

    let _output = network.forward_propagate(&inputs);
}

#[test]
fn test_loss_derivative() {
    // Output [0.5, 0.2] against target [1.0, 0.0] gives [-1.0, 0.4].
    let mut net = identity_network();
    let mut input = Matrix::zeros(2, 1);
    input.set(0, 0, SCALE / 2);
    input.set(1, 0, SCALE / 5);
    let out = net.forward_propagate(&input);
    assert_eq!(out.get(0, 0), SCALE / 2);
    assert_eq!(out.get(1, 0), SCALE / 5);

    let mut target = Matrix::zeros(2, 1);
    target.set(0, 0, SCALE);

    let d = net.loss_derivative(&target);
    assert_eq!(d.get_rows(), 2);
    assert_eq!(d.get_cols(), 1);
    assert_eq!(d.get(0, 0), -SCALE); // 2 * (0.5 - 1.0) == -1.0
    assert_eq!(d.get(1, 0), 2 * SCALE / 5); // 2 * (0.2 - 0.0) == 0.4
}

#[test]
fn test_calculate_loss() {
    // Output [0.5, 0.2] against target [1.0, 0.0]:
    // loss = 0.25 + 0.04 = 0.29.
    let mut net = identity_network();
    let mut input = Matrix::zeros(2, 1);
    input.set(0, 0, SCALE / 2);
    input.set(1, 0, SCALE / 5);
    net.forward_propagate(&input);

    let mut target = Matrix::zeros(2, 1);
    target.set(0, 0, SCALE);

    let loss = net.calculate_loss(&target);
    assert_eq!(loss, 290_000);
}

#[test]
fn test_forward_propagate_fixed_weights() {
    // A 2x3-weight layer with every weight 0.5 and bias 0.1 maps
    // [1.0, 0.5, 0.25] to [0.975, 0.975].
    let mut w = Matrix::zeros(2, 3);
    for y in 0..2 {
        for x in 0..3 {
            w.set(y, x, SCALE / 2);
        }
    }
    let mut b = Matrix::zeros(2, 1);
    b.set(0, 0, SCALE / 10);
    b.set(1, 0, SCALE / 10);
    let mut net = NeuralNetwork::from_parameters(vec![w], vec![b]);

    let mut input = Matrix::zeros(3, 1);
    input.set(0, 0, SCALE);
    input.set(1, 0, SCALE / 2);
    input.set(2, 0, SCALE / 4);

    let out = net.forward_propagate(&input);
    assert_eq!(out.get_rows(), 2);
    assert_eq!(out.get_cols(), 1);
    assert_eq!(out.get(0, 0), 975_000);
    assert_eq!(out.get(1, 0), 975_000);
}

#[test]
fn test_training_decreases_loss() {
    // Gradient-descent sanity check: repeated forward/backward passes on one
    // sample with a small learning rate give strictly decreasing loss.
    let mut w = Matrix::zeros(2, 3);
    for y in 0..2 {
        for x in 0..3 {
            w.set(y, x, SCALE / 2);
        }
    }
    let mut b = Matrix::zeros(2, 1);
    b.set(0, 0, SCALE / 10);
    b.set(1, 0, SCALE / 10);
    let mut net = NeuralNetwork::from_parameters(vec![w], vec![b]);

    let mut input = Matrix::zeros(3, 1);
    input.set(0, 0, SCALE);
    input.set(1, 0, SCALE / 2);
    input.set(2, 0, SCALE / 4);

    let mut target = Matrix::zeros(2, 1);
    target.set(0, 0, SCALE);

    let alpha = SCALE / 100; // learning rate 0.01
    let mut previous: Option<i64> = None;
    for _ in 0..8 {
        net.forward_propagate(&input);
        let loss = net.calculate_loss(&target);
        if let Some(p) = previous {
            assert!(loss < p);
        }
        net.backward_propagate(&target, alpha);
        previous = Some(loss);
    }
}

#[test]
fn test_seeded_initialisation_is_deterministic() {
    // Two networks built from the same seed produce the same forward output
    // before any training step.
    let dimensions = vec![3, 2];
    let mut rng_1 = rand::rngs::StdRng::seed_from_u64(42);
    let mut net_1 = NeuralNetwork::new(&dimensions, SCALE / 100, SCALE / 100, &mut rng_1);
    let mut rng_2 = rand::rngs::StdRng::seed_from_u64(42);
    let mut net_2 = NeuralNetwork::new(&dimensions, SCALE / 100, SCALE / 100, &mut rng_2);

    let mut input = Matrix::zeros(3, 1);
    input.set(0, 0, SCALE);
    input.set(1, 0, SCALE / 2);
    input.set(2, 0, SCALE / 4);

    let out_1 = net_1.forward_propagate(&input);
    let out_2 = net_2.forward_propagate(&input);
    assert_eq!(out_1.get_rows(), out_2.get_rows());
    for y in 0..out_1.get_rows() {
        assert_eq!(out_1.get(y, 0), out_2.get(y, 0));
    }
}

#[test]
fn test_is_correct() {
    let mut real = Matrix::zeros(2, 1);
    real.set(1, 0, SCALE);

    let mut output = Matrix::zeros(2, 1);
    output.set(0, 0, 3 * SCALE / 10);
    output.set(1, 0, 9 * SCALE / 10);
    assert!(is_correct(&real, &output));

    let mut wrong = Matrix::zeros(2, 1);
    wrong.set(0, 0, 9 * SCALE / 10);
    wrong.set(1, 0, 3 * SCALE / 10);
    assert!(!is_correct(&real, &wrong));
}

#[test]
fn test_generate_training_data() {
    let data = generate_training_data();
    assert_eq!(data.len(), 3);
    for (s, sample) in data.iter().enumerate() {
        assert_eq!(sample.input.get_rows(), 3);
        assert_eq!(sample.input.get_cols(), 1);
        assert_eq!(sample.output.get_rows(), 2);
        assert_eq!(sample.output.get_cols(), 1);
        for i in 0..3 {
            let expected = if i == s { SCALE } else { 0 };
            assert_eq!(sample.input.get(i, 0), expected);
        }
        let hot = if s < 2 { 0 } else { 1 };
        for i in 0..2 {
            let expected = if i == hot { SCALE } else { 0 };
            assert_eq!(sample.output.get(i, 0), expected);
        }
    }
}

#[test]
fn test_make_sample() {
    let values: Vec<i64> = vec![5 * SCALE, -3 * SCALE, 42];
    let sample = make_sample(2, 4, &values);
    assert_eq!(sample.input.get_rows(), 3);
    assert_eq!(sample.input.get_cols(), 1);
    assert_eq!(sample.input.get(0, 0), 5 * SCALE);
    assert_eq!(sample.input.get(1, 0), -3 * SCALE);
    assert_eq!(sample.input.get(2, 0), 42);
    assert_eq!(sample.output.get_rows(), 4);
    assert_eq!(sample.output.get_cols(), 1);
    for i in 0..4 {
        let expected = if i == 2 { SCALE } else { 0 };
        assert_eq!(sample.output.get(i, 0), expected);
    }
}
