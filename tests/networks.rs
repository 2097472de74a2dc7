use neural_network::{
    ActivationFunction, BasicTrainer, DataSet, Expectation, NeuralNetwork, RandomScalar, Scalar,
    ShapeMismatch,
};

#[derive(Debug, Clone, Copy, PartialEq)]
struct F32(f32);

impl Scalar for F32 {
    fn spec_zero() -> Self {
        F32(0.0)
    }

    fn spec_one() -> Self {
        F32(1.0)
    }

    fn spec_plus(self, other: Self) -> Self {
        F32(self.0 + other.0)
    }

    fn spec_minus(self, other: Self) -> Self {
        F32(self.0 - other.0)
    }

    fn spec_times(self, other: Self) -> Self {
        F32(self.0 * other.0)
    }

    fn spec_negate(self) -> Self {
        F32(-self.0)
    }

    fn spec_abs(self) -> Self {
        F32(self.0.abs())
    }

    fn spec_less(self, other: Self) -> bool {
        self.0 < other.0
    }

    fn zero() -> Self {
        Self::spec_zero()
    }

    fn one() -> Self {
        Self::spec_one()
    }

    fn plus(self, other: Self) -> Self {
        self.spec_plus(other)
    }

    fn minus(self, other: Self) -> Self {
        self.spec_minus(other)
    }

    fn times(self, other: Self) -> Self {
        self.spec_times(other)
    }

    fn negate(self) -> Self {
        self.spec_negate()
    }

    fn abs_value(self) -> Self {
        self.spec_abs()
    }

    fn less(self, other: Self) -> bool {
        self.spec_less(other)
    }
}

impl RandomScalar for F32 {
    fn random_unit() -> Self {
        F32(rand::random::<f32>())
    }

    fn random_step() -> Self {
        F32(rand::random::<f32>() / 10.0)
    }
}

fn f(values: &[f32]) -> Vec<F32> {
    values.iter().map(|v| F32(*v)).collect()
}

fn sign_network() -> NeuralNetwork<F32> {
    NeuralNetwork::new(2, 1)
        .add_layer(4, ActivationFunction::ReLU)
        .with_weights(vec![
            f(&[1.1, -0.93]),
            f(&[-0.9, -0.96]),
            f(&[1.2, 0.81]),
            f(&[-0.91, 0.95]),
        ])
        .with_bias(f(&[0.048, 0.12, 0.083, -0.02]))
        .add_layer(1, ActivationFunction::Linear)
        .with_weights(vec![f(&[-1.4, 1.3, 1.4, -1.3])])
}

#[test]
fn minimal_test() {
    let mut net = NeuralNetwork::<F32>::new(1, 5)
        .add_layer(10, ActivationFunction::ReLU)
        .add_layer(5, ActivationFunction::Linear);
    assert_eq!(net.run(&f(&[1.0])), Ok(f(&[10.0; 5])));
}

#[test]
fn better_test() {
    let mut net = sign_network();
    assert!(net.run(&f(&[3.0, 3.0])).unwrap()[0].0 > 0.0);
    assert!(net.run(&f(&[-3.0, -3.0])).unwrap()[0].0 > 0.0);
    assert!(net.run(&f(&[3.0, -3.0])).unwrap()[0].0 < 0.0);
    assert!(net.run(&f(&[-3.0, 3.0])).unwrap()[0].0 < 0.0);
}

#[test]
fn integer_network_is_exact() {
    let mut net = NeuralNetwork::<i64>::new(1, 5)
        .add_layer(10, ActivationFunction::ReLU)
        .add_layer(5, ActivationFunction::Linear);
    assert_eq!(net.run(&[1]), Ok(vec![10; 5]));
    assert_eq!(net.run(&[-3]), Ok(vec![0; 5]));
}

#[test]
fn weights_and_biases_take_effect() {
    let mut net = NeuralNetwork::<i64>::new(2, 2)
        .add_layer(2, ActivationFunction::Linear)
        .with_weights(vec![vec![2, 3], vec![-1, 4]])
        .with_bias(vec![1, -2]);
    // 2*5 + 3*7 + 1 = 32; -5 + 28 - 2 = 21
    assert_eq!(net.run(&[5, 7]), Ok(vec![32, 21]));
}

#[test]
fn relu_clamps_negative_sums() {
    let mut net = NeuralNetwork::<i64>::new(1, 2)
        .add_layer(2, ActivationFunction::ReLU)
        .with_weights(vec![vec![-2], vec![3]]);
    assert_eq!(net.run(&[4]), Ok(vec![0, 12]));
}

#[test]
fn with_weights_zips_to_the_shorter() {
    let mut net = NeuralNetwork::<i64>::new(1, 3)
        .add_layer(3, ActivationFunction::Linear)
        .with_weights(vec![vec![5]])
        .with_bias(vec![1, 2, 3, 4]);
    assert_eq!(net.run(&[2]), Ok(vec![11, 4, 5]));
}

#[test]
fn wrong_input_length_is_a_shape_mismatch() {
    let mut net = NeuralNetwork::<i64>::new(2, 3).add_layer(3, ActivationFunction::ReLU);
    assert_eq!(net.run(&[1]), Err(ShapeMismatch { expected: 2, found: 1 }));
    assert_eq!(net.run(&[1, 2, 3]), Err(ShapeMismatch { expected: 2, found: 3 }));
    assert_eq!(net.unbufferd_run(&[]), Err(ShapeMismatch { expected: 2, found: 0 }));
    assert_eq!(net.run(&[1, 2]).unwrap().len(), 3);
}

#[test]
fn network_without_layers_returns_its_input() {
    let mut net = NeuralNetwork::<i64>::new(3, 3);
    assert_eq!(net.run(&[4, -5, 6]), Ok(vec![4, -5, 6]));
}

#[test]
fn run_twice_gives_the_same_output() {
    let mut net = sign_network();
    let input = f(&[0.7, -1.3]);
    let first = net.run(&input);
    let second = net.run(&input);
    assert_eq!(first, second);
    assert_eq!(first, net.unbufferd_run(&input));
}

#[test]
fn buffers_are_reused_across_widths() {
    let mut net = NeuralNetwork::<i64>::new(3, 2)
        .add_layer(1, ActivationFunction::Linear)
        .add_layer(6, ActivationFunction::Linear)
        .add_layer(2, ActivationFunction::Linear);
    assert_eq!(net.run(&[1, 2, 3]), Ok(vec![36, 36]));
    assert_eq!(net.run(&[0, 0, 1]), Ok(vec![6, 6]));
}

#[test]
fn par_run_matches_unbufferd_run_in_order() {
    let net = sign_network();
    let inputs = vec![
        f(&[3.0, 3.0]),
        f(&[-3.0, 3.0]),
        f(&[1.0]),
        f(&[0.5, -0.25]),
        f(&[-3.0, -3.0]),
    ];
    let batch = net.par_run(&inputs);
    assert_eq!(batch.len(), inputs.len());
    for (i, input) in inputs.iter().enumerate() {
        assert_eq!(batch[i], net.unbufferd_run(input));
    }
    assert_eq!(batch[2], Err(ShapeMismatch { expected: 2, found: 1 }));
}

#[test]
fn random_edit_then_reverse_restores_outputs() {
    let mut net = NeuralNetwork::<F32>::new(3, 2)
        .random_layer(4, ActivationFunction::ReLU)
        .random_layer(2, ActivationFunction::Linear);
    let inputs = vec![f(&[0.5, -1.0, 2.0]), f(&[1.0, 1.0, 1.0]), f(&[-2.0, 0.25, 0.0])];
    let before: Vec<_> = inputs.iter().map(|x| net.run(x)).collect();
    for _ in 0..50 {
        net.random_edit();
        net.reverse_edit();
    }
    let after: Vec<_> = inputs.iter().map(|x| net.run(x)).collect();
    assert_eq!(before, after);
}

#[test]
fn random_edit_changes_the_only_neuron() {
    let mut net = NeuralNetwork::<F32>::new(1, 1)
        .add_layer(1, ActivationFunction::Linear)
        .with_bias(f(&[0.5]));
    let before = net.run(&f(&[1.0])).unwrap()[0].0;
    net.random_edit();
    let edited = net.run(&f(&[1.0])).unwrap()[0].0;
    assert!((edited - before).abs() <= 0.1 + 1e-6);
    net.reverse_edit();
    assert_eq!(net.run(&f(&[1.0])).unwrap()[0].0, before);
    // nothing is pending any more: a second undo changes nothing
    net.reverse_edit();
    assert_eq!(net.run(&f(&[1.0])).unwrap()[0].0, before);
}

#[test]
fn scores_follow_the_expectations() {
    let net = NeuralNetwork::<i64>::new(1, 1).add_layer(1, ActivationFunction::Linear);
    let data = DataSet {
        inputs: vec![vec![-4], vec![3], vec![5], vec![-2], vec![7]],
        outputs: vec![
            Expectation::GreaterZero,
            Expectation::GreaterZero,
            Expectation::SmallerZero,
            Expectation::SmallerZero,
            Expectation::Value { expected: vec![10] },
        ],
    };
    // 4 + 0 + 5 + 0 + |10 - 7|
    assert_eq!(BasicTrainer::new(data).get_total_error(&net), 12);
}

#[test]
fn value_expectation_sums_absolute_differences() {
    let net = NeuralNetwork::<i64>::new(2, 3).add_layer(3, ActivationFunction::Linear);
    let data = DataSet {
        inputs: vec![vec![1, 2]],
        outputs: vec![Expectation::Value { expected: vec![0, 3, 5] }],
    };
    // outputs are 3, 3, 3
    assert_eq!(BasicTrainer::new(data).get_total_error(&net), 5);
}

#[test]
fn empty_data_set_has_no_error() {
    let net = NeuralNetwork::<i64>::new(2, 1).add_layer(1, ActivationFunction::ReLU);
    let data = DataSet { inputs: vec![], outputs: vec![] };
    assert_eq!(BasicTrainer::new(data).get_total_error(&net), 0);
}

fn sign_data() -> DataSet<F32> {
    DataSet {
        inputs: vec![f(&[3.0, 3.0]), f(&[-3.0, -3.0]), f(&[3.0, -3.0]), f(&[-3.0, 3.0])],
        outputs: vec![
            Expectation::GreaterZero,
            Expectation::GreaterZero,
            Expectation::SmallerZero,
            Expectation::SmallerZero,
        ],
    }
}

#[test]
fn total_error_is_not_negative() {
    let net = NeuralNetwork::<F32>::new(2, 1)
        .random_layer(4, ActivationFunction::ReLU)
        .random_layer(1, ActivationFunction::Linear);
    let trainer = BasicTrainer::new(sign_data());
    assert!(trainer.get_total_error(&net).0 >= 0.0);
    assert_eq!(BasicTrainer::new(sign_data()).get_total_error(&sign_network()).0, 0.0);
}

#[test]
fn train_leaves_the_error_no_worse() {
    let mut net = NeuralNetwork::<F32>::new(2, 1)
        .random_layer(4, ActivationFunction::ReLU)
        .random_layer(1, ActivationFunction::Linear);
    let trainer = BasicTrainer::new(sign_data());
    let before = trainer.get_total_error(&net);
    trainer.train(&mut net, 300);
    assert!(trainer.get_total_error(&net).0 <= before.0);
}

#[test]
fn default_activation_is_relu() {
    assert_eq!(ActivationFunction::default(), ActivationFunction::ReLU);
}

#[test]
fn neuron_computes_its_weighted_sum() {
    let n = neural_network::Neuron::<i64>::new(3, 2, ActivationFunction::Linear);
    assert_eq!(n.get_weights_len(), 3);
    assert_eq!(n.compute(&[1, 2, 3]), 8);
    let r = neural_network::Neuron::<i64>::new(2, -10, ActivationFunction::ReLU);
    assert_eq!(r.compute(&[1, 2]), 0);
}

#[test]
fn neuron_mutators_change_one_value() {
    let mut n = neural_network::Neuron::<i64>::new(2, 0, ActivationFunction::Linear);
    n.set_weights(vec![3, -1]);
    assert_eq!(n.compute(&[2, 5]), 1);
    n.change_weight(1, 4);
    assert_eq!(n.compute(&[2, 5]), 21);
    n.set_bias(7);
    assert_eq!(n.compute(&[2, 5]), 28);
    n.change_bias(-8);
    assert_eq!(n.compute(&[2, 5]), 20);
    assert_eq!(n.get_weights_len(), 2);
}

#[test]
fn random_neuron_has_the_requested_shape() {
    let n = neural_network::Neuron::<F32>::random(5, ActivationFunction::ReLU);
    assert_eq!(n.get_weights_len(), 5);
    assert!(n.compute(&f(&[0.0; 5])).0 >= 0.0);
}

#[test]
fn apply_edit_changes_one_weight_or_the_bias() {
    let mut net = NeuralNetwork::<i64>::new(2, 2).add_layer(2, ActivationFunction::Linear);
    net.apply_edit(0, 1, Some(0), 5);
    assert_eq!(net.run(&[1, 1]), Ok(vec![2, 7]));
    net.reverse_edit();
    assert_eq!(net.run(&[1, 1]), Ok(vec![2, 2]));
    net.apply_edit(0, 0, None, -3);
    assert_eq!(net.run(&[1, 1]), Ok(vec![-1, 2]));
    net.reverse_edit();
    assert_eq!(net.run(&[1, 1]), Ok(vec![2, 2]));
}

fn one_neuron_data() -> DataSet<i64> {
    DataSet { inputs: vec![vec![1]], outputs: vec![Expectation::Value { expected: vec![10] }] }
}

#[test]
fn try_edit_keeps_an_improvement() {
    let mut net = NeuralNetwork::<i64>::new(1, 1).add_layer(1, ActivationFunction::Linear);
    let trainer = BasicTrainer::new(one_neuron_data());
    let best = trainer.get_total_error(&net);
    assert_eq!(best, 9);
    assert_eq!(trainer.try_edit(&mut net, best, 0, 0, None, 4), 5);
    assert_eq!(net.run(&[1]), Ok(vec![5]));
    // the kept edit can still be undone
    net.reverse_edit();
    assert_eq!(net.run(&[1]), Ok(vec![1]));
}

#[test]
fn try_edit_undoes_a_worse_edit() {
    let mut net = NeuralNetwork::<i64>::new(1, 1).add_layer(1, ActivationFunction::Linear);
    let trainer = BasicTrainer::new(one_neuron_data());
    assert_eq!(trainer.try_edit(&mut net, 9, 0, 0, Some(0), -3), 9);
    assert_eq!(net.run(&[1]), Ok(vec![1]));
}

#[test]
fn try_edit_keeps_a_tie() {
    let mut net = NeuralNetwork::<i64>::new(1, 1).add_layer(1, ActivationFunction::Linear);
    let data = DataSet { inputs: vec![vec![1]], outputs: vec![Expectation::GreaterZero] };
    let trainer = BasicTrainer::new(data);
    assert_eq!(trainer.get_total_error(&net), 0);
    assert_eq!(trainer.try_edit(&mut net, 0, 0, 0, Some(0), 6), 0);
    assert_eq!(net.run(&[1]), Ok(vec![7]));
}

#[test]
fn train_keeps_a_network_already_without_error() {
    let mut net = NeuralNetwork::<F32>::new(1, 1).add_layer(1, ActivationFunction::Linear);
    let trainer = BasicTrainer::new(DataSet {
        inputs: vec![f(&[1.0])],
        outputs: vec![Expectation::Value { expected: f(&[1.0]) }],
    });
    trainer.train(&mut net, 5);
    assert_eq!(net.run(&f(&[1.0])), Ok(f(&[1.0])));
    assert_eq!(trainer.get_total_error(&net).0, 0.0);
}

#[test]
fn train_with_no_rounds_changes_nothing() {
    let mut net = sign_network();
    let trainer = BasicTrainer::new(sign_data());
    let input = f(&[0.3, -0.7]);
    let before = net.run(&input);
    trainer.train(&mut net, 0);
    assert_eq!(net.run(&input), before);
    let mut empty = NeuralNetwork::<F32>::new(2, 2);
    BasicTrainer::new(DataSet::default()).train(&mut empty, 0);
    assert_eq!(empty.run(&input), Ok(input.clone()));
}

#[test]
fn train_with_keeps_and_undoes_edits_in_order() {
    let mut net = NeuralNetwork::<i64>::new(1, 1).add_layer(1, ActivationFunction::Linear);
    let trainer = BasicTrainer::new(one_neuron_data());
    // output 1, error 9; +4 to the bias: error 5, kept; -3 to the weight:
    // error 8, undone; +5 to the bias: error 0, kept; +0: a tie, kept
    let edits = vec![(0, 0, None, 4), (0, 0, Some(0), -3), (0, 0, None, 5), (0, 0, Some(0), 0)];
    assert_eq!(trainer.train_with(&mut net, &edits), 0);
    assert_eq!(net.run(&[1]), Ok(vec![10]));
    assert_eq!(trainer.get_total_error(&net), 0);
}

#[test]
fn train_with_best_never_rises() {
    let mut net = NeuralNetwork::<F32>::new(2, 1)
        .random_layer(4, ActivationFunction::ReLU)
        .random_layer(1, ActivationFunction::Linear);
    let trainer = BasicTrainer::new(sign_data());
    let mut best = trainer.get_total_error(&net);
    let steps: Vec<F32> = f(&[0.05, -0.05, 0.1, -0.1, 0.02, -0.08]);
    for round in 0..60 {
        let layer = round % 2;
        let row = if layer == 0 { round % 4 } else { 0 };
        let edit = (layer, row, Some(round % 2), steps[round % 6]);
        let next = trainer.train_with(&mut net, &vec![edit]);
        assert!(next.0 <= best.0);
        assert_eq!(next, trainer.get_total_error(&net));
        best = next;
    }
}

#[test]
fn declared_output_arity_is_checked() {
    let net = NeuralNetwork::<i64>::new(2, 3);
    assert!(!net.is_complete());
    let net = net.add_layer(4, ActivationFunction::ReLU);
    assert!(!net.is_complete());
    let mut net = net.add_layer(3, ActivationFunction::Linear);
    assert!(net.is_complete());
    assert_eq!(net.run(&[1, 1]).unwrap().len(), 3);
}

#[test]
fn from_parts_keeps_the_given_values() {
    let n = neural_network::Neuron::<i64>::from_parts(vec![2, -3], 4, ActivationFunction::Linear);
    assert_eq!(n.get_weights_len(), 2);
    // 2*5 - 3*1 + 4
    assert_eq!(n.compute(&[5, 1]), 11);
    let r = neural_network::Neuron::<i64>::from_parts(vec![2, -3], 4, ActivationFunction::ReLU);
    assert_eq!(r.compute(&[0, 5]), 0);
}

#[test]
fn random_layer_keeps_the_declared_outputs() {
    let mut net = NeuralNetwork::<F32>::new(3, 2)
        .random_layer(5, ActivationFunction::ReLU)
        .random_layer(2, ActivationFunction::Linear);
    assert!(net.is_complete());
    assert_eq!(net.run(&f(&[1.0, 2.0, 3.0])).unwrap().len(), 2);
}
