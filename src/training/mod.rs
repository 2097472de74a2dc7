use vstd::prelude::*;

use crate::networks::neuron::NeuronModel;
use crate::networks::{
    complete, editable, edited_neuron, final_width, layer_inputs,
    lemma_apply_edit_recorded, lemma_edit_then_undo, lemma_run_len, replace_neuron, shapes_match,
    spec_run, NetworkModel, NeuralNetwork,
};
use crate::random::RandomScalar;
use crate::scalar::{
    keeps_sign, lemma_less_not_above, lemma_not_above_trans, less_is_total_order, not_above, Scalar,
};

verus! {

/// What one example's output is scored against.
pub enum Expectation<S> {
    /// The first output should be above zero.
    GreaterZero,
    /// The first output should be below zero.
    SmallerZero,
    /// The outputs should equal `expected`.
    Value { expected: Vec<S> },
}

/// Inputs paired, by index, with what the network should output for them.
pub struct DataSet<S> {
    pub inputs: Vec<Vec<S>>,
    pub outputs: Vec<Expectation<S>>,
}

impl<S> Default for DataSet<S> {
    fn default() -> (r: Self)
        ensures
            r.inputs@ == Seq::<Vec<S>>::empty(),
            r.outputs@ == Seq::<Expectation<S>>::empty(),
    {
        DataSet { inputs: Vec::new(), outputs: Vec::new() }
    }
}

/// `|expected[0] - out[0]| + ... + |expected[k-1] - out[k-1]|`, summed
/// from the left starting at zero.
pub open spec fn distance<S: Scalar>(out: Seq<S>, expected: Seq<S>, k: nat) -> S
    decreases k,
{
    if k == 0 {
        S::spec_zero()
    } else {
        distance(out, expected, (k - 1) as nat).spec_plus(
            expected[k - 1].spec_minus(out[k - 1]).spec_abs(),
        )
    }
}

/// The error of the output `out` against `e`: how far the first output is
/// on the wrong side of zero, or the distance to the expected values.
pub open spec fn score<S: Scalar>(out: Seq<S>, e: Expectation<S>) -> S {
    match e {
        Expectation::GreaterZero => if S::spec_zero().spec_less(out[0]) {
            S::spec_zero()
        } else {
            out[0].spec_negate()
        },
        Expectation::SmallerZero => if out[0].spec_less(S::spec_zero()) {
            S::spec_zero()
        } else {
            out[0]
        },
        Expectation::Value { expected } => distance(out, expected@, out.len()),
    }
}

/// The sum of the scores of the first `k` examples of `data` on the network
/// with model `m`, summed from the left starting at zero.
pub open spec fn total_error<S: Scalar>(m: NetworkModel<S>, data: DataSet<S>, k: nat) -> S
    decreases k,
{
    if k == 0 {
        S::spec_zero()
    } else {
        total_error(m, data, (k - 1) as nat).spec_plus(
            score(spec_run(m, data.inputs@[k - 1]@), data.outputs@[k - 1]),
        )
    }
}

/// The error of the network with model `m` over all of `data`.
pub open spec fn spec_total_error<S: Scalar>(m: NetworkModel<S>, data: DataSet<S>) -> S {
    total_error(m, data, data.inputs@.len())
}

/// `data` can be scored on a network with model `m`: the network is
/// complete; each input has its input arity and has one expectation; each
/// expected vector has its output arity; and a sign expectation has an
/// output to look at.
pub open spec fn fits<S>(data: DataSet<S>, m: NetworkModel<S>) -> bool {
    &&& complete(m)
    &&& data.inputs@.len() == data.outputs@.len()
    &&& forall|i: int| 0 <= i < data.inputs@.len() ==> (#[trigger] data.inputs@[i])@.len() == m.inputs
    &&& forall|i: int|
        0 <= i < data.outputs@.len() ==> match #[trigger] data.outputs@[i] {
            Expectation::Value { expected } => expected@.len() == m.outputs,
            _ => m.outputs > 0,
        }
}

/// `a` and `b` have the same arities and layer widths, and at each place
/// neurons with as many weights and the same activation: they differ at
/// most in the values of weights and biases.
pub open spec fn same_layout<S>(a: NetworkModel<S>, b: NetworkModel<S>) -> bool {
    &&& a.inputs == b.inputs
    &&& a.outputs == b.outputs
    &&& a.layers.len() == b.layers.len()
    &&& forall|k: int| 0 <= k < a.layers.len() ==> #[trigger] a.layers[k].len() == b.layers[k].len()
    &&& forall|k: int, j: int|
        0 <= k < a.layers.len() && 0 <= j < a.layers[k].len() ==> (#[trigger] a.layers[k][j]).weights.len()
            == b.layers[k][j].weights.len() && a.layers[k][j].activation == b.layers[k][j].activation
}

/// An edit as `apply_edit` takes it: the layer, the row, the weight (none
/// for the bias) and the change.
pub type EditChoice<S> = (usize, usize, Option<usize>, S);

/// `e` names a neuron of `m`, and one of its weights if any.
pub open spec fn edit_in_range<S>(m: NetworkModel<S>, e: EditChoice<S>) -> bool {
    &&& e.0 < m.layers.len()
    &&& e.1 < m.layers[e.0 as int].len()
    &&& e.2 matches Some(i) ==> i < layer_inputs(m, e.0 as int)
}

/// Every edit of `edits` is in range of `m`.
pub open spec fn edits_in_range<S>(m: NetworkModel<S>, edits: Seq<EditChoice<S>>) -> bool {
    forall|i: int| 0 <= i < edits.len() ==> edit_in_range(m, #[trigger] edits[i])
}

/// `m` with the edit `e` made.
pub open spec fn edited_model<S: Scalar>(m: NetworkModel<S>, e: EditChoice<S>) -> NetworkModel<S> {
    replace_neuron(m, e.0 as int, e.1 as int, edited_neuron(m.layers[e.0 as int][e.1 as int], e.2, e.3))
}

pub proof fn lemma_same_layout<S>(a: NetworkModel<S>, b: NetworkModel<S>, data: DataSet<S>)
    requires
        same_layout(a, b),
    ensures
        final_width(a) == final_width(b),
        editable(a) ==> editable(b),
        fits(data, a) ==> fits(data, b),
        shapes_match(a) ==> shapes_match(b),
        forall|e: EditChoice<S>| edit_in_range(a, e) ==> #[trigger] edit_in_range(b, e),
        forall|edits: Seq<EditChoice<S>>| edits_in_range(a, edits) ==> #[trigger] edits_in_range(b, edits),
{
    if a.layers.len() > 0 {
        assert(a.layers[a.layers.len() - 1].len() == b.layers[b.layers.len() - 1].len());
    }
    if editable(a) {
        assert forall|k: int| 0 <= k < b.layers.len() implies #[trigger] b.layers[k].len() > 0 by {
            assert(a.layers[k].len() > 0);
        }
    }
    if shapes_match(a) {
        assert forall|k: int, j: int|
            0 <= k < b.layers.len() && 0 <= j < b.layers[k].len() implies (
            #[trigger] b.layers[k][j]).weights.len() == layer_inputs(b, k) by {
            assert(a.layers[k].len() == b.layers[k].len());
            assert(a.layers[k][j].weights.len() == layer_inputs(a, k));
            if k > 0 {
                assert(a.layers[k - 1].len() == b.layers[k - 1].len());
            }
        }
    }
    assert forall|e: EditChoice<S>| edit_in_range(a, e) implies #[trigger] edit_in_range(b, e) by {
        assert(a.layers[e.0 as int].len() == b.layers[e.0 as int].len());
        if e.0 > 0 {
            assert(a.layers[e.0 - 1].len() == b.layers[e.0 - 1].len());
        }
    }
    assert forall|edits: Seq<EditChoice<S>>| edits_in_range(a, edits) implies #[trigger] edits_in_range(
        b,
        edits,
    ) by {
        assert forall|i: int| 0 <= i < edits.len() implies edit_in_range(b, #[trigger] edits[i]) by {
            assert(edit_in_range(a, edits[i]));
        }
    }
}

pub proof fn lemma_same_layout_trans<S>(a: NetworkModel<S>, b: NetworkModel<S>, c: NetworkModel<S>)
    requires
        same_layout(a, b),
        same_layout(b, c),
    ensures
        same_layout(a, c),
{
    assert forall|k: int| 0 <= k < a.layers.len() implies #[trigger] a.layers[k].len() == c.layers[k].len() by {
        assert(b.layers[k].len() == c.layers[k].len());
    }
    assert forall|k: int, j: int| 0 <= k < a.layers.len() && 0 <= j < a.layers[k].len() implies (
    #[trigger] a.layers[k][j]).weights.len() == c.layers[k][j].weights.len() && a.layers[k][j].activation
        == c.layers[k][j].activation by {
        assert(a.layers[k].len() == b.layers[k].len());
        assert(b.layers[k][j].weights.len() == c.layers[k][j].weights.len());
    }
}

/// An edit changes values only: it keeps the layout.
pub proof fn lemma_edit_keeps_layout<S: Scalar>(m: NetworkModel<S>, e: EditChoice<S>)
    requires
        shapes_match(m),
        edit_in_range(m, e),
    ensures
        same_layout(m, edited_model(m, e)),
{
    let b = edited_model(m, e);
    let (l, r) = (e.0 as int, e.1 as int);
    assert forall|k: int| 0 <= k < m.layers.len() implies #[trigger] m.layers[k].len() == b.layers[k].len() by {
        if k == l {
            assert(b.layers[k] == m.layers[l].update(r, edited_neuron(m.layers[l][r], e.2, e.3)));
        }
    }
    assert forall|k: int, j: int| 0 <= k < m.layers.len() && 0 <= j < m.layers[k].len() implies (
    #[trigger] m.layers[k][j]).weights.len() == b.layers[k][j].weights.len() && m.layers[k][j].activation
        == b.layers[k][j].activation by {
        assert(m.layers[l][r].weights.len() == layer_inputs(m, l));
        if k == l {
            assert(b.layers[k] == m.layers[l].update(r, edited_neuron(m.layers[l][r], e.2, e.3)));
        }
    }
}

/// The state of training: the network's model, its pending edit, and the
/// best error so far, which is the error of that model.
pub struct TrainState<S> {
    pub model: NetworkModel<S>,
    pub pending: Option<(NeuronModel<S>, int, int)>,
    pub best: S,
}

/// One round of training with the edit `e`: the edit is kept when the error
/// of the edited model is not above `s.best` (a tie is kept), and undone
/// when it is above, which leaves the model as it was and no edit pending.
pub open spec fn train_round<S: Scalar>(s: TrainState<S>, data: DataSet<S>, e: EditChoice<S>) -> TrainState<S> {
    let edited = edited_model(s.model, e);
    let err = spec_total_error(edited, data);
    if s.best.spec_less(err) {
        TrainState { model: s.model, pending: None, best: s.best }
    } else {
        TrainState {
            model: edited,
            pending: Some((s.model.layers[e.0 as int][e.1 as int], e.0 as int, e.1 as int)),
            best: err,
        }
    }
}

/// The state after the first `k` rounds of training, with `edits[0]`,
/// `edits[1]`, ... in turn, from `s`.
pub open spec fn train_rounds<S: Scalar>(
    s: TrainState<S>,
    data: DataSet<S>,
    edits: Seq<EditChoice<S>>,
    k: nat,
) -> TrainState<S>
    decreases k,
{
    if k == 0 {
        s
    } else {
        train_round(train_rounds(s, data, edits, (k - 1) as nat), data, edits[k - 1])
    }
}

/// The error of the model that round `j` tries: the model after `j`
/// rounds with `edits[j]` made.
pub open spec fn tried_error<S: Scalar>(
    s: TrainState<S>,
    data: DataSet<S>,
    edits: Seq<EditChoice<S>>,
    j: nat,
) -> S {
    spec_total_error(edited_model(train_rounds(s, data, edits, j).model, edits[j as int]), data)
}

/// The best error never rises from one round to the next: it stays, or it
/// becomes one that is not above it.
pub proof fn lemma_best_never_rises<S: Scalar>(
    s: TrainState<S>,
    data: DataSet<S>,
    edits: Seq<EditChoice<S>>,
    k: nat,
)
    requires
        k < edits.len(),
    ensures
        ({
            let before = train_rounds(s, data, edits, k).best;
            let after = train_rounds(s, data, edits, k + 1).best;
            after == before || !before.spec_less(after)
        }),
{
}

/// After `k` rounds the best error is the starting error or one of the
/// errors tried on the way.
pub proof fn lemma_best_was_seen<S: Scalar>(
    s: TrainState<S>,
    data: DataSet<S>,
    edits: Seq<EditChoice<S>>,
    k: nat,
)
    requires
        k <= edits.len(),
    ensures
        train_rounds(s, data, edits, k).best == s.best || exists|j: nat|
            j < k && train_rounds(s, data, edits, k).best == #[trigger] tried_error(s, data, edits, j),
    decreases k,
{
    if k > 0 {
        lemma_best_was_seen(s, data, edits, (k - 1) as nat);
        let bk = train_rounds(s, data, edits, k).best;
        let prev = train_rounds(s, data, edits, (k - 1) as nat).best;
        if bk != prev {
            assert(bk == tried_error(s, data, edits, (k - 1) as nat));
        } else if prev != s.best {
            let j = choose|j: nat| j < k - 1 && prev == #[trigger] tried_error(s, data, edits, j);
            assert(j < k && bk == tried_error(s, data, edits, j));
        }
    }
}

/// Under a total order, after `k` rounds the best error is not above the
/// starting error, nor above any error tried on the way; being one of them
/// (see `lemma_best_was_seen`), it is the lowest error seen.
pub proof fn lemma_best_is_lowest<S: Scalar>(
    s: TrainState<S>,
    data: DataSet<S>,
    edits: Seq<EditChoice<S>>,
    k: nat,
)
    requires
        less_is_total_order::<S>(),
        k <= edits.len(),
    ensures
        not_above(train_rounds(s, data, edits, k).best, s.best),
        forall|j: nat| j < k ==> not_above(train_rounds(s, data, edits, k).best, #[trigger] tried_error(s, data, edits, j)),
        train_rounds(s, data, edits, k).best == s.best || exists|j: nat|
            j < k && train_rounds(s, data, edits, k).best == #[trigger] tried_error(s, data, edits, j),
    decreases k,
{
    lemma_best_was_seen(s, data, edits, k);
    let bk = train_rounds(s, data, edits, k).best;
    lemma_less_not_above(bk, bk);
    if k == 0 {
        lemma_less_not_above(s.best, s.best);
    } else {
        lemma_best_is_lowest(s, data, edits, (k - 1) as nat);
        let prev = train_rounds(s, data, edits, (k - 1) as nat).best;
        let c = tried_error(s, data, edits, (k - 1) as nat);
        // the new best is not above the previous one, nor above the tried error
        lemma_less_not_above(prev, c);
        assert(not_above(bk, prev));
        assert(not_above(bk, c));
        lemma_not_above_trans(bk, prev, s.best);
        assert forall|j: nat| j < k implies not_above(bk, #[trigger] tried_error(s, data, edits, j)) by {
            if j < k - 1 {
                lemma_not_above_trans(bk, prev, tried_error(s, data, edits, j));
            }
        }
    }
}

/// `x` lies within `2^40` of zero.
pub open spec fn within_bound(x: i64) -> bool {
    -0x100_0000_0000 <= x <= 0x100_0000_0000
}

/// Every expected value of `e` lies within `2^40` of zero.
pub open spec fn expectation_within_bound(e: Expectation<i64>) -> bool {
    match e {
        Expectation::Value { expected } => forall|j: int| 0 <= j < expected@.len() ==> within_bound(#[trigger] expected@[j]),
        _ => true,
    }
}

proof fn lemma_distance_bounded(out: Seq<i64>, expected: Seq<i64>, k: nat)
    requires
        k <= out.len(),
        k <= expected.len(),
        k <= 1024,
        forall|j: int| 0 <= j < k ==> within_bound(#[trigger] out[j]) && within_bound(expected[j]),
    ensures
        0 <= distance(out, expected, k) <= k * 0x200_0000_0000,
    decreases k,
{
    if k > 0 {
        assert forall|j: int| 0 <= j < k - 1 implies within_bound(#[trigger] out[j]) && within_bound(
            expected[j],
        ) by {
            assert(within_bound(out[j]) && within_bound(expected[j]));
        }
        lemma_distance_bounded(out, expected, (k - 1) as nat);
        let prev = distance(out, expected, (k - 1) as nat);
        assert(within_bound(out[k - 1]) && within_bound(expected[k - 1]));
        let d = expected[k - 1].spec_minus(out[k - 1]);
        assert(d == expected[k - 1] - out[k - 1]);
        let t = d.spec_abs();
        assert(0 <= t <= 0x200_0000_0000);
        assert((k - 1) * 0x200_0000_0000 + 0x200_0000_0000 == k * 0x200_0000_0000) by (nonlinear_arith);
        assert(k * 0x200_0000_0000 <= 1024 * 0x200_0000_0000) by (nonlinear_arith)
            requires
                k <= 1024,
        ;
        assert(prev.spec_plus(t) == prev + t);
    }
}

proof fn lemma_total_error_bounded(m: NetworkModel<i64>, data: DataSet<i64>, k: nat)
    requires
        shapes_match(m),
        fits(data, m),
        k <= data.inputs@.len(),
        data.inputs@.len() <= 1024,
        m.outputs <= 1024,
        forall|i: int, j: int|
            0 <= i < data.inputs@.len() && 0 <= j < m.outputs ==> within_bound(
                #[trigger] spec_run(m, data.inputs@[i]@)[j],
            ),
        forall|i: int| 0 <= i < data.outputs@.len() ==> expectation_within_bound(#[trigger] data.outputs@[i]),
    ensures
        0 <= total_error(m, data, k) <= k * 0x8_0000_0000_0000,
    decreases k,
{
    if k > 0 {
        let i = k - 1;
        lemma_total_error_bounded(m, data, i as nat);
        let prev = total_error(m, data, i as nat);
        assert(data.inputs@[i]@.len() == m.inputs);
        let out = spec_run(m, data.inputs@[i]@);
        lemma_run_len(m, data.inputs@[i]@);
        let e = data.outputs@[i];
        let w = m.outputs;
        assert(out.len() == w);
        assert forall|j: int| 0 <= j < w implies within_bound(#[trigger] out[j]) by {
            assert(within_bound(spec_run(m, data.inputs@[i]@)[j]));
        }
        let sc = score(out, e);
        match e {
            Expectation::Value { expected } => {
                assert forall|j: int| 0 <= j < w implies within_bound(out[j]) && within_bound(
                    #[trigger] expected@[j],
                ) by {
                    assert(within_bound(out[j]));
                    assert(expectation_within_bound(data.outputs@[i]));
                }
                lemma_distance_bounded(out, expected@, w);
                assert(w * 0x200_0000_0000 <= 1024 * 0x200_0000_0000) by (nonlinear_arith)
                    requires
                        w <= 1024,
                ;
            },
            _ => {
                assert(within_bound(out[0]));
            },
        }
        assert(0 <= sc <= 0x8_0000_0000_0000);
        assert((k - 1) * 0x8_0000_0000_0000 + 0x8_0000_0000_0000 == k * 0x8_0000_0000_0000) by (nonlinear_arith);
        assert(k * 0x8_0000_0000_0000 <= 1024 * 0x8_0000_0000_0000) by (nonlinear_arith)
            requires
                k <= 1024,
        ;
        assert(prev.spec_plus(sc) == prev + sc);
    }
}

/// Over `i64`, a network's error on a data set is never negative, as long
/// as no sum can wrap around: at most 1024 examples and 1024 outputs, and
/// every output and expected value within `2^40` of zero.
pub proof fn lemma_total_error_not_negative(m: NetworkModel<i64>, data: DataSet<i64>)
    requires
        shapes_match(m),
        fits(data, m),
        data.inputs@.len() <= 1024,
        m.outputs <= 1024,
        forall|i: int, j: int|
            0 <= i < data.inputs@.len() && 0 <= j < m.outputs ==> within_bound(
                #[trigger] spec_run(m, data.inputs@[i]@)[j],
            ),
        forall|i: int| 0 <= i < data.outputs@.len() ==> expectation_within_bound(#[trigger] data.outputs@[i]),
    ensures
        spec_total_error(m, data) >= 0,
{
    lemma_total_error_bounded(m, data, data.inputs@.len());
}

/// When the scalar keeps signs, no score is below zero.
proof fn lemma_score_not_negative<S: Scalar>(out: Seq<S>, e: Expectation<S>)
    requires
        keeps_sign::<S>(),
    ensures
        !score(out, e).spec_less(S::spec_zero()),
{
    match e {
        Expectation::Value { expected } => lemma_distance_not_negative(out, expected@, out.len()),
        Expectation::GreaterZero => {
            let _ = out[0].spec_negate();
        },
        _ => {},
    }
}

proof fn lemma_distance_not_negative<S: Scalar>(out: Seq<S>, expected: Seq<S>, k: nat)
    requires
        keeps_sign::<S>(),
    ensures
        !distance(out, expected, k).spec_less(S::spec_zero()),
    decreases k,
{
    if k > 0 {
        lemma_distance_not_negative(out, expected, (k - 1) as nat);
        let _ = expected[k - 1].spec_minus(out[k - 1]).spec_abs();
        let _ = distance(out, expected, (k - 1) as nat).spec_plus(
            expected[k - 1].spec_minus(out[k - 1]).spec_abs(),
        );
    }
}

proof fn lemma_total_error_prefix_not_negative<S: Scalar>(m: NetworkModel<S>, data: DataSet<S>, k: nat)
    requires
        keeps_sign::<S>(),
    ensures
        !total_error(m, data, k).spec_less(S::spec_zero()),
    decreases k,
{
    if k > 0 {
        lemma_total_error_prefix_not_negative(m, data, (k - 1) as nat);
        let sc = score(spec_run(m, data.inputs@[k - 1]@), data.outputs@[k - 1]);
        lemma_score_not_negative(spec_run(m, data.inputs@[k - 1]@), data.outputs@[k - 1]);
        let _ = total_error(m, data, (k - 1) as nat).spec_plus(sc);
    }
}

/// For a scalar that keeps signs (floating point, for one), a network's
/// error on a data set is never below zero.
pub proof fn lemma_error_never_below_zero<S: Scalar>(m: NetworkModel<S>, data: DataSet<S>)
    requires
        keeps_sign::<S>(),
    ensures
        !spec_total_error(m, data).spec_less(S::spec_zero()),
{
    lemma_total_error_prefix_not_negative(m, data, data.inputs@.len());
}

/// A stochastic hill climber over a fixed data set.
pub struct BasicTrainer<S> {
    training_data: DataSet<S>,
}

impl<S: Scalar> BasicTrainer<S> {
    pub closed spec fn data(&self) -> DataSet<S> {
        self.training_data
    }

    /// A trainer for `data`.
    pub fn new(data: DataSet<S>) -> (r: Self)
        ensures
            r.data() == data,
    {
        BasicTrainer { training_data: data }
    }

    /// Trains `net` for `iterations` rounds: draws that many edits at random
    /// (see `NeuralNetwork::random_edit`), then runs `train_with` on them.
    /// The edits depend on the layer widths alone, which no round changes.
    pub fn train(&self, net: &mut NeuralNetwork<S>, iterations: usize) where S: RandomScalar
        requires
            old(net).wf(),
            fits(self.data(), old(net).model()),
            iterations > 0 ==> editable(old(net).model()),
        ensures
            final(net).wf(),
            same_layout(old(net).model(), final(net).model()),
            iterations == 0 ==> final(net).model() == old(net).model() && final(net).pending_edit()
                == old(net).pending_edit(),
            exists|edits: Seq<EditChoice<S>>|
                edits.len() == iterations && edits_in_range(old(net).model(), edits) && (TrainState {
                    model: final(net).model(),
                    pending: final(net).pending_edit(),
                    best: spec_total_error(final(net).model(), self.data()),
                }) == #[trigger] train_rounds(
                    TrainState {
                        model: old(net).model(),
                        pending: old(net).pending_edit(),
                        best: spec_total_error(old(net).model(), self.data()),
                    },
                    self.data(),
                    edits,
                    iterations as nat,
                ),
            less_is_total_order::<S>() ==> not_above(
                spec_total_error(final(net).model(), self.data()),
                spec_total_error(old(net).model(), self.data()),
            ),
    {
        let ghost s0 = TrainState {
            model: net.model(),
            pending: net.pending_edit(),
            best: spec_total_error(net.model(), self.data()),
        };
        let mut edits: Vec<EditChoice<S>> = Vec::with_capacity(iterations);
        let mut i: usize = 0;
        while i < iterations
            invariant
                net.wf(),
                net.model() == s0.model,
                net.pending_edit() == s0.pending,
                iterations > 0 ==> editable(net.model()),
                i <= iterations,
                edits@.len() == i,
                edits_in_range(net.model(), edits@),
            decreases iterations - i,
        {
            let e = net.draw_edit();
            edits.push(e);
            i += 1;
            assert(edits_in_range(net.model(), edits@)) by {
                assert forall|k: int| 0 <= k < edits@.len() implies edit_in_range(net.model(), #[trigger] edits@[k]) by {
                    if k < edits@.len() - 1 {
                        assert(edits@[k] == edits@.drop_last()[k]);
                    }
                }
            }
        }
        self.train_with(net, &edits);
        proof {
            if less_is_total_order::<S>() {
                lemma_best_is_lowest(s0, self.data(), edits@, iterations as nat);
            }
        }
    }

    /// Trains `net` with the given edits, one round each, in order: each is
    /// made and kept or undone by the rule of `try_edit`. Returns the best
    /// error, which is the error of the network as it is left.
    pub fn train_with(&self, net: &mut NeuralNetwork<S>, edits: &Vec<EditChoice<S>>) -> (r: S)
        requires
            old(net).wf(),
            fits(self.data(), old(net).model()),
            edits_in_range(old(net).model(), edits@),
        ensures
            final(net).wf(),
            same_layout(old(net).model(), final(net).model()),
            r == spec_total_error(final(net).model(), self.data()),
            (TrainState { model: final(net).model(), pending: final(net).pending_edit(), best: r })
                == train_rounds(
                TrainState {
                    model: old(net).model(),
                    pending: old(net).pending_edit(),
                    best: spec_total_error(old(net).model(), self.data()),
                },
                self.data(),
                edits@,
                edits@.len(),
            ),
    {
        let ghost s0 = TrainState {
            model: net.model(),
            pending: net.pending_edit(),
            best: spec_total_error(net.model(), self.data()),
        };
        let mut best = compute_total_error(net, &self.training_data);
        let mut i: usize = 0;
        while i < edits.len()
            invariant
                net.wf(),
                fits(self.data(), net.model()),
                same_layout(s0.model, net.model()),
                edits_in_range(s0.model, edits@),
                i <= edits@.len(),
                best == spec_total_error(net.model(), self.data()),
                (TrainState { model: net.model(), pending: net.pending_edit(), best })
                    == train_rounds(s0, self.data(), edits@, i as nat),
            decreases edits@.len() - i,
        {
            let e = edits[i];
            let ghost before = net.model();
            proof {
                assert(edit_in_range(s0.model, edits@[i as int]));
                lemma_same_layout(s0.model, before, self.data());
                net.lemma_shapes();
                lemma_edit_keeps_layout(before, e);
            }
            best = self.try_edit(net, best, e.0, e.1, e.2, e.3);
            proof {
                if net.model() != before {
                    lemma_same_layout_trans(s0.model, before, net.model());
                }
            }
            i += 1;
        }
        best
    }

    /// Makes the edit `net.apply_edit(layer, row, index, change)` and keeps
    /// it when the error over the training data is then not above `best`,
    /// the error before the edit (a tie is kept); otherwise undoes it.
    /// Returns the error of the network as it is left.
    pub fn try_edit(
        &self,
        net: &mut NeuralNetwork<S>,
        best: S,
        layer: usize,
        row: usize,
        index: Option<usize>,
        change: S,
    ) -> (r: S)
        requires
            old(net).wf(),
            fits(self.data(), old(net).model()),
            best == spec_total_error(old(net).model(), self.data()),
            edit_in_range(old(net).model(), (layer, row, index, change)),
        ensures
            final(net).wf(),
            (TrainState { model: final(net).model(), pending: final(net).pending_edit(), best: r })
                == train_round(
                TrainState { model: old(net).model(), pending: old(net).pending_edit(), best },
                self.data(),
                (layer, row, index, change),
            ),
    {
        let ghost before = net.model();
        proof {
            net.lemma_shapes();
            lemma_edit_keeps_layout(before, (layer, row, index, change));
            lemma_same_layout(before, edited_model(before, (layer, row, index, change)), self.data());
        }
        net.apply_edit(layer, row, index, change);
        let ghost edited = net.model();
        let ghost pending = net.pending_edit();
        proof {
            lemma_apply_edit_recorded(before, layer as int, row as int, index, change);
        }
        let after = compute_total_error(net, &self.training_data);
        if best.less(after) {
            net.reverse_edit();
            proof {
                lemma_edit_then_undo(before, edited, pending, net.model());
            }
            best
        } else {
            after
        }
    }

    /// The network's error over the training data.
    pub fn get_total_error(&self, net: &NeuralNetwork<S>) -> (r: S)
        requires
            net.wf(),
            fits(self.data(), net.model()),
        ensures
            r == spec_total_error(net.model(), self.data()),
    {
        compute_total_error(net, &self.training_data)
    }
}

/// The error of the output `out` against `e`.
fn score_output<S: Scalar>(out: &Vec<S>, e: &Expectation<S>) -> (r: S)
    requires
        match e {
            Expectation::Value { expected } => expected@.len() == out@.len(),
            _ => out@.len() > 0,
        },
    ensures
        r == score(out@, *e),
{
    match e {
        Expectation::GreaterZero => {
            if S::zero().less(out[0]) {
                S::zero()
            } else {
                out[0].negate()
            }
        },
        Expectation::SmallerZero => {
            if out[0].less(S::zero()) {
                S::zero()
            } else {
                out[0]
            }
        },
        Expectation::Value { expected } => {
            let mut dist = S::zero();
            let mut i: usize = 0;
            while i < out.len()
                invariant
                    i <= out@.len(),
                    expected@.len() == out@.len(),
                    dist == distance(out@, expected@, i as nat),
                decreases out@.len() - i,
            {
                dist = dist.plus(expected[i].minus(out[i]).abs_value());
                i += 1;
            }
            dist
        },
    }
}

/// The sum of the scores of the network on each example of `data`.
fn compute_total_error<S: Scalar>(net: &NeuralNetwork<S>, data: &DataSet<S>) -> (r: S)
    requires
        net.wf(),
        fits(*data, net.model()),
    ensures
        r == spec_total_error(net.model(), *data),
{
    let mut total = S::zero();
    let mut i: usize = 0;
    while i < data.inputs.len()
        invariant
            net.wf(),
            fits(*data, net.model()),
            i <= data.inputs@.len(),
            total == total_error(net.model(), *data, i as nat),
        decreases data.inputs@.len() - i,
    {
        let input = &data.inputs[i];
        proof {
            net.lemma_shapes();
            lemma_run_len(net.model(), input@);
        }
        match net.unbufferd_run(input.as_slice()) {
            Ok(out) => {
                let e = &data.outputs[i];
                total = total.plus(score_output(&out, e));
            },
            Err(_) => {},
        }
        i += 1;
    }
    total
}

} // verus!
