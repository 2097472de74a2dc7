use vstd::prelude::*;

use rayon::iter::{IndexedParallelIterator, IntoParallelRefIterator, ParallelIterator};

use crate::random::{random_index, random_ratio, RandomScalar};
use crate::scalar::{spec_relu, Scalar};

use self::neuron::{fresh_neuron, neuron_output, Neuron, NeuronModel};

pub mod neuron;

verus! {

/// The activation function a neuron applies to its weighted sum.
#[derive(Debug, Clone, Copy, PartialEq, Eq, Structural)]
pub enum ActivationFunction {
    ReLU,
    Linear,
}

impl Default for ActivationFunction {
    fn default() -> (r: Self)
        ensures
            r == ActivationFunction::ReLU,
    {
        ActivationFunction::ReLU
    }
}

impl ActivationFunction {
    pub open spec fn spec_apply<S: Scalar>(self, x: S) -> S {
        match self {
            ActivationFunction::ReLU => spec_relu(x),
            ActivationFunction::Linear => x,
        }
    }

    /// `max(x, 0)` for ReLU, `x` for Linear.
    pub fn apply<S: Scalar>(&self, x: S) -> (r: S)
        ensures
            r == self.spec_apply(x),
    {
        match self {
            ActivationFunction::ReLU => {
                if x.less(S::zero()) {
                    S::zero()
                } else {
                    x
                }
            },
            ActivationFunction::Linear => x,
        }
    }
}

/// The error `run` returns for an input of the wrong length.
#[derive(Debug, Clone, Copy, PartialEq, Eq, Structural)]
pub struct ShapeMismatch {
    pub expected: usize,
    pub found: usize,
}

/// What a network is, as a value: its input arity, its declared output
/// arity and its layers, each a sequence of neurons.
pub struct NetworkModel<S> {
    pub inputs: nat,
    pub outputs: nat,
    pub layers: Seq<Seq<NeuronModel<S>>>,
}

/// The number of inputs that the layer at `k` takes: the network's input
/// arity for the first layer, the previous layer's width for the others.
/// At `k == layers.len()` it is the network's output arity.
pub open spec fn layer_inputs<S>(m: NetworkModel<S>, k: int) -> nat {
    if k == 0 {
        m.inputs
    } else {
        m.layers[k - 1].len()
    }
}

/// The width of the last layer: the input arity when there is no layer.
pub open spec fn final_width<S>(m: NetworkModel<S>) -> nat {
    layer_inputs(m, m.layers.len() as int)
}

/// The network is fully built: its last layer has the declared output
/// arity.
pub open spec fn complete<S>(m: NetworkModel<S>) -> bool {
    final_width(m) == m.outputs
}

/// Every neuron has as many weights as its layer has inputs.
pub open spec fn shapes_match<S>(m: NetworkModel<S>) -> bool {
    forall|k: int, j: int|
        0 <= k < m.layers.len() && 0 <= j < m.layers[k].len() ==> (#[trigger] m.layers[k][j]).weights.len()
            == layer_inputs(m, k)
}

/// The outputs of one layer on the input `x`, one per neuron.
pub open spec fn layer_output<S: Scalar>(layer: Seq<NeuronModel<S>>, x: Seq<S>) -> Seq<S> {
    Seq::new(layer.len(), |j: int| neuron_output(layer[j], x))
}

/// The values after the first `k` layers, starting from `x`.
pub open spec fn forward<S: Scalar>(layers: Seq<Seq<NeuronModel<S>>>, x: Seq<S>, k: nat) -> Seq<S>
    decreases k,
{
    if k == 0 {
        x
    } else {
        layer_output(layers[k - 1], forward(layers, x, (k - 1) as nat))
    }
}

/// What the network outputs on `x`: the forward pass through all layers.
pub open spec fn spec_run<S: Scalar>(m: NetworkModel<S>, x: Seq<S>) -> Seq<S> {
    forward(m.layers, x, m.layers.len())
}

/// The result of running a network with model `m` on `x`.
pub open spec fn run_result<S: Scalar>(m: NetworkModel<S>, x: Seq<S>) -> Result<Seq<S>, ShapeMismatch> {
    if x.len() == m.inputs {
        Ok(spec_run(m, x))
    } else {
        Err(ShapeMismatch { expected: m.inputs as usize, found: x.len() as usize })
    }
}

/// The value of `r` seen through the views of its vectors.
pub open spec fn result_view<S>(r: Result<Vec<S>, ShapeMismatch>) -> Result<Seq<S>, ShapeMismatch> {
    match r {
        Ok(v) => Ok(v@),
        Err(e) => Err(e),
    }
}

/// One call of `run`: it returns `r` on `x` and leaves the model as it was.
pub open spec fn runs_to<S: Scalar>(
    before: NetworkModel<S>,
    x: Seq<S>,
    r: Result<Seq<S>, ShapeMismatch>,
    after: NetworkModel<S>,
) -> bool {
    r == run_result(before, x) && after == before
}

/// Running a network twice on the same input gives the same result both
/// times, and leaves the network as it was.
pub proof fn lemma_run_repeatable<S: Scalar>(
    m0: NetworkModel<S>,
    x: Seq<S>,
    r1: Result<Seq<S>, ShapeMismatch>,
    m1: NetworkModel<S>,
    r2: Result<Seq<S>, ShapeMismatch>,
    m2: NetworkModel<S>,
)
    requires
        runs_to(m0, x, r1, m1),
        runs_to(m1, x, r2, m2),
    ensures
        r1 == r2,
        m2 == m0,
{
}

/// `r` holds, in order, what running the network with model `m` gives on
/// each of `inputs`.
pub open spec fn batch_result<S: Scalar>(
    m: NetworkModel<S>,
    inputs: Seq<Vec<S>>,
    r: Seq<Result<Vec<S>, ShapeMismatch>>,
) -> bool {
    &&& r.len() == inputs.len()
    &&& forall|i: int| 0 <= i < inputs.len() ==> result_view(#[trigger] r[i]) == run_result(m, inputs[i]@)
}

/// The `i`-th result of a batch run is what a single unbuffered run gives
/// on the `i`-th input.
pub proof fn lemma_batch_matches_single<S: Scalar>(
    m: NetworkModel<S>,
    inputs: Seq<Vec<S>>,
    batch: Seq<Result<Vec<S>, ShapeMismatch>>,
    i: int,
    single: Result<Vec<S>, ShapeMismatch>,
)
    requires
        batch_result(m, inputs, batch),
        0 <= i < inputs.len(),
        result_view(single) == run_result(m, inputs[i]@),
    ensures
        result_view(batch[i]) == result_view(single),
{
}

/// A successful run returns as many values as the network has outputs.
pub proof fn lemma_run_len<S: Scalar>(m: NetworkModel<S>, x: Seq<S>)
    requires
        shapes_match(m),
        complete(m),
        x.len() == m.inputs,
    ensures
        spec_run(m, x).len() == m.outputs,
{
    lemma_forward_len(m, x, m.layers.len());
}

pub proof fn lemma_forward_len<S: Scalar>(m: NetworkModel<S>, x: Seq<S>, k: nat)
    requires
        x.len() == m.inputs,
        k <= m.layers.len(),
    ensures
        forward(m.layers, x, k).len() == layer_inputs(m, k as int),
{
}

/// `m` with the neuron at layer `l`, row `r` replaced by `n`.
pub open spec fn replace_neuron<S>(m: NetworkModel<S>, l: int, r: int, n: NeuronModel<S>) -> NetworkModel<S> {
    NetworkModel { layers: m.layers.update(l, m.layers[l].update(r, n)), ..m }
}

/// `n` with `change` added to the weight at `index`, or to the bias when
/// no index is given.
pub open spec fn edited_neuron<S: Scalar>(n: NeuronModel<S>, index: Option<usize>, change: S) -> NeuronModel<S> {
    match index {
        Some(i) => NeuronModel {
            weights: n.weights.update(i as int, n.weights[i as int].spec_plus(change)),
            ..n
        },
        None => NeuronModel { bias: n.bias.spec_plus(change), ..n },
    }
}

/// `after` is `before` with one weight or the bias changed by some amount.
pub open spec fn perturbed<S: Scalar>(before: NeuronModel<S>, after: NeuronModel<S>) -> bool {
    exists|index: Option<usize>, change: S|
        (index matches Some(i) ==> i < before.weights.len()) && after == #[trigger] edited_neuron(
            before,
            index,
            change,
        )
}

/// What a random edit leaves behind: `pending` records the neuron that
/// changed, where it stands and what it was in `before`; `after` is `before`
/// with that neuron perturbed.
pub open spec fn edit_recorded<S: Scalar>(
    before: NetworkModel<S>,
    after: NetworkModel<S>,
    pending: Option<(NeuronModel<S>, int, int)>,
) -> bool {
    match pending {
        Some((n, l, r)) => {
            &&& 0 <= l < before.layers.len()
            &&& 0 <= r < before.layers[l].len()
            &&& n == before.layers[l][r]
            &&& after == replace_neuron(before, l, r, after.layers[l][r])
            &&& perturbed(n, after.layers[l][r])
        },
        None => false,
    }
}

/// What undoing leaves behind: the recorded neuron put back in its place, or
/// nothing changed when no edit is pending.
pub open spec fn edit_undone<S>(
    before: NetworkModel<S>,
    pending: Option<(NeuronModel<S>, int, int)>,
    after: NetworkModel<S>,
) -> bool {
    match pending {
        Some((n, l, r)) => after == replace_neuron(before, l, r, n),
        None => after == before,
    }
}

/// A network that a random edit can act on: it has a layer, and every layer
/// has a neuron with at least one weight.
pub open spec fn editable<S>(m: NetworkModel<S>) -> bool {
    &&& m.layers.len() > 0
    &&& m.inputs > 0
    &&& forall|k: int| 0 <= k < m.layers.len() ==> #[trigger] m.layers[k].len() > 0
}

/// A random edit followed by undoing it gives back the network as it was.
pub proof fn lemma_edit_then_undo<S: Scalar>(
    before: NetworkModel<S>,
    edited: NetworkModel<S>,
    pending: Option<(NeuronModel<S>, int, int)>,
    restored: NetworkModel<S>,
)
    requires
        edit_recorded(before, edited, pending),
        edit_undone(edited, pending, restored),
    ensures
        restored == before,
{
    let (n, l, r) = pending.unwrap();
    assert(restored.layers[l] =~= before.layers[l]);
    assert(restored.layers =~= before.layers);
}

/// `layer` with the weights of each neuron at `j`, `from <= j`, replaced by
/// `weights[j]`, as far as both reach.
pub open spec fn layer_with_weights<S>(layer: Seq<NeuronModel<S>>, weights: Seq<Vec<S>>, from: int) -> Seq<NeuronModel<S>> {
    Seq::new(
        layer.len(),
        |j: int|
            if from <= j < weights.len() {
                NeuronModel { weights: weights[j]@, ..layer[j] }
            } else {
                layer[j]
            },
    )
}

/// `layer` with the bias of each neuron at `j` replaced by `biases[j]`, as
/// far as both reach.
pub open spec fn layer_with_bias<S>(layer: Seq<NeuronModel<S>>, biases: Seq<S>) -> Seq<NeuronModel<S>> {
    Seq::new(
        layer.len(),
        |j: int|
            if j < biases.len() {
                NeuronModel { bias: biases[j], ..layer[j] }
            } else {
                layer[j]
            },
    )
}

/// Relies on rayon: `par_iter().map(..).collect_into_vec(..)` over a
/// vector fills the result with one item per input, in the order of the
/// inputs; each item here is what `unbufferd_run` returns for its input.
#[verifier::external_body]
fn par_map_run<S: Scalar + Send + Sync>(net: &NeuralNetwork<S>, inputs: &Vec<Vec<S>>) -> (r: Vec<Result<Vec<S>, ShapeMismatch>>)
    requires
        net.wf(),
        complete(net.model()),
    ensures
        batch_result(net.model(), inputs@, r@),
{
    let mut out = Vec::new();
    inputs.par_iter().map(|input| net.unbufferd_run(input.as_slice())).collect_into_vec(&mut out);
    out
}

/// The edit that `apply_edit` makes is one that `random_edit` may make.
pub proof fn lemma_apply_edit_recorded<S: Scalar>(
    m: NetworkModel<S>,
    l: int,
    r: int,
    index: Option<usize>,
    change: S,
)
    requires
        shapes_match(m),
        0 <= l < m.layers.len(),
        0 <= r < m.layers[l].len(),
        index matches Some(i) ==> i < layer_inputs(m, l),
    ensures
        edit_recorded(
            m,
            replace_neuron(m, l, r, edited_neuron(m.layers[l][r], index, change)),
            Some((m.layers[l][r], l, r)),
        ),
{
    let after = replace_neuron(m, l, r, edited_neuron(m.layers[l][r], index, change));
    assert(m.layers[l][r].weights.len() == layer_inputs(m, l));
    assert(after.layers[l][r] == edited_neuron(m.layers[l][r], index, change));
    assert(after =~= replace_neuron(m, l, r, after.layers[l][r]));
}

/// The record of the last random edit: the neuron as it was, and where.
struct Edit<S> {
    old: Neuron<S>,
    layer: usize,
    row: usize,
}

/// A feedforward network of fully connected layers.
pub struct NeuralNetwork<S> {
    inputs: usize,
    outputs: usize,
    layers: Vec<Vec<Neuron<S>>>,
    last_edit: Option<Edit<S>>,
    /// the width of the widest layer, which the buffers are sized for
    longest_layer: usize,
    data: Vec<S>,
    temp: Vec<S>,
}

impl<S: Scalar> NeuralNetwork<S> {
    pub closed spec fn model(&self) -> NetworkModel<S> {
        NetworkModel {
            inputs: self.inputs as nat,
            outputs: self.outputs as nat,
            layers: Seq::new(
                self.layers@.len(),
                |k: int| Seq::new(self.layers@[k]@.len(), |j: int| self.layers@[k]@[j].model()),
            ),
        }
    }

    /// The pending edit, if any: the neuron as it was before, its layer and
    /// its row.
    pub closed spec fn pending_edit(&self) -> Option<(NeuronModel<S>, int, int)> {
        match self.last_edit {
            Some(e) => Some((e.old.model(), e.layer as int, e.row as int)),
            None => None,
        }
    }

    /// The network's invariant: layer shapes chain together, and a pending
    /// edit names a neuron that exists and has that neuron's shape.
    pub closed spec fn wf(&self) -> bool {
        &&& shapes_match(self.model())
        &&& forall|k: int| 0 <= k < self.layers@.len() ==> self.layers@[k]@.len() <= self.longest_layer
        &&& match self.pending_edit() {
            Some((old, l, r)) => 0 <= l < self.model().layers.len() && 0 <= r
                < self.model().layers[l].len() && old.weights.len() == layer_inputs(
                self.model(),
                l,
            ),
            None => true,
        }
    }

    /// A well-formed network's layer shapes chain together.
    pub proof fn lemma_shapes(&self)
        requires
            self.wf(),
        ensures
            shapes_match(self.model()),
    {
    }

    /// An empty network that takes `inputs` values and, once its last layer
    /// is `outputs` wide, returns `outputs` values.
    pub fn new(inputs: usize, outputs: usize) -> (r: Self)
        ensures
            r.wf(),
            r.model() == (NetworkModel::<S> { inputs: inputs as nat, outputs: outputs as nat, layers: seq![] }),
            r.pending_edit() is None,
    {
        let r = NeuralNetwork {
            inputs,
            outputs,
            layers: Vec::new(),
            last_edit: None,
            longest_layer: 0,
            data: Vec::new(),
            temp: Vec::new(),
        };
        assert(r.model().layers =~= seq![]);
        r
    }

    /// The number of inputs a new layer would take: the width of the last
    /// layer, or the network's input arity.
    fn get_layer_inputs(&self) -> (r: usize)
        ensures
            r == final_width(self.model()),
    {
        if self.layers.len() == 0 {
            return self.inputs;
        }
        self.layers[self.layers.len() - 1].len()
    }

    /// Whether the last layer has the declared output arity, as `run`
    /// requires.
    pub fn is_complete(&self) -> (r: bool)
        ensures
            r == complete(self.model()),
    {
        self.get_layer_inputs() == self.outputs
    }

    /// Grows the buffers when a layer of `n` neurons is wider than all before.
    fn check_max_layer(&mut self, n: usize)
        ensures
            final(self).inputs == old(self).inputs,
            final(self).outputs == old(self).outputs,
            final(self).layers == old(self).layers,
            final(self).last_edit == old(self).last_edit,
            final(self).longest_layer >= old(self).longest_layer,
            final(self).longest_layer >= n,
    {
        if n > self.longest_layer {
            self.longest_layer = n;
            self.data = Vec::with_capacity(n);
            self.temp = Vec::with_capacity(n);
        }
    }

    /// Appends a layer of `n` neurons with the given activation, all weights
    /// one and all biases zero.
    pub fn add_layer(self, n: usize, func: ActivationFunction) -> (r: Self)
        requires
            self.wf(),
        ensures
            r.wf(),
            r.model() == (NetworkModel {
                layers: self.model().layers.push(
                    Seq::new(n as nat, |j: int| fresh_neuron(final_width(self.model()), S::spec_zero(), func)),
                ),
                ..self.model()
            }),
            r.pending_edit() == self.pending_edit(),
    {
        let mut net = self;
        let n_inputs = net.get_layer_inputs();
        let ghost fresh = fresh_neuron(n_inputs as nat, S::spec_zero(), func);
        let mut layer: Vec<Neuron<S>> = Vec::with_capacity(n);
        let mut j: usize = 0;
        while j < n
            invariant
                j <= n,
                layer@.len() == j,
                fresh == fresh_neuron(n_inputs as nat, S::spec_zero(), func),
                forall|i: int| 0 <= i < j ==> (#[trigger] layer@[i]).model() == fresh,
            decreases n - j,
        {
            layer.push(Neuron::new(n_inputs, S::zero(), func));
            j += 1;
        }
        proof {
            assert(Seq::new(layer@.len(), |j: int| layer@[j].model()) =~= Seq::new(
                n as nat,
                |j: int| fresh,
            ));
        }
        net.push_layer(layer);
        net
    }

    /// Appends `layer`, whose neurons take the current output arity.
    fn push_layer(&mut self, layer: Vec<Neuron<S>>)
        requires
            old(self).wf(),
            forall|j: int|
                0 <= j < layer@.len() ==> (#[trigger] layer@[j]).model().weights.len() == final_width(
                    old(self).model(),
                ),
        ensures
            final(self).wf(),
            final(self).model() == (NetworkModel {
                layers: old(self).model().layers.push(
                    Seq::new(layer@.len(), |j: int| layer@[j].model()),
                ),
                ..old(self).model()
            }),
            final(self).pending_edit() == old(self).pending_edit(),
    {
        let n = layer.len();
        let ghost before = self.model();
        self.layers.push(layer);
        self.check_max_layer(n);
        proof {
            let after = self.model();
            let expected = NetworkModel {
                layers: before.layers.push(Seq::new(layer@.len(), |j: int| layer@[j].model())),
                ..before
            };
            assert(after.layers.len() == expected.layers.len());
            assert forall|k: int| 0 <= k < after.layers.len() implies after.layers[k]
                =~= expected.layers[k] by {}
            assert(after.layers =~= expected.layers);
            assert forall|k: int, j: int|
                0 <= k < after.layers.len() && 0 <= j < after.layers[k].len() implies (
                #[trigger] after.layers[k][j]).weights.len() == layer_inputs(after, k) by {
                if k < before.layers.len() {
                    assert(after.layers[k][j] == before.layers[k][j]);
                }
            }
        }
    }

    /// The forward pass on `input`, using `data` and `temp` as scratch: each
    /// layer reads the values in one and writes its outputs to the other.
    fn forward_pass(&self, input: &[S], data: &mut Vec<S>, temp: &mut Vec<S>) -> (r: Vec<S>)
        requires
            self.wf(),
            complete(self.model()),
            input@.len() == self.model().inputs,
        ensures
            r@ == spec_run(self.model(), input@),
    {
        let ghost m = self.model();
        data.clear();
        let mut i: usize = 0;
        while i < input.len()
            invariant
                i <= input@.len(),
                data@ == input@.subrange(0, i as int),
            decreases input@.len() - i,
        {
            data.push(input[i]);
            i += 1;
        }
        assert(data@ =~= forward(m.layers, input@, 0));
        let mut k: usize = 0;
        while k < self.layers.len()
            invariant
                m == self.model(),
                self.wf(),
                input@.len() == m.inputs,
                k <= m.layers.len(),
                data@ == forward(m.layers, input@, k as nat),
            decreases m.layers.len() - k,
        {
            let layer = &self.layers[k];
            proof {
                lemma_forward_len(m, input@, k as nat);
            }
            temp.clear();
            let mut j: usize = 0;
            while j < layer.len()
                invariant
                    m == self.model(),
                    self.wf(),
                    k < m.layers.len(),
                    *layer == self.layers@[k as int],
                    j <= layer@.len(),
                    data@.len() == layer_inputs(m, k as int),
                    temp@ == layer_output(m.layers[k as int], data@).subrange(0, j as int),
                decreases layer@.len() - j,
            {
                assert(m.layers[k as int][j as int] == layer@[j as int].model());
                let out = layer[j].compute(data.as_slice());
                temp.push(out);
                j += 1;
                assert(temp@ =~= layer_output(m.layers[k as int], data@).subrange(0, j as int));
            }
            assert(temp@ =~= layer_output(m.layers[k as int], data@));
            std::mem::swap(data, temp);
            k += 1;
        }
        let mut out: Vec<S> = Vec::with_capacity(data.len());
        let mut i: usize = 0;
        while i < data.len()
            invariant
                i <= data@.len(),
                out@ == data@.subrange(0, i as int),
            decreases data@.len() - i,
        {
            out.push(data[i]);
            i += 1;
        }
        assert(out@ =~= data@);
        out
    }

    /// Runs the network on `input`, reusing the network's own buffers.
    pub fn run(&mut self, input: &[S]) -> (r: Result<Vec<S>, ShapeMismatch>)
        requires
            old(self).wf(),
            complete(old(self).model()),
        ensures
            final(self).wf(),
            final(self).pending_edit() == old(self).pending_edit(),
            runs_to(old(self).model(), input@, result_view(r), final(self).model()),
    {
        if input.len() != self.inputs {
            return Err(ShapeMismatch { expected: self.inputs, found: input.len() });
        }
        let mut data: Vec<S> = Vec::new();
        let mut temp: Vec<S> = Vec::new();
        std::mem::swap(&mut data, &mut self.data);
        std::mem::swap(&mut temp, &mut self.temp);
        let out = self.forward_pass(input, &mut data, &mut temp);
        self.data = data;
        self.temp = temp;
        Ok(out)
    }

    /// Runs the network on `input` with buffers of its own, so that it only
    /// reads the network.
    pub fn unbufferd_run(&self, input: &[S]) -> (r: Result<Vec<S>, ShapeMismatch>)
        requires
            self.wf(),
            complete(self.model()),
        ensures
            result_view(r) == run_result(self.model(), input@),
    {
        if input.len() != self.inputs {
            return Err(ShapeMismatch { expected: self.inputs, found: input.len() });
        }
        let mut data: Vec<S> = Vec::with_capacity(self.longest_layer);
        let mut temp: Vec<S> = Vec::with_capacity(self.longest_layer);
        Ok(self.forward_pass(input, &mut data, &mut temp))
    }

    /// Runs the network on each of `inputs`, in parallel; the results come
    /// in the order of the inputs, each what `unbufferd_run` gives for its
    /// input.
    pub fn par_run(&self, inputs: &Vec<Vec<S>>) -> (r: Vec<Result<Vec<S>, ShapeMismatch>>) where S: Send + Sync
        requires
            self.wf(),
            complete(self.model()),
        ensures
            batch_result(self.model(), inputs@, r@),
    {
        par_map_run(self, inputs)
    }

    /// Replacing one neuron by one with as many weights changes the model at
    /// that place only, and keeps the shapes matching.
    proof fn lemma_replace_one(&self, other: &Self, l: int, r: int)
        requires
            shapes_match(self.model()),
            0 <= l < self.layers@.len(),
            0 <= r < self.layers@[l]@.len(),
            other.inputs == self.inputs,
            other.outputs == self.outputs,
            other.layers@.len() == self.layers@.len(),
            forall|k: int| 0 <= k < self.layers@.len() && k != l ==> other.layers@[k] == self.layers@[k],
            other.layers@[l]@.len() == self.layers@[l]@.len(),
            forall|j: int| 0 <= j < self.layers@[l]@.len() && j != r ==> other.layers@[l]@[j] == self.layers@[l]@[j],
            other.layers@[l]@[r].model().weights.len() == self.layers@[l]@[r].model().weights.len(),
        ensures
            other.model() == replace_neuron(self.model(), l, r, other.layers@[l]@[r].model()),
            shapes_match(other.model()),
    {
        let a = other.model();
        let b = replace_neuron(self.model(), l, r, other.layers@[l]@[r].model());
        assert forall|k: int| 0 <= k < a.layers.len() implies a.layers[k] =~= b.layers[k] by {}
        assert(a.layers =~= b.layers);
        let m = self.model();
        assert forall|k: int, j: int|
            0 <= k < a.layers.len() && 0 <= j < a.layers[k].len() implies (
            #[trigger] a.layers[k][j]).weights.len() == layer_inputs(a, k) by {
            assert(m.layers[k][j].weights.len() == layer_inputs(m, k));
        }
    }

    /// Adds `change` to the weight at `index` of the neuron at `layer`,
    /// `row`, or to its bias when no index is given, and records the neuron
    /// as it was so that `reverse_edit` can put it back.
    pub fn apply_edit(&mut self, layer: usize, row: usize, index: Option<usize>, change: S)
        requires
            old(self).wf(),
            layer < old(self).model().layers.len(),
            row < old(self).model().layers[layer as int].len(),
            index matches Some(i) ==> i < layer_inputs(old(self).model(), layer as int),
        ensures
            final(self).wf(),
            final(self).pending_edit() == Some((old(self).model().layers[layer as int][row as int], layer as int, row as int)),
            final(self).model() == replace_neuron(
                old(self).model(),
                layer as int,
                row as int,
                edited_neuron(old(self).model().layers[layer as int][row as int], index, change),
            ),
    {
        let ghost before = *self;
        let saved = self.layers[layer][row].duplicate();
        match index {
            Some(i) => self.layers[layer][row].change_weight(i, change),
            None => self.layers[layer][row].change_bias(change),
        }
        self.last_edit = Some(Edit { old: saved, layer, row });
        proof {
            before.lemma_replace_one(self, layer as int, row as int);
        }
    }

    /// Draws an edit at random: the layer, then the row within it,
    /// uniformly; a change of size between 0 and 0.1, negated with chance one
    /// half; and, with chance 19 in 20, a uniformly drawn weight to change,
    /// else none (the bias).
    pub(crate) fn draw_edit(&self) -> (r: (usize, usize, Option<usize>, S)) where S: RandomScalar
        requires
            self.wf(),
            editable(self.model()),
        ensures
            r.0 < self.model().layers.len(),
            r.1 < self.model().layers[r.0 as int].len(),
            r.2 matches Some(i) ==> i < layer_inputs(self.model(), r.0 as int),
    {
        let ghost m = self.model();
        let layer = random_index(self.layers.len());
        assert(m.layers[layer as int].len() > 0);
        let row = random_index(self.layers[layer].len());
        let mut change = S::random_step();
        if random_ratio(1, 2) {
            change = change.negate();
        }
        assert(m.layers[layer as int][row as int].weights.len() == layer_inputs(m, layer as int));
        let index = if random_ratio(19, 20) {
            Some(random_index(self.layers[layer][row].get_weights_len()))
        } else {
            None
        };
        (layer, row, index, change)
    }

    /// Changes one weight or the bias of one neuron, chosen at random, by a
    /// random amount (see `draw_edit`), and records the neuron as it was.
    pub fn random_edit(&mut self) where S: RandomScalar
        requires
            old(self).wf(),
            editable(old(self).model()),
        ensures
            final(self).wf(),
            edit_recorded(old(self).model(), final(self).model(), final(self).pending_edit()),
    {
        let ghost m = self.model();
        let (layer, row, index, change) = self.draw_edit();
        self.apply_edit(layer, row, index, change);
        proof {
            lemma_apply_edit_recorded(m, layer as int, row as int, index, change);
        }
    }

    /// Puts back the neuron that the pending edit changed, and clears the
    /// record; does nothing when no edit is pending.
    pub fn reverse_edit(&mut self)
        requires
            old(self).wf(),
        ensures
            final(self).wf(),
            final(self).pending_edit() is None,
            edit_undone(old(self).model(), old(self).pending_edit(), final(self).model()),
    {
        let ghost before = *self;
        let mut pending: Option<Edit<S>> = None;
        std::mem::swap(&mut pending, &mut self.last_edit);
        match pending {
            Some(edit) => {
                self.layers[edit.layer][edit.row] = edit.old;
                proof {
                    let m = before.model();
                    assert(m.layers[edit.layer as int][edit.row as int].weights.len() == layer_inputs(m, edit.layer as int));
                    before.lemma_replace_one(self, edit.layer as int, edit.row as int);
                }
            },
            None => {},
        }
    }

    /// Appends a layer of `n` neurons with the given activation and with
    /// weights and biases drawn at random.
    pub fn random_layer(self, n: usize, func: ActivationFunction) -> (r: Self) where S: RandomScalar
        requires
            self.wf(),
        ensures
            r.wf(),
            r.model().inputs == self.model().inputs,
            r.model().outputs == self.model().outputs,
            r.model().layers.drop_last() == self.model().layers,
            r.model().layers.len() == self.model().layers.len() + 1,
            r.model().layers.last().len() == n,
            forall|j: int|
                0 <= j < n ==> (#[trigger] r.model().layers.last()[j]).weights.len() == final_width(
                    self.model(),
                ) && r.model().layers.last()[j].activation == func,
            r.pending_edit() == self.pending_edit(),
    {
        let mut net = self;
        let n_inputs = net.get_layer_inputs();
        let mut layer: Vec<Neuron<S>> = Vec::with_capacity(n);
        let mut j: usize = 0;
        while j < n
            invariant
                j <= n,
                layer@.len() == j,
                forall|i: int|
                    0 <= i < j ==> (#[trigger] layer@[i]).model().weights.len() == n_inputs
                        && layer@[i].model().activation == func,
            decreases n - j,
        {
            layer.push(Neuron::random(n_inputs, func));
            j += 1;
        }
        net.push_layer(layer);
        assert(net.model().layers.drop_last() =~= self.model().layers);
        net
    }

    /// Replaces the weights of the last layer's neurons, the first neuron's
    /// by `weights[0]` and so on, as far as both reach.
    pub fn with_weights(self, weights: Vec<Vec<S>>) -> (r: Self)
        requires
            self.wf(),
            self.model().layers.len() > 0,
            forall|j: int|
                0 <= j < weights@.len() && j < self.model().layers.last().len() ==> (
                #[trigger] weights@[j])@.len() == layer_inputs(
                    self.model(),
                    self.model().layers.len() - 1,
                ),
        ensures
            r.wf(),
            r.pending_edit() == self.pending_edit(),
            r.model() == (NetworkModel {
                layers: self.model().layers.update(
                    self.model().layers.len() - 1,
                    layer_with_weights(self.model().layers.last(), weights@, 0),
                ),
                ..self.model()
            }),
    {
        let ghost m = self.model();
        let ghost all = weights@;
        let mut net = self;
        let mut weights = weights;
        let last = net.layers.len() - 1;
        let width = net.layers[last].len();
        if weights.len() > width {
            weights.truncate(width);
        }
        let mut j: usize = weights.len();
        proof {
            assert(layer_with_weights(m.layers[last as int], all, j as int) =~= m.layers[last as int]);
            assert(m.layers.update(last as int, layer_with_weights(m.layers[last as int], all, j as int))
                =~= m.layers);
        }
        while j > 0
            invariant
                net.wf(),
                net.pending_edit() == self.pending_edit(),
                last == m.layers.len() - 1,
                width == m.layers[last as int].len(),
                j <= width,
                j <= all.len(),
                weights@ == all.subrange(0, j as int),
                forall|i: int|
                    0 <= i < all.len() && i < width ==> (#[trigger] all[i])@.len() == layer_inputs(
                        m,
                        last as int,
                    ),
                net.model() == (NetworkModel {
                    layers: m.layers.update(last as int, layer_with_weights(m.layers[last as int], all, j as int)),
                    ..m
                }),
            decreases j,
        {
            let ghost before = net;
            let w = weights.pop().unwrap();
            j -= 1;
            assert(w == all[j as int]);
            assert(net.model().layers[last as int].len() == width);
            assert(net.model().layers.len() == m.layers.len());
            assert(before.model().layers[last as int][j as int].weights.len() == layer_inputs(m, last as int));
            net.layers[last][j].set_weights(w);
            proof {
                before.lemma_replace_one(&net, last as int, j as int);
                let a = net.model();
                let b = NetworkModel {
                    layers: m.layers.update(last as int, layer_with_weights(m.layers[last as int], all, j as int)),
                    ..m
                };
                assert(a.layers[last as int] =~= b.layers[last as int]);
                assert(a.layers =~= b.layers);
            }
        }
        net
    }

    /// Replaces the biases of the last layer's neurons, the first neuron's by
    /// `biases[0]` and so on, as far as both reach.
    pub fn with_bias(self, biases: Vec<S>) -> (r: Self)
        requires
            self.wf(),
            self.model().layers.len() > 0,
        ensures
            r.wf(),
            r.pending_edit() == self.pending_edit(),
            r.model() == (NetworkModel {
                layers: self.model().layers.update(
                    self.model().layers.len() - 1,
                    layer_with_bias(self.model().layers.last(), biases@),
                ),
                ..self.model()
            }),
    {
        let ghost m = self.model();
        let mut net = self;
        let last = net.layers.len() - 1;
        let width = net.layers[last].len();
        let mut j: usize = 0;
        proof {
            assert(layer_with_bias(m.layers[last as int], biases@.subrange(0, 0)) =~= m.layers[last as int]);
            assert(m.layers.update(last as int, layer_with_bias(m.layers[last as int], biases@.subrange(0, 0)))
                =~= m.layers);
        }
        while j < width && j < biases.len()
            invariant
                net.wf(),
                net.pending_edit() == self.pending_edit(),
                last == m.layers.len() - 1,
                width == m.layers[last as int].len(),
                j <= width,
                j <= biases@.len(),
                net.model() == (NetworkModel {
                    layers: m.layers.update(
                        last as int,
                        layer_with_bias(m.layers[last as int], biases@.subrange(0, j as int)),
                    ),
                    ..m
                }),
            decreases width - j,
        {
            let ghost before = net;
            assert(net.model().layers[last as int].len() == width);
            assert(net.model().layers.len() == m.layers.len());
            net.layers[last][j].set_bias(biases[j]);
            proof {
                before.lemma_replace_one(&net, last as int, j as int);
                let a = net.model();
                let b = NetworkModel {
                    layers: m.layers.update(
                        last as int,
                        layer_with_bias(m.layers[last as int], biases@.subrange(0, j + 1)),
                    ),
                    ..m
                };
                assert forall|i: int| 0 <= i < width implies a.layers[last as int][i] == b.layers[last as int][i] by {
                    if i < j {
                        assert(biases@.subrange(0, j as int)[i] == biases@.subrange(0, j + 1)[i]);
                    } else if i == j {
                        assert(biases@.subrange(0, j + 1)[i] == biases@[i]);
                        assert(before.model().layers[last as int][i] == m.layers[last as int][i]);
                        assert(a.layers[last as int][i] == net.layers@[last as int]@[i].model());
                        assert(net.layers@[last as int]@[i].model().bias == biases@[i]);
                    } else {
                        assert(before.model().layers[last as int][i] == m.layers[last as int][i]);
                    }
                }
                assert(a.layers[last as int] =~= b.layers[last as int]);
                assert(a.layers =~= b.layers);
            }
            j += 1;
        }
        proof {
            let b = layer_with_bias(m.layers[last as int], biases@.subrange(0, j as int));
            assert(b =~= layer_with_bias(m.layers[last as int], biases@));
        }
        net
    }
}

} // verus!