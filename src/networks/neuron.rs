use vstd::prelude::*;

use super::ActivationFunction;
use crate::random::RandomScalar;
use crate::scalar::Scalar;

verus! {

/// What a neuron is, as a value: its weights, its bias and its activation.
pub struct NeuronModel<S> {
    pub weights: Seq<S>,
    pub bias: S,
    pub activation: ActivationFunction,
}

/// `bias + w[0]*x[0] + ... + w[k-1]*x[k-1]`, summed from the left.
pub open spec fn weighted_sum<S: Scalar>(bias: S, w: Seq<S>, x: Seq<S>, k: nat) -> S
    decreases k,
{
    if k == 0 {
        bias
    } else {
        weighted_sum(bias, w, x, (k - 1) as nat).spec_plus(
            w[k - 1].spec_times(x[k - 1]),
        )
    }
}

/// What a neuron outputs on the input `x`.
pub open spec fn neuron_output<S: Scalar>(m: NeuronModel<S>, x: Seq<S>) -> S {
    m.activation.spec_apply(weighted_sum(m.bias, m.weights, x, m.weights.len()))
}

/// A neuron with `n_inputs` weights, all of them one.
pub open spec fn fresh_neuron<S: Scalar>(n_inputs: nat, bias: S, func: ActivationFunction) -> NeuronModel<S> {
    NeuronModel { weights: Seq::new(n_inputs, |i: int| S::spec_one()), bias, activation: func }
}

/// One neuron: a weighted sum of its inputs plus a bias, passed through an
/// activation function.
pub struct Neuron<S> {
    weights: Vec<S>,
    bias: S,
    activation: ActivationFunction,
}

impl<S: Scalar> Neuron<S> {
    pub closed spec fn model(&self) -> NeuronModel<S> {
        NeuronModel { weights: self.weights@, bias: self.bias, activation: self.activation }
    }

    /// A neuron with `n_inputs` weights, all of them one.
    pub fn new(n_inputs: usize, bias: S, func: ActivationFunction) -> (r: Self)
        ensures
            r.model() == fresh_neuron(n_inputs as nat, bias, func),
    {
        let mut weights: Vec<S> = Vec::with_capacity(n_inputs);
        let mut i: usize = 0;
        while i < n_inputs
            invariant
                i <= n_inputs,
                weights@ == Seq::new(i as nat, |k: int| S::spec_one()),
            decreases n_inputs - i,
        {
            weights.push(S::one());
            i += 1;
        }
        let r = Neuron { weights, bias, activation: func };
        assert(r.model().weights =~= fresh_neuron(n_inputs as nat, bias, func).weights);
        r
    }

    /// A neuron with the given weights, bias and activation.
    pub fn from_parts(weights: Vec<S>, bias: S, func: ActivationFunction) -> (r: Self)
        ensures
            r.model() == (NeuronModel { weights: weights@, bias, activation: func }),
    {
        Neuron { weights, bias, activation: func }
    }

    /// A neuron with `n_inputs` weights and then a bias, each drawn from
    /// `S::random_unit`, put together by `from_parts`.
    pub fn random(n_inputs: usize, func: ActivationFunction) -> (r: Self) where S: RandomScalar
        ensures
            r.model().weights.len() == n_inputs,
            r.model().activation == func,
    {
        let mut weights: Vec<S> = Vec::with_capacity(n_inputs);
        let mut i: usize = 0;
        while i < n_inputs
            invariant
                i <= n_inputs,
                weights@.len() == i,
            decreases n_inputs - i,
        {
            weights.push(S::random_unit());
            i += 1;
        }
        let bias = S::random_unit();
        Self::from_parts(weights, bias, func)
    }

    /// A copy of this neuron.
    pub fn duplicate(&self) -> (r: Self)
        ensures
            r.model() == self.model(),
    {
        let mut weights: Vec<S> = Vec::with_capacity(self.weights.len());
        let mut i: usize = 0;
        while i < self.weights.len()
            invariant
                i <= self.weights@.len(),
                weights@ == self.weights@.subrange(0, i as int),
            decreases self.weights@.len() - i,
        {
            weights.push(self.weights[i]);
            i += 1;
        }
        assert(weights@ =~= self.weights@);
        Neuron { weights, bias: self.bias, activation: self.activation }
    }

    /// Replaces all the weights.
    pub fn set_weights(&mut self, weights: Vec<S>)
        ensures
            final(self).model() == (NeuronModel { weights: weights@, ..old(self).model() }),
    {
        self.weights = weights;
    }

    /// Adds `change` to the weight at `index`.
    pub fn change_weight(&mut self, index: usize, change: S)
        requires
            index < old(self).model().weights.len(),
        ensures
            final(self).model() == (NeuronModel {
                weights: old(self).model().weights.update(
                    index as int,
                    old(self).model().weights[index as int].spec_plus(change),
                ),
                ..old(self).model()
            }),
    {
        let w = self.weights[index].plus(change);
        self.weights.set(index, w);
    }

    /// The number of inputs this neuron takes.
    pub fn get_weights_len(&self) -> (r: usize)
        ensures
            r == self.model().weights.len(),
    {
        self.weights.len()
    }

    /// Replaces the bias.
    pub fn set_bias(&mut self, bias: S)
        ensures
            final(self).model() == (NeuronModel { bias, ..old(self).model() }),
    {
        self.bias = bias;
    }

    /// Adds `change` to the bias.
    pub fn change_bias(&mut self, change: S)
        ensures
            final(self).model() == (NeuronModel {
                bias: old(self).model().bias.spec_plus(change),
                ..old(self).model()
            }),
    {
        self.bias = self.bias.plus(change);
    }

    /// The neuron's output on `x`: the activation of
    /// `bias + sum(weights[i] * x[i])`.
    pub fn compute(&self, x: &[S]) -> (r: S)
        requires
            x@.len() == self.model().weights.len(),
        ensures
            r == neuron_output(self.model(), x@),
    {
        let mut res = self.bias;
        let mut i: usize = 0;
        while i < self.weights.len()
            invariant
                i <= self.weights@.len(),
                x@.len() == self.weights@.len(),
                res == weighted_sum(self.bias, self.weights@, x@, i as nat),
            decreases self.weights@.len() - i,
        {
            res = res.plus(self.weights[i].times(x[i]));
            i += 1;
        }
        self.activation.apply(res)
    }
}

} // verus!
