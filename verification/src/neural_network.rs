//! The network: its weights, the forward pass, mutation, and the operations
//! on whole populations.

use vstd::prelude::*;
use vstd::std_specs::cmp::PartialEqSpecImpl;
use crate::arithmetic::{product, sum};
use crate::random::{
    draw_between, lemma_perturbation_within_rate, perturbed, unit_point, DRAW_LIMIT,
};
use crate::scalar::Scalar;

verus! {

/// Why an operation on a network was refused.
#[derive(Clone, Copy, Debug, PartialEq, Eq, Structural)]
pub enum NetworkError {
    /// The layer index is not below the number of hidden layers.
    RowOutOfBounds,
    /// The neuron index is not below the width of the addressed layer.
    ColumnOutOfBounds,
    /// There is no hidden layer, the first one is empty, or two hidden
    /// layers differ in width.
    DimensionMismatch,
}

/// What `message` says of each error.
pub open spec fn message_text(error: NetworkError) -> Seq<char> {
    match error {
        NetworkError::RowOutOfBounds => {
            "the layer index is out of bounds"@
        },
        NetworkError::ColumnOutOfBounds => {
            "the neuron index is out of bounds"@
        },
        NetworkError::DimensionMismatch => {
            "the hidden layers must be of one width and not empty"@
        },
    }
}

impl NetworkError {
    /// The error in words.
    pub fn message(&self) -> (text: String)
        ensures
            text@ == message_text(*self),
    {
        match self {
            NetworkError::RowOutOfBounds => {
                "the layer index is out of bounds".to_owned()
            },
            NetworkError::ColumnOutOfBounds => {
                "the neuron index is out of bounds".to_owned()
            },
            NetworkError::DimensionMismatch => {
                "the hidden layers must be of one width and not empty".to_owned()
            },
        }
    }
}

/// The weights of a network as mathematical sequences.
pub struct Weights {
    /// One sequence of weights per hidden layer, one weight per neuron.
    pub hidden: Seq<Seq<Scalar>>,
    /// One weight per output channel.
    pub outputs: Seq<Scalar>,
}

/// A feed-forward network in which every neuron holds a single weight.
#[derive(Debug)]
pub struct NeuralNetwork {
    hidden_layers: Vec<Vec<Scalar>>,
    output_weights: Vec<Scalar>,
}

impl View for NeuralNetwork {
    type V = Weights;

    closed spec fn view(&self) -> Weights {
        Weights { hidden: rows(self.hidden_layers@), outputs: self.output_weights@ }
    }
}

/// The layers of a nested vector, each as a sequence.
pub open spec fn rows(layers: Seq<Vec<Scalar>>) -> Seq<Seq<Scalar>> {
    Seq::new(layers.len(), |i: int| layers[i]@)
}

/// The weights of the network that `new` builds: every weight is `weight`.
pub open spec fn uniform_weights(weight: Scalar, layers: nat, width: nat, outputs: nat) -> Weights {
    Weights {
        hidden: Seq::new(layers, |l: int| Seq::new(width, |n: int| weight)),
        outputs: Seq::new(outputs, |o: int| weight),
    }
}

/// What is wrong with the index `(layer, neuron)`, if anything.
pub open spec fn index_fault(w: Weights, layer: int, neuron: int) -> Option<NetworkError> {
    if !(0 <= layer < w.hidden.len()) {
        Some(NetworkError::RowOutOfBounds)
    } else if !(0 <= neuron < w.hidden[layer].len()) {
        Some(NetworkError::ColumnOutOfBounds)
    } else {
        None
    }
}

/// The weight at `(layer, neuron)`, or the fault of that index.
pub open spec fn weight_at(w: Weights, layer: int, neuron: int) -> Result<Scalar, NetworkError> {
    match index_fault(w, layer, neuron) {
        Some(fault) => Err(fault),
        None => Ok(w.hidden[layer][neuron]),
    }
}

/// The weights with the one at `(layer, neuron)` replaced; unchanged where
/// the index is at fault.
pub open spec fn with_weight(w: Weights, weight: Scalar, layer: int, neuron: int) -> Weights {
    if index_fault(w, layer, neuron) is None {
        Weights {
            hidden: w.hidden.update(layer, w.hidden[layer].update(neuron, weight)),
            outputs: w.outputs,
        }
    } else {
        w
    }
}

/// Whether the forward pass is defined: there is a hidden layer, it is not
/// empty, and all hidden layers have its width.
pub open spec fn runnable(w: Weights) -> bool {
    &&& w.hidden.len() > 0
    &&& w.hidden[0].len() > 0
    &&& forall|l: int| 0 <= l < w.hidden.len() ==> (#[trigger] w.hidden[l]).len() == w.hidden[0].len()
}

/// The sum of `xs`, accumulated from positive zero in the order of the indices.
pub open spec fn total(xs: Seq<Scalar>) -> Scalar
    decreases xs.len(),
{
    if xs.len() == 0 {
        Scalar::zero_value()
    } else {
        sum(total(xs.drop_last()), xs.last())
    }
}

/// What the neurons of `layer` give out when `incoming` is the sum of all
/// that enters the layer: each its own weight times that sum.
pub open spec fn fired(layer: Seq<Scalar>, incoming: Scalar) -> Seq<Scalar> {
    Seq::new(layer.len(), |k: int| product(layer[k], incoming))
}

/// What enters hidden layer `index`: the sum of the inputs for the first
/// layer, the sum of the previous layer's activations for the others.
pub open spec fn incoming(hidden: Seq<Seq<Scalar>>, inputs: Seq<Scalar>, index: nat) -> Scalar
    decreases index,
{
    if index == 0 {
        total(inputs)
    } else {
        total(fired(hidden[index - 1], incoming(hidden, inputs, (index - 1) as nat)))
    }
}

/// The output of the network on `inputs`: the output weights fired by the
/// sum of the last hidden layer's activations.
pub open spec fn forward(w: Weights, inputs: Seq<Scalar>) -> Seq<Scalar> {
    fired(w.outputs, incoming(w.hidden, inputs, w.hidden.len()))
}

/// Whether every network of a population is runnable.
pub open spec fn all_runnable(networks: Seq<NeuralNetwork>) -> bool {
    forall|i: int| 0 <= i < networks.len() ==> runnable(#[trigger] networks[i]@)
}

/// The weights made of the given hidden layers and output weights.
pub open spec fn assembled(hidden: Seq<Seq<Scalar>>, outputs: Seq<Scalar>) -> Weights {
    Weights { hidden, outputs }
}

/// `after` is `before` moved by the mutation rate times some draw.
pub open spec fn nudged(before: Scalar, after: Scalar, rate: Scalar) -> bool {
    exists|draw: u64| draw <= DRAW_LIMIT && after == perturbed(before, rate, draw)
}

/// `after` holds the weights of `before`, each moved by a draw of its own.
pub open spec fn nudged_all(before: Seq<Scalar>, after: Seq<Scalar>, rate: Scalar) -> bool {
    &&& after.len() == before.len()
    &&& forall|k: int| 0 <= k < before.len() ==> nudged(before[k], #[trigger] after[k], rate)
}

/// `after` is a mutation of `before`: the shape is kept, every hidden weight
/// is moved by a draw of its own, and so is every output weight if
/// `outputs` is set; otherwise the output weights are kept.
pub open spec fn mutated(before: Weights, after: Weights, rate: Scalar, outputs: bool) -> bool {
    &&& after.hidden.len() == before.hidden.len()
    &&& forall|l: int|
        0 <= l < before.hidden.len() ==> nudged_all(before.hidden[l], #[trigger] after.hidden[l], rate)
    &&& if outputs {
        nudged_all(before.outputs, after.outputs, rate)
    } else {
        after.outputs == before.outputs
    }
}

impl NeuralNetwork {
    /// A network of `hidden_layers` layers of `hidden_neurons_per_layer`
    /// neurons and `outputs` output channels, every weight `default_wheight`.
    ///
    /// Zero layers or zero neurons are accepted here; `run` then reports
    /// `DimensionMismatch`.
    pub fn new(
        default_wheight: Scalar,
        hidden_layers: usize,
        hidden_neurons_per_layer: usize,
        outputs: usize,
    ) -> (network: NeuralNetwork)
        ensures
            network@ == uniform_weights(
                default_wheight,
                hidden_layers as nat,
                hidden_neurons_per_layer as nat,
                outputs as nat,
            ),
    {
        let mut layers: Vec<Vec<Scalar>> = Vec::new();
        let mut l: usize = 0;
        while l < hidden_layers
            invariant
                l <= hidden_layers,
                layers.len() == l,
                forall|i: int|
                    0 <= i < l ==> (#[trigger] layers[i])@ == Seq::new(
                        hidden_neurons_per_layer as nat,
                        |n: int| default_wheight,
                    ),
            decreases hidden_layers - l,
        {
            layers.push(filled(default_wheight, hidden_neurons_per_layer));
            l = l + 1;
        }
        assert(rows(layers@) =~= uniform_weights(
            default_wheight,
            hidden_layers as nat,
            hidden_neurons_per_layer as nat,
            outputs as nat,
        ).hidden);
        NeuralNetwork { hidden_layers: layers, output_weights: filled(default_wheight, outputs) }
    }

    /// A network with the given weights. The layers may differ in width;
    /// `run` then reports `DimensionMismatch`.
    pub fn new_from(
        hidden_layers: Vec<Vec<Scalar>>,
        output_weights: Vec<Scalar>,
    ) -> (network: NeuralNetwork)
        ensures
            network@ == assembled(rows(hidden_layers@), output_weights@),
    {
        NeuralNetwork { hidden_layers, output_weights }
    }

    /// Whether `run` is defined on this network.
    pub fn is_runnable(&self) -> (b: bool)
        ensures
            b == runnable(self@),
    {
        if self.hidden_layers.len() == 0 {
            return false;
        }
        let width: usize = self.hidden_layers[0].len();
        if width == 0 {
            return false;
        }
        let mut l: usize = 1;
        while l < self.hidden_layers.len()
            invariant
                1 <= l <= self.hidden_layers.len(),
                width == self.hidden_layers[0].len(),
                width > 0,
                forall|i: int| 0 <= i < l ==> (#[trigger] self@.hidden[i]).len() == width,
            decreases self.hidden_layers.len() - l,
        {
            if self.hidden_layers[l].len() != width {
                assert(self@.hidden[l as int].len() != self@.hidden[0].len());
                return false;
            }
            l = l + 1;
        }
        true
    }

    /// Evaluates the network on `inputs`.
    ///
    /// Each neuron gives out its weight times the sum of all that enters its
    /// layer. A network without a hidden layer, with an empty first layer or
    /// with layers of unequal width is refused with `DimensionMismatch`.
    pub fn run(&self, inputs: &Vec<Scalar>) -> (r: Result<Vec<Scalar>, NetworkError>)
        ensures
            runnable(self@) ==> (r matches Ok(out) && out@ == forward(self@, inputs@)),
            !runnable(self@) ==> r == Err::<Vec<Scalar>, NetworkError>(
                NetworkError::DimensionMismatch,
            ),
    {
        if !self.is_runnable() {
            return Err(NetworkError::DimensionMismatch);
        }
        let mut entering: Scalar = sum_of(inputs);
        let mut l: usize = 0;
        while l < self.hidden_layers.len()
            invariant
                l <= self.hidden_layers.len(),
                entering == incoming(self@.hidden, inputs@, l as nat),
            decreases self.hidden_layers.len() - l,
        {
            let activations: Vec<Scalar> = fire(&self.hidden_layers[l], entering);
            entering = sum_of(&activations);
            l = l + 1;
        }
        Ok(fire(&self.output_weights, entering))
    }

    /// Replaces the weight of the neuron at `(layer, neuron)`.
    ///
    /// Returns `None` when the weight was set. An index outside the network
    /// leaves every weight as it was and names the axis that was at fault:
    /// the layer index is held against the number of layers, the neuron
    /// index against the width of the addressed layer.
    pub fn set_wheight(
        &mut self,
        wheight: Scalar,
        neuron: (usize, usize),
    ) -> (fault: Option<NetworkError>)
        ensures
            fault == index_fault(old(self)@, neuron.0 as int, neuron.1 as int),
            final(self)@ == with_weight(old(self)@, wheight, neuron.0 as int, neuron.1 as int),
    {
        if neuron.0 < self.hidden_layers.len() {
            if neuron.1 < self.hidden_layers[neuron.0].len() {
                self.hidden_layers[neuron.0][neuron.1] = wheight;
                assert(self@.hidden =~= old(self)@.hidden.update(
                    neuron.0 as int,
                    old(self)@.hidden[neuron.0 as int].update(neuron.1 as int, wheight),
                ));
                None
            } else {
                Some(NetworkError::ColumnOutOfBounds)
            }
        } else {
            Some(NetworkError::RowOutOfBounds)
        }
    }

    /// The weight of the neuron at `(layer, neuron)`, or the axis on which
    /// the index lies outside the network.
    pub fn get_wheight(&self, neuron: (usize, usize)) -> (r: Result<Scalar, NetworkError>)
        ensures
            r == weight_at(self@, neuron.0 as int, neuron.1 as int),
    {
        if neuron.0 < self.hidden_layers.len() {
            if neuron.1 < self.hidden_layers[neuron.0].len() {
                Ok(self.hidden_layers[neuron.0][neuron.1])
            } else {
                Err(NetworkError::ColumnOutOfBounds)
            }
        } else {
            Err(NetworkError::RowOutOfBounds)
        }
    }

    /// Moves every hidden weight by the mutation rate times a point drawn
    /// uniformly from `[-1, 1]`, independently for each weight; with
    /// `outputs` set, every output weight too.
    ///
    /// A negative rate is taken as it is: the points lie symmetrically about
    /// zero, so it moves the weights over the same interval as its absolute
    /// value. Under a rate that is infinite or a NaN the weights become
    /// infinite or NaN.
    pub fn mutate(&mut self, mutation_rate: Scalar, outputs: bool)
        ensures
            mutated(old(self)@, final(self)@, mutation_rate, outputs),
    {
        let mut rng: rand::rngs::ThreadRng = rand::thread_rng();
        let mut l: usize = 0;
        while l < self.hidden_layers.len()
            invariant
                l <= self.hidden_layers.len(),
                self.hidden_layers.len() == old(self).hidden_layers.len(),
                self.output_weights@ == old(self).output_weights@,
                forall|i: int|
                    0 <= i < l ==> nudged_all(
                        old(self).hidden_layers[i]@,
                        (#[trigger] self.hidden_layers[i])@,
                        mutation_rate,
                    ),
                forall|i: int|
                    l <= i < self.hidden_layers.len() ==> (#[trigger] self.hidden_layers[i])@
                        == old(self).hidden_layers[i]@,
            decreases self.hidden_layers.len() - l,
        {
            nudge_all(&mut self.hidden_layers[l], mutation_rate, &mut rng);
            l = l + 1;
        }
        if outputs {
            nudge_all(&mut self.output_weights, mutation_rate, &mut rng);
        }
    }

    /// `amount` networks, each built as `new` builds one.
    pub fn batch_new(
        amount: usize,
        default_wheight: Scalar,
        hidden_layers: usize,
        hidden_neurons_per_layer: usize,
        outputs: usize,
    ) -> (networks: Vec<NeuralNetwork>)
        ensures
            networks.len() == amount,
            forall|i: int|
                0 <= i < amount ==> (#[trigger] networks[i])@ == uniform_weights(
                    default_wheight,
                    hidden_layers as nat,
                    hidden_neurons_per_layer as nat,
                    outputs as nat,
                ),
    {
        let mut networks: Vec<NeuralNetwork> = Vec::new();
        let mut i: usize = 0;
        while i < amount
            invariant
                i <= amount,
                networks.len() == i,
                forall|k: int|
                    0 <= k < i ==> (#[trigger] networks[k])@ == uniform_weights(
                        default_wheight,
                        hidden_layers as nat,
                        hidden_neurons_per_layer as nat,
                        outputs as nat,
                    ),
            decreases amount - i,
        {
            networks.push(
                NeuralNetwork::new(default_wheight, hidden_layers, hidden_neurons_per_layer, outputs),
            );
            i = i + 1;
        }
        networks
    }

    /// A copy of the hidden weights, layer by layer.
    pub fn get_weights(&self) -> (weights: Vec<Vec<Scalar>>)
        ensures
            rows(weights@) == self@.hidden,
    {
        let mut weights: Vec<Vec<Scalar>> = Vec::with_capacity(self.hidden_layers.len());
        let mut l: usize = 0;
        while l < self.hidden_layers.len()
            invariant
                l <= self.hidden_layers.len(),
                weights.len() == l,
                forall|i: int| 0 <= i < l ==> (#[trigger] weights[i])@ == self.hidden_layers[i]@,
            decreases self.hidden_layers.len() - l,
        {
            weights.push(copy_of(&self.hidden_layers[l]));
            l = l + 1;
        }
        assert(rows(weights@) =~= self@.hidden);
        weights
    }

    /// A copy of the output weights.
    pub fn get_output_weights(&self) -> (weights: Vec<Scalar>)
        ensures
            weights@ == self@.outputs,
    {
        copy_of(&self.output_weights)
    }
}

/// The outputs of every network of `networks` on `inputs`, in their order.
///
/// The networks are evaluated independently. If one of them is not
/// runnable, nothing is returned but `DimensionMismatch`.
pub fn batch_run(
    networks: &Vec<NeuralNetwork>,
    inputs: &Vec<Scalar>,
) -> (r: Result<Vec<Vec<Scalar>>, NetworkError>)
    ensures
        all_runnable(networks@) ==> (r matches Ok(outs) && outs.len() == networks.len()
            && forall|i: int|
            0 <= i < networks.len() ==> (#[trigger] outs[i])@ == forward(networks[i]@, inputs@)),
        !all_runnable(networks@) ==> r == Err::<Vec<Vec<Scalar>>, NetworkError>(
            NetworkError::DimensionMismatch,
        ),
{
    let mut outs: Vec<Vec<Scalar>> = Vec::with_capacity(networks.len());
    let mut i: usize = 0;
    while i < networks.len()
        invariant
            i <= networks.len(),
            outs.len() == i,
            forall|k: int| 0 <= k < i ==> runnable(#[trigger] networks[k]@),
            forall|k: int|
                0 <= k < i ==> (#[trigger] outs[k])@ == forward(networks[k]@, inputs@),
        decreases networks.len() - i,
    {
        let result: Result<Vec<Scalar>, NetworkError> = networks[i].run(inputs);
        match result {
            Ok(out) => {
                outs.push(out);
            },
            Err(fault) => {
                return Err(fault);
            },
        }
        i = i + 1;
    }
    Ok(outs)
}

/// `amount` networks, all mutations of `network`, each with draws of its own.
pub fn batch_mutate(
    amount: usize,
    mutation_rate: Scalar,
    network: &NeuralNetwork,
    outputs: bool,
) -> (networks: Vec<NeuralNetwork>)
    ensures
        networks.len() == amount,
        forall|i: int|
            0 <= i < amount ==> mutated(network@, (#[trigger] networks[i])@, mutation_rate, outputs),
{
    let mut networks: Vec<NeuralNetwork> = Vec::new();
    let mut i: usize = 0;
    while i < amount
        invariant
            i <= amount,
            networks.len() == i,
            forall|k: int|
                0 <= k < i ==> mutated(network@, (#[trigger] networks[k])@, mutation_rate, outputs),
        decreases amount - i,
    {
        let mut child: NeuralNetwork = network.clone();
        child.mutate(mutation_rate, outputs);
        networks.push(child);
        i = i + 1;
    }
    networks
}

/// The sum of `xs`, accumulated from positive zero in the order of the indices.
pub fn sum_of(xs: &Vec<Scalar>) -> (s: Scalar)
    ensures
        s == total(xs@),
{
    let mut s: Scalar = Scalar::zero();
    let mut i: usize = 0;
    while i < xs.len()
        invariant
            i <= xs.len(),
            s == total(xs@.take(i as int)),
        decreases xs.len() - i,
    {
        assert(xs@.take(i + 1).drop_last() == xs@.take(i as int));
        s = s.plus(xs[i]);
        i = i + 1;
    }
    assert(xs@.take(i as int) == xs@);
    s
}

/// Each weight of `layer` times `incoming`.
pub fn fire(layer: &Vec<Scalar>, incoming: Scalar) -> (out: Vec<Scalar>)
    ensures
        out@ == fired(layer@, incoming),
{
    let mut out: Vec<Scalar> = Vec::with_capacity(layer.len());
    let mut k: usize = 0;
    while k < layer.len()
        invariant
            k <= layer.len(),
            out@ == fired(layer@.take(k as int), incoming),
        decreases layer.len() - k,
    {
        out.push(layer[k].times(incoming));
        k = k + 1;
        assert(out@ =~= fired(layer@.take(k as int), incoming));
    }
    assert(layer@.take(k as int) == layer@);
    out
}

impl Clone for NeuralNetwork {
    /// A network with the same weights, sharing no storage with this one.
    fn clone(&self) -> (copy: NeuralNetwork)
        ensures
            copy@ == self@,
    {
        NeuralNetwork::new_from(self.get_weights(), self.get_output_weights())
    }
}

impl PartialEq for NeuralNetwork {
    /// Whether the two networks hold the same bit patterns in the same
    /// places. A NaN weight equals itself; the two zeros differ.
    fn eq(&self, other: &NeuralNetwork) -> (same: bool) {
        if self.hidden_layers.len() != other.hidden_layers.len() {
            assert(self@.hidden.len() != other@.hidden.len());
            return false;
        }
        let mut l: usize = 0;
        while l < self.hidden_layers.len()
            invariant
                l <= self.hidden_layers.len(),
                self.hidden_layers.len() == other.hidden_layers.len(),
                forall|i: int|
                    0 <= i < l ==> (#[trigger] self.hidden_layers[i])@ == other.hidden_layers[i]@,
            decreases self.hidden_layers.len() - l,
        {
            if !same_scalars(&self.hidden_layers[l], &other.hidden_layers[l]) {
                assert(self@.hidden[l as int] != other@.hidden[l as int]);
                return false;
            }
            l = l + 1;
        }
        assert(self@.hidden =~= other@.hidden);
        same_scalars(&self.output_weights, &other.output_weights)
    }
}

impl PartialEqSpecImpl for NeuralNetwork {
    open spec fn obeys_eq_spec() -> bool {
        true
    }

    open spec fn eq_spec(&self, other: &NeuralNetwork) -> bool {
        self@ == other@
    }
}

/// A vector of `count` copies of `value`.
fn filled(value: Scalar, count: usize) -> (v: Vec<Scalar>)
    ensures
        v@ == Seq::new(count as nat, |i: int| value),
{
    let mut v: Vec<Scalar> = Vec::new();
    let mut i: usize = 0;
    while i < count
        invariant
            i <= count,
            v@ == Seq::new(i as nat, |k: int| value),
        decreases count - i,
    {
        v.push(value);
        i = i + 1;
        assert(v@ =~= Seq::new(i as nat, |k: int| value));
    }
    v
}

/// A copy of `xs`.
fn copy_of(xs: &Vec<Scalar>) -> (v: Vec<Scalar>)
    ensures
        v@ == xs@,
{
    let mut v: Vec<Scalar> = Vec::with_capacity(xs.len());
    let mut i: usize = 0;
    while i < xs.len()
        invariant
            i <= xs.len(),
            v@ == xs@.take(i as int),
        decreases xs.len() - i,
    {
        v.push(xs[i]);
        i = i + 1;
        assert(v@ =~= xs@.take(i as int));
    }
    assert(xs@.take(i as int) == xs@);
    v
}

/// Whether `a` and `b` hold the same bit patterns in the same places.
fn same_scalars(a: &Vec<Scalar>, b: &Vec<Scalar>) -> (same: bool)
    ensures
        same == (a@ == b@),
{
    if a.len() != b.len() {
        return false;
    }
    let mut i: usize = 0;
    while i < a.len()
        invariant
            i <= a.len(),
            a.len() == b.len(),
            forall|k: int| 0 <= k < i ==> a[k] == b[k],
        decreases a.len() - i,
    {
        if a[i] != b[i] {
            return false;
        }
        i = i + 1;
    }
    assert(a@ =~= b@);
    true
}

/// Moves every weight of `weights` by a draw of its own.
fn nudge_all(weights: &mut Vec<Scalar>, rate: Scalar, rng: &mut rand::rngs::ThreadRng)
    ensures
        nudged_all(old(weights)@, final(weights)@, rate),
{
    let mut k: usize = 0;
    while k < weights.len()
        invariant
            k <= weights.len(),
            weights.len() == old(weights).len(),
            forall|i: int| 0 <= i < k ==> nudged(old(weights)[i], #[trigger] weights[i], rate),
            forall|i: int| k <= i < weights.len() ==> weights[i] == old(weights)[i],
        decreases weights.len() - k,
    {
        let draw: u64 = draw_between(rng, 0, DRAW_LIMIT);
        let moved: Scalar = weights[k].perturb(rate, draw);
        weights[k] = moved;
        k = k + 1;
    }
}

/// Every neuron of a network built with one default weight holds that weight.
pub proof fn lemma_uniform_weight_at(
    weight: Scalar,
    layers: nat,
    width: nat,
    outputs: nat,
    layer: int,
    neuron: int,
)
    requires
        0 <= layer < layers,
        0 <= neuron < width,
    ensures
        weight_at(uniform_weights(weight, layers, width, outputs), layer, neuron) == Ok::<
            Scalar,
            NetworkError,
        >(weight),
{
}

/// A network built with one default weight is runnable exactly when it has
/// a layer and a neuron: the failure of a degenerate network is put off
/// from construction to the first run.
pub proof fn lemma_uniform_runnable(weight: Scalar, layers: nat, width: nat, outputs: nat)
    ensures
        runnable(uniform_weights(weight, layers, width, outputs)) <==> layers > 0 && width > 0,
{
}

/// A weight that was set at a valid index is the weight read there, and
/// every other weight reads as before; an index at fault changes nothing.
pub proof fn lemma_set_then_get(w: Weights, weight: Scalar, layer: int, neuron: int)
    ensures
        index_fault(w, layer, neuron) is None ==> weight_at(
            with_weight(w, weight, layer, neuron),
            layer,
            neuron,
        ) == Ok::<Scalar, NetworkError>(weight),
        index_fault(w, layer, neuron) is Some ==> with_weight(w, weight, layer, neuron) == w,
        with_weight(w, weight, layer, neuron).outputs == w.outputs,
        forall|l: int, n: int|
            (l != layer || n != neuron) ==> #[trigger] weight_at(
                with_weight(w, weight, layer, neuron),
                l,
                n,
            ) == weight_at(w, l, n),
{
}

/// Setting a weight keeps the shape of the network, and with it whether
/// the network is runnable.
pub proof fn lemma_set_keeps_shape(w: Weights, weight: Scalar, layer: int, neuron: int)
    ensures
        runnable(with_weight(w, weight, layer, neuron)) == runnable(w),
{
    let after = with_weight(w, weight, layer, neuron);
    if index_fault(w, layer, neuron) is None {
        assert forall|l: int| 0 <= l < w.hidden.len() implies (#[trigger] after.hidden[l]).len()
            == w.hidden[l].len() by {}
        if runnable(w) {
            assert(runnable(after));
        }
        if runnable(after) {
            assert forall|l: int| 0 <= l < w.hidden.len() implies (#[trigger] w.hidden[l]).len()
                == w.hidden[0].len() by {
                assert(after.hidden[l].len() == after.hidden[0].len());
            }
        }
    }
}

/// The copies that a network hands out of its weights hold all of it: a
/// network rebuilt from them has the same weights, is runnable if and only
/// if the first is, and gives the same output on every input.
pub proof fn lemma_rebuilt_from_copies(w: Weights, inputs: Seq<Scalar>)
    ensures
        assembled(w.hidden, w.outputs) == w,
        runnable(assembled(w.hidden, w.outputs)) == runnable(w),
        forward(assembled(w.hidden, w.outputs), inputs) == forward(w, inputs),
{
}

/// The forward pass gives one value for each output channel.
pub proof fn lemma_forward_length(w: Weights, inputs: Seq<Scalar>)
    ensures
        forward(w, inputs).len() == w.outputs.len(),
{
}

/// A weight moved under a finite rate is the old weight plus a number
/// between minus the rate and the rate.
pub proof fn lemma_nudged_within_rate(before: Scalar, after: Scalar, rate: Scalar)
    requires
        rate.finite(),
        nudged(before, after, rate),
    ensures
        exists|step: Scalar|
            #![trigger sum(before, step)]
            step.finite() && step.magnitude() <= rate.magnitude() && after == sum(before, step),
{
    let draw = choose|draw: u64| draw <= DRAW_LIMIT && after == perturbed(before, rate, draw);
    lemma_perturbation_within_rate(rate, draw);
    let step = product(rate, unit_point(draw));
    assert(after == sum(before, step));
}

/// A mutation keeps the shape of the network: the number of layers, the
/// width of each and the number of outputs, and with them whether the
/// network is runnable.
pub proof fn lemma_mutation_keeps_shape(before: Weights, after: Weights, rate: Scalar, outputs: bool)
    requires
        mutated(before, after, rate, outputs),
    ensures
        after.hidden.len() == before.hidden.len(),
        forall|l: int|
            0 <= l < before.hidden.len() ==> (#[trigger] after.hidden[l]).len()
                == before.hidden[l].len(),
        after.outputs.len() == before.outputs.len(),
        runnable(after) == runnable(before),
{
    assert forall|l: int| 0 <= l < before.hidden.len() implies (#[trigger] after.hidden[l]).len()
        == before.hidden[l].len() by {
        assert(nudged_all(before.hidden[l], after.hidden[l], rate));
    }
    if runnable(before) {
        assert(runnable(after));
    }
    if runnable(after) {
        assert forall|l: int| 0 <= l < before.hidden.len() implies (#[trigger] before.hidden[l]).len()
            == before.hidden[0].len() by {
            assert(after.hidden[l].len() == after.hidden[0].len());
        }
    }
}

} // verus!
