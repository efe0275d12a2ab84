//! A fully connected feed-forward neural network: per-layer weight and bias
//! matrices, forward evaluation through affine + ReLU layers, summed
//! squared-error loss, and an in-place gradient-descent backward pass. The
//! whole computation is specified by recurrences over the matrix model.

use crate::matrix::{
    add_fits, fits_i64, is_grid, madd, mmul, mpointwise, mrelu, mrelu_deriv, mscalar, msub,
    mtranspose, mul_fits, pointwise_fits, scalar_fits, scale_down, sub_fits, Matrix,
};
use vstd::prelude::*;

verus! {

/// One layer of the forward pass: ReLU of the affine map `w * n + b`.
pub open spec fn layer_next(
    w: Seq<Seq<int>>,
    b: Seq<Seq<int>>,
    n: Seq<Seq<int>>,
) -> Seq<Seq<int>> {
    mrelu(madd(mmul(w, n), b))
}

/// The activations of layer `k`, starting from `input` at layer zero and
/// applying one affine + ReLU step per layer.
pub open spec fn forward_layers(
    ws: Seq<Seq<Seq<int>>>,
    bs: Seq<Seq<Seq<int>>>,
    input: Seq<Seq<int>>,
    k: int,
) -> Seq<Seq<int>>
    decreases k,
{
    if k <= 0 {
        input
    } else {
        layer_next(ws[k - 1], bs[k - 1], forward_layers(ws, bs, input, k - 1))
    }
}

/// Every intermediate value of the first `l` forward steps fits in an `i64`.
pub open spec fn forward_fits(
    ws: Seq<Seq<Seq<int>>>,
    bs: Seq<Seq<Seq<int>>>,
    input: Seq<Seq<int>>,
    l: int,
) -> bool {
    forall|k: int|
        0 <= k < l ==> mul_fits(ws[k], #[trigger] forward_layers(ws, bs, input, k)) && add_fits(
            mmul(ws[k], forward_layers(ws, bs, input, k)),
            bs[k],
        )
}

/// Summed squared error over the first `n` rows of the output column `o`
/// against the target column `t`.
pub open spec fn loss_sum(o: Seq<Seq<int>>, t: Seq<Seq<int>>, n: int) -> int
    decreases n,
{
    if n <= 0 {
        0
    } else {
        loss_sum(o, t, n - 1) + scale_down((o[n - 1][0] - t[n - 1][0]) * (o[n - 1][0] - t[n - 1][0]))
    }
}

/// Every intermediate value of the loss computation over the first `n` rows
/// fits in an `i64`.
pub open spec fn loss_fits(o: Seq<Seq<int>>, t: Seq<Seq<int>>, n: int) -> bool {
    &&& forall|y: int|
        0 <= y < n ==> fits_i64((#[trigger] o[y])[0] - t[y][0]) && fits_i64(
            (o[y][0] - t[y][0]) * (o[y][0] - t[y][0]),
        )
    &&& forall|m: int| 0 <= m <= n ==> fits_i64(#[trigger] loss_sum(o, t, m))
}

/// The exact derivative of the summed squared-error loss with respect to the
/// output column: row `y` holds `2 * (o[y] - t[y])`.
pub open spec fn mloss_deriv(o: Seq<Seq<int>>, t: Seq<Seq<int>>) -> Seq<Seq<int>> {
    Seq::new(o.len(), |y: int| Seq::new(1, |z: int| 2 * (o[y][0] - t[y][0])))
}

/// Every intermediate value of the loss derivative fits in an `i64`.
pub open spec fn loss_deriv_fits(o: Seq<Seq<int>>, t: Seq<Seq<int>>) -> bool {
    forall|y: int|
        0 <= y < o.len() ==> fits_i64((#[trigger] o[y])[0] - t[y][0]) && fits_i64(
            2 * (o[y][0] - t[y][0]),
        )
}

/// The shape discipline of a network: layer `i` holds a column vector of
/// `ns[i].len()` activations, `ws[i]` maps layer `i` to layer `i + 1`, and
/// `bs[i]` is a column vector for layer `i + 1`.
pub open spec fn shapes_ok(ns: Seq<Seq<Seq<int>>>, ws: Seq<Seq<Seq<int>>>, bs: Seq<Seq<Seq<int>>>) -> bool {
    let l = ns.len() as int;
    &&& l >= 1
    &&& ws.len() == l - 1
    &&& bs.len() == l - 1
    &&& forall|i: int|
        0 <= i < l ==> is_grid(#[trigger] ns[i], ns[i].len() as int, 1) && ns[i].len() > 0
    &&& forall|i: int|
        0 <= i < l - 1 ==> is_grid(#[trigger] ws[i], ns[i + 1].len() as int, ns[i].len() as int)
    &&& forall|i: int| 0 <= i < l - 1 ==> is_grid(#[trigger] bs[i], ns[i + 1].len() as int, 1)
}

/// The backward error signal entering layer `k`, before gating by the ReLU
/// subgradient: at the output layer it is the loss derivative; at an inner
/// layer it is the masked signal of layer `k + 1` propagated back through
/// `ws[k]`, written `((d_(k+1))^T * ws[k])^T`.
pub open spec fn bp_delta_in(
    ns: Seq<Seq<Seq<int>>>,
    ws: Seq<Seq<Seq<int>>>,
    t: Seq<Seq<int>>,
    k: int,
) -> Seq<Seq<int>>
    decreases ns.len() - k,
{
    let l = ns.len() as int;
    if k >= l - 1 {
        mloss_deriv(ns[l - 1], t)
    } else {
        mtranspose(
            mmul(
                mtranspose(mpointwise(bp_delta_in(ns, ws, t, k + 1), mrelu_deriv(ns[k + 1]))),
                ws[k],
            ),
        )
    }
}

/// The error signal at layer `k` after gating by the ReLU subgradient of the
/// stored activations of layer `k`: the chain rule through the activation.
pub open spec fn bp_masked(
    ns: Seq<Seq<Seq<int>>>,
    ws: Seq<Seq<Seq<int>>>,
    t: Seq<Seq<int>>,
    k: int,
) -> Seq<Seq<int>> {
    mpointwise(bp_delta_in(ns, ws, t, k), mrelu_deriv(ns[k]))
}

/// The loss gradient with respect to `ws[j]`: the outer product of the
/// masked signal of layer `j + 1` with the activations of layer `j`.
pub open spec fn bp_weight_grad(
    ns: Seq<Seq<Seq<int>>>,
    ws: Seq<Seq<Seq<int>>>,
    t: Seq<Seq<int>>,
    j: int,
) -> Seq<Seq<int>> {
    mmul(bp_masked(ns, ws, t, j + 1), mtranspose(ns[j]))
}

/// The weights of layer `j` after one gradient-descent step of rate `alpha`.
pub open spec fn bp_new_weight(
    ns: Seq<Seq<Seq<int>>>,
    ws: Seq<Seq<Seq<int>>>,
    t: Seq<Seq<int>>,
    alpha: int,
    j: int,
) -> Seq<Seq<int>> {
    msub(ws[j], mscalar(alpha, bp_weight_grad(ns, ws, t, j)))
}

/// The biases of layer `j` after one gradient-descent step of rate `alpha`;
/// the bias gradient is the masked signal of layer `j + 1` itself.
pub open spec fn bp_new_bias(
    ns: Seq<Seq<Seq<int>>>,
    ws: Seq<Seq<Seq<int>>>,
    bs: Seq<Seq<Seq<int>>>,
    t: Seq<Seq<int>>,
    alpha: int,
    j: int,
) -> Seq<Seq<int>> {
    msub(bs[j], mscalar(alpha, bp_masked(ns, ws, t, j + 1)))
}

/// Every intermediate value of the backward step that updates `ws[k - 1]`
/// and `bs[k - 1]` fits in an `i64`.
pub open spec fn backward_step_fits(
    ns: Seq<Seq<Seq<int>>>,
    ws: Seq<Seq<Seq<int>>>,
    bs: Seq<Seq<Seq<int>>>,
    t: Seq<Seq<int>>,
    alpha: int,
    k: int,
) -> bool {
    let din = bp_delta_in(ns, ws, t, k);
    let dm = bp_masked(ns, ws, t, k);
    &&& pointwise_fits(din, mrelu_deriv(ns[k]))
    &&& mul_fits(dm, mtranspose(ns[k - 1]))
    &&& mul_fits(mtranspose(dm), ws[k - 1])
    &&& scalar_fits(alpha, mmul(dm, mtranspose(ns[k - 1])))
    &&& sub_fits(ws[k - 1], mscalar(alpha, mmul(dm, mtranspose(ns[k - 1]))))
    &&& scalar_fits(alpha, dm)
    &&& sub_fits(bs[k - 1], mscalar(alpha, dm))
}

/// Every intermediate value of a whole backward pass fits in an `i64`.
pub open spec fn backward_fits(
    ns: Seq<Seq<Seq<int>>>,
    ws: Seq<Seq<Seq<int>>>,
    bs: Seq<Seq<Seq<int>>>,
    t: Seq<Seq<int>>,
    alpha: int,
) -> bool {
    &&& loss_deriv_fits(ns[ns.len() - 1], t)
    &&& forall|k: int|
        1 <= k < ns.len() ==> #[trigger] backward_step_fits(ns, ws, bs, t, alpha, k)
}

/// The backward signals have the shape of the layer they belong to: at layer
/// `k`, both the entering and the masked signal are column vectors of
/// `ns[k].len()` rows.
pub proof fn lemma_bp_shapes(
    ns: Seq<Seq<Seq<int>>>,
    ws: Seq<Seq<Seq<int>>>,
    bs: Seq<Seq<Seq<int>>>,
    t: Seq<Seq<int>>,
    k: int,
)
    requires
        shapes_ok(ns, ws, bs),
        1 <= k <= ns.len() - 1,
    ensures
        is_grid(bp_delta_in(ns, ws, t, k), ns[k].len() as int, 1),
        is_grid(bp_masked(ns, ws, t, k), ns[k].len() as int, 1),
    decreases ns.len() - k,
{
    let l = ns.len() as int;
    assert(is_grid(ns[k], ns[k].len() as int, 1) && ns[k].len() > 0);
    if k == l - 1 {
        assert(is_grid(bp_delta_in(ns, ws, t, k), ns[k].len() as int, 1));
    } else {
        lemma_bp_shapes(ns, ws, bs, t, k + 1);
        let dm = bp_masked(ns, ws, t, k + 1);
        let dmt = mtranspose(dm);
        assert(is_grid(dmt, 1, ns[k + 1].len() as int));
        assert(is_grid(ws[k], ns[k + 1].len() as int, ns[k].len() as int));
        let prop = mmul(dmt, ws[k]);
        assert(is_grid(prop, 1, ns[k].len() as int)) by {
            assert(ns[k + 1].len() > 0);
            assert(ws[k][0].len() == ns[k].len());
        }
        assert(is_grid(bp_delta_in(ns, ws, t, k), ns[k].len() as int, 1));
    }
}

/// The greatest value among the first `n` entries of the column `g`, seeded
/// with the sentinel `-SCALE` (the value minus one).
pub open spec fn scan_max_val(g: Seq<Seq<int>>, n: int) -> int
    decreases n,
{
    if n <= 0 {
        -(crate::matrix::SCALE as int)
    } else if g[n - 1][0] > scan_max_val(g, n - 1) {
        g[n - 1][0]
    } else {
        scan_max_val(g, n - 1)
    }
}

/// The index of the first entry of the column `g` that holds its greatest
/// value, provided some entry exceeds the sentinel `-SCALE`; zero otherwise.
pub open spec fn scan_max_idx(g: Seq<Seq<int>>, n: int) -> int
    decreases n,
{
    if n <= 0 {
        0
    } else if g[n - 1][0] > scan_max_val(g, n - 1) {
        n - 1
    } else {
        scan_max_idx(g, n - 1)
    }
}

/// The index of the last entry of the column `g` that is exactly one
/// (`SCALE` in raw units); zero if there is none.
pub open spec fn scan_one_idx(g: Seq<Seq<int>>, n: int) -> int
    decreases n,
{
    if n <= 0 {
        0
    } else if g[n - 1][0] == crate::matrix::SCALE {
        n - 1
    } else {
        scan_one_idx(g, n - 1)
    }
}

/// Whether the network's answer agrees with the label: the index of the
/// first maximal entry of `network_output` equals the index of the entry of
/// `real_output` that is exactly one (for a one-hot label, its hot index).
#[verifier::loop_isolation(false)]
pub fn is_correct(real_output: &Matrix, network_output: &Matrix) -> (r: bool)
    requires
        real_output.wf(),
        network_output.wf(),
        real_output@.len() == network_output@.len(),
    ensures
        r == (scan_max_idx(network_output@, network_output@.len() as int) == scan_one_idx(
            real_output@,
            real_output@.len() as int,
        )),
{
    proof {
        real_output.lemma_shape();
        network_output.lemma_shape();
    }
    let rows = network_output.get_rows();
    let mut max: i64 = -crate::matrix::SCALE;
    let mut max_y: usize = 0;
    let mut actual_y: usize = 0;
    let mut y: usize = 0;
    while y < rows
        invariant
            y <= rows,
            max as int == scan_max_val(network_output@, y as int),
            max_y as int == scan_max_idx(network_output@, y as int),
            actual_y as int == scan_one_idx(real_output@, y as int),
        decreases rows - y,
    {
        let value = network_output.get(y, 0);
        if value > max {
            max = value;
            max_y = y;
        }
        if real_output.get(y, 0) == crate::matrix::SCALE {
            actual_y = y;
        }
        y = y + 1;
    }
    max_y == actual_y
}

/// A fully connected feed-forward model: `weights[i]` and `biases[i]` map
/// the activations `neurons[i]` to `neurons[i + 1]`.
#[derive(Debug)]
pub struct NeuralNetwork {
    weights: Vec<Matrix>,
    neurons: Vec<Matrix>,
    biases: Vec<Matrix>,
}

impl NeuralNetwork {
    /// The per-layer activation grids.
    pub closed spec fn neurons_view(&self) -> Seq<Seq<Seq<int>>> {
        Seq::new(self.neurons@.len(), |i: int| self.neurons@[i]@)
    }

    /// The per-layer weight grids.
    pub closed spec fn weights_view(&self) -> Seq<Seq<Seq<int>>> {
        Seq::new(self.weights@.len(), |i: int| self.weights@[i]@)
    }

    /// The per-layer bias grids.
    pub closed spec fn biases_view(&self) -> Seq<Seq<Seq<int>>> {
        Seq::new(self.biases@.len(), |i: int| self.biases@[i]@)
    }

    /// Every stored matrix is well formed.
    pub closed spec fn mats_wf(&self) -> bool {
        &&& forall|i: int| 0 <= i < self.neurons@.len() ==> (#[trigger] self.neurons@[i]).wf()
        &&& forall|i: int| 0 <= i < self.weights@.len() ==> (#[trigger] self.weights@[i]).wf()
        &&& forall|i: int| 0 <= i < self.biases@.len() ==> (#[trigger] self.biases@[i]).wf()
    }

    /// The network invariant: well-formed matrices in the shape discipline.
    pub open spec fn wf(&self) -> bool {
        &&& self.mats_wf()
        &&& shapes_ok(self.neurons_view(), self.weights_view(), self.biases_view())
    }

    /// The stored activations of the output layer.
    pub open spec fn output_view(&self) -> Seq<Seq<int>> {
        self.neurons_view()[self.neurons_view().len() - 1]
    }

    /// A network with the given layer widths: zeroed activations, weights
    /// drawn uniformly from `[0, weight_eps)`, and biases drawn uniformly
    /// from the symmetric range `[-bias_eps, bias_eps)`. The two ranges are
    /// hyperparameters of the initialisation.
    #[verifier::loop_isolation(false)]
    pub fn new(
        dimensions: &Vec<usize>,
        weight_eps: i64,
        bias_eps: i64,
        rng: &mut rand::rngs::StdRng,
    ) -> (net: NeuralNetwork)
        requires
            dimensions@.len() >= 1,
            forall|i: int| 0 <= i < dimensions@.len() ==> #[trigger] dimensions@[i] > 0,
            weight_eps > 0,
            bias_eps > 0,
        ensures
            net.wf(),
            net.neurons_view().len() == dimensions@.len(),
            forall|i: int|
                0 <= i < dimensions@.len() ==> (#[trigger] net.neurons_view()[i]).len()
                    == dimensions@[i],
            forall|i: int, y: int|
                0 <= i < dimensions@.len() && 0 <= y < dimensions@[i]
                    ==> #[trigger] net.neurons_view()[i][y][0] == 0,
            forall|i: int, y: int, x: int|
                0 <= i < dimensions@.len() - 1 && 0 <= y < dimensions@[i + 1] && 0 <= x
                    < dimensions@[i] ==> 0 <= #[trigger] net.weights_view()[i][y][x] < weight_eps,
            forall|i: int, y: int|
                0 <= i < dimensions@.len() - 1 && 0 <= y < dimensions@[i + 1] ==> -bias_eps
                    <= #[trigger] net.biases_view()[i][y][0] < bias_eps,
    {
        let l = dimensions.len();
        let mut neurons: Vec<Matrix> = Vec::new();
        let mut i: usize = 0;
        while i < l
            invariant
                i <= l,
                neurons@.len() == i,
                forall|k: int|
                    0 <= k < i ==> (#[trigger] neurons@[k]).wf() && is_grid(
                        neurons@[k]@,
                        dimensions@[k] as int,
                        1,
                    ),
                forall|k: int, y: int|
                    0 <= k < i && 0 <= y < dimensions@[k] ==> #[trigger] neurons@[k]@[y][0] == 0,
            decreases l - i,
        {
            neurons.push(Matrix::zeros(dimensions[i], 1));
            i = i + 1;
        }
        let mut biases: Vec<Matrix> = Vec::new();
        let mut i: usize = 1;
        while i < l
            invariant
                1 <= i <= l,
                biases@.len() == i - 1,
                forall|k: int|
                    0 <= k < i - 1 ==> (#[trigger] biases@[k]).wf() && is_grid(
                        biases@[k]@,
                        dimensions@[k + 1] as int,
                        1,
                    ),
                forall|k: int, y: int|
                    0 <= k < i - 1 && 0 <= y < dimensions@[k + 1] ==> -bias_eps
                        <= #[trigger] biases@[k]@[y][0] < bias_eps,
            decreases l - i,
        {
            biases.push(Matrix::populate_random(dimensions[i], 1, -bias_eps, bias_eps, rng));
            i = i + 1;
        }
        let mut weights: Vec<Matrix> = Vec::new();
        let mut i: usize = 0;
        while i < l - 1
            invariant
                i <= l - 1,
                weights@.len() == i,
                forall|k: int|
                    0 <= k < i ==> (#[trigger] weights@[k]).wf() && is_grid(
                        weights@[k]@,
                        dimensions@[k + 1] as int,
                        dimensions@[k] as int,
                    ),
                forall|k: int, y: int, x: int|
                    0 <= k < i && 0 <= y < dimensions@[k + 1] && 0 <= x < dimensions@[k] ==> 0
                        <= #[trigger] weights@[k]@[y][x] < weight_eps,
            decreases l - 1 - i,
        {
            weights.push(
                Matrix::populate_random(dimensions[i + 1], dimensions[i], 0, weight_eps, rng),
            );
            i = i + 1;
        }
        NeuralNetwork { weights, neurons, biases }
    }

    /// A network with the given weight and bias matrices and zeroed
    /// activations; the layer widths are read off the weights. This is the
    /// deterministic counterpart of `new` for callers that fix the
    /// parameters themselves.
    #[verifier::loop_isolation(false)]
    pub fn from_parameters(weights: Vec<Matrix>, biases: Vec<Matrix>) -> (net: NeuralNetwork)
        requires
            weights@.len() >= 1,
            biases@.len() == weights@.len(),
            forall|i: int| 0 <= i < weights@.len() ==> (#[trigger] weights@[i]).wf(),
            forall|i: int| 0 <= i < biases@.len() ==> (#[trigger] biases@[i]).wf(),
            forall|i: int|
                0 <= i < biases@.len() ==> (#[trigger] biases@[i]@).len() == weights@[i]@.len()
                    && biases@[i]@[0].len() == 1,
            forall|i: int|
                1 <= i < weights@.len() ==> (#[trigger] weights@[i]@)[0].len() == weights@[i
                    - 1]@.len(),
        ensures
            net.wf(),
            net.neurons_view().len() == weights@.len() + 1,
            net.weights_view().len() == weights@.len(),
            net.biases_view().len() == weights@.len(),
            forall|i: int|
                0 <= i < weights@.len() ==> #[trigger] net.weights_view()[i] == weights@[i]@,
            forall|i: int|
                0 <= i < weights@.len() ==> #[trigger] net.biases_view()[i] == biases@[i]@,
            net.neurons_view()[0].len() == weights@[0]@[0].len(),
            forall|i: int|
                0 <= i < weights@.len() ==> (#[trigger] net.neurons_view()[i + 1]).len()
                    == weights@[i]@.len(),
            forall|i: int, y: int|
                0 <= i < net.neurons_view().len() && 0 <= y < net.neurons_view()[i].len()
                    ==> #[trigger] net.neurons_view()[i][y][0] == 0,
    {
        proof {
            assert forall|i: int| 0 <= i < weights@.len() implies is_grid(
                #[trigger] weights@[i]@,
                weights@[i]@.len() as int,
                weights@[i]@[0].len() as int,
            ) && weights@[i]@.len() > 0 && weights@[i]@[0].len() > 0 by {
                weights@[i].lemma_shape();
            }
            assert forall|i: int| 0 <= i < biases@.len() implies is_grid(
                #[trigger] biases@[i]@,
                biases@[i]@.len() as int,
                1,
            ) && biases@[i]@.len() > 0 by {
                biases@[i].lemma_shape();
            }
        }
        let mut neurons: Vec<Matrix> = Vec::new();
        neurons.push(Matrix::zeros(weights[0].get_cols(), 1));
        let mut i: usize = 0;
        while i < weights.len()
            invariant
                i <= weights@.len(),
                neurons@.len() == i + 1,
                neurons@[0].wf() && is_grid(neurons@[0]@, weights@[0]@[0].len() as int, 1),
                forall|k: int|
                    1 <= k < i + 1 ==> (#[trigger] neurons@[k]).wf() && is_grid(
                        neurons@[k]@,
                        weights@[k - 1]@.len() as int,
                        1,
                    ),
                forall|k: int, y: int|
                    0 <= k < i + 1 && 0 <= y < neurons@[k]@.len() ==> #[trigger] neurons@[k]@[y][0]
                        == 0,
            decreases weights@.len() - i,
        {
            neurons.push(Matrix::zeros(weights[i].get_rows(), 1));
            i = i + 1;
        }
        let net = NeuralNetwork { weights, neurons, biases };
        proof {
            let ns = net.neurons_view();
            let ws = net.weights_view();
            let bs = net.biases_view();
            assert forall|k: int| 0 <= k < ns.len() implies is_grid(
                #[trigger] ns[k],
                ns[k].len() as int,
                1,
            ) && ns[k].len() > 0 by {
                if k == 0 {
                    assert(ns[0] == net.neurons@[0]@);
                } else {
                    assert(ns[k] == net.neurons@[k]@);
                    assert(is_grid(net.neurons@[k]@, weights@[k - 1]@.len() as int, 1));
                }
            }
            assert forall|k: int| 0 <= k < ws.len() implies is_grid(
                #[trigger] ws[k],
                ns[k + 1].len() as int,
                ns[k].len() as int,
            ) by {
                assert(is_grid(
                    weights@[k]@,
                    weights@[k]@.len() as int,
                    weights@[k]@[0].len() as int,
                ));
                if k >= 1 {
                    assert(weights@[k]@[0].len() == weights@[k - 1]@.len());
                }
            }
            assert forall|k: int| 0 <= k < bs.len() implies is_grid(
                #[trigger] bs[k],
                ns[k + 1].len() as int,
                1,
            ) by {
                assert(is_grid(biases@[k]@, biases@[k]@.len() as int, 1));
                assert(biases@[k]@.len() == weights@[k]@.len());
            }
            assert forall|k: int| 0 <= k < net.neurons@.len() implies (#[trigger] net.neurons@[k]).wf() by {
                assert(net.neurons@[k] == neurons@[k]);
            }
            assert forall|k: int| 0 <= k < net.weights@.len() implies (#[trigger] net.weights@[k]).wf() by {
                assert(net.weights@[k] == weights@[k]);
            }
            assert forall|k: int| 0 <= k < net.biases@.len() implies (#[trigger] net.biases@[k]).wf() by {
                assert(net.biases@[k] == biases@[k]);
            }
            assert(shapes_ok(ns, ws, bs));
        }
        net
    }

    /// Evaluate the network: store `inputs` as the layer-zero activations,
    /// apply one affine + ReLU step per layer, and return a copy of the
    /// output layer. Afterwards the stored activations describe exactly this
    /// input, which is what a following backward pass differentiates against.
    #[verifier::loop_isolation(false)]
    pub fn forward_propagate(&mut self, inputs: &Matrix) -> (out: Matrix)
        requires
            old(self).wf(),
            inputs.wf(),
            inputs@.len() == old(self).neurons_view()[0].len(),
            inputs@[0].len() == 1,
            forward_fits(
                old(self).weights_view(),
                old(self).biases_view(),
                inputs@,
                old(self).neurons_view().len() - 1,
            ),
        ensures
            final(self).wf(),
            final(self).weights_view() == old(self).weights_view(),
            final(self).biases_view() == old(self).biases_view(),
            final(self).neurons_view().len() == old(self).neurons_view().len(),
            forall|k: int|
                0 <= k < old(self).neurons_view().len()
                    ==> #[trigger] final(self).neurons_view()[k] == forward_layers(
                    old(self).weights_view(),
                    old(self).biases_view(),
                    inputs@,
                    k,
                ),
            forall|k: int|
                0 <= k < old(self).neurons_view().len()
                    ==> (#[trigger] final(self).neurons_view()[k]).len() == old(
                    self,
                ).neurons_view()[k].len(),
            out.wf(),
            out@ == forward_layers(
                old(self).weights_view(),
                old(self).biases_view(),
                inputs@,
                old(self).neurons_view().len() - 1,
            ),
    {
        proof {
            inputs.lemma_shape();
        }
        let ghost ws0 = old(self).weights_view();
        let ghost bs0 = old(self).biases_view();
        let ghost ns0 = old(self).neurons_view();
        let l = self.neurons.len();
        let inp = inputs.duplicate();
        self.neurons.set(0, inp);
        let mut i: usize = 0;
        while i < l - 1
            invariant
                i <= l - 1,
                self.neurons@.len() == l,
                self.weights@ == old(self).weights@,
                self.biases@ == old(self).biases@,
                forall|k: int|
                    0 <= k <= i ==> (#[trigger] self.neurons@[k]).wf() && self.neurons@[k]@
                        == forward_layers(ws0, bs0, inputs@, k) && is_grid(
                        self.neurons@[k]@,
                        ns0[k].len() as int,
                        1,
                    ),
            decreases l - 1 - i,
        {
            proof {
                assert(self.weights@[i as int] == old(self).weights@[i as int]);
                assert(self.weights@[i as int].wf());
                assert(self.weights@[i as int]@ == ws0[i as int]);
                assert(self.biases@[i as int] == old(self).biases@[i as int]);
                assert(self.biases@[i as int].wf());
                assert(self.biases@[i as int]@ == bs0[i as int]);
                assert(is_grid(ws0[i as int], ns0[i as int + 1].len() as int, ns0[i as int].len() as int));
                assert(is_grid(bs0[i as int], ns0[i as int + 1].len() as int, 1));
                assert(mul_fits(ws0[i as int], forward_layers(ws0, bs0, inputs@, i as int)));
                assert(add_fits(
                    mmul(ws0[i as int], forward_layers(ws0, bs0, inputs@, i as int)),
                    bs0[i as int],
                ));
            }
            let ax = self.weights[i].multiply(&self.neurons[i]);
            let mut axb = ax.add(&self.biases[i]);
            axb.relu();
            proof {
                assert(axb@ == forward_layers(ws0, bs0, inputs@, i as int + 1));
            }
            self.neurons.set(i + 1, axb);
            i = i + 1;
        }
        let out = self.neurons[l - 1].duplicate();
        proof {
            assert forall|k: int|
                0 <= k < self.weights@.len() implies (#[trigger] self.weights@[k]).wf() by {
                assert(self.weights@[k] == old(self).weights@[k]);
            }
            assert forall|k: int|
                0 <= k < self.biases@.len() implies (#[trigger] self.biases@[k]).wf() by {
                assert(self.biases@[k] == old(self).biases@[k]);
            }
            assert(self.weights_view() =~~= ws0);
            assert(self.biases_view() =~~= bs0);
            assert(shapes_ok(self.neurons_view(), self.weights_view(), self.biases_view()));
        }
        out
    }

    /// The summed squared error between the stored output-layer activations
    /// and `target`: the sum over output rows of the squared difference.
    #[verifier::loop_isolation(false)]
    pub fn calculate_loss(&self, target: &Matrix) -> (loss: i64)
        requires
            self.wf(),
            target.wf(),
            target@.len() == self.output_view().len(),
            target@[0].len() == 1,
            loss_fits(self.output_view(), target@, self.output_view().len() as int),
        ensures
            loss as int == loss_sum(self.output_view(), target@, self.output_view().len() as int),
    {
        let li = self.neurons.len() - 1;
        let out = &self.neurons[li];
        proof {
            assert(out.wf());
            assert(out@ == self.output_view());
            assert(is_grid(out@, out@.len() as int, 1));
        }
        let rows = out.get_rows();
        let mut loss: i64 = 0;
        let mut y: usize = 0;
        while y < rows
            invariant
                y <= rows,
                loss as int == loss_sum(self.output_view(), target@, y as int),
            decreases rows - y,
        {
            proof {
                assert(fits_i64((self.output_view()[y as int])[0] - target@[y as int][0]));
                assert(fits_i64(loss_sum(self.output_view(), target@, y as int + 1)));
            }
            let d = out.get(y, 0) - target.get(y, 0);
            let sq = Matrix::rescale(d * d);
            loss = loss + sq;
            y = y + 1;
        }
        loss
    }

    /// The exact derivative of the summed squared-error loss with respect to
    /// the stored output-layer activations: row `y` holds
    /// `2 * (output[y] - target[y])`.
    #[verifier::loop_isolation(false)]
    pub fn loss_derivative(&self, target: &Matrix) -> (d: Matrix)
        requires
            self.wf(),
            target.wf(),
            target@.len() == self.output_view().len(),
            target@[0].len() == 1,
            loss_deriv_fits(self.output_view(), target@),
        ensures
            d.wf(),
            d@ == mloss_deriv(self.output_view(), target@),
    {
        let li = self.neurons.len() - 1;
        let out = &self.neurons[li];
        proof {
            assert(out.wf());
            assert(out@ == self.output_view());
            assert(is_grid(out@, out@.len() as int, 1));
        }
        let rows = out.get_rows();
        let mut d = Matrix::zeros(rows, 1);
        let mut y: usize = 0;
        while y < rows
            invariant
                y <= rows,
                d.wf(),
                is_grid(d@, rows as int, 1),
                forall|k: int|
                    0 <= k < y ==> #[trigger] d@[k][0] == 2 * (self.output_view()[k][0]
                        - target@[k][0]),
            decreases rows - y,
        {
            proof {
                assert(fits_i64((self.output_view()[y as int])[0] - target@[y as int][0]));
                assert(fits_i64(2 * (self.output_view()[y as int][0] - target@[y as int][0])));
            }
            let diff = out.get(y, 0) - target.get(y, 0);
            d.set(y, 0, 2 * diff);
            y = y + 1;
        }
        proof {
            assert(d@ =~~= mloss_deriv(self.output_view(), target@));
        }
        d
    }

    /// One gradient-descent step: differentiate the loss against the stored
    /// activations of the most recent forward pass, walking the layers from
    /// the output back to the input, and update every weight and bias matrix
    /// in place by `alpha` times its gradient. Each propagated signal is
    /// computed from the weights before their update. The caller must have
    /// run `forward_propagate` on the matching input first; the stored
    /// activations are the differentiation point.
    #[verifier::loop_isolation(false)]
    pub fn backward_propagate(&mut self, target: &Matrix, alpha: i64)
        requires
            old(self).wf(),
            target.wf(),
            target@.len() == old(self).output_view().len(),
            target@[0].len() == 1,
            backward_fits(
                old(self).neurons_view(),
                old(self).weights_view(),
                old(self).biases_view(),
                target@,
                alpha as int,
            ),
        ensures
            final(self).wf(),
            final(self).neurons_view() == old(self).neurons_view(),
            final(self).weights_view().len() == old(self).weights_view().len(),
            final(self).biases_view().len() == old(self).biases_view().len(),
            forall|j: int|
                0 <= j < old(self).weights_view().len()
                    ==> #[trigger] final(self).weights_view()[j] == bp_new_weight(
                    old(self).neurons_view(),
                    old(self).weights_view(),
                    target@,
                    alpha as int,
                    j,
                ),
            forall|j: int|
                0 <= j < old(self).biases_view().len()
                    ==> #[trigger] final(self).biases_view()[j] == bp_new_bias(
                    old(self).neurons_view(),
                    old(self).weights_view(),
                    old(self).biases_view(),
                    target@,
                    alpha as int,
                    j,
                ),
    {
        let ghost ns0 = old(self).neurons_view();
        let ghost ws0 = old(self).weights_view();
        let ghost bs0 = old(self).biases_view();
        let l = self.neurons.len();
        proof {
            assert(self.output_view() == ns0[l - 1]);
        }
        let mut delta = self.loss_derivative(target);
        proof {
            assert(delta@ == bp_delta_in(ns0, ws0, target@, l - 1));
        }
        let mut k = l - 1;
        while k >= 1
            invariant
                k <= l - 1,
                self.neurons@ == old(self).neurons@,
                self.weights@.len() == l - 1,
                self.biases@.len() == l - 1,
                delta.wf(),
                delta@ == bp_delta_in(ns0, ws0, target@, k as int),
                forall|j: int| 0 <= j < k ==> #[trigger] self.weights@[j] == old(self).weights@[j],
                forall|j: int| 0 <= j < k ==> #[trigger] self.biases@[j] == old(self).biases@[j],
                forall|j: int|
                    k <= j < l - 1 ==> (#[trigger] self.weights@[j]).wf() && self.weights@[j]@
                        == bp_new_weight(ns0, ws0, target@, alpha as int, j) && is_grid(
                        self.weights@[j]@,
                        ns0[j + 1].len() as int,
                        ns0[j].len() as int,
                    ),
                forall|j: int|
                    k <= j < l - 1 ==> (#[trigger] self.biases@[j]).wf() && self.biases@[j]@
                        == bp_new_bias(ns0, ws0, bs0, target@, alpha as int, j) && is_grid(
                        self.biases@[j]@,
                        ns0[j + 1].len() as int,
                        1,
                    ),
            decreases k,
        {
            proof {
                lemma_bp_shapes(ns0, ws0, bs0, target@, k as int);
                assert(backward_step_fits(ns0, ws0, bs0, target@, alpha as int, k as int));
                assert(self.neurons@[k as int] == old(self).neurons@[k as int]);
                assert(self.neurons@[k as int].wf());
                assert(self.neurons@[k as int]@ == ns0[k as int]);
                assert(self.neurons@[k - 1] == old(self).neurons@[k - 1]);
                assert(self.neurons@[k - 1].wf());
                assert(self.neurons@[k - 1]@ == ns0[k - 1]);
                assert(self.weights@[k - 1] == old(self).weights@[k - 1]);
                assert(self.weights@[k - 1].wf());
                assert(self.weights@[k - 1]@ == ws0[k - 1]);
                assert(self.biases@[k - 1] == old(self).biases@[k - 1]);
                assert(self.biases@[k - 1].wf());
                assert(self.biases@[k - 1]@ == bs0[k - 1]);
                assert(is_grid(ns0[k as int], ns0[k as int].len() as int, 1));
                assert(is_grid(ns0[k - 1], ns0[k - 1].len() as int, 1));
                assert(is_grid(ws0[k - 1], ns0[k as int].len() as int, ns0[k - 1].len() as int));
                assert(is_grid(bs0[k - 1], ns0[k as int].len() as int, 1));
                assert(ns0[k as int].len() > 0 && ns0[k - 1].len() > 0);
            }
            let md = self.neurons[k].relu_derivative();
            let masked = delta.pointwise_multiply(&md);
            proof {
                assert(masked@ == bp_masked(ns0, ws0, target@, k as int));
                assert(is_grid(masked@, ns0[k as int].len() as int, 1));
            }
            let nprev_t = self.neurons[k - 1].transpose();
            let gw = masked.multiply(&nprev_t);
            let masked_t = masked.transpose();
            let prop = masked_t.multiply(&self.weights[k - 1]);
            let new_delta = prop.transpose();
            let gw_scaled = gw.scalar_multiply(alpha);
            let new_w = self.weights[k - 1].subtract(&gw_scaled);
            let gb_scaled = masked.scalar_multiply(alpha);
            let new_b = self.biases[k - 1].subtract(&gb_scaled);
            self.weights.set(k - 1, new_w);
            self.biases.set(k - 1, new_b);
            delta = new_delta;
            proof {
                assert(gw@ == bp_weight_grad(ns0, ws0, target@, k - 1));
                assert(new_w@ == bp_new_weight(ns0, ws0, target@, alpha as int, k - 1));
                assert(new_b@ == bp_new_bias(ns0, ws0, bs0, target@, alpha as int, k - 1));
                assert(delta@ == bp_delta_in(ns0, ws0, target@, k - 1));
                assert(is_grid(new_w@, ns0[k as int].len() as int, ns0[k - 1].len() as int)) by {
                    assert forall|i: int| 0 <= i < new_w@.len() implies (#[trigger] new_w@[i]).len()
                        == ns0[k - 1].len() by {
                        assert(ws0[k - 1][i].len() == ns0[k - 1].len());
                    }
                }
                assert(is_grid(new_b@, ns0[k as int].len() as int, 1)) by {
                    assert forall|i: int| 0 <= i < new_b@.len() implies (#[trigger] new_b@[i]).len()
                        == 1 by {
                        assert(bs0[k - 1][i].len() == 1);
                    }
                }
            }
            k = k - 1;
        }
        proof {
            assert forall|i: int|
                0 <= i < self.neurons@.len() implies (#[trigger] self.neurons@[i]).wf() by {
                assert(self.neurons@[i] == old(self).neurons@[i]);
            }
            assert(self.neurons_view() =~~= ns0);
            assert(shapes_ok(self.neurons_view(), self.weights_view(), self.biases_view()));
        }
    }
}

} // verus!
