//! Labelled training samples: an input column vector paired with a one-hot
//! target column vector, and the builders that produce them.

use crate::matrix::{is_grid, Matrix, SCALE};
use vstd::prelude::*;

verus! {

/// One labelled sample: an input column vector and its one-hot target.
pub struct TrainingData {
    pub input: Matrix,
    pub output: Matrix,
}

/// The built-in three-sample toy dataset: sample `s` has the one-hot input
/// column of width three with hot index `s`; the first two samples are
/// labelled with class zero, the third with class one.
pub fn generate_training_data() -> (data: Vec<TrainingData>)
    ensures
        data@.len() == 3,
        forall|s: int|
            0 <= s < 3 ==> (#[trigger] data@[s].input).wf() && is_grid(data@[s].input@, 3, 1),
        forall|s: int|
            0 <= s < 3 ==> (#[trigger] data@[s].output).wf() && is_grid(data@[s].output@, 2, 1),
        forall|s: int, i: int|
            0 <= s < 3 && 0 <= i < 3 ==> #[trigger] data@[s].input@[i][0] == (if i == s {
                SCALE as int
            } else {
                0int
            }),
        forall|s: int, i: int|
            0 <= s < 3 && 0 <= i < 2 ==> #[trigger] data@[s].output@[i][0] == (if (s < 2 && i == 0)
                || (s == 2 && i == 1) {
                SCALE as int
            } else {
                0int
            }),
{
    let mut input_1 = Matrix::zeros(3, 1);
    input_1.set(0, 0, SCALE);
    let mut output_1 = Matrix::zeros(2, 1);
    output_1.set(0, 0, SCALE);
    let data_1 = TrainingData { input: input_1, output: output_1 };

    let mut input_2 = Matrix::zeros(3, 1);
    input_2.set(1, 0, SCALE);
    let mut output_2 = Matrix::zeros(2, 1);
    output_2.set(0, 0, SCALE);
    let data_2 = TrainingData { input: input_2, output: output_2 };

    let mut input_3 = Matrix::zeros(3, 1);
    input_3.set(2, 0, SCALE);
    let mut output_3 = Matrix::zeros(2, 1);
    output_3.set(1, 0, SCALE);
    let data_3 = TrainingData { input: input_3, output: output_3 };

    let mut data: Vec<TrainingData> = Vec::new();
    data.push(data_1);
    data.push(data_2);
    data.push(data_3);
    data
}

/// A sample built from a parsed record: the input column holds `values` in
/// order, and the target is the one-hot column of width `num_labels` whose
/// hot index is `label`.
#[verifier::loop_isolation(false)]
pub fn make_sample(label: usize, num_labels: usize, values: &Vec<i64>) -> (s: TrainingData)
    requires
        label < num_labels,
        values@.len() > 0,
    ensures
        s.output.wf(),
        is_grid(s.output@, num_labels as int, 1),
        forall|i: int|
            0 <= i < num_labels ==> #[trigger] s.output@[i][0] == (if i == label {
                SCALE as int
            } else {
                0int
            }),
        s.input.wf(),
        is_grid(s.input@, values@.len() as int, 1),
        forall|i: int| 0 <= i < values@.len() ==> #[trigger] s.input@[i][0] == values@[i],
{
    let mut output = Matrix::zeros(num_labels, 1);
    output.set(label, 0, SCALE);
    let mut input = Matrix::zeros(values.len(), 1);
    let mut i: usize = 0;
    while i < values.len()
        invariant
            i <= values@.len(),
            input.wf(),
            is_grid(input@, values@.len() as int, 1),
            forall|k: int| 0 <= k < i ==> #[trigger] input@[k][0] == values@[k],
        decreases values@.len() - i,
    {
        input.set(i, 0, values[i]);
        i = i + 1;
    }
    TrainingData { input, output }
}

} // verus!
