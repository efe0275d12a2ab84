use neural_net::matrix::{Matrix, SCALE};
use rand::SeedableRng;

#[test]
fn test_zeros() {
    let matrix = Matrix::zeros(2, 3);

    assert_eq!(matrix.get_rows(), 2);
    assert_eq!(matrix.get_cols(), 3);

    for y in 0..matrix.get_rows() {
        for x in 0..matrix.get_cols() {
            assert_eq!(matrix.get(y, x), 0);
        }
    }
}

#[test]
fn test_populate_random() {
    let mut rng = rand::rngs::StdRng::seed_from_u64(7);
    let matrix = Matrix::populate_random(2, 3, -SCALE, SCALE, &mut rng);

    assert_eq!(matrix.get_rows(), 2);
    assert_eq!(matrix.get_cols(), 3);

    for y in 0..matrix.get_rows() {
        for x in 0..matrix.get_cols() {
            assert!(-SCALE <= matrix.get(y, x) && SCALE >= matrix.get(y, x));
        }
    }
}

#[test]
fn test_populate_random_degenerate_range() {
    // A one-value range pins every entry, so a source that ignored its
    // bounds would fail here.
    let mut rng = rand::rngs::StdRng::seed_from_u64(7);
    let matrix = Matrix::populate_random(3, 3, 7 * SCALE, 7 * SCALE + 1, &mut rng);
    for y in 0..3 {
        for x in 0..3 {
            assert_eq!(matrix.get(y, x), 7 * SCALE);
        }
    }
}

#[test]
fn test_set() {
    let mut matrix = Matrix::zeros(2, 3);
    matrix.set(1, 2, 5 * SCALE);
    assert_eq!(matrix.get(1, 2), 5 * SCALE);
}

#[test]
fn test_set_preserves_other_entries() {
    let mut matrix = Matrix::zeros(2, 3);
    matrix.set(1, 2, 5 * SCALE);
    matrix.set(0, 1, -3 * SCALE);
    assert_eq!(matrix.get(1, 2), 5 * SCALE);
    assert_eq!(matrix.get(0, 1), -3 * SCALE);
    for y in 0..2 {
        for x in 0..3 {
            if !(y == 1 && x == 2) && !(y == 0 && x == 1) {
                assert_eq!(matrix.get(y, x), 0);
            }
        }
    }
}

#[test]
fn test_multiply() {
    let mut matrix = Matrix::zeros(2, 3);
    matrix.set(0, 0, SCALE);
    matrix.set(0, 1, 2 * SCALE);

    let mut matrix_2 = Matrix::zeros(3, 4);
    matrix_2.set(0, 2, 3 * SCALE);
    matrix_2.set(1, 2, 4 * SCALE);

    let result_matrix = matrix.multiply(&matrix_2);

    assert_eq!(result_matrix.get(0, 2), 11 * SCALE); //test multiply worked
    assert_eq!(result_matrix.get(0, 0), 0); //check other still 0

    assert_eq!(result_matrix.get_rows(), matrix.get_rows());
    assert_eq!(result_matrix.get_cols(), matrix_2.get_cols());
}

#[test]
fn test_add_then_subtract_round_trip() {
    // (A + B) - B == A, exactly, entry by entry.
    let mut a = Matrix::zeros(2, 2);
    a.set(0, 0, SCALE / 2);
    a.set(0, 1, -3 * SCALE);
    a.set(1, 0, 7);
    a.set(1, 1, 250_000);
    let mut b = Matrix::zeros(2, 2);
    b.set(0, 0, SCALE / 4);
    b.set(0, 1, 9 * SCALE);
    b.set(1, 0, -1);
    b.set(1, 1, 125_000);

    let sum = a.add(&b);
    assert_eq!(sum.get(0, 0), SCALE / 2 + SCALE / 4);
    assert_eq!(sum.get(0, 1), 6 * SCALE);

    let back = sum.subtract(&b);
    for y in 0..2 {
        for x in 0..2 {
            assert_eq!(back.get(y, x), a.get(y, x));
        }
    }
}

#[test]
fn test_pointwise_multiply() {
    let mut a = Matrix::zeros(1, 3);
    a.set(0, 0, 2 * SCALE);
    a.set(0, 1, SCALE / 2);
    a.set(0, 2, -3 * SCALE);
    let mut b = Matrix::zeros(1, 3);
    b.set(0, 0, 3 * SCALE);
    b.set(0, 1, SCALE / 2);
    b.set(0, 2, 2 * SCALE);

    let p = a.pointwise_multiply(&b);
    assert_eq!(p.get(0, 0), 6 * SCALE); // 2.0 * 3.0 == 6.0
    assert_eq!(p.get(0, 1), SCALE / 4); // 0.5 * 0.5 == 0.25
    assert_eq!(p.get(0, 2), -6 * SCALE); // -3.0 * 2.0 == -6.0
}

#[test]
fn test_scalar_multiply() {
    let mut a = Matrix::zeros(2, 1);
    a.set(0, 0, 3 * SCALE);
    a.set(1, 0, -SCALE / 2);

    let doubled = a.scalar_multiply(2 * SCALE);
    assert_eq!(doubled.get(0, 0), 6 * SCALE);
    assert_eq!(doubled.get(1, 0), -SCALE);

    let halved = a.scalar_multiply(SCALE / 2);
    assert_eq!(halved.get(0, 0), 3 * SCALE / 2);
    assert_eq!(halved.get(1, 0), -SCALE / 4);
}

#[test]
fn test_relu() {
    let mut m = Matrix::zeros(3, 1);
    m.set(0, 0, -2 * SCALE);
    m.set(1, 0, 0);
    m.set(2, 0, 3 * SCALE);

    m.relu();

    assert_eq!(m.get(0, 0), 0);
    assert_eq!(m.get(1, 0), 0);
    assert_eq!(m.get(2, 0), 3 * SCALE);
}

#[test]
fn test_relu_derivative() {
    let mut m = Matrix::zeros(3, 1);
    m.set(0, 0, -2 * SCALE);
    m.set(1, 0, 0);
    m.set(2, 0, 3 * SCALE);

    let d = m.relu_derivative();

    assert_eq!(d.get(0, 0), 0);
    assert_eq!(d.get(1, 0), 0);
    assert_eq!(d.get(2, 0), SCALE);
}

#[test]
fn test_transpose() {
    let mut a = Matrix::zeros(2, 3);
    let mut v: i64 = 1;
    for y in 0..2 {
        for x in 0..3 {
            a.set(y, x, v * SCALE);
            v += 1;
        }
    }

    let t = a.transpose();
    assert_eq!(t.get_rows(), 3);
    assert_eq!(t.get_cols(), 2);
    for y in 0..2 {
        for x in 0..3 {
            assert_eq!(t.get(x, y), a.get(y, x));
        }
    }

    let tt = t.transpose();
    assert_eq!(tt.get_rows(), 2);
    assert_eq!(tt.get_cols(), 3);
    for y in 0..2 {
        for x in 0..3 {
            assert_eq!(tt.get(y, x), a.get(y, x));
        }
    }
}
