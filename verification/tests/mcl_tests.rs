use graph_clustering_rs::matrix::{Matrix, PartiqlArgMaxExt};

/// Raw fixed-point value of a real number (12 fractional digits).
fn fx(x: f64) -> i64 {
    (x * 1e12).round() as i64
}

/// Tolerance of the comparisons: 1e-8 in raw fixed-point units.
const EPS: i64 = 10_000;

fn mat(n: usize, vals: Vec<f64>) -> Matrix {
    let raw: Vec<i64> = vals.into_iter().map(fx).collect();
    Matrix::from_raw(n, raw).unwrap()
}

fn assert_mat_close(m: &Matrix, n: usize, expected: &[f64]) {
    assert_eq!(m.dim(), n);
    for r in 0..n {
        for c in 0..n {
            let got = m.get(r, c);
            let want = fx(expected[r * n + c]);
            assert!(
                (got - want).abs() <= EPS,
                "entry ({}, {}): got {}, want {}",
                r,
                c,
                got,
                want
            );
        }
    }
}

#[test]
fn test_normalize_1() {
    let matrix = mat(2, vec![-0.02630925, 0.34560928, 0.49153899, 0.37912572]);
    let normed = matrix.normalize().unwrap();
    assert_mat_close(
        &normed,
        2,
        &[-0.05080494, 0.47687676, 0.94919506, 0.52312324],
    );
}

#[test]
fn test_normalize_3() {
    let input = mat(3, vec![1., 1., 0., 0., 1., 1., 0., 0., 1.]);
    let output = input.normalize().unwrap();
    assert_mat_close(&output, 3, &[1., 0.5, 0., 0., 0.5, 0.5, 0., 0., 0.5]);
}

#[test]
fn test_normalize_4() {
    let input = mat(2, vec![0., 0., 0., 0.]);
    let output = input.normalize().unwrap();
    assert_mat_close(&output, 2, &[0., 0., 0., 0.]);
}

#[test]
fn test_expand() {
    let input = mat(3, vec![1., 0.5, 0., 0., 0.5, 0.5, 0., 0., 0.5]);
    let output = input.expand(2).unwrap();
    assert_mat_close(&output, 3, &[1., 0.75, 0.25, 0., 0.25, 0.5, 0., 0., 0.25]);
}

#[test]
fn test_inflate() {
    let input = mat(2, vec![0.5, 0.5, 1., 1.]);
    let output = input.inflate(fx(2.0)).unwrap();
    assert_mat_close(&output, 2, &[0.2, 0.2, 0.8, 0.8]);
}

#[test]
fn test_mcl() {
    let input = mat(
        7,
        vec![
            1., 1., 1., 0., 0., 0., 0., //
            1., 1., 1., 0., 0., 0., 0., //
            1., 1., 1., 1., 0., 0., 0., //
            0., 0., 1., 1., 1., 0., 1., //
            0., 0., 0., 1., 1., 1., 1., //
            0., 0., 0., 0., 1., 1., 1., //
            0., 0., 0., 1., 1., 1., 1.,
        ],
    );
    let output = input
        .mcl(2, fx(2.0), fx(1.0), 100, fx(0.001), 1, 1)
        .unwrap();
    let expected = [
        0., 0., 0., 0., 0., 0., 0., //
        0., 0., 0., 0., 0., 0., 0., //
        1., 1., 1., 0., 0., 0., 0., //
        0., 0., 0., 0., 0., 0., 0., //
        0., 0., 0., 0.5, 0.5, 0.5, 0.5, //
        0., 0., 0., 0., 0., 0., 0., //
        0., 0., 0., 0.5, 0.5, 0.5, 0.5,
    ];
    assert_mat_close(&output, 7, &expected);
}

#[test]
fn expand_power_one_returns_matrix_unchanged() {
    let input = mat(2, vec![0.3, 1.7, 0.2, 4.0]);
    let output = input.expand(1).unwrap();
    for r in 0..2 {
        for c in 0..2 {
            assert_eq!(output.get(r, c), input.get(r, c));
        }
    }
}

#[test]
fn inflate_power_one_matches_normalize() {
    let input = mat(3, vec![0.4, 1.0, 2.5, 0.1, 0.0, 3.0, 7.0, 0.2, 0.9]);
    let inflated = input.inflate(fx(1.0)).unwrap();
    let normalized = input.normalize().unwrap();
    for r in 0..3 {
        for c in 0..3 {
            assert_eq!(inflated.get(r, c), normalized.get(r, c));
        }
    }
}

#[test]
fn prune_keeps_column_max_below_threshold() {
    // the maximum of the second column, 2.0, lies below the threshold and
    // must still survive pruning
    let input = mat(2, vec![1., 2., 3., 0.5]);
    let output = input.prune(fx(2.5)).unwrap();
    assert_mat_close(&output, 2, &[0., 2., 3., 0.]);
}

#[test]
fn prune_tie_breaks_on_first_maximum() {
    let input = mat(2, vec![2., 0., 2., 0.]);
    let output = input.prune(fx(3.0)).unwrap();
    assert_mat_close(&output, 2, &[2., 0., 0., 0.]);
}

#[test]
fn normalize_columns_sum_to_one() {
    let input = mat(3, vec![0.2, 5.0, 1.0, 0.7, 2.5, 0.0, 1.6, 0.5, 3.0]);
    let output = input.normalize().unwrap();
    for c in 0..3 {
        let mut sum: i64 = 0;
        for r in 0..3 {
            sum += output.get(r, c);
        }
        assert!((sum - fx(1.0)).abs() <= EPS, "column {}: sum {}", c, sum);
    }
}

#[test]
fn add_self_loop_sets_diagonal() {
    let mut m = mat(2, vec![0.1, 0.2, 0.3, 0.4]);
    m.add_self_loop(fx(1.0)).unwrap();
    assert_eq!(m.get(0, 0), fx(1.0));
    assert_eq!(m.get(1, 1), fx(1.0));
    assert_eq!(m.get(0, 1), fx(0.2));
    assert_eq!(m.get(1, 0), fx(0.3));
}

#[test]
fn mcl_zero_iterations_returns_normalized_input() {
    let input = mat(2, vec![0.0, 2.0, 1.0, 0.5]);
    let output = input.mcl(2, fx(2.0), fx(1.0), 0, fx(0.001), 1, 1).unwrap();
    let mut looped = mat(2, vec![0.0, 2.0, 1.0, 0.5]);
    looped.add_self_loop(fx(1.0)).unwrap();
    let expected = looped.normalize().unwrap();
    for r in 0..2 {
        for c in 0..2 {
            assert_eq!(output.get(r, c), expected.get(r, c));
        }
    }
}

#[test]
fn argmax_returns_first_maximum() {
    let v: Vec<i64> = vec![3, 7, 7, 1];
    assert_eq!(v.argmax().unwrap(), 1);
    let single: Vec<i64> = vec![-4];
    assert_eq!(single.argmax().unwrap(), 0);
}
