use graph_clustering_rs::fixed::RAW_LIMIT;
use graph_clustering_rs::matrix::{Matrix, MclError};

/// Raw fixed-point value of a real number (12 fractional digits).
fn fx(x: f64) -> i64 {
    (x * 1e12).round() as i64
}

fn mat(n: usize, vals: Vec<f64>) -> Matrix {
    let raw: Vec<i64> = vals.into_iter().map(fx).collect();
    Matrix::from_raw(n, raw).unwrap()
}

#[test]
fn mcl_seven_nodes_two_communities() {
    let input = mat(
        7,
        vec![
            1., 1., 1., 0., 0., 0., 0., //
            1., 1., 1., 0., 0., 0., 0., //
            1., 1., 1., 1., 0., 0., 0., //
            0., 0., 1., 1., 1., 0., 1., //
            0., 0., 0., 1., 1., 1., 1., //
            0., 0., 0., 0., 1., 1., 1., //
            0., 0., 0., 1., 1., 1., 1.,
        ],
    );
    let terminal = input
        .mcl(2, fx(2.0), fx(1.0), 100, fx(0.0001), 1, 1)
        .unwrap();
    let clusters = terminal.get_clusters();
    assert_eq!(clusters, vec![vec![0, 1, 2], vec![3, 4, 5, 6]]);
}

#[test]
fn get_clusters_deduplicates_identical_rows() {
    // attractors 0 and 1 induce the same cluster; attractor 3 another
    let m = mat(
        4,
        vec![
            1., 1., 0., 0., //
            1., 1., 0., 0., //
            0., 0., 0., 0., //
            0., 0., 1., 1.,
        ],
    );
    let clusters = m.get_clusters();
    assert_eq!(clusters, vec![vec![0, 1], vec![2, 3]]);
}

#[test]
fn get_clusters_sorted_by_content() {
    // attractor 0 is discovered first but its cluster sorts after
    // attractor 1's
    let m = mat(
        3,
        vec![
            1., 0., 1., //
            1., 1., 0., //
            0., 0., 0.,
        ],
    );
    let clusters = m.get_clusters();
    assert_eq!(clusters, vec![vec![0, 1], vec![0, 2]]);
}

#[test]
fn get_clusters_without_attractors_is_empty() {
    let m = mat(2, vec![0., 1., 1., 0.]);
    let clusters = m.get_clusters();
    assert!(clusters.is_empty());
}

#[test]
fn get_clusters_on_empty_matrix() {
    let m = Matrix::from_raw(0, Vec::new()).unwrap();
    assert!(m.get_clusters().is_empty());
}

#[test]
fn from_raw_rejects_bad_shape() {
    let r = Matrix::from_raw(2, vec![0, 0, 0]);
    assert!(matches!(r, Err(MclError::Shape)));
}

#[test]
fn from_raw_rejects_oversized_dimension() {
    let r = Matrix::from_raw(10_001, Vec::new());
    assert!(matches!(r, Err(MclError::TooLarge)));
}

#[test]
fn from_raw_rejects_out_of_range_entry() {
    let r = Matrix::from_raw(1, vec![RAW_LIMIT + 1]);
    assert!(matches!(r, Err(MclError::Range)));
    let r2 = Matrix::from_raw(1, vec![-RAW_LIMIT - 1]);
    assert!(matches!(r2, Err(MclError::Range)));
}
