use metricchrono::{branching_number, greedy_packing, radial_sort};

fn closeness(distances: &[Vec<f64>], epsilon: f64) -> Vec<Vec<bool>> {
    distances
        .iter()
        .map(|row| row.iter().map(|d| *d < epsilon).collect())
        .collect()
}

fn total_order_key(x: f64) -> i64 {
    let bits = x.to_bits() as i64;
    bits ^ ((((bits >> 63) as u64) >> 1) as i64)
}

#[test]
fn greedy_packing_selects_one_point_per_cluster() {
    let distances = vec![
        vec![0.0, 0.05, 0.5, 0.5],
        vec![0.05, 0.0, 0.5, 0.5],
        vec![0.5, 0.5, 0.0, 0.05],
        vec![0.5, 0.5, 0.05, 0.0],
    ];

    assert_eq!(greedy_packing(&closeness(&distances, 0.1)).len(), 2);
    assert_eq!(greedy_packing(&closeness(&distances, 0.1)), vec![0, 2]);
}

#[test]
fn radial_sort_returns_ascending_permutation() {
    let keys: Vec<i64> = [3.0, 1.0, 2.0].iter().map(|r| total_order_key(*r)).collect();
    assert_eq!(radial_sort(&keys), vec![1, 2, 0]);
}

#[test]
fn radial_sort_breaks_ties_by_index_and_orders_negatives() {
    let radii = [2.0, -1.0, 2.0, 0.0, -5.0];
    let keys: Vec<i64> = radii.iter().map(|r| total_order_key(*r)).collect();
    assert_eq!(radial_sort(&keys), vec![4, 1, 3, 0, 2]);
    assert!(radial_sort(&[]).is_empty());
}

#[test]
fn branching_number_packs_points_inside_horizon() {
    let radii = [0.1, 0.2, 0.3, 0.8, 0.9];
    let distances = vec![
        vec![0.0, 0.05, 0.5, 0.8, 0.9],
        vec![0.05, 0.0, 0.5, 0.8, 0.9],
        vec![0.5, 0.5, 0.0, 0.8, 0.9],
        vec![0.8, 0.8, 0.8, 0.0, 0.05],
        vec![0.9, 0.9, 0.9, 0.05, 0.0],
    ];
    let eligible: Vec<bool> = radii.iter().map(|r| *r <= 0.5).collect();

    assert_eq!(branching_number(&eligible, &closeness(&distances, 0.1)), 2);
}

#[test]
fn greedy_packing_is_separated_and_covering() {
    // points on a line at 0, 0.3, 0.5, 0.9, 1.0, 1.6 with epsilon 0.45
    let xs: [f64; 6] = [0.0, 0.3, 0.5, 0.9, 1.0, 1.6];
    let distances: Vec<Vec<f64>> = xs
        .iter()
        .map(|a| xs.iter().map(|b| (a - b).abs()).collect())
        .collect();
    let close = closeness(&distances, 0.45);
    let packing = greedy_packing(&close);
    assert_eq!(packing, vec![0, 2, 4, 5]);
    for (a, p) in packing.iter().enumerate() {
        for q in &packing[a + 1..] {
            assert!(!close[*p][*q]);
        }
    }
    for k in 0..xs.len() {
        if !packing.contains(&k) {
            assert!(packing.iter().any(|p| *p < k && close[*p][k]));
        }
    }
}
