//! Tests of the per-topology distance tables and of input rejection.

use hopsim::cost_matrix::CostMatrix;
use hopsim::topology::Topology;
use hopsim::ConstructionError;

fn row(t: &CostMatrix, i: usize) -> Vec<usize> {
    let n = t.node_count();
    let mut r: Vec<usize> = Vec::new();
    let mut k: usize = 0;
    while k < n - 1 {
        r.push(t.entry(i, k));
        k += 1;
    }
    r
}

fn count_of(r: &Vec<usize>, v: usize) -> usize {
    r.iter().filter(|&&x| x == v).count()
}

#[test]
fn table_dimensions_all_kinds() {
    let kinds = [
        Topology::Ring,
        Topology::OnewayRing,
        Topology::Star,
        Topology::Line,
    ];
    for &kind in kinds.iter() {
        for n in 2..=9usize {
            let t = CostMatrix::build(kind, n).unwrap();
            assert_eq!(t.node_count(), n);
            assert_eq!(t.entry_count(), n * (n - 1));
            for i in 0..n {
                for k in 0..n - 1 {
                    let e = t.entry(i, k);
                    assert!(e >= 1);
                    assert!(e <= n - 1);
                }
            }
        }
    }
}

#[test]
fn ring_rows_are_rotations_of_profile() {
    let t = CostMatrix::ring(4).unwrap();
    let profile = vec![1usize, 2, 1];
    let rotations = [vec![1usize, 2, 1], vec![2usize, 1, 1], vec![1usize, 1, 2]];
    for i in 0..4 {
        let r = row(&t, i);
        assert!(rotations.contains(&r));
    }
    assert_eq!(row(&t, 3), profile);
    assert_eq!(row(&t, 0), vec![1, 2, 1]);
    assert_eq!(row(&t, 1), vec![1, 1, 2]);
    assert_eq!(row(&t, 2), vec![2, 1, 1]);
}

#[test]
fn oneway_ring_rows_are_rotations_with_fixed_sum() {
    let t = CostMatrix::oneway_ring(4).unwrap();
    let rotations = [vec![1usize, 2, 3], vec![3usize, 1, 2], vec![2usize, 3, 1]];
    for i in 0..4 {
        let r = row(&t, i);
        assert!(rotations.contains(&r));
        let sum: usize = r.iter().sum();
        assert_eq!(sum, 4 * 3 / 2);
    }
}

#[test]
fn star_hub_row_is_all_ones_and_leaves_have_one_short_hop() {
    let t = CostMatrix::star(5).unwrap();
    assert_eq!(row(&t, 0), vec![1, 1, 1, 1]);
    for i in 1..5 {
        let r = row(&t, i);
        assert_eq!(count_of(&r, 1), 1);
        assert_eq!(count_of(&r, 2), 3);
    }
}

#[test]
fn line_rows_hold_distances_to_both_sides() {
    let t = CostMatrix::line(4).unwrap();
    assert_eq!(row(&t, 0), vec![1, 2, 3]);
    let r2 = row(&t, 2);
    assert_eq!(r2, vec![2, 1, 1]);
    assert_eq!(count_of(&r2, 1), 2);
    assert_eq!(count_of(&r2, 2), 1);
    assert_eq!(row(&t, 1), vec![1, 1, 2]);
    assert_eq!(row(&t, 3), vec![3, 2, 1]);
}

#[test]
fn unknown_topology_is_rejected() {
    assert_eq!(
        Topology::from_name("mesh"),
        Err(ConstructionError::UnknownTopology)
    );
    assert_eq!(
        Topology::from_name(""),
        Err(ConstructionError::UnknownTopology)
    );
    assert_eq!(Topology::from_name("ring"), Ok(Topology::Ring));
    assert_eq!(Topology::from_name("oneway_ring"), Ok(Topology::OnewayRing));
    assert_eq!(Topology::from_name("star"), Ok(Topology::Star));
    assert_eq!(Topology::from_name("line"), Ok(Topology::Line));
}

#[test]
fn too_small_node_counts_are_rejected() {
    for n in 0..=1usize {
        assert!(matches!(
            CostMatrix::ring(n),
            Err(ConstructionError::InvalidNodeCount)
        ));
        assert!(matches!(
            CostMatrix::oneway_ring(n),
            Err(ConstructionError::InvalidNodeCount)
        ));
        assert!(matches!(
            CostMatrix::star(n),
            Err(ConstructionError::InvalidNodeCount)
        ));
        assert!(matches!(
            CostMatrix::line(n),
            Err(ConstructionError::InvalidNodeCount)
        ));
        assert!(matches!(
            CostMatrix::build(Topology::Ring, n),
            Err(ConstructionError::InvalidNodeCount)
        ));
    }
}
