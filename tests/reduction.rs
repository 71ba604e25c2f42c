use knot_charge::chain_model::{
    backbone_to_chain, ca_to_chainpoint, calc_vector, is_sweep_blocked, reduce_chain, reduce_chain_once,
    segment_crosses_sweep, ChainPoint,
};
use knot_charge::plane::{Point, Vector3};
use knot_charge::protein_model::CaAtom;

fn cp(serial: i32, x: i64, y: i64, z: i64) -> ChainPoint {
    ChainPoint::new(serial, Point::new(x, y, z))
}

fn serials(chain: &[ChainPoint]) -> Vec<i32> {
    chain.iter().map(|c| c.serial).collect()
}

/// A trefoil knot sampled at 24 points and closed, reduced: every interior
/// point's sweep is crossed by another strand.
fn reduced_trefoil() -> Vec<ChainPoint> {
    vec![
        cp(1, 0, -1000, 0),
        cp(4, 2707, 707, -707),
        cp(7, 1000, 2000, 1000),
        cp(12, -741, -2698, -707),
        cp(15, 1232, -1866, 1000),
        cp(19, -1000, 2000, -1000),
        cp(24, -1259, -766, 707),
        cp(25, 0, -1000, 0),
    ]
}

/// The trefoil `(sin t + 2 sin 2t, cos t - 2 cos 2t, -sin 3t)` at `n` steps,
/// in thousandths, closed by repeating its first position.
fn trefoil(n: usize) -> Vec<ChainPoint> {
    let mut chain: Vec<ChainPoint> = (0..n)
        .map(|k| {
            let t = 2.0 * std::f64::consts::PI * k as f64 / n as f64;
            cp(
                k as i32 + 1,
                (1000.0 * (t.sin() + 2.0 * (2.0 * t).sin())).round() as i64,
                (1000.0 * (t.cos() - 2.0 * (2.0 * t).cos())).round() as i64,
                (-1000.0 * (3.0 * t).sin()).round() as i64,
            )
        })
        .collect();
    chain.push(ChainPoint::new(n as i32 + 1, chain[0].coord));
    chain
}

#[test]
fn empty_and_short_chains_are_unchanged() {
    assert!(reduce_chain(Vec::new()).is_empty());
    let one = vec![cp(7, 1, 2, 3)];
    assert_eq!(reduce_chain(one.clone()), one);
    let two = vec![cp(7, 1, 2, 3), cp(8, 4, 5, 6)];
    assert_eq!(reduce_chain(two.clone()), two);
}

#[test]
fn straight_chain_reduces_to_endpoints() {
    let chain: Vec<ChainPoint> = (0..10).map(|k| cp(100 + k as i32, 1000 * k, 2000 * k, -500 * k)).collect();
    let reduced = reduce_chain(chain.clone());
    assert_eq!(reduced, vec![chain[0], chain[9]]);
}

#[test]
fn planar_z_chain_reduces_to_endpoints() {
    let chain = vec![cp(1, 0, 0, 0), cp(2, 1000, 0, 0), cp(3, 0, 1000, 0), cp(4, 1000, 1000, 0)];
    assert_eq!(serials(&reduce_chain(chain)), vec![1, 4]);
}

#[test]
fn blocking_segment_keeps_candidate() {
    let chain = reduced_trefoil();
    for i in 2..chain.len() {
        assert!(is_sweep_blocked(&chain, i));
    }
    assert!((1..chain.len()).any(|j| j > 3 && segment_crosses_sweep(&chain, 2, j)));
    let reduced = reduce_chain(chain.clone());
    assert!(serials(&reduced).contains(&4));
    assert_eq!(reduced, chain);
}

#[test]
fn without_blocking_segment_candidate_is_removed() {
    let chain: Vec<ChainPoint> = reduced_trefoil()[..3].to_vec();
    assert!(!is_sweep_blocked(&chain, 2));
    assert_eq!(serials(&reduce_chain(chain)), vec![1, 7]);
}

#[test]
fn segment_leaving_last_corner_does_not_block() {
    // The last segment meets the first sweep only at the shared corner (0, 2, 0).
    let chain = vec![cp(0, 0, 0, 0), cp(1, 2, 0, 0), cp(2, 0, 2, 0), cp(3, 0, 2, 1)];
    assert!(!is_sweep_blocked(&chain, 2));
    assert!(segment_crosses_sweep(&chain, 2, 3));
    assert_eq!(serials(&reduce_chain_once(chain.clone())), vec![0, 3]);
    assert_eq!(serials(&reduce_chain(chain)), vec![0, 3]);
}

#[test]
fn bounding_segments_of_the_sweep_are_not_tested() {
    // Each segment touches its own triangle, yet a lone triple is reducible.
    let chain = vec![cp(1, 0, 0, 0), cp(2, 1000, 3000, 2000), cp(3, 4000, 0, -1000)];
    assert!(!is_sweep_blocked(&chain, 2));
    assert_eq!(serials(&reduce_chain(chain)), vec![1, 3]);
}

#[test]
fn closed_trefoil_keeps_its_crossings() {
    let chain = trefoil(24);
    let reduced = reduce_chain(chain);
    assert_eq!(serials(&reduced), vec![1, 4, 7, 12, 15, 19, 24, 25]);
    assert_eq!(reduced, reduced_trefoil());
}

#[test]
fn output_is_ordered_subsequence_with_endpoints() {
    let chain = vec![
        cp(10, 0, 0, 0),
        cp(11, 3000, 1000, 500),
        cp(12, 1000, 4000, -2000),
        cp(13, -2000, 1500, 3000),
        cp(14, 2500, -1000, 1000),
        cp(15, 500, 2500, -500),
        cp(16, 4000, 4000, 4000),
    ];
    let reduced = reduce_chain(chain.clone());
    assert_eq!(reduced[0], chain[0]);
    assert_eq!(*reduced.last().unwrap(), chain[6]);
    let mut from = 0;
    for point in &reduced {
        let at = chain[from..].iter().position(|c| c == point).unwrap();
        from += at + 1;
    }
}

#[test]
fn fully_blocked_chain_is_its_own_reduction() {
    let chain = reduced_trefoil();
    assert_eq!(reduce_chain_once(chain.clone()), chain);
    assert_eq!(reduce_chain(chain.clone()), chain);
}

#[test]
fn reducing_again_changes_nothing() {
    let chain = vec![
        cp(0, 0, 0, 0),
        cp(1, 1000, 0, 0),
        cp(2, 2000, 1000, 0),
        cp(3, 3000, 1000, 1000),
        cp(4, 4000, 0, 1000),
    ];
    let once = reduce_chain(chain);
    assert_eq!(serials(&once), vec![0, 4]);
    assert_eq!(reduce_chain(once.clone()), once);
    let knot = reduce_chain(trefoil(24));
    assert_eq!(reduce_chain(knot.clone()), knot);
}

#[test]
fn chain_vectors_point_from_second_to_first() {
    assert_eq!(calc_vector(&cp(1, 5, 7, 9), &cp(2, 1, 2, 3)), Vector3 { x: 4, y: 5, z: 6 });
}

#[test]
fn atoms_become_chain_points_in_order() {
    let atoms = vec![
        CaAtom::new(5, "CA".to_string(), "ALA".to_string(), 'A', 1, 11, 12, 13),
        CaAtom::new(9, "CA".to_string(), "GLY".to_string(), 'A', 2, -21, 22, -23),
    ];
    assert_eq!(ca_to_chainpoint(&atoms[1]), cp(9, -21, 22, -23));
    assert_eq!(backbone_to_chain(&atoms), vec![cp(5, 11, 12, 13), cp(9, -21, 22, -23)]);
    assert!(backbone_to_chain(&Vec::new()).is_empty());
}
