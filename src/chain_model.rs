//! The backbone chain and its topology-preserving reduction.
use vstd::prelude::*;
use crate::plane::{
    collinear, crossing, does_vector_pass_through_triangle_section, point_difference, v_sub, Point, Vector3,
    SPAN_LIMIT, v_within,
};
use crate::protein_model::CaAtom;
use crate::reduction_lemmas::{
    is_subsequence, lemma_pass_length, lemma_reduced_is_final, lemma_reduced_is_subsequence,
    lemma_reduced_keeps_endpoints, lemma_reduced_no_collinear_corner,
};

verus! {

/// One point of the chain: a position and the serial number of its atom.
#[derive(Clone, Copy, Debug, PartialEq, Eq, Structural)]
pub struct ChainPoint {
    pub serial: i32,
    pub coord: Point,
}

impl ChainPoint {
    pub fn new(serial: i32, coord: Point) -> (r: ChainPoint)
        ensures
            r.serial == serial,
            r.coord == coord,
    {
        ChainPoint { serial, coord }
    }
}

/// Every position of the chain lies within the coordinate bound.
pub open spec fn chain_wf(c: Seq<ChainPoint>) -> bool {
    forall|k: int| 0 <= k < c.len() ==> (#[trigger] c[k]).coord.wf()
}

pub fn ca_to_chainpoint(ca_atom: &CaAtom) -> (r: ChainPoint)
    ensures
        r.serial == ca_atom.serial,
        r.coord@ == (ca_atom.x as int, ca_atom.y as int, ca_atom.z as int),
{
    let coord = Point::new(ca_atom.x, ca_atom.y, ca_atom.z);
    ChainPoint::new(ca_atom.serial, coord)
}

/// One chain point per atom, in order.
pub fn backbone_to_chain(ca_atoms: &Vec<CaAtom>) -> (r: Vec<ChainPoint>)
    ensures
        r.len() == ca_atoms.len(),
        forall|k: int|
            0 <= k < r.len() ==> (#[trigger] r[k]).serial == ca_atoms[k].serial && r[k].coord@ == (
                ca_atoms[k].x as int,
                ca_atoms[k].y as int,
                ca_atoms[k].z as int,
            ),
{
    let mut chainpoints: Vec<ChainPoint> = Vec::new();
    let num_points = ca_atoms.len();
    let mut i: usize = 0;
    while i < num_points
        invariant
            num_points == ca_atoms.len(),
            i <= num_points,
            chainpoints.len() == i,
            forall|k: int|
                0 <= k < i ==> (#[trigger] chainpoints[k]).serial == ca_atoms[k].serial
                    && chainpoints[k].coord@ == (
                    ca_atoms[k].x as int,
                    ca_atoms[k].y as int,
                    ca_atoms[k].z as int,
                ),
        decreases num_points - i,
    {
        chainpoints.push(ca_to_chainpoint(&ca_atoms[i]));
        i = i + 1;
    }
    chainpoints
}

/// The vector from `point_b` to `point_a`.
pub fn calc_vector(point_a: &ChainPoint, point_b: &ChainPoint) -> (r: Vector3)
    requires
        point_a.coord.wf(),
        point_b.coord.wf(),
    ensures
        r@ == v_sub(point_a.coord@, point_b.coord@),
        v_within(r@, SPAN_LIMIT as int),
{
    point_difference(&point_a.coord, &point_b.coord)
}

/// The line through segment `j - 1, j` crosses the sweep triangle
/// `i - 2, i - 1, i`: one of the two rays from point `j` along the segment
/// meets it, from either side.
pub open spec fn segment_crosses(c: Seq<ChainPoint>, i: int, j: int) -> bool {
    let a = c[i - 2].coord@;
    let b = c[i - 1].coord@;
    let m = c[i].coord@;
    let o = c[j].coord@;
    crossing(a, b, m, o, v_sub(c[j].coord@, c[j - 1].coord@), false).is_some()
        || crossing(a, b, m, o, v_sub(c[j - 1].coord@, c[j].coord@), false).is_some()
}

/// Some segment of the chain crosses the sweep triangle `i - 2, i - 1, i`.
///
/// The two segments that bound the triangle are not tested, nor the segment
/// `i, i + 1` that leaves its last corner: the line of that segment meets the
/// triangle's plane only at that shared corner, or lies in the plane. (The
/// segment `i - 3, i - 2` needs no exclusion: its rays start at the corner
/// `i - 2`, and a meeting at a ray's own origin never counts.)
pub open spec fn sweep_blocked(c: Seq<ChainPoint>, i: int) -> bool {
    exists|j: int|
        1 <= j < c.len() && j != i - 1 && j != i && j != i + 1 && #[trigger] segment_crosses(c, i, j)
}

/// The reduction of `c` from cursor `i` on: where the sweep of point `i - 1` is
/// blocked the cursor moves on, else that point is removed and the cursor stays.
pub open spec fn reduce_from(c: Seq<ChainPoint>, i: int) -> Seq<ChainPoint>
    decreases 2 * c.len() - i,
{
    if i < 2 || i >= c.len() {
        c
    } else if sweep_blocked(c, i) {
        reduce_from(c, i + 1)
    } else {
        reduce_from(c.remove(i - 1), i)
    }
}

/// One pass of the reduction over the whole chain.
pub open spec fn reduce_pass(c: Seq<ChainPoint>) -> Seq<ChainPoint> {
    reduce_from(c, 2)
}

/// The reduced chain: passes repeated until one removes nothing.
pub open spec fn reduced(c: Seq<ChainPoint>) -> Seq<ChainPoint>
    decreases c.len(),
{
    if reduce_pass(c).len() < c.len() { reduced(reduce_pass(c)) } else { c }
}

/// Whether the line through segment `j - 1, j` crosses the sweep triangle of
/// point `i - 1`.
pub fn segment_crosses_sweep(chain: &Vec<ChainPoint>, i: usize, j: usize) -> (r: bool)
    requires
        chain_wf(chain@),
        2 <= i < chain.len(),
        1 <= j < chain.len(),
    ensures
        r == segment_crosses(chain@, i as int, j as int),
{
    let a = chain[i - 2].coord;
    let b = chain[i - 1].coord;
    let c = chain[i].coord;
    let ray_start = chain[j].coord;
    let ray_direction_fwd = calc_vector(&chain[j], &chain[j - 1]);
    let ray_direction_rev = calc_vector(&chain[j - 1], &chain[j]);
    let fwd = does_vector_pass_through_triangle_section(&a, &b, &c, &ray_start, &ray_direction_fwd, false);
    if fwd.is_some() {
        return true;
    }
    let rev = does_vector_pass_through_triangle_section(&a, &b, &c, &ray_start, &ray_direction_rev, false);
    rev.is_some()
}

/// Whether any segment that `sweep_blocked` tests crosses the sweep triangle
/// of point `i - 1`.
pub fn is_sweep_blocked(chain: &Vec<ChainPoint>, i: usize) -> (r: bool)
    requires
        chain_wf(chain@),
        2 <= i < chain.len(),
    ensures
        r == sweep_blocked(chain@, i as int),
{
    let mut j: usize = 1;
    while j < chain.len()
        invariant
            chain_wf(chain@),
            2 <= i < chain.len(),
            1 <= j <= chain.len(),
            forall|k: int|
                1 <= k < j && k != i - 1 && k != i && k != i + 1 ==> !#[trigger] segment_crosses(
                    chain@,
                    i as int,
                    k,
                ),
        decreases chain.len() - j,
    {
        if j != i - 1 && j != i && j != i + 1 && segment_crosses_sweep(chain, i, j) {
            return true;
        }
        j = j + 1;
    }
    false
}

/// One pass: scanning from the front, removes each interior point whose sweep
/// triangle no other segment of the chain crosses; the endpoints always stay.
pub fn reduce_chain_once(chain: Vec<ChainPoint>) -> (r: Vec<ChainPoint>)
    requires
        chain_wf(chain@),
    ensures
        r@ == reduce_pass(chain@),
        chain_wf(r@),
{
    let mut chain = chain;
    let ghost orig = chain@;
    let mut i: usize = 2;
    while i < chain.len()
        invariant
            2 <= i,
            chain_wf(chain@),
            reduce_from(chain@, i as int) == reduce_pass(orig),
        decreases 2 * chain.len() - i,
    {
        if is_sweep_blocked(&chain, i) {
            i = i + 1;
        } else {
            let ghost before = chain@;
            chain.remove(i - 1);
            proof {
                assert forall|k: int| 0 <= k < chain@.len() implies (#[trigger] chain@[k]).coord.wf() by {
                    if k < i - 1 {
                        assert(chain@[k] == before[k]);
                    } else {
                        assert(chain@[k] == before[k + 1]);
                    }
                }
            }
        }
    }
    chain
}

/// Reduces the chain until no interior point can be removed: every interior
/// point left has its sweep triangle crossed by some other segment, so none
/// is collinear with its neighbours, and reducing the result again changes
/// nothing. The endpoints always stay.
pub fn reduce_chain(chain: Vec<ChainPoint>) -> (r: Vec<ChainPoint>)
    requires
        chain_wf(chain@),
    ensures
        r@ == reduced(chain@),
        chain_wf(r@),
        chain@.len() <= 2 ==> r@ == chain@,
        is_subsequence(r@, chain@),
        chain@.len() >= 1 ==> r@.len() >= 1 && r@[0] == chain@[0] && r@.last() == chain@.last(),
        chain@.len() >= 2 ==> r@.len() >= 2,
        forall|k: int| 2 <= k < r@.len() ==> #[trigger] sweep_blocked(r@, k),
        forall|k: int|
            #![trigger r@[k]]
            2 <= k < r@.len() ==> !collinear(r@[k - 2].coord@, r@[k - 1].coord@, r@[k].coord@),
        reduced(r@) == r@,
{
    let ghost orig = chain@;
    proof {
        if orig.len() <= 2 {
            lemma_pass_length(orig, 2);
            assert(reduced(orig) == orig);
        }
    }
    let mut cur = chain;
    loop
        invariant
            orig == chain@,
            chain_wf(cur@),
            reduced(cur@) == reduced(orig),
            orig.len() <= 2 ==> reduced(orig) == orig,
        decreases cur@.len(),
    {
        let n = cur.len();
        let ghost before = cur@;
        let next = reduce_chain_once(cur);
        proof {
            lemma_pass_length(before, 2);
        }
        if next.len() == n {
            assert(next@ == before);
            assert(reduced(before) == before);
            proof {
                lemma_reduced_is_subsequence(orig);
                if orig.len() >= 1 {
                    lemma_reduced_keeps_endpoints(orig);
                }
                lemma_reduced_is_final(orig);
                lemma_reduced_no_collinear_corner(orig);
            }
            return next;
        }
        assert(reduced(before) == reduced(next@));
        cur = next;
    }
}

} // verus!
