//! What holds of every reduction.
use vstd::prelude::*;
use crate::chain_model::{reduce_from, reduce_pass, reduced, segment_crosses, sweep_blocked, ChainPoint};
use crate::plane::{collinear, lemma_degenerate_never_crossed, v_sub};

verus! {

/// `idx` maps each position of `s` to a position of `t` holding the same
/// element, in strictly increasing order.
pub open spec fn is_index_map(idx: Seq<int>, s: Seq<ChainPoint>, t: Seq<ChainPoint>) -> bool {
    &&& idx.len() == s.len()
    &&& forall|k: int| 0 <= k < idx.len() ==> 0 <= #[trigger] idx[k] < t.len()
    &&& forall|k: int, l: int| 0 <= k < l < idx.len() ==> #[trigger] idx[k] < #[trigger] idx[l]
    &&& forall|k: int| 0 <= k < s.len() ==> #[trigger] s[k] == t[idx[k]]
}

/// `s` is `t` with some elements left out, the rest in their order.
pub open spec fn is_subsequence(s: Seq<ChainPoint>, t: Seq<ChainPoint>) -> bool {
    exists|idx: Seq<int>| is_index_map(idx, s, t)
}

proof fn lemma_subsequence_refl(t: Seq<ChainPoint>)
    ensures
        is_subsequence(t, t),
{
    let idx = Seq::new(t.len(), |k: int| k);
    assert(is_index_map(idx, t, t));
}

proof fn lemma_subsequence_remove(t: Seq<ChainPoint>, r: int)
    requires
        0 <= r < t.len(),
    ensures
        is_subsequence(t.remove(r), t),
{
    let s = t.remove(r);
    let idx = Seq::new(s.len(), |k: int| if k < r { k } else { k + 1 });
    assert(is_index_map(idx, s, t));
}

proof fn lemma_subsequence_trans(a: Seq<ChainPoint>, b: Seq<ChainPoint>, c: Seq<ChainPoint>)
    requires
        is_subsequence(a, b),
        is_subsequence(b, c),
    ensures
        is_subsequence(a, c),
{
    let i1 = choose|idx: Seq<int>| is_index_map(idx, a, b);
    let i2 = choose|idx: Seq<int>| is_index_map(idx, b, c);
    let idx = Seq::new(a.len(), |k: int| i2[i1[k]]);
    assert forall|k: int, l: int| 0 <= k < l < idx.len() implies #[trigger] idx[k] < #[trigger] idx[l] by {
        assert(i1[k] < i1[l]);
    }
    assert forall|k: int| 0 <= k < a.len() implies #[trigger] a[k] == c[idx[k]] by {
        assert(a[k] == b[i1[k]]);
    }
    assert(is_index_map(idx, a, c));
}

proof fn lemma_reduce_from_subsequence(c: Seq<ChainPoint>, i: int)
    ensures
        is_subsequence(reduce_from(c, i), c),
    decreases 2 * c.len() - i,
{
    if i < 2 || i >= c.len() {
        lemma_subsequence_refl(c);
    } else if sweep_blocked(c, i) {
        lemma_reduce_from_subsequence(c, i + 1);
    } else {
        lemma_reduce_from_subsequence(c.remove(i - 1), i);
        lemma_subsequence_remove(c, i - 1);
        lemma_subsequence_trans(reduce_from(c, i), c.remove(i - 1), c);
    }
}

/// The reduced chain keeps some of the input's points, each with its serial
/// number and position, in their order.
pub proof fn lemma_reduced_is_subsequence(c: Seq<ChainPoint>)
    ensures
        is_subsequence(reduced(c), c),
    decreases c.len(),
{
    let p = reduce_pass(c);
    if p.len() < c.len() {
        lemma_reduced_is_subsequence(p);
        lemma_reduce_from_subsequence(c, 2);
        lemma_subsequence_trans(reduced(p), p, c);
    } else {
        lemma_subsequence_refl(c);
    }
}

proof fn lemma_reduce_from_endpoints(c: Seq<ChainPoint>, i: int)
    requires
        2 <= i,
        c.len() >= 2,
    ensures
        reduce_from(c, i).len() >= 2,
        reduce_from(c, i)[0] == c[0],
        reduce_from(c, i).last() == c.last(),
    decreases 2 * c.len() - i,
{
    if i >= c.len() {
    } else if sweep_blocked(c, i) {
        lemma_reduce_from_endpoints(c, i + 1);
    } else {
        let d = c.remove(i - 1);
        assert(d[0] == c[0]);
        assert(d.last() == c.last());
        lemma_reduce_from_endpoints(d, i);
    }
}

/// The first and the last point of a chain stay in the reduced chain, first
/// and last, with the same serial number and position.
pub proof fn lemma_reduced_keeps_endpoints(c: Seq<ChainPoint>)
    requires
        c.len() >= 1,
    ensures
        reduced(c).len() >= 1,
        reduced(c)[0] == c[0],
        reduced(c).last() == c.last(),
        c.len() >= 2 ==> reduced(c).len() >= 2,
    decreases c.len(),
{
    let p = reduce_pass(c);
    if p.len() < c.len() {
        lemma_reduce_from_endpoints(c, 2);
        lemma_reduced_keeps_endpoints(p);
    }
}

proof fn lemma_reduce_from_keeps_prefix(c: Seq<ChainPoint>, i: int)
    requires
        2 <= i <= c.len(),
    ensures
        reduce_from(c, i).len() >= i - 1,
        forall|k: int| 0 <= k < i - 1 ==> #[trigger] reduce_from(c, i)[k] == c[k],
    decreases 2 * c.len() - i,
{
    if i >= c.len() {
    } else if sweep_blocked(c, i) {
        lemma_reduce_from_keeps_prefix(c, i + 1);
    } else {
        let d = c.remove(i - 1);
        lemma_reduce_from_keeps_prefix(d, i);
        assert forall|k: int| 0 <= k < i - 1 implies #[trigger] reduce_from(c, i)[k] == c[k] by {
            assert(d[k] == c[k]);
        }
    }
}

/// Wherever the reduction reaches cursor `i` with the sweep triangle of point
/// `i - 1` crossed by some other segment, that point and all before it stay,
/// in place, in the result.
pub proof fn lemma_blocked_sweep_keeps_point(c: Seq<ChainPoint>, i: int)
    requires
        2 <= i < c.len(),
        sweep_blocked(c, i),
    ensures
        reduce_from(c, i).len() >= i,
        forall|k: int| 0 <= k < i ==> #[trigger] reduce_from(c, i)[k] == c[k],
{
    lemma_reduce_from_keeps_prefix(c, i + 1);
}

/// A pass never lengthens the chain from cursor `i` on; where it keeps the
/// length it changes nothing, and every sweep from `i` on is blocked.
pub proof fn lemma_pass_length(c: Seq<ChainPoint>, i: int)
    requires
        2 <= i,
    ensures
        reduce_from(c, i).len() <= c.len(),
        reduce_from(c, i).len() == c.len() ==> reduce_from(c, i) == c,
        reduce_from(c, i).len() == c.len() ==> forall|k: int| i <= k < c.len() ==> #[trigger] sweep_blocked(c, k),
    decreases 2 * c.len() - i,
{
    if i >= c.len() {
    } else if sweep_blocked(c, i) {
        lemma_pass_length(c, i + 1);
    } else {
        lemma_pass_length(c.remove(i - 1), i);
    }
}

/// Where some other segment crosses the sweep triangle of the first interior
/// point, the first pass keeps that point. Where none does, the first pass
/// removes it: the reduction is that of the chain without it, and keeps only
/// points of that chain.
pub proof fn lemma_blocked_candidate_kept(c: Seq<ChainPoint>)
    requires
        c.len() >= 3,
    ensures
        sweep_blocked(c, 2) ==> reduce_pass(c)[1] == c[1],
        !sweep_blocked(c, 2) ==> reduce_pass(c) == reduce_pass(c.remove(1)),
        !sweep_blocked(c, 2) ==> reduced(c) == reduced(c.remove(1)),
        !sweep_blocked(c, 2) ==> is_subsequence(reduced(c), c.remove(1)),
{
    if sweep_blocked(c, 2) {
        lemma_blocked_sweep_keeps_point(c, 2);
    } else {
        let d = c.remove(1);
        lemma_pass_length(d, 2);
        lemma_reduced_is_subsequence(d);
    }
}

proof fn lemma_reduce_from_fixed(c: Seq<ChainPoint>, i: int)
    requires
        2 <= i,
        forall|k: int| 2 <= k < c.len() ==> #[trigger] sweep_blocked(c, k),
    ensures
        reduce_from(c, i) == c,
    decreases c.len() - i,
{
    if i < c.len() {
        lemma_reduce_from_fixed(c, i + 1);
    }
}

/// A chain in which every interior point's sweep triangle is crossed by some
/// other segment is its own reduction.
pub proof fn lemma_fully_blocked_chain_is_reduced(c: Seq<ChainPoint>)
    requires
        forall|k: int| 2 <= k < c.len() ==> #[trigger] sweep_blocked(c, k),
    ensures
        reduced(c) == c,
{
    lemma_reduce_from_fixed(c, 2);
}

/// In the reduced chain every interior point's sweep triangle is crossed by
/// some other segment, so the reduced chain is its own reduction.
pub proof fn lemma_reduced_is_final(c: Seq<ChainPoint>)
    ensures
        forall|k: int| 2 <= k < reduced(c).len() ==> #[trigger] sweep_blocked(reduced(c), k),
        reduced(reduced(c)) == reduced(c),
    decreases c.len(),
{
    let p = reduce_pass(c);
    lemma_pass_length(c, 2);
    if p.len() < c.len() {
        lemma_reduced_is_final(p);
    }
}

/// Reducing a reduced chain again changes nothing.
pub proof fn lemma_reduction_is_idempotent(c: Seq<ChainPoint>)
    ensures
        reduced(reduced(c)) == reduced(c),
{
    lemma_reduced_is_final(c);
}

/// No interior point of the reduced chain is collinear with its two
/// neighbours: a sweep without area is never crossed, so it is always removed.
pub proof fn lemma_reduced_no_collinear_corner(c: Seq<ChainPoint>)
    ensures
        forall|k: int|
            #![trigger reduced(c)[k]]
            2 <= k < reduced(c).len() ==> !collinear(
                reduced(c)[k - 2].coord@,
                reduced(c)[k - 1].coord@,
                reduced(c)[k].coord@,
            ),
{
    let r = reduced(c);
    lemma_reduced_is_final(c);
    assert forall|k: int| #![trigger r[k]] 2 <= k < r.len() implies !collinear(
        r[k - 2].coord@,
        r[k - 1].coord@,
        r[k].coord@,
    ) by {
        assert(sweep_blocked(r, k));
        let j = choose|j: int|
            1 <= j < r.len() && j != k - 1 && j != k && j != k + 1 && #[trigger] segment_crosses(r, k, j);
        if collinear(r[k - 2].coord@, r[k - 1].coord@, r[k].coord@) {
            lemma_degenerate_never_crossed(
                r[k - 2].coord@,
                r[k - 1].coord@,
                r[k].coord@,
                r[j].coord@,
                v_sub(r[j].coord@, r[j - 1].coord@),
                false,
            );
            lemma_degenerate_never_crossed(
                r[k - 2].coord@,
                r[k - 1].coord@,
                r[k].coord@,
                r[j].coord@,
                v_sub(r[j - 1].coord@, r[j].coord@),
                false,
            );
        }
    }
}

} // verus!
