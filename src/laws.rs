use vstd::prelude::*;

use crate::geometry::{in_box, Point};
use crate::octtree::{lemma_corners, root_node};
use crate::model::{
    built, has_index, lemma_built, bucket_has, consistent, contained, input_entry, input_sum, sub_node, tree_sum, weight, NodeView,
};

verus! {

/// Sum of the first `n` masses.
pub open spec fn mass_total(masses: Seq<u32>, n: nat) -> int
    decreases n,
{
    if n == 0 {
        0
    } else {
        mass_total(masses, (n - 1) as nat) + masses[n - 1]
    }
}

/// Sum of the coordinates on `axis` of the first `n` points.
pub open spec fn coord_total(positions: Seq<Point>, n: nat, axis: int) -> int
    decreases n,
{
    if n == 0 {
        0
    } else {
        coord_total(positions, (n - 1) as nat, axis) + positions[n - 1].coord(axis)
    }
}

/// The mass that construction sums up over the first `n` points is exactly the sum of
/// their masses.
pub proof fn lemma_input_mass(positions: Seq<Point>, masses: Seq<u32>, n: nat)
    ensures
        input_sum(positions, masses, n, 3) == mass_total(masses, n),
    decreases n,
{
    if n > 0 {
        lemma_input_mass(positions, masses, (n - 1) as nat);
    }
}

/// The masses in all the buckets of the tree that construction builds add up to exactly
/// the sum of the input masses.
pub proof fn lemma_mass_conservation(positions: Seq<Point>, masses: Seq<u32>)
    requires
        positions.len() == masses.len() <= u32::MAX,
    ensures
        tree_sum(built(root_node(positions), positions, masses, positions.len()), 3) == mass_total(
            masses,
            masses.len(),
        ),
{
    let root = root_node(positions);
    if positions.len() > 0 {
        lemma_corners(positions, positions.len());
    }
    lemma_built(root, positions, masses, positions.len());
    lemma_input_mass(positions, masses, positions.len());
}

proof fn lemma_equal_mass_sums(positions: Seq<Point>, masses: Seq<u32>, n: nat, m: u32, axis: int)
    requires
        n <= masses.len(),
        forall|i: int| 0 <= i < n ==> #[trigger] masses[i] == m,
        0 <= axis < 3,
    ensures
        input_sum(positions, masses, n, axis) == m * coord_total(positions, n, axis),
        input_sum(positions, masses, n, 3) == n * m,
    decreases n,
{
    if n > 0 {
        let k = (n - 1) as nat;
        lemma_equal_mass_sums(positions, masses, k, m, axis);
        let e = input_entry(positions, masses, n - 1);
        assert(weight(e, axis) == m * positions[n - 1].coord(axis));
        let c = coord_total(positions, k, axis);
        let p = positions[n - 1].coord(axis);
        assert(m * c + m * p == m * (c + p)) by (nonlinear_arith);
        assert(k * m + m == n * m) by (nonlinear_arith)
            requires
                k + 1 == n,
        ;
    }
}

/// Points of equal mass whose coordinates average to `center` have their center of
/// mass there: on every axis the mass-weighted sum that construction aggregates is the
/// total mass times the coordinate of `center`.
pub proof fn lemma_equal_masses_centroid(
    positions: Seq<Point>,
    masses: Seq<u32>,
    m: u32,
    center: Point,
)
    requires
        positions.len() == masses.len(),
        forall|i: int| 0 <= i < masses.len() ==> #[trigger] masses[i] == m,
        forall|axis: int|
            0 <= axis < 3 ==> #[trigger] coord_total(positions, positions.len(), axis)
                == positions.len() * center.coord(axis),
    ensures
        forall|axis: int|
            0 <= axis < 3 ==> #[trigger] input_sum(positions, masses, positions.len(), axis)
                == input_sum(positions, masses, positions.len(), 3) * center.coord(axis),
{
    let n = positions.len();
    assert forall|axis: int| 0 <= axis < 3 implies #[trigger] input_sum(
        positions,
        masses,
        n,
        axis,
    ) == input_sum(positions, masses, n, 3) * center.coord(axis) by {
        lemma_equal_mass_sums(positions, masses, n, m, axis);
        let c = center.coord(axis);
        assert(m * (n * c) == (n * m) * c) by (nonlinear_arith);
    }
}

/// A node that `find` can return for index `i` (a node of the tree whose bucket holds
/// `i`) lies on a box that holds the point of index `i`, in any tree whose entries lie in
/// their nodes' boxes and carry the positions of their indices.
pub proof fn lemma_found_node_contains(v: NodeView, n: NodeView, positions: Seq<Point>, i: usize)
    requires
        contained(v),
        consistent(v, positions),
        sub_node(v, n),
        bucket_has(n, i),
    ensures
        i < positions.len(),
        in_box(n.lo, n.hi, positions[i as int]),
    decreases v,
{
    if v == n {
        let j = choose|j: int| 0 <= j < n.bucket.len() && (#[trigger] n.bucket[j]).index == i;
        assert(in_box(n.lo, n.hi, n.bucket[j].position));
    } else {
        let k = choose|k: int| 0 <= k < v.children.len() && sub_node(#[trigger] v.children[k], n);
        lemma_found_node_contains(v.children[k], n, positions, i);
    }
}

/// In the tree that construction builds, some bucket holds the index of every input
/// point, and each node whose bucket holds it lies on a box that holds the point.
pub proof fn lemma_construction_containment(
    positions: Seq<Point>,
    masses: Seq<u32>,
    i: usize,
    n: NodeView,
)
    requires
        positions.len() == masses.len() <= u32::MAX,
        i < positions.len(),
    ensures
        has_index(built(root_node(positions), positions, masses, positions.len()), i),
        sub_node(built(root_node(positions), positions, masses, positions.len()), n) && bucket_has(
            n,
            i,
        ) ==> in_box(n.lo, n.hi, positions[i as int]),
{
    let root = root_node(positions);
    lemma_corners(positions, positions.len());
    lemma_built(root, positions, masses, positions.len());
    let t = built(root, positions, masses, positions.len());
    if sub_node(t, n) && bucket_has(n, i) {
        lemma_found_node_contains(t, n, positions, i);
    }
}

} // verus!
