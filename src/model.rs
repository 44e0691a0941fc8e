use vstd::prelude::*;

use crate::geometry::{
    box_ok, child_hi, child_lo, in_box, lemma_child_box, lemma_octant_box, octant, Point,
};

verus! {

/// One stored point: its index in the input, its position and its mass.
#[derive(Clone, Copy, Debug, PartialEq, Eq, Structural)]
pub struct Entry {
    pub index: usize,
    pub position: Point,
    pub mass: u32,
}

/// What an entry adds to a sum over a node: for `q` in 0..3 its mass times its
/// coordinate on that axis, for `q == 3` its mass, for `q == 4` one (a count).
pub open spec fn weight(e: Entry, q: int) -> int {
    if q == 3 {
        e.mass as int
    } else if q == 4 {
        1
    } else {
        e.mass as int * e.position.coord(q)
    }
}

/// The largest size of `weight(e, q)` for any entry.
pub open spec fn weight_bound(q: int) -> int {
    if q == 3 {
        0xffff_ffff
    } else if q == 4 {
        1
    } else {
        0x8000_0000_0000_0000
    }
}

/// A node as mathematics sees it: its bucket, its closed box and its children
/// (none, or one for each octant).
pub struct NodeView {
    pub bucket: Seq<Entry>,
    pub lo: Point,
    pub hi: Point,
    pub children: Seq<NodeView>,
}

pub open spec fn bucket_sum(s: Seq<Entry>, q: int) -> int
    decreases s.len(),
{
    if s.len() == 0 {
        0
    } else {
        bucket_sum(s.drop_last(), q) + weight(s.last(), q)
    }
}

/// Sum of `weight(_, q)` over every entry of every bucket of the subtree.
pub open spec fn tree_sum(v: NodeView, q: int) -> int
    decreases v,
{
    bucket_sum(v.bucket, q) + forest_sum(v.children, q)
}

pub open spec fn forest_sum(f: Seq<NodeView>, q: int) -> int
    decreases f,
{
    if f.len() == 0 {
        0
    } else {
        forest_sum(f.subrange(0, f.len() - 1), q) + tree_sum(f[f.len() - 1], q)
    }
}

/// Shape of a tree: buckets hold at most eight entries, boxes are not empty, and a
/// node has children only with a full bucket, eight of them, each on the box of
/// its octant.
pub open spec fn wf(v: NodeView) -> bool
    decreases v,
{
    &&& v.bucket.len() <= 8
    &&& box_ok(v.lo, v.hi)
    &&& v.children.len() == 0 || (v.children.len() == 8 && v.bucket.len() == 8 && forall|k: int|
        0 <= k < 8 ==> {
            &&& (#[trigger] v.children[k]).lo == child_lo(v.lo, v.hi, k)
            &&& v.children[k].hi == child_hi(v.lo, v.hi, k)
            &&& wf(v.children[k])
        })
}

/// Every entry lies in the box of the node whose bucket holds it.
pub open spec fn contained(v: NodeView) -> bool
    decreases v,
{
    &&& forall|j: int| 0 <= j < v.bucket.len() ==> in_box(v.lo, v.hi, #[trigger] v.bucket[j].position)
    &&& forall|k: int| 0 <= k < v.children.len() ==> contained(#[trigger] v.children[k])
}

/// Every entry is the point of `positions` that its index names.
pub open spec fn consistent(v: NodeView, positions: Seq<Point>) -> bool
    decreases v,
{
    &&& forall|j: int|
        0 <= j < v.bucket.len() ==> {
            &&& (#[trigger] v.bucket[j]).index < positions.len()
            &&& v.bucket[j].position == positions[v.bucket[j].index as int]
        }
    &&& forall|k: int| 0 <= k < v.children.len() ==> consistent(#[trigger] v.children[k], positions)
}

/// The bucket of this node holds an entry with index `i`.
pub open spec fn bucket_has(v: NodeView, i: usize) -> bool {
    exists|j: int| 0 <= j < v.bucket.len() && (#[trigger] v.bucket[j]).index == i
}

/// Some bucket of the subtree holds an entry with index `i`.
pub open spec fn has_index(v: NodeView, i: usize) -> bool
    decreases v,
{
    ||| bucket_has(v, i)
    ||| exists|k: int| 0 <= k < v.children.len() && has_index(#[trigger] v.children[k], i)
}

/// `n` is a node of the subtree rooted at `v`.
pub open spec fn sub_node(v: NodeView, n: NodeView) -> bool
    decreases v,
{
    ||| v == n
    ||| exists|k: int| 0 <= k < v.children.len() && sub_node(#[trigger] v.children[k], n)
}

pub open spec fn empty_node(lo: Point, hi: Point) -> NodeView {
    NodeView { bucket: Seq::empty(), lo, hi, children: Seq::empty() }
}

/// The eight children that a node on `[lo, hi]` is given when its bucket overflows.
pub open spec fn fresh_children(lo: Point, hi: Point) -> Seq<NodeView> {
    Seq::new(8, |k: int| empty_node(child_lo(lo, hi, k), child_hi(lo, hi, k)))
}

/// The tree after `e` is added: into the bucket while it has room, else into the
/// child of the octant of `e`, the eight children being made on first need.
pub open spec fn insert(v: NodeView, e: Entry) -> NodeView
    decreases v,
{
    if v.bucket.len() < 8 {
        NodeView { bucket: v.bucket.push(e), lo: v.lo, hi: v.hi, children: v.children }
    } else {
        let k = octant(v.lo, v.hi, e.position);
        if v.children.len() == 0 {
            let kids = fresh_children(v.lo, v.hi);
            NodeView {
                bucket: v.bucket,
                lo: v.lo,
                hi: v.hi,
                children: kids.update(k, insert_local(kids[k], e)),
            }
        } else if 0 <= k < v.children.len() {
            NodeView {
                bucket: v.bucket,
                lo: v.lo,
                hi: v.hi,
                children: v.children.update(k, insert(v.children[k], e)),
            }
        } else {
            v
        }
    }
}

/// `e` added to the bucket of `v` itself.
pub open spec fn insert_local(v: NodeView, e: Entry) -> NodeView {
    NodeView { bucket: v.bucket.push(e), lo: v.lo, hi: v.hi, children: v.children }
}

/// The entry that construction makes of point `i` of the input.
pub open spec fn input_entry(positions: Seq<Point>, masses: Seq<u32>, i: int) -> Entry {
    Entry { index: i as usize, position: positions[i], mass: masses[i] }
}

/// `root` after the first `n` input points were added in order.
pub open spec fn built(root: NodeView, positions: Seq<Point>, masses: Seq<u32>, n: nat) -> NodeView
    decreases n,
{
    if n == 0 {
        root
    } else {
        insert(built(root, positions, masses, (n - 1) as nat), input_entry(positions, masses, n - 1))
    }
}

/// Sum of `weight(_, q)` over the first `n` input points.
pub open spec fn input_sum(positions: Seq<Point>, masses: Seq<u32>, n: nat, q: int) -> int
    decreases n,
{
    if n == 0 {
        0
    } else {
        input_sum(positions, masses, (n - 1) as nat, q) + weight(
            input_entry(positions, masses, n - 1),
            q,
        )
    }
}

pub proof fn lemma_bucket_push(s: Seq<Entry>, e: Entry, q: int)
    ensures
        bucket_sum(s.push(e), q) == bucket_sum(s, q) + weight(e, q),
{
    assert(s.push(e).drop_last() =~= s);
}

pub proof fn lemma_forest_update(f: Seq<NodeView>, k: int, x: NodeView, q: int)
    requires
        0 <= k < f.len(),
    ensures
        forest_sum(f.update(k, x), q) == forest_sum(f, q) - tree_sum(f[k], q) + tree_sum(x, q),
    decreases f.len(),
{
    let g = f.update(k, x);
    let n = f.len() - 1;
    if k == n {
        assert(g.subrange(0, n) =~= f.subrange(0, n));
    } else {
        assert(g.subrange(0, n) =~= f.subrange(0, n).update(k, x));
        lemma_forest_update(f.subrange(0, n), k, x, q);
    }
}

pub proof fn lemma_forest_zero(f: Seq<NodeView>, q: int)
    requires
        forall|k: int| 0 <= k < f.len() ==> tree_sum(#[trigger] f[k], q) == 0,
    ensures
        forest_sum(f, q) == 0,
    decreases f.len(),
{
    if f.len() > 0 {
        let g = f.subrange(0, f.len() - 1);
        assert forall|k: int| 0 <= k < g.len() implies tree_sum(#[trigger] g[k], q) == 0 by {
            assert(g[k] == f[k]);
        }
        lemma_forest_zero(g, q);
    }
}

pub proof fn lemma_empty_sum(lo: Point, hi: Point, q: int)
    ensures
        tree_sum(empty_node(lo, hi), q) == 0,
{
    reveal_with_fuel(forest_sum, 1);
    reveal_with_fuel(bucket_sum, 1);
}

pub proof fn lemma_fresh_sum(lo: Point, hi: Point, q: int)
    ensures
        forest_sum(fresh_children(lo, hi), q) == 0,
{
    let f = fresh_children(lo, hi);
    assert forall|k: int| 0 <= k < f.len() implies tree_sum(#[trigger] f[k], q) == 0 by {
        lemma_empty_sum(child_lo(lo, hi, k), child_hi(lo, hi, k), q);
    }
    lemma_forest_zero(f, q);
}

/// What adding an entry does to a tree: its shape stays valid, every sum grows by
/// the entry's weight, the entry can be found, and what held of every entry still
/// holds when it holds of the new one.
pub proof fn lemma_insert(v: NodeView, e: Entry, positions: Seq<Point>, i: usize)
    requires
        wf(v),
    ensures
        wf(insert(v, e)),
        insert(v, e).lo == v.lo,
        insert(v, e).hi == v.hi,
        forall|q: int| #[trigger] tree_sum(insert(v, e), q) == tree_sum(v, q) + weight(e, q),
        has_index(insert(v, e), e.index),
        has_index(v, i) ==> has_index(insert(v, e), i),
        consistent(v, positions) && e.index < positions.len() && e.position == positions[e.index as int]
            ==> consistent(insert(v, e), positions),
        contained(v) && in_box(v.lo, v.hi, e.position) ==> contained(insert(v, e)),
    decreases v,
{
    let w = insert(v, e);
    if v.bucket.len() < 8 {
        assert forall|q: int| #[trigger] tree_sum(w, q) == tree_sum(v, q) + weight(e, q) by {
            lemma_bucket_push(v.bucket, e, q);
        }
        assert(w.bucket[v.bucket.len() as int] == e);
        assert(bucket_has(w, e.index));
        if bucket_has(v, i) {
            let j = choose|j: int| 0 <= j < v.bucket.len() && (#[trigger] v.bucket[j]).index == i;
            assert(w.bucket[j] == v.bucket[j]);
        } else if has_index(v, i) {
            let k = choose|k: int| 0 <= k < v.children.len() && has_index(#[trigger] v.children[k], i);
            assert(w.children[k] == v.children[k]);
        }
        assert(wf(w));
    } else {
        let k = octant(v.lo, v.hi, e.position);
        lemma_octant_box(v.lo, v.hi, e.position);
        let kids = if v.children.len() == 0 { fresh_children(v.lo, v.hi) } else { v.children };
        let old_child = kids[k];
        let new_child = w.children[k];
        assert(w.children == kids.update(k, new_child));
        if v.children.len() == 0 {
            let b0 = old_child.bucket;
            assert(new_child == insert_local(old_child, e));
            assert(new_child.bucket[0] == e);
            assert(bucket_has(new_child, e.index));
            assert(has_index(new_child, e.index));
            assert forall|q: int| #[trigger] tree_sum(w, q) == tree_sum(v, q) + weight(e, q) by {
                lemma_bucket_push(b0, e, q);
                lemma_fresh_sum(v.lo, v.hi, q);
                lemma_empty_sum(old_child.lo, old_child.hi, q);
                lemma_forest_update(kids, k, new_child, q);
                reveal_with_fuel(forest_sum, 1);
            }
            assert forall|m: int| 0 <= m < 8 implies {
                &&& (#[trigger] w.children[m]).lo == child_lo(w.lo, w.hi, m)
                &&& w.children[m].hi == child_hi(w.lo, w.hi, m)
                &&& wf(w.children[m])
            } by {
                lemma_child_box(v.lo, v.hi, m);
                if m == k {
                    assert(new_child.bucket.len() == 1);
                }
            }
            assert(wf(w));
            if contained(v) && in_box(v.lo, v.hi, e.position) {
                assert forall|m: int| 0 <= m < w.children.len() implies contained(
                    #[trigger] w.children[m],
                ) by {
                    if m == k {
                        assert(new_child.bucket.len() == 1);
                    }
                }
            }
            if consistent(v, positions) && e.index < positions.len() && e.position
                == positions[e.index as int] {
                assert forall|m: int| 0 <= m < w.children.len() implies consistent(
                    #[trigger] w.children[m],
                    positions,
                ) by {
                    if m == k {
                        assert(new_child.bucket.len() == 1);
                    }
                }
            }
        } else {
            lemma_insert(old_child, e, positions, i);
            assert forall|q: int| #[trigger] tree_sum(w, q) == tree_sum(v, q) + weight(e, q) by {
                lemma_forest_update(kids, k, new_child, q);
            }
            assert forall|m: int| 0 <= m < 8 implies {
                &&& (#[trigger] w.children[m]).lo == child_lo(w.lo, w.hi, m)
                &&& w.children[m].hi == child_hi(w.lo, w.hi, m)
                &&& wf(w.children[m])
            } by {
                if m != k {
                    assert(w.children[m] == v.children[m]);
                }
            }
            assert(wf(w));
            if has_index(v, i) && !bucket_has(v, i) {
                let m = choose|m: int| 0 <= m < v.children.len() && has_index(#[trigger] v.children[m], i);
                if m != k {
                    assert(w.children[m] == v.children[m]);
                }
                assert(has_index(w.children[m], i));
            }
            if contained(v) && in_box(v.lo, v.hi, e.position) {
                assert(contained(old_child));
                assert forall|m: int| 0 <= m < w.children.len() implies contained(
                    #[trigger] w.children[m],
                ) by {
                    if m != k {
                        assert(w.children[m] == v.children[m]);
                    }
                }
            }
            if consistent(v, positions) && e.index < positions.len() && e.position
                == positions[e.index as int] {
                assert(consistent(old_child, positions));
                assert forall|m: int| 0 <= m < w.children.len() implies consistent(
                    #[trigger] w.children[m],
                    positions,
                ) by {
                    if m != k {
                        assert(w.children[m] == v.children[m]);
                    }
                }
            }
        }
        assert(has_index(w.children[k], e.index));
        if bucket_has(v, i) {
            let j = choose|j: int| 0 <= j < v.bucket.len() && (#[trigger] v.bucket[j]).index == i;
            assert(w.bucket[j] == v.bucket[j]);
        }
    }
}

/// What construction builds from the first `n` input points, all inside the root box.
pub proof fn lemma_built(root: NodeView, positions: Seq<Point>, masses: Seq<u32>, n: nat)
    requires
        root == empty_node(root.lo, root.hi),
        box_ok(root.lo, root.hi),
        n <= positions.len() <= usize::MAX,
        n <= masses.len(),
        forall|i: int| 0 <= i < n ==> in_box(root.lo, root.hi, #[trigger] positions[i]),
    ensures
        wf(built(root, positions, masses, n)),
        built(root, positions, masses, n).lo == root.lo,
        built(root, positions, masses, n).hi == root.hi,
        forall|q: int| #[trigger] tree_sum(built(root, positions, masses, n), q) == input_sum(
            positions,
            masses,
            n,
            q,
        ),
        forall|i: usize| i < n ==> #[trigger] has_index(built(root, positions, masses, n), i),
        consistent(built(root, positions, masses, n), positions),
        contained(built(root, positions, masses, n)),
    decreases n,
{
    let v = built(root, positions, masses, n);
    if n == 0 {
        assert forall|q: int| #[trigger] tree_sum(v, q) == input_sum(positions, masses, n, q) by {
            lemma_empty_sum(root.lo, root.hi, q);
        }
    } else {
        let m = (n - 1) as nat;
        let u = built(root, positions, masses, m);
        let e = input_entry(positions, masses, n - 1);
        lemma_built(root, positions, masses, m);
        assert(e.index as int == n - 1);
        lemma_insert(u, e, positions, e.index);
        assert forall|i: usize| i < n implies #[trigger] has_index(v, i) by {
            lemma_insert(u, e, positions, i);
        }
    }
}

/// Sum of the sizes of the weights in a bucket is bounded by its length.
pub proof fn lemma_bucket_bound(s: Seq<Entry>, q: int)
    requires
        0 <= q < 5,
    ensures
        -(s.len() * weight_bound(q)) <= bucket_sum(s, q) <= s.len() * weight_bound(q),
        bucket_sum(s, 4) == s.len(),
        q >= 3 ==> bucket_sum(s, q) >= 0,
    decreases s.len(),
{
    if s.len() > 0 {
        lemma_bucket_bound(s.drop_last(), q);
        let e = s.last();
        if q < 3 {
            let c = e.position.coord(q);
            let m = e.mass as int;
            assert(-0x8000_0000 <= c < 0x8000_0000);
            assert(0 <= m <= 0xffff_ffff);
            assert(-0x8000_0000_0000_0000 <= m * c <= 0x8000_0000_0000_0000) by (nonlinear_arith)
                requires
                    -0x8000_0000 <= c < 0x8000_0000,
                    0 <= m <= 0xffff_ffff,
            ;
        }
        assert((s.len() - 1) * weight_bound(q) + weight_bound(q) == s.len() * weight_bound(q))
            by (nonlinear_arith);
    }
}

/// Sum of the sizes of the weights in a tree is bounded by its number of entries.
pub proof fn lemma_tree_bound(v: NodeView, q: int)
    requires
        0 <= q < 5,
    ensures
        -(tree_sum(v, 4) * weight_bound(q)) <= tree_sum(v, q) <= tree_sum(v, 4) * weight_bound(q),
        tree_sum(v, 4) >= 0,
        q >= 3 ==> tree_sum(v, q) >= 0,
    decreases v,
{
    lemma_bucket_bound(v.bucket, q);
    lemma_bucket_bound(v.bucket, 4);
    lemma_forest_bound(v.children, q);
    let a = bucket_sum(v.bucket, 4);
    let b = forest_sum(v.children, 4);
    assert((a + b) * weight_bound(q) == a * weight_bound(q) + b * weight_bound(q))
        by (nonlinear_arith);
}

pub proof fn lemma_forest_bound(f: Seq<NodeView>, q: int)
    requires
        0 <= q < 5,
    ensures
        -(forest_sum(f, 4) * weight_bound(q)) <= forest_sum(f, q) <= forest_sum(f, 4)
            * weight_bound(q),
        forest_sum(f, 4) >= 0,
        q >= 3 ==> forest_sum(f, q) >= 0,
    decreases f,
{
    if f.len() > 0 {
        let g = f.subrange(0, f.len() - 1);
        lemma_forest_bound(g, q);
        lemma_tree_bound(f[f.len() - 1], q);
        let a = forest_sum(g, 4);
        let b = tree_sum(f[f.len() - 1], 4);
        assert((a + b) * weight_bound(q) == a * weight_bound(q) + b * weight_bound(q))
            by (nonlinear_arith);
    }
}

} // verus!
