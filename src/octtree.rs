use vstd::prelude::*;

use crate::geometry::{box_ok, in_box, child_bounds, child_hi, child_lo, octant, octant_of, Point};
use crate::model::{
    built, bucket_has, bucket_sum, consistent, contained, empty_node, input_entry, input_sum,
    lemma_built, forest_sum, lemma_bucket_bound, lemma_empty_sum, lemma_forest_bound,
    lemma_forest_update, lemma_tree_bound, weight_bound, fresh_children, has_index, insert, insert_local, lemma_bucket_push,
    sub_node, tree_sum, wf, Entry, NodeView,
};

verus! {

/// Number of points a node keeps in its own bucket, and number of children it
/// gets when the bucket overflows.
pub const BUCKET_CAPACITY: usize = 8;

/// Mass-weighted sum of positions. The center of mass of a node is its moment
/// divided by its total mass, and the origin when the total mass is zero.
#[derive(Clone, Copy, Debug, PartialEq, Eq, Structural)]
pub struct Moment {
    pub x: i128,
    pub y: i128,
    pub z: i128,
}

/// A node of the octree, and with its descendants the subtree below it.
/// It covers the closed lattice box `[lo, hi]`, keeps the first eight points routed to it
/// in `bucket`, and sends later points on to `children`, one per octant.
/// `total_mass` and `moment` are the sums over the whole subtree once `compute` has run.
#[derive(Debug)]
pub struct Octree {
    pub bucket: Vec<Entry>,
    pub lo: Point,
    pub hi: Point,
    pub children: Option<Vec<Octree>>,
    pub total_mass: u64,
    pub moment: Moment,
}

pub open spec fn node_view(t: Octree) -> NodeView
    decreases t,
{
    NodeView {
        bucket: t.bucket@,
        lo: t.lo,
        hi: t.hi,
        children: match t.children {
            Some(c) => forest_view(c@),
            None => Seq::empty(),
        },
    }
}

pub open spec fn forest_view(s: Seq<Octree>) -> Seq<NodeView>
    decreases s,
{
    if s.len() == 0 {
        Seq::empty()
    } else {
        forest_view(s.subrange(0, s.len() - 1)).push(node_view(s[s.len() - 1]))
    }
}

impl View for Octree {
    type V = NodeView;

    open spec fn view(&self) -> NodeView {
        node_view(*self)
    }
}

pub proof fn lemma_forest_view(s: Seq<Octree>)
    ensures
        forest_view(s).len() == s.len(),
        forall|k: int| 0 <= k < s.len() ==> #[trigger] forest_view(s)[k] == s[k]@,
    decreases s.len(),
{
    if s.len() > 0 {
        let t = s.subrange(0, s.len() - 1);
        lemma_forest_view(t);
        assert forall|k: int| 0 <= k < s.len() implies #[trigger] forest_view(s)[k] == s[k]@ by {
            if k < s.len() - 1 {
                assert(t[k] == s[k]);
            }
        }
    }
}

/// Every node of the subtree holds in `total_mass` and `moment` the sums over its own
/// subtree.
pub open spec fn aggregated(t: Octree) -> bool
    decreases t,
{
    &&& t.total_mass == tree_sum(node_view(t), 3)
    &&& t.moment.x == tree_sum(node_view(t), 0)
    &&& t.moment.y == tree_sum(node_view(t), 1)
    &&& t.moment.z == tree_sum(node_view(t), 2)
    &&& match t.children {
        Some(c) => forall|k: int| 0 <= k < c.len() ==> aggregated(#[trigger] c@[k]),
        None => true,
    }
}

/// The children that a node on `v`'s box has, or is given when it has none yet.
pub open spec fn kids(v: NodeView) -> Seq<NodeView> {
    if v.children.len() == 0 {
        fresh_children(v.lo, v.hi)
    } else {
        v.children
    }
}

impl Octree {
    /// A node on the box `[lo, hi]` with nothing in it.
    pub fn empty(lo: Point, hi: Point) -> (r: Octree)
        ensures
            r@ == empty_node(lo, hi),
            r.children is None,
            r.total_mass == 0,
            r.moment == (Moment { x: 0, y: 0, z: 0 }),
    {
        let r = Octree {
            bucket: Vec::new(),
            lo,
            hi,
            children: None,
            total_mass: 0,
            moment: Moment { x: 0, y: 0, z: 0 },
        };
        assert(r@.bucket =~= Seq::<Entry>::empty());
        r
    }

    fn make_children(lo: Point, hi: Point) -> (r: Vec<Octree>)
        requires
            box_ok(lo, hi),
        ensures
            forest_view(r@) == fresh_children(lo, hi),
            r.len() == BUCKET_CAPACITY,
    {
        let mut r: Vec<Octree> = Vec::new();
        let mut k: usize = 0;
        while k < BUCKET_CAPACITY
            invariant
                k <= BUCKET_CAPACITY,
                box_ok(lo, hi),
                r.len() == k,
                forall|m: int| 0 <= m < k ==> (#[trigger] r@[m])@ == empty_node(child_lo(lo, hi, m), child_hi(lo, hi, m)),
            decreases BUCKET_CAPACITY - k,
        {
            let (clo, chi) = child_bounds(lo, hi, k);
            r.push(Octree::empty(clo, chi));
            k += 1;
        }
        proof {
            lemma_forest_view(r@);
            assert(forest_view(r@) =~= fresh_children(lo, hi));
        }
        r
    }

    /// The child of octant `idx`, the eight children being made first when the node
    /// has none.
    pub fn get_child(&mut self, idx: usize) -> (r: &mut Octree)
        requires
            wf(old(self)@),
            old(self)@.bucket.len() == BUCKET_CAPACITY,
            idx < BUCKET_CAPACITY,
        ensures
            r@ == kids(old(self)@)[idx as int],
            final(self).bucket == old(self).bucket,
            final(self).lo == old(self).lo,
            final(self).hi == old(self).hi,
            final(self).children is Some,
            final(self).children->0@.len() == BUCKET_CAPACITY,
            final(self).children->0@[idx as int] == *final(r),
            forall|m: int|
                0 <= m < BUCKET_CAPACITY && m != idx ==> (#[trigger] final(self).children->0@[m])@
                    == kids(old(self)@)[m],
    {
        let present = match &self.children {
            Some(c) => c.len() == BUCKET_CAPACITY,
            None => false,
        };
        if !present {
            let fresh = Octree::make_children(self.lo, self.hi);
            proof {
                lemma_forest_view(fresh@);
                assert(self@.children.len() == 0) by {
                    match self.children {
                        Some(c) => {
                            lemma_forest_view(c@);
                        },
                        None => {},
                    }
                }
            }
            let c = self.children.insert(fresh);
            &mut c[idx]
        } else {
            proof {
                lemma_forest_view(self.children->0@);
            }
            let c = self.children.as_mut().unwrap();
            &mut c[idx]
        }
    }

    /// Adds point `idx` at `point` with `mass`: into this node's bucket while it has room,
    /// else, the bucket keeping what it holds, into the child of the point's octant.
    pub fn add_point(&mut self, idx: usize, point: Point, mass: u32)
        requires
            wf(old(self)@),
        ensures
            final(self)@ == insert(old(self)@, Entry { index: idx, position: point, mass }),
        decreases tree_sum(old(self)@, 4),
    {
        let e = Entry { index: idx, position: point, mass };
        if self.bucket.len() < BUCKET_CAPACITY {
            self.bucket.push(e);
            proof {
                assert(self@ == insert(old(self)@, e));
            }
        } else {
            let ghost v = self@;
            let k = octant_of(self.lo, self.hi, point);
            let child = self.get_child(k);
            proof {
                lemma_bucket_bound(v.bucket, 4);
                lemma_forest_bound(v.children, 4);
                if v.children.len() == 0 {
                    lemma_child_box_wf(v, k as int);
                    lemma_empty_sum(child_lo(v.lo, v.hi, k as int), child_hi(v.lo, v.hi, k as int), 4);
                } else {
                    assert(wf(v.children[k as int]));
                    lemma_forest_member(v.children, k as int);
                }
                assert(tree_sum(v, 4) == bucket_sum(v.bucket, 4) + forest_sum(v.children, 4));
                lemma_tree_bound(child@, 4);
                assert(0 <= tree_sum(child@, 4) < tree_sum(v, 4));
            }
            child.add_point(idx, point, mass);
            proof {
                let c = self.children->0@;
                lemma_forest_view(c);
                let w = insert(v, e);
                if v.children.len() == 0 {
                    let b = kids(v)[k as int];
                    assert(insert(b, e) == insert_local(b, e));
                }
                assert(self@.children =~= w.children);
            }
        }
    }

    /// Fills `total_mass` and `moment` of every node of the subtree with the sums over
    /// its own subtree: its own bucket and what its children hold, children first.
    pub fn compute(&mut self)
        requires
            tree_sum(old(self)@, 4) <= u32::MAX,
        ensures
            final(self)@ == old(self)@,
            aggregated(*final(self)),
        decreases *old(self),
    {
        let ghost v = self@;
        proof {
            lemma_bucket_bound(v.bucket, 4);
            lemma_forest_bound(v.children, 4);
        }
        let mut mass: u64 = 0;
        let mut mx: i128 = 0;
        let mut my: i128 = 0;
        let mut mz: i128 = 0;
        let mut j: usize = 0;
        while j < self.bucket.len()
            invariant
                j <= self.bucket.len(),
                self@ == v,
                v.bucket.len() <= tree_sum(v, 4) <= u32::MAX,
                mass == bucket_sum(v.bucket.subrange(0, j as int), 3),
                mx == bucket_sum(v.bucket.subrange(0, j as int), 0),
                my == bucket_sum(v.bucket.subrange(0, j as int), 1),
                mz == bucket_sum(v.bucket.subrange(0, j as int), 2),
            decreases self.bucket.len() - j,
        {
            let e = self.bucket[j];
            proof {
                let p = v.bucket.subrange(0, j + 1);
                assert(p.drop_last() =~= v.bucket.subrange(0, j as int));
                lemma_sum_fits(p, v.bucket.len() as int);
                assert(p.last() == e);
                assert(bucket_sum(p, 0) == mx + e.mass as int * e.position.x as int);
                assert(bucket_sum(p, 1) == my + e.mass as int * e.position.y as int);
                assert(bucket_sum(p, 2) == mz + e.mass as int * e.position.z as int);
                lemma_product_fits(e.mass as int, e.position.x as int);
                lemma_product_fits(e.mass as int, e.position.y as int);
                lemma_product_fits(e.mass as int, e.position.z as int);
            }
            mass = mass + e.mass as u64;
            mx = mx + e.mass as i128 * e.position.x as i128;
            my = my + e.mass as i128 * e.position.y as i128;
            mz = mz + e.mass as i128 * e.position.z as i128;
            j += 1;
        }
        proof {
            assert(v.bucket.subrange(0, j as int) =~= v.bucket);
        }
        let taken = self.children.take();
        match taken {
            Some(mut c) => {
                let ghost c0 = c@;
                let ghost c0_vec = c;
                assert(old(self).children == Some(c));
                let ghost fv = v.children;
                proof {
                    lemma_forest_view(c0);
                }
                let mut k: usize = 0;
                while k < c.len()
                    invariant
                        k <= c.len() == c0.len() == fv.len(),
                        fv == forest_view(c0),
                        forall|m: int| 0 <= m < c0.len() ==> (#[trigger] c@[m])@ == c0[m]@,
                        forall|m: int| 0 <= m < k ==> aggregated(#[trigger] c@[m]),
                        forall|m: int| k <= m < c0.len() ==> #[trigger] c@[m] == c0[m],
                        old(self).children == Some(c0_vec),
                        c0_vec@ == c0,
                        self.bucket@ == v.bucket,
                        self.lo == v.lo,
                        self.hi == v.hi,
                        v.children == fv,
                        tree_sum(v, 4) == bucket_sum(v.bucket, 4) + forest_sum(fv, 4),
                        bucket_sum(v.bucket, 4) == v.bucket.len(),
                        tree_sum(v, 4) <= u32::MAX,
                        mass == bucket_sum(v.bucket, 3) + forest_sum(fv.subrange(0, k as int), 3),
                        mx == bucket_sum(v.bucket, 0) + forest_sum(fv.subrange(0, k as int), 0),
                        my == bucket_sum(v.bucket, 1) + forest_sum(fv.subrange(0, k as int), 1),
                        mz == bucket_sum(v.bucket, 2) + forest_sum(fv.subrange(0, k as int), 2),
                    decreases c.len() - k,
                {
                    proof {
                        lemma_forest_member(fv, k as int);
                        lemma_forest_view(c0);
                        assert(c@[k as int]@ == v.children[k as int]);
                    }
                    let child = &mut c[k];
                    proof {
                        assert(decreases_to!(*old(self) => old(self).children));
                        assert(decreases_to!(old(self).children => old(self).children->Some_0));
                        assert(c0_vec@[k as int] == *child);
                        assert(decreases_to!(c0_vec => c0_vec[k as int]));
                        assert(decreases_to!(*old(self) => *child));
                    }
                    child.compute();
                    proof {
                        let p = fv.subrange(0, k + 1);
                        assert(p.subrange(0, k as int) =~= fv.subrange(0, k as int));
                        lemma_forest_prefix(fv, k + 1);
                        lemma_part_fits(v.bucket, p, tree_sum(v, 4));
                    }
                    let r = &c[k];
                    mass = mass + r.total_mass;
                    mx = mx + r.moment.x;
                    my = my + r.moment.y;
                    mz = mz + r.moment.z;
                    k += 1;
                }
                proof {
                    assert(fv.subrange(0, k as int) =~= fv);
                    lemma_forest_view(c@);
                    assert(forest_view(c@) =~= fv);
                }
                self.children = Some(c);
            },
            None => {
                proof {
                    assert(forest_sum(v.children, 0) == 0);
                }
            },
        }
        self.total_mass = mass;
        self.moment = Moment { x: mx, y: my, z: mz };
    }

    /// Number of points in this node's own bucket.
    pub fn count(&self) -> (r: usize)
        ensures
            r == self@.bucket.len(),
    {
        self.bucket.len()
    }

    /// Whether this node has children.
    pub fn has_children(&self) -> (r: bool)
        ensures
            r == (self@.children.len() > 0),
    {
        match &self.children {
            Some(c) => {
                proof {
                    lemma_forest_view(c@);
                }
                c.len() > 0
            },
            None => false,
        }
    }

    /// Width of this node's box on each axis: `hi - lo`.
    pub fn extent(&self) -> (r: (i64, i64, i64))
        ensures
            r.0 == self.hi.x - self.lo.x,
            r.1 == self.hi.y - self.lo.y,
            r.2 == self.hi.z - self.lo.z,
    {
        (
            self.hi.x as i64 - self.lo.x as i64,
            self.hi.y as i64 - self.lo.y as i64,
            self.hi.z as i64 - self.lo.z as i64,
        )
    }

    /// Twice the center of this node's box, `lo + hi`, which is exact on the lattice.
    pub fn center_twice(&self) -> (r: (i64, i64, i64))
        ensures
            r.0 == self.lo.x + self.hi.x,
            r.1 == self.lo.y + self.hi.y,
            r.2 == self.lo.z + self.hi.z,
    {
        (
            self.lo.x as i64 + self.hi.x as i64,
            self.lo.y as i64 + self.hi.y as i64,
            self.lo.z as i64 + self.hi.z as i64,
        )
    }

    /// Whether `p` lies in this node's closed box.
    pub fn contains(&self, p: Point) -> (r: bool)
        ensures
            r == in_box(self.lo, self.hi, p),
    {
        self.lo.x <= p.x && p.x <= self.hi.x && self.lo.y <= p.y && p.y <= self.hi.y && self.lo.z
            <= p.z && p.z <= self.hi.z
    }

    /// The node whose bucket holds the point with index `idx`: this node when its own
    /// bucket does, else the first match among the children in order, else `None`.
    pub fn find(&self, idx: usize) -> (r: Option<&Octree>)
        ensures
            r is None <==> !has_index(self@, idx),
            r is Some ==> sub_node(self@, r->0@) && bucket_has(r->0@, idx),
            bucket_has(self@, idx) ==> r == Some(self),
        decreases *self,
    {
        let mut j: usize = 0;
        while j < self.bucket.len()
            invariant
                j <= self.bucket.len(),
                forall|m: int| 0 <= m < j ==> (#[trigger] self.bucket@[m]).index != idx,
            decreases self.bucket.len() - j,
        {
            if self.bucket[j].index == idx {
                proof {
                    assert(self@.bucket[j as int].index == idx);
                }
                return Some(self);
            }
            j += 1;
        }
        proof {
            assert(!bucket_has(self@, idx)) by {
                assert(self@.bucket == self.bucket@);
            }
        }
        match &self.children {
            None => None,
            Some(c) => {
                proof {
                    lemma_forest_view(c@);
                }
                let mut k: usize = 0;
                while k < c.len()
                    invariant
                        k <= c.len(),
                        self.children == Some(*c),
                        !bucket_has(self@, idx),
                        forest_view(c@).len() == c@.len(),
                        forall|m: int| 0 <= m < c@.len() ==> #[trigger] forest_view(c@)[m] == c@[m]@,
                        forall|m: int| 0 <= m < k ==> !has_index(#[trigger] self@.children[m], idx),
                    decreases c.len() - k,
                {
                    proof {
                        assert(decreases_to!(*self => self.children));
                        assert(decreases_to!(self.children => self.children->Some_0));
                        assert(decreases_to!(*c => c[k as int]));
                    }
                    match c[k].find(idx) {
                        Some(n) => {
                            proof {
                                assert(self@.children[k as int] == c@[k as int]@);
                                assert(sub_node(self@, n@));
                            }
                            return Some(n);
                        },
                        None => {
                            proof {
                                assert(self@.children[k as int] == c@[k as int]@);
                            }
                        },
                    }
                    k += 1;
                }
                None
            },
        }
    }

    /// `construct` where its inputs allow it: `None`, and no tree, when the two
    /// sequences differ in length or hold more points than the sums can count.
    pub fn try_construct(positions: &[Point], masses: &[u32]) -> (r: Option<Octree>)
        ensures
            r is None <==> (positions@.len() != masses@.len() || positions@.len() > u32::MAX),
            r is Some ==> {
                &&& r->0@ == built(root_node(positions@), positions@, masses@, positions@.len())
                &&& aggregated(r->0)
            },
    {
        if positions.len() != masses.len() || positions.len() > u32::MAX as usize {
            None
        } else {
            Some(Octree::construct(positions, masses))
        }
    }

    /// The octree of the points `positions[i]` with masses `masses[i]`: a root on the
    /// smallest box that holds them all, the points added in the order of `i`, then
    /// every node aggregated. From no points, an empty node at the origin.
    pub fn construct(positions: &[Point], masses: &[u32]) -> (r: Octree)
        requires
            positions@.len() == masses@.len(),
            positions@.len() <= u32::MAX,
        ensures
            r@ == built(root_node(positions@), positions@, masses@, positions@.len()),
            aggregated(r),
            wf(r@),
            contained(r@),
            consistent(r@, positions@),
            forall|i: usize| i < positions@.len() ==> #[trigger] has_index(r@, i),
            r.total_mass == input_sum(positions@, masses@, positions@.len(), 3),
            r.moment.x == input_sum(positions@, masses@, positions@.len(), 0),
            r.moment.y == input_sum(positions@, masses@, positions@.len(), 1),
            r.moment.z == input_sum(positions@, masses@, positions@.len(), 2),
            positions@.len() == 0 ==> {
                &&& r.total_mass == 0
                &&& r.moment == (Moment { x: 0, y: 0, z: 0 })
                &&& r@.bucket.len() == 0
                &&& r@.children.len() == 0
            },
            positions@.len() == 1 ==> {
                &&& r@.bucket == seq![input_entry(positions@, masses@, 0)]
                &&& r@.children.len() == 0
                &&& r.total_mass == masses@[0]
                &&& r.moment.x == masses@[0] * positions@[0].x
                &&& r.moment.y == masses@[0] * positions@[0].y
                &&& r.moment.z == masses@[0] * positions@[0].z
            },
    {
        let n = positions.len();
        if n == 0 {
            let origin = Point { x: 0, y: 0, z: 0 };
            let r = Octree::empty(origin, origin);
            proof {
                lemma_empty_sum(origin, origin, 0);
                lemma_empty_sum(origin, origin, 1);
                lemma_empty_sum(origin, origin, 2);
                lemma_empty_sum(origin, origin, 3);
            }
            return r;
        }
        let mut lo = positions[0];
        let mut hi = positions[0];
        let mut i: usize = 1;
        while i < n
            invariant
                1 <= i <= n,
                n == positions@.len(),
                lo == low_corner(positions@, i as nat),
                hi == high_corner(positions@, i as nat),
            decreases n - i,
        {
            let p = positions[i];
            lo = Point {
                x: if p.x < lo.x { p.x } else { lo.x },
                y: if p.y < lo.y { p.y } else { lo.y },
                z: if p.z < lo.z { p.z } else { lo.z },
            };
            hi = Point {
                x: if p.x > hi.x { p.x } else { hi.x },
                y: if p.y > hi.y { p.y } else { hi.y },
                z: if p.z > hi.z { p.z } else { hi.z },
            };
            i += 1;
        }
        proof {
            lemma_corners(positions@, n as nat);
        }
        let mut root = Octree::empty(lo, hi);
        let ghost r0 = root@;
        let mut i: usize = 0;
        while i < n
            invariant
                i <= n,
                n == positions@.len() == masses@.len() <= u32::MAX,
                r0 == root_node(positions@),
                r0 == empty_node(r0.lo, r0.hi),
                box_ok(r0.lo, r0.hi),
                forall|m: int| 0 <= m < n ==> in_box(r0.lo, r0.hi, #[trigger] positions@[m]),
                root@ == built(r0, positions@, masses@, i as nat),
            decreases n - i,
        {
            proof {
                lemma_built(r0, positions@, masses@, i as nat);
            }
            root.add_point(i, positions[i], masses[i]);
            i += 1;
        }
        proof {
            lemma_built(r0, positions@, masses@, n as nat);
            lemma_input_count(positions@, masses@, n as nat);
        }
        root.compute();
        proof {
            if n == 1 {
                reveal_with_fuel(built, 2);
                reveal_with_fuel(input_sum, 2);
                assert(root@.bucket =~= seq![input_entry(positions@, masses@, 0)]);
            }
        }
        root
    }
}

/// Componentwise least corner of the first `n` points.
pub open spec fn low_corner(ps: Seq<Point>, n: nat) -> Point
    decreases n,
{
    if n <= 1 {
        ps[0]
    } else {
        let a = low_corner(ps, (n - 1) as nat);
        let p = ps[n - 1];
        Point {
            x: if p.x < a.x { p.x } else { a.x },
            y: if p.y < a.y { p.y } else { a.y },
            z: if p.z < a.z { p.z } else { a.z },
        }
    }
}

/// Componentwise greatest corner of the first `n` points.
pub open spec fn high_corner(ps: Seq<Point>, n: nat) -> Point
    decreases n,
{
    if n <= 1 {
        ps[0]
    } else {
        let a = high_corner(ps, (n - 1) as nat);
        let p = ps[n - 1];
        Point {
            x: if p.x > a.x { p.x } else { a.x },
            y: if p.y > a.y { p.y } else { a.y },
            z: if p.z > a.z { p.z } else { a.z },
        }
    }
}

/// The root that construction starts from: empty, on the bounding box of the points,
/// or on the origin when there are none.
pub open spec fn root_node(ps: Seq<Point>) -> NodeView {
    if ps.len() == 0 {
        empty_node(Point { x: 0, y: 0, z: 0 }, Point { x: 0, y: 0, z: 0 })
    } else {
        empty_node(low_corner(ps, ps.len()), high_corner(ps, ps.len()))
    }
}

pub proof fn lemma_corners(ps: Seq<Point>, n: nat)
    requires
        1 <= n <= ps.len(),
    ensures
        box_ok(low_corner(ps, n), high_corner(ps, n)),
        forall|i: int| 0 <= i < n ==> in_box(low_corner(ps, n), high_corner(ps, n), #[trigger] ps[i]),
    decreases n,
{
    if n > 1 {
        lemma_corners(ps, (n - 1) as nat);
    }
}

proof fn lemma_input_count(ps: Seq<Point>, ms: Seq<u32>, n: nat)
    ensures
        input_sum(ps, ms, n, 4) == n,
    decreases n,
{
    if n > 0 {
        lemma_input_count(ps, ms, (n - 1) as nat);
    }
}

impl Default for Octree {
    /// An empty node on the origin, with no children and nothing aggregated.
    fn default() -> (r: Octree)
        ensures
            r@ == empty_node(Point { x: 0, y: 0, z: 0 }, Point { x: 0, y: 0, z: 0 }),
            r.children is None,
            r.total_mass == 0,
            r.moment == (Moment { x: 0, y: 0, z: 0 }),
    {
        let origin = Point { x: 0, y: 0, z: 0 };
        Octree::empty(origin, origin)
    }
}

proof fn lemma_product_fits(m: int, x: int)
    requires
        0 <= m <= 0xffff_ffff,
        -0x8000_0000 <= x < 0x8000_0000,
    ensures
        -0x8000_0000_0000_0000 <= m * x <= 0x8000_0000_0000_0000,
{
    assert(-0x8000_0000_0000_0000 <= m * x <= 0x8000_0000_0000_0000) by (nonlinear_arith)
        requires
            0 <= m <= 0xffff_ffff,
            -0x8000_0000 <= x < 0x8000_0000,
    ;
}

proof fn lemma_sum_fits(s: Seq<Entry>, n: int)
    requires
        s.len() <= n <= u32::MAX,
    ensures
        0 <= bucket_sum(s, 3) <= 0xffff_ffff * 0xffff_ffff,
        forall|q: int|
            0 <= q < 3 ==> -0x8000_0000 * 0x1_0000_0000_0000_0000 <= #[trigger] bucket_sum(s, q)
                <= 0x8000_0000 * 0x1_0000_0000_0000_0000,
{
    assert forall|q: int| 0 <= q < 4 implies -(n * weight_bound(q)) <= #[trigger] bucket_sum(s, q)
        <= n * weight_bound(q) by {
        lemma_bucket_bound(s, q);
        assert(s.len() * weight_bound(q) <= n * weight_bound(q)) by (nonlinear_arith)
            requires
                s.len() <= n,
                weight_bound(q) >= 0,
        ;
    }
    lemma_bucket_bound(s, 3);
    assert(n * 0xffff_ffff <= 0xffff_ffff * 0xffff_ffff) by (nonlinear_arith)
        requires
            n <= 0xffff_ffff,
    ;
    assert(n * 0x8000_0000_0000_0000 <= 0x8000_0000 * 0x1_0000_0000_0000_0000) by (nonlinear_arith)
        requires
            n <= 0xffff_ffff,
    ;
}

/// A bucket together with some subtrees, holding no more than `n` entries in all,
/// has sums that fit the aggregate fields.
proof fn lemma_part_fits(b: Seq<Entry>, f: Seq<NodeView>, n: int)
    requires
        bucket_sum(b, 4) + forest_sum(f, 4) <= n <= u32::MAX,
    ensures
        0 <= bucket_sum(b, 3) + forest_sum(f, 3) <= 0xffff_ffff * 0xffff_ffff,
        forall|q: int|
            0 <= q < 3 ==> -0x8000_0000 * 0x1_0000_0000_0000_0000 <= #[trigger] bucket_sum(b, q)
                + forest_sum(f, q) <= 0x8000_0000 * 0x1_0000_0000_0000_0000,
{
    assert forall|q: int| 0 <= q < 4 implies -(n * weight_bound(q)) <= #[trigger] bucket_sum(b, q)
        + forest_sum(f, q) <= n * weight_bound(q) by {
        lemma_bucket_bound(b, q);
        lemma_forest_bound(f, q);
        let a = bucket_sum(b, 4);
        let c = forest_sum(f, 4);
        let w = weight_bound(q);
        assert(a * w + c * w <= n * w) by (nonlinear_arith)
            requires
                a + c <= n,
                w >= 0,
        ;
    }
    lemma_bucket_bound(b, 3);
    lemma_forest_bound(f, 3);
    assert(n * 0xffff_ffff <= 0xffff_ffff * 0xffff_ffff) by (nonlinear_arith)
        requires
            n <= 0xffff_ffff,
    ;
    assert(n * 0x8000_0000_0000_0000 <= 0x8000_0000 * 0x1_0000_0000_0000_0000) by (nonlinear_arith)
        requires
            n <= 0xffff_ffff,
    ;
}

/// The first `k` subtrees hold no more entries than all of them.
proof fn lemma_forest_prefix(f: Seq<NodeView>, k: int)
    requires
        0 <= k <= f.len(),
    ensures
        forest_sum(f.subrange(0, k), 4) <= forest_sum(f, 4),
    decreases f.len(),
{
    if k == f.len() {
        assert(f.subrange(0, k) =~= f);
    } else {
        let g = f.subrange(0, f.len() - 1);
        assert(g.subrange(0, k) =~= f.subrange(0, k));
        lemma_forest_prefix(g, k);
        lemma_tree_bound(f[f.len() - 1], 4);
    }
}

proof fn lemma_forest_member(f: Seq<NodeView>, k: int)
    requires
        0 <= k < f.len(),
    ensures
        tree_sum(f[k], 4) <= forest_sum(f, 4),
{
    let e = empty_node(f[k].lo, f[k].hi);
    lemma_forest_update(f, k, e, 4);
    lemma_empty_sum(f[k].lo, f[k].hi, 4);
    lemma_forest_bound(f.update(k, e), 4);
}

proof fn lemma_child_box_wf(v: NodeView, k: int)
    requires
        wf(v),
        0 <= k < 8,
    ensures
        wf(fresh_children(v.lo, v.hi)[k]),
        fresh_children(v.lo, v.hi)[k].bucket.len() == 0,
{
    crate::geometry::lemma_child_box(v.lo, v.hi, k);
}

} // verus!
