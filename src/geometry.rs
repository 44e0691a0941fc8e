use vstd::prelude::*;

verus! {

/// A point of the integer lattice.
#[derive(Clone, Copy, Debug, PartialEq, Eq, Structural)]
pub struct Point {
    pub x: i32,
    pub y: i32,
    pub z: i32,
}

impl Point {
    /// Coordinate along `axis` (0 = x, 1 = y, anything else = z).
    pub open spec fn coord(self, axis: int) -> int {
        if axis == 0 {
            self.x as int
        } else if axis == 1 {
            self.y as int
        } else {
            self.z as int
        }
    }

    pub fn new(x: i32, y: i32, z: i32) -> (r: Point)
        ensures
            r == (Point { x, y, z }),
    {
        Point { x, y, z }
    }
}

/// `lo <= hi` on every axis: the closed box between them is not empty.
pub open spec fn box_ok(lo: Point, hi: Point) -> bool {
    &&& lo.x <= hi.x
    &&& lo.y <= hi.y
    &&& lo.z <= hi.z
}

/// `p` lies in the closed box `[lo, hi]`.
pub open spec fn in_box(lo: Point, hi: Point, p: Point) -> bool {
    &&& lo.x <= p.x <= hi.x
    &&& lo.y <= p.y <= hi.y
    &&& lo.z <= p.z <= hi.z
}

/// Whether `p` lies on the upper side of the midpoint of `[l, h]`,
/// the midpoint itself included.
pub open spec fn upper_side(l: int, h: int, p: int) -> bool {
    2 * p >= l + h
}

/// The octant of the box `[lo, hi]` that `p` falls in: bit 2 for x, bit 1 for y,
/// bit 0 for z, each set when `p` is on the upper side on that axis.
pub open spec fn octant(lo: Point, hi: Point, p: Point) -> int {
    (if upper_side(lo.x as int, hi.x as int, p.x as int) { 4int } else { 0int })
        + (if upper_side(lo.y as int, hi.y as int, p.y as int) { 2int } else { 0int })
        + (if upper_side(lo.z as int, hi.z as int, p.z as int) { 1int } else { 0int })
}

/// Whether octant `k` takes the upper half along `axis`.
pub open spec fn octant_upper(k: int, axis: int) -> bool {
    if axis == 0 {
        (k / 4) % 2 == 1
    } else if axis == 1 {
        (k / 2) % 2 == 1
    } else {
        k % 2 == 1
    }
}

/// Lower end of one half of `[l, h]`: the lattice points at or above the midpoint
/// for the upper half, those at or below it for the lower half.
pub open spec fn half_lo(l: int, h: int, upper: bool) -> int {
    if upper {
        l + (h - l + 1) / 2
    } else {
        l
    }
}

/// Upper end of one half of `[l, h]` (see `half_lo`).
pub open spec fn half_hi(l: int, h: int, upper: bool) -> int {
    if upper {
        h
    } else {
        l + (h - l) / 2
    }
}

/// Lower corner of child `k` of the box `[lo, hi]`.
pub open spec fn child_lo(lo: Point, hi: Point, k: int) -> Point {
    Point {
        x: half_lo(lo.x as int, hi.x as int, octant_upper(k, 0)) as i32,
        y: half_lo(lo.y as int, hi.y as int, octant_upper(k, 1)) as i32,
        z: half_lo(lo.z as int, hi.z as int, octant_upper(k, 2)) as i32,
    }
}

/// Upper corner of child `k` of the box `[lo, hi]`.
pub open spec fn child_hi(lo: Point, hi: Point, k: int) -> Point {
    Point {
        x: half_hi(lo.x as int, hi.x as int, octant_upper(k, 0)) as i32,
        y: half_hi(lo.y as int, hi.y as int, octant_upper(k, 1)) as i32,
        z: half_hi(lo.z as int, hi.z as int, octant_upper(k, 2)) as i32,
    }
}

proof fn lemma_half(l: int, h: int, p: int, upper: bool)
    requires
        l <= h,
    ensures
        l <= half_lo(l, h, upper) <= half_hi(l, h, upper) <= h,
        l <= p <= h && upper == upper_side(l, h, p) ==> half_lo(l, h, upper) <= p <= half_hi(
            l,
            h,
            upper,
        ),
{
}

/// Every child box of a non-empty box is non-empty and lies inside it.
pub proof fn lemma_child_box(lo: Point, hi: Point, k: int)
    requires
        box_ok(lo, hi),
        0 <= k < 8,
    ensures
        box_ok(child_lo(lo, hi, k), child_hi(lo, hi, k)),
        lo.x <= child_lo(lo, hi, k).x && child_hi(lo, hi, k).x <= hi.x,
        lo.y <= child_lo(lo, hi, k).y && child_hi(lo, hi, k).y <= hi.y,
        lo.z <= child_lo(lo, hi, k).z && child_hi(lo, hi, k).z <= hi.z,
{
    lemma_half(lo.x as int, hi.x as int, 0, octant_upper(k, 0));
    lemma_half(lo.y as int, hi.y as int, 0, octant_upper(k, 1));
    lemma_half(lo.z as int, hi.z as int, 0, octant_upper(k, 2));
}

/// A point of a box lies in the child box of its own octant.
pub proof fn lemma_octant_box(lo: Point, hi: Point, p: Point)
    requires
        box_ok(lo, hi),
    ensures
        0 <= octant(lo, hi, p) < 8,
        in_box(lo, hi, p) ==> in_box(child_lo(lo, hi, octant(lo, hi, p)), child_hi(lo, hi, octant(lo, hi, p)), p),
{
    let k = octant(lo, hi, p);
    assert(octant_upper(k, 0) == upper_side(lo.x as int, hi.x as int, p.x as int));
    assert(octant_upper(k, 1) == upper_side(lo.y as int, hi.y as int, p.y as int));
    assert(octant_upper(k, 2) == upper_side(lo.z as int, hi.z as int, p.z as int));
    lemma_half(lo.x as int, hi.x as int, p.x as int, octant_upper(k, 0));
    lemma_half(lo.y as int, hi.y as int, p.y as int, octant_upper(k, 1));
    lemma_half(lo.z as int, hi.z as int, p.z as int, octant_upper(k, 2));
}

/// The octant of `p` in the box `[lo, hi]`.
pub fn octant_of(lo: Point, hi: Point, p: Point) -> (r: usize)
    ensures
        r == octant(lo, hi, p),
        r < 8,
{
    let bx: usize = if 2 * (p.x as i64) >= lo.x as i64 + hi.x as i64 { 4 } else { 0 };
    let by: usize = if 2 * (p.y as i64) >= lo.y as i64 + hi.y as i64 { 2 } else { 0 };
    let bz: usize = if 2 * (p.z as i64) >= lo.z as i64 + hi.z as i64 { 1 } else { 0 };
    bx + by + bz
}

fn half_bounds(l: i32, h: i32, upper: bool) -> (r: (i32, i32))
    requires
        l <= h,
    ensures
        r.0 == half_lo(l as int, h as int, upper),
        r.1 == half_hi(l as int, h as int, upper),
{
    proof {
        lemma_half(l as int, h as int, 0, upper);
    }
    let width: i64 = h as i64 - l as i64;
    if upper {
        ((l as i64 + (width + 1) / 2) as i32, h)
    } else {
        (l, (l as i64 + width / 2) as i32)
    }
}

/// Corners of child `k` of the box `[lo, hi]`.
pub fn child_bounds(lo: Point, hi: Point, k: usize) -> (r: (Point, Point))
    requires
        box_ok(lo, hi),
        k < 8,
    ensures
        r.0 == child_lo(lo, hi, k as int),
        r.1 == child_hi(lo, hi, k as int),
{
    proof {
        lemma_child_box(lo, hi, k as int);
    }
    let (x0, x1) = half_bounds(lo.x, hi.x, (k / 4) % 2 == 1);
    let (y0, y1) = half_bounds(lo.y, hi.y, (k / 2) % 2 == 1);
    let (z0, z1) = half_bounds(lo.z, hi.z, k % 2 == 1);
    (Point { x: x0, y: y0, z: z0 }, Point { x: x1, y: y1, z: z1 })
}

} // verus!
