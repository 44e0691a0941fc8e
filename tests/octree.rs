use barnes_hut::geometry::{child_bounds, octant_of, Point};
use barnes_hut::octtree::{Moment, Octree, BUCKET_CAPACITY};

fn contains(node: &Octree, p: Point) -> bool {
    node.lo.x <= p.x
        && p.x <= node.hi.x
        && node.lo.y <= p.y
        && p.y <= node.hi.y
        && node.lo.z <= p.z
        && p.z <= node.hi.z
}

fn bucket_mass_total(root: &Octree) -> u64 {
    let mut total: u64 = 0;
    let mut stack: Vec<&Octree> = vec![root];
    while let Some(node) = stack.pop() {
        for e in node.bucket.iter() {
            total += e.mass as u64;
        }
        if let Some(children) = &node.children {
            for c in children.iter() {
                stack.push(c);
            }
        }
    }
    total
}

fn scattered(n: usize) -> (Vec<Point>, Vec<u32>) {
    let mut points = Vec::new();
    let mut masses = Vec::new();
    for i in 0..n {
        let i = i as i32;
        points.push(Point::new((i * 37) % 101 - 50, (i * 53) % 89 - 44, (i * 71) % 97 - 48));
        masses.push((i as u32 * 13) % 7 + 1);
    }
    (points, masses)
}

#[test]
fn test_octree_correctness() {
    let points = vec![
        Point::new(-1, -1, -1),
        Point::new(-1, -1, 1),
        Point::new(-1, 1, -1),
        Point::new(-1, 1, 1),
        Point::new(1, -1, -1),
        Point::new(1, -1, 1),
        Point::new(1, 1, -1),
        Point::new(1, 1, 1),
    ];
    let masses = vec![1u32; 8];

    let oct = Octree::construct(&points, &masses);
    println!("{:#?}", oct);

    assert_eq!(oct.total_mass, 8);
    assert_eq!(oct.moment, Moment { x: 0, y: 0, z: 0 });

    for i in 0..8 {
        let found = oct.find(i).expect("Could not find element");
        let p = points[i];
        assert!(found.lo.x <= p.x && p.x <= found.hi.x, "{:?} not in {:?}..{:?}", p, found.lo, found.hi);
        assert!(found.lo.y <= p.y && p.y <= found.hi.y, "{:?} not in {:?}..{:?}", p, found.lo, found.hi);
        assert!(found.lo.z <= p.z && p.z <= found.hi.z, "{:?} not in {:?}..{:?}", p, found.lo, found.hi);
    }
}

#[test]
fn empty_input_gives_degenerate_root() {
    let oct = Octree::construct(&[], &[]);
    assert_eq!(oct.total_mass, 0);
    assert_eq!(oct.moment, Moment { x: 0, y: 0, z: 0 });
    assert_eq!(oct.bucket.len(), 0);
    assert!(oct.children.is_none());
    assert_eq!(oct.lo, Point::new(0, 0, 0));
    assert_eq!(oct.hi, Point::new(0, 0, 0));
    assert!(oct.find(0).is_none());
}

#[test]
fn single_point_sits_in_root() {
    let oct = Octree::construct(&[Point::new(3, -4, 5)], &[7]);
    assert_eq!(oct.bucket.len(), 1);
    assert!(oct.children.is_none());
    assert_eq!(oct.total_mass, 7);
    assert_eq!(oct.moment, Moment { x: 21, y: -28, z: 35 });
    assert_eq!(oct.lo, Point::new(3, -4, 5));
    assert_eq!(oct.hi, Point::new(3, -4, 5));
}

#[test]
fn mismatched_lengths_are_rejected() {
    let points = vec![Point::new(0, 0, 0), Point::new(1, 1, 1)];
    assert!(Octree::try_construct(&points, &[1]).is_none());
    assert!(Octree::try_construct(&points, &[1, 2, 3]).is_none());
    let oct = Octree::try_construct(&points, &[1, 2]).expect("equal lengths are accepted");
    assert_eq!(oct.total_mass, 3);
    assert_eq!(oct.moment, Moment { x: 2, y: 2, z: 2 });
}

#[test]
fn total_mass_is_sum_of_masses_and_of_buckets() {
    let (points, masses) = scattered(200);
    let oct = Octree::construct(&points, &masses);
    let expected: u64 = masses.iter().map(|&m| m as u64).sum();
    assert_eq!(oct.total_mass, expected);
    assert_eq!(bucket_mass_total(&oct), expected);
    let mut mx: i128 = 0;
    for (p, &m) in points.iter().zip(masses.iter()) {
        mx += m as i128 * p.x as i128;
    }
    assert_eq!(oct.moment.x, mx);
}

#[test]
fn every_point_is_found_in_a_box_holding_it() {
    let (points, masses) = scattered(300);
    let oct = Octree::construct(&points, &masses);
    for (i, p) in points.iter().enumerate() {
        let found = oct.find(i).expect("inserted index is found");
        assert!(found.bucket.iter().any(|e| e.index == i && e.position == *p));
        assert!(contains(found, *p));
    }
    assert!(oct.find(300).is_none());
}

#[test]
fn equal_masses_symmetric_about_center() {
    let c = Point::new(2, 3, 4);
    let mut points = Vec::new();
    for &(dx, dy, dz) in &[(1, 2, 3), (-1, -2, -3), (5, 0, -1), (-5, 0, 1), (0, 7, 0), (0, -7, 0)] {
        points.push(Point::new(c.x + dx, c.y + dy, c.z + dz));
    }
    let masses = vec![3u32; points.len()];
    let oct = Octree::construct(&points, &masses);
    assert_eq!(oct.total_mass, 18);
    assert_eq!(oct.moment, Moment { x: 18 * 2, y: 18 * 3, z: 18 * 4 });
}

#[test]
fn ninth_point_overflows_into_its_octant() {
    let mut points = Vec::new();
    for i in 0..8 {
        points.push(Point::new(i, 0, 0));
    }
    points.push(Point::new(7, 0, 0));
    let masses = vec![1u32; 9];
    let oct = Octree::construct(&points, &masses);
    assert_eq!(oct.bucket.len(), BUCKET_CAPACITY);
    for i in 0..8 {
        assert_eq!(oct.bucket[i].index, i);
    }
    let children = oct.children.as_ref().expect("children were made");
    assert_eq!(children.len(), 8);
    // x is on the upper side, y and z on the midpoint: octant 7.
    assert_eq!(children[7].bucket.len(), 1);
    assert_eq!(children[7].bucket[0].index, 8);
    assert_eq!(children[7].lo, Point::new(4, 0, 0));
    assert_eq!(children[7].hi, Point::new(7, 0, 0));
    assert_eq!(children[0].lo, Point::new(0, 0, 0));
    assert_eq!(children[0].hi, Point::new(3, 0, 0));
    assert_eq!(children[7].total_mass, 1);
    assert_eq!(children[7].moment, Moment { x: 7, y: 0, z: 0 });
    assert_eq!(oct.find(8).unwrap().lo, Point::new(4, 0, 0));
}

#[test]
fn construction_is_deterministic() {
    let (points, masses) = scattered(150);
    let a = Octree::construct(&points, &masses);
    let b = Octree::construct(&points, &masses);
    assert_eq!(format!("{:?}", a), format!("{:?}", b));
}

#[test]
fn coincident_points_go_deep() {
    let points = vec![Point::new(-9, 4, 4); 40];
    let masses = vec![2u32; 40];
    let oct = Octree::construct(&points, &masses);
    assert_eq!(oct.total_mass, 80);
    assert_eq!(oct.moment, Moment { x: -720, y: 320, z: 320 });
    for i in 0..40 {
        let found = oct.find(i).unwrap();
        assert!(contains(found, points[i]));
    }
}

#[test]
fn extreme_values_do_not_overflow() {
    let points = vec![
        Point::new(i32::MIN, i32::MIN, i32::MAX),
        Point::new(i32::MAX, i32::MAX, i32::MAX),
    ];
    let masses = vec![u32::MAX, u32::MAX];
    let oct = Octree::construct(&points, &masses);
    assert_eq!(oct.total_mass, 2 * u32::MAX as u64);
    assert_eq!(oct.moment.x, -(u32::MAX as i128));
    assert_eq!(oct.moment.z, 2 * u32::MAX as i128 * i32::MAX as i128);
}

#[test]
fn octant_code_and_child_boxes() {
    let lo = Point::new(0, 0, 0);
    let hi = Point::new(10, 10, 10);
    assert_eq!(octant_of(lo, hi, Point::new(5, 0, 9)), 5);
    assert_eq!(octant_of(lo, hi, Point::new(4, 4, 4)), 0);
    assert_eq!(octant_of(lo, hi, Point::new(10, 10, 10)), 7);
    let (clo, chi) = child_bounds(Point::new(0, 0, 0), Point::new(9, 9, 9), 5);
    assert_eq!(clo, Point::new(5, 0, 5));
    assert_eq!(chi, Point::new(9, 4, 9));
    let (clo, chi) = child_bounds(Point::new(-3, -3, -3), Point::new(-3, 2, 1), 2);
    assert_eq!(clo, Point::new(-3, 0, -3));
    assert_eq!(chi, Point::new(-3, 2, -1));
}

#[test]
fn add_point_and_compute_by_hand() {
    let mut root = Octree::empty(Point::new(0, 0, 0), Point::new(8, 8, 8));
    for i in 0..10 {
        root.add_point(i, Point::new(i as i32 % 9, 1, 2), 1);
    }
    root.compute();
    assert_eq!(root.total_mass, 10);
    assert_eq!(root.moment, Moment { x: 36, y: 10, z: 20 });
    assert!(root.children.is_some());
    let d = Octree::default();
    assert_eq!(d.bucket.len(), 0);
    assert!(d.children.is_none());
}

#[test]
fn get_child_makes_children_once() {
    let mut root = Octree::empty(Point::new(0, 0, 0), Point::new(4, 4, 4));
    for i in 0..8 {
        root.add_point(i, Point::new(0, 0, 0), 1);
    }
    {
        let c = root.get_child(3);
        assert_eq!(c.lo, Point::new(0, 2, 2));
        assert_eq!(c.hi, Point::new(2, 4, 4));
        c.add_point(99, Point::new(1, 3, 3), 5);
    }
    let c = root.get_child(3);
    assert_eq!(c.bucket.len(), 1);
    assert_eq!(root.children.as_ref().unwrap().len(), 8);
}

#[test]
fn box_accessors() {
    let points = vec![Point::new(-4, 1, 10), Point::new(6, 2, 13), Point::new(0, 7, 11)];
    let oct = Octree::construct(&points, &[1, 1, 1]);
    assert_eq!(oct.extent(), (10, 6, 3));
    assert_eq!(oct.center_twice(), (2, 8, 23));
    assert_eq!(oct.count(), 3);
    assert!(!oct.has_children());
    assert!(oct.contains(Point::new(6, 7, 13)));
    assert!(!oct.contains(Point::new(7, 7, 13)));
}
