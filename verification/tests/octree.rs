use octree_search::Bound;
use octree_search::Particle;
use octree_search::Tree;
use octree_search::Vec3;
use octree_search::subdivision_index;

fn particle(id: u64, x: u64, y: u64, z: u64) -> Particle {
    Particle { id, position: Vec3(x, y, z), kernel_h: 0 }
}

fn unit_bound() -> Bound {
    Bound(Vec3(0, 0, 0), Vec3(100, 100, 100))
}

fn ids(found: &[Particle]) -> Vec<u64> {
    found.iter().map(|p| p.id).collect()
}

#[test]
fn contains_wraparound_axis() {
    // A box that wraps on the x axis: [90, MAX] union [0, 10).
    let b = Bound(Vec3(90, 0, 0), Vec3(10, 100, 100));
    assert!(b.is_in_bound(&Vec3(95, 50, 50)));
    assert!(b.is_in_bound(&Vec3(5, 50, 50)));
    assert!(!b.is_in_bound(&Vec3(50, 50, 50)));
}

#[test]
fn contains_wraparound_all_axes() {
    let b = Bound(Vec3(90, 90, 90), Vec3(10, 10, 10));
    assert!(b.is_in_bound(&Vec3(95, 95, 95)));
    assert!(b.is_in_bound(&Vec3(5, 5, 5)));
    assert!(b.is_in_bound(&Vec3(95, 5, 95)));
    assert!(!b.is_in_bound(&Vec3(50, 50, 50)));
    assert!(!b.is_in_bound(&Vec3(95, 50, 95)));
}

#[test]
fn contains_half_open() {
    let b = unit_bound();
    assert!(b.is_in_bound(&Vec3(0, 0, 0)));
    assert!(!b.is_in_bound(&Vec3(100, 0, 0)));
    assert!(!b.is_in_bound(&Vec3(0, 0, 100)));
    assert!(b.is_in_bound(&Vec3(99, 99, 99)));
}

#[test]
fn overlap_honors_other_orientation() {
    let b = unit_bound();
    // Normal query sharing a corner region.
    assert!(b.is_overlap(&Bound(Vec3(50, 50, 50), Vec3(150, 150, 150))));
    // Normal query entirely outside.
    assert!(!b.is_overlap(&Bound(Vec3(200, 200, 200), Vec3(300, 300, 300))));
    // Wrapped query: overlaps through the seam.
    assert!(b.is_overlap(&Bound(Vec3(90, 90, 90), Vec3(10, 10, 10))));
}

#[test]
fn subdivision_center_midpoints() {
    let b = Bound(Vec3(0, 0, 0), Vec3(100, 50, 25));
    assert_eq!(b.subdivision_center(), Vec3(50, 25, 12));
    // A wrapped axis still averages the two corners.
    let w = Bound(Vec3(90, 0, 0), Vec3(10, 1, 1));
    assert_eq!(w.subdivision_center(), Vec3(50, 0, 0));
    // No overflow near the top of the coordinate range.
    let big = Bound(
        Vec3(u64::MAX - 2, u64::MAX - 2, u64::MAX - 2),
        Vec3(u64::MAX, u64::MAX, u64::MAX),
    );
    assert_eq!(big.subdivision_center(), Vec3(u64::MAX - 1, u64::MAX - 1, u64::MAX - 1));
    // Odd sums round down.
    let odd = Bound(Vec3(1, 1, 1), Vec3(2, 4, 8));
    assert_eq!(odd.subdivision_center(), Vec3(1, 2, 4));
}

#[test]
fn subdivision_index_all_octants() {
    let c = Vec3(50, 50, 50);
    assert_eq!(subdivision_index(&c, &Vec3(10, 10, 10)), 0);
    assert_eq!(subdivision_index(&c, &Vec3(60, 10, 10)), 1);
    assert_eq!(subdivision_index(&c, &Vec3(10, 60, 10)), 2);
    assert_eq!(subdivision_index(&c, &Vec3(60, 60, 10)), 3);
    assert_eq!(subdivision_index(&c, &Vec3(10, 10, 60)), 4);
    assert_eq!(subdivision_index(&c, &Vec3(60, 10, 60)), 5);
    assert_eq!(subdivision_index(&c, &Vec3(10, 60, 60)), 6);
    assert_eq!(subdivision_index(&c, &Vec3(60, 60, 60)), 7);
    // A tie goes to the high side.
    assert_eq!(subdivision_index(&c, &Vec3(50, 50, 50)), 7);
    assert_eq!(subdivision_index(&c, &Vec3(50, 10, 10)), 1);
}

#[test]
fn subdivision_bound_selects_halves() {
    let b = unit_bound();
    let c = b.subdivision_center();
    assert_eq!(
        b.subdivision_bound(&c, &Vec3(10, 60, 10)),
        Bound(Vec3(0, 50, 0), Vec3(50, 100, 50))
    );
    assert_eq!(
        b.subdivision_bound(&c, &Vec3(60, 60, 60)),
        Bound(Vec3(50, 50, 50), Vec3(100, 100, 100))
    );
}

#[test]
fn vector_add_and_scale() {
    assert_eq!(Vec3(1, 2, 3).add(Vec3(10, 20, 30)), Vec3(11, 22, 33));
    assert_eq!(Vec3(1, 2, 3).scale(4), Vec3(4, 8, 12));
}

#[test]
fn empty_tree_search_is_empty() {
    let t = Tree::new(unit_bound());
    assert!(t.search(&unit_bound()).is_empty());
    assert!(t.search(&Bound(Vec3(90, 90, 90), Vec3(10, 10, 10))).is_empty());
    assert!(t.search(&Bound(Vec3(200, 200, 200), Vec3(300, 300, 300))).is_empty());
}

#[test]
fn three_particles_corner_query() {
    let mut t = Tree::new(unit_bound());
    t.push(particle(1, 10, 10, 10));
    t.push(particle(2, 90, 90, 90));
    t.push(particle(3, 15, 10, 10));
    let found = t.search(&Bound(Vec3(0, 0, 0), Vec3(20, 20, 20)));
    assert_eq!(ids(&found), vec![1, 3]);
}

#[test]
fn exact_box_finds_pushed_particle() {
    let mut t = Tree::new(unit_bound());
    let ps = [
        particle(1, 10, 10, 10),
        particle(2, 90, 90, 90),
        particle(3, 15, 10, 10),
        particle(4, 49, 50, 51),
        particle(5, 50, 50, 50),
        particle(6, 0, 0, 0),
        particle(7, 99, 0, 99),
    ];
    for p in ps {
        t.push(p);
    }
    for p in ps {
        let Vec3(x, y, z) = p.position;
        let q = Bound(Vec3(x, y, z), Vec3(x + 1, y + 1, z + 1));
        let found = t.search(&q);
        assert_eq!(ids(&found), vec![p.id]);
    }
}

#[test]
fn disjoint_query_is_empty() {
    let mut t = Tree::new(unit_bound());
    t.push(particle(1, 10, 10, 10));
    t.push(particle(2, 90, 90, 90));
    let found = t.search(&Bound(Vec3(200, 200, 200), Vec3(300, 300, 300)));
    assert!(found.is_empty());
}

#[test]
fn root_query_returns_every_particle() {
    let mut t = Tree::new(unit_bound());
    let n: u64 = 30;
    for i in 0..n {
        // Distinct positions scattered over the box.
        t.push(particle(i, (i * 17) % 100, (i * 23) % 100, i));
    }
    let found = t.search(&unit_bound());
    assert_eq!(found.len() as u64, n);
    let mut got = ids(&found);
    got.sort();
    let want: Vec<u64> = (0..n).collect();
    assert_eq!(got, want);
}

#[test]
fn push_order_does_not_change_results() {
    let ps = [
        particle(1, 10, 10, 10),
        particle(2, 90, 90, 90),
        particle(3, 15, 10, 10),
        particle(4, 40, 60, 20),
        particle(5, 5, 95, 50),
    ];
    let mut t1 = Tree::new(unit_bound());
    for p in ps {
        t1.push(p);
    }
    let mut t2 = Tree::new(unit_bound());
    for p in ps.iter().rev() {
        t2.push(*p);
    }
    for q in [
        unit_bound(),
        Bound(Vec3(0, 0, 0), Vec3(20, 20, 20)),
        Bound(Vec3(90, 90, 90), Vec3(10, 10, 10)),
        Bound(Vec3(30, 30, 0), Vec3(70, 70, 100)),
    ] {
        let mut a = ids(&t1.search(&q));
        let mut b = ids(&t2.search(&q));
        a.sort();
        b.sort();
        assert_eq!(a, b);
    }
}

#[test]
fn wrapped_query_finds_seam_neighbors() {
    let mut t = Tree::new(unit_bound());
    t.push(particle(1, 95, 95, 95));
    t.push(particle(2, 5, 5, 5));
    t.push(particle(3, 50, 50, 50));
    let found = t.search(&Bound(Vec3(90, 90, 90), Vec3(10, 10, 10)));
    let mut got = ids(&found);
    got.sort();
    assert_eq!(got, vec![1, 2]);
}

#[test]
fn contains_and_overlap_are_consistent() {
    // Whenever a proper box and a query box both contain a point, the two
    // boxes overlap, whether or not the query wraps.
    let boxes = [
        unit_bound(),
        Bound(Vec3(0, 0, 0), Vec3(50, 50, 50)),
        Bound(Vec3(25, 0, 50), Vec3(75, 100, 100)),
    ];
    let queries = [
        Bound(Vec3(90, 90, 90), Vec3(10, 10, 10)),
        Bound(Vec3(10, 10, 10), Vec3(60, 60, 60)),
        Bound(Vec3(40, 90, 0), Vec3(20, 95, 100)),
    ];
    let points = [
        Vec3(0, 0, 0),
        Vec3(5, 5, 5),
        Vec3(30, 30, 55),
        Vec3(49, 49, 49),
        Vec3(50, 92, 60),
        Vec3(95, 95, 95),
    ];
    for b in boxes {
        for q in queries {
            for p in points {
                if b.is_in_bound(&p) && q.is_in_bound(&p) {
                    assert!(b.is_overlap(&q));
                }
            }
        }
    }
}

#[test]
fn search_agrees_with_direct_containment() {
    // A few hundred pseudo-random particles; every query must return
    // exactly the particles whose positions the query box contains.
    let b = Bound(Vec3(0, 0, 0), Vec3(1000, 1000, 1000));
    let mut t = Tree::new(b);
    let mut held: Vec<Particle> = Vec::new();
    let mut state: u64 = 0x2545F4914F6CDD1D;
    let mut next = move || {
        state ^= state << 13;
        state ^= state >> 7;
        state ^= state << 17;
        state % 1000
    };
    let mut id: u64 = 0;
    while held.len() < 300 {
        let pos = Vec3(next(), next(), next());
        if held.iter().any(|p| p.position == pos) {
            continue;
        }
        let p = Particle { id, position: pos, kernel_h: 0 };
        id += 1;
        t.push(p);
        held.push(p);
    }
    let queries = [
        b,
        Bound(Vec3(0, 0, 0), Vec3(100, 1000, 1000)),
        Bound(Vec3(250, 250, 250), Vec3(750, 750, 750)),
        Bound(Vec3(900, 900, 900), Vec3(100, 100, 100)),
        Bound(Vec3(800, 0, 950), Vec3(200, 500, 50)),
        Bound(Vec3(333, 333, 333), Vec3(334, 334, 334)),
    ];
    for q in queries {
        let mut got = ids(&t.search(&q));
        got.sort();
        let mut want: Vec<u64> = held
            .iter()
            .filter(|p| q.is_in_bound(&p.position))
            .map(|p| p.id)
            .collect();
        want.sort();
        assert_eq!(got, want);
    }
}

#[test]
fn tree_near_coordinate_limit() {
    let top = u64::MAX;
    let b = Bound(Vec3(0, 0, 0), Vec3(top, top, top));
    let mut t = Tree::new(b);
    t.push(particle(1, top - 1, top - 1, top - 1));
    t.push(particle(2, 0, 0, 0));
    t.push(particle(3, top - 2, top - 1, top - 1));
    let found = t.search(&b);
    assert_eq!(found.len(), 3);
    let near_top = Bound(
        Vec3(top - 10, top - 10, top - 10),
        Vec3(top, top, top),
    );
    let mut got = ids(&t.search(&near_top));
    got.sort();
    assert_eq!(got, vec![1, 3]);
}
