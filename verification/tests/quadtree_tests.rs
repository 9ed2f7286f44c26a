use particle_life::quadtree::{Bounds, QuadTree};
use particle_life::particle::Vec2;

#[test]
fn bounds_contains_is_inclusive() {
    let b = Bounds { x: 0, y: 0, width: 100, height: 50 };
    assert!(b.contains(Vec2::new(0, 0)));
    assert!(b.contains(Vec2::new(100, 50)));
    assert!(b.contains(Vec2::new(37, 12)));
    assert!(!b.contains(Vec2::new(101, 10)));
    assert!(!b.contains(Vec2::new(-1, 10)));
    assert!(!b.contains(Vec2::new(50, 51)));
}

#[test]
fn bounds_intersects_needs_open_overlap() {
    let a = Bounds { x: 0, y: 0, width: 100, height: 100 };
    let b = Bounds { x: 50, y: 50, width: 100, height: 100 };
    let c = Bounds { x: 100, y: 0, width: 10, height: 10 };
    let d = Bounds { x: 200, y: 200, width: 10, height: 10 };
    assert!(a.intersects(&b));
    assert!(b.intersects(&a));
    // touching edges do not count as overlap
    assert!(!a.intersects(&c));
    assert!(!a.intersects(&d));
}

#[test]
fn insert_rejects_positions_outside_the_root() {
    let mut qt = QuadTree::new(Bounds { x: 0, y: 0, width: 1000, height: 1000 }, 0);
    assert!(qt.insert(0, Vec2::new(500, 500)));
    assert!(!qt.insert(1, Vec2::new(1500, 500)));
    assert!(!qt.insert(2, Vec2::new(500, -1)));
}

#[test]
fn query_reports_everything_inside_after_subdivision() {
    let mut qt = QuadTree::new(Bounds { x: 0, y: 0, width: 1000, height: 1000 }, 0);
    // enough entries to force several subdivisions
    let mut positions: Vec<(i64, i64)> = Vec::new();
    for i in 0..50i64 {
        positions.push((i * 17 % 990 + 5, i * 37 % 990 + 5));
    }
    for (i, (x, y)) in positions.iter().enumerate() {
        assert!(qt.insert(i, Vec2::new(*x, *y)));
    }
    let mut found: Vec<usize> = Vec::new();
    // a range enclosing the whole root, so every entry is strictly inside
    qt.query(&Bounds { x: -10, y: -10, width: 1020, height: 1020 }, &mut found);
    assert_eq!(found.len(), 50);
    for i in 0..50usize {
        assert!(found.contains(&i));
    }
}

#[test]
fn query_misses_nothing_in_a_small_range() {
    let mut qt = QuadTree::new(Bounds { x: 0, y: 0, width: 1000, height: 1000 }, 0);
    for i in 0..30usize {
        let x = (i as i64 * 31) % 1000;
        let y = (i as i64 * 61) % 1000;
        assert!(qt.insert(i, Vec2::new(x, y)));
    }
    // entry 0 sits at (0, 0); a box strictly around it must report it
    let mut found: Vec<usize> = Vec::new();
    qt.query(&Bounds { x: -5, y: -5, width: 10, height: 10 }, &mut found);
    assert!(found.contains(&0));
    // no index is ever reported twice
    let mut sorted = found.clone();
    sorted.sort();
    sorted.dedup();
    assert_eq!(sorted.len(), found.len());
}

#[test]
fn clear_empties_the_tree() {
    let mut qt = QuadTree::new(Bounds { x: 0, y: 0, width: 1000, height: 1000 }, 0);
    for i in 0..20usize {
        assert!(qt.insert(i, Vec2::new((i as i64) * 40 + 10, 500)));
    }
    qt.clear();
    let mut found: Vec<usize> = Vec::new();
    qt.query(&Bounds { x: -10, y: -10, width: 1020, height: 1020 }, &mut found);
    assert_eq!(found.len(), 0);
    // and the cleared tree accepts fresh entries
    assert!(qt.insert(0, Vec2::new(1, 1)));
}

#[test]
fn query_radius_reports_near_entries() {
    let mut qt = QuadTree::new(Bounds { x: 0, y: 0, width: 1000, height: 1000 }, 0);
    assert!(qt.insert(0, Vec2::new(500, 500)));
    assert!(qt.insert(1, Vec2::new(520, 500)));
    assert!(qt.insert(2, Vec2::new(900, 900)));
    let mut found: Vec<usize> = Vec::new();
    qt.query_radius(Vec2::new(500, 500), 50, &mut found);
    assert!(found.contains(&0));
    assert!(found.contains(&1));
}

#[test]
fn batch_query_returns_one_list_per_range() {
    let mut qt = QuadTree::new(Bounds { x: 0, y: 0, width: 1000, height: 1000 }, 0);
    for i in 0..12usize {
        assert!(qt.insert(i, Vec2::new((i as i64) * 80 + 10, 500)));
    }
    let ranges = vec![
        Bounds { x: 0, y: 450, width: 200, height: 100 },
        Bounds { x: 800, y: 450, width: 200, height: 100 },
    ];
    let results = qt.batch_query(&ranges);
    assert_eq!(results.len(), 2);
    // index 0 sits at (10, 500), strictly inside the first range
    assert!(results[0].contains(&0));
    // index 11 sits at (890, 500), strictly inside the second range
    assert!(results[1].contains(&11));
}

#[test]
fn identical_queries_give_identical_output() {
    let mut qt = QuadTree::new(Bounds { x: 0, y: 0, width: 1000, height: 1000 }, 0);
    for i in 0..40usize {
        let x = (i as i64 * 53) % 1000;
        let y = (i as i64 * 29) % 1000;
        assert!(qt.insert(i, Vec2::new(x, y)));
    }
    let range = Bounds { x: 100, y: 100, width: 400, height: 400 };
    let mut f1: Vec<usize> = Vec::new();
    let mut f2: Vec<usize> = Vec::new();
    qt.query(&range, &mut f1);
    qt.query(&range, &mut f2);
    assert_eq!(f1, f2);
    // and batch_query produces exactly the same list
    let results = qt.batch_query(&vec![range]);
    assert_eq!(results[0], f1);
}
