use ball_physics::ball::{Arena, Ball, DAMPING_SCALE};
use ball_physics::mesh::circle_fan_indices;
use ball_physics::fixed::{isqrt_ceil, isqrt_floor, COORD_LIMIT};
use ball_physics::physics::{Config, Physics};
use ball_physics::quadtree::{QuadTree, QuadTreeEntry, QuadTreeNode};
use ball_physics::vec2::{Vec2, UNIT};

fn u(v: f64) -> i64 {
    (v * UNIT as f64).round() as i64
}

fn open_config(iterations: u32, gravity: i64) -> Config {
    Config {
        arena: Arena::new(Vec2::new(0, 0), u(500.0)),
        gravity,
        damping: 9995,
        iterations,
        root_pos: Vec2::new(u(-500.0), u(-500.0)),
        root_size: Vec2::new(u(1000.0), u(1000.0)),
        max_depth: 8,
        max_size: 4,
    }
}

fn dist_sq(a: Vec2, b: Vec2) -> i128 {
    let dx = a.x as i128 - b.x as i128;
    let dy = a.y as i128 - b.y as i128;
    dx * dx + dy * dy
}

fn assert_all_inside(p: &Physics) {
    let a = p.config.arena;
    for k in 0..p.ball_count() {
        let b = p.ball(k);
        let allowed = (a.radius - b.radius) as i128;
        assert!(dist_sq(b.pos, a.center) <= allowed * allowed, "ball {} outside", k);
    }
}

/// A deterministic scatter of points in the arena.
fn scatter(n: usize, seed: u64) -> Vec<(i64, i64)> {
    let mut s = seed;
    let mut out = Vec::new();
    while out.len() < n {
        s = s.wrapping_mul(6364136223846793005).wrapping_add(1442695040888963407);
        let x = ((s >> 33) % 900) as i64 - 450;
        s = s.wrapping_mul(6364136223846793005).wrapping_add(1442695040888963407);
        let y = ((s >> 33) % 900) as i64 - 450;
        if x * x + y * y <= 440 * 440 {
            out.push((u(x as f64), u(y as f64)));
        }
    }
    out
}

#[test]
fn two_balls_separate_to_touching() {
    let mut p = Physics::new(open_config(1, 0));
    p.add_ball(Ball::new(0, 0, u(10.0)));
    p.add_ball(Ball::new(u(15.0), 0, u(10.0)));
    p.update();
    let a = p.ball(0);
    let b = p.ball(1);
    assert_eq!(a.pos, Vec2::new(u(-2.5), 0));
    assert_eq!(b.pos, Vec2::new(u(17.5), 0));
    assert_eq!(b.pos.x - a.pos.x, u(20.0));
    assert!((b.pos.x - a.pos.x) >= a.radius + b.radius);
}

#[test]
fn dropped_ball_rests_on_boundary() {
    let mut p = Physics::default();
    let c = p.config.arena.center;
    p.add_ball(Ball::new(c.x, c.y, u(10.0)));
    let mut last_speed = i64::MAX;
    for _ in 0..3000 {
        p.update();
        assert_all_inside(&p);
        last_speed = p.ball(0).vel.y.abs();
    }
    let b = p.ball(0);
    assert_eq!(b.pos.x, c.x);
    assert!(b.pos.y <= c.y + u(490.0));
    assert!(b.pos.y >= c.y + u(489.99));
    assert!(last_speed < u(0.01));
}

#[test]
fn every_ball_inside_after_step() {
    let mut p = Physics::default();
    let c = p.config.arena.center;
    for (x, y) in scatter(150, 7) {
        p.add_ball(Ball::new(c.x + x, c.y + y, u(10.0)));
    }
    p.add_ball(Ball::new(c.x + u(700.0), c.y, u(10.0)));
    for _ in 0..20 {
        p.update();
        assert_all_inside(&p);
    }
}

fn worst_overlap_after_step(iterations: u32, centers: &[(f64, f64)]) -> i128 {
    let mut p = Physics::new(open_config(iterations, 0));
    for (x, y) in centers {
        p.add_ball(Ball::new(u(*x), u(*y), u(10.0)));
    }
    p.update();
    let mut worst: i128 = 0;
    for i in 0..p.ball_count() {
        for j in 0..i {
            let sum = (p.ball(i).radius + p.ball(j).radius) as f64;
            let d = (dist_sq(p.ball(i).pos, p.ball(j).pos) as f64).sqrt();
            worst = worst.max((sum - d).ceil() as i128);
        }
    }
    worst
}

#[test]
fn two_ball_overlap_shrinks_with_iterations() {
    let centers = [(0.0, 0.0), (3.0, 4.0)];
    let overlaps: Vec<i128> = [1u32, 2, 4, 8].iter().map(|&n| worst_overlap_after_step(n, &centers)).collect();
    for w in overlaps.windows(2) {
        assert!(w[1] <= w[0], "{:?}", overlaps);
    }
    assert!(overlaps[0] <= 1, "{:?}", overlaps);
}

#[test]
fn more_iterations_leave_less_overlap() {
    let centers = [(0.0, 0.0), (2.0, 0.0), (4.0, 0.0), (6.0, 0.0), (8.0, 0.0)];
    let overlaps: Vec<i128> =
        [1u32, 2, 4, 8, 16].iter().map(|&n| worst_overlap_after_step(n, &centers)).collect();
    for w in overlaps.windows(2) {
        assert!(w[1] <= w[0], "{:?}", overlaps);
    }
    assert!(overlaps[4] < overlaps[0], "{:?}", overlaps);
}

#[test]
fn broad_phase_finds_every_overlap() {
    let mut p = Physics::default();
    let c = p.config.arena.center;
    for (x, y) in scatter(300, 11) {
        p.add_ball(Ball::new(c.x + x, c.y + y, u(10.0)));
    }
    p.contain_all();
    let pairs = p.broad_phase_collisions();
    let n = p.ball_count();
    for i in 0..n {
        for j in 0..i {
            let bi = p.ball(i);
            let bj = p.ball(j);
            let sum = (bi.radius + bj.radius) as i128;
            if dist_sq(bi.pos, bj.pos) < sum * sum {
                assert!(pairs.contains(&(i, j)), "missing ({}, {})", i, j);
            }
        }
    }
}

#[test]
fn broad_phase_pairs_are_distinct() {
    let mut p = Physics::default();
    let c = p.config.arena.center;
    for (x, y) in scatter(200, 3) {
        p.add_ball(Ball::new(c.x + x, c.y + y, u(10.0)));
    }
    let pairs = p.broad_phase_collisions();
    assert!(!pairs.is_empty());
    for (k, a) in pairs.iter().enumerate() {
        assert!(a.0 > a.1);
        for b in pairs.iter().skip(k + 1) {
            assert_ne!(a, b);
        }
    }
}

#[test]
fn collision_corrections_cancel() {
    let mut p = Physics::new(open_config(1, 0));
    p.add_ball(Ball::new(u(1.0), u(2.0), u(10.0)));
    p.add_ball(Ball::new(u(8.0), u(-3.0), u(7.0)));
    let (a0, b0) = (p.ball(0), p.ball(1));
    p.collide(0, 1);
    let (a1, b1) = (p.ball(0), p.ball(1));
    assert_ne!(a1.pos, a0.pos);
    assert_eq!(a1.pos.x + b1.pos.x, a0.pos.x + b0.pos.x);
    assert_eq!(a1.pos.y + b1.pos.y, a0.pos.y + b0.pos.y);
    assert_eq!(a1.vel.x + b1.vel.x, 0);
    assert_eq!(a1.vel.y + b1.vel.y, 0);
    assert_eq!(a1.pos.x - a0.pos.x, a1.vel.x);
}

#[test]
fn coincident_centers_split_along_x() {
    let a = Ball::new(u(5.0), u(5.0), u(10.0));
    let b = Ball::new(u(5.0), u(5.0), u(4.0));
    assert_eq!(a.resolution(&b), Some(Vec2::new(u(7.0), 0)));
}

#[test]
fn separated_or_touching_balls_do_not_collide() {
    let a = Ball::new(0, 0, u(10.0));
    assert_eq!(a.resolution(&Ball::new(u(20.0), 0, u(10.0))), None);
    assert_eq!(a.resolution(&Ball::new(u(15.0), u(15.0), u(10.0))), None);
    assert_eq!(a.resolution(&Ball::new(0, u(-25.0), u(10.0))), None);
}

#[test]
fn resolution_of_diagonal_overlap() {
    let a = Ball::new(u(6.0), u(8.0), u(10.0));
    let b = Ball::new(0, 0, u(10.0));
    // distance 10, penetration 10, half of it along (0.6, 0.8)
    assert_eq!(a.resolution(&b), Some(Vec2::new(u(3.0), u(4.0))));
    assert_eq!(b.resolution(&a), Some(Vec2::new(u(-3.0), u(-4.0))));
}

#[test]
fn forces_add_gravity_then_damp() {
    let mut b = Ball::new(0, 0, u(10.0));
    b.apply(u(0.2), 9995);
    assert_eq!(b.vel, Vec2::new(0, 1999));
    b.vel = Vec2::new(-10000, 0);
    b.apply(0, 9995);
    assert_eq!(b.vel, Vec2::new(-9995, 0));
    b.apply(0, DAMPING_SCALE);
    assert_eq!(b.vel, Vec2::new(-9995, 0));
}

#[test]
fn boundary_pulls_back_and_kills_outward_velocity() {
    let arena = Arena::new(Vec2::new(0, 0), u(500.0));
    let mut b = Ball::new(u(600.0), 0, u(10.0));
    b.circle_boundary(&arena);
    assert_eq!(b.pos, Vec2::new(u(490.0), 0));
    assert_eq!(b.vel, Vec2::new(u(-110.0), 0));
    let mut inside = Ball::new(u(100.0), u(-50.0), u(10.0));
    inside.circle_boundary(&arena);
    assert_eq!(inside.pos, Vec2::new(u(100.0), u(-50.0)));
    assert_eq!(inside.vel, Vec2::new(0, 0));
}

#[test]
fn update_pos_moves_then_contains() {
    let arena = Arena::new(Vec2::new(0, 0), u(500.0));
    let mut b = Ball::new(0, u(485.0), u(10.0));
    b.vel = Vec2::new(0, u(10.0));
    b.update_pos(&arena);
    assert_eq!(b.pos, Vec2::new(0, u(490.0)));
    assert_eq!(b.vel, Vec2::new(0, u(5.0)));
    let mut free = Ball::new(u(1.0), u(2.0), u(10.0));
    free.vel = Vec2::new(u(3.0), u(-4.0));
    free.update_pos(&arena);
    assert_eq!(free.pos, Vec2::new(u(4.0), u(-2.0)));
}

#[test]
fn vector_arithmetic() {
    let a = Vec2::new(u(3.0), u(4.0));
    let o = Vec2::fill(0);
    assert_eq!(a.distance_squared(&o), (u(5.0) as u128) * (u(5.0) as u128));
    assert_eq!(a.distance(&o), u(5.0) as u64);
    assert_eq!(a.length(), u(5.0) as u64);
    assert_eq!(a.add(Vec2::new(1, -1)), Vec2::new(u(3.0) + 1, u(4.0) - 1));
    assert_eq!(a.sub(Vec2::new(1, -1)), Vec2::new(u(3.0) - 1, u(4.0) + 1));
    assert_eq!(a.neg(), Vec2::new(-u(3.0), -u(4.0)));
    assert_eq!(a.normalize(), Some(Vec2::new(6000, 8000)));
    assert_eq!(o.normalize(), None);
    assert_eq!(Vec2::new(1, 1).normalize(), Some(Vec2::new(7070, 7070)));
    assert_eq!(Vec2::new(u(-15.0), 0).normalize(), Some(Vec2::new(-UNIT, 0)));
    assert!(o.both_less_eq(&a));
    assert!(!a.both_less_eq(&Vec2::new(u(3.0), u(3.0))));
    assert!(a.both_greater_eq(&Vec2::new(u(3.0), u(3.0))));
    assert!(!o.both_greater_eq(&a));
}

#[test]
fn vector_sums_saturate() {
    let big = Vec2::fill(COORD_LIMIT);
    assert_eq!(big.add(big), Vec2::fill(COORD_LIMIT));
    assert_eq!(big.neg().sub(big), Vec2::fill(-COORD_LIMIT));
}

#[test]
fn integer_square_roots() {
    assert_eq!(isqrt_floor(0), 0);
    assert_eq!(isqrt_floor(24), 4);
    assert_eq!(isqrt_floor(25), 5);
    assert_eq!(isqrt_ceil(24), 5);
    assert_eq!(isqrt_ceil(25), 5);
    assert_eq!(isqrt_ceil(26), 6);
    assert_eq!(isqrt_ceil(0), 0);
}

#[test]
fn entry_overlap_test_is_closed() {
    let e = QuadTreeEntry::new(Vec2::new(0, 0), Vec2::new(10, 10), 0);
    assert!(e.colliding(&Vec2::new(10, 10), &Vec2::new(5, 5)));
    assert!(e.colliding(&Vec2::new(-5, -5), &Vec2::new(5, 5)));
    assert!(!e.colliding(&Vec2::new(11, 0), &Vec2::new(5, 5)));
    assert!(!e.colliding(&Vec2::new(0, -6), &Vec2::new(5, 5)));
}

#[test]
fn leaf_splits_when_full() {
    let mut node = QuadTreeNode::new(Vec2::new(0, 0), Vec2::new(100, 100), 0, 2, 3);
    for k in 0..3usize {
        let (x, y) = [(10, 10), (80, 10), (10, 80)][k];
        node.insert(QuadTreeEntry::new(Vec2::new(x, y), Vec2::new(2, 2), k));
    }
    assert!(node.children.is_some());
    assert!(node.contents.is_empty());
    let leaves = node.get_leaf_contents();
    assert_eq!(leaves.len(), 4);
    let total: usize = leaves.iter().map(|l| l.len()).sum();
    assert_eq!(total, 3);
}

#[test]
fn leaf_at_max_depth_does_not_split() {
    let mut node = QuadTreeNode::new(Vec2::new(0, 0), Vec2::new(100, 100), 0, 1, 0);
    for k in 0..5usize {
        node.insert(QuadTreeEntry::new(Vec2::new(10, 10), Vec2::new(1, 1), k));
    }
    assert!(node.children.is_none());
    assert_eq!(node.contents.len(), 5);
}

#[test]
fn boxes_outside_region_are_not_stored() {
    let mut tree = QuadTree::new(Vec2::new(0, 0), Vec2::new(100, 100), 4, 2);
    tree.insert(QuadTreeEntry::new(Vec2::new(200, 200), Vec2::new(5, 5), 0));
    tree.insert(QuadTreeEntry::new(Vec2::new(201, 201), Vec2::new(5, 5), 1));
    assert!(tree.get_possible_collisions().is_empty());
}

#[test]
fn spanning_box_pairs_reported_once() {
    let mut tree = QuadTree::new(Vec2::new(0, 0), Vec2::new(100, 100), 4, 1);
    tree.insert(QuadTreeEntry::new(Vec2::new(40, 40), Vec2::new(20, 20), 0));
    tree.insert(QuadTreeEntry::new(Vec2::new(45, 45), Vec2::new(10, 10), 1));
    tree.insert(QuadTreeEntry::new(Vec2::new(90, 90), Vec2::new(5, 5), 2));
    let pairs = tree.get_possible_collisions();
    assert_eq!(pairs.iter().filter(|p| **p == (1, 0)).count(), 1);
    assert!(pairs.iter().all(|p| p.0 > p.1));
}

#[test]
fn insert_ball_uses_bounding_box() {
    let mut tree = QuadTree::new(Vec2::new(0, 0), Vec2::new(u(100.0), u(100.0)), 4, 4);
    tree.insert_ball(&Ball::new(u(50.0), u(50.0), u(10.0)), 3);
    tree.insert_ball(&Ball::new(u(69.0), u(50.0), u(10.0)), 5);
    tree.insert_ball(&Ball::new(u(90.0), u(90.0), u(5.0)), 6);
    let pairs = tree.get_possible_collisions();
    assert_eq!(pairs.len(), 3);
    assert!(pairs.contains(&(5, 3)));
}

#[test]
fn standard_config_values() {
    let c = Config::standard();
    assert_eq!(c.arena.center, Vec2::new(u(960.0), u(515.0)));
    assert_eq!(c.arena.radius, u(500.0));
    assert_eq!(c.gravity, u(0.2));
    assert_eq!(c.iterations, 6);
    let p = Physics::default();
    assert_eq!(p.ball_count(), 0);
}

#[test]
fn fan_indices_share_first_vertex() {
    assert_eq!(circle_fan_indices(5), vec![0, 1, 2, 0, 2, 3, 0, 3, 4]);
    assert_eq!(circle_fan_indices(3), vec![0, 1, 2]);
    assert!(circle_fan_indices(2).is_empty());
    assert!(circle_fan_indices(0).is_empty());
    assert_eq!(circle_fan_indices(32).len(), 90);
}

#[test]
fn resolving_a_pair_moves_centers_apart() {
    let mut p = Physics::new(open_config(1, 0));
    p.add_ball(Ball::new(u(1.0), u(2.0), u(10.0)));
    p.add_ball(Ball::new(u(8.0), u(-3.0), u(7.0)));
    p.add_ball(Ball::new(u(100.0), u(100.0), u(5.0)));
    let before = dist_sq(p.ball(0).pos, p.ball(1).pos);
    p.collide(0, 1);
    let after = dist_sq(p.ball(0).pos, p.ball(1).pos);
    assert!(after > before);
    let far = p.ball(2);
    p.collide(2, 0);
    assert_eq!(p.ball(2), far);
}

fn sorted_pairs(t: &QuadTree) -> Vec<(usize, usize)> {
    let mut p = t.get_possible_collisions();
    p.sort();
    p
}

#[test]
fn one_leaf_proposes_every_pair() {
    let mut t = QuadTree::new(Vec2::new(0, 0), Vec2::new(100, 100), 8, 4);
    t.insert(QuadTreeEntry::new(Vec2::new(0, 0), Vec2::new(10, 10), 0));
    t.insert(QuadTreeEntry::new(Vec2::new(5, 5), Vec2::new(10, 10), 1));
    t.insert(QuadTreeEntry::new(Vec2::new(80, 80), Vec2::new(5, 5), 2));
    assert_eq!(sorted_pairs(&t), vec![(1, 0), (2, 0), (2, 1)]);
}

#[test]
fn split_separates_distant_boxes() {
    let mut t = QuadTree::new(Vec2::new(0, 0), Vec2::new(100, 100), 8, 1);
    t.insert(QuadTreeEntry::new(Vec2::new(0, 0), Vec2::new(10, 10), 0));
    t.insert(QuadTreeEntry::new(Vec2::new(60, 60), Vec2::new(10, 10), 1));
    assert!(t.node.children.is_some());
    assert!(t.get_possible_collisions().is_empty());
}

#[test]
fn deep_split_reports_overlap_once() {
    let mut t = QuadTree::new(Vec2::new(0, 0), Vec2::new(100, 100), 8, 1);
    t.insert(QuadTreeEntry::new(Vec2::new(0, 0), Vec2::new(10, 10), 0));
    t.insert(QuadTreeEntry::new(Vec2::new(5, 5), Vec2::new(10, 10), 1));
    assert_eq!(t.get_possible_collisions(), vec![(1, 0)]);
}

#[test]
fn new_tree_is_empty() {
    let t = QuadTree::new(Vec2::new(0, 0), Vec2::new(100, 100), 8, 4);
    assert!(t.node.children.is_none());
    assert!(t.node.contents.is_empty());
    assert_eq!(t.max_depth, 8);
    assert_eq!(t.max_size, 4);
    assert!(t.get_possible_collisions().is_empty());
}

#[test]
fn missed_box_leaves_node_unchanged() {
    let mut node = QuadTreeNode::new(Vec2::new(0, 0), Vec2::new(100, 100), 0, 1, 4);
    node.insert(QuadTreeEntry::new(Vec2::new(10, 10), Vec2::new(5, 5), 0));
    node.insert(QuadTreeEntry::new(Vec2::new(150, 10), Vec2::new(5, 5), 1));
    assert!(node.children.is_none());
    assert_eq!(node.contents, vec![QuadTreeEntry::new(Vec2::new(10, 10), Vec2::new(5, 5), 0)]);
}

#[test]
fn leaf_lists_follow_child_order() {
    let mut node = QuadTreeNode::new(Vec2::new(0, 0), Vec2::new(100, 100), 0, 1, 1);
    let e0 = QuadTreeEntry::new(Vec2::new(70, 70), Vec2::new(2, 2), 0);
    let e1 = QuadTreeEntry::new(Vec2::new(10, 10), Vec2::new(2, 2), 1);
    let e2 = QuadTreeEntry::new(Vec2::new(45, 45), Vec2::new(10, 10), 2);
    node.insert(e0);
    node.insert(e1);
    node.insert(e2);
    let leaves = node.get_leaf_contents();
    assert_eq!(leaves, vec![vec![e1, e2], vec![e2], vec![e2], vec![e0, e2]]);
}

#[test]
fn default_drop_stays_on_center_line() {
    let mut p = Physics::default();
    assert_eq!(p.config, Config::standard());
    let c = p.config.arena.center;
    p.add_ball(Ball::new(c.x, c.y, u(10.0)));
    for _ in 0..200 {
        p.update();
        assert_eq!(p.ball(0).pos.x, c.x);
        assert_eq!(p.ball(0).vel.x, 0);
    }
}

#[test]
fn tiny_overlap_still_moves_balls() {
    let mut p = Physics::new(open_config(1, 0));
    p.add_ball(Ball::new(0, 0, u(10.0)));
    p.add_ball(Ball::new(199_999, 0, u(10.0)));
    p.collide(0, 1);
    assert_eq!(p.ball(0).pos, Vec2::new(-1, 0));
    assert_eq!(p.ball(1).pos, Vec2::new(200_000, 0));
    assert_eq!(p.ball(0).vel, Vec2::new(-1, 0));
    let a = Ball::new(0, 0, u(10.0));
    assert_eq!(a.resolution(&Ball::new(141_420, 141_420, u(10.0))).map(|c| c.x < 0 && c.y < 0), Some(true));
}
