//! The simulation: a growing set of balls in a circular arena, advanced one
//! frame at a time by forces, integration and an iterative overlap solver.
use vstd::prelude::*;
use crate::ball::{apply_spec, boundary_spec, inside, update_pos_spec, Arena, Ball, DAMPING_SCALE};
use crate::fixed::{
    abs_spec, away_div, clamp_spec, div_away_from_zero, floor_sqrt, in_limit, isqrt_floor, lemma_div_bound,
    lemma_floor_sqrt, trunc_div, COORD_LIMIT,
};
use crate::quadtree::{
    entry_of, in_rect, index_inserted, leaf_pairs_in, pair_of, rect_wf, QuadTree, QuadTreeEntry,
};
use crate::vec2::{dist_sq, lemma_sq_len_bound, sq_len, Vec2, UNIT};

verus! {

/// The constants a simulation runs with, fixed for its lifetime.
#[derive(Debug, Clone, Copy, PartialEq, Eq, Structural)]
pub struct Config {
    pub arena: Arena,
    /// Added to each ball's vertical velocity once per step.
    pub gravity: i64,
    /// Velocity kept per step, in parts of `DAMPING_SCALE`.
    pub damping: i64,
    /// Solver passes per step.
    pub iterations: u32,
    /// The region that the broad phase partitions.
    pub root_pos: Vec2,
    pub root_size: Vec2,
    pub max_depth: usize,
    pub max_size: usize,
}

impl Config {
    /// Valid constants, with the partition's region holding the square
    /// around the arena, so that no ball in the arena escapes the broad phase.
    pub open spec fn wf(&self) -> bool {
        &&& self.arena.wf()
        &&& in_limit(self.gravity as int)
        &&& 0 <= self.damping <= DAMPING_SCALE
        &&& rect_wf(self.root_pos, self.root_size)
        &&& self.root_pos.x <= self.arena.center.x - self.arena.radius
        &&& self.arena.center.x + self.arena.radius <= self.root_pos.x + self.root_size.x
        &&& self.root_pos.y <= self.arena.center.y - self.arena.radius
        &&& self.arena.center.y + self.arena.radius <= self.root_pos.y + self.root_size.y
    }

    /// The standard constants, as `standard` returns them.
    pub open spec fn standard_spec() -> Config {
        Config {
            arena: Arena { center: Vec2 { x: (960 * UNIT) as i64, y: (515 * UNIT) as i64 }, radius: (500 * UNIT) as i64 },
            gravity: (2 * UNIT / 10) as i64,
            damping: 9995,
            iterations: 6,
            root_pos: Vec2 { x: (420 * UNIT) as i64, y: 0 },
            root_size: Vec2 { x: (1080 * UNIT) as i64, y: (1080 * UNIT) as i64 },
            max_depth: 8,
            max_size: 4,
        }
    }

    /// The window-sized arena: center (960, 515), radius 500, gravity 0.2 per
    /// step, damping 0.9995, six solver passes, a partition over
    /// (420, 0)..(1500, 1080) of depth 8 with 4 entries per leaf.
    pub fn standard() -> (r: Config)
        ensures
            r.wf(),
            r == Config::standard_spec(),
            r.arena.center.x == 960 * UNIT,
            r.arena.center.y == 515 * UNIT,
            r.arena.radius == 500 * UNIT,
            r.gravity == 2 * UNIT / 10,
            r.damping == 9995,
            r.iterations == 6,
            r.root_pos.x == 420 * UNIT,
            r.root_pos.y == 0,
            r.root_size.x == 1080 * UNIT,
            r.root_size.y == 1080 * UNIT,
            r.max_depth == 8,
            r.max_size == 4,
    {
        Config {
            arena: Arena::new(Vec2::new(960 * UNIT, 515 * UNIT), 500 * UNIT),
            gravity: 2 * UNIT / 10,
            damping: 9995,
            iterations: 6,
            root_pos: Vec2::new(420 * UNIT, 0),
            root_size: Vec2::new(1080 * UNIT, 1080 * UNIT),
            max_depth: 8,
            max_size: 4,
        }
    }
}

/// The balls' circles overlap: their centers are closer than the sum of the
/// radii.
pub open spec fn circles_overlap(a: Ball, b: Ball) -> bool {
    dist_sq(a.pos, b.pos) < (a.radius + b.radius) * (a.radius + b.radius)
}

/// The displacement that separates two overlapping balls, applied to `a`
/// (and its negation to `b`): half the penetration depth along the line from
/// `b` to `a`, each component rounded away from zero (so that any overlap
/// moves the balls), with the distance taken as
/// the square root rounded down. Exactly coincident centers are pushed apart
/// along the x axis. `None` when the balls do not overlap.
pub open spec fn resolution_spec(a: Ball, b: Ball) -> Option<Vec2> {
    let sum = a.radius + b.radius;
    let dx = a.pos.x - b.pos.x;
    let dy = a.pos.y - b.pos.y;
    if abs_spec(dx) >= sum || abs_spec(dy) >= sum || sq_len(dx, dy) >= sum * sum {
        None
    } else if dx == 0 && dy == 0 {
        Some(Vec2 { x: trunc_div(sum, 2) as i64, y: 0 })
    } else {
        let d = floor_sqrt(sq_len(dx, dy));
        let pen = sum - d;
        Some(Vec2 { x: away_div(dx * pen, 2 * d) as i64, y: away_div(dy * pen, 2 * d) as i64 })
    }
}

/// Ball `b` moved, and its velocity changed, by `c`, saturating.
pub open spec fn pushed(b: Ball, c: Vec2) -> Ball {
    Ball { pos: b.pos.add_spec(c), vel: b.vel.add_spec(c), ..b }
}

/// The balls after the pair `(i, j)` is resolved.
pub open spec fn collide_spec(s: Seq<Ball>, i: int, j: int) -> Seq<Ball> {
    match resolution_spec(s[i], s[j]) {
        None => s,
        Some(c) => s.update(i, pushed(s[i], c)).update(
            j,
            pushed(s[j], Vec2 { x: (-c.x) as i64, y: (-c.y) as i64 }),
        ),
    }
}

/// The balls after the pairs are resolved in order; a pair that does not
/// name two distinct balls is skipped.
pub open spec fn collide_all(s: Seq<Ball>, pairs: Seq<(usize, usize)>) -> Seq<Ball>
    decreases pairs.len(),
{
    if pairs.len() == 0 {
        s
    } else {
        let prev = collide_all(s, pairs.drop_last());
        let (i, j) = pairs.last();
        if i < prev.len() && j < prev.len() && i != j {
            collide_spec(prev, i as int, j as int)
        } else {
            prev
        }
    }
}

/// The balls after the arena's containment rule is applied to each.
pub open spec fn contain_all_spec(s: Seq<Ball>, a: Arena) -> Seq<Ball> {
    Seq::new(s.len(), |k: int| boundary_spec(s[k], a))
}

/// A valid candidate list for the balls `s`: distinct pairs `(i, j)` with
/// `i > j`, among them every pair whose circles overlap.
pub open spec fn candidates_for(s: Seq<Ball>, pairs: Seq<(usize, usize)>) -> bool {
    &&& pairs.no_duplicates()
    &&& forall|k: int| 0 <= k < pairs.len() ==> (#[trigger] pairs[k]).0 > pairs[k].1
    &&& forall|i: int, j: int|
        0 <= j < i < s.len() && circles_overlap(#[trigger] s[i], #[trigger] s[j]) ==> pairs.contains(
            (i as usize, j as usize),
        )
}

/// One solver pass takes `s0` to `s1`: the pairs of some valid candidate
/// list are resolved in order, then every ball is contained.
pub open spec fn solver_pass(s0: Seq<Ball>, s1: Seq<Ball>, a: Arena) -> bool {
    exists|pairs: Seq<(usize, usize)>|
        candidates_for(s0, pairs) && s1 == contain_all_spec(#[trigger] collide_all(s0, pairs), a)
}

/// `n` solver passes take `s0` to `s1`, through the states `states`.
pub open spec fn pass_chain(states: Seq<Seq<Ball>>, s0: Seq<Ball>, s1: Seq<Ball>, n: nat, a: Arena) -> bool {
    &&& states.len() == n + 1
    &&& states[0] == s0
    &&& states[n as int] == s1
    &&& forall|k: int| 0 <= k < n ==> solver_pass(#[trigger] states[k], states[k + 1], a)
}

/// `n` solver passes take `s0` to `s1`.
pub open spec fn solver_passes(s0: Seq<Ball>, s1: Seq<Ball>, n: nat, a: Arena) -> bool {
    exists|states: Seq<Seq<Ball>>| pass_chain(states, s0, s1, n, a)
}

/// Each ball after forces, integration and containment.
pub open spec fn integrate_spec(s: Seq<Ball>, c: Config) -> Seq<Ball> {
    Seq::new(
        s.len(),
        |k: int| update_pos_spec(apply_spec(s[k], c.gravity as int, c.damping as int), c.arena),
    )
}

impl Ball {
    /// The correction that separates this ball from `other`, if they overlap.
    pub fn resolution(&self, other: &Ball) -> (r: Option<Vec2>)
        requires
            0 < self.radius <= COORD_LIMIT,
            0 < other.radius <= COORD_LIMIT,
            self.pos.wf(),
            other.pos.wf(),
        ensures
            r == resolution_spec(*self, *other),
            r.is_some() <==> circles_overlap(*self, *other),
            r matches Some(c) ==> {
                &&& c.wf()
                &&& c.x != 0 || c.y != 0
                &&& abs_spec(self.pos.x - other.pos.x) < self.radius + other.radius
                &&& (c.x > 0 ==> self.pos.x >= other.pos.x) && (c.x < 0 ==> self.pos.x <= other.pos.x)
                &&& (c.y > 0 ==> self.pos.y >= other.pos.y) && (c.y < 0 ==> self.pos.y <= other.pos.y)
            },
    {
        let sum: i128 = self.radius as i128 + other.radius as i128;
        let dx: i128 = self.pos.x as i128 - other.pos.x as i128;
        let dy: i128 = self.pos.y as i128 - other.pos.y as i128;
        let adx: i128 = if dx < 0 { -dx } else { dx };
        let ady: i128 = if dy < 0 { -dy } else { dy };
        if adx >= sum || ady >= sum {
            assert(dx * dx + dy * dy >= sum * sum) by (nonlinear_arith)
                requires
                    adx == abs_spec(dx as int),
                    ady == abs_spec(dy as int),
                    adx >= sum || ady >= sum,
                    sum > 0,
            ;
            return None;
        }
        proof {
            lemma_sq_len_bound(dx as int, dy as int, sum as int);
            assert(2 * sum * sum <= 8 * COORD_LIMIT * COORD_LIMIT) by (nonlinear_arith)
                requires
                    0 < sum <= 2 * COORD_LIMIT,
            ;
            assert(sum * sum <= 4 * COORD_LIMIT * COORD_LIMIT) by (nonlinear_arith)
                requires
                    0 < sum <= 2 * COORD_LIMIT,
            ;
        }
        let d2: i128 = dx * dx + dy * dy;
        if d2 >= sum * sum {
            return None;
        }
        if dx == 0 && dy == 0 {
            assert(sum / 2 >= 1);
            return Some(Vec2 { x: (sum / 2) as i64, y: 0 });
        }
        assert(d2 >= 1) by (nonlinear_arith)
            requires
                d2 == dx * dx + dy * dy,
                dx != 0 || dy != 0,
        ;
        let d = isqrt_floor(d2 as u128);
        let di: i128 = d as i128;
        proof {
            assert(1 <= di < sum) by (nonlinear_arith)
                requires
                    di * di <= d2,
                    d2 < (di + 1) * (di + 1),
                    d2 >= 1,
                    d2 < sum * sum,
                    sum > 0,
                    di >= 0,
            ;
            assert(abs_spec(dx as int) <= di && abs_spec(dy as int) <= di) by (nonlinear_arith)
                requires
                    dx * dx + dy * dy < (di + 1) * (di + 1),
                    di >= 0,
            ;
        }
        let pen: i128 = sum - di;
        proof {
            assert(abs_spec(dx * pen) <= sum * sum && abs_spec(dy * pen) <= sum * sum) by (nonlinear_arith)
                requires
                    abs_spec(dx as int) < sum,
                    abs_spec(dy as int) < sum,
                    0 < pen <= sum,
            ;
        }
        let cx = div_away_from_zero(dx * pen, 2 * di);
        let cy = div_away_from_zero(dy * pen, 2 * di);
        proof {
            assert(abs_spec(dx * pen) == abs_spec(dx as int) * pen && abs_spec(dy * pen) == abs_spec(
                dy as int,
            ) * pen) by (nonlinear_arith)
                requires
                    pen > 0,
            ;
            assert(2 * abs_spec(cx as int) <= pen + 1 && 2 * abs_spec(cy as int) <= pen + 1)
                by (nonlinear_arith)
                requires
                    abs_spec(cx as int) * (2 * di) <= abs_spec(dx as int) * pen + 2 * di - 1,
                    abs_spec(cy as int) * (2 * di) <= abs_spec(dy as int) * pen + 2 * di - 1,
                    abs_spec(dx as int) <= di,
                    abs_spec(dy as int) <= di,
                    pen > 0,
                    di >= 1,
            ;
            assert(dx * pen > 0 <==> dx > 0) by (nonlinear_arith)
                requires
                    pen > 0,
            ;
            assert(dx * pen < 0 <==> dx < 0) by (nonlinear_arith)
                requires
                    pen > 0,
            ;
            assert(dy * pen > 0 <==> dy > 0) by (nonlinear_arith)
                requires
                    pen > 0,
            ;
            assert(dy * pen < 0 <==> dy < 0) by (nonlinear_arith)
                requires
                    pen > 0,
            ;
            assert(pen <= COORD_LIMIT * 2);
        }
        Some(Vec2 { x: cx as i64, y: cy as i64 })
    }
}

/// A ball inside the arena has its bounding box inside the arena's square.
proof fn lemma_inside_box(b: Ball, a: Arena)
    requires
        b.wf(a),
        a.wf(),
        inside(b, a),
    ensures
        a.center.x - a.radius <= b.pos.x - b.radius,
        b.pos.x + b.radius <= a.center.x + a.radius,
        a.center.y - a.radius <= b.pos.y - b.radius,
        b.pos.y + b.radius <= a.center.y + a.radius,
{
    let dx = b.pos.x - a.center.x;
    let dy = b.pos.y - a.center.y;
    let al = a.radius - b.radius;
    assert(abs_spec(dx) <= al && abs_spec(dy) <= al) by (nonlinear_arith)
        requires
            dx * dx + dy * dy <= al * al,
            al >= 0,
    ;
}

/// The ball's bounding box lies in the partition's region.
pub open spec fn box_in_root(b: Ball, c: Config) -> bool {
    &&& c.root_pos.x <= b.pos.x - b.radius
    &&& b.pos.x + b.radius <= c.root_pos.x + c.root_size.x
    &&& c.root_pos.y <= b.pos.y - b.radius
    &&& b.pos.y + b.radius <= c.root_pos.y + c.root_size.y
}

/// Two overlapping balls with boxes in the partition's region share a point
/// of their boxes, and that point lies in the region.
proof fn lemma_common_point(c: Config, bi: Ball, bj: Ball, i: usize, j: usize) -> (p: (int, int))
    requires
        c.wf(),
        bi.wf(c.arena),
        bj.wf(c.arena),
        box_in_root(bi, c),
        box_in_root(bj, c),
        circles_overlap(bi, bj),
    ensures
        in_rect(p.0, p.1, c.root_pos, c.root_size),
        in_rect(p.0, p.1, entry_of(bi, i).pos, entry_of(bi, i).size),
        in_rect(p.0, p.1, entry_of(bj, j).pos, entry_of(bj, j).size),
{
    let dx = bi.pos.x - bj.pos.x;
    let dy = bi.pos.y - bj.pos.y;
    let sum = bi.radius + bj.radius;
    assert(abs_spec(dx) < sum && abs_spec(dy) < sum) by (nonlinear_arith)
        requires
            dx * dx + dy * dy < sum * sum,
            sum > 0,
    ;
    let px = if bi.pos.x - bi.radius > bj.pos.x - bj.radius {
        bi.pos.x - bi.radius
    } else {
        bj.pos.x - bj.radius
    };
    let py = if bi.pos.y - bi.radius > bj.pos.y - bj.radius {
        bi.pos.y - bi.radius
    } else {
        bj.pos.y - bj.radius
    };
    (px, py)
}

/// The balls of a running simulation and its constants.
#[derive(Debug)]
pub struct Physics {
    pub balls: Vec<Ball>,
    pub config: Config,
}

impl Physics {
    /// Valid constants and balls that each fit the arena.
    pub open spec fn wf(&self) -> bool {
        &&& self.config.wf()
        &&& forall|k: int| 0 <= k < self.balls@.len() ==> (#[trigger] self.balls@[k]).wf(self.config.arena)
    }

    /// Every ball lies inside the arena.
    pub open spec fn all_inside(&self) -> bool {
        forall|k: int| 0 <= k < self.balls@.len() ==> inside(#[trigger] self.balls@[k], self.config.arena)
    }

    /// Radii unchanged from `old`, ball for ball.
    pub open spec fn same_radii(&self, old: &Physics) -> bool {
        &&& self.balls@.len() == old.balls@.len()
        &&& forall|k: int|
            0 <= k < self.balls@.len() ==> (#[trigger] self.balls@[k]).radius == old.balls@[k].radius
    }

    /// Applies the arena's containment rule to every ball.
    pub fn contain_all(&mut self)
        requires
            old(self).wf(),
        ensures
            final(self).wf(),
            final(self).config == old(self).config,
            final(self).all_inside(),
            final(self).balls@.len() == old(self).balls@.len(),
            forall|k: int|
                0 <= k < final(self).balls@.len() ==> #[trigger] final(self).balls@[k]
                    == boundary_spec(old(self).balls@[k], old(self).config.arena),
    {
        let ghost start = self.balls@;
        let mut k: usize = 0;
        while k < self.balls.len()
            invariant
                self.wf(),
                self.config == old(self).config,
                self.balls@.len() == start.len(),
                start == old(self).balls@,
                0 <= k <= start.len(),
                forall|m: int| 0 <= m < k ==> inside(#[trigger] self.balls@[m], self.config.arena),
                forall|m: int|
                    0 <= m < k ==> #[trigger] self.balls@[m] == boundary_spec(start[m], self.config.arena),
                forall|m: int| k <= m < start.len() ==> #[trigger] self.balls@[m] == start[m],
            decreases start.len() - k,
        {
            let mut b = self.balls[k];
            b.circle_boundary(&self.config.arena);
            self.balls.set(k, b);
            k = k + 1;
        }
    }

    /// Applies forces, moves and contains every ball once.
    pub fn integrate_all(&mut self)
        requires
            old(self).wf(),
        ensures
            final(self).wf(),
            final(self).config == old(self).config,
            final(self).all_inside(),
            final(self).balls@ == integrate_spec(old(self).balls@, old(self).config),
    {
        let ghost start = self.balls@;
        let n = self.balls.len();
        let mut k: usize = 0;
        while k < n
            invariant
                self.wf(),
                self.config == old(self).config,
                start == old(self).balls@,
                n == self.balls@.len(),
                n == start.len(),
                0 <= k <= n,
                forall|m: int| 0 <= m < k ==> inside(#[trigger] self.balls@[m], self.config.arena),
                forall|m: int|
                    0 <= m < k ==> #[trigger] self.balls@[m] == integrate_spec(start, self.config)[m],
                forall|m: int| k <= m < n ==> #[trigger] self.balls@[m] == start[m],
            decreases n - k,
        {
            let mut b = self.balls[k];
            b.apply(self.config.gravity, self.config.damping);
            b.update_pos(&self.config.arena);
            self.balls.set(k, b);
            k = k + 1;
        }
        assert(self.balls@ =~= integrate_spec(start, self.config));
    }

    /// One solver pass: resolves every candidate pair of the broad phase in
    /// turn, then contains every ball.
    pub fn solve_pass(&mut self)
        requires
            old(self).wf(),
            old(self).all_inside(),
        ensures
            final(self).wf(),
            final(self).config == old(self).config,
            final(self).all_inside(),
            final(self).same_radii(old(self)),
            solver_pass(old(self).balls@, final(self).balls@, old(self).config.arena),
    {
        let ghost start = self.balls@;
        let n = self.balls.len();
        assert forall|k: int| 0 <= k < self.balls@.len() implies box_in_root(
            #[trigger] self.balls@[k],
            self.config,
        ) by {
            lemma_inside_box(self.balls@[k], self.config.arena);
        }
        let pairs = self.broad_phase_collisions();
        let mut p: usize = 0;
        while p < pairs.len()
            invariant
                self.wf(),
                self.config == old(self).config,
                self.same_radii(old(self)),
                start == old(self).balls@,
                n == self.balls@.len(),
                0 <= p <= pairs@.len(),
                forall|q: int| 0 <= q < pairs@.len() ==> (#[trigger] pairs@[q]).0 > pairs@[q].1,
                forall|q: int| 0 <= q < pairs@.len() ==> (#[trigger] pairs@[q]).0 < n,
                self.balls@ == collide_all(start, pairs@.subrange(0, p as int)),
            decreases pairs@.len() - p,
        {
            let (i, j) = pairs[p];
            assert(pairs@.subrange(0, p + 1).drop_last() == pairs@.subrange(0, p as int));
            self.collide(i, j);
            p = p + 1;
        }
        assert(pairs@.subrange(0, pairs@.len() as int) == pairs@);
        self.contain_all();
        assert(self.balls@ =~= contain_all_spec(collide_all(start, pairs@), self.config.arena));
        assert(candidates_for(start, pairs@));
    }

    /// Advances the simulation by one frame: forces and integration once per
    /// ball, then `iterations` solver passes. Afterwards every ball lies
    /// inside the arena.
    pub fn update(&mut self)
        requires
            old(self).wf(),
        ensures
            final(self).wf(),
            final(self).config == old(self).config,
            final(self).same_radii(old(self)),
            final(self).all_inside(),
            solver_passes(
                integrate_spec(old(self).balls@, old(self).config),
                final(self).balls@,
                old(self).config.iterations as nat,
                old(self).config.arena,
            ),
    {
        self.integrate_all();
        let ghost start = self.balls@;
        let ghost mut states: Seq<Seq<Ball>> = seq![start];
        let mut it: u32 = 0;
        while it < self.config.iterations
            invariant
                self.wf(),
                self.config == old(self).config,
                self.same_radii(old(self)),
                self.all_inside(),
                start == integrate_spec(old(self).balls@, old(self).config),
                it <= self.config.iterations,
                pass_chain(states, start, self.balls@, it as nat, self.config.arena),
            decreases self.config.iterations - it,
        {
            self.solve_pass();
            proof {
                let ghost prev = states;
                states = states.push(self.balls@);
                assert forall|k: int| 0 <= k < it + 1 implies solver_pass(
                    #[trigger] states[k],
                    states[k + 1],
                    self.config.arena,
                ) by {
                    if k < it {
                        assert(states[k] == prev[k] && states[k + 1] == prev[k + 1]);
                    }
                }
            }
            it = it + 1;
        }
        assert(pass_chain(states, start, self.balls@, self.config.iterations as nat, self.config.arena));
    }

    /// A simulation with no balls.
    pub fn new(config: Config) -> (r: Physics)
        requires
            config.wf(),
        ensures
            r.wf(),
            r.config == config,
            r.balls@.len() == 0,
    {
        Physics { balls: Vec::new(), config }
    }

    /// Adds a ball; it takes part in the next step.
    pub fn add_ball(&mut self, ball: Ball)
        requires
            old(self).wf(),
            ball.wf(old(self).config.arena),
        ensures
            final(self).wf(),
            final(self).config == old(self).config,
            final(self).balls@ == old(self).balls@.push(ball),
    {
        self.balls.push(ball);
    }

    /// Resolves the overlap of balls `i` and `j`, if any: `i` moves by the
    /// correction and `j` by its negation, positions and velocities alike.
    pub fn collide(&mut self, i: usize, j: usize)
        requires
            old(self).wf(),
            i < old(self).balls@.len(),
            j < old(self).balls@.len(),
            i != j,
        ensures
            final(self).wf(),
            final(self).config == old(self).config,
            final(self).balls@ == collide_spec(old(self).balls@, i as int, j as int),
            circles_overlap(old(self).balls@[i as int], old(self).balls@[j as int])
                <==> final(self).balls@ != old(self).balls@,
    {
        let b1 = self.balls[i];
        let b2 = self.balls[j];
        match b1.resolution(&b2) {
            None => {},
            Some(c) => {
                let n1 = Ball { pos: b1.pos.add(c), vel: b1.vel.add(c), ..b1 };
                let m = c.neg();
                let n2 = Ball { pos: b2.pos.add(m), vel: b2.vel.add(m), ..b2 };
                self.balls.set(i, n1);
                self.balls.set(j, n2);
                proof {
                    assert(b1.radius <= COORD_LIMIT && b2.radius <= COORD_LIMIT);
                    if n1.pos == b1.pos && n2.pos == b2.pos {
                        if c.x != 0 {
                            assert(n1.pos.x == clamp_spec(b1.pos.x + c.x));
                            assert(n2.pos.x == clamp_spec(b2.pos.x - c.x));
                            assert(false);
                        } else {
                            assert(n1.pos.y == clamp_spec(b1.pos.y + c.y));
                            assert(n2.pos.y == clamp_spec(b2.pos.y - c.y));
                            assert(false);
                        }
                    }
                    assert(self.balls@[i as int] != old(self).balls@[i as int] || self.balls@[j as int]
                        != old(self).balls@[j as int]);
                }
            },
        }
    }

    /// The candidate pairs `(i, j)`, `i > j`, of one solver pass: each pair
    /// at most once, and every pair of balls whose circles overlap among them.
    pub fn broad_phase_collisions(&self) -> (r: Vec<(usize, usize)>)
        requires
            self.wf(),
            forall|k: int|
                0 <= k < self.balls@.len() ==> box_in_root(#[trigger] self.balls@[k], self.config),
        ensures
            r@.no_duplicates(),
            forall|k: int| 0 <= k < r@.len() ==> (#[trigger] r@[k]).0 > r@[k].1,
            forall|k: int| 0 <= k < r@.len() ==> (#[trigger] r@[k]).0 < self.balls@.len(),
            forall|i: int, j: int|
                0 <= j < i < self.balls@.len() && circles_overlap(
                    #[trigger] self.balls@[i],
                    #[trigger] self.balls@[j],
                ) ==> r@.contains((i as usize, j as usize)),
    {
        let c = &self.config;
        let mut tree = QuadTree::new(c.root_pos, c.root_size, c.max_depth, c.max_size);
        let mut k: usize = 0;
        while k < self.balls.len()
            invariant
                self.wf(),
                forall|m: int|
                    0 <= m < self.balls@.len() ==> box_in_root(#[trigger] self.balls@[m], self.config),
                c == &self.config,
                tree.wf(),
                tree.node.pos == c.root_pos,
                tree.node.size == c.root_size,
                0 <= k <= self.balls@.len(),
                forall|m: int| 0 <= m < k ==> tree.node.covers(#[trigger] entry_of(self.balls@[m], m as usize)),
                forall|m: int| 0 <= m < tree.inserted@.len() ==> (#[trigger] tree.inserted@[m]).ball_index < k,
            decreases self.balls@.len() - k,
        {
            assert(box_in_root(self.balls@[k as int], *c));
            tree.insert_ball(&self.balls[k], k);
            k = k + 1;
        }
        let r = tree.get_possible_collisions();
        proof {
            assert forall|k: int| 0 <= k < r@.len() implies (#[trigger] r@[k]).0 < self.balls@.len() by {
                assert(index_inserted(tree.inserted@, r@[k].0));
                let e = choose|e: QuadTreeEntry| tree.inserted@.contains(e) && e.ball_index == r@[k].0;
                let m = choose|m: int| 0 <= m < tree.inserted@.len() && tree.inserted@[m] == e;
                assert(tree.inserted@[m].ball_index < self.balls@.len());
            }
            assert forall|i: int, j: int|
                0 <= j < i < self.balls@.len() && circles_overlap(
                    #[trigger] self.balls@[i],
                    #[trigger] self.balls@[j],
                ) implies r@.contains((i as usize, j as usize)) by {
                let bi = self.balls@[i];
                let bj = self.balls@[j];
                let p = lemma_common_point(*c, bi, bj, i as usize, j as usize);
                let ei = entry_of(bi, i as usize);
                let ej = entry_of(bj, j as usize);
                assert(tree.node.covers(ei));
                assert(tree.node.covers(ej));
                let lf = tree.node.leaf_at(p.0, p.1);
                assert(lf.contains(ei));
                assert(lf.contains(ej));
                let a = choose|a: int| 0 <= a < lf.len() && lf[a] == ei;
                let b = choose|b: int| 0 <= b < lf.len() && lf[b] == ej;
                assert(leaf_pairs_in(lf, r@));
                assert(pair_of(lf[a], lf[b]) == (i as usize, j as usize));
            }
        }
        r
    }

    /// The number of balls.
    pub fn ball_count(&self) -> (r: usize)
        ensures
            r == self.balls@.len(),
    {
        self.balls.len()
    }

    /// Ball `i`, as the renderer reads it.
    pub fn ball(&self, i: usize) -> (r: Ball)
        requires
            i < self.balls@.len(),
        ensures
            r == self.balls@[i as int],
    {
        self.balls[i]
    }
}

impl Default for Physics {
    /// An empty simulation with the standard constants.
    fn default() -> (r: Physics)
        ensures
            r.wf(),
            r.config == Config::standard_spec(),
            r.balls@.len() == 0,
    {
        Physics::new(Config::standard())
    }
}

/// Resolving an overlap moves the two balls by opposite amounts: unless a
/// coordinate saturates, the sum of their positions and the sum of their
/// velocities are what they were.
pub proof fn lemma_collide_momentum_neutral(s: Seq<Ball>, i: int, j: int)
    requires
        0 <= i < s.len(),
        0 <= j < s.len(),
        i != j,
        s[i].pos.wf(),
        s[j].pos.wf(),
        resolution_spec(s[i], s[j]) matches Some(c) ==> {
            &&& in_limit(s[i].pos.x + c.x) && in_limit(s[i].pos.y + c.y)
            &&& in_limit(s[i].vel.x + c.x) && in_limit(s[i].vel.y + c.y)
            &&& in_limit(s[j].pos.x - c.x) && in_limit(s[j].pos.y - c.y)
            &&& in_limit(s[j].vel.x - c.x) && in_limit(s[j].vel.y - c.y)
        },
    ensures
        ({
            let t = collide_spec(s, i, j);
            &&& t[i].pos.x + t[j].pos.x == s[i].pos.x + s[j].pos.x
            &&& t[i].pos.y + t[j].pos.y == s[i].pos.y + s[j].pos.y
            &&& t[i].vel.x + t[j].vel.x == s[i].vel.x + s[j].vel.x
            &&& t[i].vel.y + t[j].vel.y == s[i].vel.y + s[j].vel.y
        }),
{
    if let Some(c) = resolution_spec(s[i], s[j]) {
        assert(-COORD_LIMIT * 2 <= c.x <= COORD_LIMIT * 2);
        assert(-COORD_LIMIT * 2 <= c.y <= COORD_LIMIT * 2);
    }
}

/// `v * pen / (2 * d)`, rounded away from zero, has the sign of `v` and is
/// at most `pen` in magnitude when `|v| <= d`.
proof fn lemma_share_same_sign(v: int, pen: int, d: int)
    requires
        abs_spec(v) <= d,
        d >= 1,
        pen > 0,
    ensures
        v * away_div(v * pen, 2 * d) >= 0,
        abs_spec(away_div(v * pen, 2 * d)) <= pen,
{
    let w = abs_spec(v) * pen;
    assert(w >= 0 && w == abs_spec(v * pen)) by (nonlinear_arith)
        requires
            w == abs_spec(v) * pen,
            pen > 0,
    ;
    let b = 2 * d;
    vstd::arithmetic::div_mod::lemma_div_pos_is_pos(w + b - 1, b);
    lemma_div_bound(w + b - 1, b);
    let q = (w + b - 1) / b;
    assert(q <= pen) by (nonlinear_arith)
        requires
            q * b <= w + b - 1,
            b == 2 * d,
            w == abs_spec(v) * pen,
            abs_spec(v) <= d,
            pen > 0,
            d >= 1,
            q >= 0,
    ;
    if v >= 0 {
        assert(v * pen == w);
        assert(away_div(v * pen, b) == q);
        assert(v * q >= 0) by (nonlinear_arith)
            requires
                v >= 0,
                q >= 0,
        ;
    } else {
        assert(-(v * pen) == w) by (nonlinear_arith)
            requires
                v < 0,
                w == (-v) * pen,
        ;
        assert(v * pen < 0) by (nonlinear_arith)
            requires
                v < 0,
                pen > 0,
        ;
        assert(-(v * pen) + b - 1 == w + b - 1);
        assert(away_div(v * pen, b) == -q);
        assert(v * (-q) >= 0) by (nonlinear_arith)
            requires
                v < 0,
                q >= 0,
        ;
    }
}

/// Resolving an overlap never brings the two centers closer: unless a
/// coordinate saturates, each coordinate gap grows by twice the correction,
/// so the squared distance does not shrink, and it grows whenever the
/// correction is not zero.
pub proof fn lemma_collide_separates(s: Seq<Ball>, i: int, j: int)
    requires
        0 <= i < s.len(),
        0 <= j < s.len(),
        i != j,
        0 < s[i].radius <= COORD_LIMIT,
        0 < s[j].radius <= COORD_LIMIT,
        s[i].pos.wf(),
        s[j].pos.wf(),
        resolution_spec(s[i], s[j]) matches Some(c) ==> {
            &&& in_limit(s[i].pos.x + c.x) && in_limit(s[i].pos.y + c.y)
            &&& in_limit(s[j].pos.x - c.x) && in_limit(s[j].pos.y - c.y)
        },
    ensures
        ({
            let t = collide_spec(s, i, j);
            &&& dist_sq(t[i].pos, t[j].pos) >= dist_sq(s[i].pos, s[j].pos)
            &&& (resolution_spec(s[i], s[j]) matches Some(c) && (c.x != 0 || c.y != 0)) ==> dist_sq(
                t[i].pos,
                t[j].pos,
            ) > dist_sq(s[i].pos, s[j].pos)
        }),
{
    let a = s[i];
    let b = s[j];
    if let Some(c) = resolution_spec(a, b) {
        let sum = a.radius + b.radius;
        let dx = a.pos.x - b.pos.x;
        let dy = a.pos.y - b.pos.y;
        let t = collide_spec(s, i, j);
        assert(-COORD_LIMIT * 2 <= c.x <= COORD_LIMIT * 2);
        assert(-COORD_LIMIT * 2 <= c.y <= COORD_LIMIT * 2);
        assert(t[i].pos.x - t[j].pos.x == dx + 2 * c.x);
        assert(t[i].pos.y - t[j].pos.y == dy + 2 * c.y);
        if !(dx == 0 && dy == 0) {
            let n = sq_len(dx, dy);
            assert(n >= 0) by (nonlinear_arith)
                requires
                    n == dx * dx + dy * dy,
            ;
            lemma_floor_sqrt(n);
            let d = floor_sqrt(n);
            assert(n >= 1) by (nonlinear_arith)
                requires
                    n == dx * dx + dy * dy,
                    dx != 0 || dy != 0,
            ;
            assert(1 <= d < sum) by (nonlinear_arith)
                requires
                    d * d <= n,
                    n < (d + 1) * (d + 1),
                    n >= 1,
                    n < sum * sum,
                    sum > 0,
                    d >= 0,
            ;
            assert(abs_spec(dx) <= d && abs_spec(dy) <= d) by (nonlinear_arith)
                requires
                    dx * dx + dy * dy < (d + 1) * (d + 1),
                    d >= 0,
            ;
            let pen = sum - d;
            lemma_share_same_sign(dx, pen, d);
            lemma_share_same_sign(dy, pen, d);
        }
        let cx = c.x as int;
        let cy = c.y as int;
        assert(sq_len(dx + 2 * cx, dy + 2 * cy) == sq_len(dx, dy) + 4 * (dx * cx + dy * cy) + 4 * (cx
            * cx + cy * cy)) by (nonlinear_arith);
        assert(cx * cx + cy * cy >= 0) by (nonlinear_arith);
        assert((cx != 0 || cy != 0) ==> cx * cx + cy * cy > 0) by (nonlinear_arith);
    }
}

} // verus!
