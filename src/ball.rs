//! A circular body, its per-step forces and integration, and the arena that
//! confines it.
use vstd::prelude::*;
use crate::fixed::{
    abs_spec, clamp_coord, clamp_spec, div_toward_zero, in_limit, isqrt_ceil, ceil_sqrt, trunc_div,
    COORD_LIMIT,
};
use crate::vec2::{dist_sq, lemma_sq_len_bound, Vec2};

verus! {

/// Damping factors are given in parts of `DAMPING_SCALE`.
pub const DAMPING_SCALE: i64 = 10_000;

/// The circle that every ball must stay inside.
#[derive(Debug, Clone, Copy, PartialEq, Eq, Structural)]
pub struct Arena {
    pub center: Vec2,
    pub radius: i64,
}

impl Arena {
    /// A positive radius, and the whole circle inside the coordinate range.
    pub open spec fn wf(self) -> bool {
        0 < self.radius && in_limit(self.center.x - self.radius) && in_limit(
            self.center.x + self.radius,
        ) && in_limit(self.center.y - self.radius) && in_limit(self.center.y + self.radius)
    }

    pub fn new(center: Vec2, radius: i64) -> (r: Arena)
        ensures
            r.center == center,
            r.radius == radius,
    {
        Arena { center, radius }
    }
}

#[derive(Debug, Clone, Copy, PartialEq, Eq, Structural)]
pub struct Ball {
    pub radius: i64,
    pub pos: Vec2,
    pub vel: Vec2,
}

/// `v` scaled by `damping / DAMPING_SCALE`, rounded toward zero.
pub open spec fn damp_spec(v: int, damping: int) -> int {
    trunc_div(v * damping, DAMPING_SCALE as int)
}

/// The ball after gravity and damping are applied to its velocity.
pub open spec fn apply_spec(b: Ball, gravity: int, damping: int) -> Ball {
    Ball {
        vel: Vec2 {
            x: damp_spec(b.vel.x as int, damping) as i64,
            y: damp_spec(clamp_spec(b.vel.y + gravity), damping) as i64,
        },
        ..b
    }
}

/// How far the ball's center may be from the arena's center.
pub open spec fn allowed_spec(b: Ball, a: Arena) -> int {
    a.radius - b.radius
}

/// Whether the ball lies inside the arena.
pub open spec fn inside(b: Ball, a: Arena) -> bool {
    dist_sq(b.pos, a.center) <= allowed_spec(b, a) * allowed_spec(b, a)
}

/// The ball after arena containment: a ball too far out is moved back along
/// the line to the center so that its distance (taken as the square root
/// rounded up, `dc`) becomes the allowed one, each offset rounded toward
/// zero; its velocity loses the same displacement.
pub open spec fn bounded_spec(b: Ball, a: Arena, dc: int) -> Ball {
    let dx = b.pos.x - a.center.x;
    let dy = b.pos.y - a.center.y;
    let allowed = allowed_spec(b, a);
    let nx = a.center.x + trunc_div(dx * allowed, dc);
    let ny = a.center.y + trunc_div(dy * allowed, dc);
    Ball {
        pos: Vec2 { x: nx as i64, y: ny as i64 },
        vel: Vec2 {
            x: clamp_spec(b.vel.x - (b.pos.x - nx)) as i64,
            y: clamp_spec(b.vel.y - (b.pos.y - ny)) as i64,
        },
        ..b
    }
}

/// The ball after the arena's containment rule.
pub open spec fn boundary_spec(b: Ball, a: Arena) -> Ball {
    if inside(b, a) {
        b
    } else {
        bounded_spec(b, a, ceil_sqrt(dist_sq(b.pos, a.center)))
    }
}

/// The ball after it moves by its velocity and is contained.
pub open spec fn update_pos_spec(b: Ball, a: Arena) -> Ball {
    boundary_spec(Ball { pos: b.pos.add_spec(b.vel), ..b }, a)
}

proof fn lemma_scaled_inside(dx: int, dy: int, tx: int, ty: int, dc: int, allowed: int)
    requires
        dc > 0,
        allowed >= 0,
        abs_spec(tx) * dc <= abs_spec(dx * allowed),
        abs_spec(ty) * dc <= abs_spec(dy * allowed),
        dx * dx + dy * dy <= dc * dc,
    ensures
        tx * tx + ty * ty <= allowed * allowed,
        abs_spec(tx) <= allowed,
        abs_spec(ty) <= allowed,
{
    let ax = abs_spec(tx);
    let ay = abs_spec(ty);
    let ex = abs_spec(dx);
    let ey = abs_spec(dy);
    assert(abs_spec(dx * allowed) == ex * allowed) by (nonlinear_arith)
        requires
            ex == abs_spec(dx),
            allowed >= 0,
    ;
    assert(abs_spec(dy * allowed) == ey * allowed) by (nonlinear_arith)
        requires
            ey == abs_spec(dy),
            allowed >= 0,
    ;
    assert(ax * ax * (dc * dc) <= ex * ex * (allowed * allowed)) by (nonlinear_arith)
        requires
            0 <= ax * dc <= ex * allowed,
            ax >= 0,
            dc > 0,
    ;
    assert(ay * ay * (dc * dc) <= ey * ey * (allowed * allowed)) by (nonlinear_arith)
        requires
            0 <= ay * dc <= ey * allowed,
            ay >= 0,
            dc > 0,
    ;
    assert(tx * tx == ax * ax && ty * ty == ay * ay && dx * dx == ex * ex && dy * dy == ey
        * ey) by (nonlinear_arith)
        requires
            ax == abs_spec(tx),
            ay == abs_spec(ty),
            ex == abs_spec(dx),
            ey == abs_spec(dy),
    ;
    let xx = tx * tx;
    let yy = ty * ty;
    let pp = dx * dx;
    let qq = dy * dy;
    let d2 = dc * dc;
    let l2 = allowed * allowed;
    assert(l2 >= 0) by (nonlinear_arith)
        requires
            l2 == allowed * allowed,
    ;
    assert(pp * l2 + qq * l2 <= d2 * l2) by (nonlinear_arith)
        requires
            pp + qq <= d2,
            l2 >= 0,
    ;
    assert((xx + yy) * d2 <= d2 * l2) by (nonlinear_arith)
        requires
            xx * d2 <= pp * l2,
            yy * d2 <= qq * l2,
            pp * l2 + qq * l2 <= d2 * l2,
    ;
    assert(tx * tx + ty * ty <= allowed * allowed) by (nonlinear_arith)
        requires
            (tx * tx + ty * ty) * (dc * dc) <= (dc * dc) * (allowed * allowed),
            dc > 0,
    ;
    assert(ax <= allowed && ay <= allowed) by (nonlinear_arith)
        requires
            ax * ax + ay * ay <= allowed * allowed,
            ax >= 0,
            ay >= 0,
            allowed >= 0,
    ;
}

impl Ball {
    /// A positive radius no larger than the arena's, and coordinates and
    /// velocity inside the saturation bound.
    pub open spec fn wf(self, a: Arena) -> bool {
        0 < self.radius <= a.radius && self.pos.wf() && self.vel.wf()
    }

    /// A ball at rest at `(x, y)`.
    pub fn new(x: i64, y: i64, radius: i64) -> (r: Ball)
        requires
            radius > 0,
        ensures
            r.pos == Vec2::new_spec(x, y),
            r.vel == Vec2::new_spec(0, 0),
            r.radius == radius,
    {
        Ball { radius, pos: Vec2::new(x, y), vel: Vec2::new(0, 0) }
    }

    /// Adds `gravity` to the vertical velocity, then scales the velocity by
    /// `damping / DAMPING_SCALE`.
    pub fn apply(&mut self, gravity: i64, damping: i64)
        requires
            old(self).vel.wf(),
            in_limit(gravity as int),
            0 <= damping <= DAMPING_SCALE,
        ensures
            *final(self) == apply_spec(*old(self), gravity as int, damping as int),
            final(self).vel.wf(),
    {
        let vy = clamp_coord(self.vel.y as i128 + gravity as i128);
        let vx = self.vel.x;
        assert(abs_spec(vx * damping) <= COORD_LIMIT * DAMPING_SCALE) by (nonlinear_arith)
            requires
                in_limit(vx as int),
                0 <= damping <= DAMPING_SCALE,
        ;
        assert(abs_spec(vy * damping) <= COORD_LIMIT * DAMPING_SCALE) by (nonlinear_arith)
            requires
                in_limit(vy as int),
                0 <= damping <= DAMPING_SCALE,
        ;
        let dx = div_toward_zero(vx as i128 * damping as i128, DAMPING_SCALE as i128);
        let dy = div_toward_zero(vy as i128 * damping as i128, DAMPING_SCALE as i128);
        proof {
            lemma_damp_bound(vx as int, damping as int, dx as int);
            lemma_damp_bound(vy as int, damping as int, dy as int);
        }
        self.vel = Vec2 { x: dx as i64, y: dy as i64 };
    }

    /// Moves the ball by its velocity, then keeps it inside the arena.
    pub fn update_pos(&mut self, arena: &Arena)
        requires
            old(self).wf(*arena),
            arena.wf(),
        ensures
            final(self).wf(*arena),
            inside(*final(self), *arena),
            *final(self) == update_pos_spec(*old(self), *arena),
    {
        self.pos = self.pos.add(self.vel);
        self.circle_boundary(arena);
    }

    /// Pulls a ball that reaches past the arena's edge back onto it, and
    /// takes the same displacement off its velocity.
    pub fn circle_boundary(&mut self, arena: &Arena)
        requires
            old(self).wf(*arena),
            arena.wf(),
        ensures
            final(self).wf(*arena),
            inside(*final(self), *arena),
            *final(self) == boundary_spec(*old(self), *arena),
    {
        let allowed: i64 = arena.radius - self.radius;
        let d2 = self.pos.distance_squared(&arena.center);
        assert(8 * COORD_LIMIT * COORD_LIMIT < 0x1_0000_0000_0000_0000_0000_0000);
        let dc = isqrt_ceil(d2);
        assert(0 <= allowed <= COORD_LIMIT);
        assert((allowed as int) * (allowed as int) <= COORD_LIMIT * COORD_LIMIT) by (nonlinear_arith)
            requires
                0 <= allowed <= COORD_LIMIT,
        ;
        if d2 <= (allowed as u128) * (allowed as u128) {
            return;
        }
        let dx: i128 = self.pos.x as i128 - arena.center.x as i128;
        let dy: i128 = self.pos.y as i128 - arena.center.y as i128;
        proof {
            lemma_sq_len_bound(dx as int, dy as int, 2 * COORD_LIMIT);
            assert(dc > 0) by (nonlinear_arith)
                requires
                    d2 as int <= (dc as int) * (dc as int),
                    d2 > 0,
            ;
            assert(abs_spec(dx * allowed) <= 4 * COORD_LIMIT * COORD_LIMIT) by (nonlinear_arith)
                requires
                    -2 * COORD_LIMIT <= dx <= 2 * COORD_LIMIT,
                    0 <= allowed <= 2 * COORD_LIMIT,
            ;
            assert(abs_spec(dy * allowed) <= 4 * COORD_LIMIT * COORD_LIMIT) by (nonlinear_arith)
                requires
                    -2 * COORD_LIMIT <= dy <= 2 * COORD_LIMIT,
                    0 <= allowed <= 2 * COORD_LIMIT,
            ;
        }
        let tx = div_toward_zero(dx * allowed as i128, dc as i128);
        let ty = div_toward_zero(dy * allowed as i128, dc as i128);
        proof {
            lemma_scaled_inside(dx as int, dy as int, tx as int, ty as int, dc as int, allowed as int);
        }
        let nx: i64 = arena.center.x + tx as i64;
        let ny: i64 = arena.center.y + ty as i64;
        let vx = clamp_coord(self.vel.x as i128 - (self.pos.x as i128 - nx as i128));
        let vy = clamp_coord(self.vel.y as i128 - (self.pos.y as i128 - ny as i128));
        self.pos = Vec2 { x: nx, y: ny };
        self.vel = Vec2 { x: vx, y: vy };
        assert(dist_sq(self.pos, arena.center) == tx * tx + ty * ty);
    }
}

proof fn lemma_damp_bound(v: int, damping: int, r: int)
    requires
        in_limit(v),
        0 <= damping <= DAMPING_SCALE,
        abs_spec(r) * DAMPING_SCALE <= abs_spec(v * damping),
    ensures
        in_limit(r),
{
    assert(abs_spec(v * damping) <= abs_spec(v) * DAMPING_SCALE) by (nonlinear_arith)
        requires
            0 <= damping <= DAMPING_SCALE,
    ;
    assert(abs_spec(r) <= abs_spec(v)) by (nonlinear_arith)
        requires
            abs_spec(r) * DAMPING_SCALE <= abs_spec(v) * DAMPING_SCALE,
    ;
}

} // verus!
