//! A two-dimensional fixed-point vector.
use vstd::prelude::*;
use crate::fixed::{
    abs_spec, clamp_coord, clamp_spec, div_toward_zero, in_limit, is_floor_sqrt, isqrt_ceil, isqrt_floor, ceil_sqrt, trunc_div, COORD_LIMIT,
};

verus! {

/// Fixed-point units in one world unit: a coordinate of `UNIT` is 1.0.
pub const UNIT: i64 = 10_000;

/// A point or displacement in fixed-point units of `1 / UNIT`.
#[derive(Debug, Clone, Copy, PartialEq, Eq, Structural)]
pub struct Vec2 {
    pub x: i64,
    pub y: i64,
}

/// Squared Euclidean length of `(dx, dy)`.
pub open spec fn sq_len(dx: int, dy: int) -> int {
    dx * dx + dy * dy
}

/// Squared distance between two points.
pub open spec fn dist_sq(a: Vec2, b: Vec2) -> int {
    sq_len(a.x - b.x, a.y - b.y)
}

pub proof fn lemma_sq_len_bound(dx: int, dy: int, m: int)
    requires
        -m <= dx <= m,
        -m <= dy <= m,
    ensures
        0 <= dx * dx <= m * m,
        0 <= dy * dy <= m * m,
        0 <= sq_len(dx, dy) <= 2 * m * m,
{
    assert(0 <= dx * dx <= m * m) by (nonlinear_arith)
        requires
            -m <= dx <= m,
    ;
    assert(0 <= dy * dy <= m * m) by (nonlinear_arith)
        requires
            -m <= dy <= m,
    ;
    assert(m * m + m * m == 2 * m * m) by (nonlinear_arith);
}

proof fn lemma_sq_mono(a: int, b: int)
    requires
        0 <= a <= b,
    ensures
        a * a <= b * b,
{
    assert(a * a <= b * b) by (nonlinear_arith)
        requires
            0 <= a <= b,
    ;
}

proof fn lemma_sq_mul(a: int, b: int)
    ensures
        (a * b) * (a * b) == (a * a) * (b * b),
{
    assert((a * b) * (a * b) == (a * a) * (b * b)) by (nonlinear_arith);
}

/// Bounds on `(x, y) * u * u / l`, rounded toward zero per component, where
/// `l` is the length of `(x, y) * u` rounded up.
proof fn lemma_unit_bounds(x: int, y: int, nx: int, ny: int, l: int, u: int)
    requires
        u >= 1,
        l >= u,
        (x * x + y * y) * (u * u) <= l * l,
        (l - 1) * (l - 1) < (x * x + y * y) * (u * u),
        nx == trunc_div(x * u * u, l),
        ny == trunc_div(y * u * u, l),
    ensures
        nx * nx + ny * ny <= u * u,
        (abs_spec(nx) + 1) * (abs_spec(nx) + 1) + (abs_spec(ny) + 1) * (abs_spec(ny) + 1) > (u - 1)
            * (u - 1),
{
    let u2 = u * u;
    assert(u2 >= 1) by (nonlinear_arith)
        requires
            u >= 1,
            u2 == u * u,
    ;
    let ax = abs_spec(x);
    let ay = abs_spec(y);
    let qx = abs_spec(nx);
    let qy = abs_spec(ny);
    let ex = ax * u2;
    let ey = ay * u2;
    assert(x * u * u == x * u2 && y * u * u == y * u2) by (nonlinear_arith)
        requires
            u2 == u * u,
    ;
    assert(ex >= 0 && ey >= 0 && abs_spec(x * u2) == ex && abs_spec(y * u2) == ey) by (nonlinear_arith)
        requires
            ax == abs_spec(x),
            ay == abs_spec(y),
            ex == ax * u2,
            ey == ay * u2,
            u2 >= 1,
    ;
    vstd::arithmetic::div_mod::lemma_fundamental_div_mod(ex, l);
    vstd::arithmetic::div_mod::lemma_mod_pos_bound(ex, l);
    vstd::arithmetic::div_mod::lemma_fundamental_div_mod(ey, l);
    vstd::arithmetic::div_mod::lemma_mod_pos_bound(ey, l);
    vstd::arithmetic::div_mod::lemma_div_pos_is_pos(ex, l);
    vstd::arithmetic::div_mod::lemma_div_pos_is_pos(ey, l);
    assert(qx == ex / l && qy == ey / l);
    assert(qx * l <= ex < (qx + 1) * l) by (nonlinear_arith)
        requires
            ex == l * (ex / l) + ex % l,
            0 <= ex % l < l,
            qx == ex / l,
    ;
    assert(qy * l <= ey < (qy + 1) * l) by (nonlinear_arith)
        requires
            ey == l * (ey / l) + ey % l,
            0 <= ey % l < l,
            qy == ey / l,
    ;
    let sq = x * x + y * y;
    let l2 = l * l;
    let u4 = u2 * u2;
    let aa = ax * ax;
    let bb = ay * ay;
    assert(aa + bb == sq) by (nonlinear_arith)
        requires
            ax == abs_spec(x),
            ay == abs_spec(y),
            aa == ax * ax,
            bb == ay * ay,
            sq == x * x + y * y,
    ;
    assert(qx >= 0 && qy >= 0 && l >= 1);
    assert(qx * l >= 0 && qy * l >= 0) by (nonlinear_arith)
        requires
            qx >= 0,
            qy >= 0,
            l >= 1,
    ;
    lemma_sq_mono(qx * l, ex);
    lemma_sq_mono(qy * l, ey);
    lemma_sq_mono(ex, (qx + 1) * l);
    lemma_sq_mono(ey, (qy + 1) * l);
    lemma_sq_mul(qx, l);
    lemma_sq_mul(qy, l);
    lemma_sq_mul(qx + 1, l);
    lemma_sq_mul(qy + 1, l);
    lemma_sq_mul(ax, u2);
    lemma_sq_mul(ay, u2);
    let xx = qx * qx;
    let yy = qy * qy;
    let xx1 = (qx + 1) * (qx + 1);
    let yy1 = (qy + 1) * (qy + 1);
    assert(xx * l2 <= aa * u4 && yy * l2 <= bb * u4);
    assert(xx1 * l2 >= aa * u4 && yy1 * l2 >= bb * u4);
    assert((xx + yy) * l2 == xx * l2 + yy * l2 && (aa + bb) * u4 == aa * u4 + bb * u4 && (xx1
        + yy1) * l2 == xx1 * l2 + yy1 * l2) by (nonlinear_arith);
    assert(sq * u4 == (sq * u2) * u2) by (nonlinear_arith)
        requires
            u4 == u2 * u2,
    ;
    assert((sq * u2) * u2 <= l2 * u2) by (nonlinear_arith)
        requires
            sq * u2 <= l2,
            u2 >= 1,
    ;
    assert(xx + yy <= u2) by (nonlinear_arith)
        requires
            (xx + yy) * l2 <= l2 * u2,
            l2 >= 1,
    ;
    assert(nx * nx == xx && ny * ny == yy) by (nonlinear_arith)
        requires
            qx == abs_spec(nx),
            qy == abs_spec(ny),
            xx == qx * qx,
            yy == qy * qy,
    ;
    let m = (l - 1) * (l - 1);
    assert((sq * u2) * u2 > m * u2) by (nonlinear_arith)
        requires
            m < sq * u2,
            u2 >= 1,
    ;
    let s = xx1 + yy1;
    assert(s * l2 > m * u2);
    assert(0 <= (u - 1) * l <= (l - 1) * u) by (nonlinear_arith)
        requires
            u >= 1,
            l >= u,
    ;
    lemma_sq_mono((u - 1) * l, (l - 1) * u);
    lemma_sq_mul(u - 1, l);
    lemma_sq_mul(l - 1, u);
    if s <= (u - 1) * (u - 1) {
        assert(s * l2 <= ((u - 1) * (u - 1)) * l2) by (nonlinear_arith)
            requires
                s <= (u - 1) * (u - 1),
                l2 >= 1,
        ;
    }
}

impl Vec2 {
    /// Both components within the saturation bound.
    pub open spec fn wf(self) -> bool {
        in_limit(self.x as int) && in_limit(self.y as int)
    }

    pub open spec fn new_spec(x: i64, y: i64) -> Vec2 {
        Vec2 { x, y }
    }

    /// The saturating sum, as `add` computes it.
    pub open spec fn add_spec(self, o: Vec2) -> Vec2 {
        Vec2 { x: clamp_spec(self.x + o.x) as i64, y: clamp_spec(self.y + o.y) as i64 }
    }

    pub fn new(x: i64, y: i64) -> (r: Vec2)
        ensures
            r.x == x,
            r.y == y,
    {
        Vec2 { x, y }
    }

    pub fn fill(n: i64) -> (r: Vec2)
        ensures
            r.x == n,
            r.y == n,
    {
        Vec2 { x: n, y: n }
    }

    /// Component-wise sum, saturating at the coordinate bound.
    pub fn add(self, o: Vec2) -> (r: Vec2)
        ensures
            r.x == clamp_spec(self.x + o.x),
            r.y == clamp_spec(self.y + o.y),
            r == self.add_spec(o),
            r.wf(),
    {
        Vec2 {
            x: clamp_coord(self.x as i128 + o.x as i128),
            y: clamp_coord(self.y as i128 + o.y as i128),
        }
    }

    /// Component-wise difference, saturating at the coordinate bound.
    pub fn sub(self, o: Vec2) -> (r: Vec2)
        ensures
            r.x == clamp_spec(self.x - o.x),
            r.y == clamp_spec(self.y - o.y),
            r.wf(),
    {
        Vec2 {
            x: clamp_coord(self.x as i128 - o.x as i128),
            y: clamp_coord(self.y as i128 - o.y as i128),
        }
    }

    pub fn neg(self) -> (r: Vec2)
        requires
            self.wf(),
        ensures
            r.x == -self.x,
            r.y == -self.y,
            r.wf(),
    {
        Vec2 { x: -self.x, y: -self.y }
    }

    /// True iff both components are at most those of `o`.
    pub fn both_less_eq(&self, o: &Vec2) -> (r: bool)
        ensures
            r == (self.x <= o.x && self.y <= o.y),
    {
        self.x <= o.x && self.y <= o.y
    }

    /// True iff both components are at least those of `o`.
    pub fn both_greater_eq(&self, o: &Vec2) -> (r: bool)
        ensures
            r == (self.x >= o.x && self.y >= o.y),
    {
        self.x >= o.x && self.y >= o.y
    }

    /// The squared distance to `o`, exactly.
    pub fn distance_squared(&self, o: &Vec2) -> (r: u128)
        requires
            self.wf(),
            o.wf(),
        ensures
            r == dist_sq(*self, *o),
            r <= 8 * COORD_LIMIT * COORD_LIMIT,
    {
        let dx: i128 = self.x as i128 - o.x as i128;
        let dy: i128 = self.y as i128 - o.y as i128;
        proof {
            lemma_sq_len_bound(dx as int, dy as int, 2 * COORD_LIMIT);
            assert(2 * (2 * COORD_LIMIT) * (2 * COORD_LIMIT) < 0x1_0000_0000_0000_0000_0000_0000);
        }
        (dx * dx + dy * dy) as u128
    }

    /// The distance to `o`, rounded down to a whole fixed-point unit.
    pub fn distance(&self, o: &Vec2) -> (r: u64)
        requires
            self.wf(),
            o.wf(),
        ensures
            is_floor_sqrt(r as int, dist_sq(*self, *o)),
    {
        let d2 = self.distance_squared(o);
        assert(8 * COORD_LIMIT * COORD_LIMIT < 0x1_0000_0000_0000_0000_0000_0000);
        isqrt_floor(d2)
    }

    /// The length, rounded down to a whole fixed-point unit.
    pub fn length(&self) -> (r: u64)
        requires
            self.wf(),
        ensures
            is_floor_sqrt(r as int, sq_len(self.x as int, self.y as int)),
    {
        let zero = Vec2 { x: 0, y: 0 };
        self.distance(&zero)
    }

    /// The vector scaled to length `UNIT` (a unit vector in fixed point):
    /// each component times `UNIT * UNIT`, divided by the length measured in
    /// `1 / UNIT` of a fixed-point unit and rounded up, then rounded toward
    /// zero. The result has length at most `UNIT`, and is within one unit
    /// per component of length `UNIT - 1`. `None` for the zero vector, which
    /// has no direction.
    pub fn normalize(self) -> (r: Option<Vec2>)
        requires
            self.wf(),
        ensures
            (self.x == 0 && self.y == 0) <==> r.is_none(),
            r matches Some(n) ==> {
                let len = ceil_sqrt(sq_len(self.x as int, self.y as int) * UNIT * UNIT);
                &&& n.x == trunc_div(self.x * UNIT * UNIT, len)
                &&& n.y == trunc_div(self.y * UNIT * UNIT, len)
                &&& sq_len(n.x as int, n.y as int) <= UNIT * UNIT
                &&& sq_len(abs_spec(n.x as int) + 1, abs_spec(n.y as int) + 1) > (UNIT - 1) * (UNIT
                    - 1)
            },
    {
        let sq = self.distance_squared(&Vec2 { x: 0, y: 0 });
        if sq == 0 {
            let ghost x = self.x as int;
            let ghost y = self.y as int;
            assert(x == 0 && y == 0) by (nonlinear_arith)
                requires
                    x * x + y * y == 0,
            ;
            return None;
        }
        assert(sq * (UNIT * UNIT) <= 8 * COORD_LIMIT * COORD_LIMIT * (UNIT * UNIT)) by (nonlinear_arith)
            requires
                sq <= 8 * COORD_LIMIT * COORD_LIMIT,
        ;
        let len = isqrt_ceil(sq * (UNIT as u128 * UNIT as u128));
        let ghost x = self.x as int;
        let ghost y = self.y as int;
        let ghost u = UNIT as int;
        let ghost l = len as int;
        proof {
            assert(sq == x * x + y * y);
            assert(x != 0 || y != 0) by (nonlinear_arith)
                requires
                    sq == x * x + y * y,
                    sq != 0,
            ;
            assert(l >= u) by (nonlinear_arith)
                requires
                    sq * (u * u) <= l * l,
                    sq >= 1,
                    u > 0,
                    l >= 0,
            ;
            assert(abs_spec(x * u * u) <= COORD_LIMIT * u * u && abs_spec(y * u * u) <= COORD_LIMIT * u * u)
                by (nonlinear_arith)
                requires
                    -COORD_LIMIT <= x <= COORD_LIMIT,
                    -COORD_LIMIT <= y <= COORD_LIMIT,
                    u > 0,
            ;
        }
        let nx = div_toward_zero(self.x as i128 * (UNIT as i128 * UNIT as i128), len as i128);
        let ny = div_toward_zero(self.y as i128 * (UNIT as i128 * UNIT as i128), len as i128);
        proof {
            assert(x * (u * u) == x * u * u && y * (u * u) == y * u * u) by (nonlinear_arith);
            assert(sq * (u * u) == sq_len(x, y) * u * u) by (nonlinear_arith)
                requires
                    sq == x * x + y * y,
            ;
            lemma_unit_bounds(x, y, nx as int, ny as int, l, u);
            assert(abs_spec(nx as int) <= u && abs_spec(ny as int) <= u) by (nonlinear_arith)
                requires
                    (nx as int) * (nx as int) + (ny as int) * (ny as int) <= u * u,
                    u >= 1,
            ;
        }
        Some(Vec2 { x: nx as i64, y: ny as i64 })
    }
}

} // verus!
