use vstd::prelude::*;

use vstd::arithmetic::div_mod::{
    lemma_div_by_multiple, lemma_div_is_ordered, lemma_fundamental_div_mod,
    lemma_fundamental_div_mod_converse,
};

use crate::model::{Point, Vec2, WINDOW_HEIGHT, WINDOW_WIDTH, WORLD_HEIGHT, WORLD_WIDTH};

verus! {

/// Milliseconds in a second: velocities are per second, ticks in milliseconds.
pub const MS_PER_SECOND: i128 = 1000;

/// `a / d` rounded toward zero, as machine division does.
pub open spec fn trunc_div(a: int, d: int) -> int {
    if a >= 0 {
        a / d
    } else {
        -((-a) / d)
    }
}

pub open spec fn clamp(v: int, lo: int, hi: int) -> int {
    if v < lo {
        lo
    } else if v > hi {
        hi
    } else {
        v
    }
}

/// The largest `r <= k` whose square is at most `n`.
pub open spec fn sqrt_below(n: nat, k: nat) -> nat
    decreases k,
{
    if k * k <= n || k == 0 {
        k
    } else {
        sqrt_below(n, (k - 1) as nat)
    }
}

/// The integer square root of `n`, rounded down.
pub open spec fn floor_sqrt(n: nat) -> nat {
    sqrt_below(n, n)
}

/// The integer square root of `n`, rounded up.
pub open spec fn ceil_sqrt(n: nat) -> nat {
    if floor_sqrt(n) * floor_sqrt(n) == n {
        floor_sqrt(n)
    } else {
        floor_sqrt(n) + 1
    }
}

proof fn lemma_square_monotonic(a: nat, b: nat)
    requires
        a <= b,
    ensures
        a * a <= b * b,
{
    assert(a * a <= b * b) by (nonlinear_arith)
        requires
            a <= b,
    ;
}

proof fn lemma_sqrt_below(n: nat, r: nat, k: nat)
    requires
        r * r <= n,
        n < (r + 1) * (r + 1),
        r <= k,
    ensures
        sqrt_below(n, k) == r,
    decreases k,
{
    if k > r {
        lemma_square_monotonic(r + 1, k);
        lemma_sqrt_below(n, r, (k - 1) as nat);
    }
}

/// A root pinned between two squares is the square root.
pub proof fn lemma_floor_sqrt_unique(n: nat, r: nat)
    requires
        r * r <= n,
        n < (r + 1) * (r + 1),
    ensures
        floor_sqrt(n) == r,
{
    assert(r <= n) by (nonlinear_arith)
        requires
            r * r <= n,
    ;
    lemma_sqrt_below(n, r, n);
}

/// The integer square root of `n`, rounded down, by bisection.
pub fn floor_sqrt_of(n: u128) -> (r: u128)
    requires
        n < 0x40000000000000000,
    ensures
        r == floor_sqrt(n as nat),
        r < 0x200000000,
        r * r <= n < (r + 1) * (r + 1),
{
    let mut lo: u128 = 0;
    let mut hi: u128 = 0x200000000;
    while hi - lo > 1
        invariant
            lo < hi <= 0x200000000,
            lo * lo <= n,
            n < hi * hi,
        decreases hi - lo,
    {
        let mid = lo + (hi - lo) / 2;
        assert(mid * mid < 0x40000000000000000) by (nonlinear_arith)
            requires
                mid < 0x200000000,
        ;
        if mid * mid <= n {
            lo = mid;
        } else {
            hi = mid;
        }
    }
    proof {
        lemma_floor_sqrt_unique(n as nat, lo as nat);
    }
    lo
}

/// The velocity an input vector asks for: the pointer's offset from the
/// window centre, halved, and scaled down to length `max` when longer.
pub open spec fn steer(pos: Vec2, max: u64) -> Point {
    let dx = pos.x - WINDOW_WIDTH / 2;
    let dy = pos.y - WINDOW_HEIGHT / 2;
    let n = dx * dx + dy * dy;
    if n <= 4 * max * max {
        Point { x: trunc_div(dx, 2) as i64, y: trunc_div(dy, 2) as i64 }
    } else {
        let l = ceil_sqrt(n as nat) as int;
        Point { x: trunc_div(dx * max, l) as i64, y: trunc_div(dy * max, l) as i64 }
    }
}

/// `|a| * max / l` with the sign of `a`, for `|a| <= l`.
fn scale_component(a: i64, max: u128, l: u128) -> (r: i64)
    requires
        0 < l,
        max < 0x200000000,
        -0x100000000 < a < 0x100000000,
        (if a >= 0 {
            a as int
        } else {
            -a
        }) <= l,
    ensures
        r == trunc_div(a * max, l as int),
        -(max as int) <= r <= max,
{
    let mag: u128 = if a >= 0 {
        a as u128
    } else {
        (-a) as u128
    };
    assert(mag * max <= l * max) by (nonlinear_arith)
        requires
            mag <= l,
    ;
    assert(mag * max < 0x200000000000000000000) by (nonlinear_arith)
        requires
            mag < 0x100000000,
            max < 0x200000000,
    ;
    let q = mag * max / l;
    proof {
        lemma_div_is_ordered((mag * max) as int, (l * max) as int, l as int);
        lemma_div_by_multiple(max as int, l as int);
        assert(l * max == max * l) by (nonlinear_arith);
        if a < 0 {
            assert(-(a * max) == (-a) * max) by (nonlinear_arith);
        }
    }
    if a >= 0 {
        q as i64
    } else {
        -(q as i64)
    }
}

/// The velocity that an agar's raw input vector gives under its speed limit.
pub fn input_to_velocity(pos: &Vec2, max: u64) -> (r: Point)
    ensures
        r == steer(*pos, max),
        -(max as int) <= r.x <= max,
        -(max as int) <= r.y <= max,
{
    let dx: i64 = pos.x as i64 - WINDOW_WIDTH / 2;
    let dy: i64 = pos.y as i64 - WINDOW_HEIGHT / 2;
    let ax: u128 = if dx >= 0 {
        dx as u128
    } else {
        (-dx) as u128
    };
    let ay: u128 = if dy >= 0 {
        dy as u128
    } else {
        (-dy) as u128
    };
    assert(ax * ax < 0x10000000000000000 && ay * ay < 0x10000000000000000) by (nonlinear_arith)
        requires
            ax < 0x100000000,
            ay < 0x100000000,
    ;
    let n: u128 = ax * ax + ay * ay;
    proof {
        assert(dx * dx == ax * ax) by (nonlinear_arith)
            requires
                ax == dx || ax == -dx,
        ;
        assert(dy * dy == ay * ay) by (nonlinear_arith)
            requires
                ay == dy || ay == -dy,
        ;
    }
    let fits: bool = if max >= 0x100000000 {
        proof {
            assert(4 * max * max >= 0x40000000000000000) by (nonlinear_arith)
                requires
                    max >= 0x100000000,
            ;
        }
        true
    } else {
        let m = max as u128;
        assert(4 * m * m < 0x40000000000000000) by (nonlinear_arith)
            requires
                m < 0x100000000,
        ;
        n <= 4 * m * m
    };
    if fits {
        let hx: i64 = if dx >= 0 {
            dx / 2
        } else {
            -((-dx) / 2)
        };
        let hy: i64 = if dy >= 0 {
            dy / 2
        } else {
            -((-dy) / 2)
        };
        proof {
            assert(ax * ax <= n && ay * ay <= n);
            assert(((2 * max + 1) * (2 * max + 1)) as int > 4 * max * max) by (nonlinear_arith);
            if ax > 2 * max {
                lemma_square_monotonic((2 * max + 1) as nat, ax as nat);
            }
            if ay > 2 * max {
                lemma_square_monotonic((2 * max + 1) as nat, ay as nat);
            }
        }
        Point { x: hx, y: hy }
    } else {
        let f = floor_sqrt_of(n);
        assert(f * f < 0x40000000000000000) by (nonlinear_arith)
            requires
                f < 0x200000000,
        ;
        let l: u128 = if f * f == n {
            f
        } else {
            f + 1
        };
        proof {
            lemma_floor_sqrt_unique(n as nat, f as nat);
            if ax > f {
                lemma_square_monotonic((f + 1) as nat, ax as nat);
            }
            if ay > f {
                lemma_square_monotonic((f + 1) as nat, ay as nat);
            }
            if f == 0 {
                assert(n >= 1);
            }
        }
        Point {
            x: scale_component(dx, max as u128, l),
            y: scale_component(dy, max as u128, l),
        }
    }
}

/// Displacement over `dt_ms` milliseconds at speed `v` per second, rounded
/// toward zero.
pub open spec fn displacement(v: i64, dt_ms: u32) -> int {
    trunc_div(v * dt_ms, MS_PER_SECOND as int)
}

fn displace(p: i64, v: i64, dt_ms: u32) -> (r: i128)
    ensures
        r == p + displacement(v, dt_ms),
        -0x2000000000000000000000000 < r < 0x2000000000000000000000000,
{
    let vv: i128 = v as i128;
    let tt: i128 = dt_ms as i128;
    assert(-0x1000000000000000000000000 < vv * tt < 0x1000000000000000000000000) by (nonlinear_arith)
        requires
            -0x8000000000000000 <= vv < 0x8000000000000000,
            0 <= tt < 0x100000000,
    ;
    let prod: i128 = vv * tt;
    let d: i128 = if prod >= 0 {
        prod / MS_PER_SECOND
    } else {
        -((-prod) / MS_PER_SECOND)
    };
    p as i128 + d
}

/// An agar's position after one tick: moved by its velocity, then held
/// inside the world.
pub open spec fn moved_agar(pos: Point, vel: Point, dt_ms: u32) -> Point {
    Point {
        x: clamp(pos.x + displacement(vel.x, dt_ms), 0, WORLD_WIDTH as int) as i64,
        y: clamp(pos.y + displacement(vel.y, dt_ms), 0, WORLD_HEIGHT as int) as i64,
    }
}

/// A ball's position after one tick: moved by its velocity, then wrapped
/// around the board.
pub open spec fn moved_ball(pos: Point, vel: Point, dt_ms: u32, width: i64, height: i64) -> Point {
    Point {
        x: ((pos.x + displacement(vel.x, dt_ms)) % (width as int)) as i64,
        y: ((pos.y + displacement(vel.y, dt_ms)) % (height as int)) as i64,
    }
}

fn clamp_i128(v: i128, hi: i64) -> (r: i64)
    requires
        0 <= hi,
    ensures
        r == clamp(v as int, 0, hi as int),
{
    if v < 0 {
        0
    } else if v > hi as i128 {
        hi
    } else {
        v as i64
    }
}

/// The non-negative remainder of `v` by `m`.
fn wrap_i128(v: i128, m: i64) -> (r: i64)
    requires
        0 < m,
        -0x2000000000000000000000000 < v < 0x2000000000000000000000000,
    ensures
        r == (v as int) % (m as int),
        0 <= r < m,
{
    let w: i128 = m as i128;
    if v >= 0 {
        (v % w) as i64
    } else {
        let back: i128 = (-v) % w;
        proof {
            lemma_fundamental_div_mod(-(v as int), w as int);
            let q: int = (-(v as int)) / (w as int);
            if back == 0 {
                assert(v == (-q) * w + 0) by (nonlinear_arith)
                    requires
                        -v == w * q + back,
                        back == 0,
                ;
                lemma_fundamental_div_mod_converse(v as int, w as int, -q, 0);
            } else {
                assert(v == (-q - 1) * w + (w - back)) by (nonlinear_arith)
                    requires
                        -v == w * q + back,
                ;
                lemma_fundamental_div_mod_converse(v as int, w as int, -q - 1, w - back);
            }
        }
        if back == 0 {
            0
        } else {
            (w - back) as i64
        }
    }
}

/// Moves an agar by its velocity for one tick of `dt_ms` milliseconds and
/// clamps it into the world.
pub fn move_agar(pos: Point, vel: Point, dt_ms: u32) -> (r: Point)
    ensures
        r == moved_agar(pos, vel, dt_ms),
        0 <= r.x <= WORLD_WIDTH,
        0 <= r.y <= WORLD_HEIGHT,
{
    Point {
        x: clamp_i128(displace(pos.x, vel.x, dt_ms), WORLD_WIDTH),
        y: clamp_i128(displace(pos.y, vel.y, dt_ms), WORLD_HEIGHT),
    }
}

/// Moves a ball by its velocity for one tick of `dt_ms` milliseconds and
/// wraps it around a board of the given size.
pub fn move_ball(pos: Point, vel: Point, dt_ms: u32, width: i64, height: i64) -> (r: Point)
    requires
        0 < width,
        0 < height,
    ensures
        r == moved_ball(pos, vel, dt_ms, width, height),
        0 <= r.x < width,
        0 <= r.y < height,
{
    Point {
        x: wrap_i128(displace(pos.x, vel.x, dt_ms), width),
        y: wrap_i128(displace(pos.y, vel.y, dt_ms), height),
    }
}

} // verus!
