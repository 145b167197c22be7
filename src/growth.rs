use vstd::prelude::*;

use vstd::arithmetic::div_mod::{lemma_div_is_ordered, lemma_div_is_ordered_by_denominator};

use crate::model::{Agar, Vec2, AGAR_INIT_SIZE};

verus! {

/// Growth past this many thousandths above the initial size no longer slows
/// an agar down.
pub const SLOWDOWN_CAP: u64 = 100000000;

/// The bound of the fifth-root search: `2^24`, whose fifth power exceeds every
/// radicand the speed formula builds.
pub const ROOT_SEARCH_BOUND: u128 = 16777216;

pub open spec fn pow5(r: nat) -> nat {
    r * r * r * r * r
}

/// The largest `r <= k` whose fifth power is at most `n`.
pub open spec fn root5_below(n: nat, k: nat) -> nat
    decreases k,
{
    if pow5(k) <= n || k == 0 {
        k
    } else {
        root5_below(n, (k - 1) as nat)
    }
}

/// The integer fifth root of `n`: the largest `r` with `r^5 <= n`.
pub open spec fn fifth_root(n: nat) -> nat {
    root5_below(n, n)
}

/// How far above its initial size an agar is, in thousandths of a unit, up to
/// the point where growing stops slowing it down.
pub open spec fn growth_of(size: u64) -> nat {
    if size <= AGAR_INIT_SIZE {
        0
    } else if size - AGAR_INIT_SIZE >= SLOWDOWN_CAP {
        SLOWDOWN_CAP as nat
    } else {
        (size - AGAR_INIT_SIZE) as nat
    }
}

/// The speed limit of an agar of the given size, in thousandths of a unit per
/// second. From the initial size on it is `500 / (g^0.8 + 1) + 50` units per
/// second for a growth of `g` units, where `1000 * g^0.8` is taken as the
/// integer fifth root of `1000 * (1000 g)^4`. Below the initial size it rises
/// by a third of a unit per second for each thousandth of a unit, to 1050
/// units per second at size zero, so that the limit falls with every growth.
pub open spec fn speed_cap(size: u64) -> nat {
    if size < AGAR_INIT_SIZE {
        550000 + (AGAR_INIT_SIZE - size) as nat * 100 / 3
    } else {
        let g = growth_of(size);
        500000000nat / (fifth_root(1000 * (g * g * g * g)) + 1000) + 50000
    }
}

/// Fifth powers grow with their base.
pub proof fn lemma_pow5_monotonic(a: nat, b: nat)
    requires
        a <= b,
    ensures
        pow5(a) <= pow5(b),
{
    let a2 = a * a;
    let b2 = b * b;
    assert(a2 <= b2) by (nonlinear_arith)
        requires
            a <= b,
            a2 == a * a,
            b2 == b * b,
    ;
    let a3 = a2 * a;
    let b3 = b2 * b;
    assert(a3 <= b3) by (nonlinear_arith)
        requires
            a <= b,
            a2 <= b2,
            a3 == a2 * a,
            b3 == b2 * b,
    ;
    let a4 = a3 * a;
    let b4 = b3 * b;
    assert(a4 <= b4) by (nonlinear_arith)
        requires
            a <= b,
            a3 <= b3,
            a4 == a3 * a,
            b4 == b3 * b,
    ;
    assert(a4 * a <= b4 * b) by (nonlinear_arith)
        requires
            a <= b,
            a4 <= b4,
    ;
}

/// A root pinned between two fifth powers is the fifth root.
pub proof fn lemma_fifth_root_unique(n: nat, r: nat)
    requires
        pow5(r) <= n,
        n < pow5(r + 1),
    ensures
        fifth_root(n) == r,
{
    assert(r <= n) by {
        if r > 0 {
            assert(r <= pow5(r)) by (nonlinear_arith)
                requires
                    r > 0,
            ;
        }
    }
    lemma_root5_below(n, r, n);
}

proof fn lemma_root5_below(n: nat, r: nat, k: nat)
    requires
        pow5(r) <= n,
        n < pow5(r + 1),
        r <= k,
    ensures
        root5_below(n, k) == r,
    decreases k,
{
    if k > r {
        lemma_pow5_monotonic(r + 1, k);
        lemma_root5_below(n, r, (k - 1) as nat);
    }
}

/// The fifth root is pinned between two fifth powers.
pub proof fn lemma_fifth_root_bounds(n: nat)
    ensures
        pow5(fifth_root(n)) <= n,
        n < pow5(fifth_root(n) + 1),
{
    assert(n < pow5(n + 1)) by (nonlinear_arith);
    lemma_root5_below_bounds(n, n);
}

proof fn lemma_root5_below_bounds(n: nat, k: nat)
    requires
        n < pow5(k + 1),
    ensures
        pow5(root5_below(n, k)) <= n,
        n < pow5(root5_below(n, k) + 1),
    decreases k,
{
    assert(pow5(0) == 0);
    if !(pow5(k) <= n || k == 0) {
        lemma_root5_below_bounds(n, (k - 1) as nat);
    }
}

/// The fifth root grows with its radicand.
pub proof fn lemma_fifth_root_monotonic(a: nat, b: nat)
    requires
        a <= b,
    ensures
        fifth_root(a) <= fifth_root(b),
{
    lemma_fifth_root_bounds(a);
    lemma_fifth_root_bounds(b);
    if fifth_root(a) > fifth_root(b) {
        lemma_pow5_monotonic(fifth_root(b) + 1, fifth_root(a));
    }
}

/// The integer fifth root of `n`, by bisection.
pub fn fifth_root_of(n: u128) -> (r: u128)
    requires
        n < pow5(ROOT_SEARCH_BOUND as nat),
    ensures
        r == fifth_root(n as nat),
{
    let mut lo: u128 = 0;
    let mut hi: u128 = ROOT_SEARCH_BOUND;
    assert(pow5(0) == 0);
    while hi - lo > 1
        invariant
            lo < hi <= ROOT_SEARCH_BOUND,
            pow5(lo as nat) <= n,
            n < pow5(hi as nat),
        decreases hi - lo,
    {
        let mid = lo + (hi - lo) / 2;
        assert(0 < mid < 0x1000000);
        assert(mid * mid < 0x1000000000000) by (nonlinear_arith)
            requires
                mid < 0x1000000,
        ;
        let m2 = mid * mid;
        assert(m2 * mid < 0x1000000000000000000) by (nonlinear_arith)
            requires
                m2 < 0x1000000000000,
                mid < 0x1000000,
        ;
        let m3 = m2 * mid;
        assert(m3 * mid < 0x1000000000000000000000000) by (nonlinear_arith)
            requires
                m3 < 0x1000000000000000000,
                mid < 0x1000000,
        ;
        let m4 = m3 * mid;
        assert(m4 * mid < 0x1000000000000000000000000000000) by (nonlinear_arith)
            requires
                m4 < 0x1000000000000000000000000,
                mid < 0x1000000,
        ;
        let m5 = m4 * mid;
        if m5 <= n {
            lo = mid;
        } else {
            hi = mid;
        }
    }
    proof {
        lemma_fifth_root_unique(n as nat, lo as nat);
    }
    lo
}

/// The speed limit of an agar of the given size; see `speed_cap`.
pub fn max_velocity(size: u64) -> (r: u64)
    ensures
        r == speed_cap(size),
        50000 <= r <= 1050000,
{
    if size < AGAR_INIT_SIZE {
        return 550000 + (AGAR_INIT_SIZE - size) * 100 / 3;
    }
    let g: u64 = if size <= AGAR_INIT_SIZE {
        0
    } else if size - AGAR_INIT_SIZE >= SLOWDOWN_CAP {
        SLOWDOWN_CAP
    } else {
        size - AGAR_INIT_SIZE
    };
    let g = g as u128;
    assert(g * g <= 10000000000000000) by (nonlinear_arith)
        requires
            g <= 100000000,
    ;
    let g2 = g * g;
    assert(g2 * g <= 1000000000000000000000000) by (nonlinear_arith)
        requires
            g2 <= 10000000000000000,
            g <= 100000000,
    ;
    let g3 = g2 * g;
    assert(g3 * g <= 100000000000000000000000000000000) by (nonlinear_arith)
        requires
            g3 <= 1000000000000000000000000,
            g <= 100000000,
    ;
    let g4 = g3 * g;
    let n: u128 = 1000 * g4;
    proof {
        lemma_pow5_monotonic(10000000, ROOT_SEARCH_BOUND as nat);
        assert(pow5(10000000) == 100000000000000000000000000000000000);
    }
    let root = fifth_root_of(n);
    proof {
        lemma_fifth_root_bounds(n as nat);
        lemma_fifth_root_monotonic(n as nat, pow5(10000000));
        lemma_fifth_root_unique(pow5(10000000), 10000000);
        lemma_div_is_ordered_by_denominator(500000000, 1000, root as int + 1000);
    }
    let q = 500000000u128 / (root + 1000);
    proof {
        lemma_speed_cap_range(size);
    }
    (q + 50000) as u64
}

/// The agar after growing by `amount`: its size saturates at the largest
/// `u64`, and its speed limit follows its size.
pub open spec fn grown(a: Agar, amount: u64) -> Agar {
    let size = if a.size as int + amount as int > u64::MAX as int {
        u64::MAX
    } else {
        (a.size + amount) as u64
    };
    Agar { size, velocity: a.velocity, max_velocity: speed_cap(size) as u64 }
}

/// The agar after growing `n` times by `amount`.
pub open spec fn grown_times(a: Agar, amount: u64, n: nat) -> Agar
    decreases n,
{
    if n == 0 {
        a
    } else {
        grown(grown_times(a, amount, (n - 1) as nat), amount)
    }
}

/// The agar after growing by each amount of `amounts` in turn.
pub open spec fn grown_by_all(a: Agar, amounts: Seq<u64>) -> Agar
    decreases amounts.len(),
{
    if amounts.len() == 0 {
        a
    } else {
        grown(grown_by_all(a, amounts.drop_last()), amounts.last())
    }
}

/// An agar whose speed limit is the one its size gives.
pub open spec fn speed_matches_size(a: Agar) -> bool {
    a.max_velocity == speed_cap(a.size)
}

impl Agar {
    pub fn new() -> (r: Self)
        ensures
            r.size == AGAR_INIT_SIZE,
            r.velocity == (Vec2 { x: 0, y: 0 }),
            r.max_velocity == 550000,
            speed_matches_size(r),
    {
        let max_velocity = max_velocity(AGAR_INIT_SIZE);
        proof {
            assert(growth_of(AGAR_INIT_SIZE) == 0);
            lemma_fifth_root_unique(0, 0);
        }
        Agar { size: AGAR_INIT_SIZE, velocity: Vec2 { x: 0, y: 0 }, max_velocity }
    }

    /// Grows by `amount` and recomputes the speed limit.
    pub fn grow(&mut self, amount: u64)
        ensures
            *final(self) == grown(*old(self), amount),
            final(self).size >= old(self).size,
            old(self).size + amount <= u64::MAX ==> final(self).size == old(self).size + amount,
            final(self).velocity == old(self).velocity,
            final(self).max_velocity == speed_cap(final(self).size),
    {
        let size = if self.size > u64::MAX - amount {
            u64::MAX
        } else {
            self.size + amount
        };
        self.size = size;
        self.max_velocity = max_velocity(size);
    }
}

/// The speed limit never rises as an agar grows.
pub proof fn lemma_speed_cap_monotonic(s1: u64, s2: u64)
    requires
        s1 <= s2,
    ensures
        speed_cap(s1) >= speed_cap(s2),
{
    if s1 < AGAR_INIT_SIZE {
        if s2 < AGAR_INIT_SIZE {
            lemma_div_is_ordered(
                ((AGAR_INIT_SIZE - s2) * 100) as int,
                ((AGAR_INIT_SIZE - s1) * 100) as int,
                3,
            );
        } else {
            lemma_speed_cap_range(s2);
        }
        return;
    }
    let g1 = growth_of(s1);
    let g2 = growth_of(s2);
    assert(g1 * g1 * g1 * g1 <= g2 * g2 * g2 * g2) by {
        lemma_pow5_monotonic(g1, g2);
        assert(g1 * g1 * g1 * g1 <= g2 * g2 * g2 * g2) by (nonlinear_arith)
            requires
                g1 <= g2,
        ;
    }
    lemma_fifth_root_monotonic(1000 * (g1 * g1 * g1 * g1), 1000 * (g2 * g2 * g2 * g2));
    lemma_div_is_ordered_by_denominator(
        500000000,
        fifth_root(1000 * (g1 * g1 * g1 * g1)) + 1000int,
        fifth_root(1000 * (g2 * g2 * g2 * g2)) + 1000int,
    );
}

/// Over any sequence of growth steps an agar's size never shrinks, its speed
/// limit never rises, and the limit stays the one its size gives.
pub proof fn lemma_growth_monotonic(a: Agar, amounts: Seq<u64>, i: int, j: int)
    requires
        speed_matches_size(a),
        0 <= i <= j <= amounts.len(),
    ensures
        grown_by_all(a, amounts.take(i)).size <= grown_by_all(a, amounts.take(j)).size,
        grown_by_all(a, amounts.take(i)).max_velocity >= grown_by_all(
            a,
            amounts.take(j),
        ).max_velocity,
        speed_matches_size(grown_by_all(a, amounts.take(j))),
    decreases j,
{
    if j > 0 {
        assert(amounts.take(j).drop_last() =~= amounts.take(j - 1));
        if i < j {
            lemma_growth_monotonic(a, amounts, i, j - 1);
        } else {
            lemma_growth_monotonic(a, amounts, j - 1, j - 1);
        }
        let prev = grown_by_all(a, amounts.take(j - 1));
        let next = grown_by_all(a, amounts.take(j));
        lemma_speed_cap_monotonic(prev.size, next.size);
        lemma_speed_cap_range(next.size);
        lemma_speed_cap_range(prev.size);
    } else {
        assert(amounts.take(0) =~= Seq::<u64>::empty());
    }
}

/// The speed limit lies between 50 and 550 units per second.
pub proof fn lemma_speed_cap_range(size: u64)
    ensures
        50000 <= speed_cap(size) <= 1050000,
        size >= AGAR_INIT_SIZE ==> speed_cap(size) <= 550000,
{
    let g = growth_of(size);
    lemma_div_is_ordered_by_denominator(
        500000000,
        1000,
        fifth_root(1000 * (g * g * g * g)) + 1000int,
    );
}

} // verus!
