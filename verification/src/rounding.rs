//! Binary floating-point results, worked out in whole numbers.
//!
//! A finite non-negative floating-point number is `m * 2^e` for whole numbers `m` and `e`. An
//! operation on such numbers returns the exact result rounded to `p` binary digits, to the nearer
//! neighbour, and to the one with the even `m` where both are equally near. Single precision has
//! 24 digits, double precision 53.

use vstd::arithmetic::mul::*;
use vstd::arithmetic::power2::*;
use vstd::prelude::*;

verus! {

/// The number of binary digits of a single-precision number.
pub const SINGLE: u32 = 24;

/// The number of binary digits of a double-precision number.
pub const DOUBLE: u32 = 53;

/// The number `m * 2^e`.
pub struct Binary {
    pub m: nat,
    pub e: int,
}

/// `n / d` to the nearest whole number, to the even one of two equally near.
pub open spec fn half_even(n: nat, d: nat) -> nat {
    let q = n / d;
    let r = n % d;
    if 2 * r < d || (2 * r == d && q % 2 == 0) {
        q
    } else {
        q + 1
    }
}

/// How often `n` must be doubled to reach `goal`.
pub open spec fn doublings(n: nat, goal: nat) -> nat
    decreases
            if n < goal {
                goal - n
            } else {
                0
            },
{
    if n == 0 || n >= goal {
        0
    } else {
        1 + doublings(2 * n, goal)
    }
}

/// How often `n` is doubled so that `n / d` has `p` digits before the point.
pub open spec fn shift_up(n: nat, d: nat, p: nat) -> nat {
    doublings(n, d * pow2((p - 1) as nat))
}

/// How often `d` is doubled so that `n / d` has no more than `p` digits before the point.
pub open spec fn shift_down(n: nat, d: nat, p: nat) -> nat {
    doublings(d * pow2(p), n + 1)
}

/// `n / d`, for positive `n` and `d`, rounded to `p` binary digits.
pub open spec fn round(n: nat, d: nat, p: nat) -> Binary {
    let up = shift_up(n, d, p);
    let down = shift_down(n, d, p);
    Binary { m: half_even(n * pow2(up), d * pow2(down)), e: down - up }
}

/// The whole part of `m * 2^e`.
pub open spec fn whole_part(m: nat, e: int) -> nat {
    if e >= 0 {
        m * pow2(e as nat)
    } else {
        m / pow2((-e) as nat)
    }
}

proof fn doublings_reach(n: nat, goal: nat)
    requires
        n > 0,
    ensures
        n * pow2(doublings(n, goal)) >= goal,
        doublings(n, goal) > 0 ==> n * pow2((doublings(n, goal) - 1) as nat) < goal,
    decreases
            if n < goal {
                goal - n
            } else {
                0
            },
{
    let k = doublings(n, goal);
    lemma2_to64();
    assert(n * pow2(0) == n) by (nonlinear_arith)
        requires
            pow2(0) == 1,
    ;
    if n < goal {
        doublings_reach(2 * n, goal);
        lemma_pow2_unfold(k);
        let h = pow2((k - 1) as nat);
        assert(n * (2 * h) == (2 * n) * h) by (nonlinear_arith);
        if k > 1 {
            lemma_pow2_unfold((k - 1) as nat);
            let g = pow2((k - 2) as nat);
            assert(n * (2 * g) == (2 * n) * g) by (nonlinear_arith);
        }
    }
}

proof fn doublings_step(n: nat, k: nat, goal: nat)
    requires
        n > 0,
        k < doublings(n, goal),
    ensures
        n * pow2(k) < goal,
        n * pow2(k + 1) == 2 * (n * pow2(k)),
{
    doublings_reach(n, goal);
    let last = (doublings(n, goal) - 1) as nat;
    if k < last {
        lemma_pow2_strictly_increases(k, last);
    }
    lemma_mul_inequality(pow2(k) as int, pow2(last) as int, n as int);
    lemma_mul_is_commutative(pow2(k) as int, n as int);
    lemma_mul_is_commutative(pow2(last) as int, n as int);
    lemma_pow2_unfold(k + 1);
    let h = pow2(k);
    assert(n * (2 * h) == 2 * (n * h)) by (nonlinear_arith);
}

/// Where the shifts stop: `n / d` then has exactly `p` digits before the point, and at most one of
/// the two was shifted.
proof fn shifts_fit(n: nat, d: nat, p: nat)
    requires
        n > 0,
        d > 0,
        p > 0,
    ensures
        ({
            let num = n * pow2(shift_up(n, d, p));
            let den = d * pow2(shift_down(n, d, p));
            &&& den * pow2((p - 1) as nat) <= num < den * pow2(p)
            &&& den > 0
            &&& shift_up(n, d, p) == 0 || shift_down(n, d, p) == 0
        }),
{
    let up = shift_up(n, d, p);
    let down = shift_down(n, d, p);
    let lo = d * pow2((p - 1) as nat);
    let hi = d * pow2(p);
    lemma2_to64();
    lemma_pow2_pos(p);
    lemma_pow2_pos((p - 1) as nat);
    lemma_pow2_unfold(p);
    lemma_mul_strictly_positive(d as int, pow2(p) as int);
    let h = pow2((p - 1) as nat);
    assert(d * (2 * h) == 2 * (d * h)) by (nonlinear_arith);
    doublings_reach(n, lo);
    doublings_reach(hi, n + 1);
    assert(n * pow2(0) == n && d * pow2(0) == d && hi * pow2(0) == hi) by (nonlinear_arith)
        requires
            pow2(0) == 1,
    ;
    if up > 0 {
        doublings_step(n, (up - 1) as nat, lo);
        assert(n < lo);
        assert(down == 0);
    } else if down > 0 {
        doublings_step(hi, (down - 1) as nat, n + 1);
        let k = pow2(down);
        let g = pow2((down - 1) as nat);
        lemma_pow2_unfold(down);
        lemma_pow2_pos(down);
        lemma_mul_strictly_positive(d as int, k as int);
        let t = pow2(p);
        assert((d * t) * k == (d * k) * t) by (nonlinear_arith);
        assert((d * t) * g == (d * (2 * g)) * h) by (nonlinear_arith)
            requires
                t == 2 * h,
        ;
    }
}

/// The nearest whole number to `n / d`: it is off by at most a half, and no other is nearer.
proof fn half_even_is_nearest(n: nat, d: nat)
    requires
        d > 0,
    ensures
        2 * n <= 2 * (half_even(n, d) * d) + d,
        2 * (half_even(n, d) * d) <= 2 * n + d,
{
    let q = n / d;
    let r = n % d;
    assert(n == q * d + r && 0 <= r < d) by (nonlinear_arith)
        requires
            d > 0,
            q == n / d,
            r == n % d,
    ;
    assert((q + 1) * d == q * d + d) by (nonlinear_arith);
}

/// Rounding returns `p` binary digits, and is off by at most half of the last of them: the exact
/// value, measured in units of that digit, is within one half of the `m` returned.
pub proof fn rounding_is_nearest(n: nat, d: nat, p: nat)
    requires
        n > 0,
        d > 0,
        p > 0,
    ensures
        ({
            let b = round(n, d, p);
            let num = n * pow2(shift_up(n, d, p));
            let den = d * pow2(shift_down(n, d, p));
            &&& b.e == shift_down(n, d, p) - shift_up(n, d, p)
            &&& pow2((p - 1) as nat) <= b.m <= pow2(p)
            &&& 2 * num <= 2 * (b.m * den) + den
            &&& 2 * (b.m * den) <= 2 * num + den
        }),
{
    let b = round(n, d, p);
    let num = n * pow2(shift_up(n, d, p));
    let den = d * pow2(shift_down(n, d, p));
    shifts_fit(n, d, p);
    half_even_is_nearest(num, den);
    let q = num / den;
    let lo = pow2((p - 1) as nat);
    let hi = pow2(p);
    assert(lo <= q < hi) by (nonlinear_arith)
        requires
            den > 0,
            q == num / den,
            den * lo <= num < den * hi,
    ;
}

/// A whole number of no more than `p` binary digits is not changed by rounding.
pub proof fn whole_numbers_are_exact(n: nat, p: nat)
    requires
        0 < n < pow2(p),
        p > 0,
    ensures
        whole_part(round(n, 1, p).m, round(n, 1, p).e) == n,
{
    let up = shift_up(n, 1, p);
    let b = round(n, 1, p);
    lemma2_to64();
    assert(1 * pow2(p) == pow2(p));
    assert(shift_down(n, 1, p) == 0);
    let k = pow2(up);
    lemma_pow2_pos(up);
    assert(1 * pow2(0) == 1);
    assert(b.m == n * k);
    assert((n * k) / k == n && n * k == n * k * 1) by (nonlinear_arith)
        requires
            k > 0,
    ;
}

/// `x * 2^k`.
fn doubled(x: u128, k: u32) -> (r: u128)
    requires
        x * pow2(k as nat) <= u128::MAX,
    ensures
        r == x * pow2(k as nat),
{
    let mut out: u128 = x;
    let mut i: u32 = 0;
    proof {
        lemma2_to64();
        assert(x * pow2(0) == x) by (nonlinear_arith)
            requires
                pow2(0) == 1,
        ;
    }
    while i < k
        invariant
            i <= k,
            out == x * pow2(i as nat),
            x * pow2(k as nat) <= u128::MAX,
        decreases k - i,
    {
        proof {
            lemma_pow2_unfold((i + 1) as nat);
            let h = pow2(i as nat);
            assert(x * (2 * h) == 2 * (x * h)) by (nonlinear_arith);
            if i + 1 < k {
                lemma_pow2_strictly_increases((i + 1) as nat, k as nat);
            }
            lemma_mul_inequality(pow2((i + 1) as nat) as int, pow2(k as nat) as int, x as int);
            lemma_mul_is_commutative(pow2((i + 1) as nat) as int, x as int);
            lemma_mul_is_commutative(pow2(k as nat) as int, x as int);
        }
        out = out * 2;
        i += 1;
    }
    out
}

/// `n / d` rounded to `p` binary digits, as `m` and `e` of `m * 2^e`.
pub fn round_ratio(n: u64, d: u64, p: u32) -> (r: (u64, i32))
    requires
        n > 0,
        d > 0,
        0 < p <= DOUBLE,
    ensures
        r.0 == round(n as nat, d as nat, p as nat).m,
        r.1 == round(n as nat, d as nat, p as nat).e,
        pow2((p - 1) as nat) <= r.0 <= pow2(p as nat),
        -128 <= r.1 <= 64,
        r.1 > 0 ==> d * pow2(p as nat) * pow2((r.1 - 1) as nat) <= n,
{
    let ghost gn = n as nat;
    let ghost gd = d as nat;
    let ghost gp = p as nat;
    let ghost lo_goal = gd * pow2((gp - 1) as nat);
    let ghost hi_start = gd * pow2(gp);
    proof {
        shifts_fit(gn, gd, gp);
        rounding_is_nearest(gn, gd, gp);
        lemma2_to64();
        lemma2_to64_rest();
        if gp < 53 {
            lemma_pow2_strictly_increases(gp, 53);
        }
        lemma_pow2_unfold(gp);
        lemma_pow2_pos((gp - 1) as nat);
        let h = pow2((gp - 1) as nat);
        let t = pow2(gp);
        assert(gd * (2 * h) == 2 * (gd * h)) by (nonlinear_arith);
        assert(gd * t <= 0xffff_ffff_ffff_ffff * 0x20_0000_0000_0000) by (nonlinear_arith)
            requires
                gd <= 0xffff_ffff_ffff_ffff,
                t <= 0x20_0000_0000_0000,
        ;
        lemma_mul_strictly_positive(gd as int, h as int);
        assert(gd <= gd * h) by (nonlinear_arith)
            requires
                h >= 1,
        ;
        assert(gn * pow2(0) == gn && gd * pow2(0) == gd && hi_start * pow2(0) == hi_start)
            by (nonlinear_arith)
            requires
                pow2(0) == 1,
        ;
    }
    let lo: u128 = doubled(d as u128, p - 1);
    let mut num: u128 = n as u128;
    let mut up: i32 = 0;
    while num < lo
        invariant
            gn == n,
            gn > 0,
            lo == lo_goal,
            lo <= 0xffff_ffff_ffff_ffff * 0x20_0000_0000_0000,
            0 <= up <= 128,
            num == gn * pow2(up as nat),
            num >= pow2(up as nat),
            up + doublings(num as nat, lo_goal) == doublings(gn, lo_goal),
        decreases doublings(num as nat, lo_goal),
    {
        proof {
            lemma_pow2_pos(up as nat);
            doublings_step(gn, up as nat, lo_goal);
            lemma_pow2_unfold((up + 1) as nat);
            lemma2_to64();
            lemma2_to64_rest();
            lemma_pow2_adds(64, 64);
            if up >= 128 {
                if up > 128 {
                    lemma_pow2_strictly_increases(128, up as nat);
                }
                assert(false);
            }
        }
        num = num * 2;
        up += 1;
    }
    let mut den: u128 = d as u128;
    let mut top: u128 = lo * 2;
    let mut down: i32 = 0;
    proof {
        if up > 0 {
            doublings_step(gn, (up - 1) as nat, lo_goal);
        }
    }
    while top <= num
        invariant
            gn == n,
            gd == d,
            gd > 0,
            hi_start > 0,
            hi_start == gd * pow2(gp),
            gp >= 1,
            num <= 2 * 0xffff_ffff_ffff_ffff * 0x20_0000_0000_0000,
            0 <= up,
            up == 0 ==> num == gn,
            up > 0 ==> num < hi_start,
            0 <= down <= 64,
            den == gd * pow2(down as nat),
            den <= top,
            top == hi_start * pow2(down as nat),
            top >= pow2(down as nat),
            down > 0 ==> hi_start * pow2((down - 1) as nat) <= num,
            up == 0 ==> down + doublings(top as nat, gn + 1) == doublings(hi_start, gn + 1),
            up > 0 ==> down == 0 && top == hi_start,
            den <= 4 * 0xffff_ffff_ffff_ffff * 0x20_0000_0000_0000,
        decreases doublings(top as nat, (num + 1) as nat),
    {
        proof {
            lemma_pow2_pos(down as nat);
            doublings_step(hi_start, down as nat, gn + 1);
            lemma_pow2_unfold((down + 1) as nat);
            let h = pow2(down as nat);
            assert(gd * (2 * h) == 2 * (gd * h)) by (nonlinear_arith);
            lemma2_to64();
            lemma2_to64_rest();
            if down >= 64 {
                if down > 64 {
                    lemma_pow2_strictly_increases(64, down as nat);
                }
                assert(false);
            }
        }
        den = den * 2;
        top = top * 2;
        down += 1;
    }
    let q: u128 = num / den;
    let rest: u128 = num % den;
    proof {
        assert(up == shift_up(gn, gd, gp));
        if up > 0 {
            assert(shift_down(gn, gd, gp) == 0);
        }
        assert(down == shift_down(gn, gd, gp));
    }
    let m: u128 = if 2 * rest < den || (2 * rest == den && q % 2 == 0) {
        q
    } else {
        q + 1
    };
    assert(m == round(gn, gd, gp).m);
    (m as u64, down - up)
}

/// The whole part of `m * 2^e`.
pub fn whole_of(m: u64, e: i32) -> (r: u128)
    requires
        -0x1000 <= e <= 64,
    ensures
        r == whole_part(m as nat, e as int),
{
    proof {
        lemma2_to64();
        lemma2_to64_rest();
    }
    if e >= 0 {
        proof {
            if e < 64 {
                lemma_pow2_strictly_increases(e as nat, 64);
            }
            let k = pow2(e as nat);
            assert(m * k <= 0xffff_ffff_ffff_ffff * 0x1_0000_0000_0000_0000) by (nonlinear_arith)
                requires
                    m <= 0xffff_ffff_ffff_ffff,
                    k <= 0x1_0000_0000_0000_0000,
            ;
        }
        doubled(m as u128, e as u32)
    } else if e <= -64 {
        proof {
            if e < -64 {
                lemma_pow2_strictly_increases(64, (-e) as nat);
            }
            let k = pow2((-e) as nat);
            assert(m as nat / k == 0) by (nonlinear_arith)
                requires
                    m < k,
            ;
        }
        0
    } else {
        let k: u32 = (-e) as u32;
        proof {
            lemma_pow2_strictly_increases(k as nat, 64);
            lemma_pow2_pos(k as nat);
            assert(1 * pow2(k as nat) == pow2(k as nat));
        }
        let unit: u128 = doubled(1, k);
        m as u128 / unit
    }
}

/// The double-precision encoding of positive infinity.
pub const INFINITY_BITS: u64 = 0x7ff0_0000_0000_0000;

/// The double-precision encoding of a result that is not a number.
pub const NOT_A_NUMBER_BITS: u64 = 0x7ff8_0000_0000_0000;

/// The double-precision encoding of the double-precision quotient of two whole numbers. The
/// dividend is itself rounded to double precision first.
pub open spec fn quotient_bits(n: nat, d: nat) -> int {
    if d == 0 {
        if n == 0 {
            NOT_A_NUMBER_BITS as int
        } else {
            INFINITY_BITS as int
        }
    } else if n == 0 {
        0
    } else {
        let a = round(n, 1, DOUBLE as nat);
        let q = round(a.m, d, DOUBLE as nat);
        (q.e + a.e + 1075) * pow2(52) + (q.m - pow2(52))
    }
}

/// Divides two whole numbers in double precision.
pub fn divide_to_bits(n: u64, d: u32) -> (r: u64)
    ensures
        r == quotient_bits(n as nat, d as nat),
{
    if d == 0 {
        return if n == 0 {
            NOT_A_NUMBER_BITS
        } else {
            INFINITY_BITS
        };
    }
    if n == 0 {
        return 0;
    }
    proof {
        lemma2_to64();
        lemma2_to64_rest();
        rounding_is_nearest(n as nat, 1, DOUBLE as nat);
    }
    let (am, ae): (u64, i32) = round_ratio(n, 1, DOUBLE);
    let (qm, qe): (u64, i32) = round_ratio(am, d as u64, DOUBLE);
    let biased: u64 = (qe + ae + 1075) as u64;
    biased * 0x10_0000_0000_0000 + (qm - 0x10_0000_0000_0000)
}

/// A double-precision encoding stands for a number, finite or infinite.
pub open spec fn is_number(bits: u64) -> bool {
    magnitude(bits) <= INFINITY_BITS
}

/// An encoding without its sign.
pub open spec fn magnitude(bits: u64) -> int {
    if bits >= 0x8000_0000_0000_0000 {
        bits - 0x8000_0000_0000_0000
    } else {
        bits as int
    }
}

/// A whole number that orders double-precision encodings as the numbers they stand for: the
/// magnitude with the sign, so that both zeros come out equal.
pub open spec fn order_key(bits: u64) -> i64 {
    if bits >= 0x8000_0000_0000_0000 {
        (-magnitude(bits)) as i64
    } else {
        bits as i64
    }
}

/// Works out the whole number that orders an encoding.
pub fn order_key_of(bits: u64) -> (r: i64)
    ensures
        r == order_key(bits),
{
    if bits >= 0x8000_0000_0000_0000 {
        -((bits - 0x8000_0000_0000_0000) as i64)
    } else {
        bits as i64
    }
}

/// Whether an encoding stands for a number.
pub fn stands_for_number(bits: u64) -> (r: bool)
    ensures
        r == is_number(bits),
{
    if bits >= 0x8000_0000_0000_0000 {
        bits - 0x8000_0000_0000_0000 <= INFINITY_BITS
    } else {
        bits <= INFINITY_BITS
    }
}

/// The number that an encoding without a sign stands for, in units of the least positive number;
/// infinity counts as the number that would come next.
pub open spec fn units(magnitude: nat) -> nat {
    let e = magnitude / 0x10_0000_0000_0000;
    let m = magnitude % 0x10_0000_0000_0000;
    if e == 0 {
        m
    } else {
        (0x10_0000_0000_0000 + m) * pow2((e - 1) as nat)
    }
}

/// The number that an encoding stands for, in units of the least positive number.
pub open spec fn signed_units(bits: u64) -> int {
    if bits >= 0x8000_0000_0000_0000 {
        -(units(magnitude(bits) as nat) as int)
    } else {
        units(bits as nat) as int
    }
}

proof fn units_grow(a: nat, b: nat)
    requires
        a < b,
    ensures
        units(a) < units(b),
    decreases b - a,
{
    let c = (b - 1) as nat;
    if a < c {
        units_grow(a, c);
    }
    let e = c / 0x10_0000_0000_0000;
    let m = c % 0x10_0000_0000_0000;
    if m == 0xf_ffff_ffff_ffff {
        assert(b / 0x10_0000_0000_0000 == e + 1 && b % 0x10_0000_0000_0000 == 0);
        if e == 0 {
            lemma2_to64();
            assert(units(b) == 0x10_0000_0000_0000 * pow2(0));
            assert(units(c) < units(b));
        } else {
            let p = pow2((e - 1) as nat);
            lemma_pow2_unfold(e);
            lemma_pow2_pos((e - 1) as nat);
            assert(units(b) == 0x10_0000_0000_0000 * (2 * p));
            assert((0x10_0000_0000_0000 + m) * p < 0x10_0000_0000_0000 * (2 * p))
                by (nonlinear_arith)
                requires
                    m == 0xf_ffff_ffff_ffff,
                    p > 0,
            ;
            assert(units(c) < units(b));
        }
    } else {
        assert(b / 0x10_0000_0000_0000 == e && b % 0x10_0000_0000_0000 == m + 1);
        if e > 0 {
            let p = pow2((e - 1) as nat);
            lemma_pow2_pos((e - 1) as nat);
            assert((0x10_0000_0000_0000 + m) * p < (0x10_0000_0000_0000 + m + 1) * p)
                by (nonlinear_arith)
                requires
                    p > 0,
            ;
            assert(units(c) < units(b));
        }
    }
}

/// Encodings are ordered by their keys as by the numbers that they stand for.
pub proof fn keys_order_the_numbers(a: u64, b: u64)
    ensures
        order_key(a) < order_key(b) <==> signed_units(a) < signed_units(b),
        order_key(a) == order_key(b) <==> signed_units(a) == signed_units(b),
{
    let x = magnitude(a) as nat;
    let y = magnitude(b) as nat;
    if x < y {
        units_grow(x, y);
    }
    if y < x {
        units_grow(y, x);
    }
    if 0 < x {
        units_grow(0, x);
    }
    if 0 < y {
        units_grow(0, y);
    }
}

/// How far apart two numbers are.
pub open spec fn distance(a: nat, b: nat) -> nat {
    if a <= b {
        (b - a) as nat
    } else {
        (a - b) as nat
    }
}

/// The result of rounding, set against the exact quotient: with `k` binary digits behind the point,
/// it is off by no more than a part in `2^p`, and by no more than half of its last digit.
pub proof fn rounding_at_scale(n: nat, d: nat, p: nat, k: nat)
    requires
        n > 0,
        d > 0,
        p > 0,
        shift_up(n, d, p) <= k,
    ensures
        ({
            let b = round(n, d, p);
            let g = pow2((b.e + k) as nat);
            let x = n * pow2(k);
            &&& b.e + k >= 0
            &&& g > 0
            &&& pow2((p - 1) as nat) <= b.m <= pow2(p)
            &&& g * d * pow2((p - 1) as nat) <= x < g * d * pow2(p)
            &&& 2 * distance(b.m * g * d, x) <= g * d
            &&& pow2(p) * distance(b.m * g * d, x) <= x
        }),
{
    let b = round(n, d, p);
    let up = shift_up(n, d, p);
    let down = shift_down(n, d, p);
    let num = n * pow2(up);
    let den = d * pow2(down);
    let f = pow2((k - up) as nat);
    let g = pow2((b.e + k) as nat);
    let x = n * pow2(k);
    let h = pow2((p - 1) as nat);
    let t = pow2(p);
    shifts_fit(n, d, p);
    rounding_is_nearest(n, d, p);
    lemma_pow2_adds(up, (k - up) as nat);
    lemma_pow2_adds(down, (k - up) as nat);
    lemma_pow2_pos((k - up) as nat);
    lemma_pow2_pos((b.e + k) as nat);
    lemma_pow2_unfold(p);
    let pu = pow2(up);
    let pd = pow2(down);
    assert(num * f == x) by (nonlinear_arith)
        requires
            num == n * pu,
            x == n * (pu * f),
    ;
    assert(den * f == g * d) by (nonlinear_arith)
        requires
            den == d * pd,
            g == pd * f,
    ;
    let m = b.m;
    assert(m * den * f == m * g * d) by (nonlinear_arith)
        requires
            den * f == g * d,
    ;
    assert((den * h) * f == g * d * h && (den * t) * f == g * d * t) by (nonlinear_arith)
        requires
            den * f == g * d,
    ;
    assert((den * h) * f <= num * f && num * f < (den * t) * f) by (nonlinear_arith)
        requires
            den * h <= num < den * t,
            f > 0,
    ;
    assert((2 * num) * f <= (2 * (m * den) + den) * f && (2 * (m * den)) * f <= (2 * num + den) * f)
        by (nonlinear_arith)
        requires
            2 * num <= 2 * (m * den) + den,
            2 * (m * den) <= 2 * num + den,
            f > 0,
    ;
    assert((2 * num) * f == 2 * x && (2 * num + den) * f == 2 * x + g * d) by (nonlinear_arith)
        requires
            num * f == x,
            den * f == g * d,
    ;
    assert((2 * (m * den)) * f == 2 * (m * g * d) && (2 * (m * den) + den) * f == 2 * (m * g * d)
        + g * d) by (nonlinear_arith)
        requires
            m * den * f == m * g * d,
            den * f == g * d,
    ;
    let gap = distance(m * g * d, x);
    assert(2 * gap <= g * d);
    assert(t * gap <= x) by (nonlinear_arith)
        requires
            t == 2 * h,
            2 * gap <= g * d,
            g * d * h <= x,
            h >= 0,
    ;
}

/// A quotient that has `p` binary digits or fewer, up to zeros behind them, is not changed by
/// rounding.
pub proof fn short_quotients_are_exact(c: nat, j: nat, d: nat, p: nat, k: nat)
    requires
        0 < c < pow2(p),
        d > 0,
        p > 0,
        shift_up(c * pow2(j) * d, d, p) <= k,
    ensures
        ({
            let b = round(c * pow2(j) * d, d, p);
            b.e + k >= 0 && b.m * pow2((b.e + k) as nat) == c * pow2(j + k)
        }),
{
    let n = c * pow2(j) * d;
    let b = round(n, d, p);
    let up = shift_up(n, d, p);
    let down = shift_down(n, d, p);
    lemma_pow2_pos(j);
    let pj = pow2(j);
    assert(n > 0 && c * pj > 0) by (nonlinear_arith)
        requires
            n == c * pj * d,
            c > 0,
            pj > 0,
            d > 0,
    ;
    rounding_at_scale(n, d, p, k);
    shifts_fit(n, d, p);
    let hi = d * pow2(p);
    lemma_pow2_pos(p);
    lemma_mul_strictly_positive(d as int, pow2(p) as int);
    // The divisor is doubled no more often than there are zeros behind the digits.
    assert(down <= j) by {
        if down > j {
            doublings_step(hi, j, n + 1);
            let t = pow2(p);
            assert(c * pj * d < (d * t) * pj) by (nonlinear_arith)
                requires
                    c < t,
                    pj > 0,
                    d > 0,
            ;
        }
    }
    lemma_pow2_adds(down, (j - down) as nat);
    lemma_pow2_pos(down);
    lemma_pow2_pos(up);
    let pu = pow2(up);
    let pd = pow2(down);
    let r = pow2((j - down) as nat);
    let num = n * pu;
    let den = d * pd;
    let q = c * r * pu;
    assert(num == q * den) by (nonlinear_arith)
        requires
            num == n * pu,
            n == c * pj * d,
            pj == pd * r,
            q == c * r * pu,
            den == d * pd,
    ;
    assert(den > 0) by (nonlinear_arith)
        requires
            den == d * pd,
            d > 0,
            pd > 0,
    ;
    assert(num / den == q && num % den == 0) by (nonlinear_arith)
        requires
            num == q * den,
            den > 0,
    ;
    assert(b.m == q);
    lemma_pow2_adds(up, (b.e + k) as nat);
    lemma_pow2_adds((j - down) as nat, (up + b.e + k) as nat);
    let e = pow2((b.e + k) as nat);
    let w = pow2((up + b.e + k) as nat);
    assert(q * e == c * (r * w)) by (nonlinear_arith)
        requires
            q == c * r * pu,
            w == pu * e,
    ;
}

proof fn doublings_bound(n: nat, k: nat, goal: nat)
    requires
        n > 0,
        n * pow2(k) >= goal,
    ensures
        doublings(n, goal) <= k,
{
    if k < doublings(n, goal) {
        doublings_step(n, k, goal);
    }
}

/// How far the operands of a quotient are shifted.
proof fn quotient_shifts(n: nat, d: nat)
    requires
        0 < n < 0x1_0000_0000_0000_0000,
        0 < d < 0x1_0000_0000,
    ensures
        shift_up(n, 1, 53) <= 52,
        shift_down(n, 1, 53) <= 11,
        shift_up(round(n, 1, 53).m, d, 53) <= 32,
        shift_down(round(n, 1, 53).m, d, 53) <= 1,
        pow2(52) <= round(n, 1, 53).m <= pow2(53),
{
    lemma2_to64();
    lemma2_to64_rest();
    rounding_is_nearest(n, 1, 53);
    let m = round(n, 1, 53).m;
    let g = pow2(52);
    let h = pow2(53);
    assert(1 * g == g && 1 * h == h);
    assert(n * pow2(52) >= g) by (nonlinear_arith)
        requires
            n > 0,
            pow2(52) == g,
    ;
    doublings_bound(n, 52, g);
    assert(pow2(53) * pow2(11) >= n + 1) by (nonlinear_arith)
        requires
            pow2(53) == 0x20_0000_0000_0000,
            pow2(11) == 0x800,
            n < 0x1_0000_0000_0000_0000,
    ;
    doublings_bound(h, 11, n + 1);
    assert(m * pow2(32) >= d * g) by (nonlinear_arith)
        requires
            m >= g,
            pow2(32) == 0x1_0000_0000,
            d < 0x1_0000_0000,
            g > 0,
    ;
    doublings_bound(m, 32, d * g);
    assert((d * h) * pow2(1) >= m + 1 && d * h > 0) by (nonlinear_arith)
        requires
            d > 0,
            h > 0,
            m <= h,
            pow2(1) == 2,
    ;
    doublings_bound(d * h, 1, m + 1);
}

/// What the encoding of a quotient stands for.
proof fn quotient_units(n: nat, d: nat)
    requires
        0 < n < 0x1_0000_0000_0000_0000,
        0 < d < 0x1_0000_0000,
    ensures
        ({
            let a = round(n, 1, 53);
            let q = round(a.m, d, 53);
            &&& a.e >= -52
            &&& q.e + a.e + 1074 >= 0
            &&& 0 <= quotient_bits(n, d) < INFINITY_BITS
            &&& units(quotient_bits(n, d) as nat) == q.m * pow2((q.e + a.e + 1074) as nat)
            &&& units(quotient_bits(n, 1) as nat) == a.m * pow2((a.e + 1074) as nat)
        }),
{
    let a = round(n, 1, 53);
    quotient_shifts(n, d);
    quotient_shifts(n, 1);
    encoding_units(a, d);
    encoding_units(a, 1);
    lemma2_to64();
    lemma2_to64_rest();
    let k = (a.e + 1074) as nat;
    assert(a.m * pow2(0) * 1 == a.m && 1 * pow2(53) * 1 == pow2(53));
    if a.m < pow2(53) {
        short_quotients_are_exact(a.m, 0, 1, 53, k);
    } else {
        assert(1 < pow2(53));
        short_quotients_are_exact(1, 53, 1, 53, k);
        lemma_pow2_adds(53, k);
        assert(1 * pow2(53 + k) == a.m * pow2(k));
    }
}

proof fn encoding_units(a: Binary, d: nat)
    requires
        pow2(52) <= a.m <= pow2(53),
        -52 <= a.e <= 11,
        0 < d,
        shift_up(a.m, d, 53) <= 32,
        shift_down(a.m, d, 53) <= 1,
    ensures
        ({
            let q = round(a.m, d, 53);
            let bits = (q.e + a.e + 1075) * pow2(52) + (q.m - pow2(52));
            &&& q.e + a.e + 1074 >= 0
            &&& 0 <= bits < INFINITY_BITS
            &&& units(bits as nat) == q.m * pow2((q.e + a.e + 1074) as nat)
        }),
{
    lemma2_to64();
    lemma2_to64_rest();
    let q = round(a.m, d, 53);
    rounding_is_nearest(a.m, d, 53);
    let t = q.e + a.e + 1075;
    let bits = t * 0x10_0000_0000_0000 + (q.m - 0x10_0000_0000_0000);
    if q.m == pow2(53) {
        assert(bits == (t + 1) * 0x10_0000_0000_0000);
        assert(bits as nat / 0x10_0000_0000_0000 == t + 1 && bits as nat % 0x10_0000_0000_0000 == 0);
        lemma_pow2_unfold(t as nat);
        let h = pow2((t - 1) as nat);
        assert(0x10_0000_0000_0000 * (2 * h) == 0x20_0000_0000_0000 * h) by (nonlinear_arith);
    } else {
        assert(bits as nat / 0x10_0000_0000_0000 == t && bits as nat % 0x10_0000_0000_0000 == q.m
            - 0x10_0000_0000_0000);
    }
}

/// A number that is encoded and is at least `2^52 * g` is a multiple of `g`, a power of two.
proof fn great_numbers_are_multiples(b: nat, j: nat) -> (w: nat)
    requires
        units(b) >= pow2(52) * pow2(j),
    ensures
        units(b) == w * pow2(j),
{
    lemma2_to64();
    lemma2_to64_rest();
    lemma_pow2_pos(j);
    let g = pow2(j);
    let e = b / 0x10_0000_0000_0000;
    let m = b % 0x10_0000_0000_0000;
    assert(0x10_0000_0000_0000 * g >= 0x10_0000_0000_0000) by (nonlinear_arith)
        requires
            g >= 1,
    ;
    assert(e > 0);
    let k = (e - 1) as nat;
    let f = pow2(k);
    if k < j {
        lemma_pow2_unfold(k + 1);
        if k + 1 < j {
            lemma_pow2_strictly_increases(k + 1, j);
        }
        assert((0x10_0000_0000_0000 + m) * f < 0x10_0000_0000_0000 * g) by (nonlinear_arith)
            requires
                m < 0x10_0000_0000_0000,
                2 * f <= g,
                f > 0 || g > 0,
                g >= 1,
        ;
    }
    lemma_pow2_adds(j, (k - j) as nat);
    let r = pow2((k - j) as nat);
    let w = (0x10_0000_0000_0000 + m) * r;
    assert((0x10_0000_0000_0000 + m) * (g * r) == w * g) by (nonlinear_arith)
        requires
            w == (0x10_0000_0000_0000 + m) * r,
    ;
    w
}

/// A multiple of `g` that is off by at most half of `g` is at least as near as every other number
/// that is encoded.
proof fn nearest_multiple(m: nat, j: nat, d: nat, x: nat, other: nat)
    requires
        d > 0,
        2 * distance(m * pow2(j) * d, x) <= pow2(j) * d,
        pow2(j) * d * pow2(52) <= x,
    ensures
        distance(m * pow2(j) * d, x) <= distance(units(other) * d, x),
{
    let g = pow2(j);
    let gd = g * d;
    lemma_pow2_pos(j);
    let t = pow2(52);
    let u = units(other);
    assert(m * g * d == m * gd) by (nonlinear_arith)
        requires
            gd == g * d,
    ;
    if u >= t * g {
        let w = great_numbers_are_multiples(other, j);
        assert(u * d == w * gd) by (nonlinear_arith)
            requires
                u == w * g,
                gd == g * d,
        ;
        multiples_are_apart(m, w, gd, x);
    } else {
        assert(u * d <= t * gd && t * gd == gd * t) by (nonlinear_arith)
            requires
                u < t * g,
                gd == g * d,
                d > 0,
        ;
        multiples_are_apart(m, t, gd, x);
    }
}

proof fn multiples_are_apart(m: nat, w: nat, g: nat, x: nat)
    requires
        2 * distance(m * g, x) <= g,
    ensures
        distance(m * g, x) <= distance(w * g, x),
{
    if w < m {
        assert(w * g + g <= m * g) by (nonlinear_arith)
            requires
                w + 1 <= m,
        ;
    } else if m < w {
        assert(m * g + g <= w * g) by (nonlinear_arith)
            requires
                m + 1 <= w,
        ;
    }
}

/// A quotient is the double-precision number nearest to the exact quotient: no number that is
/// encoded is nearer to the dividend than the one that stands for it, or nearer to the quotient of
/// that one than the result; and a dividend of no more than 53 binary digits stands for itself.
pub proof fn quotients_are_nearest(n: nat, d: nat, other: nat)
    requires
        0 < n < 0x1_0000_0000_0000_0000,
        0 < d < 0x1_0000_0000,
    ensures
        ({
            let dividend = units(quotient_bits(n, 1) as nat);
            let result = units(quotient_bits(n, d) as nat);
            &&& 0 <= quotient_bits(n, d) < 0x7ff0_0000_0000_0000
            &&& distance(dividend, n * pow2(1074)) <= distance(units(other), n * pow2(1074))
            &&& distance(result * d, dividend) <= distance(units(other) * d, dividend)
            &&& n < 0x20_0000_0000_0000 ==> dividend == n * pow2(1074)
        }),
{
    let a = round(n, 1, 53);
    let q = round(a.m, d, 53);
    quotient_shifts(n, d);
    quotient_units(n, d);
    quotient_units(n, 1);
    lemma2_to64();
    lemma2_to64_rest();
    rounding_at_scale(n, 1, 53, 1074);
    nearest_multiple(a.m, (a.e + 1074) as nat, 1, n * pow2(1074), other);
    assert(units(other) * 1 == units(other));
    let k = (a.e + 1074) as nat;
    rounding_at_scale(a.m, d, 53, k);
    nearest_multiple(q.m, (q.e + k) as nat, d, a.m * pow2(k), other);
    if n < 0x20_0000_0000_0000 {
        assert(n * pow2(0) * 1 == n);
        short_quotients_are_exact(n, 0, 1, 53, 1074);
    }
}

/// A quotient of whole numbers that is a whole number is that number.
pub proof fn whole_quotients_are_exact(k: nat, d: nat)
    requires
        0 < k,
        0 < d < 0x1_0000_0000,
        k * d < 0x20_0000_0000_0000,
    ensures
        units(quotient_bits(k * d, d) as nat) == k * pow2(1074),
{
    let n = k * d;
    assert(n > 0 && k <= n) by (nonlinear_arith)
        requires
            n == k * d,
            k > 0,
            d > 0,
    ;
    let own = quotient_bits(k, 1) as nat;
    quotients_are_nearest(k, 1, own);
    quotients_are_nearest(n, d, own);
    let r = units(quotient_bits(n, d) as nat);
    let s = pow2(1074);
    assert((k * s) * d == n * s) by (nonlinear_arith)
        requires
            n == k * d,
    ;
    assert(r == k * s) by (nonlinear_arith)
        requires
            r * d == (k * s) * d,
            d > 0,
    ;
}

/// How often a dividend is doubled at most.
pub proof fn shift_up_is_at_most(n: nat, d: nat, p: nat, k: nat)
    requires
        n > 0,
        n * pow2(k) >= d * pow2((p - 1) as nat),
    ensures
        shift_up(n, d, p) <= k,
{
    doublings_bound(n, k, d * pow2((p - 1) as nat));
}

/// Rounding keeps the order: of two quotients by the same number, the one that is no less is rounded
/// to no less. Both are taken with `k` binary digits behind the point.
pub proof fn rounding_keeps_the_order(n1: nat, n2: nat, d: nat, p: nat, k: nat)
    requires
        0 < n1 <= n2,
        d > 0,
        p > 0,
        shift_up(n1, d, p) <= k,
        shift_up(n2, d, p) <= k,
    ensures
        ({
            let a = round(n1, d, p);
            let b = round(n2, d, p);
            a.m * pow2((a.e + k) as nat) <= b.m * pow2((b.e + k) as nat)
        }),
{
    let a = round(n1, d, p);
    let b = round(n2, d, p);
    rounding_at_scale(n1, d, p, k);
    rounding_at_scale(n2, d, p, k);
    let i = (a.e + k) as nat;
    let j = (b.e + k) as nat;
    let f = pow2(i);
    let g = pow2(j);
    let s = pow2(k);
    let x = n1 * s;
    let y = n2 * s;
    let h = pow2((p - 1) as nat);
    let t = pow2(p);
    lemma_pow2_unfold(p);
    lemma_pow2_pos((p - 1) as nat);
    lemma_pow2_pos(k);
    assert(x <= y) by (nonlinear_arith)
        requires
            x == n1 * s,
            y == n2 * s,
            n1 <= n2,
    ;
    if i == j {
        let v = a.m * f * d;
        let w = b.m * f * d;
        if b.m < a.m {
            assert(w + f * d <= v) by (nonlinear_arith)
                requires
                    v == a.m * f * d,
                    w == b.m * f * d,
                    b.m + 1 <= a.m,
            ;
            assert(x == y);
            assert(n1 == n2) by (nonlinear_arith)
                requires
                    n1 * s == n2 * s,
                    s > 0,
            ;
        }
        assert(a.m * f <= b.m * f) by (nonlinear_arith)
            requires
                a.m <= b.m,
        ;
    } else if i < j {
        lemma_pow2_unfold(i + 1);
        if i + 1 < j {
            lemma_pow2_strictly_increases(i + 1, j);
        }
        assert(a.m * f <= b.m * g) by (nonlinear_arith)
            requires
                a.m <= 2 * h,
                h <= b.m,
                2 * f <= g,
        ;
    } else {
        lemma_pow2_unfold(j + 1);
        if j + 1 < i {
            lemma_pow2_strictly_increases(j + 1, i);
        }
        assert(g * d * t <= f * d * h) by (nonlinear_arith)
            requires
                t == 2 * h,
                2 * g <= f,
        ;
    }
}

/// The whole part of a number, read off the number with `k` binary digits behind the point.
pub proof fn whole_part_at_scale(m: nat, e: int, k: nat, shift: int)
    requires
        e + k >= 0,
        shift <= k,
    ensures
        whole_part(m, e + shift) == m * pow2((e + k) as nat) / pow2((k - shift) as nat),
        pow2((k - shift) as nat) > 0,
{
    let a = pow2((e + k) as nat);
    let c = pow2((k - shift) as nat);
    lemma_pow2_pos((e + k) as nat);
    lemma_pow2_pos((k - shift) as nat);
    if e + shift >= 0 {
        let b = pow2((e + shift) as nat);
        lemma_pow2_adds((e + shift) as nat, (k - shift) as nat);
        assert(m * a / c == m * b) by (nonlinear_arith)
            requires
                a == b * c,
                c > 0,
        ;
    } else {
        let b = pow2((-(e + shift)) as nat);
        lemma_pow2_pos((-(e + shift)) as nat);
        lemma_pow2_adds((e + k) as nat, (-(e + shift)) as nat);
        let q = m / b;
        let r = m % b;
        assert(m == q * b + r && 0 <= r < b) by (nonlinear_arith)
            requires
                b > 0,
                q == m / b,
                r == m % b,
        ;
        assert(m * a == q * c + r * a && 0 <= r * a < c) by (nonlinear_arith)
            requires
                m == q * b + r,
                0 <= r < b,
                a > 0,
                c == a * b,
        ;
        assert(m * a / c == q) by (nonlinear_arith)
            requires
                m * a == q * c + r * a,
                0 <= r * a < c,
        ;
    }
}

/// An encoding is not that of a number exactly if its exponent is all ones and its fraction is not
/// zero.
pub proof fn numbers_are_told_by_their_encoding(bits: u64)
    ensures
        !is_number(bits) <==> bits / 0x10_0000_0000_0000 % 0x800 == 0x7ff && bits
            % 0x10_0000_0000_0000 != 0,
{
}

/// A quotient that lies in the middle between two whole numbers goes to the even one, and any other
/// to the nearer one.
pub proof fn halves_go_to_the_even_number(n: nat, d: nat, q: nat)
    requires
        d > 0,
    ensures
        2 * n == 2 * (q * d) + d ==> half_even(n, d) == if q % 2 == 0 {
            q
        } else {
            q + 1
        },
        2 * distance(n, q * d) < d ==> half_even(n, d) == q,
{
    let k = n / d;
    let r = n % d;
    assert(n == k * d + r && 0 <= r < d) by (nonlinear_arith)
        requires
            d > 0,
            k == n / d,
            r == n % d,
    ;
    if 2 * n == 2 * (q * d) + d {
        assert(k == q) by (nonlinear_arith)
            requires
                n == k * d + r,
                0 <= r < d,
                2 * n == 2 * (q * d) + d,
                d > 0,
        ;
    }
    if 2 * distance(n, q * d) < d {
        if q * d <= n {
            assert(k == q) by (nonlinear_arith)
                requires
                    n == k * d + r,
                    0 <= r < d,
                    q * d <= n,
                    2 * (n - q * d) < d,
                    d > 0,
            ;
        } else {
            assert(k + 1 == q) by (nonlinear_arith)
                requires
                    n == k * d + r,
                    0 <= r < d,
                    n < q * d,
                    2 * (q * d - n) < d,
                    d > 0,
            ;
            assert((k + 1) * d == k * d + d) by (nonlinear_arith);
        }
    }
}

} // verus!
