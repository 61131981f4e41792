//! Single-precision (IEEE 754 binary32) arithmetic, modelled exactly with
//! integers: a value is `mant * 2^exp` with a mantissa of at most 24 bits,
//! and every operation rounds its exact result to the nearest such value,
//! ties to an even mantissa. The values met here (counts of at most 64 bits
//! and their ratios) stay well inside the normal range, so neither overflow
//! nor subnormal values arise.

use vstd::prelude::*;
use vstd::arithmetic::power2::{
    pow2, lemma_pow2_unfold, lemma_pow2_adds, lemma_pow2_pos, lemma_pow2_strictly_increases,
    lemma2_to64, lemma2_to64_rest,
};

verus! {

/// `n * 2^t` when `t` is not negative, else `n`.
pub open spec fn scaled_up(n: nat, t: int) -> nat {
    if t >= 0 {
        n * pow2(t as nat)
    } else {
        n
    }
}

/// `d` when `t` is not negative, else `d * 2^-t`.
pub open spec fn scaled_down(d: nat, t: int) -> nat {
    if t >= 0 {
        d
    } else {
        d * pow2((-t) as nat)
    }
}

/// `n / d * 2^t` lies in `[2^23, 2^24)`.
pub open spec fn normal_at(n: nat, d: nat, t: int) -> bool {
    8388608 * scaled_down(d, t) <= scaled_up(n, t) < 16777216 * scaled_down(d, t)
}

/// The power of two that brings `n / d` into `[2^23, 2^24)` (there is
/// exactly one when `n` and `d` are positive).
pub open spec fn normal_shift(n: nat, d: nat) -> int {
    choose|t: int| normal_at(n, d, t)
}

/// `q + r / den` rounded to an integer: to the nearest, ties to even.
pub open spec fn round_half_even(q: nat, r: nat, den: nat) -> nat {
    if 2 * r > den || (2 * r == den && q % 2 == 1) {
        q + 1
    } else {
        q
    }
}

/// The single-precision value nearest to `n / d * 2^s`, ties to an even
/// mantissa, as `(mant, exp)` with value `mant * 2^exp`.
pub open spec fn round_single(n: nat, d: nat, s: int) -> (nat, int) {
    if n == 0 {
        (0, 0)
    } else {
        let t = normal_shift(n, d);
        let a = scaled_up(n, t);
        let b = scaled_down(d, t);
        let m = round_half_even(a / b, a % b, b);
        if m == 16777216 {
            (8388608, s - t + 1)
        } else {
            (m, s - t)
        }
    }
}

/// An integer converted to single precision.
pub open spec fn single_from_int(n: nat) -> (nat, int) {
    round_single(n, 1, 0)
}

/// The single-precision quotient `x / y`.
pub open spec fn single_quotient(x: (nat, int), y: (nat, int)) -> (nat, int) {
    round_single(x.0, y.0, x.1 - y.1)
}

/// The single-precision product `x * y`.
pub open spec fn single_product(x: (nat, int), y: (nat, int)) -> (nat, int) {
    round_single(x.0 * y.0, 1, x.1 + y.1)
}

/// The smallest integer at least `x`, for `x` not negative.
pub open spec fn single_ceil(x: (nat, int)) -> nat {
    if x.1 >= 0 {
        x.0 * pow2(x.1 as nat)
    } else {
        let p = pow2((-x.1) as nat) as int;
        ((x.0 + p - 1) / p) as nat
    }
}

/// `v` converted to `usize`, saturating at `usize::MAX`.
pub open spec fn saturate(v: nat) -> usize {
    if v < usize::MAX {
        v as usize
    } else {
        usize::MAX
    }
}

/// A single-precision value `mant * 2^exp`.
pub struct Single {
    pub mant: u32,
    pub exp: i32,
}

impl View for Single {
    type V = (nat, int);

    open spec fn view(&self) -> (nat, int) {
        (self.mant as nat, self.exp as int)
    }
}

impl Single {
    /// Zero, or a mantissa of exactly 24 bits, with an exponent of moderate size.
    pub open spec fn wf(&self) -> bool {
        &&& self.mant < 16777216
        &&& (self.mant == 0 || self.mant >= 8388608)
        &&& -300 <= self.exp <= 300
    }
}

proof fn lemma_shift_up_from(n: nat, d: nat, t: int) -> (r: int)
    requires
        n >= 1,
        d >= 1,
        t >= 0,
        scaled_up(n, t) < 16777216 * d,
    ensures
        normal_at(n, d, r),
    decreases 16777216 * d - scaled_up(n, t),
{
    if scaled_up(n, t) >= 8388608 * d {
        t
    } else {
        lemma_scaled_up_step(n, t);
        lemma_pow2_pos(t as nat);
        lemma_pow2_le_scaled(n, t);
        lemma_shift_up_from(n, d, t + 1)
    }
}

proof fn lemma_shift_down_from(n: nat, d: nat, t: int) -> (r: int)
    requires
        n >= 1,
        d >= 1,
        t <= 0,
        scaled_down(d, t) * 8388608 <= n,
    ensures
        normal_at(n, d, r),
    decreases n - scaled_down(d, t),
{
    lemma_scaled_down_pos(d, t);
    if n < 16777216 * scaled_down(d, t) {
        if t == 0 {
            lemma2_to64();
            assert(n * pow2(0) == n);
        }
        t
    } else {
        lemma_scaled_down_step(d, t);
        lemma_shift_down_from(n, d, t - 1)
    }
}

/// A positive ratio has a shift that brings it into `[2^23, 2^24)`.
pub proof fn lemma_normal_shift_exists(n: nat, d: nat)
    requires
        n >= 1,
        d >= 1,
    ensures
        normal_at(n, d, normal_shift(n, d)),
{
    lemma2_to64();
    assert(scaled_up(n, 0) == n) by {
        assert(n * pow2(0) == n);
    }
    if n < 8388608 * d {
        let t = lemma_shift_up_from(n, d, 0);
    } else {
        let t = lemma_shift_down_from(n, d, 0);
    }
}

/// A positive ratio rounds to a mantissa of exactly 24 bits.
pub proof fn lemma_round_single_normalized(n: nat, d: nat, s: int)
    requires
        n >= 1,
        d >= 1,
    ensures
        8388608 <= round_single(n, d, s).0 < 16777216,
{
    lemma_normal_shift_exists(n, d);
    let t = normal_shift(n, d);
    let a = scaled_up(n, t);
    let b = scaled_down(d, t);
    lemma_scaled_down_pos(d, t);
    assert(8388608 <= a / b < 16777216) by (nonlinear_arith)
        requires
            b > 0,
            8388608 * b <= a < 16777216 * b,
    ;
}

/// A positive integer below `2^24` converts to single precision exactly:
/// its mantissa is the integer shifted left by `t`, its exponent `-t`.
pub proof fn lemma_small_int_exact(n: nat) -> (t: nat)
    requires
        1 <= n < 16777216,
    ensures
        single_from_int(n) == (n * pow2(t), -(t as int)),
        8388608 <= n * pow2(t) < 16777216,
    decreases 16777216 - n,
{
    lemma2_to64();
    let t: nat = if n >= 8388608 {
        assert(n * pow2(0) == n);
        0
    } else {
        let u = lemma_small_int_exact(2 * n);
        lemma_pow2_unfold(u + 1);
        assert(n * pow2(u + 1) == 2 * n * pow2(u)) by (nonlinear_arith)
            requires
                pow2(u + 1) == 2 * pow2(u),
        ;
        u + 1
    };
    assert(normal_at(n, 1, t as int));
    lemma_normal_shift_unique(n, 1, t as int, normal_shift(n, 1));
    let a = n * pow2(t);
    assert(a / 1 == a && a % 1 == 0);
    t
}

/// A value divided by itself is exactly one: `2^23 * 2^-23`.
pub proof fn lemma_quotient_of_itself(x: (nat, int))
    requires
        8388608 <= x.0 < 16777216,
    ensures
        single_quotient(x, x) == (8388608nat, -23int),
{
    lemma2_to64();
    let m = x.0;
    assert(normal_at(m, m, 23)) by {
        assert(scaled_up(m, 23) == m * 8388608);
        assert(8388608 * m <= m * 8388608 < 16777216 * m) by (nonlinear_arith)
            requires
                m >= 1,
        ;
    }
    lemma_normal_shift_unique(m, m, 23, normal_shift(m, m));
    let a = m * 8388608;
    vstd::arithmetic::div_mod::lemma_fundamental_div_mod_converse(a as int, m as int, 8388608, 0);
}

/// Multiplying by exactly one changes nothing.
pub proof fn lemma_product_with_one(x: (nat, int))
    requires
        8388608 <= x.0 < 16777216,
    ensures
        single_product(x, (8388608nat, -23int)) == x,
{
    lemma2_to64();
    let n = x.0 * 8388608;
    assert(normal_at(n, 1, -23)) by {
        assert(scaled_down(1, -23) == 8388608);
        assert(8388608 * 8388608 <= n < 16777216 * 8388608) by (nonlinear_arith)
            requires
                n == x.0 * 8388608,
                8388608 <= x.0 < 16777216,
        ;
    }
    lemma_normal_shift_unique(n, 1, -23, normal_shift(n, 1));
    vstd::arithmetic::div_mod::lemma_fundamental_div_mod_converse(n as int, 8388608, x.0 as int, 0);
}

/// The ceiling of an integer held exactly is that integer.
pub proof fn lemma_ceil_of_exact_int(n: nat, t: nat)
    ensures
        single_ceil((n * pow2(t), -(t as int))) == n,
{
    lemma2_to64();
    if t == 0 {
        assert(n * pow2(0) == n);
    } else {
        let p = pow2(t);
        lemma_pow2_pos(t);
        vstd::arithmetic::div_mod::lemma_fundamental_div_mod_converse(
            (n * p + p - 1) as int,
            p as int,
            n as int,
            (p - 1) as int,
        );
    }
}

proof fn lemma_pow2_below(x: nat, y: nat)
    requires
        pow2(x) < pow2(y),
    ensures
        x < y,
{
    if x > y {
        lemma_pow2_strictly_increases(y, x);
    }
}

proof fn lemma_scaled_down_pos(d: nat, t: int)
    requires
        d > 0,
    ensures
        scaled_down(d, t) > 0,
{
    if t < 0 {
        let p = pow2((-t) as nat);
        lemma_pow2_pos((-t) as nat);
        assert(d * p > 0) by (nonlinear_arith)
            requires
                d > 0,
                p > 0,
        ;
    }
}

/// Moving the shift by `k` scales the ratio by `2^k`.
proof fn lemma_shift_cross(n: nat, d: nat, t: int, k: nat)
    ensures
        scaled_up(n, t + k) * scaled_down(d, t) == scaled_up(n, t) * scaled_down(d, t + k) * pow2(
            k,
        ),
{
    if t >= 0 {
        lemma_pow2_adds(t as nat, k);
        let a = pow2(t as nat);
        let b = pow2(k);
        assert(pow2((t + k) as nat) == a * b);
        assert(n * (a * b) * d == n * a * d * b) by (nonlinear_arith);
    } else if t + k >= 0 {
        let i = (t + k) as nat;
        let j = (-t) as nat;
        lemma_pow2_adds(i, j);
        assert(i + j == k);
        let a = pow2(i);
        let b = pow2(j);
        assert(n * a * (d * b) == n * d * (a * b)) by (nonlinear_arith);
    } else {
        let i = (-(t + k)) as nat;
        let j = (-t) as nat;
        lemma_pow2_adds(i, k);
        assert(i + k == j);
        let a = pow2(i);
        let b = pow2(k);
        assert(n * (d * (a * b)) == n * (d * a) * b) by (nonlinear_arith);
    }
}

proof fn lemma_normal_order(n: nat, d: nat, t1: int, t2: int)
    requires
        d > 0,
        t1 < t2,
    ensures
        !(normal_at(n, d, t1) && normal_at(n, d, t2)),
{
    if !(normal_at(n, d, t1) && normal_at(n, d, t2)) {
        return;
    }
    let k = (t2 - t1) as nat;
    lemma_shift_cross(n, d, t1, k);
    lemma_pow2_unfold(k);
    lemma_pow2_pos((k - 1) as nat);
    lemma_scaled_down_pos(d, t1);
    lemma_scaled_down_pos(d, t2);
    let u1 = scaled_up(n, t1);
    let d1 = scaled_down(d, t1);
    let u2 = scaled_up(n, t2);
    let d2 = scaled_down(d, t2);
    let p = pow2(k);
    assert(t1 + k == t2);
    assert(u2 * d1 == u1 * d2 * p);
    assert(u1 * d2 * p >= 16777216 * d1 * d2) by (nonlinear_arith)
        requires
            8388608 * d1 <= u1,
            p >= 2,
            d2 > 0,
    ;
    assert(u2 * d1 < 16777216 * d2 * d1) by (nonlinear_arith)
        requires
            u2 < 16777216 * d2,
            d1 > 0,
    ;
    assert(16777216 * d1 * d2 == 16777216 * d2 * d1) by (nonlinear_arith);
}

/// There is only one shift that brings a ratio into `[2^23, 2^24)`.
pub proof fn lemma_normal_shift_unique(n: nat, d: nat, t1: int, t2: int)
    requires
        d > 0,
        normal_at(n, d, t1),
        normal_at(n, d, t2),
    ensures
        t1 == t2,
{
    if t1 < t2 {
        lemma_normal_order(n, d, t1, t2);
    } else if t2 < t1 {
        lemma_normal_order(n, d, t2, t1);
    }
}

proof fn lemma_scaled_up_step(n: nat, t: int)
    requires
        t >= 0,
    ensures
        scaled_up(n, t + 1) == 2 * scaled_up(n, t),
{
    lemma_pow2_unfold((t + 1) as nat);
    let p = pow2(t as nat);
    assert(n * (2 * p) == 2 * (n * p)) by (nonlinear_arith);
}

proof fn lemma_scaled_down_step(d: nat, t: int)
    requires
        t <= 0,
    ensures
        scaled_down(d, t - 1) == 2 * scaled_down(d, t),
{
    lemma_pow2_unfold((1 - t) as nat);
    lemma2_to64();
    if t == 0 {
        assert(scaled_down(d, -1) == d * 2);
    } else {
        let p = pow2((-t) as nat);
        assert(d * (2 * p) == 2 * (d * p)) by (nonlinear_arith);
    }
}

proof fn lemma_pow2_le_scaled(n: nat, t: int)
    requires
        n >= 1,
        t >= 0,
    ensures
        scaled_up(n, t) >= pow2(t as nat),
{
    let p = pow2(t as nat);
    assert(n * p >= p) by (nonlinear_arith)
        requires
            n >= 1,
    ;
}

/// `n / d * 2^s` rounded to single precision.
fn round_to_single(n: u128, d: u128, s: i32) -> (r: Single)
    requires
        0 < d < 16777216,
        n < 0x1_0000_0000_0000_0000,
        -1000 <= s <= 1000,
    ensures
        r@ == round_single(n as nat, d as nat, s as int),
        r.mant < 16777216,
        r.mant == 0 ==> r.exp == 0,
        r.mant > 0 ==> r.mant >= 8388608 && s - 47 <= r.exp <= s + 41,
        n > 0 ==> r.mant > 0,
{
    if n == 0 {
        return Single { mant: 0, exp: 0 };
    }
    proof {
        lemma2_to64();
        lemma2_to64_rest();
        let p0 = pow2(0);
        assert((n as nat) * p0 == n) by (nonlinear_arith)
            requires
                p0 == 1,
        ;
    }
    let mut a: u128 = n;
    let mut b: u128 = d;
    let mut t: i32 = 0;
    assert(scaled_up(n as nat, 0) == n);
    assert(scaled_down(d as nat, 0) == d);
    if n < d * 8388608 {
        while a < b * 8388608
            invariant
                0 <= t <= 47,
                0 < n < 0x1_0000_0000_0000_0000,
                0 < d < 16777216,
                b == d,
                a == scaled_up(n as nat, t as int),
                a < b * 16777216,
                pow2(t as nat) <= a,
                pow2(47) == 0x8000_0000_0000,
            decreases 47 - t,
        {
            proof {
                lemma_pow2_pos(t as nat);
                lemma_scaled_up_step(n as nat, t as int);
                assert(pow2(t as nat) < pow2(47));
                lemma_pow2_below(t as nat, 47);
                lemma_pow2_unfold((t + 1) as nat);
            }
            a = a * 2;
            t = t + 1;
        }
    } else {
        while a >= b * 16777216
            invariant
                -40 <= t <= 0,
                0 < n < 0x1_0000_0000_0000_0000,
                0 < d < 16777216,
                a == n,
                b == scaled_down(d as nat, t as int),
                a >= b * 8388608,
                pow2((-t) as nat) <= b,
                pow2(40) == 0x100_0000_0000,
            decreases 40 + t,
        {
            proof {
                lemma_pow2_pos((-t) as nat);
                lemma_scaled_down_step(d as nat, t as int);
                assert(pow2((-t) as nat) < pow2(40));
                lemma_pow2_below((-t) as nat, 40);
                lemma_pow2_unfold((1 - t) as nat);
            }
            b = b * 2;
            t = t - 1;
        }
    }
    assert(normal_at(n as nat, d as nat, t as int));
    proof {
        let tt = normal_shift(n as nat, d as nat);
        assert(normal_at(n as nat, d as nat, tt));
        lemma_normal_shift_unique(n as nat, d as nat, t as int, tt);
    }
    let q = a / b;
    let r = a % b;
    assert(8388608 <= q < 16777216) by (nonlinear_arith)
        requires
            q == a / b,
            b > 0,
            8388608 * b <= a < 16777216 * b,
    ;
    let m: u128 = if 2 * r > b || (2 * r == b && q % 2 == 1) {
        q + 1
    } else {
        q
    };
    if m == 16777216 {
        Single { mant: 8388608, exp: s - t + 1 }
    } else {
        Single { mant: m as u32, exp: s - t }
    }
}

/// A count converted to single precision.
pub fn single_from_count(n: u64) -> (r: Single)
    ensures
        r@ == single_from_int(n as nat),
        r.wf(),
        n > 0 ==> r.mant > 0,
        r.mant == 0 ==> r.exp == 0,
        r.mant > 0 ==> -47 <= r.exp <= 41,
{
    round_to_single(n as u128, 1, 0)
}

/// The single-precision quotient `x / y`.
pub fn single_divide(x: &Single, y: &Single) -> (r: Single)
    requires
        x.wf(),
        y.wf(),
        y.mant > 0,
        x.exp - y.exp <= 250,
        y.exp - x.exp <= 250,
    ensures
        r@ == single_quotient(x@, y@),
        r.wf(),
        r.mant == 0 ==> r.exp == 0,
        r.mant > 0 ==> x.exp - y.exp - 47 <= r.exp <= x.exp - y.exp + 41,
{
    round_to_single(x.mant as u128, y.mant as u128, x.exp - y.exp)
}

/// The single-precision product `x * y`.
pub fn single_multiply(x: &Single, y: &Single) -> (r: Single)
    requires
        x.wf(),
        y.wf(),
        -250 <= x.exp + y.exp <= 250,
    ensures
        r@ == single_product(x@, y@),
        r.wf(),
{
    let xm = x.mant as u128;
    let ym = y.mant as u128;
    assert(xm * ym < 0x1_0000_0000_0000_0000) by (nonlinear_arith)
        requires
            xm < 16777216,
            ym < 16777216,
    ;
    round_to_single(xm * ym, 1, x.exp + y.exp)
}

/// `2^k`.
fn pow2_exec(k: u32) -> (p: u128)
    requires
        k <= 64,
    ensures
        p == pow2(k as nat),
{
    proof {
        lemma2_to64();
    }
    let mut p: u128 = 1;
    let mut i: u32 = 0;
    while i < k
        invariant
            i <= k <= 64,
            p == pow2(i as nat),
            pow2(64) == 0x1_0000_0000_0000_0000,
        decreases k - i,
    {
        proof {
            lemma_pow2_unfold((i + 1) as nat);
            if i + 1 < 64 {
                lemma_pow2_strictly_increases((i + 1) as nat, 64);
            }
        }
        p = p * 2;
        i = i + 1;
    }
    p
}

/// The smallest integer at least `x`, as a `usize` (saturating).
pub fn single_ceil_saturating(x: &Single) -> (r: usize)
    requires
        x.wf(),
    ensures
        r == saturate(single_ceil(x@)),
{
    proof {
        lemma2_to64();
    }
    if x.exp >= 0 {
        if x.exp >= 64 {
            proof {
                let e = x.exp as nat;
                if e > 64 {
                    lemma_pow2_strictly_increases(64, e);
                }
                if x.mant == 0 {
                    assert(x.mant * pow2(e) == 0) by (nonlinear_arith)
                        requires
                            x.mant == 0,
                    ;
                } else {
                    let p = pow2(e);
                    assert(x.mant * p >= p) by (nonlinear_arith)
                        requires
                            x.mant >= 1,
                    ;
                }
            }
            if x.mant == 0 {
                0
            } else {
                usize::MAX
            }
        } else {
            let p = pow2_exec(x.exp as u32);
            proof {
                if x.exp < 64 {
                    lemma_pow2_strictly_increases(x.exp as nat, 64);
                }
            }
            let m = x.mant as u128;
            assert(m * p <= 16777216 * 0x1_0000_0000_0000_0000) by (nonlinear_arith)
                requires
                    m < 16777216,
                    p <= 0x1_0000_0000_0000_0000,
            ;
            proof {
                if x.exp < 64 {
                    lemma_pow2_strictly_increases(x.exp as nat, 64);
                }
            }
            let v = m * p;
            if v < usize::MAX as u128 {
                v as usize
            } else {
                usize::MAX
            }
        }
    } else {
        let k: i32 = -x.exp;
        if k >= 25 {
            proof {
                let p: int = pow2(k as nat) as int;
                lemma_pow2_strictly_increases(24, k as nat);
                if x.mant == 0 {
                    assert((p - 1) / p == 0) by (nonlinear_arith)
                        requires
                            p > 1,
                    ;
                } else {
                    let v: int = x.mant + p - 1;
                    assert(v / p == 1) by (nonlinear_arith)
                        requires
                            v == x.mant + p - 1,
                            1 <= x.mant < p,
                    ;
                }
            }
            if x.mant == 0 {
                0
            } else {
                1
            }
        } else {
            let p = pow2_exec(k as u32);
            proof {
                if k < 24 {
                    lemma_pow2_strictly_increases(k as nat, 24);
                }
            }
            let v = (x.mant as u128 + p - 1) / p;
            assert(v <= 16777216) by (nonlinear_arith)
                requires
                    v as int == (x.mant as int + p as int - 1) / (p as int),
                    x.mant < 16777216,
                    p >= 1,
            ;
            v as usize
        }
    }
}

} // verus!
