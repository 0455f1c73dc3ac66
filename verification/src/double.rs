//! Nonnegative IEEE 754 binary64 numbers, held as integers.
//!
//! A finite number is `mant * 2^exp`. All contracts speak of the number as a
//! multiple of the smallest positive one, `2^-1074`: every finite number is a
//! natural number of such units. Each operation returns the number nearest to
//! the exact result, ties going to the even mantissa.

use vstd::prelude::*;
use vstd::arithmetic::power2::*;
use vstd::arithmetic::div_mod::*;
use vstd::arithmetic::mul::*;

verus! {

/// A nonnegative binary64 number, infinity, or not-a-number.
#[derive(Clone, Copy, Debug, PartialEq, Eq, Structural)]
pub enum Double {
    /// `mant * 2^exp`.
    Finite { mant: u64, exp: i32 },
    /// Positive infinity.
    Infinity,
    /// Not a number.
    Nan,
}

/// Two to the power 52: the least mantissa of a normal number.
pub const MANT_MIN: u64 = 0x10_0000_0000_0000;

/// Two to the power 53: mantissas stay below this.
pub const MANT_END: u64 = 0x20_0000_0000_0000;

/// The exponent of the smallest positive number.
pub const EXP_MIN: i32 = -1074;

/// The largest exponent of a finite number.
pub const EXP_MAX: i32 = 971;

/// `n / d` rounded to the nearest integer, ties going to the even one.
pub open spec fn half_even(n: nat, d: nat) -> nat {
    let q = n / d;
    let r = n % d;
    if 2 * r < d {
        q
    } else if 2 * r > d {
        q + 1
    } else if q % 2 == 0 {
        q
    } else {
        q + 1
    }
}

/// The least `k` for which `n / d` is below `2^(53 + k)`.
pub open spec fn binade(n: nat, d: nat) -> nat
    decreases n - d,
{
    if d == 0 || n < d * MANT_END {
        0
    } else {
        1 + binade(n, 2 * d)
    }
}

/// How many units make one.
pub open spec fn one_units() -> nat {
    pow2(1074)
}

/// The number nearest to `n / d` units.
pub open spec fn nearest(n: nat, d: nat) -> Double {
    let k = binade(n, d);
    let m = half_even(n, d * pow2(k));
    let carried = m == MANT_END;
    let mant = if carried { MANT_MIN as nat } else { m };
    let place = if carried { k + 1 } else { k };
    if place > 2045 {
        Double::Infinity
    } else {
        Double::Finite { mant: mant as u64, exp: (place - 1074) as i32 }
    }
}

impl Double {
    /// The one form that each number has.
    pub open spec fn wf(self) -> bool {
        match self {
            Double::Finite { mant, exp } => {
                &&& mant < MANT_END
                &&& EXP_MIN <= exp <= EXP_MAX
                &&& mant >= MANT_MIN || exp == EXP_MIN
            },
            _ => true,
        }
    }

    /// The value in units, for a finite number.
    pub open spec fn units(self) -> nat {
        match self {
            Double::Finite { mant, exp } => mant as nat * pow2((exp + 1074) as nat),
            _ => 0,
        }
    }
}

proof fn lemma_half_even_scale(n: nat, d: nat, c: nat)
    requires
        d > 0,
        c > 0,
    ensures
        half_even(n * c, d * c) == half_even(n, d),
{
    let q = n / d;
    let r = n % d;
    lemma_fundamental_div_mod(n as int, d as int);
    assert(n * c == q * (d * c) + r * c) by (nonlinear_arith)
        requires
            n == d * q + r,
    ;
    assert(r * c < d * c) by (nonlinear_arith)
        requires
            r < d,
            c > 0,
    ;
    assert(r * c >= 0) by (nonlinear_arith);
    lemma_fundamental_div_mod_converse((n * c) as int, (d * c) as int, q as int, (r * c) as int);
    if 2 * r < d {
        assert(2 * (r * c) < d * c) by (nonlinear_arith)
            requires
                2 * r < d,
                c > 0,
        ;
    } else if 2 * r > d {
        assert(2 * (r * c) > d * c) by (nonlinear_arith)
            requires
                2 * r > d,
                c > 0,
        ;
    } else {
        assert(2 * (r * c) == d * c) by (nonlinear_arith)
            requires
                2 * r == d,
        ;
    }
}

proof fn lemma_binade_unique(n: nat, d: nat, k: nat)
    requires
        d > 0,
        n < d * pow2(k) * MANT_END,
        k == 0 || n >= d * pow2(k) * MANT_MIN,
    ensures
        binade(n, d) == k,
    decreases k,
{
    lemma2_to64();
    if k == 0 {
        assert(d * pow2(0) == d) by (nonlinear_arith)
            requires
                pow2(0) == 1,
        ;
    } else {
        let j = (k - 1) as nat;
        lemma_pow2_unfold(k);
        lemma_pow2_pos(j);
        let p = pow2(j);
        assert(d * pow2(k) == (2 * d) * p) by (nonlinear_arith)
            requires
                pow2(k) == 2 * p,
        ;
        assert(d * p >= d) by (nonlinear_arith)
            requires
                p >= 1,
        ;
        assert((2 * d) * p == 2 * (d * p)) by (nonlinear_arith);
        assert(n >= d * MANT_END);
        if j > 0 {
        } else {
            assert(p == 1);
        }
        lemma_binade_unique(n, 2 * d, j);
    }
}


/// `n / d` lies `up - down` binary places above `hi`, or between `hi` and
/// `hi + 1` when `sticky`.
pub open spec fn bracketed(n: nat, d: nat, hi: nat, up: nat, down: nat, sticky: bool) -> bool {
    let a = d * pow2(up);
    let m = n * pow2(down);
    &&& a * hi <= m < a * (hi + 1)
    &&& sticky <==> m != a * hi
}

proof fn lemma_place(d: nat, up: nat, down: nat, t: int, k: nat)
    requires
        k == up - down + t,
    ensures
        t >= 0 ==> (d * pow2(k)) * pow2(down) == (d * pow2(up)) * pow2(t as nat),
        t < 0 ==> ((d * pow2(k)) * pow2(down)) * pow2((-t) as nat) == d * pow2(up),
{
    lemma_pow2_adds(k, down);
    assert((d * pow2(k)) * pow2(down) == d * pow2(k + down)) by (nonlinear_arith)
        requires
            pow2(k + down) == pow2(k) * pow2(down),
    ;
    if t >= 0 {
        lemma_pow2_adds(up, t as nat);
        assert((d * pow2(up)) * pow2(t as nat) == d * pow2(up + t as nat)) by (nonlinear_arith)
            requires
                pow2(up + t as nat) == pow2(up) * pow2(t as nat),
        ;
        assert(k + down == up + t as nat);
    } else {
        let u = (-t) as nat;
        lemma_pow2_adds(k + down, u);
        assert((d * pow2(k + down)) * pow2(u) == d * pow2(k + down + u)) by (nonlinear_arith)
            requires
                pow2(k + down + u) == pow2(k + down) * pow2(u),
        ;
        assert(k + down + u == up);
    }
}

/// Rounding away `t` low bits of `hi`.
proof fn lemma_round_down_bits(
    n: nat,
    d: nat,
    hi: nat,
    up: nat,
    down: nat,
    sticky: bool,
    t: nat,
    k: nat,
    q: nat,
    r: nat,
)
    requires
        d > 0,
        bracketed(n, d, hi, up, down, sticky),
        t > 0,
        k == up - down + t,
        hi == q * pow2(t) + r,
        r < pow2(t),
        q < MANT_END,
        k == 0 || q >= MANT_MIN,
    ensures
        binade(n, d) == k,
        2 * r < pow2(t) ==> half_even(n, d * pow2(k)) == q,
        2 * r > pow2(t) ==> half_even(n, d * pow2(k)) == q + 1,
        2 * r == pow2(t) && sticky ==> half_even(n, d * pow2(k)) == q + 1,
        2 * r == pow2(t) && !sticky ==> half_even(n, d * pow2(k)) == q + q % 2,
{
    let a = d * pow2(up);
    let m = n * pow2(down);
    let p = pow2(t);
    let c = pow2(down);
    let dd = d * pow2(k);
    lemma_pow2_pos(up);
    lemma_pow2_pos(down);
    lemma_pow2_pos(t);
    lemma_pow2_pos(k);
    lemma_pow2_unfold(t);
    let h = pow2((t - 1) as nat);
    lemma_place(d, up, down, t as int, k);
    assert(a > 0) by (nonlinear_arith)
        requires
            d > 0,
            pow2(up) > 0,
            a == d * pow2(up),
    ;
    assert(dd > 0) by (nonlinear_arith)
        requires
            d > 0,
            pow2(k) > 0,
            dd == d * pow2(k),
    ;
    lemma_half_even_scale(n, dd, c);
    let s = (m - a * hi) as nat;
    assert(a * (hi + 1) == a * hi + a) by (nonlinear_arith);
    assert(s < a);
    let rem = a * r + s;
    assert(m == (a * p) * q + rem) by (nonlinear_arith)
        requires
            m == a * hi + s,
            hi == q * p + r,
            rem == a * r + s,
    ;
    assert(rem < a * p) by (nonlinear_arith)
        requires
            rem == a * r + s,
            s < a,
            r + 1 <= p,
    ;
    assert(a * p > 0) by (nonlinear_arith)
        requires
            a > 0,
            p > 0,
    ;
    assert((a * p) * q == q * (a * p)) by (nonlinear_arith);
    assert(rem >= 0) by (nonlinear_arith)
        requires
            rem == a * r + s,
    ;
    lemma_fundamental_div_mod_converse(m as int, (a * p) as int, q as int, rem as int);
    if 2 * r < p {
        assert(2 * rem < a * p) by (nonlinear_arith)
            requires
                rem == a * r + s,
                s < a,
                r + 1 <= h,
                p == 2 * h,
        ;
    } else if 2 * r > p {
        assert(2 * rem > a * p) by (nonlinear_arith)
            requires
                rem == a * r + s,
                r >= h + 1,
                p == 2 * h,
                a > 0,
        ;
    } else {
        assert(2 * rem == a * p + 2 * s) by (nonlinear_arith)
            requires
                rem == a * r + s,
                p == 2 * r,
        ;
    }
    // The place of the leading bit.
    assert(m < (a * p) * (q + 1)) by (nonlinear_arith)
        requires
            m == (a * p) * q + rem,
            rem < a * p,
    ;
    assert(n < dd * MANT_END) by {
        assert((a * p) * (q + 1) <= (a * p) * MANT_END) by (nonlinear_arith)
            requires
                q + 1 <= MANT_END,
                a * p > 0,
        ;
        if n >= dd * MANT_END {
            assert(n * c >= (dd * c) * MANT_END) by (nonlinear_arith)
                requires
                    n >= dd * MANT_END,
                    c > 0,
            ;
        }
    }
    if k > 0 {
        assert(n >= dd * MANT_MIN) by {
            assert((a * p) * q >= (a * p) * MANT_MIN) by (nonlinear_arith)
                requires
                    q >= MANT_MIN,
                    a * p > 0,
            ;
            if n < dd * MANT_MIN {
                assert(n * c < (dd * c) * MANT_MIN) by (nonlinear_arith)
                    requires
                        n < dd * MANT_MIN,
                        c > 0,
                ;
            }
        }
    }
    lemma_binade_unique(n, d, k);
}

/// Shifting an exact `hi` left by `u` bits.
proof fn lemma_round_up_bits(n: nat, d: nat, hi: nat, up: nat, down: nat, u: nat, k: nat)
    requires
        d > 0,
        bracketed(n, d, hi, up, down, false),
        k == up - down - u,
        hi * pow2(u) < MANT_END,
        k == 0 || hi * pow2(u) >= MANT_MIN,
    ensures
        binade(n, d) == k,
        half_even(n, d * pow2(k)) == hi * pow2(u),
{
    let q = hi * pow2(u);
    let c = pow2(down);
    let dd = d * pow2(k);
    lemma_pow2_pos(up);
    lemma_pow2_pos(down);
    lemma_pow2_pos(k);
    lemma_pow2_pos(u);
    assert(dd > 0) by (nonlinear_arith)
        requires
            d > 0,
            pow2(k) > 0,
            dd == d * pow2(k),
    ;
    if u > 0 {
        lemma_place(d, up, down, -(u as int), k);
    } else {
        lemma_place(d, up, down, 0, k);
        lemma2_to64();
        assert((d * pow2(up)) * pow2(0) == d * pow2(up)) by (nonlinear_arith)
            requires
                pow2(0) == 1,
        ;
        assert((dd * c) * pow2(0) == dd * c) by (nonlinear_arith)
            requires
                pow2(0) == 1,
        ;
    }
    assert(n * c == ((dd * c) * pow2(u)) * hi);
    assert(n == dd * q) by (nonlinear_arith)
        requires
            n * c == ((dd * c) * pow2(u)) * hi,
            q == hi * pow2(u),
            c > 0,
    ;
    assert(q * dd == dd * q) by (nonlinear_arith);
    lemma_fundamental_div_mod_converse(n as int, dd as int, q as int, 0);
    assert(n < dd * MANT_END) by (nonlinear_arith)
        requires
            n == dd * q,
            q < MANT_END,
            dd > 0,
    ;
    if k > 0 {
        assert(n >= dd * MANT_MIN) by (nonlinear_arith)
            requires
                n == dd * q,
                q >= MANT_MIN,
                dd > 0,
        ;
    }
    lemma_binade_unique(n, d, k);
}

proof fn lemma_pow2_le(a: nat, b: nat)
    requires
        a <= b,
    ensures
        pow2(a) <= pow2(b),
{
    if a < b {
        lemma_pow2_strictly_increases(a, b);
    }
}

proof fn lemma_shift_is_pow2(t: u32)
    requires
        t < 128,
    ensures
        (1u128 << t) == pow2(t as nat),
    decreases t,
{
    if t == 0 {
        lemma2_to64();
        assert((1u128 << 0u32) == 1) by (bit_vector);
    } else {
        let s = (t - 1) as u32;
        lemma_shift_is_pow2(s);
        lemma_pow2_unfold(t as nat);
        assert((1u128 << t) == 2 * (1u128 << s)) by (bit_vector)
            requires
                t == s + 1,
                t < 128,
        ;
    }
}

/// Two to the power `t`.
fn power_of_two(t: u32) -> (p: u128)
    requires
        t < 128,
    ensures
        p == pow2(t as nat),
        p > 0,
{
    proof {
        lemma_shift_is_pow2(t);
        lemma_pow2_pos(t as nat);
    }
    1u128 << t
}

/// The number of bits of `x` up to its highest set one.
fn bit_length(x: u128) -> (l: u32)
    ensures
        l <= 128,
        x < pow2(l as nat),
        l == 0 <==> x == 0,
        l > 0 ==> x >= pow2((l - 1) as nat),
{
    let mut v: u128 = x;
    let mut l: u32 = 0;
    proof {
        lemma2_to64();
        lemma2_to64_rest();
        lemma_shift_is_pow2(127);
        lemma_pow2_unfold(128);
        assert((1u128 << 127u32) == 0x8000_0000_0000_0000_0000_0000_0000_0000u128) by (bit_vector);
        assert(v * pow2(0) == v) by (nonlinear_arith)
            requires
                pow2(0) == 1,
        ;
        assert((v + 1) * pow2(0) == v + 1) by (nonlinear_arith)
            requires
                pow2(0) == 1,
        ;
    }
    while v >= 0x1_0000
        invariant
            v * pow2(l as nat) <= x < (v + 1) * pow2(l as nat),
            v > 0 || x == 0,
            l == 0 ==> v == x,
            l <= 128,
            pow2(128) == 0x1_0000_0000_0000_0000_0000_0000_0000_0000,
            l > 0 ==> v > 0 && x >= pow2((l - 1) as nat),
        decreases v,
    {
        let w: u128 = v / 0x1_0000;
        proof {
            let p = pow2(l as nat);
            lemma_pow2_pos(l as nat);
            lemma_pow2_adds(l as nat, 16);
            lemma2_to64();
            assert(v * p >= 0x1_0000 * p) by (nonlinear_arith)
                requires
                    v >= 0x1_0000,
                    p > 0,
            ;
            if l + 16 > 128 {
                lemma_pow2_le(128, (l + 16) as nat);
                assert(false);
            }
            assert(w * (p * 0x1_0000) <= v * p) by (nonlinear_arith)
                requires
                    w * 0x1_0000 <= v,
                    p > 0,
            ;
            assert((w + 1) * (p * 0x1_0000) >= (v + 1) * p) by (nonlinear_arith)
                requires
                    (w + 1) * 0x1_0000 >= v + 1,
                    p > 0,
            ;
            lemma_pow2_le((l + 15) as nat, (l + 16) as nat);
        }
        v = w;
        l = l + 16;
    }
    while v > 0
        invariant
            v * pow2(l as nat) <= x < (v + 1) * pow2(l as nat),
            l <= 128,
            pow2(128) == 0x1_0000_0000_0000_0000_0000_0000_0000_0000,
            l == 0 ==> v == x,
            l > 0 ==> x >= pow2((l - 1) as nat),
        decreases v,
    {
        let w: u128 = v / 2;
        proof {
            let p = pow2(l as nat);
            lemma_pow2_pos(l as nat);
            lemma_pow2_unfold((l + 1) as nat);
            assert(v * p >= p) by (nonlinear_arith)
                requires
                    v >= 1,
                    p > 0,
            ;
            if l + 1 > 128 {
                assert(false);
            }
            assert(w * (2 * p) <= v * p) by (nonlinear_arith)
                requires
                    w * 2 <= v,
                    p > 0,
            ;
            assert((w + 1) * (2 * p) >= (v + 1) * p) by (nonlinear_arith)
                requires
                    (w + 1) * 2 >= v + 1,
                    p > 0,
            ;
        }
        v = w;
        l = l + 1;
    }
    proof {
        assert((0 + 1) * pow2(l as nat) == pow2(l as nat)) by (nonlinear_arith);
        if l > 0 {
            lemma_pow2_pos((l - 1) as nat);
        }
    }
    l
}

/// The binary places of a number scaled by `2^e`, as a factor of its units.
pub open spec fn places_up(e: int) -> nat {
    if e + 1074 >= 0 {
        (e + 1074) as nat
    } else {
        0
    }
}

/// The binary places that a number scaled by `2^e` has below one unit.
pub open spec fn places_down(e: int) -> nat {
    if e + 1074 >= 0 {
        0
    } else {
        (-(e + 1074)) as nat
    }
}

/// Rounds `hi * 2^e`, or a number strictly between that and
/// `(hi + 1) * 2^e` when `sticky`.
fn pack(hi: u128, e: i32, sticky: bool, Ghost(n): Ghost<nat>, Ghost(d): Ghost<nat>) -> (r: Double)
    requires
        d > 0,
        -4000 <= e <= 4000,
        hi < 0x8000_0000_0000_0000_0000_0000_0000_0000,
        sticky ==> hi >= 0x40_0000_0000_0000,
        bracketed(n, d, hi as nat, places_up(e as int), places_down(e as int), sticky),
    ensures
        r == nearest(n, d),
        r.wf(),
{
    let l = bit_length(hi);
    let ghost up = places_up(e as int);
    let ghost down = places_down(e as int);
    proof {
        lemma2_to64();
        lemma2_to64_rest();
        lemma_shift_is_pow2(127);
        assert((1u128 << 127u32) == 0x8000_0000_0000_0000_0000_0000_0000_0000u128) by (bit_vector);
        if l >= 128 {
            lemma_pow2_le(127, (l - 1) as nat);
        }
        if sticky && l < 55 {
            lemma_pow2_le(l as nat, 54);
        }
    }
    let by_length: i32 = l as i32 - 53;
    let by_exp: i32 = -1074 - e;
    let t: i32 = if by_length >= by_exp {
        by_length
    } else {
        by_exp
    };
    let ghost k = (e + t + 1074) as nat;
    let mut q: u64 = 0;
    if t <= 0 {
        let u: u32 = (-t) as u32;
        let p = power_of_two(u);
        proof {
            lemma_pow2_adds(l as nat, u as nat);
            lemma_pow2_le((l + u) as nat, 53);
            assert(hi * p < pow2(l as nat) * p) by (nonlinear_arith)
                requires
                    hi < pow2(l as nat),
                    p > 0,
            ;
            if k > 0 {
                assert(l + u == 53);
                if l > 0 {
                    lemma_pow2_adds((l - 1) as nat, u as nat);
                    assert(hi * p >= pow2((l - 1) as nat) * p) by (nonlinear_arith)
                        requires
                            hi >= pow2((l - 1) as nat),
                            p > 0,
                    ;
                } else {
                    // No bits at all: the number is zero and lies at the lowest place.
                    assert(hi == 0);
                }
            }
            if hi == 0 {
                lemma_zero(n, d, up, down);
            } else {
                lemma_round_up_bits(n, d, hi as nat, up, down, u as nat, k);
            }
        }
        if hi == 0 {
            return Double::Finite { mant: 0, exp: EXP_MIN };
        }
        q = (hi * p) as u64;
    } else if t >= 128 {
        proof {
            lemma_pow2_le(127, (t - 1) as nat);
            lemma_pow2_unfold(t as nat);
            assert(0 * pow2(t as nat) == 0) by (nonlinear_arith);
            lemma_round_down_bits(
                n,
                d,
                hi as nat,
                up,
                down,
                sticky,
                t as nat,
                k,
                0,
                hi as nat,
            );
        }
    } else {
        let p = power_of_two(t as u32);
        let q0: u128 = hi / p;
        let r0: u128 = hi % p;
        let half: u128 = p / 2;
        proof {
            lemma_pow2_unfold(t as nat);
            lemma_fundamental_div_mod(hi as int, p as int);
            assert(p * q0 == q0 * p) by (nonlinear_arith);
            // q0 has at most 53 bits.
            lemma_pow2_adds(53, t as nat);
            lemma_pow2_le(l as nat, (53 + t) as nat);
            assert(q0 < MANT_END) by (nonlinear_arith)
                requires
                    q0 * p <= hi,
                    hi < MANT_END * p,
                    p > 0,
            ;
            if k > 0 {
                assert(l == 53 + t);
                lemma_pow2_adds(52, t as nat);
                assert((q0 + 1) * p == q0 * p + p) by (nonlinear_arith);
                assert(q0 >= MANT_MIN) by (nonlinear_arith)
                    requires
                        (q0 + 1) * p > hi,
                        hi >= MANT_MIN * p,
                        p > 0,
                {
                    if q0 + 1 <= MANT_MIN {
                        assert((q0 + 1) * p <= MANT_MIN * p);
                    }
                }
            }
            lemma_round_down_bits(
                n,
                d,
                hi as nat,
                up,
                down,
                sticky,
                t as nat,
                k,
                q0 as nat,
                r0 as nat,
            );
        }
        let round_up: bool = r0 > half || (r0 == half && (sticky || q0 % 2 == 1));
        q = if round_up {
            q0 as u64 + 1
        } else {
            q0 as u64
        };
    }
    let carried: bool = q == MANT_END;
    let mant: u64 = if carried {
        MANT_MIN
    } else {
        q
    };
    let exp: i32 = if carried {
        e + t + 1
    } else {
        e + t
    };
    if exp > EXP_MAX {
        Double::Infinity
    } else {
        Double::Finite { mant, exp }
    }
}

proof fn lemma_zero(n: nat, d: nat, up: nat, down: nat)
    requires
        d > 0,
        bracketed(n, d, 0, up, down, false),
    ensures
        n == 0,
        nearest(n, d) == (Double::Finite { mant: 0, exp: EXP_MIN }),
{
    lemma_pow2_pos(down);
    assert(n == 0) by (nonlinear_arith)
        requires
            n * pow2(down) == (d * pow2(up)) * 0,
            pow2(down) > 0,
    ;
    lemma2_to64();
    assert(d * pow2(0) == d) by (nonlinear_arith)
        requires
            pow2(0) == 1,
    ;
    assert(binade(0, d) == 0);
    lemma_fundamental_div_mod_converse(0, d as int, 0, 0);
}

// ── the operations, as numbers ──────────────────────────────────────────────

/// Zero.
pub open spec fn zero() -> Double {
    Double::Finite { mant: 0, exp: EXP_MIN }
}

/// The number nearest to the integer `n`.
#[verifier::opaque]
pub open spec fn of_int(n: nat) -> Double {
    nearest(n * one_units(), 1)
}

/// The rounded sum of two numbers.
#[verifier::opaque]
pub open spec fn sum_of(x: Double, y: Double) -> Double {
    if x is Nan || y is Nan {
        Double::Nan
    } else if x is Infinity || y is Infinity {
        Double::Infinity
    } else {
        nearest(x.units() + y.units(), 1)
    }
}

/// The rounded difference of a number and one that is not larger.
#[verifier::opaque]
pub open spec fn difference_of(x: Double, y: Double) -> Double {
    if x is Nan || y is Nan || y is Infinity {
        Double::Nan
    } else if x is Infinity {
        Double::Infinity
    } else {
        nearest((x.units() - y.units()) as nat, 1)
    }
}

/// The rounded product of two numbers.
#[verifier::opaque]
pub open spec fn product_of(x: Double, y: Double) -> Double {
    if x is Nan || y is Nan {
        Double::Nan
    } else if x is Infinity || y is Infinity {
        if x == zero() || y == zero() {
            Double::Nan
        } else {
            Double::Infinity
        }
    } else {
        nearest(x.units() * y.units(), one_units())
    }
}

/// The rounded quotient of two numbers.
#[verifier::opaque]
pub open spec fn quotient_of(x: Double, y: Double) -> Double {
    if x is Nan || y is Nan {
        Double::Nan
    } else if x is Infinity {
        if y is Infinity {
            Double::Nan
        } else {
            Double::Infinity
        }
    } else if y is Infinity {
        zero()
    } else if y == zero() {
        if x == zero() {
            Double::Nan
        } else {
            Double::Infinity
        }
    } else {
        nearest(x.units() * one_units(), y.units())
    }
}

/// Whether `x < y`.
#[verifier::opaque]
pub open spec fn less(x: Double, y: Double) -> bool {
    if x is Nan || y is Nan || x is Infinity {
        false
    } else if y is Infinity {
        true
    } else {
        x.units() < y.units()
    }
}

/// Whether `x <= y`.
pub open spec fn at_most(x: Double, y: Double) -> bool {
    !(x is Nan) && !(y is Nan) && !less(y, x)
}

/// The smaller of two numbers, or the other one where one is not a number.
pub open spec fn smaller(x: Double, y: Double) -> Double {
    if x is Nan {
        y
    } else if y is Nan {
        x
    } else if less(y, x) {
        y
    } else {
        x
    }
}

/// The larger of two numbers, or the other one where one is not a number.
pub open spec fn larger(x: Double, y: Double) -> Double {
    if x is Nan {
        y
    } else if y is Nan {
        x
    } else if less(x, y) {
        y
    } else {
        x
    }
}

/// The integer nearest to `x`, halves going up, at most `i32::MAX`.
#[verifier::opaque]
pub open spec fn rounded(x: Double) -> i32 {
    match x {
        Double::Nan => 0,
        Double::Infinity => i32::MAX,
        Double::Finite { .. } => {
            let v = (2 * x.units() + one_units()) / (2 * one_units());
            if v > i32::MAX {
                i32::MAX
            } else {
                v as i32
            }
        },
    }
}

/// The integer part of `x`, at most `u64::MAX`.
#[verifier::opaque]
pub open spec fn truncated(x: Double) -> u64 {
    match x {
        Double::Nan => 0,
        Double::Infinity => u64::MAX,
        Double::Finite { .. } => {
            let v = x.units() / one_units();
            if v > u64::MAX {
                u64::MAX
            } else {
                v as u64
            }
        },
    }
}

proof fn lemma_pow2_split(a: nat, b: nat, m: nat)
    ensures
        m * pow2(a + b) == (m * pow2(a)) * pow2(b),
{
    lemma_pow2_adds(a, b);
    assert(m * (pow2(a) * pow2(b)) == (m * pow2(a)) * pow2(b)) by (nonlinear_arith);
}

/// The order of two numbers of the canonical form, by their parts.
proof fn lemma_order(x: Double, y: Double)
    requires
        x.wf(),
        y.wf(),
        x is Finite,
        y is Finite,
        x->exp < y->exp,
    ensures
        x.units() < y.units(),
{
    let a = (x->exp + 1074) as nat;
    let b = (y->exp + 1074) as nat;
    lemma_pow2_le(a + 1, b);
    lemma_pow2_unfold(a + 1);
    lemma_pow2_pos(a);
    assert(x->mant as nat * pow2(a) < MANT_END as nat * pow2(a)) by (nonlinear_arith)
        requires
            (x->mant as nat) < MANT_END as nat,
            pow2(a) > 0,
    ;
    assert(MANT_MIN as nat * pow2(b) >= MANT_MIN as nat * (2 * pow2(a))) by (nonlinear_arith)
        requires
            pow2(b) >= 2 * pow2(a),
    ;
    assert(y->mant as nat * pow2(b) >= MANT_MIN as nat * pow2(b)) by (nonlinear_arith)
        requires
            y->mant as nat >= MANT_MIN as nat,
            pow2(b) > 0,
    ;
}

impl Double {
    /// Zero.
    pub fn zero() -> (r: Double)
        ensures
            r == zero(),
            r.wf(),
    {
        Double::Finite { mant: 0, exp: EXP_MIN }
    }

    /// The number nearest to an integer.
    pub fn of(n: u64) -> (r: Double)
        ensures
            r == of_int(n as nat),
            r.wf(),
    {
        Double::of_wide(n as u128)
    }

    /// The number nearest to a wide integer.
    pub fn of_wide(n: u128) -> (r: Double)
        requires
            n < 0x8000_0000_0000_0000_0000_0000_0000_0000,
        ensures
            r == of_int(n as nat),
            r.wf(),
    {
        reveal(of_int);
        proof {
            let p = pow2(1074);
            lemma2_to64();
            assert(1 * p == p);
            assert((n * p) * pow2(0) == n * p) by (nonlinear_arith)
                requires
                    pow2(0) == 1,
            ;
            assert(p * n == n * p) by (nonlinear_arith);
            assert(p * (n + 1) == n * p + p) by (nonlinear_arith);
            lemma_pow2_pos(1074);
        }
        pack(n, 0, false, Ghost(n as nat * one_units()), Ghost(1))
    }

    /// The rounded sum.
    pub fn plus(self, other: Double) -> (r: Double)
        requires
            self.wf(),
            other.wf(),
        ensures
            r == sum_of(self, other),
            r.wf(),
    {
        reveal(sum_of);
        match self {
            Double::Nan => Double::Nan,
            Double::Infinity => match other {
                Double::Nan => Double::Nan,
                _ => Double::Infinity,
            },
            Double::Finite { mant: a, exp: ea } => match other {
                Double::Nan => Double::Nan,
                Double::Infinity => Double::Infinity,
                Double::Finite { mant: b, exp: eb } => {
                    if ea >= eb {
                        plus_ordered(a, ea, b, eb)
                    } else {
                        plus_ordered(b, eb, a, ea)
                    }
                },
            },
        }
    }
}

fn plus_ordered(a: u64, ea: i32, b: u64, eb: i32) -> (r: Double)
    requires
        a < MANT_END,
        b < MANT_END,
        EXP_MIN <= eb <= ea <= EXP_MAX,
        a >= MANT_MIN || ea == EXP_MIN,
    ensures
        r == nearest(
            a as nat * pow2((ea + 1074) as nat) + b as nat * pow2((eb + 1074) as nat),
            1,
        ),
        r.wf(),
{
    let ghost n = a as nat * pow2((ea + 1074) as nat) + b as nat * pow2((eb + 1074) as nat);
    let gap: u32 = (ea - eb) as u32;
    if gap <= 70 {
        let p = power_of_two(gap);
        proof {
            lemma_shift_is_pow2(70);
            assert((1u128 << 70u32) == 0x40_0000_0000_0000_0000u128) by (bit_vector);
            lemma_pow2_le(gap as nat, 70);
            assert(a as nat * p <= (MANT_END as nat) * 0x40_0000_0000_0000_0000) by (nonlinear_arith)
                requires
                    a <= MANT_END,
                    p <= 0x40_0000_0000_0000_0000,
            ;
            let u = (eb + 1074) as nat;
            lemma_pow2_split(gap as nat, u, a as nat);
            lemma_pow2_pos(u);
            lemma2_to64();
            let hi = a as nat * p + b as nat;
            assert(hi * pow2(u) == n) by (nonlinear_arith)
                requires
                    hi == a as nat * p + b as nat,
                    n == (a as nat * p as nat) * pow2(u) + b as nat * pow2(u),
            ;
            assert(pow2(u) * hi == hi * pow2(u)) by (nonlinear_arith);
            assert(pow2(u) * (hi + 1) == hi * pow2(u) + pow2(u)) by (nonlinear_arith);
            assert(n * pow2(0) == n) by (nonlinear_arith)
                requires
                    pow2(0) == 1,
            ;
        }
        pack(a as u128 * p + b as u128, eb, false, Ghost(n), Ghost(1))
    } else {
        proof {
            let u = (ea - 10 + 1074) as nat;
            lemma_pow2_split(10, u, a as nat);
            lemma2_to64();
            lemma2_to64_rest();
            lemma_pow2_pos(u);
            let low = b as nat * pow2((eb + 1074) as nat);
            lemma_pow2_pos((eb + 1074) as nat);
            assert(low < pow2(u)) by {
                lemma_pow2_adds(53, (eb + 1074) as nat);
                lemma_pow2_le((53 + eb + 1074) as nat, u);
                assert(low < MANT_END as nat * pow2((eb + 1074) as nat)) by (nonlinear_arith)
                    requires
                        low == b as nat * pow2((eb + 1074) as nat),
                        b < MANT_END,
                        pow2((eb + 1074) as nat) > 0,
                ;
            }
            let hi = a as nat * 1024;
            assert(pow2(u) * hi == hi * pow2(u)) by (nonlinear_arith);
            assert(pow2(u) * (hi + 1) == hi * pow2(u) + pow2(u)) by (nonlinear_arith);
            assert(n * pow2(0) == n) by (nonlinear_arith)
                requires
                    pow2(0) == 1,
            ;
            assert(low == 0 <==> b == 0) by (nonlinear_arith)
                requires
                    low == b as nat * pow2((eb + 1074) as nat),
                    pow2((eb + 1074) as nat) > 0,
            ;
        }
        pack(a as u128 * 1024, ea - 10, b != 0, Ghost(n), Ghost(1))
    }
}

fn minus_ordered(a: u64, ea: i32, b: u64, eb: i32) -> (r: Double)
    requires
        a < MANT_END,
        b < MANT_END,
        EXP_MIN <= eb <= ea <= EXP_MAX,
        a >= MANT_MIN || ea == EXP_MIN,
        b as nat * pow2((eb + 1074) as nat) <= a as nat * pow2((ea + 1074) as nat),
    ensures
        r == nearest(
            (a as nat * pow2((ea + 1074) as nat) - b as nat * pow2((eb + 1074) as nat)) as nat,
            1,
        ),
        r.wf(),
{
    let ghost n = (a as nat * pow2((ea + 1074) as nat) - b as nat * pow2(
        (eb + 1074) as nat,
    )) as nat;
    let gap: u32 = (ea - eb) as u32;
    if gap <= 70 {
        let p = power_of_two(gap);
        proof {
            lemma_shift_is_pow2(70);
            assert((1u128 << 70u32) == 0x40_0000_0000_0000_0000u128) by (bit_vector);
            lemma_pow2_le(gap as nat, 70);
            assert(a as nat * p <= (MANT_END as nat) * 0x40_0000_0000_0000_0000) by (nonlinear_arith)
                requires
                    a <= MANT_END,
                    p <= 0x40_0000_0000_0000_0000,
            ;
            let u = (eb + 1074) as nat;
            lemma_pow2_split(gap as nat, u, a as nat);
            lemma_pow2_pos(u);
            lemma2_to64();
            assert(a as nat * p >= b as nat) by (nonlinear_arith)
                requires
                    (a as nat * p as nat) * pow2(u) >= b as nat * pow2(u),
                    pow2(u) > 0,
            ;
            let hi = (a as nat * p - b as nat) as nat;
            assert(hi * pow2(u) == n) by (nonlinear_arith)
                requires
                    hi == a as nat * p - b as nat,
                    n == (a as nat * p as nat) * pow2(u) - b as nat * pow2(u),
            ;
            assert(pow2(u) * hi == hi * pow2(u)) by (nonlinear_arith);
            assert(pow2(u) * (hi + 1) == hi * pow2(u) + pow2(u)) by (nonlinear_arith);
            assert(n * pow2(0) == n) by (nonlinear_arith)
                requires
                    pow2(0) == 1,
            ;
        }
        pack(a as u128 * p - b as u128, eb, false, Ghost(n), Ghost(1))
    } else {
        proof {
            let u = (ea - 10 + 1074) as nat;
            lemma_pow2_split(10, u, a as nat);
            lemma2_to64();
            lemma2_to64_rest();
            lemma_pow2_pos(u);
            let low = b as nat * pow2((eb + 1074) as nat);
            lemma_pow2_pos((eb + 1074) as nat);
            assert(low < pow2(u)) by {
                lemma_pow2_adds(53, (eb + 1074) as nat);
                lemma_pow2_le((53 + eb + 1074) as nat, u);
                assert(low < MANT_END as nat * pow2((eb + 1074) as nat)) by (nonlinear_arith)
                    requires
                        low == b as nat * pow2((eb + 1074) as nat),
                        b < MANT_END,
                        pow2((eb + 1074) as nat) > 0,
                ;
            }
            let hi = a as nat * 1024;
            assert(pow2(u) * hi == hi * pow2(u)) by (nonlinear_arith);
            assert(pow2(u) * (hi + 1) == hi * pow2(u) + pow2(u)) by (nonlinear_arith);
            assert(pow2(u) * (hi - 1) == hi * pow2(u) - pow2(u)) by (nonlinear_arith);
            assert(n * pow2(0) == n) by (nonlinear_arith)
                requires
                    pow2(0) == 1,
            ;
            assert(low == 0 <==> b == 0) by (nonlinear_arith)
                requires
                    low == b as nat * pow2((eb + 1074) as nat),
                    pow2((eb + 1074) as nat) > 0,
            ;
        }
        if b == 0 {
            pack(a as u128 * 1024, ea - 10, false, Ghost(n), Ghost(1))
        } else {
            pack(a as u128 * 1024 - 1, ea - 10, true, Ghost(n), Ghost(1))
        }
    }
}

/// `(x / y)` bracketed by a quotient of scaled mantissas.
proof fn lemma_quotient_bracket(a: nat, b: nat, p: nat, hi: nat, c: nat, n: nat, d: nat)
    requires
        b > 0,
        c > 0,
        hi == (a * p) / b,
        n == (a * p) * c,
        d == b * c,
    ensures
        d * hi <= n < d * (hi + 1),
        n == d * hi <==> (a * p) % b == 0,
{
    let num = a * p;
    let r = num % b;
    lemma_fundamental_div_mod(num as int, b as int);
    assert(d * hi + r * c == n) by (nonlinear_arith)
        requires
            num == b * hi + r,
            n == num * c,
            d == b * c,
    ;
    assert(d * (hi + 1) == d * hi + d) by (nonlinear_arith);
    assert(r * c < d) by (nonlinear_arith)
        requires
            r < b,
            c > 0,
            d == b * c,
    ;
    assert(r * c == 0 <==> r == 0) by (nonlinear_arith)
        requires
            c > 0,
    ;
    assert(r * c >= 0) by (nonlinear_arith);
}

fn over_finite(a: u64, ea: i32, b: u64, eb: i32) -> (r: Double)
    requires
        0 < a < MANT_END,
        0 < b < MANT_END,
        EXP_MIN <= ea <= EXP_MAX,
        EXP_MIN <= eb <= EXP_MAX,
    ensures
        r == nearest(
            (a as nat * pow2((ea + 1074) as nat)) * one_units(),
            b as nat * pow2((eb + 1074) as nat),
        ),
        r.wf(),
{
    let l = bit_length(a as u128);
    proof {
        lemma2_to64();
        lemma2_to64_rest();
        if l > 53 {
            lemma_pow2_le(53, (l - 1) as nat);
        }
    }
    let s: u32 = 53 - l;
    let p = power_of_two(s + 74);
    let ghost n = (a as nat * pow2((ea + 1074) as nat)) * one_units();
    let ghost d = b as nat * pow2((eb + 1074) as nat);
    let ghost an = a as nat;
    let ghost pn = p as nat;
    proof {
        lemma_shift_is_pow2(127);
        assert((1u128 << 127u32) == 0x8000_0000_0000_0000_0000_0000_0000_0000u128) by (bit_vector);
        lemma_shift_is_pow2(126);
        assert((1u128 << 126u32) == 0x4000_0000_0000_0000_0000_0000_0000_0000u128) by (bit_vector);
        lemma_pow2_adds(l as nat, (s + 74) as nat);
        lemma_pow2_adds((l - 1) as nat, (s + 74) as nat);
        assert(an * pn < pow2(l as nat) * pn) by (nonlinear_arith)
            requires
                an < pow2(l as nat),
                pn > 0,
        ;
        assert(an * pn >= pow2((l - 1) as nat) * pn) by (nonlinear_arith)
            requires
                an >= pow2((l - 1) as nat),
                pn > 0,
        ;
    }
    let num: u128 = a as u128 * p;
    let hi: u128 = num / (b as u128);
    let rest: u128 = num % (b as u128);
    let e: i32 = ea - s as i32 - eb - 74;
    proof {
        let bn = b as nat;
        let up = places_up(e as int);
        let down = places_down(e as int);
        lemma_fundamental_div_mod(num as int, b as int);
        assert(hi >= 0x40_0000_0000_0000) by (nonlinear_arith)
            requires
                num == b * hi + rest,
                rest < b,
                b < 0x20_0000_0000_0000,
                num >= 0x4000_0000_0000_0000_0000_0000_0000_0000,
        {
            if hi < 0x40_0000_0000_0000 {
                assert(b * hi <= 0x20_0000_0000_0000 * 0x40_0000_0000_0000);
            }
        }
        assert(hi <= num) by (nonlinear_arith)
            requires
                num == b * hi + rest,
                b >= 1,
                rest >= 0,
        ;
        // The power of two common to both sides.
        let w = (up + eb + 1074) as nat;
        lemma_pow2_adds((ea + 1074) as nat, 1074);
        let z = ((ea + 1074) + 1074 + down) as nat;
        lemma_pow2_adds(((ea + 1074) + 1074) as nat, down);
        assert(n * pow2(down) == an * pow2(z)) by (nonlinear_arith)
            requires
                n == (an * pow2((ea + 1074) as nat)) * one_units(),
                pow2(((ea + 1074) + 1074) as nat) == pow2((ea + 1074) as nat) * one_units(),
                pow2(z) == pow2(((ea + 1074) + 1074) as nat) * pow2(down),
        ;
        assert(z == (s + 74) + w);
        lemma_pow2_split((s + 74) as nat, w, an);
        lemma_pow2_pos(w);
        lemma_pow2_adds((eb + 1074) as nat, up);
        assert(d * pow2(up) == bn * pow2(w)) by (nonlinear_arith)
            requires
                d == bn * pow2((eb + 1074) as nat),
                pow2(w) == pow2((eb + 1074) as nat) * pow2(up),
        ;
        lemma_quotient_bracket(
            an,
            bn,
            pn,
            hi as nat,
            pow2(w),
            n * pow2(down),
            d * pow2(up),
        );
        lemma_pow2_pos((eb + 1074) as nat);
        assert(d > 0) by (nonlinear_arith)
            requires
                d == bn * pow2((eb + 1074) as nat),
                bn > 0,
                pow2((eb + 1074) as nat) > 0,
        ;
    }
    pack(hi, e, rest != 0, Ghost(n), Ghost(d))
}

fn times_finite(a: u64, ea: i32, b: u64, eb: i32) -> (r: Double)
    requires
        a < MANT_END,
        b < MANT_END,
        EXP_MIN <= ea <= EXP_MAX,
        EXP_MIN <= eb <= EXP_MAX,
    ensures
        r == nearest(
            (a as nat * pow2((ea + 1074) as nat)) * (b as nat * pow2((eb + 1074) as nat)),
            one_units(),
        ),
        r.wf(),
{
    let ghost n = (a as nat * pow2((ea + 1074) as nat)) * (b as nat * pow2((eb + 1074) as nat));
    let ghost d = one_units();
    let e: i32 = ea + eb;
    proof {
        assert(a as nat * b as nat <= 0x20_0000_0000_0000 * 0x20_0000_0000_0000) by (nonlinear_arith)
            requires
                a <= 0x20_0000_0000_0000,
                b <= 0x20_0000_0000_0000,
        ;
        let up = places_up(e as int);
        let down = places_down(e as int);
        let hi = a as nat * b as nat;
        let x = (ea + 1074) as nat;
        let y = (eb + 1074) as nat;
        lemma_pow2_adds(x, y);
        lemma_pow2_adds(x + y, down);
        lemma_pow2_adds(1074, up);
        assert(x + y + down == 1074 + up);
        let w = pow2(1074 + up);
        lemma_pow2_pos(1074 + up);
        lemma_pow2_pos(1074);
        assert(n * pow2(down) == hi * w) by (nonlinear_arith)
            requires
                n == (a as nat * pow2(x)) * (b as nat * pow2(y)),
                hi == a as nat * b as nat,
                pow2(x + y) == pow2(x) * pow2(y),
                w == pow2(x + y) * pow2(down),
        ;
        assert(d * pow2(up) == w);
        assert(w * hi == hi * w) by (nonlinear_arith);
        assert(w * (hi + 1) == hi * w + w) by (nonlinear_arith);
    }
    pack(a as u128 * b as u128, e, false, Ghost(n), Ghost(d))
}

impl Double {
    /// The rounded difference with a number that is not larger.
    pub fn minus(self, other: Double) -> (r: Double)
        requires
            self.wf(),
            other.wf(),
            at_most(other, self) || self is Nan || other is Nan,
        ensures
            r == difference_of(self, other),
            r.wf(),
    {
        reveal(difference_of);
        reveal(less);
        match self {
            Double::Nan => Double::Nan,
            Double::Infinity => match other {
                Double::Finite { .. } => Double::Infinity,
                _ => Double::Nan,
            },
            Double::Finite { mant: a, exp: ea } => match other {
                Double::Finite { mant: b, exp: eb } => {
                    proof {
                        if ea < eb {
                            lemma_order(self, other);
                        }
                    }
                    minus_ordered(a, ea, b, eb)
                },
                _ => Double::Nan,
            },
        }
    }

    /// The rounded product.
    pub fn times(self, other: Double) -> (r: Double)
        requires
            self.wf(),
            other.wf(),
        ensures
            r == product_of(self, other),
            r.wf(),
    {
        reveal(product_of);
        match self {
            Double::Nan => Double::Nan,
            Double::Infinity => match other {
                Double::Nan => Double::Nan,
                Double::Infinity => Double::Infinity,
                Double::Finite { mant, .. } => if mant == 0 {
                    Double::Nan
                } else {
                    Double::Infinity
                },
            },
            Double::Finite { mant: a, exp: ea } => match other {
                Double::Nan => Double::Nan,
                Double::Infinity => if a == 0 {
                    Double::Nan
                } else {
                    Double::Infinity
                },
                Double::Finite { mant: b, exp: eb } => times_finite(a, ea, b, eb),
            },
        }
    }

    /// The rounded quotient.
    pub fn over(self, other: Double) -> (r: Double)
        requires
            self.wf(),
            other.wf(),
        ensures
            r == quotient_of(self, other),
            r.wf(),
    {
        reveal(quotient_of);
        match self {
            Double::Nan => Double::Nan,
            Double::Infinity => match other {
                Double::Finite { .. } => Double::Infinity,
                _ => Double::Nan,
            },
            Double::Finite { mant: a, exp: ea } => match other {
                Double::Nan => Double::Nan,
                Double::Infinity => Double::zero(),
                Double::Finite { mant: b, exp: eb } => {
                    if b == 0 {
                        if a == 0 {
                            Double::Nan
                        } else {
                            Double::Infinity
                        }
                    } else if a == 0 {
                        proof {
                            let d = other.units();
                            lemma_pow2_pos((eb + 1074) as nat);
                            assert(d > 0) by (nonlinear_arith)
                                requires
                                    d == b as nat * pow2((eb + 1074) as nat),
                                    b > 0,
                                    pow2((eb + 1074) as nat) > 0,
                            ;
                            lemma_zero_over(self, d);
                        }
                        Double::zero()
                    } else {
                        over_finite(a, ea, b, eb)
                    }
                },
            },
        }
    }

    /// Whether this number is below another.
    pub fn lt(self, other: Double) -> (r: bool)
        requires
            self.wf(),
            other.wf(),
        ensures
            r == less(self, other),
    {
        reveal(less);
        match self {
            Double::Finite { mant: a, exp: ea } => match other {
                Double::Finite { mant: b, exp: eb } => {
                    proof {
                        if ea < eb {
                            lemma_order(self, other);
                        } else if eb < ea {
                            lemma_order(other, self);
                        } else {
                            let p = pow2((ea + 1074) as nat);
                            lemma_pow2_pos((ea + 1074) as nat);
                            assert(a as nat * p < b as nat * p <==> a < b) by (nonlinear_arith)
                                requires
                                    p > 0,
                            ;
                        }
                    }
                    ea < eb || (ea == eb && a < b)
                },
                Double::Infinity => true,
                Double::Nan => false,
            },
            _ => false,
        }
    }

    /// Whether this number is at most another.
    pub fn le(self, other: Double) -> (r: bool)
        requires
            self.wf(),
            other.wf(),
        ensures
            r == at_most(self, other),
    {
        match (self, other) {
            (Double::Nan, _) => false,
            (_, Double::Nan) => false,
            _ => !other.lt(self),
        }
    }

    /// The smaller of two numbers.
    pub fn min(self, other: Double) -> (r: Double)
        requires
            self.wf(),
            other.wf(),
        ensures
            r == smaller(self, other),
            r.wf(),
    {
        match (self, other) {
            (Double::Nan, _) => other,
            (_, Double::Nan) => self,
            _ => if other.lt(self) {
                other
            } else {
                self
            },
        }
    }

    /// The larger of two numbers.
    pub fn max(self, other: Double) -> (r: Double)
        requires
            self.wf(),
            other.wf(),
        ensures
            r == larger(self, other),
            r.wf(),
    {
        match (self, other) {
            (Double::Nan, _) => other,
            (_, Double::Nan) => self,
            _ => if self.lt(other) {
                other
            } else {
                self
            },
        }
    }
}

proof fn lemma_zero_over(x: Double, d: nat)
    requires
        x is Finite,
        x->mant == 0,
        d > 0,
    ensures
        nearest(x.units() * one_units(), d) == zero(),
{
    lemma2_to64();
    assert(x.units() == 0) by (nonlinear_arith)
        requires
            x.units() == 0 * pow2((x->exp + 1074) as nat),
    ;
    assert(x.units() * one_units() == 0) by (nonlinear_arith)
        requires
            x.units() == 0,
    ;
    assert(0 * pow2(0) == 0);
    assert((d * pow2(0)) * 0 == 0) by (nonlinear_arith);
    assert((d * pow2(0)) * (0 + 1) > 0) by (nonlinear_arith)
        requires
            d > 0,
            pow2(0) == 1,
    ;
    lemma_zero(0, d, 0, 0);
}

// ── conversions ─────────────────────────────────────────────────────────────

proof fn lemma_below_one(s: nat, m: nat)
    requires
        s <= 1074,
    ensures
        m * pow2((1074 - s) as nat) == pow2((1074 - s) as nat) * m,
        one_units() == pow2((1074 - s) as nat) * pow2(s),
        pow2((1074 - s) as nat) > 0,
        pow2(s) > 0,
{
    lemma_pow2_adds((1074 - s) as nat, s);
    lemma_pow2_pos((1074 - s) as nat);
    lemma_pow2_pos(s);
    assert(m * pow2((1074 - s) as nat) == pow2((1074 - s) as nat) * m) by (nonlinear_arith);
}

/// How many of a `scale`-th part a number is, rounded half to even.
#[verifier::opaque]
pub open spec fn parts_of(x: Double, scale: nat) -> nat {
    half_even(x.units() * scale, one_units())
}

/// Whether `x` is at most `2^j`.
pub open spec fn within(x: Double, j: nat) -> bool {
    x is Finite && x.units() <= pow2(1074 + j)
}

impl Double {
    /// The nearest integer, halves going up.
    pub fn round(self) -> (r: i32)
        requires
            self.wf(),
        ensures
            r == rounded(self),
    {
        reveal(rounded);
        match self {
            Double::Nan => 0,
            Double::Infinity => i32::MAX,
            Double::Finite { mant, exp } => {
                let ghost c = pow2((exp + 1074) as nat);
                if exp >= 0 {
                    proof {
                        let one = one_units();
                        lemma_pow2_pos(1074);
                        lemma_pow2_le(1074, (exp + 1074) as nat);
                        assert(mant as nat * c >= MANT_MIN as nat * one) by (nonlinear_arith)
                            requires
                                mant >= MANT_MIN,
                                c >= one,
                        ;
                        lemma_div_multiples_vanish(MANT_MIN as int, (2 * one) as int);
                        assert((2 * one) * MANT_MIN as nat == MANT_MIN as nat * one * 2)
                            by (nonlinear_arith);
                        lemma_div_is_ordered(
                            ((2 * one) * MANT_MIN as nat) as int,
                            (2 * self.units() + one) as int,
                            (2 * one) as int,
                        );
                    }
                    return i32::MAX;
                }
                let s: u32 = (-exp) as u32;
                proof {
                    lemma_below_one(s as nat, mant as nat);
                    lemma_pow2_unfold((s + 1) as nat);
                    lemma_pow2_unfold(s as nat);
                    let m = mant as nat;
                    let p = pow2(s as nat);
                    assert(2 * (c * m) + c * p == c * (2 * m + p)) by (nonlinear_arith);
                    assert(2 * (c * p) == c * (2 * p)) by (nonlinear_arith);
                    lemma_div_multiples_vanish_quotient(
                        c as int,
                        (2 * m + p) as int,
                        (2 * p) as int,
                    );
                    let h = pow2((s - 1) as nat);
                    assert(2 * m + p == 2 * (m + h));
                    lemma_div_multiples_vanish_quotient(2, (m + h) as int, p as int);
                }
                if s > 54 {
                    proof {
                        lemma2_to64();
                        lemma2_to64_rest();
                        lemma_pow2_le(54, (s - 1) as nat);
                        lemma_basic_div(
                            (mant + pow2((s - 1) as nat)) as int,
                            pow2(s as nat) as int,
                        );
                    }
                    return 0;
                }
                let p = power_of_two(s);
                let h = power_of_two(s - 1);
                proof {
                    lemma2_to64();
                    lemma2_to64_rest();
                    lemma_pow2_le((s - 1) as nat, 54);
                }
                let v: u128 = (mant as u128 + h) / p;
                if v > i32::MAX as u128 {
                    i32::MAX
                } else {
                    v as i32
                }
            },
        }
    }

    /// The integer part.
    pub fn trunc(self) -> (r: u64)
        requires
            self.wf(),
        ensures
            r == truncated(self),
    {
        reveal(truncated);
        match self {
            Double::Nan => 0,
            Double::Infinity => u64::MAX,
            Double::Finite { mant, exp } => {
                if exp >= 0 {
                    let e: u32 = exp as u32;
                    proof {
                        lemma_pow2_pos(1074);
                        lemma_pow2_split(e as nat, 1074, mant as nat);
                        assert((mant as nat * pow2(e as nat)) * one_units() == one_units() * (
                        mant as nat * pow2(e as nat))) by (nonlinear_arith);
                        lemma_div_multiples_vanish(
                            (mant as nat * pow2(e as nat)) as int,
                            one_units() as int,
                        );
                        lemma2_to64();
                        lemma2_to64_rest();
                    }
                    if e > 11 {
                        proof {
                            lemma_pow2_le(12, e as nat);
                            assert(mant as nat * pow2(e as nat) >= MANT_MIN as nat * 4096)
                                by (nonlinear_arith)
                                requires
                                    mant >= MANT_MIN,
                                    pow2(e as nat) >= 4096,
                            ;
                        }
                        return u64::MAX;
                    }
                    let p = power_of_two(e);
                    proof {
                        lemma_pow2_le(e as nat, 11);
                        assert(mant as nat * p <= MANT_END as nat * 2048) by (nonlinear_arith)
                            requires
                                mant <= MANT_END,
                                p <= 2048,
                        ;
                    }
                    let v: u128 = mant as u128 * p;
                    if v > u64::MAX as u128 {
                        u64::MAX
                    } else {
                        v as u64
                    }
                } else {
                    let s: u32 = (-exp) as u32;
                    proof {
                        lemma_below_one(s as nat, mant as nat);
                        lemma_div_multiples_vanish_quotient(
                            pow2((exp + 1074) as nat) as int,
                            mant as int,
                            pow2(s as nat) as int,
                        );
                    }
                    if s > 64 {
                        proof {
                            lemma2_to64();
                            lemma_pow2_le(64, s as nat);
                            lemma_basic_div(mant as int, pow2(s as nat) as int);
                        }
                        return 0;
                    }
                    let p = power_of_two(s);
                    proof {
                        assert((mant as u128) / p <= mant) by (nonlinear_arith)
                            requires
                                p > 0,
                        ;
                    }
                    ((mant as u128) / p) as u64
                }
            },
        }
    }

    /// How many of a `scale`-th part this number is, rounded half to even.
    pub fn parts(self, scale: u64) -> (r: u128)
        requires
            self.wf(),
            within(self, 100),
            0 < scale <= 1000,
        ensures
            r == parts_of(self, scale as nat),
    {
        reveal(parts_of);
        match self {
            Double::Nan => 0,
            Double::Infinity => 0,
            Double::Finite { mant, exp } => {
                let ghost m = mant as nat;
                let ghost sc = scale as nat;
                if exp >= 0 {
                    let e: u32 = exp as u32;
                    proof {
                        let one = one_units();
                        lemma_pow2_pos(1074);
                        lemma_pow2_split(e as nat, 1074, m);
                        lemma_pow2_adds(1074, 100);
                        let v = m * pow2(e as nat);
                        assert(v <= pow2(100)) by (nonlinear_arith)
                            requires
                                v * one <= one * pow2(100),
                                one > 0,
                        ;
                        lemma_shift_is_pow2(100);
                        assert((1u128 << 100u32) == 0x10_0000_0000_0000_0000_0000_0000u128)
                            by (bit_vector);
                        if e >= 49 {
                            lemma_pow2_le(49, e as nat);
                            lemma2_to64();
                            lemma2_to64_rest();
                            assert(v >= MANT_MIN as nat * pow2(49)) by (nonlinear_arith)
                                requires
                                    v == m * pow2(e as nat),
                                    m >= MANT_MIN,
                                    pow2(e as nat) >= pow2(49),
                            ;
                        }
                        assert(v * sc <= 0x10_0000_0000_0000_0000_0000_0000 * 1000)
                            by (nonlinear_arith)
                            requires
                                v <= 0x10_0000_0000_0000_0000_0000_0000,
                                sc <= 1000,
                        ;
                        assert(self.units() * sc == (v * sc) * one) by (nonlinear_arith)
                            requires
                                self.units() == v * one,
                        ;
                        lemma_fundamental_div_mod_converse(
                            ((v * sc) * one) as int,
                            one as int,
                            (v * sc) as int,
                            0,
                        );
                    }
                    let p = power_of_two(e);
                    return mant as u128 * p * scale as u128;
                }
                let s: u32 = (-exp) as u32;
                proof {
                    assert(m * sc <= 0x20_0000_0000_0000 * 1000) by (nonlinear_arith)
                        requires
                            m <= 0x20_0000_0000_0000,
                            sc <= 1000,
                    ;
                }
                let num: u128 = mant as u128 * scale as u128;
                proof {
                    lemma_below_one(s as nat, m);
                    let c = pow2((exp + 1074) as nat);
                    let p = pow2(s as nat);
                    assert((m * c) * sc == (m * sc) * c) by (nonlinear_arith);
                    assert(c * p == p * c) by (nonlinear_arith);
                    lemma_half_even_scale(m * sc, p, c);
                }
                if s > 100 {
                    proof {
                        lemma_shift_is_pow2(100);
                        assert((1u128 << 100u32) == 0x10_0000_0000_0000_0000_0000_0000u128)
                            by (bit_vector);
                        lemma_pow2_le(100, s as nat);
                        lemma_small_mod((m * sc) as nat, pow2(s as nat));
                        lemma_basic_div((m * sc) as int, pow2(s as nat) as int);
                    }
                    return 0;
                }
                let p = power_of_two(s);
                proof {
                    lemma_pow2_unfold(s as nat);
                }
                let q: u128 = num / p;
                let r: u128 = num % p;
                let half: u128 = p / 2;
                proof {
                    assert(q <= num) by (nonlinear_arith)
                        requires
                            p > 0,
                            q == num / p,
                    ;
                }
                if r < half {
                    q
                } else if r > half {
                    q + 1
                } else if q % 2 == 0 {
                    q
                } else {
                    q + 1
                }
            },
        }
    }
}

// ── bounds ──────────────────────────────────────────────────────────────────

proof fn lemma_binade_bounds(n: nat, d: nat)
    requires
        d > 0,
    ensures
        n < d * pow2(binade(n, d)) * MANT_END,
        binade(n, d) == 0 || n >= d * pow2(binade(n, d)) * MANT_MIN,
    decreases n - d,
{
    lemma2_to64();
    if n < d * MANT_END {
        assert(d * pow2(0) == d) by (nonlinear_arith)
            requires
                pow2(0) == 1,
        ;
    } else {
        let j = binade(n, 2 * d);
        lemma_binade_bounds(n, 2 * d);
        lemma_pow2_unfold(j + 1);
        let p = pow2(j);
        assert(d * pow2(j + 1) == (2 * d) * p) by (nonlinear_arith)
            requires
                pow2(j + 1) == 2 * p,
        ;
        if j == 0 {
            assert((2 * d) * p == 2 * d) by (nonlinear_arith)
                requires
                    p == 1,
            ;
        }
    }
}

/// A quotient that is at most a power of two stays so when rounded.
pub proof fn lemma_nearest_at_most(n: nat, d: nat, j: nat)
    requires
        d > 0,
        n <= d * pow2(j),
        j <= 2097,
    ensures
        nearest(n, d) is Finite,
        nearest(n, d).units() <= pow2(j),
        nearest(n, d).wf(),
{
    let k = binade(n, d);
    let dd = d * pow2(k);
    let m = half_even(n, dd);
    lemma_binade_bounds(n, d);
    lemma_pow2_pos(k);
    lemma_pow2_pos(j);
    lemma2_to64();
    lemma2_to64_rest();
    assert(dd > 0) by (nonlinear_arith)
        requires
            dd == d * pow2(k),
            d > 0,
            pow2(k) > 0,
    ;
    lemma_fundamental_div_mod(n as int, dd as int);
    let q = n / dd;
    if k > 0 {
        assert(k + 52 <= j) by {
            if k + 52 > j {
                lemma_pow2_le(j, (k + 52) as nat);
                lemma_pow2_adds(k, 52);
                assert(n >= d * pow2((k + 52) as nat)) by (nonlinear_arith)
                    requires
                        n >= (d * pow2(k)) * MANT_MIN,
                        pow2((k + 52) as nat) == pow2(k) * MANT_MIN,
                ;
                assert(d * pow2(j) <= d * pow2((k + 52) as nat)) by (nonlinear_arith)
                    requires
                        pow2(j) <= pow2((k + 52) as nat),
                ;
                // The bound is attained: then n is exactly the power of two.
                lemma_pow2_strictly(j, (k + 52) as nat);
                assert(d * pow2(j) < d * pow2((k + 52) as nat)) by (nonlinear_arith)
                    requires
                        pow2(j) < pow2((k + 52) as nat),
                        d > 0,
                ;
            }
        }
    }
    assert(k <= j);
    let g = (j - k) as nat;
    lemma_pow2_adds(k, g);
    lemma_pow2_pos(g);
    assert(n <= dd * pow2(g)) by (nonlinear_arith)
        requires
            n <= d * pow2(j),
            pow2(j) == pow2(k) * pow2(g),
            dd == d * pow2(k),
    ;
    let r = n % dd;
    assert(q <= pow2(g)) by (nonlinear_arith)
        requires
            n == dd * q + r,
            r >= 0,
            n <= dd * pow2(g),
            dd > 0,
    ;
    if q == pow2(g) {
        assert(r == 0) by (nonlinear_arith)
            requires
                n == dd * q + r,
                r >= 0,
                n <= dd * pow2(g),
                q == pow2(g),
        ;
    }
    assert(m <= pow2(g));
    assert(m * pow2(k) <= pow2(j)) by (nonlinear_arith)
        requires
            m <= pow2(g),
            pow2(j) == pow2(k) * pow2(g),
    ;
    assert(q < MANT_END) by (nonlinear_arith)
        requires
            n == dd * q + r,
            r >= 0,
            n < dd * MANT_END,
            dd > 0,
    ;
    if k > 0 {
        assert(q >= MANT_MIN) by (nonlinear_arith)
            requires
                n == dd * q + r,
                r < dd,
                n >= dd * MANT_MIN,
                dd > 0,
        {
            if q + 1 <= MANT_MIN {
                assert(dd * (q + 1) <= dd * MANT_MIN);
                assert(dd * (q + 1) == dd * q + dd);
            }
        }
    }
    if m == MANT_END {
        lemma_pow2_unfold(k + 1);
        assert(MANT_MIN as nat * pow2(k + 1) == MANT_END as nat * pow2(k)) by (nonlinear_arith)
            requires
                pow2(k + 1) == 2 * pow2(k),
        ;
        if k == 0 {
            // A carry at the lowest place still fits below the bound.
            assert(k + 1 <= 2045);
        } else {
            if k + 53 > j {
                lemma_pow2_adds(k, 53);
                lemma_pow2_strictly(j, (k + 53) as nat);
                assert(m * pow2(k) == pow2((k + 53) as nat)) by (nonlinear_arith)
                    requires
                        m == MANT_END,
                        pow2((k + 53) as nat) == pow2(k) * MANT_END,
                ;
            }
        }
    }
}

proof fn lemma_pow2_strictly(a: nat, b: nat)
    requires
        a < b,
    ensures
        pow2(a) < pow2(b),
{
    lemma_pow2_strictly_increases(a, b);
}

/// A quotient that is at least a power of two stays so when rounded.
pub proof fn lemma_nearest_at_least(n: nat, d: nat, j: nat)
    requires
        d > 0,
        n >= d * pow2(j),
    ensures
        nearest(n, d) is Infinity || nearest(n, d).units() >= pow2(j),
{
    let k = binade(n, d);
    let dd = d * pow2(k);
    let m = half_even(n, dd);
    lemma_binade_bounds(n, d);
    lemma_pow2_pos(k);
    lemma_pow2_pos(j);
    lemma2_to64();
    lemma2_to64_rest();
    assert(dd > 0) by (nonlinear_arith)
        requires
            dd == d * pow2(k),
            d > 0,
            pow2(k) > 0,
    ;
    lemma_fundamental_div_mod(n as int, dd as int);
    let q = n / dd;
    let r = n % dd;
    assert(q < MANT_END) by (nonlinear_arith)
        requires
            n == dd * q + r,
            r >= 0,
            n < dd * MANT_END,
            dd > 0,
    ;
    if m == MANT_END {
        lemma_pow2_unfold(k + 1);
        assert(MANT_MIN as nat * pow2(k + 1) == MANT_END as nat * pow2(k)) by (nonlinear_arith)
            requires
                pow2(k + 1) == 2 * pow2(k),
        ;
    }
    assert(m * pow2(k) >= pow2(j)) by {
        if j <= k {
            lemma_pow2_le(j, k);
            if k == 0 {
                assert(m >= 1) by {
                    assert(n >= dd) by (nonlinear_arith)
                        requires
                            n >= d * pow2(j),
                            dd == d * pow2(k),
                            j == k,
                    ;
                    assert(q >= 1) by (nonlinear_arith)
                        requires
                            n == dd * q + r,
                            r < dd,
                            n >= dd,
                    ;
                }
            } else {
                assert(q >= 1) by (nonlinear_arith)
                    requires
                        n == dd * q + r,
                        r < dd,
                        n >= dd * MANT_MIN,
                        dd > 0,
                ;
            }
            assert(m * pow2(k) >= pow2(k)) by (nonlinear_arith)
                requires
                    m >= 1,
            ;
        } else {
            let g = (j - k) as nat;
            lemma_pow2_adds(k, g);
            assert(n >= dd * pow2(g)) by (nonlinear_arith)
                requires
                    n >= d * pow2(j),
                    pow2(j) == pow2(k) * pow2(g),
                    dd == d * pow2(k),
            ;
            assert(q >= pow2(g)) by (nonlinear_arith)
                requires
                    n == dd * q + r,
                    r < dd,
                    n >= dd * pow2(g),
                    dd > 0,
            {
                if q + 1 <= pow2(g) {
                    assert(dd * (q + 1) <= dd * pow2(g));
                    assert(dd * (q + 1) == dd * q + dd);
                }
            }
            assert(m * pow2(k) >= pow2(j)) by (nonlinear_arith)
                requires
                    m >= pow2(g),
                    pow2(j) == pow2(k) * pow2(g),
            ;
        }
    }
}

/// Whether `x` is at least `2^-i`.
pub open spec fn beyond(x: Double, i: nat) -> bool {
    x is Infinity || (x is Finite && x.units() * pow2(i) >= one_units())
}

/// An integer of 64 bits is at most `2^64`, and at least one unless it is zero.
pub proof fn lemma_of_within(n: u64)
    ensures
        within(of_int(n as nat), 64),
        of_int(n as nat).wf(),
        n > 0 ==> beyond(of_int(n as nat), 0),
{
    reveal(of_int);
    lemma2_to64();
    lemma_pow2_adds(1074, 64);
    let one = one_units();
    assert(n as nat * one <= 1 * pow2(1074 + 64)) by (nonlinear_arith)
        requires
            n <= 0x1_0000_0000_0000_0000,
            pow2(1074 + 64) == one * 0x1_0000_0000_0000_0000,
    ;
    lemma_nearest_at_most(n as nat * one, 1, 1074 + 64);
    if n > 0 {
        assert(n as nat * one >= 1 * one) by (nonlinear_arith)
            requires
                n >= 1,
        ;
        lemma_nearest_at_least(n as nat * one, 1, 1074);
        let u = of_int(n as nat).units();
        assert(u * pow2(0) == u) by (nonlinear_arith)
            requires
                pow2(0) == 1,
        ;
    }
}

/// The sum of two numbers that are at most `2^j`.
pub proof fn lemma_sum_within(x: Double, y: Double, j: nat)
    requires
        within(x, j),
        within(y, j),
        j <= 1000,
    ensures
        within(sum_of(x, y), j + 1),
        sum_of(x, y).wf(),
{
    reveal(sum_of);
    lemma_pow2_unfold(1074 + j + 1);
    lemma_nearest_at_most(x.units() + y.units(), 1, 1074 + j + 1);
}

/// The product of numbers that are at most `2^i` and `2^j`.
pub proof fn lemma_product_within(x: Double, y: Double, i: nat, j: nat)
    requires
        within(x, i),
        within(y, j),
        i + j <= 1000,
    ensures
        within(product_of(x, y), i + j),
        product_of(x, y).wf(),
{
    reveal(product_of);
    lemma_pow2_pos(1074);
    lemma_pow2_adds(1074 + i, 1074 + j);
    lemma_pow2_adds(1074, 1074 + i + j);
    let a = pow2(1074 + i);
    let b = pow2(1074 + j);
    assert(x.units() * y.units() <= a * b) by (nonlinear_arith)
        requires
            x.units() <= a,
            y.units() <= b,
    ;
    lemma_nearest_at_most(x.units() * y.units(), one_units(), 1074 + i + j);
}

/// The quotient of a number at most `2^j` by one at least `2^-i`.
pub proof fn lemma_quotient_within(x: Double, y: Double, j: nat, i: nat)
    requires
        within(x, j),
        y.wf(),
        beyond(y, i),
        i + j <= 1000,
    ensures
        within(quotient_of(x, y), i + j),
        quotient_of(x, y).wf(),
{
    reveal(quotient_of);
    lemma_pow2_pos(1074);
    lemma_pow2_pos(1074 + i + j);
    lemma_pow2_pos(i);
    if y is Infinity {
        assert(0 * pow2(0) == 0) by (nonlinear_arith);
        assert(zero().units() == 0) by (nonlinear_arith)
            requires
                zero().units() == 0 * pow2(0),
        ;
    } else {
        let a = pow2(1074 + j);
        let one = one_units();
        let uy = y.units();
        lemma_pow2_adds(1074 + j, i);
        assert(uy > 0) by (nonlinear_arith)
            requires
                uy * pow2(i) >= one,
                one > 0,
        ;
        if y == zero() {
            assert(0 * pow2(0) == 0) by (nonlinear_arith);
        }
        assert(x.units() * one <= uy * pow2(1074 + j + i)) by (nonlinear_arith)
            requires
                x.units() <= a,
                one <= uy * pow2(i),
                pow2(1074 + j + i) == a * pow2(i),
        {
            assert(x.units() * one <= a * (uy * pow2(i)));
            assert(a * (uy * pow2(i)) == uy * (a * pow2(i)));
        }
        lemma_nearest_at_most(x.units() * one, uy, 1074 + j + i);
    }
}

/// A number at most `2^i` is at most every higher power.
pub proof fn lemma_within_weaken(x: Double, i: nat, j: nat)
    requires
        within(x, i),
        i <= j,
    ensures
        within(x, j),
{
    lemma_pow2_le(1074 + i, 1074 + j);
}

/// A number below one that is at most `2^j`.
pub proof fn lemma_less_within(x: Double, y: Double, j: nat)
    requires
        less(x, y),
        within(y, j),
    ensures
        within(x, j),
{
    reveal(less);
}

/// The quotient of a number at least one by one at most `2^j`.
pub proof fn lemma_quotient_beyond(x: Double, y: Double, j: nat)
    requires
        x is Finite,
        x.units() >= one_units(),
        y.wf(),
        within(y, j),
        y.units() > 0,
        j <= 1000,
    ensures
        beyond(quotient_of(x, y), j),
{
    reveal(quotient_of);
    lemma_pow2_pos(1074);
    let one = one_units();
    let uy = y.units();
    let g = (1074 - j) as nat;
    lemma_pow2_adds(g, j);
    lemma_pow2_adds(1074 + j, g);
    lemma_pow2_adds(1074, 1074);
    lemma_pow2_pos(g);
    if y == zero() {
        assert(0 * pow2(0) == 0) by (nonlinear_arith);
    }
    if x == zero() {
        assert(0 * pow2(0) == 0) by (nonlinear_arith);
    }
    assert(x.units() * one >= uy * pow2(g)) by (nonlinear_arith)
        requires
            x.units() >= one,
            uy <= pow2(1074 + j),
            pow2(1074 + j + g) == pow2(1074 + j) * pow2(g),
            pow2(1074 + j + g) == one * one,
            pow2(g) > 0,
    {
        assert(uy * pow2(g) <= pow2(1074 + j) * pow2(g));
        assert(x.units() * one >= one * one);
    }
    lemma_nearest_at_least(x.units() * one, uy, g);
    let v = quotient_of(x, y);
    if v is Finite {
        assert(v.units() * pow2(j) >= pow2(g) * pow2(j)) by (nonlinear_arith)
            requires
                v.units() >= pow2(g),
        ;
    }
}

/// The number that `bits` encodes in the binary64 interchange format.
pub open spec fn decoded(bits: u64) -> Double {
    let e = bits / MANT_MIN;
    let f = bits % MANT_MIN;
    if e == 2047 {
        if f == 0 {
            Double::Infinity
        } else {
            Double::Nan
        }
    } else if e == 0 {
        Double::Finite { mant: f, exp: EXP_MIN }
    } else {
        Double::Finite { mant: (f + MANT_MIN) as u64, exp: (e - 1075) as i32 }
    }
}

impl Double {
    /// Reads the binary64 interchange format of a number without a sign.
    pub fn from_bits(bits: u64) -> (r: Double)
        requires
            bits < 0x8000_0000_0000_0000,
        ensures
            r == decoded(bits),
            r.wf(),
    {
        let e: u64 = bits / MANT_MIN;
        let f: u64 = bits % MANT_MIN;
        if e == 2047 {
            if f == 0 {
                Double::Infinity
            } else {
                Double::Nan
            }
        } else if e == 0 {
            Double::Finite { mant: f, exp: EXP_MIN }
        } else {
            Double::Finite { mant: f + MANT_MIN, exp: e as i32 - 1075 }
        }
    }
}

/// The binary64 interchange format of `x`.
pub open spec fn code(x: Double) -> u64 {
    match x {
        Double::Finite { mant, exp } => {
            if mant < MANT_MIN {
                mant
            } else {
                ((exp + 1074) * MANT_MIN + mant) as u64
            }
        },
        Double::Infinity => 0x7ff0_0000_0000_0000,
        Double::Nan => 0x7ff8_0000_0000_0000,
    }
}

impl Double {
    /// The binary64 interchange format of this number.
    pub fn to_bits(self) -> (r: u64)
        requires
            self.wf(),
        ensures
            r == code(self),
    {
        match self {
            Double::Finite { mant, exp } => {
                if mant < MANT_MIN {
                    mant
                } else {
                    (exp + 1074) as u64 * MANT_MIN + mant
                }
            },
            Double::Infinity => 0x7ff0_0000_0000_0000,
            Double::Nan => 0x7ff8_0000_0000_0000,
        }
    }
}

/// The encodings of numbers are ordered as the numbers are.
pub proof fn lemma_code_order(x: Double, y: Double)
    requires
        x.wf(),
        y.wf(),
        !(x is Nan),
        !(y is Nan),
    ensures
        less(x, y) <==> code(x) < code(y),
        x == y <==> code(x) == code(y),
{
    reveal(less);
    if let Double::Finite { mant: a, exp: ea } = x {
        if let Double::Finite { mant: b, exp: eb } = y {
            if ea < eb {
                lemma_order(x, y);
            } else if eb < ea {
                lemma_order(y, x);
            } else {
                let p = pow2((ea + 1074) as nat);
                lemma_pow2_pos((ea + 1074) as nat);
                assert(a as nat * p < b as nat * p <==> a < b) by (nonlinear_arith)
                    requires
                        p > 0,
                ;
            }
        }
    }
}

/// Reading an encoding gives back the number.
pub proof fn encoding_is_undone(x: Double)
    requires
        x.wf(),
    ensures
        decoded(code(x)) == x,
{
    if let Double::Finite { mant, exp } = x {
        if mant >= MANT_MIN {
            let e = exp + 1075;
            let f = mant - MANT_MIN;
            lemma_fundamental_div_mod_converse(code(x) as int, MANT_MIN as int, e, f);
        }
    }
}

/// Rounding never goes below zero.
pub proof fn lemma_rounded_nonnegative(x: Double)
    ensures
        rounded(x) >= 0,
{
    reveal(rounded);
    let one = one_units();
    lemma_pow2_pos(1074);
    lemma_div_pos_is_pos((2 * x.units() + one) as int, (2 * one) as int);
}

proof fn lemma_half_even_monotone(n1: nat, n2: nat, d: nat)
    requires
        n1 <= n2,
        d > 0,
    ensures
        half_even(n1, d) <= half_even(n2, d),
{
    lemma_fundamental_div_mod(n1 as int, d as int);
    lemma_fundamental_div_mod(n2 as int, d as int);
    lemma_div_is_ordered(n1 as int, n2 as int, d as int);
    let q1 = n1 / d;
    let q2 = n2 / d;
    if q1 == q2 {
        assert(d * q1 == d * q2);
        assert(n1 % d <= n2 % d);
    }
}

/// A quotient rounds to a number whose mantissa is `half_even` of it at its
/// binade.
proof fn lemma_nearest_units(n: nat, d: nat)
    requires
        d > 0,
    ensures
        ({
            let k = binade(n, d);
            let m = half_even(n, d * pow2(k));
            &&& m <= MANT_END
            &&& k > 0 ==> m >= MANT_MIN
            &&& nearest(n, d) is Finite ==> nearest(n, d).units() == m * pow2(k)
            &&& nearest(n, d) is Infinity <==> k > 2045 || (k == 2045 && m == MANT_END)
            &&& !(nearest(n, d) is Nan)
        }),
{
    let k = binade(n, d);
    let c = d * pow2(k);
    lemma_binade_bounds(n, d);
    lemma_pow2_pos(k);
    assert(c > 0) by (nonlinear_arith)
        requires
            d > 0,
            pow2(k) > 0,
            c == d * pow2(k),
    ;
    let q = n / c;
    lemma_fundamental_div_mod(n as int, c as int);
    assert(q < MANT_END) by (nonlinear_arith)
        requires
            n == c * q + n % c,
            n < c * MANT_END,
            n % c >= 0,
            c > 0,
    ;
    if k > 0 {
        assert(q >= MANT_MIN) by (nonlinear_arith)
            requires
                n == c * q + n % c,
                n >= c * MANT_MIN,
                n % c < c,
                c > 0,
        ;
    }
    let m = half_even(n, c);
    lemma_pow2_unfold(k + 1);
    let p = pow2(k);
    assert(MANT_MIN as nat * (2 * p) == MANT_END as nat * p) by (nonlinear_arith);
}

/// Rounding keeps the order of quotients.
pub proof fn lemma_nearest_monotone(n1: nat, n2: nat, d: nat)
    requires
        n1 <= n2,
        d > 0,
    ensures
        at_most(nearest(n1, d), nearest(n2, d)),
{
    reveal(less);
    lemma_nearest_units(n1, d);
    lemma_nearest_units(n2, d);
    lemma_binade_bounds(n1, d);
    lemma_binade_bounds(n2, d);
    let k1 = binade(n1, d);
    let k2 = binade(n2, d);
    let p1 = pow2(k1);
    let p2 = pow2(k2);
    lemma_pow2_pos(k1);
    lemma_pow2_pos(k2);
    let m1 = half_even(n1, d * p1);
    let m2 = half_even(n2, d * p2);
    if k1 == k2 {
        assert(d * p1 > 0) by (nonlinear_arith)
            requires
                d > 0,
                p1 > 0,
        ;
        lemma_half_even_monotone(n1, n2, d * p1);
        assert(m1 * p1 <= m2 * p2) by (nonlinear_arith)
            requires
                m1 <= m2,
                p1 == p2,
        ;
    } else if k1 < k2 {
        lemma_pow2_le(k1 + 1, k2);
        lemma_pow2_unfold(k1 + 1);
        assert(m1 * p1 <= m2 * p2) by (nonlinear_arith)
            requires
                m1 <= MANT_END,
                m2 >= MANT_MIN,
                p2 >= 2 * p1,
                p1 > 0,
        {
            assert(m1 * p1 <= MANT_END * p1);
            assert(m2 * p2 >= MANT_MIN * p2);
            assert(MANT_MIN * p2 >= MANT_MIN * (2 * p1));
        }
    } else {
        lemma_pow2_le(k2 + 1, k1);
        lemma_pow2_unfold(k2 + 1);
        assert(d * p1 >= 2 * (d * p2)) by (nonlinear_arith)
            requires
                p1 >= 2 * p2,
                d > 0,
        ;
        assert(false) by (nonlinear_arith)
            requires
                n1 <= n2,
                n1 >= d * p1 * MANT_MIN,
                n2 < d * p2 * MANT_END,
                d * p1 >= 2 * (d * p2),
        ;
    }
}

/// A number rounds to itself.
pub proof fn lemma_nearest_exact(x: Double)
    requires
        x.wf(),
        x is Finite,
    ensures
        nearest(x.units(), 1) == x,
{
    if let Double::Finite { mant, exp } = x {
        let k = (exp + 1074) as nat;
        let p = pow2(k);
        let m = mant as nat;
        lemma_pow2_pos(k);
        assert(m * p < 1 * p * MANT_END) by (nonlinear_arith)
            requires
                m < MANT_END,
                p > 0,
        ;
        if k > 0 {
            assert(m * p >= 1 * p * MANT_MIN) by (nonlinear_arith)
                requires
                    m >= MANT_MIN,
                    p > 0,
            ;
        }
        lemma_binade_unique(m * p, 1, k);
        assert(m * p == p * m + 0) by (nonlinear_arith);
        lemma_fundamental_div_mod_converse((m * p) as int, p as int, m as int, 0);
        assert(1 * pow2(k) == p);
    }
}

/// A sum is at least its first summand.
pub proof fn lemma_sum_at_least(x: Double, y: Double)
    requires
        x.wf(),
        !(sum_of(x, y) is Nan),
    ensures
        at_most(x, sum_of(x, y)),
{
    reveal(sum_of);
    reveal(less);
    if x is Finite && y is Finite {
        lemma_nearest_exact(x);
        lemma_nearest_monotone(x.units(), x.units() + y.units(), 1);
    }
}

/// A sum is a number only if both summands are.
pub proof fn lemma_sum_number(x: Double, y: Double)
    ensures
        sum_of(x, y) is Nan <==> x is Nan || y is Nan,
{
    reveal(sum_of);
}

/// The order of numbers can be chained.
pub proof fn lemma_at_most_chain(x: Double, y: Double, z: Double)
    requires
        at_most(x, y),
        at_most(y, z),
    ensures
        at_most(x, z),
{
    reveal(less);
}

/// Rounding to integers keeps the order.
pub proof fn lemma_rounded_monotone(x: Double, y: Double)
    requires
        at_most(x, y),
    ensures
        rounded(x) <= rounded(y),
{
    reveal(less);
    reveal(rounded);
    lemma_rounded_nonnegative(x);
    if x is Finite && y is Finite {
        let one = one_units();
        lemma_pow2_pos(1074);
        lemma_div_is_ordered(
            (2 * x.units() + one) as int,
            (2 * y.units() + one) as int,
            (2 * one) as int,
        );
        lemma_div_pos_is_pos((2 * x.units() + one) as int, (2 * one) as int);
        lemma_div_pos_is_pos((2 * y.units() + one) as int, (2 * one) as int);
    }
}

/// A rounded quotient is in the canonical form.
pub proof fn lemma_nearest_wf(n: nat, d: nat)
    requires
        d > 0,
    ensures
        nearest(n, d).wf(),
{
    lemma_nearest_units(n, d);
}

/// A sum is in the canonical form.
pub proof fn lemma_sum_wf(x: Double, y: Double)
    ensures
        sum_of(x, y).wf(),
{
    reveal(sum_of);
    lemma_nearest_wf(x.units() + y.units(), 1);
}

/// A difference is in the canonical form, and finite where both are.
pub proof fn lemma_difference_finite(x: Double, y: Double)
    requires
        x is Finite,
        y is Finite,
        x.wf(),
    ensures
        at_most(y, x) ==> difference_of(x, y) is Finite,
        difference_of(x, y).wf(),
{
    reveal(difference_of);
    reveal(less);
    let n = (x.units() - y.units()) as nat;
    lemma_nearest_wf(n, 1);
    if at_most(y, x) {
        lemma_nearest_exact(x);
        lemma_nearest_monotone(n, x.units(), 1);
        lemma_nearest_units(n, 1);
    }
}

/// A product is in the canonical form.
pub proof fn lemma_product_wf(x: Double, y: Double)
    ensures
        product_of(x, y).wf(),
{
    reveal(product_of);
    lemma_pow2_pos(1074);
    lemma_nearest_wf(x.units() * y.units(), one_units());
}

proof fn lemma_binade_scale(n: nat, d: nat, c: nat)
    requires
        d > 0,
        c > 0,
    ensures
        binade(n * c, d * c) == binade(n, d),
{
    let k = binade(n, d);
    lemma_binade_bounds(n, d);
    let p = pow2(k);
    assert(n * c < (d * c) * p * MANT_END) by (nonlinear_arith)
        requires
            n < d * p * MANT_END,
            c > 0,
    ;
    if k > 0 {
        assert(n * c >= (d * c) * p * MANT_MIN) by (nonlinear_arith)
            requires
                n >= d * p * MANT_MIN,
    ;
    }
    assert(d * c > 0) by (nonlinear_arith)
        requires
            d > 0,
            c > 0,
    ;
    lemma_binade_unique(n * c, d * c, k);
}

/// Rounding does not depend on the terms of a fraction.
pub proof fn lemma_nearest_scale(n: nat, d: nat, c: nat)
    requires
        d > 0,
        c > 0,
    ensures
        nearest(n * c, d * c) == nearest(n, d),
{
    lemma_binade_scale(n, d, c);
    let k = binade(n, d);
    let p = pow2(k);
    lemma_pow2_pos(k);
    assert((d * c) * p == (d * p) * c) by (nonlinear_arith);
    assert(d * p > 0) by (nonlinear_arith)
        requires
            d > 0,
            p > 0,
    ;
    lemma_half_even_scale(n, d * p, c);
}

/// The number nearest to `n / d`.
pub open spec fn fraction(n: nat, d: nat) -> Double {
    nearest(n * one_units(), d)
}

/// An integer below `2^53` is a number.
pub proof fn lemma_of_int_exact(n: nat)
    requires
        n < MANT_END,
    ensures
        of_int(n) is Finite,
        of_int(n).units() == n * one_units(),
{
    reveal(of_int);
    let m = n * one_units();
    lemma_nearest_units(m, 1);
    lemma_binade_bounds(m, 1);
    lemma_pow2_pos(1074);
    let k = binade(m, 1);
    let p = pow2(k);
    lemma_pow2_pos(k);
    if k > 1074 {
        // A number below 2^53 has no place above the one of the units.
        lemma_pow2_le(1075, k);
        lemma_pow2_unfold(1075);
        assert(n * one_units() < p * MANT_MIN) by (nonlinear_arith)
            requires
                n < MANT_END,
                p >= 2 * one_units(),
                one_units() > 0,
        ;
        assert(1 * p * MANT_MIN == p * MANT_MIN) by (nonlinear_arith);
    }
    let c = pow2((1074 - k) as nat);
    lemma_pow2_adds(k, (1074 - k) as nat);
    assert(m == p * (n * c) + 0) by (nonlinear_arith)
        requires
            m == n * one_units(),
            one_units() == p * c,
    ;
    assert((n * c) * p == m) by (nonlinear_arith)
        requires
            m == p * (n * c) + 0,
    ;
    lemma_fundamental_div_mod_converse(m as int, p as int, (n * c) as int, 0);
    assert(1 * p == p);
}

/// The order of integers is the order of the numbers nearest to them.
pub proof fn lemma_of_int_monotone(a: nat, b: nat)
    requires
        a <= b,
    ensures
        at_most(of_int(a), of_int(b)),
{
    reveal(of_int);
    let one = one_units();
    assert(a * one <= b * one) by (nonlinear_arith)
        requires
            a <= b,
    ;
    lemma_nearest_monotone(a * one, b * one, 1);
}

impl Double {
    /// The number nearest to `n / d`.
    pub fn fraction(n: u64, d: u64) -> (r: Double)
        requires
            n < MANT_END,
            0 < d < MANT_END,
        ensures
            r == fraction(n as nat, d as nat),
            r.wf(),
            within(r, 64),
    {
        let x = Double::of(n);
        let y = Double::of(d);
        proof {
            reveal(quotient_of);
            let one = one_units();
            lemma_pow2_pos(1074);
            lemma_of_int_exact(n as nat);
            lemma_of_int_exact(d as nat);
            lemma_of_within(n);
            lemma_of_within(d);
            lemma_quotient_within(x, y, 64, 0);
            assert(d as nat * one > 0) by (nonlinear_arith)
                requires
                    d > 0,
                    one > 0,
            ;
            if y == zero() {
                assert(0 * pow2(0) == 0) by (nonlinear_arith);
            }
            lemma_nearest_scale(n as nat * one, d as nat, one);
        }
        x.over(y)
    }
}

/// Adding an integer to zero or to a number that is at least one gives such a
/// number again.
pub proof fn lemma_sum_beyond(t: Double, v: Double, n: u64)
    requires
        t.wf(),
        t == zero() || beyond(t, 0),
        v == of_int(n as nat),
    ensures
        sum_of(t, v) == zero() || beyond(sum_of(t, v), 0),
{
    lemma_of_within(n);
    reveal(sum_of);
    reveal(less);
    let one = one_units();
    lemma_pow2_pos(1074);
    assert(pow2(0) == 1) by {
        lemma2_to64();
    }
    assert(forall|x: nat| #[trigger] (x * pow2(0)) == x) by {
        assert(forall|x: nat| #[trigger] (x * 1) == x);
    }
    let z = zero();
    assert(z.units() == 0) by (nonlinear_arith)
        requires
            z.units() == 0 * pow2(0),
    ;
    if n == 0 {
        reveal(of_int);
        assert(0 * one == 0);
        lemma_nearest_exact(z);
        if t is Finite {
            lemma_nearest_exact(t);
        }
    } else if t is Finite {
        lemma_nearest_exact(v);
        lemma_nearest_monotone(v.units(), t.units() + v.units(), 1);
    }
}

/// An integer that is at most a power of two.
pub proof fn lemma_of_int_within(n: nat, j: nat)
    requires
        n <= pow2(j),
        j <= 1000,
    ensures
        within(of_int(n), j),
        of_int(n).wf(),
        n > 0 ==> beyond(of_int(n), 0),
{
    reveal(of_int);
    let one = one_units();
    lemma_pow2_adds(1074, j);
    lemma_pow2_pos(1074);
    assert(n * one <= 1 * pow2(1074 + j)) by (nonlinear_arith)
        requires
            n <= pow2(j),
            pow2(1074 + j) == one * pow2(j),
    ;
    lemma_nearest_at_most(n * one, 1, 1074 + j);
    lemma_nearest_wf(n * one, 1);
    if n > 0 {
        assert(n * one >= 1 * one) by (nonlinear_arith)
            requires
                n >= 1,
        ;
        lemma_nearest_at_least(n * one, 1, 1074);
        lemma2_to64();
        let u = of_int(n).units();
        assert(u * pow2(0) == u) by (nonlinear_arith)
            requires
                pow2(0) == 1,
        ;
    }
}

/// One divided by at most `2^i` is at least `2^-i`.
pub proof fn lemma_fraction_beyond(d: nat, i: nat)
    requires
        0 < d <= pow2(i),
        i <= 1000,
    ensures
        beyond(fraction(1, d), i),
{
    let one = one_units();
    let g = (1074 - i) as nat;
    lemma_pow2_adds(g, i);
    lemma_pow2_pos(g);
    assert(1 * one == one);
    assert(one >= d * pow2(g)) by (nonlinear_arith)
        requires
            one == pow2(g) * pow2(i),
            d <= pow2(i),
    ;
    lemma_nearest_at_least(one, d, g);
    let v = fraction(1, d);
    if v is Finite {
        assert(v.units() * pow2(i) >= pow2(g) * pow2(i)) by (nonlinear_arith)
            requires
                v.units() >= pow2(g),
        ;
    }
}

/// The larger of two numbers is as far from zero as either.
pub proof fn lemma_larger_beyond(x: Double, y: Double, i: nat)
    requires
        beyond(x, i) || beyond(y, i),
    ensures
        beyond(larger(x, y), i),
{
    reveal(less);
    let p = pow2(i);
    let u = x.units();
    let v = y.units();
    if u <= v {
        assert(u * p <= v * p) by (nonlinear_arith)
            requires
                u <= v,
        ;
    } else {
        assert(v * p <= u * p) by (nonlinear_arith)
            requires
                v <= u,
        ;
    }
}

/// A sum is as far from zero as its summands.
pub proof fn lemma_sum_beyond_each(x: Double, y: Double, i: nat)
    requires
        x.wf(),
        y.wf(),
        !(x is Nan),
        !(y is Nan),
        beyond(x, i) || beyond(y, i),
    ensures
        beyond(sum_of(x, y), i),
{
    reveal(sum_of);
    reveal(less);
    let p = pow2(i);
    if x is Finite && y is Finite {
        lemma_nearest_exact(x);
        lemma_nearest_exact(y);
        lemma_nearest_monotone(x.units(), x.units() + y.units(), 1);
        lemma_nearest_monotone(y.units(), x.units() + y.units(), 1);
        let s = sum_of(x, y);
        if s is Finite {
            let u = s.units();
            assert(x.units() * p <= u * p) by (nonlinear_arith)
                requires
                    x.units() <= u,
            ;
            assert(y.units() * p <= u * p) by (nonlinear_arith)
                requires
                    y.units() <= u,
            ;
        }
    }
}

/// The quotient of a number at least one by one at most `2^j`, both integers.
pub proof fn lemma_quotient_of_ints_beyond(n: u64, d: u64, j: nat)
    requires
        n > 0,
        0 < d <= pow2(j),
        j <= 64,
    ensures
        beyond(quotient_of(of_int(n as nat), of_int(d as nat)), j),
        !(quotient_of(of_int(n as nat), of_int(d as nat)) is Nan),
{
    lemma_of_within(n);
    lemma_of_within(d);
    lemma_of_int_within(d as nat, j);
    let x = of_int(n as nat);
    let y = of_int(d as nat);
    lemma2_to64();
    lemma_pow2_pos(1074);
    assert(x.units() * pow2(0) == x.units()) by (nonlinear_arith)
        requires
            pow2(0) == 1,
    ;
    assert(y.units() * pow2(0) == y.units()) by (nonlinear_arith)
        requires
            pow2(0) == 1,
    ;
    lemma_quotient_beyond(x, y, j);
    lemma_quotient_within(x, y, 64, 0);
}

/// Zero divided by an integer, and the sum of zeros.
pub proof fn lemma_zeros(d: u64)
    requires
        d > 0,
    ensures
        of_int(0) == zero(),
        sum_of(zero(), quotient_of(zero(), of_int(d as nat))) == zero(),
{
    reveal(of_int);
    reveal(quotient_of);
    reveal(sum_of);
    let z = zero();
    let y = of_int(d as nat);
    let one = one_units();
    lemma_of_within(d);
    lemma2_to64();
    lemma_pow2_pos(1074);
    assert(z.units() == 0) by (nonlinear_arith)
        requires
            z.units() == 0 * pow2(0),
    ;
    lemma_nearest_exact(z);
    assert(0 * one == 0);
    assert(y.units() > 0) by (nonlinear_arith)
        requires
            y.units() * pow2(0) >= one,
            one > 0,
            pow2(0) == 1,
    ;
    if y == zero() {
        assert(false);
    }
    lemma_nearest_scale(0, 1, y.units());
    assert(0 * y.units() == 0);
    assert(1 * y.units() == y.units());
}

// ── errors ──────────────────────────────────────────────────────────────────

/// Rounding to an integer is off by at most a half.
pub proof fn lemma_half_even_error(n: nat, c: nat)
    requires
        c > 0,
    ensures
        2 * (half_even(n, c) * c) <= 2 * n + c,
        2 * n <= 2 * (half_even(n, c) * c) + c,
{
    let q = n / c;
    let r = n % c;
    lemma_fundamental_div_mod(n as int, c as int);
    assert(c * q == q * c) by (nonlinear_arith);
    assert((q + 1) * c == q * c + c) by (nonlinear_arith);
}

/// A rounded quotient is off by no more than the `2^53`th part of it, or half a
/// unit.
pub proof fn lemma_nearest_error(n: nat, d: nat)
    requires
        d > 0,
        nearest(n, d) is Finite,
    ensures
        ({
            let q = nearest(n, d).units();
            &&& MANT_END * (q * d) <= MANT_END * n + n + MANT_MIN * d
            &&& MANT_END * n <= MANT_END * (q * d) + n + MANT_MIN * d
        }),
{
    let k = binade(n, d);
    let p = pow2(k);
    let c = d * p;
    let m = half_even(n, c);
    let q = nearest(n, d).units();
    lemma_nearest_units(n, d);
    lemma_binade_bounds(n, d);
    lemma_pow2_pos(k);
    assert(c > 0) by (nonlinear_arith)
        requires
            d > 0,
            p > 0,
            c == d * p,
    ;
    lemma_half_even_error(n, c);
    assert(q * d == m * c) by (nonlinear_arith)
        requires
            q == m * p,
            c == d * p,
    ;
    if k == 0 {
        lemma2_to64();
        assert(c == d) by (nonlinear_arith)
            requires
                c == d * p,
                p == 1,
        ;
    } else {
        assert(c * MANT_MIN <= n);
    }
    assert(MANT_MIN * c <= n || c == d) by (nonlinear_arith)
        requires
            c * MANT_MIN <= n || c == d,
    ;
}

/// A rounded sum is near the sum.
pub proof fn lemma_sum_error(x: Double, y: Double)
    requires
        x is Finite,
        y is Finite,
        sum_of(x, y) is Finite,
    ensures
        ({
            let e = x.units() + y.units();
            let q = sum_of(x, y).units();
            &&& MANT_END * q <= MANT_END * e + e + MANT_MIN
            &&& MANT_END * e <= MANT_END * q + e + MANT_MIN
        }),
{
    reveal(sum_of);
    lemma_nearest_error(x.units() + y.units(), 1);
}

/// A rounded difference is near the difference, and no more than the first
/// number.
pub proof fn lemma_difference_error(x: Double, y: Double)
    requires
        x is Finite,
        x.wf(),
        y is Finite,
        at_most(y, x),
    ensures
        ({
            let e = (x.units() - y.units()) as nat;
            let q = difference_of(x, y).units();
            &&& y.units() <= x.units()
            &&& MANT_END * q <= MANT_END * e + e + MANT_MIN
            &&& MANT_END * e <= MANT_END * q + e + MANT_MIN
            &&& q <= x.units()
        }),
{
    let n = (x.units() - y.units()) as nat;
    lemma_difference_finite(x, y);
    reveal(difference_of);
    reveal(less);
    lemma_nearest_error(n, 1);
    lemma_nearest_exact(x);
    lemma_nearest_monotone(n, x.units(), 1);
}

/// A rounded product is near the product.
pub proof fn lemma_product_error(x: Double, y: Double)
    requires
        x is Finite,
        y is Finite,
        product_of(x, y) is Finite,
    ensures
        ({
            let e = x.units() * y.units();
            let q = product_of(x, y).units();
            let p = one_units();
            &&& MANT_END * (q * p) <= MANT_END * e + e + MANT_MIN * p
            &&& MANT_END * e <= MANT_END * (q * p) + e + MANT_MIN * p
        }),
{
    reveal(product_of);
    lemma_pow2_pos(1074);
    lemma_nearest_error(x.units() * y.units(), one_units());
}

/// A rounded quotient is near the quotient.
pub proof fn lemma_quotient_error(x: Double, y: Double)
    requires
        x is Finite,
        y is Finite,
        y.units() > 0,
        quotient_of(x, y) is Finite,
    ensures
        ({
            let e = x.units() * one_units();
            let q = quotient_of(x, y).units();
            &&& MANT_END * (q * y.units()) <= MANT_END * e + e + MANT_MIN * y.units()
            &&& MANT_END * e <= MANT_END * (q * y.units()) + e + MANT_MIN * y.units()
        }),
{
    reveal(quotient_of);
    assert(zero().units() == 0) by {
        assert(0 * pow2(0) == 0) by (nonlinear_arith);
    }
    lemma_nearest_error(x.units() * one_units(), y.units());
}

/// One is some units.
pub proof fn lemma_one_positive()
    ensures
        one_units() > 0,
{
    lemma_pow2_pos(1074);
}

/// One is far more units than a mantissa counts.
pub proof fn lemma_one_is_many()
    ensures
        one_units() >= 0x1000_0000_0000_0000 * 1000,
{
    lemma2_to64();
    lemma_pow2_adds(64, 64);
    lemma_pow2_adds(128, 946);
    lemma_pow2_pos(946);
    assert(pow2(1074) >= pow2(128)) by (nonlinear_arith)
        requires
            pow2(1074) == pow2(128) * pow2(946),
            pow2(946) >= 1,
    ;
}

/// Division by 1024 loses nothing of a number that is at least 1024.
pub proof fn lemma_quotient_of_kilo(x: Double)
    requires
        x is Finite,
        x.wf(),
        x.units() >= 1024 * one_units(),
    ensures
        ({
            let q = quotient_of(x, of_int(1024));
            &&& q is Finite
            &&& q.wf()
            &&& q.units() * 1024 == x.units()
        }),
{
    if let Double::Finite { mant, exp } = x {
        lemma2_to64();
        lemma_one_positive();
        lemma_of_int_exact(1024);
        let one = one_units();
        if exp < EXP_MIN + 60 {
            let k = (exp + 1074) as nat;
            lemma_pow2_rises(k, 64);
            assert(mant * pow2(k) < 0x20_0000_0000_0000 * 0x1_0000_0000_0000_0000)
                by (nonlinear_arith)
                requires
                    mant < 0x20_0000_0000_0000,
                    pow2(k) <= 0x1_0000_0000_0000_0000,
            ;
            lemma_pow2_adds(64, 64);
            lemma_pow2_adds(128, 946);
            lemma_pow2_pos(946);
            assert(one >= pow2(128)) by (nonlinear_arith)
                requires
                    one == pow2(128) * pow2(946),
                    pow2(946) >= 1,
            ;
            assert(false);
        }
        let y = Double::Finite { mant, exp: (exp - 10) as i32 };
        let k = (exp + 1074 - 10) as nat;
        lemma_pow2_adds(10, k);
        assert(y.units() * 1024 == x.units()) by (nonlinear_arith)
            requires
                y.units() == mant as nat * pow2(k),
                x.units() == mant as nat * pow2(k + 10),
                pow2(10 + k) == 1024 * pow2(k),
        ;
        lemma_nearest_exact(y);
        lemma_nearest_scale(y.units(), 1, 1024);
        lemma_nearest_scale(x.units(), 1024, one);
        assert(zero().units() == 0) by {
            assert(0 * pow2(0) == 0) by (nonlinear_arith);
        }
        reveal(quotient_of);
    }
}

proof fn lemma_pow2_rises(a: nat, b: nat)
    requires
        a <= b,
    ensures
        pow2(a) <= pow2(b),
{
    if a < b {
        lemma_pow2_strictly_increases(a, b);
    }
}

} // verus!
