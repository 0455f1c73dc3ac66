//! Spans of time, in nanoseconds.

use vstd::arithmetic::power2::*;
use vstd::prelude::*;

use crate::double;
use crate::double::Double;

verus! {

/// The nanoseconds of a second.
pub const NANOS_PER_SEC: u128 = 1_000_000_000;

/// The longest span.
pub const MAX_NANOS: u128 = 18446744073709551615_999999999;

/// A span of time. A moment is the span since a fixed start.
#[derive(Clone, Copy, Debug, PartialEq, Eq, Structural)]
pub struct Span {
    pub nanos: u128,
}

/// The seconds of a span: the whole ones, plus the rest as a fraction.
pub open spec fn secs_of(s: Span) -> Double {
    double::sum_of(
        double::of_int((s.nanos / NANOS_PER_SEC) as nat),
        double::quotient_of(
            double::of_int((s.nanos % NANOS_PER_SEC) as nat),
            double::of_int(NANOS_PER_SEC as nat),
        ),
    )
}

impl Span {
    /// Whether the whole seconds fit 64 bits.
    pub open spec fn wf(self) -> bool {
        self.nanos <= MAX_NANOS
    }

    /// No time.
    pub fn zero() -> (r: Span)
        ensures
            r.nanos == 0,
            r.wf(),
    {
        Span { nanos: 0 }
    }

    /// A span of so many nanoseconds.
    pub fn from_nanos(n: u64) -> (r: Span)
        ensures
            r.nanos == n,
            r.wf(),
    {
        Span { nanos: n as u128 }
    }

    /// The low 64 bits of the nanoseconds.
    pub fn low_nanos(self) -> (r: u64)
        ensures
            r == self.nanos % 0x1_0000_0000_0000_0000,
    {
        (self.nanos % 0x1_0000_0000_0000_0000) as u64
    }

    /// How much later this moment is than another, or no time.
    pub fn since(self, earlier: Span) -> (r: Span)
        ensures
            r.nanos == if self.nanos > earlier.nanos {
                self.nanos - earlier.nanos
            } else {
                0
            },
            self.wf() ==> r.wf(),
    {
        if self.nanos > earlier.nanos {
            Span { nanos: self.nanos - earlier.nanos }
        } else {
            Span { nanos: 0 }
        }
    }

    /// The span in seconds.
    pub fn secs(self) -> (r: Double)
        requires
            self.wf(),
        ensures
            r == secs_of(self),
            r.wf(),
            double::within(r, 65),
    {
        let whole: u64 = (self.nanos / NANOS_PER_SEC) as u64;
        let rest: u64 = (self.nanos % NANOS_PER_SEC) as u64;
        let a = Double::of(whole);
        let b = Double::of(rest);
        let c = Double::of(1_000_000_000);
        proof {
            double::lemma_of_within(whole);
            double::lemma_of_within(rest);
            double::lemma_of_within(1_000_000_000);
            double::lemma_quotient_within(b, c, 64, 0);
            double::lemma_sum_within(a, double::quotient_of(b, c), 64);
        }
        a.plus(b.over(c))
    }
}

/// A span that is not empty is at least `2^-30` seconds; an empty one is none.
pub proof fn lemma_secs(s: Span)
    requires
        s.wf(),
    ensures
        s.nanos > 0 ==> double::beyond(secs_of(s), 30),
        s.nanos == 0 ==> secs_of(s) == double::zero(),
{
    let whole = (s.nanos / NANOS_PER_SEC) as u64;
    let rest = (s.nanos % NANOS_PER_SEC) as u64;
    let a = double::of_int(whole as nat);
    let b = double::of_int(rest as nat);
    let c = double::of_int(1_000_000_000);
    let q = double::quotient_of(b, c);
    lemma2_to64();
    double::lemma_of_within(whole);
    double::lemma_of_within(rest);
    double::lemma_of_within(1_000_000_000);
    double::lemma_quotient_within(b, c, 64, 0);
    double::lemma_zeros(1_000_000_000);
    if rest > 0 {
        double::lemma_quotient_of_ints_beyond(rest, 1_000_000_000, 30);
        double::lemma_sum_beyond_each(a, q, 30);
    } else if whole > 0 {
        assert(double::beyond(a, 30)) by {
            lemma_pow2_pos(30);
            let u = a.units();
            assert(u * pow2(30) >= u * pow2(0)) by (nonlinear_arith)
                requires
                    pow2(30) >= pow2(0),
            ;
        }
        double::lemma_sum_beyond_each(a, q, 30);
    }
}

/// The milliseconds of a span.
pub open spec fn millis_of(s: Span) -> Double {
    double::product_of(secs_of(s), double::of_int(1000))
}

impl Span {
    /// The span in milliseconds.
    pub fn millis(self) -> (r: Double)
        requires
            self.wf(),
        ensures
            r == millis_of(self),
            r.wf(),
            double::within(r, 100),
    {
        let s = self.secs();
        let k = Double::of(1000);
        proof {
            lemma2_to64();
            double::lemma_of_int_within(1000, 10);
            double::lemma_product_within(s, k, 65, 10);
            double::lemma_within_weaken(double::product_of(s, k), 75, 100);
        }
        s.times(k)
    }
}

/// The seconds of a span are its nanoseconds divided by a thousand million, but
/// for one nanosecond, for spans of some weeks.
pub proof fn seconds_are_nanoseconds(s: Span)
    requires
        s.nanos < 0x10_0000_0000_0000,
    ensures
        ({
            let one = double::one_units() as int;
            let all = 1_000_000_000 * secs_of(s).units();
            &&& secs_of(s) is Finite
            &&& all <= s.nanos * one + one
            &&& s.nanos * one <= all + one
        }),
{
    let one = double::one_units();
    let whole = (s.nanos / NANOS_PER_SEC) as nat;
    let rest = (s.nanos % NANOS_PER_SEC) as nat;
    double::lemma_one_is_many();
    double::lemma_of_int_exact(whole);
    double::lemma_of_int_exact(rest);
    double::lemma_of_int_exact(1_000_000_000);
    let c = double::of_int(1_000_000_000);
    let b = double::of_int(rest);
    let q = double::quotient_of(b, c);
    assert(double::zero().units() == 0) by {
        assert(0 * pow2(0) == 0) by (nonlinear_arith);
    }
    assert(q == double::nearest(rest * one, 1_000_000_000)) by {
        reveal(double::quotient_of);
        double::lemma_nearest_scale(rest * one, 1_000_000_000, one);
    }
    let r = rest * one;
    assert(r <= 1_000_000_000 * one) by (nonlinear_arith)
        requires
            r == rest * one,
            rest <= 1_000_000_000,
    ;
    double::lemma_of_int_exact(1);
    double::lemma_nearest_scale(one, 1, 1_000_000_000);
    double::lemma_nearest_monotone(r, 1_000_000_000 * one, 1_000_000_000);
    assert(q is Finite && q.units() <= one) by {
        reveal(double::of_int);
        reveal(double::less);
    }
    double::lemma_nearest_error(r, 1_000_000_000);
    let e = whole * one + q.units();
    let x = double::sum_of(double::of_int(whole), q);
    assert(x == secs_of(s));
    assert(x == double::nearest(e, 1)) by {
        reveal(double::sum_of);
    }
    assert(whole * one + one == (whole + 1) * one) by (nonlinear_arith);
    double::lemma_of_int_exact(whole + 1);
    double::lemma_nearest_monotone(e, (whole + 1) * one, 1);
    assert(x is Finite) by {
        reveal(double::of_int);
        reveal(double::less);
    }
    double::lemma_nearest_error(e, 1);
    assert(s.nanos * one == 1_000_000_000 * (whole * one) + rest * one) by (nonlinear_arith)
        requires
            s.nanos == 1_000_000_000 * whole + rest,
    ;
    assert(whole <= 5_000_000);
    assert(whole * one <= 5_000_000 * one) by (nonlinear_arith)
        requires
            whole <= 5_000_000,
    ;
}

} // verus!
