//! Numbers that are the same but for a few parts in `2^53`.

use vstd::prelude::*;

use crate::double;
use crate::double::MANT_END;

verus! {

/// Whether two numbers differ by at most `k` parts in `2^53`.
pub open spec fn near(a: nat, b: nat, k: nat) -> bool {
    &&& MANT_END * a <= (MANT_END + k) * b
    &&& MANT_END * b <= (MANT_END + k) * a
}

/// A looser bound.
pub proof fn lemma_near_weaken(a: nat, b: nat, k: nat, l: nat)
    requires
        near(a, b, k),
        k <= l,
    ensures
        near(a, b, l),
        near(b, a, l),
{
    assert((MANT_END + k) * b <= (MANT_END + l) * b && (MANT_END + k) * a <= (MANT_END + l) * a)
        by (nonlinear_arith)
        requires
            k <= l,
    ;
}

/// Differences add up.
pub proof fn lemma_near_chain(a: nat, b: nat, c: nat, k: nat, l: nat)
    requires
        near(a, b, k),
        near(b, c, l),
        k * l <= MANT_END,
    ensures
        near(a, c, k + l + 1),
{
    lemma_chain(a, b, c, k, l);
    assert(k * l == l * k) by (nonlinear_arith);
    lemma_chain(c, b, a, l, k);
}

proof fn lemma_chain(a: nat, b: nat, c: nat, k: nat, l: nat)
    requires
        MANT_END * a <= (MANT_END + k) * b,
        MANT_END * b <= (MANT_END + l) * c,
        k * l <= MANT_END,
    ensures
        MANT_END * a <= (MANT_END + k + l + 1) * c,
{
    let m = MANT_END as nat;
    assert(m * (m * a) <= (m + k) * (m * b)) by (nonlinear_arith)
        requires
            m * a <= (m + k) * b,
            m >= 0,
    ;
    assert((m + k) * (m * b) <= (m + k) * ((m + l) * c)) by (nonlinear_arith)
        requires
            m * b <= (m + l) * c,
            m + k >= 0,
    ;
    assert((m + k) * ((m + l) * c) <= m * ((m + k + l + 1) * c)) by (nonlinear_arith)
        requires
            k * l <= m,
            c >= 0,
    {
        assert((m + k) * ((m + l) * c) == m * ((m + k + l) * c) + (k * l) * c);
        assert((k * l) * c <= m * c);
        assert(m * ((m + k + l + 1) * c) == m * ((m + k + l) * c) + m * c);
    }
    let x = m * a;
    let y = (m + k + l + 1) * c;
    assert(x <= y) by (nonlinear_arith)
        requires
            m * x <= m * y,
            m > 0,
    ;
}

/// Multiples differ as much.
pub proof fn lemma_near_times(a: nat, b: nat, k: nat, x: nat)
    requires
        near(a, b, k),
    ensures
        near(a * x, b * x, k),
        near(x * a, x * b, k),
{
    let m = MANT_END as nat;
    assert(m * (a * x) <= (m + k) * (b * x) && m * (b * x) <= (m + k) * (a * x))
        by (nonlinear_arith)
        requires
            m * a <= (m + k) * b,
            m * b <= (m + k) * a,
    ;
    assert(a * x == x * a && b * x == x * b) by (nonlinear_arith);
}

/// What is near as a multiple is near.
pub proof fn lemma_near_divide(a: nat, b: nat, k: nat, x: nat)
    requires
        near(a * x, b * x, k),
        x > 0,
    ensures
        near(a, b, k),
{
    let m = MANT_END as nat;
    assert(m * a <= (m + k) * b) by (nonlinear_arith)
        requires
            m * (a * x) <= (m + k) * (b * x),
            x > 0,
    ;
    assert(m * b <= (m + k) * a) by (nonlinear_arith)
        requires
            m * (b * x) <= (m + k) * (a * x),
            x > 0,
    ;
}

/// Sums differ as much as their parts.
pub proof fn lemma_near_sum(a: nat, b: nat, c: nat, d: nat, k: nat)
    requires
        near(a, b, k),
        near(c, d, k),
    ensures
        near(a + c, b + d, k),
{
    let m = MANT_END as nat;
    assert((m + k) * (b + d) == (m + k) * b + (m + k) * d && (m + k) * (a + c) == (m + k) * a + (m
        + k) * c && m * (a + c) == m * a + m * c && m * (b + d) == m * b + m * d)
        by (nonlinear_arith);
}

/// Bounds on the difference say how near numbers are.
pub proof fn lemma_near_from(a: nat, b: nat, j: nat)
    requires
        MANT_END * a <= MANT_END * b + j * b,
        MANT_END * b <= MANT_END * a + j * b,
        2 * j <= MANT_END,
    ensures
        near(a, b, 2 * j),
{
    let m = MANT_END as nat;
    assert((m + 2 * j) * b == m * b + 2 * (j * b)) by (nonlinear_arith);
    assert(j * b >= 0) by (nonlinear_arith);
    let jb = j * b;
    let ja = j * a;
    assert((m + 2 * j) * a == m * a + 2 * ja) by (nonlinear_arith)
        requires
            ja == j * a,
    ;
    // At least half of `b`.
    assert(2 * jb <= m * b) by (nonlinear_arith)
        requires
            2 * j <= m,
            jb == j * b,
            b >= 0,
    ;
    assert(b <= 2 * a);
    assert(jb <= 2 * ja) by (nonlinear_arith)
        requires
            b <= 2 * a,
            jb == j * b,
            ja == j * a,
            j >= 0,
    ;
}

/// A rounded quotient is near the quotient, unless it is tiny.
pub proof fn lemma_near_rounded(n: nat, d: nat)
    requires
        d > 0,
        n >= MANT_END * d,
        double::nearest(n, d) is Finite,
    ensures
        near(double::nearest(n, d).units() * d, n, 4),
{
    double::lemma_nearest_error(n, d);
    lemma_near_from(double::nearest(n, d).units() * d, n, 2);
}

} // verus!
