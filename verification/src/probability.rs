//! Probabilities as whole multiples of a small unit.

use vstd::prelude::*;

verus! {

/// The number of units that make the probability 1.
pub const ONE: u64 = 1_000_000_000_000_000_000;

/// The share `p` of `x`, rounded down to whole units.
pub open spec fn scaled(x: u64, p: u64) -> nat {
    (x * p / ONE as int) as nat
}

/// A greater share of more is more.
pub proof fn lemma_scaled_mono(x: u64, y: u64, p: u64, q: u64)
    requires
        x <= y,
        p <= q,
    ensures
        scaled(x, p) <= scaled(y, q),
{
    assert(x * p <= y * q) by (nonlinear_arith)
        requires
            0 <= x <= y,
            0 <= p <= q,
    ;
    vstd::arithmetic::div_mod::lemma_div_is_ordered(x * p, y * q, ONE as int);
}

/// A share is no more than the whole, and the share 1 is the whole.
pub proof fn lemma_scaled_bound(x: u64, p: u64)
    requires
        p <= ONE,
    ensures
        scaled(x, p) <= x,
        scaled(x, ONE) == x,
        scaled(ONE, p) == p,
        scaled(0, p) == 0,
        scaled(x, 0) == 0,
{
    lemma_scaled_mono(x, x, p, ONE);
    assert(x * ONE / ONE as int == x) by (nonlinear_arith);
    assert(ONE * p / ONE as int == p) by (nonlinear_arith);
    assert(0 * p == 0) by (nonlinear_arith);
    assert(x * 0 == 0) by (nonlinear_arith);
}

/// The share `p` of `x`, rounded down to whole units.
pub fn scale(x: u64, p: u64) -> (r: u64)
    requires
        p <= ONE,
    ensures
        r == scaled(x, p),
        r * ONE <= x * p < (r + 1) * ONE,
{
    proof {
        lemma_scaled_bound(x, p);
        assert(x * p <= u64::MAX * u64::MAX) by (nonlinear_arith)
            requires
                0 <= x <= u64::MAX,
                0 <= p <= u64::MAX,
        ;
    }
    (x as u128 * p as u128 / ONE as u128) as u64
}

/// The share `p` of `x`, rounded up to whole units.
pub open spec fn scaled_up(x: u64, p: u64) -> nat {
    ((x * p + ONE - 1) / ONE as int) as nat
}

/// A greater share of more is more.
pub proof fn lemma_scaled_up_mono(x: u64, y: u64, p: u64, q: u64)
    requires
        x <= y,
        p <= q,
    ensures
        scaled_up(x, p) <= scaled_up(y, q),
{
    assert(x * p <= y * q) by (nonlinear_arith)
        requires
            0 <= x <= y,
            0 <= p <= q,
    ;
    vstd::arithmetic::div_mod::lemma_div_is_ordered(
        x * p + ONE - 1,
        y * q + ONE - 1,
        ONE as int,
    );
}

/// A share that is rounded up is no less than the share and no more than the
/// whole, and it is nothing only where the whole or the share is.
pub proof fn lemma_scaled_up_bound(x: u64, p: u64)
    requires
        p <= ONE,
    ensures
        scaled_up(x, p) * ONE >= x * p,
        scaled_up(x, p) <= x,
        scaled_up(x, p) == 0 <==> x == 0 || p == 0,
        scaled_up(ONE, p) == p,
{
    let a = x * p;
    assert(a >= 0) by (nonlinear_arith)
        requires
            a == x * p,
            x >= 0,
            p >= 0,
    ;
    assert(a <= x * ONE) by (nonlinear_arith)
        requires
            a == x * p,
            0 <= p <= ONE,
            x >= 0,
    ;
    let s = (a + ONE - 1) / ONE as int;
    assert(s * ONE >= a && s * ONE <= a + ONE - 1) by (nonlinear_arith)
        requires
            s == (a + ONE - 1) / ONE as int,
            a >= 0,
    ;
    assert(s <= x) by (nonlinear_arith)
        requires
            s * ONE <= a + ONE - 1,
            a <= x * ONE,
    ;
    assert(a == 0 <==> x == 0 || p == 0) by (nonlinear_arith)
        requires
            a == x * p,
    ;
    let b = ONE * p;
    let u = (b + ONE - 1) / ONE as int;
    assert(u == p) by (nonlinear_arith)
        requires
            u == (ONE * p + ONE - 1) / ONE as int,
            p >= 0,
    ;
}

/// The share `p` of `x`, rounded up to whole units.
pub fn scale_up(x: u64, p: u64) -> (r: u64)
    requires
        p <= ONE,
    ensures
        r == scaled_up(x, p),
        (r - 1) * ONE < x * p <= r * ONE,
{
    proof {
        lemma_scaled_up_bound(x, p);
        assert(x * p <= u64::MAX * u64::MAX) by (nonlinear_arith)
            requires
                0 <= x <= u64::MAX,
                0 <= p <= u64::MAX,
        ;
    }
    ((x as u128 * p as u128 + ONE as u128 - 1) / ONE as u128) as u64
}

/// What the values lack to the greatest that can be held, in all.
pub open spec fn slack(v: Seq<u64>) -> nat
    decreases v.len(),
{
    if v.len() == 0 {
        0
    } else {
        slack(v.drop_last()) + (u64::MAX - v.last()) as nat
    }
}

/// What one value gains, the values lack less.
pub proof fn lemma_slack_update(v: Seq<u64>, i: int, x: u64)
    requires
        0 <= i < v.len(),
    ensures
        slack(v.update(i, x)) + x == slack(v) + v[i],
    decreases v.len(),
{
    let u = v.update(i, x);
    if i == v.len() - 1 {
        assert(u.drop_last() =~= v.drop_last());
    } else {
        assert(u.drop_last() =~= v.drop_last().update(i, x));
        lemma_slack_update(v.drop_last(), i, x);
    }
}

} // verus!
