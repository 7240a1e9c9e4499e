//! Arithmetic helpers for drawing.

use vstd::prelude::*;

verus! {

pub open spec fn abs(a: int) -> int {
    if a >= 0 {
        a
    } else {
        -a
    }
}

/// Integer division rounding toward zero, as Rust's `/` on integers.
pub open spec fn div_trunc(a: int, b: int) -> int {
    let q = abs(a) / abs(b);
    if (a >= 0) == (b > 0) {
        q
    } else {
        -q
    }
}

/// `a / b`, rounding toward zero.
fn quot_trunc(a: i64, b: i64) -> (q: i64)
    requires
        b != 0,
        b != i64::MIN,
        !(a == i64::MIN && b == -1),
    ensures
        q == div_trunc(a as int, b as int),
{
    let ub: u64 = if b < 0 { (-(b as i128)) as u64 } else { b as u64 };
    let ua: u64 = if a < 0 { (-(a as i128)) as u64 } else { a as u64 };
    let uq = ua / ub;
    proof {
        vstd::arithmetic::div_mod::lemma_div_nonincreasing(ua as int, ub as int);
        if ub >= 2 {
            vstd::arithmetic::div_mod::lemma_div_is_ordered_by_denominator(ua as int, 2, ub as int);
        }
    }
    if (a >= 0) == (b > 0) {
        uq as i64
    } else {
        (-(uq as i128)) as i64
    }
}

/// Maps `x` from the range `[ob, ot]` to the range `[nb, nt]`:
/// `(x - ob) / (ot - ob) * (nt - nb) + nb`. Division rounds toward zero, so
/// only whole multiples of the first range map exactly; `x` may lie outside it.
pub fn map_range(x: i64, ob: i64, ot: i64, nb: i64, nt: i64) -> (r: i64)
    requires
        ot != ob,
        i64::MIN <= x - ob <= i64::MAX,
        !(x - ob == i64::MIN && ot - ob == -1),
        i64::MIN < ot - ob <= i64::MAX,
        i64::MIN <= nt - nb <= i64::MAX,
        i64::MIN <= div_trunc(x - ob, ot - ob) * (nt - nb) + nb <= i64::MAX,
        i64::MIN <= div_trunc(x - ob, ot - ob) * (nt - nb) <= i64::MAX,
    ensures
        r == div_trunc(x - ob, ot - ob) * (nt - nb) + nb,
{
    let a = x - ob;
    let b = ot - ob;
    let q = quot_trunc(a, b);
    let d = nt - nb;
    let p = q * d;
    p + nb
}

} // verus!
