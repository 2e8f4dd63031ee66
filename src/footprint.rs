//! Byte counts that saturate at the largest `usize` rather than wrap.
use vstd::prelude::*;

verus! {

/// `x`, or the largest `usize` where `x` is larger.
pub open spec fn saturated(x: int) -> usize {
    if x > usize::MAX {
        usize::MAX
    } else {
        x as usize
    }
}

/// `a * b`, saturated.
pub fn saturating_mul(a: usize, b: usize) -> (r: usize)
    ensures
        r == saturated(a * b),
{
    match a.checked_mul(b) {
        Some(p) => p,
        None => usize::MAX,
    }
}

/// `floor(log16(e))`, taken as zero for `e < 16`.
pub open spec fn floor_log16(e: nat) -> nat
    decreases e,
{
    if e < 16 {
        0
    } else {
        1 + floor_log16(e / 16)
    }
}

pub fn floor_log16_of(e: usize) -> (r: usize)
    ensures
        r == floor_log16(e as nat),
{
    let mut m = e;
    let mut k: usize = 0;
    proof {
        lemma_floor_log16_le(e as nat);
    }
    while m >= 16
        invariant
            k + floor_log16(m as nat) == floor_log16(e as nat),
            floor_log16(e as nat) <= e,
        decreases m,
    {
        m = m / 16;
        k = k + 1;
    }
    k
}

proof fn lemma_floor_log16_le(e: nat)
    ensures
        floor_log16(e) <= e,
    decreases e,
{
    if e >= 16 {
        lemma_floor_log16_le(e / 16);
    }
}

/// The number of node bounds that a tree of `elems` entries is expected to
/// hold, from a linear fit to measured trees: `0.0667 * elems + 2.2143`,
/// rounded down.
pub open spec fn projected_node_count(elems: nat) -> nat {
    (667 * elems + 22143) / 10000
}

pub fn projected_node_count_of(elems: usize) -> (r: usize)
    ensures
        r == projected_node_count(elems as nat),
{
    let r: u128 = (667 * (elems as u128) + 22143) / 10000;
    assert(r <= usize::MAX) by (nonlinear_arith)
        requires
            r == (667 * (elems as int) + 22143) / 10000,
            elems <= usize::MAX,
    ;
    r as usize
}

} // verus!
