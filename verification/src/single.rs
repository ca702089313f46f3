//! Whole-number arithmetic that gives exactly what single-precision floating point gives.
//!
//! A single-precision number has 24 significant bits, and every operation rounds to the nearest
//! such number, a tie to the one with an even last bit.

use vstd::prelude::*;

verus! {

/// The weight of the last of the 24 significant bits of `m`.
pub open spec fn unit(m: nat) -> nat
    decreases m,
{
    if m < 0x100_0000 {
        1
    } else {
        2 * unit(m / 2)
    }
}

/// `m` rounded to the nearest multiple of `u`, a tie to the even one.
pub open spec fn rounded(m: nat, u: nat) -> nat {
    let q = m / u;
    let r = m % u;
    if 2 * r > u || (2 * r == u && q % 2 == 1) {
        (q + 1) * u
    } else {
        q * u
    }
}

/// The single-precision number nearest to `m`.
pub open spec fn single(m: nat) -> nat {
    rounded(m, unit(m))
}

/// Whether the single-precision quotient of `count` and `total` is at least the single-precision
/// number `m / scale`, whose last significant bit is odd. It is when the true quotient of the two
/// rounded numbers lies past the middle between that number and the next lower one.
pub open spec fn share_reaches(count: nat, total: nat, m: nat, scale: nat) -> bool {
    let whole = if total == 0 { 1 } else { total };
    2 * single(count) * scale > (2 * m - 1) * single(whole)
}

pub proof fn lemma_unit(m: nat)
    ensures
        unit(m) >= 1,
        m < 0x100_0000 * unit(m),
        unit(m) > 1 ==> m >= 0x80_0000 * unit(m),
    decreases m,
{
    if m >= 0x100_0000 {
        lemma_unit(m / 2);
        if m / 2 < 0x100_0000 {
            assert(unit(m / 2) == 1);
        }
    }
}

pub proof fn lemma_rounded(m: nat, u: nat)
    requires
        u >= 1,
    ensures
        rounded(m, u) <= m + u / 2,
        m <= rounded(m, u) + u / 2,
        u == 1 ==> rounded(m, u) == m,
{
    let q = m / u;
    let r = m % u;
    assert(m == q * u + r && r < u) by (nonlinear_arith)
        requires
            q == m / u,
            r == m % u,
            u >= 1,
    ;
    assert((q + 1) * u == q * u + u) by (nonlinear_arith);
}

/// A whole number below 2^24 is a single-precision number, and none moves by more than a part in
/// 2^24.
pub proof fn lemma_single(m: nat)
    ensures
        single(m) <= 2 * m,
        m <= 2 * single(m),
        m < 0x100_0000 ==> single(m) == m,
        m > 0 ==> single(m) > 0,
{
    lemma_unit(m);
    lemma_rounded(m, unit(m));
}

pub open spec fn two(e: nat) -> nat
    decreases e,
{
    if e == 0 {
        1
    } else {
        2 * two((e - 1) as nat)
    }
}

/// The weight of the last significant bit is a power of two.
pub proof fn lemma_unit_divides(m: nat, e: nat)
    requires
        m < 0x100_0000 * two(e),
    ensures
        exists|j: nat| #[trigger] (unit(m) * j) == two(e),
    decreases e,
{
    if m < 0x100_0000 {
        assert(unit(m) * two(e) == two(e)) by (nonlinear_arith)
            requires
                unit(m) == 1,
        ;
    } else {
        lemma_unit_divides(m / 2, (e - 1) as nat);
        let j = choose|j: nat| #[trigger] (unit(m / 2) * j) == two((e - 1) as nat);
        assert(unit(m) * j == 2 * (unit(m / 2) * j)) by (nonlinear_arith)
            requires
                unit(m) == 2 * unit(m / 2),
        ;
    }
}

/// The single-precision number nearest to `m`.
pub fn to_single(m: u128) -> (r: u128)
    requires
        m < 0x1_0000_0000_0000_0000_0000_0000,
    ensures
        r == single(m as nat),
        r <= 2 * m,
{
    let mut u: u128 = 1;
    let mut left: u128 = m;
    while left >= 0x100_0000
        invariant
            1 <= u,
            u * left <= m,
            left >= 0x80_0000 || u == 1,
            m < 0x1_0000_0000_0000_0000_0000_0000,
            unit(m as nat) == u * unit(left as nat),
        decreases left,
    {
        assert(2 * u * (left / 2) <= m) by (nonlinear_arith)
            requires
                u * left <= m,
                u >= 1,
        ;
        assert(2 * u <= m) by (nonlinear_arith)
            requires
                2 * u * (left / 2) <= m,
                left >= 0x100_0000,
                u >= 1,
        ;
        assert(u * (2 * unit((left / 2) as nat)) == (2 * u) * unit((left / 2) as nat))
            by (nonlinear_arith);
        u = u * 2;
        left = left / 2;
    }
    let ghost last = unit(left as nat);
    assert(u * last == u) by (nonlinear_arith)
        requires
            last == 1,
    ;
    proof {
        lemma_unit(m as nat);
        lemma_rounded(m as nat, u as nat);
        lemma_single(m as nat);
    }
    let q: u128 = m / u;
    let r: u128 = m % u;
    assert(m == q * u + r && r < u) by (nonlinear_arith)
        requires
            q == m / u,
            r == m % u,
            u >= 1,
    ;
    assert((q + 1) * u == q * u + u) by (nonlinear_arith);
    assert(u <= m || u == 1);
    if 2 * r > u || (2 * r == u && q % 2 == 1) {
        (q + 1) * u
    } else {
        q * u
    }
}

/// Whether the single-precision share of `count` in `total` is at least `m / scale`.
pub fn reaches(count: usize, total: usize, m: u128, scale: u128) -> (r: bool)
    requires
        1 <= m < 0x100_0000,
        scale <= 0x1_0000_0000,
    ensures
        r == share_reaches(count as nat, total as nat, m as nat, scale as nat),
{
    let whole: usize = if total == 0 {
        1
    } else {
        total
    };
    let a: u128 = to_single(count as u128);
    let b: u128 = to_single(whole as u128);
    assert(a <= 0x2_0000_0000_0000_0000 && b <= 0x2_0000_0000_0000_0000);
    assert(2 * a * scale <= 2 * 0x2_0000_0000_0000_0000 * 0x1_0000_0000) by (nonlinear_arith)
        requires
            a <= 0x2_0000_0000_0000_0000,
            scale <= 0x1_0000_0000,
    ;
    assert((2 * m - 1) * b <= 0x200_0000 * 0x2_0000_0000_0000_0000) by (nonlinear_arith)
        requires
            b <= 0x2_0000_0000_0000_0000,
            1 <= m < 0x100_0000,
    ;
    2 * a * scale > (2 * m - 1) * b
}

/// Rounding goes to the nearest multiple, and halfway to the even one.
pub proof fn rounding_goes_to_the_nearest(m: nat, u: nat, k: nat)
    requires
        u >= 1,
    ensures
        rounded(m, u) % u == 0,
        2 * m < 2 * (k * u) + u && 2 * (k * u) < 2 * m + u ==> rounded(m, u) == k * u,
        2 * m == 2 * (k * u) + u && k % 2 == 0 ==> rounded(m, u) == k * u,
        2 * m == 2 * (k * u) + u && k % 2 == 1 ==> rounded(m, u) == k * u + u,
{
    let q = m / u;
    let r = m % u;
    assert(m == q * u + r && r < u) by (nonlinear_arith)
        requires
            q == m / u,
            r == m % u,
            u >= 1,
    ;
    assert((q + 1) * u == q * u + u) by (nonlinear_arith);
    assert((q * u) % u == 0 && ((q + 1) * u) % u == 0) by (nonlinear_arith)
        requires
            u >= 1,
    ;
    if k < q {
        assert(k * u + u <= q * u) by (nonlinear_arith)
            requires
                k + 1 <= q,
                u >= 1,
        ;
    } else if k > q + 1 {
        assert(q * u + 2 * u <= k * u) by (nonlinear_arith)
            requires
                q + 2 <= k,
                u >= 1,
        ;
    }
}

/// A number is rounded to 24 significant bits.
pub proof fn numbers_keep_24_bits(m: nat)
    ensures
        m < 0x100_0000 ==> single(m) == m,
        m >= 0x100_0000 ==> single(m) == rounded(m, unit(m)) && 0x80_0000 * unit(m) <= m
            < 0x100_0000 * unit(m),
{
    lemma_single(m);
    lemma_unit(m);
    if unit(m) == 1 {
        assert(m < 0x100_0000);
    }
}

/// A share is what the count is of the total, and of nothing at all there is no share. For numbers
/// that need no rounding it reaches a threshold when it lies past the middle between it and the
/// number below.
pub proof fn shares_reach_past_the_middle(count: nat, total: nat, m: nat, scale: nat)
    requires
        count < 0x100_0000,
        0 < total < 0x100_0000,
        m >= 1,
    ensures
        share_reaches(count, total, m, scale) <==> 2 * count * scale > (2 * m - 1) * total,
        share_reaches(count, 0, m, scale) <==> 2 * count * scale > 2 * m - 1,
{
    lemma_single(count);
    lemma_single(total);
    lemma_single(1);
}

} // verus!
