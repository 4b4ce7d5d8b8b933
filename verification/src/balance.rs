//! The balance check of the runs test: whether the share of set bits is
//! close enough to one half for the number of runs to mean anything.
//!
//! The bound is two over the square root of the length. Here it is decided on
//! integers alone, and held against the root by fractions on either side of it.

use vstd::prelude::*;

verus! {

/// How far `ones` set bits out of `n` are from one half of them, doubled:
/// `|2*ones - n|`. The share `ones/n` differs from one half by this over `2*n`.
pub open spec fn deviation(n: nat, ones: nat) -> nat {
    if 2 * ones >= n {
        (2 * ones - n) as nat
    } else {
        (n - 2 * ones) as nat
    }
}

/// Whether the share of set bits, `ones` out of `n`, lies further from one
/// half than two over the square root of `n`.
///
/// For positive `n`, `|ones/n - 1/2| > 2/sqrt(n)` says `|2*ones - n| * sqrt(n) > 4*n`;
/// both sides are non-negative, so squaring and dividing by `n` gives the
/// inequality below, which needs no root and no quotient.
/// [`lemma_unbalanced_from_below`] and [`lemma_unbalanced_from_above`] hold
/// it against every fraction on either side of the root.
pub open spec fn unbalanced(n: nat, ones: nat) -> bool {
    deviation(n, ones) * deviation(n, ones) > 16 * n
}

/// Whether the share of `ones` set bits out of `n` lies further from one
/// half than two over the fraction `r/q`: `|ones/n - 1/2| > 2/(r/q)`, cleared
/// of its denominators.
pub open spec fn exceeds(n: nat, ones: nat, r: nat, q: nat) -> bool {
    deviation(n, ones) * r > 4 * n * q
}

/// Decides in exact arithmetic whether `ones` set bits out of `n` are too far
/// from one half.
pub fn is_unbalanced(n: usize, ones: usize) -> (r: bool)
    ensures
        r == unbalanced(n as nat, ones as nat),
{
    let wide_n: u128 = n as u128;
    let twice: u128 = 2 * (ones as u128);
    let d: u128 = if twice >= wide_n { twice - wide_n } else { wide_n - twice };
    let bound: u128 = 16 * wide_n;
    assert(d == deviation(n as nat, ones as nat));
    if d >= 0x4_0000_0000 {
        proof {
            assert(d * d >= 0x4_0000_0000 * 0x4_0000_0000) by (nonlinear_arith)
                requires
                    d >= 0x4_0000_0000,
            ;
        }
        true
    } else {
        proof {
            assert(d * d <= 0x4_0000_0000 * 0x4_0000_0000) by (nonlinear_arith)
                requires
                    0 <= d < 0x4_0000_0000,
            ;
        }
        d * d > bound
    }
}

/// A share of set bits that exceeds two over some fraction `r/q` not above
/// the square root of `n` is unbalanced.
pub proof fn lemma_unbalanced_from_below(n: nat, ones: nat, r: nat, q: nat)
    requires
        q >= 1,
        r * r <= n * q * q,
        exceeds(n, ones, r, q),
    ensures
        unbalanced(n, ones),
{
    let d: int = deviation(n, ones) as int;
    let n: int = n as int;
    let r: int = r as int;
    let q: int = q as int;
    let lo: int = 4 * n * q;
    let hi: int = d * r;
    assert(hi * hi > lo * lo) by (nonlinear_arith)
        requires
            hi > lo,
            lo >= 0,
    ;
    assert(hi * hi == (d * d) * (r * r)) by (nonlinear_arith)
        requires
            hi == d * r,
    ;
    assert(lo * lo == (16 * n) * (n * q * q)) by (nonlinear_arith)
        requires
            lo == 4 * n * q,
    ;
    let m: int = n * q * q;
    assert((d * d) * (r * r) <= (d * d) * m) by (nonlinear_arith)
        requires
            r * r <= m,
    ;
    assert(d * d > 16 * n) by (nonlinear_arith)
        requires
            (d * d) * m > (16 * n) * m,
            m >= 0,
    ;
}

/// An unbalanced share of set bits exceeds two over every fraction `r/q` not
/// below the square root of `n`.
pub proof fn lemma_unbalanced_from_above(n: nat, ones: nat, r: nat, q: nat)
    requires
        n >= 1,
        q >= 1,
        r * r >= n * q * q,
        unbalanced(n, ones),
    ensures
        exceeds(n, ones, r, q),
{
    let d: int = deviation(n, ones) as int;
    let n: int = n as int;
    let r: int = r as int;
    let q: int = q as int;
    let lo: int = 4 * n * q;
    let hi: int = d * r;
    let m: int = n * q * q;
    assert(m >= 1) by (nonlinear_arith)
        requires
            m == n * q * q,
            n >= 1,
            q >= 1,
    ;
    assert((d * d) * (r * r) >= (d * d) * m) by (nonlinear_arith)
        requires
            r * r >= m,
    ;
    assert((d * d) * m > (16 * n) * m) by (nonlinear_arith)
        requires
            d * d > 16 * n,
            m >= 1,
    ;
    assert(hi * hi == (d * d) * (r * r)) by (nonlinear_arith)
        requires
            hi == d * r,
    ;
    assert(lo * lo == (16 * n) * m) by (nonlinear_arith)
        requires
            lo == 4 * n * q,
            m == n * q * q,
    ;
    assert(hi > lo) by (nonlinear_arith)
        requires
            hi * hi > lo * lo,
            hi >= 0,
            lo >= 0,
    ;
}

/// Where `n` is the square of `r`, a share is unbalanced exactly if its
/// doubled distance from one half, `|2*ones - n|`, is more than four times `r`.
pub proof fn lemma_unbalanced_square(n: nat, ones: nat, r: nat)
    requires
        r >= 1,
        n == r * r,
    ensures
        unbalanced(n, ones) <==> deviation(n, ones) > 4 * r,
{
    let d: int = deviation(n, ones) as int;
    let r: int = r as int;
    assert(d * d > 16 * (r * r) <==> d > 4 * r) by (nonlinear_arith)
        requires
            d >= 0,
            r >= 1,
    ;
}

} // verus!
