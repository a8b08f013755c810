//! Fixed-point arithmetic on genes.

use vstd::prelude::*;
use vstd::arithmetic::div_mod::lemma_div_is_ordered;
use vstd::arithmetic::div_mod::lemma_div_pos_is_pos;
use vstd::arithmetic::div_mod::lemma_fundamental_div_mod;

verus! {

/// One whole, in ticks: the gene 1.0 is stored as `UNIT`, the gene 0.0 as 0.
pub const UNIT: i64 = 1_000_000_000;

/// Magnitude of `factor * spread` from which the scaled step leaves every `i64` behind.
const SATURATION: u128 = 18_446_744_073_709_551_616_000_000_000;

/// A gene lies between 0 and one whole.
pub open spec fn is_gene(x: i64) -> bool {
    0 <= x <= UNIT
}

/// Every entry of the vector is a gene.
pub open spec fn all_genes(genes: Seq<i64>) -> bool {
    forall|i: int| 0 <= i < genes.len() ==> is_gene(#[trigger] genes[i])
}

/// The nearest value to `x` between 0 and one whole.
pub open spec fn clamped(x: int) -> int {
    if x < 0 {
        0
    } else if x > UNIT {
        UNIT as int
    } else {
        x
    }
}

/// `factor * spread` read as a product of two fixed-point numbers, rounded toward zero.
pub open spec fn scaled(factor: int, spread: int) -> int {
    let product: int = factor * spread;
    if product >= 0 {
        product / (UNIT as int)
    } else {
        -((-product) / (UNIT as int))
    }
}

/// The mutated gene: the base moved by the scaled spread, then clamped.
pub open spec fn mutated(base: int, factor: int, spread: int) -> int {
    clamped(base + scaled(factor, spread))
}

/// The absolute value of an integer.
pub open spec fn magnitude(x: int) -> int {
    if x < 0 {
        -x
    } else {
        x
    }
}

fn factor_magnitude(x: i64) -> (m: u128)
    ensures
        m == magnitude(x as int),
{
    if x < 0 {
        let wide: i128 = x as i128;
        (-wide) as u128
    } else {
        x as u128
    }
}

fn spread_magnitude(x: i128) -> (m: u128)
    ensures
        m == magnitude(x as int),
{
    if x == i128::MIN {
        170_141_183_460_469_231_731_687_303_715_884_105_728u128
    } else if x < 0 {
        (-x) as u128
    } else {
        x as u128
    }
}

proof fn lemma_product_magnitude(factor: int, spread: int)
    ensures
        magnitude(factor * spread) == magnitude(factor) * magnitude(spread),
        (factor * spread >= 0) == (factor == 0 || spread == 0 || ((factor > 0) == (spread > 0))),
{
    assert(magnitude(factor * spread) == magnitude(factor) * magnitude(spread)) by (nonlinear_arith);
    assert((factor * spread >= 0) == (factor == 0 || spread == 0 || ((factor > 0) == (spread > 0))))
        by (nonlinear_arith);
}

proof fn lemma_beyond_quotient(f: int, s: int, limit: int)
    requires
        s > 0,
        limit >= 0,
        f > limit / s,
    ensures
        f * s > limit,
{
    lemma_fundamental_div_mod(limit, s);
    let q: int = limit / s;
    assert(limit == s * q + limit % s);
    assert(0 <= limit % s < s) by {
        vstd::arithmetic::div_mod::lemma_mod_bound(limit, s);
    }
    assert(f * s >= (q + 1) * s) by (nonlinear_arith)
        requires
            f >= q + 1,
            s > 0,
    ;
    assert((q + 1) * s == s * q + s) by (nonlinear_arith);
}

proof fn lemma_within_quotient(f: int, s: int, limit: int)
    requires
        s > 0,
        limit >= 0,
        0 <= f <= limit / s,
    ensures
        0 <= f * s <= limit,
{
    lemma_fundamental_div_mod(limit, s);
    let q: int = limit / s;
    assert(0 <= limit % s < s) by {
        vstd::arithmetic::div_mod::lemma_mod_bound(limit, s);
    }
    assert(f * s <= q * s) by (nonlinear_arith)
        requires
            0 <= f <= q,
            s > 0,
    ;
    assert(0 <= f * s) by (nonlinear_arith)
        requires
            0 <= f,
            s > 0,
    ;
    assert(q * s == s * q) by (nonlinear_arith);
}

/// Moves `base` by `factor * spread`, both fixed-point, and clamps the
/// outcome into the range of a gene. No input overflows.
pub fn mutate_gene(base: i64, factor: i64, spread: i128) -> (gene: i64)
    ensures
        gene == mutated(base as int, factor as int, spread as int),
        is_gene(gene),
{
    let f: u128 = factor_magnitude(factor);
    let s: u128 = spread_magnitude(spread);
    proof {
        lemma_product_magnitude(factor as int, spread as int);
    }
    if f == 0 || s == 0 {
        assert(factor as int * spread as int == 0) by (nonlinear_arith)
            requires
                factor == 0 || spread == 0,
        ;
        return if base < 0 {
            0
        } else if base > UNIT {
            UNIT
        } else {
            base
        };
    }
    let upward: bool = (factor > 0) == (spread > 0);
    if f > SATURATION / s {
        proof {
            lemma_beyond_quotient(f as int, s as int, SATURATION as int);
            lemma_div_is_ordered(SATURATION as int, f as int * s as int, UNIT as int);
            assert(SATURATION as int / (UNIT as int) == 18_446_744_073_709_551_616int);
        }
        return if upward {
            UNIT
        } else {
            0
        };
    }
    proof {
        lemma_within_quotient(f as int, s as int, SATURATION as int);
        lemma_div_is_ordered(f as int * s as int, SATURATION as int, UNIT as int);
        lemma_div_pos_is_pos(f as int * s as int, UNIT as int);
        assert(SATURATION as int / (UNIT as int) == 18_446_744_073_709_551_616int);
    }
    let product: u128 = f * s;
    let step: i128 = (product / (UNIT as u128)) as i128;
    let moved: i128 = if upward {
        base as i128 + step
    } else {
        base as i128 - step
    };
    if moved < 0 {
        0
    } else if moved > UNIT as i128 {
        UNIT
    } else {
        moved as i64
    }
}

} // verus!
