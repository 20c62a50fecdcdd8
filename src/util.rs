use vstd::arithmetic::div_mod::{lemma_fundamental_div_mod, lemma_mod_multiples_basic};
use vstd::arithmetic::power2::{
    is_pow2, is_pow2_equiv, lemma2_to64, lemma_pow2, lemma_pow2_adds, lemma_pow2_pos,
    lemma_pow2_strictly_increases, pow2,
};
use vstd::bits::{lemma_usize_low_bits_mask_is_mod, low_bits_mask};
use vstd::prelude::*;

verus! {

/// The smallest multiple of `align` that is at least `x` (for `align > 0`).
pub open spec fn round_up(x: int, align: int) -> int
    recommends
        align > 0,
{
    (x + align - 1) / align * align
}

/// `round_up(x, align)` is a multiple of `align` in `[x, x + align - 1]`.
pub proof fn lemma_round_up_bounds(x: int, align: int)
    requires
        x >= 0,
        align > 0,
    ensures
        x <= round_up(x, align) <= x + align - 1,
        round_up(x, align) % align == 0,
{
    let y = x + align - 1;
    lemma_fundamental_div_mod(y, align);
    assert(y / align * align == align * (y / align)) by (nonlinear_arith);
    lemma_mod_multiples_basic(y / align, align);
}

/// No multiple of `align` lies in `[x, round_up(x, align))`.
pub proof fn lemma_round_up_least(x: int, align: int, v: int)
    requires
        x >= 0,
        align > 0,
        x <= v,
        v % align == 0,
    ensures
        round_up(x, align) <= v,
{
    let y = x + align - 1;
    lemma_fundamental_div_mod(y, align);
    lemma_fundamental_div_mod(v, align);
    let q = y / align;
    let t = v / align;
    // v == align * t and y < align * (q + 1), so t >= q.
    assert(t >= q) by (nonlinear_arith)
        requires
            align > 0,
            v == align * t,
            y == align * q + y % align,
            0 <= y % align < align,
            x <= v,
            y == x + align - 1,
    ;
    assert(q * align <= t * align) by (nonlinear_arith)
        requires
            align > 0,
            q <= t,
    ;
    assert(t * align == align * t) by (nonlinear_arith);
    assert(v % align == 0);
    assert(round_up(x, align) == q * align);
}

/// A rounding whose mask form would overflow a `usize` has no `usize` result:
/// `usize::MAX + 1` is itself a multiple of every power of two that fits.
pub proof fn lemma_round_up_exceeds_usize(x: usize, align: usize)
    requires
        is_pow2(align as int),
        x + align - 1 > usize::MAX,
    ensures
        round_up(x as int, align as int) > usize::MAX,
{
    let k = lemma_usize_pow2_exponent(align);
    lemma2_to64();
    let top: int = usize::MAX + 1;
    assert(pow2(usize::BITS as nat) == top);
    lemma_pow2_adds(k, (usize::BITS - k) as nat);
    let m: int = pow2((usize::BITS - k) as nat) as int;
    assert(top == align * m);
    lemma_pow2_pos((usize::BITS - k) as nat);
    // round_up(x) is a multiple of align at or above x, and the largest
    // multiple below top, top - align, is under x.
    let r = round_up(x as int, align as int);
    lemma_round_up_bounds(x as int, align as int);
    assert(r > usize::MAX) by {
        if r <= usize::MAX {
            // r < top, both multiples of align, so r <= top - align < x.
            lemma_fundamental_div_mod(r, align as int);
            let t = r / align as int;
            assert(t < m) by (nonlinear_arith)
                requires
                    r == align * t,
                    r < top,
                    top == align * m,
                    align > 0,
            ;
            assert(r <= top - align) by (nonlinear_arith)
                requires
                    r == align * t,
                    t <= m - 1,
                    top == align * m,
                    align > 0,
            ;
        }
    }
}

/// The exponent of a power of two that fits in a `usize`: `pow2(k) == n`, `k < usize::BITS`.
pub proof fn lemma_usize_pow2_exponent(n: usize) -> (k: nat)
    requires
        is_pow2(n as int),
    ensures
        pow2(k) == n,
        k < usize::BITS,
{
    is_pow2_equiv(n as int);
    let k = choose|i: nat| vstd::arithmetic::power::pow(2, i) == n as int;
    lemma_pow2(k);
    lemma2_to64();
    if k >= usize::BITS {
        if k > usize::BITS {
            lemma_pow2_strictly_increases(usize::BITS as nat, k);
        }
    }
    k
}

/// Whether `n` is a power of two (so zero is not).
pub fn is_power_of_two(n: usize) -> (r: bool)
    ensures
        r == is_pow2(n as int),
{
    let mut m: usize = n;
    while m > 1 && m % 2 == 0
        invariant
            is_pow2(m as int) == is_pow2(n as int),
        decreases m,
    {
        proof {
            reveal(is_pow2);
        }
        m = m / 2;
    }
    proof {
        reveal(is_pow2);
    }
    m == 1
}

/// Rounds `base` up to the next multiple of `align`, a power of two.
///
/// The rounding is the mask form `(base + align - 1) & !(align - 1)`, which
/// equals the division form because `align` is a power of two.
pub fn align_up(base: usize, align: usize) -> (r: usize)
    requires
        is_pow2(align as int),
        base + align - 1 <= usize::MAX,
    ensures
        r == round_up(base as int, align as int),
{
    let ghost k = lemma_usize_pow2_exponent(align);
    proof {
        lemma_pow2_pos(k);
    }
    let mask: usize = align - 1;
    let sum: usize = base + mask;
    proof {
        assert(low_bits_mask(k) == mask);
        lemma_usize_low_bits_mask_is_mod(sum, k);
        assert(sum & mask == sum % align);
        assert(sum & !mask == sum - (sum & mask)) by (bit_vector);
        lemma_fundamental_div_mod(sum as int, align as int);
        assert(sum as int / align as int * align as int == align * (sum as int / align as int))
            by (nonlinear_arith);
        assert((sum & !mask) as int == sum as int / align as int * align as int);
    }
    sum & !mask
}

} // verus!
