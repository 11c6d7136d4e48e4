//! Facts about powers of two and the integer logarithm to base two that the
//! sizing and layout proofs share.

use vstd::prelude::*;
use vstd::arithmetic::div_mod::*;
use vstd::arithmetic::logarithm::*;
use vstd::arithmetic::power2::*;
use vstd::bits::*;
use vstd::std_specs::bits::*;

verus! {

/// The integer logarithm brackets its argument between two neighbouring
/// powers of two.
pub proof fn lemma_log2_bracket(n: nat)
    requires
        n >= 1,
    ensures
        log(2, n as int) >= 0,
        pow2(log(2, n as int) as nat) <= n < pow2((log(2, n as int) + 1) as nat),
    decreases n,
{
    lemma_log_nonnegative(2, n as int);
    if n < 2 {
        lemma_log0(2, n as int);
        lemma2_to64();
    } else {
        lemma_log_s(2, n as int);
        lemma_log2_bracket(n / 2);
        let l = log(2, (n / 2) as int);
        lemma_pow2_unfold((l + 1) as nat);
        lemma_pow2_unfold((l + 2) as nat);
    }
}

/// A number lies between at most one pair of neighbouring powers of two.
pub proof fn lemma_pow2_bracket_unique(n: nat, a: nat, b: nat)
    requires
        pow2(a) <= n < pow2(a + 1),
        pow2(b) <= n < pow2(b + 1),
    ensures
        a == b,
{
    if a < b {
        if a + 1 < b {
            lemma_pow2_strictly_increases(a + 1, b);
        }
    } else if b < a {
        if b + 1 < a {
            lemma_pow2_strictly_increases(b + 1, a);
        }
    }
}

/// Whatever power of two brackets `n` from below has the logarithm of `n`
/// as its exponent.
pub proof fn lemma_log2_of_bracket(n: nat, e: nat)
    requires
        pow2(e) <= n < pow2(e + 1),
    ensures
        log(2, n as int) == e,
{
    lemma_pow2_pos(e);
    lemma_log2_bracket(n);
    lemma_pow2_bracket_unique(n, e, log(2, n as int) as nat);
}

/// Of two powers of two the smaller divides the larger.
pub proof fn lemma_pow2_divides(larger: nat, smaller: nat)
    requires
        pow2(larger) >= pow2(smaller),
    ensures
        pow2(larger) % pow2(smaller) == 0,
{
    if larger < smaller {
        lemma_pow2_strictly_increases(larger, smaller);
    }
    lemma_pow2_adds((larger - smaller) as nat, smaller);
    lemma_pow2_pos(smaller);
    lemma_mod_multiples_basic(pow2((larger - smaller) as nat) as int, pow2(smaller) as int);
}

/// The sum of two multiples of a number is a multiple of it.
pub proof fn lemma_sum_of_multiples(a: nat, b: nat, unit: nat)
    requires
        unit > 0,
        a % unit == 0,
        b % unit == 0,
    ensures
        (a + b) % unit == 0,
{
    lemma_fundamental_div_mod(a as int, unit as int);
    lemma_fundamental_div_mod(b as int, unit as int);
    let parts = a as int / unit as int + b as int / unit as int;
    assert(a + b == parts * unit) by (nonlinear_arith)
        requires
            a == unit * (a as int / unit as int),
            b == unit * (b as int / unit as int),
            parts == a as int / unit as int + b as int / unit as int,
    ;
    lemma_mod_multiples_basic(parts, unit as int);
}

/// A multiple of a multiple of a number is a multiple of it.
pub proof fn lemma_multiple_of_multiple(a: nat, b: nat, unit: nat)
    requires
        unit > 0,
        b > 0,
        a % b == 0,
        b % unit == 0,
    ensures
        a % unit == 0,
{
    lemma_fundamental_div_mod(a as int, b as int);
    lemma_fundamental_div_mod(b as int, unit as int);
    let parts = (a as int / b as int) * (b as int / unit as int);
    assert(a == parts * unit) by (nonlinear_arith)
        requires
            a == b * (a as int / b as int),
            b == unit * (b as int / unit as int),
            parts == (a as int / b as int) * (b as int / unit as int),
    ;
    lemma_mod_multiples_basic(parts, unit as int);
}

/// The count of leading zero bits of a nonzero 32-bit number gives its
/// logarithm.
pub proof fn lemma_leading_zeros_log2(n: u32)
    requires
        n > 0,
    ensures
        1 <= 32 - u32_leading_zeros(n) <= 32,
        log(2, n as int) == 31 - u32_leading_zeros(n),
{
    axiom_u32_leading_zeros(n);
    let zeros: u32 = u32_leading_zeros(n);
    let low: u32 = (31 - zeros) as u32;
    assert(n >> low >= 1) by (bit_vector)
        requires
            (n >> low) & 1u32 != 0u32,
    ;
    lemma_u32_shr_is_div(n, low);
    lemma_pow2_pos(low as nat);
    assert(n >= pow2(low as nat)) by (nonlinear_arith)
        requires
            n as nat / pow2(low as nat) >= 1,
            pow2(low as nat) > 0,
    ;
    if zeros == 0 {
        lemma2_to64();
    } else {
        let high: u32 = (32 - zeros) as u32;
        lemma_u32_shr_is_div(n, high);
        lemma_pow2_pos(high as nat);
        assert(n < pow2(high as nat)) by (nonlinear_arith)
            requires
                n as nat / pow2(high as nat) == 0,
                pow2(high as nat) > 0,
        ;
    }
    lemma_log2_of_bracket(n as nat, low as nat);
}

/// For a power of two that a 32-bit number holds, the leading zero bits of
/// its predecessor count the bits that its exponent leaves free.
pub proof fn lemma_leading_zeros_below_pow2(size: u32, bits: nat)
    requires
        1 <= bits <= 31,
        size == pow2(bits),
    ensures
        log(2, size as int) == bits,
        u32_leading_zeros((size - 1) as u32) == 32 - bits,
{
    lemma_pow2_unfold(bits);
    lemma_pow2_unfold(bits + 1);
    lemma_pow2_pos((bits - 1) as nat);
    lemma_log2_of_bracket(size as nat, bits);
    lemma_log2_of_bracket((size - 1) as nat, (bits - 1) as nat);
    lemma_leading_zeros_log2((size - 1) as u32);
}

} // verus!
