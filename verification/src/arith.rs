//! Mathematical notions the contracts speak of: the greatest common divisor,
//! falling and rising factorial products, and digit-string values.

use vstd::prelude::*;

verus! {

/// Greatest common divisor, by the Euclidean recursion.
pub open spec fn spec_gcd(a: nat, b: nat) -> nat
    decreases b,
{
    if b == 0 {
        a
    } else {
        spec_gcd(b, a % b)
    }
}

/// The falling factorial product `x * (x-1) * ... * (x-k+1)`, the empty
/// product for `k == 0`.
pub open spec fn falling_prod(x: int, k: nat) -> int
    decreases k,
{
    if k == 0 {
        1
    } else {
        x * falling_prod(x - 1, (k - 1) as nat)
    }
}

/// The rising factorial product `x * (x+1) * ... * (x+k-1)`, the empty
/// product for `k == 0`.
pub open spec fn rising_prod(x: int, k: nat) -> int
    decreases k,
{
    if k == 0 {
        1
    } else {
        x * rising_prod(x + 1, (k - 1) as nat)
    }
}

/// A falling product grows on the right by its next, one smaller, factor.
pub proof fn lemma_falling_prod_step(x: int, k: nat)
    ensures
        falling_prod(x, k + 1) == falling_prod(x, k) * (x - k),
    decreases k,
{
    if k == 0 {
        assert(falling_prod(x, 1) == x * falling_prod(x - 1, 0));
    } else {
        lemma_falling_prod_step(x - 1, (k - 1) as nat);
        assert(x * (falling_prod(x - 1, (k - 1) as nat) * (x - 1 - (k - 1))) == (x * falling_prod(
            x - 1,
            (k - 1) as nat,
        )) * (x - k)) by (nonlinear_arith);
    }
}

/// A rising product grows on the right by its next, one larger, factor.
pub proof fn lemma_rising_prod_step(x: int, k: nat)
    ensures
        rising_prod(x, k + 1) == rising_prod(x, k) * (x + k),
    decreases k,
{
    if k == 0 {
        assert(rising_prod(x, 1) == x * rising_prod(x + 1, 0));
    } else {
        lemma_rising_prod_step(x + 1, (k - 1) as nat);
        assert(x * (rising_prod(x + 1, (k - 1) as nat) * (x + 1 + (k - 1))) == (x * rising_prod(
            x + 1,
            (k - 1) as nat,
        )) * (x + k)) by (nonlinear_arith);
    }
}

/// The value of one digit character, case-insensitive up to base 36; any
/// other character gets the sentinel `36`, which no radix in range admits.
pub open spec fn digit_val(c: char) -> int {
    let v = c as int;
    if '0' as int <= v <= '9' as int {
        v - '0' as int
    } else if 'a' as int <= v <= 'z' as int {
        v - 'a' as int + 10
    } else if 'A' as int <= v <= 'Z' as int {
        v - 'A' as int + 10
    } else {
        36
    }
}

/// The value of a digit string read most-significant first, by Horner's
/// rule; the empty string reads as `0`.
pub open spec fn radix_val(s: Seq<char>, radix: int) -> int
    decreases s.len(),
{
    if s.len() == 0 {
        0
    } else {
        radix_val(s.drop_last(), radix) * radix + digit_val(s.last())
    }
}

/// A digit string never reads as a negative value.
pub proof fn lemma_radix_val_nonneg(s: Seq<char>, radix: int)
    requires
        0 <= radix,
    ensures
        0 <= radix_val(s, radix),
    decreases s.len(),
{
    if s.len() > 0 {
        lemma_radix_val_nonneg(s.drop_last(), radix);
        assert(0 <= radix_val(s.drop_last(), radix) * radix) by (nonlinear_arith)
            requires
                0 <= radix_val(s.drop_last(), radix),
                0 <= radix,
        ;
    }
}

/// Reading more digits never shrinks the value: every prefix of a digit
/// string reads at most as much as the whole.
pub proof fn lemma_radix_val_prefix_le(s: Seq<char>, radix: int, j: int)
    requires
        1 <= radix,
        0 <= j <= s.len(),
    ensures
        radix_val(s.take(j), radix) <= radix_val(s, radix),
    decreases s.len() - j,
{
    if j == s.len() {
        assert(s.take(j) =~= s);
    } else {
        lemma_radix_val_prefix_le(s, radix, j + 1);
        assert(s.take(j + 1).drop_last() =~= s.take(j));
        assert(s.take(j + 1).last() == s[j]);
        let v = radix_val(s.take(j), radix);
        lemma_radix_val_nonneg(s.take(j), radix);
        assert(v <= v * radix + digit_val(s[j])) by (nonlinear_arith)
            requires
                0 <= v,
                1 <= radix,
                0 <= digit_val(s[j]),
        ;
    }
}

} // verus!
