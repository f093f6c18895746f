use vstd::prelude::*;

verus! {

/// `value` rounded up to the next multiple of `alignment`.
pub open spec fn rounded_up(value: int, alignment: int) -> int {
    if value % alignment == 0 {
        value
    } else {
        value + (alignment - value % alignment)
    }
}

/// `value` rounded down to a multiple of `alignment`.
pub open spec fn rounded_down(value: int, alignment: int) -> int {
    value - value % alignment
}

/// `value` is one of 1, 2, 4, 8, and so on.
pub open spec fn power_of_two(value: int) -> bool {
    exists|exponent: nat| value == #[trigger] vstd::arithmetic::power2::pow2(exponent)
}

/// Law: the powers of two are 1 and the doubles of powers of two, and no other number.
pub proof fn powers_of_two_double(value: int)
    ensures
        power_of_two(1),
        power_of_two(2 * value) <==> power_of_two(value) || 2 * value == 1,
        value % 2 == 1 && value != 1 ==> !power_of_two(value),
        power_of_two(value) ==> value > 0,
{
    vstd::arithmetic::power2::lemma2_to64();
    assert(1 == vstd::arithmetic::power2::pow2(0));
    if power_of_two(value) {
        let exponent = choose|exponent: nat|
            value == #[trigger] vstd::arithmetic::power2::pow2(exponent);
        vstd::arithmetic::power2::lemma_pow2_pos(exponent);
        vstd::arithmetic::power2::lemma_pow2_unfold(exponent + 1);
        assert(2 * value == vstd::arithmetic::power2::pow2(exponent + 1));
        if exponent > 0 {
            vstd::arithmetic::power2::lemma_pow2_unfold(exponent);
        }
    }
    if power_of_two(2 * value) {
        let exponent = choose|exponent: nat|
            2 * value == #[trigger] vstd::arithmetic::power2::pow2(exponent);
        if exponent > 0 {
            vstd::arithmetic::power2::lemma_pow2_unfold(exponent);
            assert(value == vstd::arithmetic::power2::pow2((exponent - 1) as nat));
        }
    }
}

/// Rounding up gives the least multiple of `alignment` that is not below `value`.
pub proof fn rounded_up_is_least_multiple(value: int, alignment: int)
    requires
        0 <= value,
        0 < alignment,
    ensures
        value <= rounded_up(value, alignment) < value + alignment,
        rounded_up(value, alignment) % alignment == 0,
        forall|other: int|
            value <= other && #[trigger] (other % alignment) == 0 ==> rounded_up(value, alignment) <= other,
{
    let up = rounded_up(value, alignment);
    let r = value % alignment;
    let q = value / alignment;
    vstd::arithmetic::div_mod::lemma_fundamental_div_mod(value, alignment);
    if r != 0 {
        assert(up == alignment * (q + 1)) by (nonlinear_arith)
            requires
                value == alignment * q + r,
                up == value + (alignment - r),
        ;
        vstd::arithmetic::div_mod::lemma_mod_multiples_basic(q + 1, alignment);
        assert(alignment * (q + 1) == (q + 1) * alignment) by (nonlinear_arith);
    }
    assert forall|other: int| value <= other && #[trigger] (other % alignment) == 0 implies up <= other by {
        vstd::arithmetic::div_mod::lemma_fundamental_div_mod(other, alignment);
        let k = other / alignment;
        if other < up {
            assert(r != 0);
            assert(k < q + 1) by (nonlinear_arith)
                requires
                    other == alignment * k,
                    up == alignment * (q + 1),
                    other < up,
                    alignment > 0,
            ;
            assert(alignment * k <= alignment * q) by (nonlinear_arith)
                requires
                    k <= q,
                    alignment > 0,
            ;
            assert(other <= value - r);
        }
    }
}

/// Law: rounding down gives the greatest multiple of `alignment` that is not above `value`.
pub proof fn rounded_down_is_greatest_multiple(value: int, alignment: int)
    requires
        0 <= value,
        0 < alignment,
    ensures
        value - alignment < rounded_down(value, alignment) <= value,
        rounded_down(value, alignment) % alignment == 0,
        forall|other: int|
            other <= value && #[trigger] (other % alignment) == 0 ==> other <= rounded_down(
                value,
                alignment,
            ),
{
    let down = rounded_down(value, alignment);
    let (quotient, rest) = (value / alignment, value % alignment);
    vstd::arithmetic::div_mod::lemma_fundamental_div_mod(value, alignment);
    vstd::arithmetic::div_mod::lemma_mod_bound(value, alignment);
    assert(alignment * quotient == quotient * alignment) by (nonlinear_arith);
    vstd::arithmetic::div_mod::lemma_mod_multiples_basic(quotient, alignment);
    assert forall|other: int| other <= value && #[trigger] (other % alignment) == 0 implies other
        <= down by {
        vstd::arithmetic::div_mod::lemma_fundamental_div_mod(other, alignment);
        let times = other / alignment;
        if times >= quotient + 1 {
            assert(alignment * times >= alignment * quotient + alignment) by (nonlinear_arith)
                requires
                    times >= quotient + 1,
                    alignment > 0,
            ;
        }
        assert(times <= quotient ==> alignment * times <= alignment * quotient) by (nonlinear_arith)
            requires
                alignment > 0,
        ;
    }
}

/// Rounds `value` up to a multiple of `alignment`, or `None` when the result overflows.
pub fn align_up_checked(value: usize, alignment: usize) -> (result: Option<usize>)
    requires
        alignment > 0,
    ensures
        result == if rounded_up(value as int, alignment as int) <= usize::MAX {
            Some(rounded_up(value as int, alignment as int) as usize)
        } else {
            None
        },
{
    let remainder: usize = value % alignment;
    if remainder == 0 {
        Some(value)
    } else {
        value.checked_add(alignment - remainder)
    }
}

/// Rounds `value` down to a multiple of `alignment`.
pub fn align_down(value: usize, alignment: usize) -> (result: usize)
    requires
        alignment > 0,
    ensures
        result == rounded_down(value as int, alignment as int),
{
    proof {
        vstd::arithmetic::div_mod::lemma_mod_bound(value as int, alignment as int);
        vstd::arithmetic::div_mod::lemma_mod_decreases(value as nat, alignment as nat);
    }
    value - (value % alignment)
}

/// Whether `value` is a power of two; zero is not.
pub fn is_power_of_two(value: usize) -> (result: bool)
    ensures
        result == power_of_two(value as int),
{
    if value == 0 {
        assert(!power_of_two(0)) by {
            assert forall|exponent: nat| 0 != #[trigger] vstd::arithmetic::power2::pow2(exponent) by {
                vstd::arithmetic::power2::lemma_pow2_pos(exponent);
            }
        }
        return false;
    }
    let mut rest: usize = value;
    while rest % 2 == 0
        invariant
            rest > 0,
            power_of_two(value as int) == power_of_two(rest as int),
        decreases rest,
    {
        proof {
            power_of_two_halves(rest as int);
        }
        rest = rest / 2;
    }
    proof {
        if rest == 1 {
            vstd::arithmetic::power2::lemma2_to64();
            assert(1 == vstd::arithmetic::power2::pow2(0));
        } else {
            assert forall|exponent: nat| rest as int != #[trigger] vstd::arithmetic::power2::pow2(exponent) by {
                if exponent == 0 {
                    vstd::arithmetic::power2::lemma2_to64();
                } else {
                    vstd::arithmetic::power2::lemma_pow2_unfold(exponent);
                }
            }
        }
    }
    rest == 1
}

proof fn power_of_two_halves(value: int)
    requires
        value > 0,
        value % 2 == 0,
    ensures
        power_of_two(value) == power_of_two(value / 2),
{
    if power_of_two(value) {
        let exponent = choose|exponent: nat| value == #[trigger] vstd::arithmetic::power2::pow2(exponent);
        if exponent == 0 {
            vstd::arithmetic::power2::lemma2_to64();
        } else {
            vstd::arithmetic::power2::lemma_pow2_unfold(exponent);
            assert(value / 2 == vstd::arithmetic::power2::pow2((exponent - 1) as nat));
        }
    }
    if power_of_two(value / 2) {
        let exponent = choose|exponent: nat| value / 2 == #[trigger] vstd::arithmetic::power2::pow2(exponent);
        vstd::arithmetic::power2::lemma_pow2_unfold(exponent + 1);
        assert(value == vstd::arithmetic::power2::pow2(exponent + 1));
    }
}

/// A power of two that is at least 64 is a multiple of 64.
pub proof fn large_power_of_two_is_multiple_of_64(value: int)
    requires
        power_of_two(value),
        value >= 64,
    ensures
        value % 64 == 0,
{
    let exponent = choose|exponent: nat| value == #[trigger] vstd::arithmetic::power2::pow2(exponent);
    vstd::arithmetic::power2::lemma2_to64();
    if exponent < 6 {
        vstd::arithmetic::power2::lemma_pow2_strictly_increases(exponent, 6);
    }
    vstd::arithmetic::power2::lemma_pow2_adds((exponent - 6) as nat, 6);
    let rest = vstd::arithmetic::power2::pow2((exponent - 6) as nat);
    assert(value == rest * 64);
}

/// Multiples of a multiple of 64 are multiples of 64.
pub proof fn multiple_of_multiple_of_64(value: int, alignment: int)
    requires
        alignment > 0,
        alignment % 64 == 0,
        value % alignment == 0,
    ensures
        value % 64 == 0,
{
    vstd::arithmetic::div_mod::lemma_fundamental_div_mod(value, alignment);
    vstd::arithmetic::div_mod::lemma_fundamental_div_mod(alignment, 64);
    let (q, k) = (value / alignment, alignment / 64);
    assert(value == (k * q) * 64) by (nonlinear_arith)
        requires
            value == alignment * q,
            alignment == 64 * k,
    ;
    vstd::arithmetic::div_mod::lemma_mod_multiples_basic(k * q, 64);
}

} // verus!
