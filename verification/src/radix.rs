//! Positional numerals with the least significant digit first.
//!
//! An index `i` below `base^len` is written as `len` digits, digit `k` being
//! `(i / base^k) % base`. The order that this induces on digit strings is the
//! numeric order of the index, not the lexicographic order of the strings.

use vstd::prelude::*;
use vstd::arithmetic::div_mod::*;
use vstd::arithmetic::mul::*;

verus! {

/// `base` raised to `exp`, with `power(base, 0) == 1` for every base.
pub open spec fn power(base: nat, exp: nat) -> nat
    decreases exp,
{
    if exp == 0 {
        1
    } else {
        base * power(base, (exp - 1) as nat)
    }
}

/// Digit `k` of `i` in the given base.
pub open spec fn digit(i: nat, base: nat, k: nat) -> nat {
    (i / power(base, k)) % base
}

/// The first `len` digits of `i`, least significant first.
pub open spec fn digits(i: nat, base: nat, len: nat) -> Seq<nat> {
    Seq::new(len, |k: int| digit(i, base, k as nat))
}

/// Every digit lies below the base.
pub open spec fn digits_in_base(d: Seq<nat>, base: nat) -> bool {
    forall|k: int| 0 <= k < d.len() ==> #[trigger] d[k] < base
}

/// The number that a digit string denotes, least significant digit first.
pub open spec fn compose(d: Seq<nat>, base: nat) -> nat
    decreases d.len(),
{
    if d.len() == 0 {
        0
    } else {
        d[0] + base * compose(d.drop_first(), base)
    }
}

/// A positive base has positive powers.
pub proof fn lemma_power_positive(base: nat, exp: nat)
    requires
        base > 0,
    ensures
        power(base, exp) > 0,
    decreases exp,
{
    if exp > 0 {
        lemma_power_positive(base, (exp - 1) as nat);
        lemma_mul_strictly_positive(base as int, power(base, (exp - 1) as nat) as int);
    }
}

/// Powers of a positive base do not decrease with the exponent.
pub proof fn lemma_power_monotonic(base: nat, lo: nat, hi: nat)
    requires
        base > 0,
        lo <= hi,
    ensures
        power(base, lo) <= power(base, hi),
    decreases hi,
{
    if lo < hi {
        lemma_power_monotonic(base, lo, (hi - 1) as nat);
        lemma_power_positive(base, (hi - 1) as nat);
        lemma_mul_inequality(1, base as int, power(base, (hi - 1) as nat) as int);
    }
}

/// Dropping the lowest digit of `i` is dividing `i` by the base.
pub proof fn lemma_digit_shift(i: nat, base: nat, k: nat)
    requires
        base > 0,
    ensures
        digit(i, base, k + 1) == digit(i / base, base, k),
{
    lemma_power_positive(base, k);
    lemma_div_denominator(i as int, base as int, power(base, k) as int);
}

/// Every digit of a number lies below the base.
pub proof fn lemma_digits_in_base(i: nat, base: nat, len: nat)
    requires
        base > 0,
    ensures
        digits_in_base(digits(i, base, len), base),
{
    assert forall|k: int| 0 <= k < len implies #[trigger] digits(i, base, len)[k] < base by {
        lemma_mod_bound((i / power(base, k as nat)) as int, base as int);
    }
}

/// A string of `len` digits denotes a number below `base^len`.
pub proof fn lemma_compose_bound(d: Seq<nat>, base: nat)
    requires
        base > 0,
        digits_in_base(d, base),
    ensures
        compose(d, base) < power(base, d.len()),
    decreases d.len(),
{
    if d.len() > 0 {
        let rest = d.drop_first();
        assert forall|k: int| 0 <= k < rest.len() implies #[trigger] rest[k] < base by {
            assert(rest[k] == d[k + 1]);
        }
        lemma_compose_bound(rest, base);
        let c = compose(rest, base) as int;
        let p = power(base, rest.len()) as int;
        let b = base as int;
        assert(b * (c + 1) <= b * p) by (nonlinear_arith)
            requires
                c + 1 <= p,
                b > 0,
        ;
        assert(b * (c + 1) == b * c + b) by (nonlinear_arith);
        assert(d[0] < base);
    }
}

/// Writing a number below `base^len` as `len` digits and reading the digits
/// back gives the number.
pub proof fn lemma_compose_digits(i: nat, base: nat, len: nat)
    requires
        base > 0,
        i < power(base, len),
    ensures
        compose(digits(i, base, len), base) == i,
    decreases len,
{
    let d = digits(i, base, len);
    if len > 0 {
        let rest = d.drop_first();
        let shorter = digits(i / base, base, (len - 1) as nat);
        assert(rest =~= shorter) by {
            assert forall|k: int| 0 <= k < rest.len() implies rest[k] == shorter[k] by {
                lemma_digit_shift(i, base, k as nat);
            }
        }
        lemma_multiply_divide_lt(i as int, base as int, power(base, (len - 1) as nat) as int);
        lemma_div_pos_is_pos(i as int, base as int);
        lemma_compose_digits(i / base, base, (len - 1) as nat);
        assert(power(base, 0) == 1);
        assert(d[0] == i % base);
        lemma_fundamental_div_mod(i as int, base as int);
    }
}

/// Reading a digit string and writing the number back as digits gives the
/// string.
pub proof fn lemma_digits_compose(d: Seq<nat>, base: nat)
    requires
        base > 0,
        digits_in_base(d, base),
    ensures
        digits(compose(d, base), base, d.len()) =~= d,
    decreases d.len(),
{
    if d.len() > 0 {
        let rest = d.drop_first();
        let v = compose(d, base);
        let c = compose(rest, base);
        assert forall|k: int| 0 <= k < rest.len() implies #[trigger] rest[k] < base by {
            assert(rest[k] == d[k + 1]);
        }
        lemma_digits_compose(rest, base);
        assert(d[0] < base);
        lemma_fundamental_div_mod_converse(v as int, base as int, c as int, d[0] as int);
        assert forall|k: int| 0 <= k < d.len() implies digits(v, base, d.len())[k] == d[k] by {
            if k == 0 {
                assert(power(base, 0) == 1);
            } else {
                lemma_digit_shift(v, base, (k - 1) as nat);
                assert(digits(c, base, rest.len())[k - 1] == rest[k - 1]);
            }
        }
    }
}

/// Dropping low digits does not make the number larger.
pub proof fn lemma_compose_suffix(d: Seq<nat>, base: nat, k: nat)
    requires
        base > 0,
        k <= d.len(),
    ensures
        compose(d.subrange(k as int, d.len() as int), base) <= compose(d, base),
    decreases k,
{
    if k == 0 {
        assert(d.subrange(0, d.len() as int) =~= d);
    } else {
        let rest = d.drop_first();
        assert(rest.subrange(k - 1, rest.len() as int) =~= d.subrange(k as int, d.len() as int));
        lemma_compose_suffix(rest, base, (k - 1) as nat);
        let c = compose(rest, base) as int;
        let b = base as int;
        assert(c <= b * c) by (nonlinear_arith)
            requires
                b >= 1,
                c >= 0,
        ;
    }
}

} // verus!
