//! Single-precision fractions, worked out on integers.
//!
//! A score is a quotient of two counts in single precision: 24 significant bits, rounded to
//! nearest, ties to even. [`Single`] holds such a number exactly, as `mantissa / 2^shift`.

use vstd::arithmetic::div_mod::*;
use vstd::arithmetic::mul::*;
use vstd::arithmetic::power2::*;
use vstd::prelude::*;

verus! {

/// Two to the power of 23: the least mantissa of a number other than zero.
pub const MANTISSA_MIN: u32 = 8_388_608;

/// Two to the power of 24: all mantissas are below it.
pub const MANTISSA_END: u32 = 16_777_216;

/// The number `mantissa / 2^shift`.
pub struct Binary {
    pub mantissa: nat,
    pub shift: nat,
}

/// The integer nearest to `num / den`; of two equally near ones, the even one.
pub open spec fn round_half_even(num: nat, den: nat) -> nat {
    let quotient = num / den;
    let rest = num % den;
    if 2 * rest < den || (2 * rest == den && quotient % 2 == 0) {
        quotient
    } else {
        quotient + 1
    }
}

/// How many low bits of `n` do not fit among 24 significant ones.
pub open spec fn excess_bits(n: nat) -> nat
    decreases n,
{
    if n < MANTISSA_END {
        0
    } else {
        1 + excess_bits(n / 2)
    }
}

/// The integer `n` in single precision: `n` itself as long as it has at most 24 bits.
pub open spec fn single_count(n: nat) -> nat {
    let unit = pow2(excess_bits(n));
    round_half_even(n, unit) * unit
}

/// How often `num` is doubled until it reaches `2^23 * den`.
pub open spec fn doublings(num: nat, den: nat) -> nat
    decreases MANTISSA_END * den - num,
{
    if num == 0 || MANTISSA_MIN * den <= num {
        0
    } else {
        1 + doublings(2 * num, den)
    }
}

/// `mantissa / 2^shift`, with the mantissa below `2^24` again after it was rounded up to it.
pub open spec fn renormalised(mantissa: nat, shift: nat) -> Binary {
    if mantissa == MANTISSA_END {
        Binary { mantissa: MANTISSA_MIN as nat, shift: (shift - 1) as nat }
    } else {
        Binary { mantissa, shift }
    }
}

/// Zero.
pub open spec fn binary_zero() -> Binary {
    Binary { mantissa: 0, shift: 0 }
}

/// The quotient of `num` by `den` in single precision.
pub open spec fn binary_quotient(num: nat, den: nat) -> Binary {
    let shift = doublings(num, den);
    if num == 0 {
        binary_zero()
    } else {
        renormalised(round_half_even(num * pow2(shift), den), shift)
    }
}

/// Half of `x`.
pub open spec fn binary_half(x: Binary) -> Binary {
    if x.mantissa == 0 {
        x
    } else {
        Binary { mantissa: x.mantissa, shift: x.shift + 1 }
    }
}

/// Whether `x` is greater than `y`.
pub open spec fn binary_above(x: Binary, y: Binary) -> bool {
    x.mantissa * pow2(y.shift) > y.mantissa * pow2(x.shift)
}

/// Whether `x` is a single-precision number in its one accepted form.
pub open spec fn binary_valid(x: Binary) -> bool {
    ||| x == binary_zero()
    ||| MANTISSA_MIN <= x.mantissa < MANTISSA_END
}

/// `x` to the nearest hundredth, as a number of hundredths.
pub open spec fn binary_hundredths(x: Binary) -> nat {
    round_half_even(100 * x.mantissa, pow2(x.shift))
}

/// Rounding is off by half a unit at most.
pub proof fn lemma_round_error(num: nat, den: nat)
    requires
        den > 0,
    ensures
        2 * num <= 2 * (round_half_even(num, den) * den) + den,
        2 * (round_half_even(num, den) * den) <= 2 * num + den,
{
    lemma_fundamental_div_mod(num as int, den as int);
    let q = num / den;
    assert(den * q == q * den) by (nonlinear_arith);
    assert((q + 1) * den == q * den + den) by (nonlinear_arith);
}

/// Rounding keeps between the integers that the quotient lies between.
proof fn lemma_round_bounds(num: nat, den: nat, low: nat, high: nat)
    requires
        den > 0,
        low * den <= num <= high * den,
    ensures
        low <= round_half_even(num, den) <= high,
{
    let q = num / den;
    let r = num % den;
    lemma_fundamental_div_mod(num as int, den as int);
    assert(low <= q) by (nonlinear_arith)
        requires
            low * den <= num,
            num == den * q + r,
            r < den,
            den > 0,
    ;
    assert(q <= high) by (nonlinear_arith)
        requires
            num <= high * den,
            num == den * q + r,
            0 <= r,
            den > 0,
    ;
    if q == high {
        assert(r == 0) by (nonlinear_arith)
            requires
                num <= high * den,
                num == den * q + r,
                q == high,
                0 <= r,
        ;
    }
}

/// Rounding to multiples of one unit keeps order.
proof fn lemma_round_monotone(a: nat, b: nat, den: nat)
    requires
        den > 0,
        a <= b,
    ensures
        round_half_even(a, den) <= round_half_even(b, den),
{
    let qa = a / den;
    let qb = b / den;
    lemma_div_is_ordered(a as int, b as int, den as int);
    if qa == qb {
        lemma_fundamental_div_mod(a as int, den as int);
        lemma_fundamental_div_mod(b as int, den as int);
    }
}

/// `n` has at most `24 + excess_bits(n)` bits, and no fewer where it has an excess.
proof fn lemma_excess_bits(n: nat)
    ensures
        n < MANTISSA_END * pow2(excess_bits(n)),
        excess_bits(n) > 0 ==> MANTISSA_MIN * pow2(excess_bits(n)) <= n,
    decreases n,
{
    lemma2_to64();
    if n >= MANTISSA_END {
        let e = excess_bits(n / 2);
        lemma_excess_bits(n / 2);
        lemma_pow2_unfold(e + 1);
        if e == 0 {
            assert(pow2(excess_bits(n)) == 2);
        }
        assert(MANTISSA_END * (2 * pow2(e)) == 2 * (MANTISSA_END * pow2(e))) by (nonlinear_arith);
        assert(MANTISSA_MIN * (2 * pow2(e)) == 2 * (MANTISSA_MIN * pow2(e))) by (nonlinear_arith);
    }
}

/// A count of at most 24 bits is its own single-precision value.
pub proof fn lemma_single_count_exact(n: nat)
    requires
        n < MANTISSA_END,
    ensures
        single_count(n) == n,
{
    lemma2_to64();
    lemma_div_basics(n as int);
    lemma_mul_basics(n as int);
}

/// Single precision keeps the order of counts.
pub proof fn lemma_single_count_monotone(a: nat, b: nat)
    requires
        a <= b,
    ensures
        single_count(a) <= single_count(b),
{
    let ea = excess_bits(a);
    let eb = excess_bits(b);
    let ua = pow2(ea);
    let ub = pow2(eb);
    lemma_excess_bits(a);
    lemma_excess_bits(b);
    lemma_pow2_pos(ea);
    lemma_pow2_pos(eb);
    if ea == eb {
        lemma_round_monotone(a, b, ua);
        lemma_mul_inequality(
            round_half_even(a, ua) as int,
            round_half_even(b, ub) as int,
            ua as int,
        );
    } else if ea < eb {
        let d = (eb - ea) as nat;
        lemma_pow2_adds(ea, d);
        lemma_pow2_unfold(d);
        lemma_pow2_pos((d - 1) as nat);
        lemma_round_bounds(a, ua, 0, MANTISSA_END as nat);
        lemma_mul_inequality(round_half_even(a, ua) as int, MANTISSA_END as int, ua as int);
        let rb = round_half_even(b, ub);
        lemma_round_bounds(b, ub, MANTISSA_MIN as nat, MANTISSA_END as nat);
        lemma_mul_inequality(MANTISSA_MIN as int, rb as int, ub as int);
        assert(MANTISSA_END * ua <= MANTISSA_MIN * ub) by (nonlinear_arith)
            requires
                ub == ua * pow2(d),
                pow2(d) == 2 * pow2((d - 1) as nat),
                pow2((d - 1) as nat) >= 1,
        ;
    } else {
        let d = (ea - eb) as nat;
        lemma_pow2_adds(eb, d);
        lemma_pow2_unfold(d);
        lemma_pow2_pos((d - 1) as nat);
        assert(MANTISSA_END * ub <= MANTISSA_MIN * ua) by (nonlinear_arith)
            requires
                ua == ub * pow2(d),
                pow2(d) == 2 * pow2((d - 1) as nat),
                pow2((d - 1) as nat) >= 1,
        ;
    }
}

/// A count in single precision is zero only where the count is.
pub proof fn lemma_single_count_positive(n: nat)
    requires
        n > 0,
    ensures
        single_count(n) > 0,
{
    lemma_single_count_exact(1);
    lemma_single_count_monotone(1, n);
}

/// A count in single precision is at most twice the count.
proof fn lemma_single_count_bound(n: nat)
    ensures
        single_count(n) <= 2 * n,
{
    if n < MANTISSA_END {
        lemma_single_count_exact(n);
    } else {
        let unit = pow2(excess_bits(n));
        lemma_excess_bits(n);
        lemma_pow2_pos(excess_bits(n));
        lemma_round_error(n, unit);
    }
}

/// What `doublings` reaches: `num` scaled into `2^23 * den .. 2^24 * den`.
pub proof fn lemma_doublings(num: nat, den: nat)
    requires
        0 < num <= den,
    ensures
        MANTISSA_MIN * den <= num * pow2(doublings(num, den)),
        num * pow2(doublings(num, den)) < MANTISSA_END * den,
        doublings(num, den) >= 23,
{
    lemma_doublings_scaled(num, den);
    let s = doublings(num, den);
    if s < 23 {
        lemma2_to64();
        lemma_pow2_strictly_increases(s, 23);
        assert(num * pow2(s) < MANTISSA_MIN * den) by (nonlinear_arith)
            requires
                0 < num <= den,
                pow2(s) < MANTISSA_MIN,
        ;
    }
}

proof fn lemma_doublings_scaled(num: nat, den: nat)
    requires
        0 < num < MANTISSA_END * den,
    ensures
        MANTISSA_MIN * den <= num * pow2(doublings(num, den)) < MANTISSA_END * den,
    decreases MANTISSA_END * den - num,
{
    lemma2_to64();
    if num < MANTISSA_MIN * den {
        lemma_doublings_scaled(2 * num, den);
        let s = doublings(2 * num, den);
        lemma_pow2_unfold(s + 1);
        assert(num * (2 * pow2(s)) == (2 * num) * pow2(s)) by (nonlinear_arith);
    } else {
        lemma_mul_basics(num as int);
    }
}

/// The quotient of a part by its whole is a single-precision number.
pub proof fn lemma_quotient_valid(num: nat, den: nat)
    requires
        num <= den,
        0 < den,
    ensures
        binary_valid(binary_quotient(num, den)),
{
    if num > 0 {
        let s = doublings(num, den);
        lemma_doublings(num, den);
        lemma_round_bounds(num * pow2(s), den, MANTISSA_MIN as nat, MANTISSA_END as nat);
    }
}

/// The quotient of a part by its whole lies between zero and one.
pub proof fn lemma_quotient_at_most_one(num: nat, den: nat)
    requires
        num <= den,
        0 < den,
    ensures
        binary_quotient(num, den).mantissa <= pow2(binary_quotient(num, den).shift),
{
    lemma2_to64();
    if num > 0 {
        let s = doublings(num, den);
        lemma_doublings(num, den);
        lemma_pow2_pos(s);
        assert(num * pow2(s) <= pow2(s) * den) by (nonlinear_arith)
            requires
                num <= den,
        ;
        lemma_round_bounds(num * pow2(s), den, MANTISSA_MIN as nat, MANTISSA_END as nat);
        lemma_round_bounds(num * pow2(s), den, 0, pow2(s));
        lemma_pow2_unfold(s);
    }
}

/// The quotient of a part by its whole is off by half a unit of its last bit at most, and by that
/// much only where its mantissa is even.
pub proof fn law_quotient_is_nearest(num: nat, den: nat)
    requires
        0 < num <= den,
    ensures
        ({
            let q = binary_quotient(num, den);
            &&& MANTISSA_MIN <= q.mantissa < MANTISSA_END
            &&& 2 * (q.mantissa * den) <= 2 * (num * pow2(q.shift)) + den
            &&& 2 * (num * pow2(q.shift)) <= 2 * (q.mantissa * den) + den
            &&& 2 * (q.mantissa * den) == 2 * (num * pow2(q.shift)) + den || 2 * (num * pow2(
                q.shift,
            )) == 2 * (q.mantissa * den) + den ==> q.mantissa % 2 == 0
        }),
{
    let s = doublings(num, den);
    lemma_doublings(num, den);
    lemma_round_bounds(num * pow2(s), den, MANTISSA_MIN as nat, MANTISSA_END as nat);
    law_rounding_is_to_nearest_even(num * pow2(s), den);
    lemma_pow2_unfold(s);
    let half = pow2((s - 1) as nat);
    assert(num * (2 * half) == 2 * (num * half)) by (nonlinear_arith);
}

/// Between two numbers other than zero the shift decides first, and the mantissa after it.
proof fn lemma_above_by_parts(x: Binary, y: Binary)
    requires
        binary_valid(x),
        binary_valid(y),
        x.mantissa != 0,
        y.mantissa != 0,
    ensures
        binary_above(x, y) <==> x.shift < y.shift || (x.shift == y.shift && x.mantissa
            > y.mantissa),
{
    lemma_pow2_pos(x.shift);
    lemma_pow2_pos(y.shift);
    if x.shift < y.shift {
        lemma_scaled_above(x, y);
    } else if y.shift < x.shift {
        lemma_scaled_above(y, x);
    } else {
        let p = pow2(x.shift);
        if x.mantissa > y.mantissa {
            lemma_mul_strict_inequality(y.mantissa as int, x.mantissa as int, p as int);
        } else {
            lemma_mul_inequality(x.mantissa as int, y.mantissa as int, p as int);
        }
    }
}

proof fn lemma_scaled_above(x: Binary, y: Binary)
    requires
        MANTISSA_MIN <= x.mantissa < MANTISSA_END,
        MANTISSA_MIN <= y.mantissa < MANTISSA_END,
        x.shift < y.shift,
    ensures
        binary_above(x, y),
{
    let d = (y.shift - x.shift) as nat;
    lemma_pow2_adds(x.shift, d);
    lemma_pow2_unfold(d);
    lemma_pow2_pos((d - 1) as nat);
    lemma_pow2_pos(x.shift);
    let p = pow2(x.shift);
    let h = pow2((d - 1) as nat);
    assert(x.mantissa * (p * (2 * h)) > y.mantissa * p) by (nonlinear_arith)
        requires
            MANTISSA_MIN <= x.mantissa,
            y.mantissa < MANTISSA_END,
            p > 0,
            h > 0,
    ;
}

/// A single-precision number from zero to one.
#[derive(Clone, Copy)]
pub struct Single {
    mantissa: u32,
    shift: u32,
}

impl View for Single {
    type V = Binary;

    closed spec fn view(&self) -> Binary {
        Binary { mantissa: self.mantissa as nat, shift: self.shift as nat }
    }
}

/// The integer nearest to `num / den`, ties to even.
fn divide_half_even(num: u128, den: u128) -> (out: u128)
    requires
        0 < den <= u128::MAX / 2,
    ensures
        out == round_half_even(num as nat, den as nat),
{
    let quotient: u128 = num / den;
    let rest: u128 = num % den;
    if 2 * rest < den || (2 * rest == den && quotient % 2 == 0) {
        quotient
    } else {
        proof {
            lemma_fundamental_div_mod(num as int, den as int);
            assert(quotient < num) by (nonlinear_arith)
                requires
                    num == den * quotient + rest,
                    rest >= 1,
                    den >= 1,
            ;
        }
        quotient + 1
    }
}

/// The integer `n` in single precision.
fn count_to_single(n: u64) -> (out: u128)
    ensures
        out == single_count(n as nat),
        out <= 2 * n,
{
    let mut unit: u128 = 1;
    let mut rest: u64 = n;
    let ghost mut bits: nat = 0;
    proof {
        lemma2_to64();
        assert(rest * unit == rest) by (nonlinear_arith)
            requires
                unit == 1,
        ;
    }
    while rest >= MANTISSA_END as u64
        invariant
            unit == pow2(bits),
            unit >= 1,
            excess_bits(n as nat) == bits + excess_bits(rest as nat),
            rest * unit <= n,
            n >= MANTISSA_END ==> rest >= 1,
        decreases rest,
    {
        let ghost before = rest;
        let ghost unit_before = unit;
        assert(unit <= n) by (nonlinear_arith)
            requires
                rest * unit <= n,
                rest >= 1,
        ;
        rest = rest / 2;
        unit = unit * 2;
        proof {
            lemma_pow2_unfold(bits + 1);
            bits = bits + 1;
            assert(rest * unit <= n) by (nonlinear_arith)
                requires
                    before * unit_before <= n,
                    rest <= before / 2,
                    unit == unit_before * 2,
            ;
        }
    }
    assert(unit <= u64::MAX) by (nonlinear_arith)
        requires
            rest * unit <= n,
            n <= u64::MAX,
            unit == 1 || rest >= 1,
    ;
    let rounded: u128 = divide_half_even(n as u128, unit);
    proof {
        lemma_single_count_bound(n as nat);
    }
    rounded * unit
}

/// `2^exponent`.
fn power_of_two(exponent: u32) -> (out: u128)
    requires
        exponent <= 120,
    ensures
        out == pow2(exponent as nat),
        out <= u128::MAX / 2,
{
    let mut out: u128 = 1;
    let mut i: u32 = 0;
    proof {
        lemma2_to64();
        lemma_pow2_limit();
    }
    while i < exponent
        invariant
            i <= exponent <= 120,
            out == pow2(i as nat),
            pow2(120) <= u128::MAX / 2,
        decreases exponent - i,
    {
        proof {
            lemma_pow2_unfold((i + 1) as nat);
            if i + 1 < 120 {
                lemma_pow2_strictly_increases((i + 1) as nat, 120);
            }
        }
        out = out * 2;
        i = i + 1;
    }
    proof {
        if exponent < 120 {
            lemma_pow2_strictly_increases(exponent as nat, 120);
        }
    }
    out
}

proof fn lemma_pow2_limit()
    ensures
        pow2(90) == 0x4000000_0000000000000000int,
        pow2(120) == 0x100000000000000_0000000000000000int,
{
    lemma2_to64();
    lemma_pow2_adds(64, 26);
    lemma_pow2_adds(90, 30);
    assert(0x4000000int * 0x1_0000000000000000int == 0x4000000_0000000000000000int);
}

impl Single {
    #[verifier::type_invariant]
    closed spec fn valid(self) -> bool {
        &&& binary_valid(self@)
        &&& self@.mantissa <= pow2(self@.shift)
        &&& self.shift <= 100
    }

    /// Zero.
    pub fn zero() -> (out: Single)
        ensures
            out@ == binary_zero(),
    {
        proof {
            lemma_pow2_pos(0);
        }
        Single { mantissa: 0, shift: 0 }
    }

    /// The quotient of two counts, both taken in single precision.
    pub fn quotient(part: u64, whole: u64) -> (out: Single)
        requires
            part <= whole,
            0 < whole,
        ensures
            out@ == binary_quotient(single_count(part as nat), single_count(whole as nat)),
    {
        Single::divide(part, whole)
    }

    fn divide(part: u64, whole: u64) -> (out: Single)
        requires
            part <= whole,
            0 < whole,
        ensures
            out@ == binary_quotient(single_count(part as nat), single_count(whole as nat)),
            out.shift < 90,
    {
        let num: u128 = count_to_single(part);
        let den: u128 = count_to_single(whole);
        proof {
            lemma_single_count_monotone(part as nat, whole as nat);
            lemma_single_count_positive(whole as nat);
            lemma_quotient_valid(num as nat, den as nat);
            lemma_quotient_at_most_one(num as nat, den as nat);
        }
        if num == 0 {
            return Single { mantissa: 0, shift: 0 };
        }
        let mut scaled: u128 = num;
        let mut shift: u32 = 0;
        proof {
            lemma2_to64();
            lemma_pow2_limit();
            lemma_mul_basics(num as int);
        }
        while scaled < MANTISSA_MIN as u128 * den
            invariant
                0 < num <= den <= 0x2_0000_0000_0000_0000,
                scaled == num * pow2(shift as nat),
                0 < scaled < MANTISSA_END * den,
                doublings(num as nat, den as nat) == shift + doublings(scaled as nat, den as nat),
                shift < 90,
                pow2(90) == 0x4000000_0000000000000000int,
            decreases MANTISSA_END * den - scaled,
        {
            scaled = scaled * 2;
            proof {
                lemma_pow2_unfold((shift + 1) as nat);
                let p = pow2(shift as nat);
                assert(num * (2 * p) == 2 * (num * p)) by (nonlinear_arith);
                if shift + 1 >= 90 {
                    if shift + 1 > 90 {
                        lemma_pow2_strictly_increases(90, (shift + 1) as nat);
                    }
                    assert(pow2(90) <= scaled) by (nonlinear_arith)
                        requires
                            pow2(90) <= 2 * p,
                            scaled == num * (2 * p),
                            num >= 1,
                    ;
                }
            }
            shift = shift + 1;
        }
        proof {
            lemma_doublings(num as nat, den as nat);
            lemma_round_bounds(
                scaled as nat,
                den as nat,
                MANTISSA_MIN as nat,
                MANTISSA_END as nat,
            );
        }
        let rounded: u128 = divide_half_even(scaled, den);
        if rounded == MANTISSA_END as u128 {
            Single { mantissa: MANTISSA_MIN, shift: shift - 1 }
        } else {
            Single { mantissa: rounded as u32, shift }
        }
    }

    /// Half of a quotient of counts.
    pub fn half_quotient(part: u64, whole: u64) -> (out: Single)
        requires
            part <= whole,
            0 < whole,
        ensures
            out@ == binary_half(
                binary_quotient(single_count(part as nat), single_count(whole as nat)),
            ),
    {
        let full = Single::divide(part, whole);
        proof {
            use_type_invariant(full);
            lemma_pow2_unfold((full.shift + 1) as nat);
        }
        if full.mantissa == 0 {
            full
        } else {
            Single { mantissa: full.mantissa, shift: full.shift + 1 }
        }
    }

    /// Whether this number is greater than `other`.
    pub fn above(&self, other: &Single) -> (out: bool)
        ensures
            out == binary_above(self@, other@),
    {
        proof {
            use_type_invariant(self);
            use_type_invariant(other);
            lemma_pow2_pos(self.shift as nat);
            lemma_pow2_pos(other.shift as nat);
            if self.mantissa != 0 && other.mantissa != 0 {
                lemma_above_by_parts(self@, other@);
            } else if self.mantissa == 0 {
                assert(self@.mantissa * pow2(other.shift as nat) == 0) by (nonlinear_arith)
                    requires
                        self@.mantissa == 0,
                ;
            } else {
                assert(other@.mantissa * pow2(self.shift as nat) == 0) by (nonlinear_arith)
                    requires
                        other@.mantissa == 0,
                ;
                lemma_mul_strictly_positive(
                    self.mantissa as int,
                    pow2(other.shift as nat) as int,
                );
            }
        }
        if self.mantissa == 0 {
            false
        } else if other.mantissa == 0 {
            true
        } else if self.shift == other.shift {
            self.mantissa > other.mantissa
        } else {
            self.shift < other.shift
        }
    }

    /// This number to the nearest hundredth, as a number of hundredths.
    pub fn hundredths(&self) -> (out: u32)
        ensures
            out == binary_hundredths(self@),
            out <= 100,
    {
        proof {
            use_type_invariant(self);
        }
        let den: u128 = power_of_two(self.shift);
        proof {
            lemma_pow2_pos(self.shift as nat);
            lemma_round_bounds(100 * self@.mantissa, den as nat, 0, 100);
        }
        let rounded: u128 = divide_half_even(100 * (self.mantissa as u128), den);
        rounded as u32
    }
}

/// Rounding gives the nearest integer, and of two equally near ones the even one.
pub proof fn law_rounding_is_to_nearest_even(num: nat, den: nat)
    requires
        den > 0,
    ensures
        2 * num <= 2 * (round_half_even(num, den) * den) + den,
        2 * (round_half_even(num, den) * den) <= 2 * num + den,
        2 * num == 2 * (round_half_even(num, den) * den) + den ==> round_half_even(num, den) % 2
            == 0,
        2 * (round_half_even(num, den) * den) == 2 * num + den ==> round_half_even(num, den) % 2
            == 0,
{
    lemma_round_error(num, den);
    lemma_fundamental_div_mod(num as int, den as int);
    let q = num / den;
    assert(den * q == q * den) by (nonlinear_arith);
    assert((q + 1) * den == q * den + den) by (nonlinear_arith);
}

/// A count of at most 24 bits is kept as it is. Of a greater one the 24 leading bits are kept,
/// rounded to nearest, ties to even.
pub proof fn law_count_keeps_24_bits(n: nat, excess: nat)
    ensures
        n < 16_777_216 ==> single_count(n) == n,
        excess > 0 && pow2(23 + excess) <= n < pow2(24 + excess) ==> exists|lead: nat|
            {
                &&& single_count(n) == #[trigger] (lead * pow2(excess))
                &&& 2 * n <= 2 * single_count(n) + pow2(excess)
                &&& 2 * single_count(n) <= 2 * n + pow2(excess)
                &&& 2 * n == 2 * single_count(n) + pow2(excess) || 2 * single_count(n) == 2 * n
                    + pow2(excess) ==> lead % 2 == 0
            },
{
    if n < MANTISSA_END {
        lemma_single_count_exact(n);
    }
    if excess > 0 && pow2(23 + excess) <= n < pow2(24 + excess) {
        let bits = excess_bits(n);
        lemma_excess_bits(n);
        lemma2_to64();
        lemma_pow2_pos(excess);
        lemma_pow2_adds(23, excess);
        lemma_pow2_adds(24, excess);
        lemma_pow2_adds(23, bits);
        lemma_pow2_adds(24, bits);
        assert(pow2(23) == MANTISSA_MIN && pow2(24) == MANTISSA_END);
        if bits < excess {
            if 24 + bits < 23 + excess {
                lemma_pow2_strictly_increases(24 + bits, 23 + excess);
            }
            assert(false);
        }
        if bits > excess {
            if 24 + excess < 23 + bits {
                lemma_pow2_strictly_increases(24 + excess, 23 + bits);
            }
            assert(false);
        }
        law_rounding_is_to_nearest_even(n, pow2(excess));
        let lead = round_half_even(n, pow2(excess));
        assert(single_count(n) == lead * pow2(excess));
    }
}

/// Twice the half is the whole.
pub proof fn law_two_halves_are_the_whole(x: Binary)
    ensures
        2 * (binary_half(x).mantissa * pow2(x.shift)) == x.mantissa * pow2(binary_half(x).shift),
{
    lemma_pow2_unfold(x.shift + 1);
    let m = x.mantissa;
    let p = pow2(x.shift);
    assert(2 * (m * p) == m * (2 * p)) by (nonlinear_arith);
    if m == 0 {
        assert(2 * (m * p) == m * p) by (nonlinear_arith)
            requires
                m == 0,
        ;
    }
}

/// A number is shown as the nearest number of hundredths, and of two equally near ones the even
/// one.
pub proof fn law_hundredths_are_nearest(x: Binary)
    ensures
        ({
            let shown = binary_hundredths(x) * pow2(x.shift);
            &&& 200 * x.mantissa <= 2 * shown + pow2(x.shift)
            &&& 2 * shown <= 200 * x.mantissa + pow2(x.shift)
            &&& 200 * x.mantissa == 2 * shown + pow2(x.shift) || 2 * shown == 200 * x.mantissa
                + pow2(x.shift) ==> binary_hundredths(x) % 2 == 0
        }),
{
    lemma_pow2_pos(x.shift);
    law_rounding_is_to_nearest_even(100 * x.mantissa, pow2(x.shift));
}

/// Rounding depends on the fraction only, not on how it is written.
proof fn lemma_round_scaled(num: nat, den: nat, k: nat)
    requires
        den > 0,
        k > 0,
    ensures
        round_half_even(k * num, k * den) == round_half_even(num, den),
{
    let q = num / den;
    let r = num % den;
    lemma_fundamental_div_mod(num as int, den as int);
    lemma_mul_strictly_positive(k as int, den as int);
    assert(k * num == q * (k * den) + k * r) by (nonlinear_arith)
        requires
            num == den * q + r,
    ;
    assert(0 <= k * r < k * den) by (nonlinear_arith)
        requires
            0 <= r < den,
            k > 0,
    ;
    lemma_fundamental_div_mod_converse(
        (k * num) as int,
        (k * den) as int,
        q as int,
        (k * r) as int,
    );
    assert(2 * (k * r) < k * den <==> 2 * r < den) by (nonlinear_arith)
        requires
            k > 0,
    ;
    assert(2 * (k * r) == k * den <==> 2 * r == den) by (nonlinear_arith)
        requires
            k > 0,
    ;
}

/// So does the number of doublings.
proof fn lemma_doublings_same(num: nat, den: nat, k: nat)
    requires
        den > 0,
        k > 0,
    ensures
        doublings(k * num, k * den) == doublings(num, den),
    decreases MANTISSA_END * den - num,
{
    assert(k * num == 0 <==> num == 0) by (nonlinear_arith)
        requires
            k > 0,
    ;
    assert(MANTISSA_MIN * (k * den) <= k * num <==> MANTISSA_MIN * den <= num)
        by (nonlinear_arith)
        requires
            k > 0,
    ;
    if num > 0 && num < MANTISSA_MIN * den {
        lemma_doublings_same(2 * num, den, k);
        assert(k * (2 * num) == 2 * (k * num)) by (nonlinear_arith);
    }
}

/// Equal fractions have the same quotient.
proof fn lemma_quotient_scaled(num: nat, den: nat, k: nat)
    requires
        den > 0,
        k > 0,
    ensures
        binary_quotient(k * num, k * den) == binary_quotient(num, den),
{
    lemma_doublings_same(num, den, k);
    let p = pow2(doublings(num, den));
    assert(k * num == 0 <==> num == 0) by (nonlinear_arith)
        requires
            k > 0,
    ;
    assert((k * num) * p == k * (num * p)) by (nonlinear_arith);
    lemma_round_scaled(num * p, den, k);
}

/// The quotient of a small part by a small whole is one, or has a shift of 24 at least.
proof fn lemma_small_quotient(num: nat, den: nat)
    requires
        0 < num <= den <= 4096,
    ensures
        num == den ==> binary_quotient(num, den) == (Binary {
            mantissa: MANTISSA_MIN as nat,
            shift: 23,
        }),
        num < den ==> binary_quotient(num, den).shift >= 24,
{
    let s = doublings(num, den);
    lemma_doublings(num, den);
    lemma2_to64();
    let scaled = num * pow2(s);
    lemma_round_bounds(scaled, den, MANTISSA_MIN as nat, MANTISSA_END as nat);
    lemma_round_error(scaled, den);
    if num == den {
        if s > 23 {
            if s > 24 {
                lemma_pow2_strictly_increases(24, s);
            }
            assert(scaled >= MANTISSA_END * den) by (nonlinear_arith)
                requires
                    scaled == num * pow2(s),
                    pow2(s) >= MANTISSA_END,
                    num == den,
            ;
        }
        assert(scaled == MANTISSA_MIN * den) by (nonlinear_arith)
            requires
                scaled == num * pow2(s),
                pow2(s) == MANTISSA_MIN,
                num == den,
        ;
        lemma_round_bounds(scaled, den, MANTISSA_MIN as nat, MANTISSA_MIN as nat);
    } else {
        if s == 23 {
            assert(scaled < MANTISSA_MIN * den) by (nonlinear_arith)
                requires
                    scaled == num * pow2(s),
                    pow2(s) == MANTISSA_MIN,
                    num < den,
            ;
        }
        if s == 24 && round_half_even(scaled, den) == MANTISSA_END {
            assert(scaled == num * 16_777_216);
            assert(2 * (16_777_216 * den) <= 2 * (num * 16_777_216) + den);
            assert(false);
        }
    }
}

/// A greater share has a greater quotient.
proof fn lemma_greater_share(p1: nat, q1: nat, p2: nat, q2: nat)
    requires
        p1 <= q1 <= 4096,
        p2 <= q2 <= 4096,
        p1 * q2 > p2 * q1,
    ensures
        binary_above(binary_quotient(p1, q1), binary_quotient(p2, q2)),
{
    let x = binary_quotient(p1, q1);
    let y = binary_quotient(p2, q2);
    let a = pow2(x.shift);
    let b = pow2(y.shift);
    let m = x.mantissa;
    let n = y.mantissa;
    lemma_pow2_pos(x.shift);
    lemma_pow2_pos(y.shift);
    lemma2_to64();
    assert(p1 > 0 && q2 > 0) by (nonlinear_arith)
        requires
            p1 * q2 > p2 * q1,
    ;
    law_quotient_is_nearest(p1, q1);
    if p2 == 0 {
        assert(m * b > n * a) by (nonlinear_arith)
            requires
                m > 0,
                b > 0,
                n == 0,
        ;
    } else {
        law_quotient_is_nearest(p2, q2);
        lemma_small_quotient(p1, q1);
        lemma_small_quotient(p2, q2);
        assert(p2 < q2) by (nonlinear_arith)
            requires
                p1 * q2 > p2 * q1,
                p1 <= q1,
                p2 <= q2,
        ;
        if y.shift > 24 {
            lemma_pow2_strictly_increases(24, y.shift);
        }
        if x.shift > 24 {
            lemma_pow2_strictly_increases(24, x.shift);
        }
        assert(b >= 16_777_216);
        let d = (p1 * q2 - p2 * q1) as nat;
        assert(16_777_216 * d > q1 * q2) by {
            if q1 == q2 {
                assert(d >= q1) by (nonlinear_arith)
                    requires
                        d == p1 * q2 - p2 * q1,
                        q1 == q2,
                        d > 0,
                ;
                assert(16_777_216 * d > q1 * q2) by (nonlinear_arith)
                    requires
                        d >= q1,
                        q1 == q2,
                        0 < q1 <= 4096,
                ;
            } else {
                assert(q1 * q2 < 16_777_216) by (nonlinear_arith)
                    requires
                        q1 <= 4096,
                        q2 <= 4096,
                        q1 != q2,
                ;
            }
        }
        if p1 == q1 {
            assert(n < b) by (nonlinear_arith)
                requires
                    2 * (n * q2) <= 2 * (p2 * b) + q2,
                    p2 + 1 <= q2 <= 4096,
                    b >= 16_777_216,
            ;
            assert(m == a);
            lemma_mul_strict_inequality(n as int, b as int, a as int);
            lemma_mul_is_commutative(a as int, b as int);
        } else if m * b <= n * a {
            lemma_close_quotients(p1, q1, m, a, p2, q2, n, b);
            let whole = q1 * q2;
            let sum = a + b;
            assert(whole * sum < (16_777_216 * d) * sum) by (nonlinear_arith)
                requires
                    whole < 16_777_216 * d,
                    sum > 0,
            ;
            assert(16_777_216 * sum <= 2 * (a * b)) by (nonlinear_arith)
                requires
                    a >= 16_777_216,
                    b >= 16_777_216,
                    sum == a + b,
            ;
            assert((16_777_216 * sum) * d <= (2 * (a * b)) * d) by (nonlinear_arith)
                requires
                    16_777_216 * sum <= 2 * (a * b),
                    d >= 0,
            ;
            assert((16_777_216 * d) * sum == (16_777_216 * sum) * d) by (nonlinear_arith);
            assert(false);
        }
    }
}

/// Where the greater of two shares has no greater quotient, the shares are close.
proof fn lemma_close_quotients(
    p1: nat,
    q1: nat,
    m: nat,
    a: nat,
    p2: nat,
    q2: nat,
    n: nat,
    b: nat,
)
    requires
        2 * (p1 * a) <= 2 * (m * q1) + q1,
        2 * (n * q2) <= 2 * (p2 * b) + q2,
        m * b <= n * a,
    ensures
        (2 * (a * b)) * (p1 * q2 - p2 * q1) <= (q1 * q2) * (a + b),
{
    let whole = q1 * q2;
    assert((2 * (p1 * a)) * (q2 * b) <= (2 * (m * q1) + q1) * (q2 * b)) by (nonlinear_arith)
        requires
            2 * (p1 * a) <= 2 * (m * q1) + q1,
    ;
    assert((2 * (n * q2)) * (q1 * a) <= (2 * (p2 * b) + q2) * (q1 * a)) by (nonlinear_arith)
        requires
            2 * (n * q2) <= 2 * (p2 * b) + q2,
    ;
    assert((m * b) * whole <= (n * a) * whole) by (nonlinear_arith)
        requires
            m * b <= n * a,
    ;
    assert((2 * (p1 * a)) * (q2 * b) == (2 * (a * b)) * (p1 * q2)) by (nonlinear_arith);
    assert((2 * (m * q1) + q1) * (q2 * b) == 2 * ((m * b) * whole) + whole * b)
        by (nonlinear_arith)
        requires
            whole == q1 * q2,
    ;
    assert((2 * (n * q2)) * (q1 * a) == 2 * ((n * a) * whole)) by (nonlinear_arith)
        requires
            whole == q1 * q2,
    ;
    assert((2 * (p2 * b) + q2) * (q1 * a) == (2 * (a * b)) * (p2 * q1) + whole * a)
        by (nonlinear_arith)
        requires
            whole == q1 * q2,
    ;
    assert(whole * (a + b) == whole * a + whole * b) by (nonlinear_arith);
    assert((2 * (a * b)) * (p1 * q2 - p2 * q1) == (2 * (a * b)) * (p1 * q2) - (2 * (a * b)) * (p2
        * q1)) by (nonlinear_arith);
}

/// Of two shares, each of a whole of at most 4096, the greater one has the greater quotient, and
/// equal shares have the same: no difference is lost in rounding.
pub proof fn law_shares_keep_their_order(p1: nat, q1: nat, p2: nat, q2: nat)
    requires
        p1 <= q1,
        0 < q1 <= 4096,
        p2 <= q2,
        0 < q2 <= 4096,
    ensures
        binary_above(binary_quotient(p1, q1), binary_quotient(p2, q2)) <==> p1 * q2 > p2 * q1,
        binary_quotient(p1, q1) == binary_quotient(p2, q2) <==> p1 * q2 == p2 * q1,
{
    if p1 * q2 > p2 * q1 {
        lemma_greater_share(p1, q1, p2, q2);
    } else if p1 * q2 < p2 * q1 {
        lemma_greater_share(p2, q2, p1, q1);
    } else {
        lemma_quotient_scaled(p1, q1, q2);
        lemma_quotient_scaled(p2, q2, q1);
        lemma_mul_is_commutative(q2 as int, q1 as int);
        lemma_mul_is_commutative(q2 as int, p1 as int);
        lemma_mul_is_commutative(q1 as int, p2 as int);
    }
}

/// Of two numbers written with the same shift, the one with the greater mantissa is the greater
/// one; and it makes no difference whether a number is written with more bits than it needs.
pub proof fn law_order_is_that_of_the_mantissas(x: Binary, y: Binary, extra: nat)
    ensures
        x.shift == y.shift ==> (binary_above(x, y) <==> x.mantissa > y.mantissa),
        ({
            let longer = Binary { mantissa: x.mantissa * pow2(extra), shift: x.shift + extra };
            &&& binary_above(longer, y) <==> binary_above(x, y)
            &&& binary_above(y, longer) <==> binary_above(y, x)
        }),
{
    let px = pow2(x.shift);
    let py = pow2(y.shift);
    let e = pow2(extra);
    lemma_pow2_pos(x.shift);
    lemma_pow2_pos(y.shift);
    lemma_pow2_pos(extra);
    lemma_pow2_adds(x.shift, extra);
    if x.shift == y.shift {
        assert(x.mantissa * py > y.mantissa * px <==> x.mantissa > y.mantissa)
            by (nonlinear_arith)
            requires
                px == py,
                px > 0,
        ;
    }
    let m = x.mantissa;
    let n = y.mantissa;
    assert((m * e) * py == (m * py) * e) by (nonlinear_arith);
    assert(n * (px * e) == (n * px) * e) by (nonlinear_arith);
    let left = m * py;
    let right = n * px;
    assert(left * e > right * e <==> left > right) by (nonlinear_arith)
        requires
            e > 0,
    ;
    assert(right * e > left * e <==> right > left) by (nonlinear_arith)
        requires
            e > 0,
    ;
}

} // verus!
