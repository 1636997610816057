use crate::wide;
use vstd::arithmetic::logarithm::{lemma_log0, lemma_log_s, log};
use vstd::arithmetic::power2::{
    lemma2_to64, lemma2_to64_rest, lemma_pow2_adds, lemma_pow2_pos, lemma_pow2_strictly_increases,
    lemma_pow2_unfold, pow2,
};
use vstd::prelude::*;

verus! {

/// The zeros of a block lie above its base in steps of `2^-101`, which is
/// `2^973` units of `2^-1074`.
pub const UNIT_SHIFT: usize = 973;

/// Limbs that hold every sum of two finite magnitudes and a raised offset.
const LIMBS: usize = 34;

/// A number in the IEEE 754 binary64 interchange format, held as its 64 bits.
///
/// The library never computes with hardware floating point: every question
/// about such a number is answered from its sign, exponent field and fraction,
/// and stated over [`Binary64::scaled`], the number as an exact integer
/// multiple of `2^-1074`.
///
/// Two values are `==` when their bits agree, so `-0` differs from `+0` here
/// although both have the scaled value `0`.
#[derive(Clone, Copy, Debug, PartialEq, Eq, Structural)]
pub struct Binary64 {
    pub bits: u64,
}

impl Binary64 {
    /// The sign bit is set.
    pub open spec fn negative(self) -> bool {
        self.bits >= 0x8000_0000_0000_0000
    }

    /// The 11-bit biased exponent.
    pub open spec fn exponent_field(self) -> nat {
        (self.bits / 0x10_0000_0000_0000 % 0x800) as nat
    }

    /// The 52 explicit fraction bits.
    pub open spec fn fraction(self) -> nat {
        (self.bits % 0x10_0000_0000_0000) as nat
    }

    /// Neither an infinity nor a NaN.
    pub open spec fn finite(self) -> bool {
        self.exponent_field() != 2047
    }

    /// Not a number.
    pub open spec fn nan(self) -> bool {
        self.exponent_field() == 2047 && self.fraction() != 0
    }

    /// The significand as an integer: the fraction, with the implicit leading
    /// bit in front unless the number is subnormal.
    pub open spec fn significand(self) -> nat {
        if self.exponent_field() == 0 {
            self.fraction()
        } else {
            0x10_0000_0000_0000 + self.fraction()
        }
    }

    /// The power of two by which the significand is multiplied, counted in units
    /// of `2^-1074`.
    pub open spec fn shift(self) -> nat {
        if self.exponent_field() == 0 {
            0
        } else {
            (self.exponent_field() - 1) as nat
        }
    }

    /// The absolute value of a finite number, in units of `2^-1074`.
    pub open spec fn magnitude(self) -> nat {
        self.significand() * pow2(self.shift())
    }

    /// The value of a finite number, in units of `2^-1074`.
    pub open spec fn scaled(self) -> int {
        if self.negative() {
            -(self.magnitude() as int)
        } else {
            self.magnitude() as int
        }
    }

    /// The number with the given bits.
    pub fn from_bits(bits: u64) -> (number: Self)
        ensures
            number.bits == bits,
    {
        Binary64 { bits }
    }

    /// The bits of the number.
    pub fn to_bits(&self) -> (bits: u64)
        ensures
            bits == self.bits,
    {
        self.bits
    }

    pub fn is_negative(&self) -> (negative: bool)
        ensures
            negative == self.negative(),
    {
        self.bits >= 0x8000_0000_0000_0000
    }

    pub fn is_finite(&self) -> (finite: bool)
        ensures
            finite == self.finite(),
    {
        self.bits / 0x10_0000_0000_0000 % 0x800 != 2047
    }

    pub fn is_nan(&self) -> (nan: bool)
        ensures
            nan == self.nan(),
    {
        self.bits / 0x10_0000_0000_0000 % 0x800 == 2047 && self.bits % 0x10_0000_0000_0000 != 0
    }

    /// The significand and the shift of the number: see [`Binary64::magnitude`].
    pub fn parts(&self) -> (parts: (u64, u32))
        ensures
            parts.0 == self.significand(),
            parts.1 == self.shift(),
            parts.0 < 0x20_0000_0000_0000,
            parts.1 <= 2046,
    {
        let field: u64 = self.bits / 0x10_0000_0000_0000 % 0x800;
        let fraction: u64 = self.bits % 0x10_0000_0000_0000;
        if field == 0 {
            (fraction, 0)
        } else {
            (0x10_0000_0000_0000 + fraction, (field - 1) as u32)
        }
    }

    /// `floor(log2(x))` of a finite number `x > 0`, and `None` for every other
    /// number: the `k` with `2^k <= x < 2^(k + 1)`.
    pub fn floor_log2(&self) -> (floor: Option<i32>)
        ensures
            floor.is_some() <==> self.finite() && self.scaled() > 0,
            floor matches Some(k) ==> {
                &&& -1074 <= k <= 1023
                &&& pow2((k + 1074) as nat) <= self.scaled() < pow2((k + 1075) as nat)
                &&& k == log(2, self.scaled()) - 1074
            },
    {
        let (significand, shift) = self.parts();
        proof {
            lemma_pow2_pos(shift as nat);
            assert(self.magnitude() > 0 <==> significand > 0) by (nonlinear_arith)
                requires
                    self.magnitude() == significand * pow2(shift as nat),
                    pow2(shift as nat) > 0,
            ;
        }
        if !self.is_finite() || self.is_negative() || significand == 0 {
            return None;
        }
        let mut width: u32 = 0;
        let mut power: u64 = 1;
        proof {
            lemma2_to64();
        }
        while power <= significand / 2
            invariant
                0 < significand < 0x20_0000_0000_0000,
                power == pow2(width as nat),
                power <= significand,
                width <= 52,
            decreases significand - power,
        {
            proof {
                lemma_pow2_adds(width as nat, 1);
                lemma2_to64();
                lemma2_to64_rest();
            }
            power = power * 2;
            width = width + 1;
        }
        let k: i32 = width as i32 + shift as i32 - 1074;
        proof {
            let e = shift as nat;
            let w = width as nat;
            lemma_pow2_adds(w, 1);
            lemma_pow2_adds(w, e);
            lemma_pow2_adds(w + 1, e);
            lemma2_to64();
            lemma_pow2_pos(e);
            assert(pow2(w + 1) == 2 * power);
            assert(power * pow2(e) <= significand * pow2(e) < (2 * power) * pow2(e))
                by (nonlinear_arith)
                requires
                    power <= significand < 2 * power,
                    pow2(e) > 0,
            ;
            assert((k + 1074) as nat == w + e);
            assert((k + 1075) as nat == w + 1 + e);
            lemma_log2_between(self.scaled(), w + e);
        }
        Some(k)
    }

    /// Whether this number, raised by `units` steps of `2^-101`, is at least
    /// `other`. The comparison is exact: nothing is rounded.
    pub fn raised_reaches(&self, units: u128, other: &Binary64) -> (reached: bool)
        requires
            self.finite(),
            other.finite(),
        ensures
            reached == (self.scaled() + units * pow2(973) >= other.scaled()),
    {
        let (own, own_shift) = self.parts();
        let (their, their_shift) = other.parts();
        let none = wide::shifted(0, 0, LIMBS);
        let raise = wide::shifted(units, UNIT_SHIFT, LIMBS);
        let mine = wide::shifted(own as u128, own_shift as usize, LIMBS);
        let theirs = wide::shifted(their as u128, their_shift as usize, LIMBS);
        proof {
            lemma2_to64_rest();
            lemma_below(own as nat, 53, own_shift as nat, 2100);
            lemma_below(their as nat, 53, their_shift as nat, 2100);
            assert(units < pow2(128)) by {
                lemma_pow2_adds(64, 64);
                lemma2_to64();
            }
            lemma_below(units as nat, 128, 973, 2100);
            lemma_pow2_adds(2100, 2);
            lemma2_to64();
            lemma_pow2_strictly_increases(2102, 2176);
            assert(wide::value(none@) == 0);
        }
        // Negative terms change sides, so that both sides are sums of magnitudes.
        let (left, right) = if self.is_negative() {
            if other.is_negative() {
                (wide::sum(&raise, &theirs), wide::sum(&mine, &none))
            } else {
                (wide::sum(&raise, &none), wide::sum(&mine, &theirs))
            }
        } else {
            if other.is_negative() {
                (wide::sum(&raise, &wide::sum(&mine, &theirs)), wide::sum(&none, &none))
            } else {
                (wide::sum(&raise, &mine), wide::sum(&theirs, &none))
            }
        };
        wide::at_least(&left, &right)
    }

    /// Whether this finite number is less than the finite number `other`.
    pub fn less_than(&self, other: &Binary64) -> (less: bool)
        requires
            self.finite(),
            other.finite(),
        ensures
            less == (self.scaled() < other.scaled()),
    {
        !self.raised_reaches(0, other)
    }
}

/// `floor(log2(n))` is `a` for every `n` from `2^a` up to `2^(a + 1)`, the
/// latter left out.
pub proof fn lemma_log2_between(n: int, a: nat)
    requires
        pow2(a) <= n < pow2(a + 1),
    ensures
        log(2, n) == a,
    decreases a,
{
    lemma2_to64();
    if a == 0 {
        lemma_log0(2, n);
    } else {
        lemma_pow2_unfold(a);
        lemma_pow2_unfold(a + 1);
        lemma_pow2_pos((a - 1) as nat);
        lemma_log_s(2, n);
        lemma_log2_between(n / 2, (a - 1) as nat);
    }
}

/// `floor(log2(x))` of a finite `x > 0` lies between -1074 and 1023.
pub proof fn lemma_log2_of_finite(x: Binary64)
    requires
        x.finite(),
        x.scaled() > 0,
    ensures
        0 <= log(2, x.scaled()) <= 2097,
{
    lemma2_to64();
    lemma2_to64_rest();
    vstd::arithmetic::logarithm::lemma_log_nonnegative(2, x.scaled());
    lemma_below(x.significand(), 53, x.shift(), 2098);
    vstd::arithmetic::logarithm::lemma_log_is_ordered(2, x.scaled(), pow2(2098) as int);
    lemma_pow2_unfold(2098);
    lemma_log2_between(pow2(2097) as int, 2097);
    lemma_log2_upper(x.scaled(), 2097);
}

/// Below `2^(a + 1)` the logarithm is at most `a`.
pub proof fn lemma_log2_upper(n: int, a: nat)
    requires
        0 <= n < pow2(a + 1),
    ensures
        log(2, n) <= a,
    decreases a,
{
    lemma2_to64();
    if n < 2 {
        lemma_log0(2, n);
    } else {
        lemma_pow2_unfold(a + 1);
        if a == 0 {
        } else {
            lemma_log_s(2, n);
            lemma_log2_upper(n / 2, (a - 1) as nat);
        }
    }
}

/// A number below `2^bits`, shifted up by `shift` bits, stays below `2^top`
/// where `bits + shift <= top`.
proof fn lemma_below(v: nat, bits: nat, shift: nat, top: nat)
    requires
        v < pow2(bits),
        bits + shift <= top,
    ensures
        v * pow2(shift) < pow2(top),
{
    lemma_pow2_adds(bits, shift);
    lemma_pow2_pos(shift);
    if bits + shift < top {
        lemma_pow2_strictly_increases(bits + shift, top);
    }
    assert(v * pow2(shift) < pow2(bits) * pow2(shift)) by (nonlinear_arith)
        requires
            v < pow2(bits),
            pow2(shift) > 0,
    ;
}

} // verus!
