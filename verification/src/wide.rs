use vstd::arithmetic::power2::{lemma2_to64, lemma_pow2_adds, lemma_pow2_pos, pow2};
use vstd::bits::{lemma_u64_pow2_no_overflow, lemma_u64_shl_is_mul};
use vstd::prelude::*;

verus! {

/// The natural number that a sequence of 64-bit limbs stands for, the least
/// significant limb first.
pub open spec fn value(limbs: Seq<u64>) -> nat
    decreases limbs.len(),
{
    if limbs.len() == 0 {
        0
    } else {
        value(limbs.drop_last()) + limbs.last() as nat * pow2((64 * (limbs.len() - 1)) as nat)
    }
}

/// A limb appended at the top adds its value at the weight of its place.
pub proof fn lemma_value_push(limbs: Seq<u64>, limb: u64)
    ensures
        value(limbs.push(limb)) == value(limbs) + limb as nat * pow2((64 * limbs.len()) as nat),
{
    assert(limbs.push(limb).drop_last() =~= limbs);
}

/// The first `n + 1` limbs are the first `n` limbs and the limb at `n`.
pub proof fn lemma_value_take(limbs: Seq<u64>, n: int)
    requires
        0 <= n < limbs.len(),
    ensures
        value(limbs.take(n + 1)) == value(limbs.take(n)) + limbs[n] as nat * pow2((64 * n) as nat),
{
    assert(limbs.take(n + 1) =~= limbs.take(n).push(limbs[n]));
    lemma_value_push(limbs.take(n), limbs[n]);
}

/// `n` limbs stand for a number below `2^(64 n)`.
pub proof fn lemma_value_bound(limbs: Seq<u64>)
    ensures
        value(limbs) < pow2((64 * limbs.len()) as nat),
    decreases limbs.len(),
{
    if limbs.len() == 0 {
        lemma2_to64();
    } else {
        let n = (limbs.len() - 1) as nat;
        lemma_value_bound(limbs.drop_last());
        lemma_pow2_adds(64 * n, 64);
        lemma2_to64();
        let weight = pow2(64 * n);
        let top = limbs.last() as nat;
        let rest = value(limbs.drop_last());
        assert(rest + top * weight < weight * 0x1_0000_0000_0000_0000) by (nonlinear_arith)
            requires
                rest < weight,
                top < 0x1_0000_0000_0000_0000,
        ;
    }
}

/// `v * 2^shift` in `len` limbs.
pub fn shifted(v: u128, shift: usize, len: usize) -> (limbs: Vec<u64>)
    requires
        shift / 64 + 3 <= len,
    ensures
        limbs.len() == len,
        value(limbs@) == v * pow2(shift as nat),
{
    let first: usize = shift / 64;
    let within: u64 = (shift % 64) as u64;
    let factor: u64 = 1u64 << within;
    proof {
        lemma_u64_pow2_no_overflow(within as nat);
        lemma_u64_shl_is_mul(1, within);
        lemma2_to64();
        lemma_pow2_adds(63, 1);
        if within < 63 {
            vstd::arithmetic::power2::lemma_pow2_strictly_increases(within as nat, 63);
        }
        assert(factor == pow2(within as nat));
        assert(factor <= 0x8000_0000_0000_0000);
    }
    let v0: u128 = v % 0x1_0000_0000_0000_0000;
    let v1: u128 = v / 0x1_0000_0000_0000_0000;
    assert(v0 * factor <= 0xffff_ffff_ffff_ffff * 0x8000_0000_0000_0000
        && v1 * factor <= 0xffff_ffff_ffff_ffff * 0x8000_0000_0000_0000) by (nonlinear_arith)
        requires
            v0 <= 0xffff_ffff_ffff_ffff,
            v1 <= 0xffff_ffff_ffff_ffff,
            factor <= 0x8000_0000_0000_0000,
    ;
    let low: u128 = v0 * (factor as u128);
    let high: u128 = v1 * (factor as u128);
    let middle: u128 = low / 0x1_0000_0000_0000_0000 + high;
    let l0: u64 = (low % 0x1_0000_0000_0000_0000) as u64;
    let l1: u64 = (middle % 0x1_0000_0000_0000_0000) as u64;
    let l2: u64 = (middle / 0x1_0000_0000_0000_0000) as u64;
    let ghost base = pow2((64 * first) as nat);
    proof {
        assert(v * factor == low + high * 0x1_0000_0000_0000_0000) by (nonlinear_arith)
            requires
                v == v0 + v1 * 0x1_0000_0000_0000_0000,
                low == v0 * factor,
                high == v1 * factor,
        ;
        assert(v * factor == l0 + l1 * 0x1_0000_0000_0000_0000 + l2 * 0x1_0000_0000_0000_0000
            * 0x1_0000_0000_0000_0000);
        lemma_pow2_adds((64 * first) as nat, 64);
        lemma_pow2_adds((64 * first + 64) as nat, 64);
        lemma_pow2_adds(within as nat, (64 * first) as nat);
        assert(shift == within + 64 * first);
        assert(pow2((64 * (first + 1)) as nat) == base * 0x1_0000_0000_0000_0000);
        assert(pow2((64 * (first + 2)) as nat) == base * 0x1_0000_0000_0000_0000
            * 0x1_0000_0000_0000_0000);
        assert(l0 * base + l1 * (base * 0x1_0000_0000_0000_0000) + l2 * (base
            * 0x1_0000_0000_0000_0000 * 0x1_0000_0000_0000_0000) == v * pow2(shift as nat))
            by (nonlinear_arith)
            requires
                v * factor == l0 + l1 * 0x1_0000_0000_0000_0000 + l2 * 0x1_0000_0000_0000_0000
                    * 0x1_0000_0000_0000_0000,
                pow2(shift as nat) == factor * base,
        ;
    }
    let mut limbs: Vec<u64> = Vec::new();
    let mut i: usize = 0;
    while i < len
        invariant
            i <= len,
            first + 3 <= len,
            limbs.len() == i,
            value(limbs@) == (if i > first {
                l0 * pow2((64 * first) as nat)
            } else {
                0
            }) + (if i > first + 1 {
                l1 * pow2((64 * (first + 1)) as nat)
            } else {
                0
            }) + (if i > first + 2 {
                l2 * pow2((64 * (first + 2)) as nat)
            } else {
                0
            }),
        decreases len - i,
    {
        let limb: u64 = if i == first {
            l0
        } else if i == first + 1 {
            l1
        } else if i == first + 2 {
            l2
        } else {
            0
        };
        proof {
            lemma_value_push(limbs@, limb);
            assert(0 * pow2((64 * i) as nat) == 0);
        }
        limbs.push(limb);
        i = i + 1;
    }
    limbs
}

/// The sum of two numbers of the same length, where it fits that length.
pub fn sum(a: &Vec<u64>, b: &Vec<u64>) -> (total: Vec<u64>)
    requires
        a.len() == b.len(),
        value(a@) + value(b@) < pow2((64 * a.len()) as nat),
    ensures
        total.len() == a.len(),
        value(total@) == value(a@) + value(b@),
{
    let mut total: Vec<u64> = Vec::new();
    let mut carry: u64 = 0;
    let mut i: usize = 0;
    proof {
        lemma2_to64();
        assert(a@.take(0) =~= Seq::<u64>::empty());
        assert(b@.take(0) =~= Seq::<u64>::empty());
    }
    while i < a.len()
        invariant
            i <= a.len(),
            a.len() == b.len(),
            total.len() == i,
            carry <= 1,
            value(total@) + carry * pow2((64 * i) as nat) == value(a@.take(i as int)) + value(
                b@.take(i as int),
            ),
        decreases a.len() - i,
    {
        let s: u128 = a[i] as u128 + b[i] as u128 + carry as u128;
        let limb: u64 = (s % 0x1_0000_0000_0000_0000) as u64;
        let next: u64 = (s / 0x1_0000_0000_0000_0000) as u64;
        proof {
            lemma_value_push(total@, limb);
            lemma_value_take(a@, i as int);
            lemma_value_take(b@, i as int);
            lemma_pow2_adds((64 * i) as nat, 64);
            lemma2_to64();
            let weight = pow2((64 * i) as nat);
            assert(pow2((64 * (i + 1)) as nat) == weight * 0x1_0000_0000_0000_0000);
            assert(limb * weight + next * (weight * 0x1_0000_0000_0000_0000) == a[i as int]
                * weight + b[i as int] * weight + carry * weight) by (nonlinear_arith)
                requires
                    limb + next * 0x1_0000_0000_0000_0000 == a[i as int] + b[i as int] + carry,
            ;
        }
        total.push(limb);
        carry = next;
        i = i + 1;
    }
    proof {
        assert(a@.take(i as int) =~= a@);
        assert(b@.take(i as int) =~= b@);
        let top = pow2((64 * i) as nat);
        assert(carry == 0) by (nonlinear_arith)
            requires
                value(total@) + carry * top < top,
                carry <= 1,
        ;
    }
    total
}

/// Whether the first of two numbers of the same length is at least the second.
pub fn at_least(a: &Vec<u64>, b: &Vec<u64>) -> (reached: bool)
    requires
        a.len() == b.len(),
    ensures
        reached == (value(a@) >= value(b@)),
{
    let mut reached: bool = true;
    let mut i: usize = 0;
    proof {
        assert(a@.take(0) =~= Seq::<u64>::empty());
        assert(b@.take(0) =~= Seq::<u64>::empty());
    }
    while i < a.len()
        invariant
            i <= a.len(),
            a.len() == b.len(),
            reached == (value(a@.take(i as int)) >= value(b@.take(i as int))),
        decreases a.len() - i,
    {
        proof {
            lemma_value_take(a@, i as int);
            lemma_value_take(b@, i as int);
            lemma_value_bound(a@.take(i as int));
            lemma_value_bound(b@.take(i as int));
            let weight = pow2((64 * i) as nat);
            let low_a = value(a@.take(i as int));
            let low_b = value(b@.take(i as int));
            let x = a[i as int];
            let y = b[i as int];
            assert(x > y ==> low_a + x * weight > low_b + y * weight) by (nonlinear_arith)
                requires
                    low_a < weight,
                    low_b < weight,
            ;
            assert(x < y ==> low_a + x * weight < low_b + y * weight) by (nonlinear_arith)
                requires
                    low_a < weight,
                    low_b < weight,
            ;
        }
        reached = a[i] > b[i] || (a[i] == b[i] && reached);
        i = i + 1;
    }
    proof {
        assert(a@.take(i as int) =~= a@);
        assert(b@.take(i as int) =~= b@);
    }
    reached
}

} // verus!
