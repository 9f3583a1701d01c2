//! Natural numbers of any size, held as limbs of 64 bits with the least
//! significant first: enough arithmetic to compare sums of fractions
//! without rounding.

use vstd::prelude::*;

verus! {

/// The weight of the limb at index `i`: 2 to the power of `64 * i`.
pub open spec fn weight(i: nat) -> nat
    decreases i,
{
    if i == 0 {
        1
    } else {
        0x1_0000_0000_0000_0000 * weight((i - 1) as nat)
    }
}

/// The limb at index `i`, or zero where the number has no such limb.
pub open spec fn limb(limbs: Seq<u64>, i: int) -> nat {
    if 0 <= i < limbs.len() {
        limbs[i] as nat
    } else {
        0
    }
}

/// The number that the limbs below index `n` stand for.
pub open spec fn value_below(limbs: Seq<u64>, n: nat) -> nat
    decreases n,
{
    if n == 0 {
        0
    } else {
        value_below(limbs, (n - 1) as nat) + limb(limbs, n - 1) * weight((n - 1) as nat)
    }
}

/// The number that the limbs stand for.
pub open spec fn value(limbs: Seq<u64>) -> nat {
    value_below(limbs, limbs.len())
}

/// A weight is positive.
pub proof fn lemma_weight_positive(i: nat)
    ensures
        weight(i) > 0,
    decreases i,
{
    if i > 0 {
        lemma_weight_positive((i - 1) as nat);
        let w = weight((i - 1) as nat);
        assert(0x1_0000_0000_0000_0000 * w > 0) by (nonlinear_arith)
            requires
                w > 0,
        ;
    }
}

/// Numbers with the same limbs below `n` have the same value below `n`.
pub proof fn lemma_same_below(first: Seq<u64>, second: Seq<u64>, n: nat)
    requires
        forall|j: int| 0 <= j < n ==> limb(first, j) == limb(second, j),
    ensures
        value_below(first, n) == value_below(second, n),
    decreases n,
{
    if n > 0 {
        lemma_same_below(first, second, (n - 1) as nat);
    }
}

/// Limbs that a number does not have add nothing to its value.
pub proof fn lemma_beyond(limbs: Seq<u64>, n: nat)
    requires
        n >= limbs.len(),
    ensures
        value_below(limbs, n) == value(limbs),
    decreases n,
{
    if n > limbs.len() {
        lemma_beyond(limbs, (n - 1) as nat);
        assert(limb(limbs, n - 1) == 0);
        assert(limb(limbs, n - 1) * weight((n - 1) as nat) == 0) by (nonlinear_arith)
            requires
                limb(limbs, n - 1) == 0,
        ;
    }
}

/// A limb more adds its weight's worth.
pub proof fn lemma_push(limbs: Seq<u64>, top: u64)
    ensures
        value(limbs.push(top)) == value(limbs) + top * weight(limbs.len()),
{
    let longer = limbs.push(top);
    assert forall|j: int| 0 <= j < limbs.len() implies limb(longer, j) == limb(limbs, j) by {}
    lemma_same_below(longer, limbs, limbs.len());
    assert(limb(longer, limbs.len() as int) == top);
}

/// The limbs below `n` stand for less than the weight of limb `n`.
pub proof fn lemma_below_weight(limbs: Seq<u64>, n: nat)
    ensures
        value_below(limbs, n) < weight(n),
    decreases n,
{
    if n > 0 {
        lemma_below_weight(limbs, (n - 1) as nat);
        let w = weight((n - 1) as nat);
        let l = limb(limbs, n - 1);
        let v = value_below(limbs, (n - 1) as nat);
        assert(v + l * w < 0x1_0000_0000_0000_0000 * w) by (nonlinear_arith)
            requires
                v < w,
                l <= 0xffff_ffff_ffff_ffff,
        ;
    }
}

/// The product of a number and a factor of 64 bits.
pub fn times(number: &Vec<u64>, factor: u64) -> (product: Vec<u64>)
    ensures
        value(product@) == value(number@) * factor,
{
    let mut product: Vec<u64> = Vec::new();
    let mut carry: u64 = 0;
    let mut i: usize = 0;
    assert(0 * weight(0) == 0) by (nonlinear_arith);
    assert(0 * (factor as nat) == 0) by (nonlinear_arith);
    while i < number.len()
        invariant
            0 <= i <= number@.len(),
            product@.len() == i,
            value(product@) + carry * weight(i as nat) == value_below(number@, i as nat) * factor,
        decreases number@.len() - i,
    {
        let here = number[i];
        assert(here * factor + carry <= 0xffff_ffff_ffff_ffff * 0xffff_ffff_ffff_ffff
            + 0xffff_ffff_ffff_ffff) by (nonlinear_arith)
            requires
                0 <= here <= 0xffff_ffff_ffff_ffff,
                0 <= factor <= 0xffff_ffff_ffff_ffff,
                0 <= carry <= 0xffff_ffff_ffff_ffff,
        ;
        let wide: u128 = (here as u128) * (factor as u128) + (carry as u128);
        let low: u64 = (wide % 0x1_0000_0000_0000_0000) as u64;
        let high: u64 = (wide / 0x1_0000_0000_0000_0000) as u64;
        proof {
            lemma_push(product@, low);
            let w = weight(i as nat);
            let before = value(product@);
            let below = value_below(number@, i as nat);
            assert(limb(number@, i as int) == here);
            assert(before + low * w + high * (0x1_0000_0000_0000_0000 * w) == (below + here * w)
                * factor) by (nonlinear_arith)
                requires
                    before + carry * w == below * factor,
                    low + high * 0x1_0000_0000_0000_0000 == here * factor + carry,
            ;
        }
        product.push(low);
        carry = high;
        i = i + 1;
    }
    proof {
        lemma_push(product@, carry);
    }
    product.push(carry);
    product
}

/// The limb at index `i`, or zero where the number has no such limb.
fn limb_at(number: &Vec<u64>, i: usize) -> (l: u64)
    ensures
        l == limb(number@, i as int),
{
    if i < number.len() {
        number[i]
    } else {
        0
    }
}

/// The sum of two numbers.
pub fn plus(first: &Vec<u64>, second: &Vec<u64>) -> (sum: Vec<u64>)
    ensures
        value(sum@) == value(first@) + value(second@),
{
    let count = if first.len() >= second.len() {
        first.len()
    } else {
        second.len()
    };
    let mut sum: Vec<u64> = Vec::new();
    let mut carry: u64 = 0;
    let mut i: usize = 0;
    assert(0 * weight(0) == 0) by (nonlinear_arith);
    while i < count
        invariant
            0 <= i <= count,
            sum@.len() == i,
            carry <= 1,
            value(sum@) + carry * weight(i as nat) == value_below(first@, i as nat) + value_below(
                second@,
                i as nat,
            ),
        decreases count - i,
    {
        let x = limb_at(first, i);
        let y = limb_at(second, i);
        let wide: u128 = (x as u128) + (y as u128) + (carry as u128);
        let low: u64 = (wide % 0x1_0000_0000_0000_0000) as u64;
        let high: u64 = (wide / 0x1_0000_0000_0000_0000) as u64;
        proof {
            lemma_push(sum@, low);
            let w = weight(i as nat);
            let before = value(sum@);
            let a = value_below(first@, i as nat);
            let b = value_below(second@, i as nat);
            assert(before + low * w + high * (0x1_0000_0000_0000_0000 * w) == (a + x * w) + (b + y
                * w)) by (nonlinear_arith)
                requires
                    before + carry * w == a + b,
                    low + high * 0x1_0000_0000_0000_0000 == x + y + carry,
            ;
        }
        sum.push(low);
        carry = high;
        i = i + 1;
    }
    proof {
        lemma_push(sum@, carry);
        lemma_beyond(first@, count as nat);
        lemma_beyond(second@, count as nat);
    }
    sum.push(carry);
    sum
}

/// Tells whether the first number is greater than the second.
pub fn exceeds(first: &Vec<u64>, second: &Vec<u64>) -> (greater: bool)
    ensures
        greater == (value(first@) > value(second@)),
{
    let count = if first.len() >= second.len() {
        first.len()
    } else {
        second.len()
    };
    let mut i: usize = count;
    while i > 0
        invariant
            0 <= i <= count,
            count >= first@.len(),
            count >= second@.len(),
            value_below(first@, count as nat) + value_below(second@, i as nat) == value_below(
                second@,
                count as nat,
            ) + value_below(first@, i as nat),
        decreases i,
    {
        let x = limb_at(first, i - 1);
        let y = limb_at(second, i - 1);
        proof {
            lemma_below_weight(first@, (i - 1) as nat);
            lemma_below_weight(second@, (i - 1) as nat);
            lemma_beyond(first@, count as nat);
            lemma_beyond(second@, count as nat);
        }
        if x != y {
            let ghost w = weight((i - 1) as nat);
            let ghost a = value_below(first@, (i - 1) as nat);
            let ghost b = value_below(second@, (i - 1) as nat);
            assert(x > y ==> a + x * w > b + y * w) by (nonlinear_arith)
                requires
                    a < w,
                    b < w,
                    a >= 0,
                    b >= 0,
            ;
            assert(x < y ==> a + x * w < b + y * w) by (nonlinear_arith)
                requires
                    a < w,
                    b < w,
                    a >= 0,
                    b >= 0,
            ;
            return x > y;
        }
        i = i - 1;
    }
    proof {
        lemma_beyond(first@, count as nat);
        lemma_beyond(second@, count as nat);
    }
    false
}

} // verus!
