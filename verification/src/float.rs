//! Floating-point numbers as the bits that hold them: how they compare, and which of several is
//! the largest.
//!
//! Sign, exponent and fraction stand in that order from the top bit down, so that numbers of one
//! sign compare as their bits do.

use vstd::prelude::*;

verus! {

/// The top bit of a 32-bit number.
pub const SIGN: u32 = 0x8000_0000;

/// The bits of a 32-bit infinity.
pub const INFINITY: u32 = 0x7f80_0000;

/// The place of a 32-bit number in the total order of all bit patterns: negative NaNs, negative
/// numbers, both zeros, positive numbers, NaNs.
pub open spec fn place(bits: u32) -> int {
    if bits < SIGN {
        bits as int
    } else {
        SIGN - 1 - bits
    }
}

/// The places of several numbers.
pub open spec fn places(v: Seq<u32>) -> Seq<int> {
    Seq::new(v.len(), |i: int| place(v[i]))
}

/// Whether a bit pattern is a number at all.
pub open spec fn is_number(bits: u32) -> bool {
    if bits < SIGN {
        bits <= INFINITY
    } else {
        bits - SIGN <= INFINITY
    }
}

/// A number's place among numbers, where both zeros are the same.
pub open spec fn magnitude(bits: u32) -> int {
    if bits < SIGN {
        bits as int
    } else {
        SIGN - bits
    }
}

/// Whether one number is greater than another; nothing is greater than a NaN, nor less.
pub open spec fn greater(a: u32, b: u32) -> bool {
    is_number(a) && is_number(b) && magnitude(a) > magnitude(b)
}

/// Whether `a` stands before `b` in the total order.
pub fn before(a: u32, b: u32) -> (r: bool)
    ensures
        r == (place(a) < place(b)),
{
    if a < SIGN {
        b < SIGN && a < b
    } else {
        b < SIGN || a > b
    }
}

/// Whether a bit pattern is a number at all.
pub fn is_a_number(bits: u32) -> (r: bool)
    ensures
        r == is_number(bits),
{
    if bits < SIGN {
        bits <= INFINITY
    } else {
        bits - SIGN <= INFINITY
    }
}

/// Whether one number is greater than another.
pub fn exceeds(a: u32, b: u32) -> (r: bool)
    ensures
        r == greater(a, b),
{
    if !is_a_number(a) || !is_a_number(b) {
        return false;
    }
    if a < SIGN {
        if b < SIGN {
            a > b
        } else {
            a > 0 || b > SIGN
        }
    } else {
        b >= SIGN && a < b
    }
}

/// The place of the first number that no later one exceeds, going from the start.
pub open spec fn peak(p: Seq<u32>) -> int
    decreases p.len(),
{
    if p.len() <= 1 {
        0
    } else {
        let best = peak(p.drop_last());
        if greater(p.last(), p[best]) {
            p.len() - 1
        } else {
            best
        }
    }
}

/// The place of the first largest number.
pub fn argmax(p: &Vec<u32>) -> (r: usize)
    ensures
        r == peak(p@),
        p@.len() > 0 ==> r < p@.len(),
{
    let mut best: usize = 0;
    let mut i: usize = 1;
    while i < p.len()
        invariant
            1 <= i,
            p@.len() >= 1 ==> i <= p@.len() && best == peak(p@.take(i as int)) && best < i,
            p@.len() == 0 ==> best == 0,
        decreases p@.len() - i,
    {
        proof {
            assert(p@.take(i + 1).drop_last() =~= p@.take(i as int));
        }
        if exceeds(p[i], p[best]) {
            best = i;
        }
        i += 1;
    }
    proof {
        if p@.len() > 0 {
            assert(p@.take(p@.len() as int) =~= p@);
        }
    }
    best
}

/// Of numbers alone, nothing exceeds the peak, and what comes before it is less.
pub proof fn lemma_peak_is_largest(p: Seq<u32>)
    requires
        p.len() > 0,
        forall|i: int| 0 <= i < p.len() ==> is_number(#[trigger] p[i]),
    ensures
        0 <= peak(p) < p.len(),
        forall|i: int| 0 <= i < p.len() ==> !greater(#[trigger] p[i], p[peak(p)]),
        forall|i: int| 0 <= i < peak(p) ==> greater(p[peak(p)], #[trigger] p[i]),
    decreases p.len(),
{
    if p.len() > 1 {
        let q = p.drop_last();
        assert forall|i: int| 0 <= i < q.len() implies is_number(#[trigger] q[i]) by {
            assert(q[i] == p[i]);
        }
        lemma_peak_is_largest(q);
        let b = peak(q);
        assert forall|i: int| 0 <= i < p.len() implies !greater(#[trigger] p[i], p[peak(p)]) by {
            if i < q.len() {
                assert(q[i] == p[i]);
                assert(!greater(q[i], q[b]));
            }
        }
        assert forall|i: int| 0 <= i < peak(p) implies greater(p[peak(p)], #[trigger] p[i]) by {
            assert(q[i] == p[i]);
            assert(!greater(q[i], q[b]));
        }
    }
}

/// The place of the last number that stands highest in the total order.
pub open spec fn highest(v: Seq<u32>) -> int
    decreases v.len(),
{
    if v.len() <= 1 {
        0
    } else {
        let best = highest(v.drop_last());
        if place(v.last()) >= place(v[best]) {
            v.len() - 1
        } else {
            best
        }
    }
}

/// The place of the last number that stands highest in the total order.
pub fn find_highest(v: &Vec<u32>) -> (r: usize)
    requires
        v@.len() > 0,
    ensures
        r == highest(v@),
        r < v@.len(),
{
    let mut best: usize = 0;
    let mut i: usize = 1;
    while i < v.len()
        invariant
            1 <= i <= v@.len(),
            best == highest(v@.take(i as int)),
            best < i,
        decreases v@.len() - i,
    {
        proof {
            assert(v@.take(i + 1).drop_last() =~= v@.take(i as int));
        }
        if !before(v[i], v[best]) {
            best = i;
        }
        i += 1;
    }
    proof {
        assert(v@.take(v@.len() as int) =~= v@);
    }
    best
}

/// The highest is as high as any, and the last of those.
pub proof fn lemma_the_highest_is_the_last_of_them(v: Seq<u32>, i: int)
    requires
        0 <= i < v.len(),
    ensures
        0 <= highest(v) < v.len(),
        place(v[i]) <= place(v[highest(v)]),
        i > highest(v) ==> place(v[i]) < place(v[highest(v)]),
    decreases v.len(),
{
    if v.len() > 1 {
        let less = v.drop_last();
        lemma_the_highest_is_the_last_of_them(
            less,
            if i < less.len() {
                i
            } else {
                0
            },
        );
    }
}

/// Numbers are placed in their order: of two that are not negative the one with the larger bits is
/// the higher, of two negative ones the lower, and a negative one is below any that is not.
pub proof fn lemma_places_are_in_order(a: u32, b: u32)
    ensures
        a < 0x8000_0000 && b < 0x8000_0000 ==> (place(a) < place(b) <==> a < b),
        a >= 0x8000_0000 && b >= 0x8000_0000 ==> (place(a) < place(b) <==> a > b),
        a >= 0x8000_0000 && b < 0x8000_0000 ==> place(a) < place(b),
        place(a) == place(b) ==> a == b,
        greater(a, b) ==> place(a) > place(b),
        is_number(a) <==> a <= 0x7f80_0000 || 0x8000_0000 <= a <= 0xff80_0000,
{
}

} // verus!
