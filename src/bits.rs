//! Single-word bit operations and the bit-scan primitives.
use vstd::prelude::*;
use vstd::std_specs::bits::u64_trailing_zeros;

verus! {

broadcast use vstd::std_specs::bits::axiom_u64_trailing_zeros;

/// Whether bit `k` of `w` (counted from the least significant end) is set.
pub open spec fn bit_of(w: u64, k: u64) -> bool {
    (w >> k) & 1u64 == 1u64
}

/// The position of the lowest set bit of a nonzero word.
pub open spec fn is_lowest_bit(w: u64, k: u64) -> bool {
    &&& k < 64
    &&& bit_of(w, k)
    &&& forall|m: u64| m < k ==> !bit_of(w, m)
}

pub proof fn lemma_bit_of_or(w: u64, j: u64, k: u64)
    requires
        j < 64,
        k < 64,
    ensures
        bit_of(w | (1u64 << j), k) == (k == j || bit_of(w, k)),
{
    assert(((w | (1u64 << j)) >> k) & 1u64 == 1u64 <==> (k == j || (w >> k) & 1u64 == 1u64))
        by (bit_vector)
        requires
            j < 64,
            k < 64,
    ;
}

pub proof fn lemma_bit_of_and_not(w: u64, j: u64, k: u64)
    requires
        j < 64,
        k < 64,
    ensures
        bit_of(w & !(1u64 << j), k) == (k != j && bit_of(w, k)),
{
    assert(((w & !(1u64 << j)) >> k) & 1u64 == 1u64 <==> (k != j && (w >> k) & 1u64 == 1u64))
        by (bit_vector)
        requires
            j < 64,
            k < 64,
    ;
}

pub proof fn lemma_bit_of_zero(k: u64)
    requires
        k < 64,
    ensures
        !bit_of(0u64, k),
{
    assert((0u64 >> k) & 1u64 != 1u64) by (bit_vector);
}

pub proof fn lemma_bit_of_not(w: u64, k: u64)
    requires
        k < 64,
    ensures
        bit_of(!w, k) == !bit_of(w, k),
{
    assert(((!w) >> k) & 1u64 == 1u64 <==> !((w >> k) & 1u64 == 1u64)) by (bit_vector)
        requires
            k < 64,
    ;
}

pub proof fn lemma_bit_of_all_ones(k: u64)
    requires
        k < 64,
    ensures
        bit_of(0xFFFF_FFFF_FFFF_FFFFu64, k),
{
    assert((0xFFFF_FFFF_FFFF_FFFFu64 >> k) & 1u64 == 1u64) by (bit_vector)
        requires
            k < 64,
    ;
}

/// A word with the bits below `n` set and the others clear.
pub proof fn lemma_bit_of_low_mask(n: u64, k: u64)
    requires
        n < 64,
        k < 64,
    ensures
        bit_of(((1u64 << n) - 1) as u64, k) == (k < n),
{
    assert(((((1u64 << n) - 1) as u64) >> k) & 1u64 == 1u64 <==> k < n) by (bit_vector)
        requires
            n < 64,
            k < 64,
    ;
}

/// A nonzero word has a lowest set bit, at its count of trailing zeros.
pub proof fn lemma_lowest_bit(w: u64)
    requires
        w != 0,
    ensures
        is_lowest_bit(w, u64_trailing_zeros(w) as u64),
{
    let t = u64_trailing_zeros(w) as u64;
    assert(t < 64);
    assert forall|m: u64| m < t implies !bit_of(w, m) by {
        assert((w >> m) & 1u64 == 0u64);
    }
}

/// A word is zero exactly when none of its bits is set.
pub proof fn lemma_zero_iff_no_bit(w: u64)
    ensures
        (w == 0) <==> (forall|k: u64| k < 64 ==> !#[trigger] bit_of(w, k)),
{
    if w == 0 {
        assert forall|k: u64| k < 64 implies !#[trigger] bit_of(w, k) by {
            lemma_bit_of_zero(k);
        }
    } else {
        lemma_lowest_bit(w);
    }
}

/// A word is all ones exactly when each of its bits is set.
pub proof fn lemma_full_iff_all_bits(w: u64)
    ensures
        (w == 0xFFFF_FFFF_FFFF_FFFFu64) <==> (forall|k: u64| k < 64 ==> #[trigger] bit_of(w, k)),
{
    if w == 0xFFFF_FFFF_FFFF_FFFFu64 {
        assert forall|k: u64| k < 64 implies #[trigger] bit_of(w, k) by {
            lemma_bit_of_all_ones(k);
        }
    } else {
        assert(!w != 0u64) by (bit_vector)
            requires
                w != 0xFFFF_FFFF_FFFF_FFFFu64,
        ;
        lemma_lowest_bit(!w);
        let t = u64_trailing_zeros(!w) as u64;
        lemma_bit_of_not(w, t);
    }
}

/// Bit scan forward: the index of the lowest set bit of a nonzero word.
pub fn bsf(input: u64) -> (pos: u32)
    requires
        input != 0,
    ensures
        is_lowest_bit(input, pos as u64),
{
    proof {
        lemma_lowest_bit(input);
    }
    input.trailing_zeros()
}

/// The index of the lowest set bit, found by shifting one bit at a time;
/// zero when no bit is set.
pub fn find_first_one(input: u64) -> (pos: u32)
    ensures
        input != 0 ==> is_lowest_bit(input, pos as u64),
        input == 0 ==> pos == 0,
{
    let mut temp = input;
    let mut i: u32 = 0;
    assert(input >> 0u64 == input) by (bit_vector);
    while i < 64
        invariant
            i <= 64,
            temp == input >> (i as u64),
            forall|m: u64| m < i ==> !bit_of(input, m),
        decreases 64 - i,
    {
        if temp & 1 == 1 {
            proof {
                if input == 0 {
                    lemma_bit_of_zero(i as u64);
                }
            }
            return i;
        }
        assert((input >> (i as u64)) >> 1u64 == input >> ((i + 1) as u64)) by (bit_vector)
            requires
                i < 64,
        ;
        temp >>= 1;
        i += 1;
    }
    proof {
        lemma_zero_iff_no_bit(input);
    }
    0
}

/// The number of trailing zero bits: the index of the lowest set bit, or 64
/// for a zero word.
pub fn trailing_zeros(input: u64) -> (r: u32)
    ensures
        input != 0 ==> is_lowest_bit(input, r as u64),
        input == 0 ==> r == 64,
{
    proof {
        if input != 0 {
            lemma_lowest_bit(input);
        }
    }
    input.trailing_zeros()
}

} // verus!
