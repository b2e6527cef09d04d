//! A page: one 64-bit word, bit `b` being the mask `1 << b`.
use vstd::prelude::*;

verus! {

/// The word with every bit set.
pub const ALL_ONES: u64 = 0xffff_ffff_ffff_ffff;

/// The mask of bit `b`.
pub open spec fn bit_mask(b: u64) -> u64 {
    1u64 << b
}

/// Whether bit `b` of `w` is set.
pub open spec fn bit_at(w: u64, b: u64) -> bool {
    w & bit_mask(b) != 0
}

/// The ascending positions below `n` of the set bits of `w`.
pub open spec fn set_positions(w: u64, n: nat) -> Seq<usize>
    decreases n,
{
    if n == 0 {
        Seq::empty()
    } else if bit_at(w, (n - 1) as u64) {
        set_positions(w, (n - 1) as nat).push((n - 1) as usize)
    } else {
        set_positions(w, (n - 1) as nat)
    }
}

/// The number of set bits of `w`.
pub open spec fn popcount(w: u64) -> nat {
    set_positions(w, 64).len()
}

/// The word whose bits below `n` are set and the others clear.
pub open spec fn low_mask(n: u64) -> u64 {
    if n >= 64 {
        ALL_ONES
    } else {
        ((1u64 << n) - 1) as u64
    }
}

/// A page together with its index in a bitmap.
#[derive(Clone, Copy, Debug, PartialEq, Eq)]
pub struct BitPageWithPosition {
    pub page_idx: usize,
    pub bit_page: u64,
}

/// Operations on a page word.
pub struct BitPage;

/// The number of set bits of `w`, one bit at a time.
fn word_count_ones(w: u64) -> (r: u32)
    ensures
        r as nat == popcount(w),
{
    let mut count: u32 = 0;
    let mut b: u64 = 0;
    while b < 64
        invariant
            b <= 64,
            count as nat == set_positions(w, b as nat).len(),
            count <= b,
        decreases 64 - b,
    {
        if w & (1u64 << b) != 0 {
            count = count + 1;
        }
        b = b + 1;
    }
    count
}

impl BitPage {
    pub const MIN_VALUE: u64 = 0;

    pub const MAX_VALUE: u64 = 0xffff_ffff_ffff_ffff;

    pub const MAX_BITS: usize = 64;

    pub const NUM_BYTES: usize = 8;

    pub fn zeroes() -> (r: u64)
        ensures
            r == 0,
    {
        Self::MIN_VALUE
    }

    pub fn ones() -> (r: u64)
        ensures
            r == ALL_ONES,
    {
        Self::MAX_VALUE
    }

    pub fn clear_bit(value: &mut u64, bit_idx: usize)
        requires
            bit_idx < 64,
        ensures
            *final(value) == *old(value) & !bit_mask(bit_idx as u64),
    {
        *value = *value & !get_mask(bit_idx);
    }

    pub fn set_bit(value: &mut u64, bit_idx: usize)
        requires
            bit_idx < 64,
        ensures
            *final(value) == *old(value) | bit_mask(bit_idx as u64),
    {
        *value = *value | get_mask(bit_idx);
    }

    pub fn is_bit_set(value: &u64, bit_idx: usize) -> (r: bool)
        requires
            bit_idx < 64,
        ensures
            r == bit_at(*value, bit_idx as u64),
    {
        let value_mask = get_mask(bit_idx);
        *value & value_mask != 0
    }

    pub fn count_ones(value: &u64) -> (r: u32)
        ensures
            r as nat == popcount(*value),
    {
        word_count_ones(*value)
    }

    pub fn is_zeroes(value: &u64) -> (r: bool)
        ensures
            r == (*value == 0),
    {
        *value == Self::MIN_VALUE
    }

    pub fn is_ones(value: &u64) -> (r: bool)
        ensures
            r == (*value == ALL_ONES),
    {
        *value == Self::MAX_VALUE
    }

    /// Complements the word.
    pub fn not(value: &mut u64)
        ensures
            *final(value) == !*old(value),
    {
        *value = !*value;
    }

    /// Intersects the word with `second`.
    pub fn and(value: &mut u64, second: &u64)
        ensures
            *final(value) == *old(value) & *second,
    {
        *value = *value & *second;
    }

    /// Unites the word with `second`.
    pub fn or(value: &mut u64, second: &u64)
        ensures
            *final(value) == *old(value) | *second,
    {
        *value = *value | *second;
    }

    pub fn is_all_zeros(value: &u64) -> (r: bool)
        ensures
            r == (*value == 0),
    {
        Self::is_zeroes(value)
    }

    pub fn is_all_ones(value: &u64) -> (r: bool)
        ensures
            r == (*value == ALL_ONES),
    {
        Self::is_ones(value)
    }
}

fn get_mask(bit_idx: usize) -> (r: u64)
    requires
        bit_idx < 64,
    ensures
        r == bit_mask(bit_idx as u64),
{
    1u64 << (bit_idx as u64)
}

/// The word with the bits below `n` set, for `n` up to 64.
pub fn prefix_mask(n: usize) -> (r: u64)
    requires
        n <= 64,
    ensures
        r == low_mask(n as u64),
{
    if n >= 64 {
        ALL_ONES
    } else {
        let s = n as u64;
        assert((1u64 << s) >= 1u64) by (bit_vector)
            requires
                s < 64,
        ;
        (1u64 << s) - 1
    }
}

/// For each `i` below 64, the word with the bits below `i` set.
pub fn zero_masks() -> (r: Vec<u64>)
    ensures
        r@.len() == 64,
        forall|i: int| 0 <= i < 64 ==> r@[i] == low_mask(i as u64),
{
    let mut masks: Vec<u64> = Vec::new();
    let mut mask: u64 = 0;
    let mut index: usize = 0;
    assert(((1u64 << 0u64) - 1) as u64 == 0u64) by (bit_vector);
    while index < 64
        invariant
            index <= 64,
            masks@.len() == index,
            mask == low_mask(index as u64),
            forall|i: int| 0 <= i < index ==> masks@[i] == low_mask(i as u64),
        decreases 64 - index,
    {
        masks.push(mask);
        let old_mask = mask;
        BitPage::set_bit(&mut mask, index);
        let s = index as u64;
        assert((((1u64 << s) - 1) as u64 | (1u64 << s)) == low_mask((s + 1) as u64)) by (bit_vector)
            requires
                s < 64,
        ;
        index = index + 1;
    }
    masks
}

} // verus!
