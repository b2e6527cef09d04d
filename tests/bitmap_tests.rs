use bitpage::{BitPageVec, BitPageVecKind, BitPageWithPosition};

fn entries(b: &BitPageVec) -> Vec<(usize, u64)> {
    b.pages.iter().map(|p| (p.page_idx, p.bit_page)).collect()
}

#[test]
fn test_bit_page_active_bits() {
    let last_page = 0;
    let last_bit = 1;
    let mut bit_page_vec = BitPageVec::all_zeros((last_page, last_bit));

    for page in 0..2 {
        for bit in 0..4 {
            bit_page_vec.set_bit(page, bit);
        }
    }

    println!("Vector = {:?}", bit_page_vec);
    println!("Active Bits Count = {}", bit_page_vec.active_bits_count());
    println!("Active Bits = {:?}", bit_page_vec.active_bits());
    assert_eq!(bit_page_vec.active_bits_count(), 1);
    assert_eq!(bit_page_vec.active_bits(), vec![(0, 0)]);
}

#[test]
fn empty_bitmap_scenario() {
    let b = BitPageVec::all_zeros((0, 10));
    assert_eq!(b.active_bits_count(), 0);
    assert!(!b.is_bit_set(0, 3));
    let mut buf = Vec::new();
    b.encode(&mut buf);
    assert_eq!(buf, vec![0x00]);
}

#[test]
fn set_three_bits_scenario() {
    let mut b = BitPageVec::all_zeros((2, 0));
    b.set_bit(0, 0);
    b.set_bit(0, 3);
    b.set_bit(1, 7);
    assert_eq!(*b.kind(), BitPageVecKind::SparseWithZeroesHole);
    assert_eq!(entries(&b), vec![(0, 0x09), (1, 0x80)]);
    assert_eq!(b.active_bits_count(), 3);
    assert_eq!(b.active_bits(), vec![(0, 0), (0, 3), (1, 7)]);
    assert_eq!(b.size(), 2);
}

#[test]
fn clear_collapses_to_all_zeros() {
    let mut b = BitPageVec::all_zeros((4, 0));
    b.set_bit(3, 9);
    b.clear_bit(3, 9);
    assert_eq!(*b.kind(), BitPageVecKind::AllZeroes);
    assert_eq!(b.size(), 0);
    b.clear_bit(1, 1);
    assert_eq!(*b.kind(), BitPageVecKind::AllZeroes);
}

#[test]
fn clear_on_all_ones_and_set_back() {
    let mut b = BitPageVec::all_ones((3, 0));
    b.clear_bit(2, 5);
    assert_eq!(*b.kind(), BitPageVecKind::SparseWithOnesHole);
    assert_eq!(entries(&b), vec![(2, !(1u64 << 5))]);
    assert!(!b.is_bit_set(2, 5));
    assert!(b.is_bit_set(2, 4));
    assert!(b.is_bit_set(7, 0));
    assert_eq!(b.active_bits_count(), 191);
    b.clear_bit(0, 0);
    assert_eq!(entries(&b), vec![(0, !1u64), (2, !(1u64 << 5))]);
    b.set_bit(2, 5);
    assert_eq!(entries(&b), vec![(0, !1u64)]);
    b.set_bit(0, 0);
    assert_eq!(*b.kind(), BitPageVecKind::AllOnes);
    assert_eq!(b.size(), 0);
}

#[test]
fn clearing_every_bit_of_a_one_hole_page_keeps_a_zero_page() {
    let mut b = BitPageVec::all_ones((2, 0));
    for bit in 0..64 {
        b.clear_bit(1, bit);
    }
    assert_eq!(*b.kind(), BitPageVecKind::SparseWithOnesHole);
    assert_eq!(entries(&b), vec![(1, 0)]);
    assert_eq!(b.active_bits_count(), 64);
}

#[test]
fn set_and_clear_round_trips() {
    let mut b = BitPageVec::all_zeros((5, 0));
    b.set_bit(2, 1);
    b.set_bit(4, 60);
    let mut c = BitPageVec::all_zeros((5, 0));
    c.set_bit(2, 1);
    c.set_bit(4, 60);
    c.clear_bit(3, 3);
    c.set_bit(3, 3);
    b.set_bit(3, 3);
    assert_eq!(entries(&b), entries(&c));
    b.set_bit(3, 3);
    assert_eq!(entries(&b), entries(&c));
    b.clear_bit(3, 3);
    b.clear_bit(3, 3);
    assert_eq!(entries(&b), vec![(2, 2), (4, 1u64 << 60)]);
}

#[test]
fn popcount_respects_the_universe() {
    let mut b = BitPageVec::all_zeros((1, 5));
    b.set_bit(0, 63);
    b.set_bit(1, 4);
    b.set_bit(1, 5);
    b.set_bit(9, 0);
    assert_eq!(b.active_bits_count(), 2);
    assert_eq!(b.active_bits(), vec![(0, 63), (1, 4)]);
    assert_eq!(BitPageVec::all_ones((1, 5)).active_bits_count(), 69);
    assert_eq!(BitPageVec::all_ones((0, 64)).active_bits_count(), 64);
    assert_eq!(BitPageVec::all_ones((0, 3)).active_bits(), vec![(0, 0), (0, 1), (0, 2)]);
}

#[test]
fn new_keeps_its_parts() {
    let pages = vec![BitPageWithPosition { page_idx: 4, bit_page: 0xF0 }];
    let b = BitPageVec::new(BitPageVecKind::SparseWithZeroesHole, Some(pages), (10, 0));
    assert_eq!(b.last_bit_index(), (10, 0));
    assert!(b.is_bit_set(4, 4));
    assert!(!b.is_bit_set(4, 3));
    let e = BitPageVec::new(BitPageVecKind::AllOnes, None, (1, 1));
    assert_eq!(e.size(), 0);
}
