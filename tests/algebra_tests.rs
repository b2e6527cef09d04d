use bitpage::{BitPageVec, BitPageVecIter, BitPageVecKind, BitPageWithPosition, DbBitPageVec};

fn bitmap(bits: &[(usize, usize)], bound: (usize, usize)) -> BitPageVec {
    let mut b = BitPageVec::all_zeros(bound);
    for &(p, x) in bits {
        b.set_bit(p, x);
    }
    b
}

fn bits_of(b: &BitPageVec) -> Vec<(usize, usize)> {
    b.active_bits()
}

#[test]
fn and_of_two_small_sets() {
    let mut a = bitmap(&[(0, 0), (0, 1)], (1, 0));
    let b = bitmap(&[(0, 1), (0, 2)], (1, 0));
    a.and(&b);
    assert_eq!(bits_of(&a), vec![(0, 1)]);
    assert_eq!(*a.kind(), BitPageVecKind::SparseWithZeroesHole);
}

#[test]
fn and_to_nothing_collapses() {
    let mut a = bitmap(&[(0, 0)], (2, 0));
    let b = bitmap(&[(1, 0)], (2, 0));
    a.and(&b);
    assert_eq!(*a.kind(), BitPageVecKind::AllZeroes);
    assert_eq!(a.active_bits_count(), 0);
}

#[test]
fn or_with_all_ones_is_all_ones() {
    let mut a = BitPageVec::all_ones((1, 0));
    let b = bitmap(&[(0, 5), (3, 1)], (4, 0));
    a.or(&b);
    assert_eq!(*a.kind(), BitPageVecKind::AllOnes);
    assert_eq!(a.last_bit_index(), (1, 0));
    assert_eq!(a.active_bits_count(), 64);
}

#[test]
fn not_of_all_zeros_counts_universe() {
    let mut a = BitPageVec::all_zeros((1, 5));
    a.not();
    assert_eq!(*a.kind(), BitPageVecKind::AllOnes);
    assert_eq!(a.active_bits_count(), 69);
}

#[test]
fn not_flips_holes() {
    let mut a = bitmap(&[(1, 2)], (3, 0));
    a.not();
    assert_eq!(*a.kind(), BitPageVecKind::SparseWithOnesHole);
    assert_eq!(a.active_bits_count(), 191);
    assert!(!a.is_bit_set(1, 2));
    assert!(a.is_bit_set(0, 0));
    a.not();
    assert_eq!(bits_of(&a), vec![(1, 2)]);
    assert_eq!(*a.kind(), BitPageVecKind::SparseWithZeroesHole);
}

#[test]
fn de_morgan_on_values() {
    let b1 = bitmap(&[(0, 1), (1, 3), (2, 9)], (3, 0));
    let b2 = bitmap(&[(1, 3), (2, 8)], (3, 0));
    let mut left = bitmap(&[(0, 1), (1, 3), (2, 9)], (3, 0));
    left.and(&b2);
    left.not();
    let mut n1 = bitmap(&[(0, 1), (1, 3), (2, 9)], (3, 0));
    n1.not();
    let mut n2 = bitmap(&[(1, 3), (2, 8)], (3, 0));
    n2.not();
    n1.or(&n2);
    assert_eq!(bits_of(&left), bits_of(&n1));
    assert_eq!(left.active_bits_count(), 191);
    assert_eq!(b1.active_bits_count(), 3);
}

#[test]
fn commutative_and_associative_on_values() {
    let x = bitmap(&[(0, 1), (1, 3)], (2, 0));
    let y = bitmap(&[(1, 3), (1, 4)], (2, 0));
    let z = bitmap(&[(0, 1), (1, 4), (1, 3)], (2, 0));
    let mut xy = bitmap(&[(0, 1), (1, 3)], (2, 0));
    xy.or(&y);
    let mut yx = bitmap(&[(1, 3), (1, 4)], (2, 0));
    yx.or(&x);
    assert_eq!(bits_of(&xy), bits_of(&yx));
    assert_eq!(bits_of(&xy), vec![(0, 1), (1, 3), (1, 4)]);
    let mut xy_z = bitmap(&[(0, 1), (1, 3)], (2, 0));
    xy_z.and(&y);
    xy_z.and(&z);
    let mut yz = bitmap(&[(1, 3), (1, 4)], (2, 0));
    yz.and(&z);
    let mut x_yz = bitmap(&[(0, 1), (1, 3)], (2, 0));
    x_yz.and(&yz);
    assert_eq!(bits_of(&xy_z), bits_of(&x_yz));
    assert_eq!(bits_of(&xy_z), vec![(1, 3)]);
}

#[test]
fn binary_ops_keep_the_smaller_universe() {
    let mut a = bitmap(&[(0, 1)], (5, 0));
    let b = bitmap(&[(0, 2)], (2, 7));
    a.or(&b);
    assert_eq!(a.last_bit_index(), (2, 7));
    assert_eq!(bits_of(&a), vec![(0, 1), (0, 2)]);
}

#[test]
fn cross_hole_merges() {
    let zh = bitmap(&[(0, 0), (1, 1)], (2, 0));
    let mut oh = BitPageVec::all_ones((2, 0));
    oh.clear_bit(1, 1);
    let mut and = bitmap(&[(0, 0), (1, 1)], (2, 0));
    and.and(&oh);
    assert_eq!(bits_of(&and), vec![(0, 0)]);
    let mut or = BitPageVec::all_ones((2, 0));
    or.clear_bit(1, 1);
    or.clear_bit(0, 7);
    or.or(&zh);
    assert_eq!(*or.kind(), BitPageVecKind::SparseWithOnesHole);
    assert_eq!(or.active_bits_count(), 127);
    assert!(!or.is_bit_set(0, 7));
}

#[test]
fn stream_operations() {
    let a = bitmap(&[(0, 1), (2, 3)], (3, 0));
    let b = bitmap(&[(2, 3), (2, 4)], (3, 0));
    let s = BitPageVecIter::and(a.iter(), b.iter());
    assert_eq!(*s.kind(), BitPageVecKind::SparseWithZeroesHole);
    let r = s.into_bit_page_vec();
    assert_eq!(bits_of(&r), vec![(2, 3)]);
    let n = a.iter().not();
    assert_eq!(*n.kind(), BitPageVecKind::SparseWithOnesHole);
    let u = BitPageVecIter::or(n, b.into_iter()).into_bit_page_vec();
    assert_eq!(u.active_bits_count(), 192 - 1);
    assert!(!u.is_bit_set(0, 1));
}

#[test]
fn stream_new_filters_background_pages() {
    let pages = vec![
        BitPageWithPosition { page_idx: 1, bit_page: 0 },
        BitPageWithPosition { page_idx: 2, bit_page: 6 },
    ];
    let r = BitPageVecIter::new(BitPageVecKind::SparseWithZeroesHole, pages, (4, 0)).into_bit_page_vec();
    assert_eq!(r.size(), 1);
    assert_eq!(bits_of(&r), vec![(2, 1), (2, 2)]);
    let empty = BitPageVecIter::new(BitPageVecKind::SparseWithOnesHole, vec![], (1, 0)).into_bit_page_vec();
    assert_eq!(*empty.kind(), BitPageVecKind::AllOnes);
}

#[test]
fn dense_full_zero_hole_list_becomes_one_hole() {
    let n = 10_001usize;
    let mut pages = Vec::new();
    for i in 0..n {
        let word = if i == 7 { !0b1u64 } else { u64::MAX };
        pages.push(BitPageWithPosition { page_idx: i, bit_page: word });
    }
    let r = BitPageVecIter::new(BitPageVecKind::SparseWithZeroesHole, pages, (n, 0)).into_bit_page_vec();
    assert_eq!(*r.kind(), BitPageVecKind::SparseWithOnesHole);
    assert!(!r.is_bit_set(7, 0));
    assert!(r.is_bit_set(7, 1));
    assert!(!r.is_bit_set(n, 0));
    assert_eq!(r.active_bits_count(), n * 64 - 1);
}

#[test]
fn sparse_long_list_stays_zero_hole() {
    let n = 10_001usize;
    let mut pages = Vec::new();
    for i in 0..n {
        pages.push(BitPageWithPosition { page_idx: i, bit_page: 1 });
    }
    let r = BitPageVecIter::new(BitPageVecKind::SparseWithZeroesHole, pages, (n, 0)).into_bit_page_vec();
    assert_eq!(*r.kind(), BitPageVecKind::SparseWithZeroesHole);
    assert_eq!(r.size(), n);
}

#[test]
fn add_unites_a_stored_bitmap() {
    let a = bitmap(&[(0, 1)], (3, 0));
    let mut db = DbBitPageVec::all_zeros();
    db.set_bit(2, 5);
    let r = a.add(db);
    assert_eq!(bits_of(&r), vec![(0, 1), (2, 5)]);
    let mut db2 = DbBitPageVec::all_zeros();
    db2.set_bit(1, 1);
    let s = bitmap(&[(0, 0)], (3, 0)).iter().add(db2).into_bit_page_vec();
    assert_eq!(bits_of(&s), vec![(0, 0), (1, 1)]);
}

#[test]
fn dense_empty_one_hole_list_becomes_zero_hole() {
    let n = 10_001usize;
    let mut pages = Vec::new();
    for i in 0..n {
        pages.push(BitPageWithPosition { page_idx: i, bit_page: if i == 3 { 0b100 } else { 0 } });
    }
    let r = BitPageVecIter::new(BitPageVecKind::SparseWithOnesHole, pages, (n, 0)).into_bit_page_vec();
    assert_eq!(*r.kind(), BitPageVecKind::SparseWithZeroesHole);
    assert_eq!(r.active_bits_count(), 1);
    assert_eq!(r.active_bits(), vec![(3, 2)]);
    assert!(!r.is_bit_set(5, 0));
}

#[test]
fn stream_result_tags_follow_the_table() {
    let zh = bitmap(&[(0, 1)], (2, 0));
    let mut oh = BitPageVec::all_ones((2, 0));
    oh.clear_bit(1, 1);
    let zeros = BitPageVec::all_zeros((2, 0));
    let ones = BitPageVec::all_ones((2, 0));
    assert_eq!(*BitPageVecIter::and(zeros.iter(), oh.iter()).kind(), BitPageVecKind::AllZeroes);
    assert_eq!(*BitPageVecIter::and(ones.iter(), oh.iter()).kind(), BitPageVecKind::SparseWithOnesHole);
    assert_eq!(*BitPageVecIter::and(zh.iter(), oh.iter()).kind(), BitPageVecKind::SparseWithZeroesHole);
    assert_eq!(*BitPageVecIter::and(oh.iter(), oh.iter()).kind(), BitPageVecKind::SparseWithOnesHole);
    assert_eq!(*BitPageVecIter::or(zeros.iter(), zh.iter()).kind(), BitPageVecKind::SparseWithZeroesHole);
    assert_eq!(*BitPageVecIter::or(zh.iter(), ones.iter()).kind(), BitPageVecKind::AllOnes);
    assert_eq!(*BitPageVecIter::or(zh.iter(), oh.iter()).kind(), BitPageVecKind::SparseWithOnesHole);
    assert_eq!(*BitPageVecIter::or(zh.iter(), zh.iter()).kind(), BitPageVecKind::SparseWithZeroesHole);
    let n = oh.iter().not();
    assert_eq!(*n.kind(), BitPageVecKind::SparseWithZeroesHole);
    assert_eq!(n.pages, vec![BitPageWithPosition { page_idx: 1, bit_page: 1u64 << 1 }]);
    assert_eq!(*zeros.iter().not().kind(), BitPageVecKind::AllOnes);
}

#[test]
fn same_result_in_both_orders() {
    let x = bitmap(&[(0, 1), (3, 2)], (4, 0));
    let mut y = BitPageVec::all_ones((3, 9));
    y.clear_bit(0, 1);
    let mut xy = x.clone();
    xy.or(&y);
    let mut yx = y.clone();
    yx.or(&x);
    assert_eq!(xy.kind(), yx.kind());
    assert_eq!(xy.pages, yx.pages);
    assert_eq!(xy.last_bit_index(), yx.last_bit_index());
    let mut xy = x.clone();
    xy.and(&y);
    let mut yx = y.clone();
    yx.and(&x);
    assert_eq!(xy.kind(), yx.kind());
    assert_eq!(xy.pages, yx.pages);
}

#[test]
fn validity_check() {
    let b = bitmap(&[(1, 1)], (2, 0));
    assert!(b.is_valid());
    let bad = BitPageVec::new(
        BitPageVecKind::SparseWithZeroesHole,
        Some(vec![BitPageWithPosition { page_idx: 1, bit_page: 0 }]),
        (2, 0),
    );
    assert!(!bad.is_valid());
    let unsorted = BitPageVec::new(
        BitPageVecKind::SparseWithOnesHole,
        Some(vec![
            BitPageWithPosition { page_idx: 2, bit_page: 0 },
            BitPageWithPosition { page_idx: 1, bit_page: 0 },
        ]),
        (2, 0),
    );
    assert!(!unsorted.is_valid());
    assert!(!BitPageVec::new(BitPageVecKind::AllOnes, None, (0, 65)).is_valid());
    let mut db = DbBitPageVec::all_zeros();
    assert!(db.is_valid());
    db.set_bit(4, 4);
    assert!(db.is_valid());
    assert!(!DbBitPageVec::Sparse(vec![]).is_valid());
}

#[test]
fn setting_or_clearing_twice_changes_nothing() {
    let mut b = BitPageVec::all_ones((3, 0));
    b.clear_bit(1, 7);
    let once = b.clone();
    b.clear_bit(1, 7);
    assert_eq!(b.pages, once.pages);
    b.set_bit(2, 2);
    let once = b.clone();
    b.set_bit(2, 2);
    assert_eq!(b.pages, once.pages);
    assert_eq!(b.kind(), once.kind());
}
