use bitpage::{BitPage, BitPageVec, BitPageVecKind, DbBitPageVec, DecodeError};

fn encoded(b: &BitPageVec) -> Vec<u8> {
    let mut buf = Vec::new();
    b.encode(&mut buf);
    buf
}

#[test]
fn encode_one_sparse_page() {
    let mut b = BitPageVec::all_zeros((100, 0));
    for bit in 0..64 {
        if (0xDEADBEEFu64 >> bit) & 1 == 1 {
            b.set_bit(42, bit);
        }
    }
    let buf = encoded(&b);
    let mut expected = vec![0x01];
    expected.extend_from_slice(&1u64.to_be_bytes());
    expected.extend_from_slice(&42u64.to_be_bytes());
    expected.push(0x02);
    expected.extend_from_slice(&0xDEADBEEFu64.to_be_bytes());
    assert_eq!(buf, expected);
    let d = BitPageVec::decode(&buf, (100, 0)).unwrap();
    assert_eq!(*d.kind(), BitPageVecKind::SparseWithZeroesHole);
    assert_eq!(d.pages, b.pages);
    assert_eq!(d.active_bits(), b.active_bits());
}

#[test]
fn round_trip_of_every_encoding() {
    let mut oh = BitPageVec::all_ones((3, 7));
    oh.clear_bit(1, 0);
    for bit in 0..64 {
        oh.clear_bit(2, bit);
    }
    let buf = encoded(&oh);
    assert_eq!(buf[0], 3);
    let d = BitPageVec::decode(&buf, (3, 7)).unwrap();
    assert_eq!(*d.kind(), BitPageVecKind::SparseWithOnesHole);
    assert_eq!(d.pages, oh.pages);
    assert_eq!(encoded(&BitPageVec::all_ones((0, 1))), vec![2]);
    let ones = BitPageVec::decode(&[2], (0, 1)).unwrap();
    assert_eq!(*ones.kind(), BitPageVecKind::AllOnes);
    let zeros = BitPageVec::decode(&[0, 9, 9], (5, 0)).unwrap();
    assert_eq!(*zeros.kind(), BitPageVecKind::AllZeroes);
    assert_eq!(zeros.last_bit_index(), (5, 0));
}

#[test]
fn decode_errors() {
    assert_eq!(BitPageVec::decode(&[], (1, 0)).unwrap_err(), DecodeError::Truncated);
    assert_eq!(BitPageVec::decode(&[7], (1, 0)).unwrap_err(), DecodeError::UnknownTag(7));
    assert_eq!(BitPageVec::decode(&[1, 0, 0], (1, 0)).unwrap_err(), DecodeError::Truncated);
    let mut buf = vec![1];
    buf.extend_from_slice(&2u64.to_be_bytes());
    buf.extend_from_slice(&5u64.to_be_bytes());
    buf.push(1);
    assert_eq!(BitPageVec::decode(&buf, (9, 0)).unwrap_err(), DecodeError::Truncated);
    buf.extend_from_slice(&3u64.to_be_bytes());
    buf.push(9);
    assert_eq!(BitPageVec::decode(&buf, (9, 0)).unwrap_err(), DecodeError::UnknownPageTag(9));
    buf.pop();
    buf.push(0);
    assert_eq!(BitPageVec::decode(&buf, (9, 0)).unwrap_err(), DecodeError::Unsorted);
}

#[test]
fn decoded_pages_are_compacted() {
    let mut buf = vec![1];
    buf.extend_from_slice(&2u64.to_be_bytes());
    buf.extend_from_slice(&1u64.to_be_bytes());
    buf.push(0);
    buf.extend_from_slice(&4u64.to_be_bytes());
    buf.push(1);
    let d = BitPageVec::decode(&buf, (9, 0)).unwrap();
    assert_eq!(d.size(), 1);
    assert_eq!(d.active_bits_count(), 64);
    let mut only_zero = vec![1];
    only_zero.extend_from_slice(&1u64.to_be_bytes());
    only_zero.extend_from_slice(&3u64.to_be_bytes());
    only_zero.push(0);
    let z = BitPageVec::decode(&only_zero, (9, 0)).unwrap();
    assert_eq!(*z.kind(), BitPageVecKind::AllZeroes);
}

#[test]
fn page_codec() {
    let mut buf = Vec::new();
    BitPage::encode(0, &mut buf);
    BitPage::encode(u64::MAX, &mut buf);
    BitPage::encode(0x0102030405060708, &mut buf);
    assert_eq!(buf, vec![0, 1, 2, 1, 2, 3, 4, 5, 6, 7, 8]);
    assert_eq!(BitPage::decode(&buf, 0).unwrap(), (0, 1));
    assert_eq!(BitPage::decode(&buf, 1).unwrap(), (u64::MAX, 2));
    assert_eq!(BitPage::decode(&buf, 2).unwrap(), (0x0102030405060708, 11));
    assert_eq!(BitPage::decode(&buf, 11).unwrap_err(), DecodeError::Truncated);
    assert_eq!(BitPage::decode(&buf[..5], 2).unwrap_err(), DecodeError::Truncated);
    assert_eq!(BitPage::decode(&[5], 0).unwrap_err(), DecodeError::UnknownPageTag(5));
}

#[test]
fn stored_bitmap_codec() {
    let mut db = DbBitPageVec::all_zeros();
    db.set_bit(3, 1);
    db.set_bit(0, 63);
    let mut buf = Vec::new();
    db.encode(&mut buf);
    let mut expected = vec![1];
    expected.extend_from_slice(&2u64.to_be_bytes());
    expected.extend_from_slice(&0u64.to_be_bytes());
    expected.push(2);
    expected.extend_from_slice(&(1u64 << 63).to_be_bytes());
    expected.extend_from_slice(&3u64.to_be_bytes());
    expected.push(2);
    expected.extend_from_slice(&2u64.to_be_bytes());
    assert_eq!(buf, expected);
    let back = DbBitPageVec::decode(&buf).unwrap();
    assert!(back.is_bit_set(3, 1));
    assert!(back.is_bit_set(0, 63));
    assert!(!back.is_bit_set(0, 62));
    assert_eq!(DbBitPageVec::decode(&[2]).unwrap_err(), DecodeError::UnknownTag(2));
    assert_eq!(DbBitPageVec::decode(&[4]).unwrap_err(), DecodeError::UnknownTag(4));
    assert!(matches!(DbBitPageVec::decode(&[0]).unwrap(), DbBitPageVec::AllZeroes));
    let mut empty = Vec::new();
    DbBitPageVec::all_zeros().encode(&mut empty);
    assert_eq!(empty, vec![0]);
}

#[test]
fn stored_bitmap_mutation() {
    let mut db = DbBitPageVec::all_zeros();
    assert!(db.get_bit_page_in_binary_format(0).is_none());
    db.set_bit(2, 0);
    db.set_bit(2, 3);
    assert_eq!(db.get_bit_page_in_binary_format(2).unwrap(), "1001");
    assert!(db.get_bit_page_in_binary_format(1).is_none());
    db.clear_bit(2, 3);
    assert_eq!(db.get_bit_page_in_binary_format(2).unwrap(), "1");
    db.clear_bit(2, 0);
    assert!(matches!(db, DbBitPageVec::AllZeroes));
    assert!(!db.is_bit_set(2, 0));
}

#[test]
fn stored_bitmap_default_is_empty() {
    let db = DbBitPageVec::default();
    assert!(matches!(db, DbBitPageVec::AllZeroes));
    assert!(!db.is_bit_set(0, 0));
}

#[test]
fn cloned_bitmap_is_independent() {
    let mut a = BitPageVec::all_zeros((2, 0));
    a.set_bit(1, 1);
    let b = a.clone();
    a.clear_bit(1, 1);
    assert!(b.is_bit_set(1, 1));
    assert!(!a.is_bit_set(1, 1));
}
