use bitpage::{BitPageVec, BitPageVecKind, BooleanOp, BooleanOpError};

fn bitmap(bits: &[(usize, usize)], bound: (usize, usize)) -> BitPageVec {
    let mut b = BitPageVec::all_zeros(bound);
    for &(p, x) in bits {
        b.set_bit(p, x);
    }
    b
}

#[test]
fn empty_operands_are_rejected() {
    assert_eq!(BooleanOp::new_and_op(vec![]).unwrap_err(), BooleanOpError::EmptyAnd);
    assert_eq!(BooleanOp::new_or_op(vec![]).unwrap_err(), BooleanOpError::EmptyOr);
}

#[test]
fn single_operand_simplifies() {
    let a = bitmap(&[(0, 1)], (1, 0));
    let op = BooleanOp::new_and_op(vec![BooleanOp::new_leaf_op(&a)]).unwrap();
    assert!(matches!(op, BooleanOp::BorrowedLeaf(_)));
    let op = BooleanOp::new_or_op(vec![BooleanOp::new_owned_leaf_op(bitmap(&[], (1, 0)))]).unwrap();
    assert!(matches!(op, BooleanOp::OwnedLeaf(_)));
}

#[test]
fn evaluate_and_or_not() {
    let a = bitmap(&[(0, 1), (0, 2), (1, 5)], (2, 0));
    let b = bitmap(&[(0, 2), (1, 5), (1, 6)], (2, 0));
    let c = bitmap(&[(0, 2)], (2, 0));
    let and = BooleanOp::new_and_op(vec![
        BooleanOp::new_leaf_op(&a),
        BooleanOp::new_leaf_op(&b),
        BooleanOp::new_leaf_op(&c),
    ])
    .unwrap();
    let r = and.evaluate().into_bit_page_vec();
    assert_eq!(r.active_bits(), vec![(0, 2)]);

    let or = BooleanOp::new_or_op(vec![BooleanOp::new_leaf_op(&a), BooleanOp::new_owned_leaf_op(bitmap(&[(1, 9)], (2, 0)))])
        .unwrap();
    let r = or.evaluate();
    assert_eq!(r.len, 2);
    let r = r.into_bit_page_vec();
    assert_eq!(r.active_bits(), vec![(0, 1), (0, 2), (1, 5), (1, 9)]);

    let not = BooleanOp::new_not_op(BooleanOp::new_leaf_op(&c));
    let r = not.evaluate().into_bit_page_vec();
    assert_eq!(*r.kind(), BitPageVecKind::SparseWithOnesHole);
    assert_eq!(r.active_bits_count(), 127);
}

#[test]
fn and_with_an_operand_without_pages_is_empty() {
    let a = bitmap(&[(0, 1)], (2, 0));
    let empty = BitPageVec::all_zeros((2, 0));
    let and = BooleanOp::new_and_op(vec![BooleanOp::new_leaf_op(&a), BooleanOp::new_leaf_op(&empty)]).unwrap();
    let r = and.evaluate();
    assert_eq!(r.len, 0);
    let r = r.into_bit_page_vec();
    assert_eq!(*r.kind(), BitPageVecKind::AllZeroes);
    assert_eq!(r.last_bit_index(), (2, 0));
}

#[test]
fn nested_expression() {
    let a = bitmap(&[(0, 1), (0, 3)], (1, 0));
    let b = bitmap(&[(0, 3)], (1, 0));
    let inner = BooleanOp::new_not_op(BooleanOp::new_leaf_op(&b));
    let expr = BooleanOp::new_and_op(vec![BooleanOp::new_leaf_op(&a), inner]).unwrap();
    let r = expr.evaluate().into_bit_page_vec();
    assert_eq!(r.active_bits(), vec![(0, 1)]);
}
