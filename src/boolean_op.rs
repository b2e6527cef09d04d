//! The query planner: an expression tree of AND, OR and NOT over bitmaps, evaluated into
//! page streams.
use vstd::prelude::*;

use crate::bitmap::{background, min_bound, BitPageVec, BitPageVecKind};
use crate::compactor::compaction_of;
use crate::pages::{is_canonical, word_in};
use crate::page::{bit_at, bit_mask};
use crate::stream::{min_last_bit_index, BitPageVecIter};

verus! {

/// A boolean expression over bitmaps.
#[derive(Debug)]
pub enum BooleanOp<'a> {
    And(Vec<BooleanOp<'a>>),
    Or(Vec<BooleanOp<'a>>),
    Not(Box<BooleanOp<'a>>),
    BorrowedLeaf(&'a BitPageVec),
    OwnedLeaf(BitPageVec),
}

/// Why an expression cannot be built.
#[derive(Clone, Copy, Debug, PartialEq, Eq, Structural)]
pub enum BooleanOpError {
    /// An AND needs at least one operand.
    EmptyAnd,
    /// An OR needs at least one operand.
    EmptyOr,
}

/// An evaluated expression: its stream, and its explicit page count as an estimate of its
/// size.
#[derive(Debug)]
pub struct BooleanOpResult {
    pub len: usize,
    pub iter: BitPageVecIter,
}

/// Every leaf is a valid bitmap and every AND and OR has an operand.
pub open spec fn op_wf(op: BooleanOp<'_>) -> bool
    decreases op, 0nat,
{
    match op {
        BooleanOp::And(cs) => cs@.len() > 0 && all_wf(cs@, cs@.len()),
        BooleanOp::Or(cs) => cs@.len() > 0 && all_wf(cs@, cs@.len()),
        BooleanOp::Not(c) => op_wf(*c),
        BooleanOp::BorrowedLeaf(b) => b.wf(),
        BooleanOp::OwnedLeaf(b) => b.wf(),
    }
}

pub open spec fn all_wf(cs: Seq<BooleanOp<'_>>, n: nat) -> bool
    decreases cs, n,
{
    if n == 0 || n > cs.len() {
        true
    } else {
        all_wf(cs, (n - 1) as nat) && op_wf(cs[n - 1])
    }
}

/// The explicit page count that evaluation reports: a leaf's page count, the least over
/// AND operands, the greatest over OR operands.
pub open spec fn op_len(op: BooleanOp<'_>) -> nat
    decreases op, 0nat,
{
    match op {
        BooleanOp::And(cs) => min_len(cs@, cs@.len()),
        BooleanOp::Or(cs) => max_len(cs@, cs@.len()),
        BooleanOp::Not(c) => op_len(*c),
        BooleanOp::BorrowedLeaf(b) => b.pages@.len(),
        BooleanOp::OwnedLeaf(b) => b.pages@.len(),
    }
}

pub open spec fn min_len(cs: Seq<BooleanOp<'_>>, n: nat) -> nat
    decreases cs, n,
{
    if n == 0 || n > cs.len() {
        usize::MAX as nat
    } else {
        let a = min_len(cs, (n - 1) as nat);
        let b = op_len(cs[n - 1]);
        if b < a {
            b
        } else {
            a
        }
    }
}

pub open spec fn max_len(cs: Seq<BooleanOp<'_>>, n: nat) -> nat
    decreases cs, n,
{
    if n == 0 || n > cs.len() {
        0
    } else {
        let a = max_len(cs, (n - 1) as nat);
        let b = op_len(cs[n - 1]);
        if b > a {
            b
        } else {
            a
        }
    }
}

/// The universe bound of an evaluated expression: the least over its leaves.
pub open spec fn eval_bound(op: BooleanOp<'_>) -> (usize, usize)
    decreases op, 0nat,
{
    match op {
        BooleanOp::And(cs) => min_bounds(cs@, cs@.len()),
        BooleanOp::Or(cs) => min_bounds(cs@, cs@.len()),
        BooleanOp::Not(c) => eval_bound(*c),
        BooleanOp::BorrowedLeaf(b) => b.last_bit_index,
        BooleanOp::OwnedLeaf(b) => b.last_bit_index,
    }
}

pub open spec fn min_bounds(cs: Seq<BooleanOp<'_>>, n: nat) -> (usize, usize)
    decreases cs, n,
{
    if n <= 1 || n > cs.len() {
        if cs.len() > 0 {
            eval_bound(cs[0])
        } else {
            (0, 0)
        }
    } else {
        min_bound(min_bounds(cs, (n - 1) as nat), eval_bound(cs[n - 1]))
    }
}

/// Whether bit `b` of page `p` is set in the value of an expression. An AND with an operand
/// that reports no explicit pages is empty.
pub open spec fn eval_bit(op: BooleanOp<'_>, p: int, b: u64) -> bool
    decreases op, 0nat,
{
    match op {
        BooleanOp::And(cs) => min_len(cs@, cs@.len()) != 0 && all_bits(cs@, cs@.len(), p, b),
        BooleanOp::Or(cs) => any_bits(cs@, cs@.len(), p, b),
        BooleanOp::Not(c) => !eval_bit(*c, p, b),
        BooleanOp::BorrowedLeaf(x) => bit_at(x.page_word(p), b),
        BooleanOp::OwnedLeaf(x) => bit_at(x.page_word(p), b),
    }
}

pub open spec fn all_bits(cs: Seq<BooleanOp<'_>>, n: nat, p: int, b: u64) -> bool
    decreases cs, n,
{
    if n == 0 || n > cs.len() {
        true
    } else {
        all_bits(cs, (n - 1) as nat, p, b) && eval_bit(cs[n - 1], p, b)
    }
}

pub open spec fn any_bits(cs: Seq<BooleanOp<'_>>, n: nat, p: int, b: u64) -> bool
    decreases cs, n,
{
    if n == 0 || n > cs.len() {
        false
    } else {
        any_bits(cs, (n - 1) as nat, p, b) || eval_bit(cs[n - 1], p, b)
    }
}

/// `r` is what evaluating `op` gives.
pub open spec fn result_of(op: BooleanOp<'_>, r: BooleanOpResult) -> bool {
    &&& r.iter.wf()
    &&& r.len == op_len(op)
    &&& r.iter.last_bit_index == eval_bound(op)
    &&& forall|p: int, b: u64|
        #![trigger bit_at(r.iter.page_word(p), b)]
        #![trigger eval_bit(op, p, b)]
        b < 64 ==> (bit_at(r.iter.page_word(p), b) <==> eval_bit(op, p, b))
}

pub proof fn lemma_all_wf(cs: Seq<BooleanOp<'_>>, n: nat)
    requires
        n <= cs.len(),
        all_wf(cs, n),
    ensures
        forall|k: int| 0 <= k < n ==> op_wf(#[trigger] cs[k]),
    decreases n,
{
    if n > 0 {
        lemma_all_wf(cs, (n - 1) as nat);
    }
}

pub proof fn lemma_all_bits(cs: Seq<BooleanOp<'_>>, n: nat, p: int, b: u64)
    requires
        n <= cs.len(),
    ensures
        all_bits(cs, n, p, b) <==> forall|k: int| 0 <= k < n ==> eval_bit(#[trigger] cs[k], p, b),
    decreases n,
{
    if n > 0 {
        lemma_all_bits(cs, (n - 1) as nat, p, b);
    }
}

/// The number of `true` entries.
pub open spec fn count_true(s: Seq<bool>) -> nat
    decreases s.len(),
{
    if s.len() == 0 {
        0
    } else {
        count_true(s.drop_last()) + if s.last() {
            1nat
        } else {
            0nat
        }
    }
}

proof fn lemma_count_true(s: Seq<bool>)
    ensures
        count_true(s) <= s.len(),
        count_true(s) == s.len() ==> forall|k: int| 0 <= k < s.len() ==> #[trigger] s[k],
    decreases s.len(),
{
    if s.len() > 0 {
        lemma_count_true(s.drop_last());
        if count_true(s) == s.len() {
            assert forall|k: int| 0 <= k < s.len() implies #[trigger] s[k] by {
                if k < s.len() - 1 {
                    assert(s.drop_last()[k] == s[k]);
                }
            }
        }
    }
}

proof fn lemma_count_true_update(s: Seq<bool>, j: int)
    requires
        0 <= j < s.len(),
        !s[j],
    ensures
        count_true(s.update(j, true)) == count_true(s) + 1,
    decreases s.len(),
{
    let t = s.update(j, true);
    if j < s.len() - 1 {
        assert(t.drop_last() == s.drop_last().update(j, true));
        lemma_count_true_update(s.drop_last(), j);
    } else {
        assert(t.drop_last() == s.drop_last());
    }
}

impl BooleanOpResult {
    /// Drains the stream into a bitmap through the compactor.
    pub fn into_bit_page_vec(self) -> (r: BitPageVec)
        requires
            self.iter.wf(),
        ensures
            r.wf(),
            r.last_bit_index == self.iter.last_bit_index,
            forall|p: int| 0 <= p <= self.iter.last_bit_index.0 ==> r.page_word(p) == self.iter.page_word(p),
            is_canonical(self.iter.kept(), background(self.iter.kind)),
            forall|p: int| word_in(self.iter.kept(), background(self.iter.kind), p) == self.iter.page_word(p),
            compaction_of(r, background(self.iter.kind), self.iter.kept(), self.iter.last_bit_index),
    {
        self.iter.into_bit_page_vec()
    }

    fn not(self) -> (r: BooleanOpResult)
        requires
            self.iter.wf(),
        ensures
            r.iter.wf(),
            r.len == self.len,
            r.iter.last_bit_index == self.iter.last_bit_index,
            forall|p: int| r.iter.page_word(p) == !self.iter.page_word(p),
    {
        let iter = self.iter.not();
        BooleanOpResult { len: self.len, iter }
    }
}

/// Intersects evaluated operands: empty if one reports no pages, else folded from the operand
/// with the fewest pages upward.
fn and_merge_leaves<'a>(rs: Vec<BooleanOpResult>, cs: Ghost<Seq<BooleanOp<'a>>>) -> (r: BooleanOpResult)
    requires
        rs@.len() == cs@.len(),
        rs@.len() > 0,
        forall|k: int| 0 <= k < rs@.len() ==> result_of(#[trigger] cs@[k], rs@[k]),
    ensures
        r.iter.wf(),
        r.len == min_len(cs@, cs@.len()),
        r.iter.last_bit_index == min_bounds(cs@, cs@.len()),
        forall|p: int, b: u64|
            #![trigger bit_at(r.iter.page_word(p), b)]
            b < 64 ==> (bit_at(r.iter.page_word(p), b) <==> (min_len(cs@, cs@.len()) != 0 && all_bits(
                cs@,
                cs@.len(),
                p,
                b,
            ))),
{
    let n = rs.len();
    let ghost cs = cs@;
    let mut len: usize = usize::MAX;
    assert(result_of(cs[0], rs@[0]));
    let mut bound = rs[0].iter.last_bit_index;
    let mut i: usize = 0;
    while i < n
        invariant
            n == rs@.len(),
            n == cs.len(),
            i <= n,
            forall|k: int| 0 <= k < rs@.len() ==> result_of(#[trigger] cs[k], rs@[k]),
            len == min_len(cs, i as nat),
            bound == min_bounds(cs, if i == 0 { 1nat } else { i as nat }),
            bound.1 <= 64,
        decreases n - i,
    {
        if rs[i].len < len {
            len = rs[i].len;
        }
        if i > 0 {
            assert(result_of(cs[i as int], rs@[i as int]));
            bound = min_last_bit_index(bound, rs[i].iter.last_bit_index);
        }
        i = i + 1;
    }
    if len == 0 {
        proof {
            assert forall|b: u64| b < 64 implies !#[trigger] bit_at(0u64, b) by {
                assert(0u64 & bit_mask(b) == 0) by (bit_vector);
            }
        }
        return BooleanOpResult { len, iter: BitPageVecIter::new(BitPageVecKind::AllZeroes, Vec::new(), bound) };
    }
    let mut used: Vec<bool> = Vec::new();
    let mut k: usize = 0;
    while k < n
        invariant
            k <= n,
            used@.len() == k,
            forall|j: int| 0 <= j < k ==> !used@[j],
        decreases n - k,
    {
        used.push(false);
        k = k + 1;
    }
    proof {
        assert(count_true(used@) == 0) by {
            lemma_count_none(used@);
        }
    }
    let mut acc = BitPageVecIter::new(BitPageVecKind::AllOnes, Vec::new(), bound);
    proof {
        assert forall|b: u64| b < 64 implies #[trigger] bit_at(crate::page::ALL_ONES, b) by {
            assert(crate::page::ALL_ONES & bit_mask(b) != 0) by (bit_vector)
                requires
                    b < 64,
            ;
        }
    }
    let mut step: usize = 0;
    while step < n
        invariant
            n == rs@.len(),
            n == cs.len(),
            step <= n,
            used@.len() == n,
            count_true(used@) == step,
            forall|k: int| 0 <= k < rs@.len() ==> result_of(#[trigger] cs[k], rs@[k]),
            acc.wf(),
            bound.1 <= 64,
            forall|p: int, b: u64|
                #![trigger bit_at(acc.page_word(p), b)]
                b < 64 ==> (bit_at(acc.page_word(p), b) <==> forall|j: int|
                    0 <= j < n && used@[j] ==> bit_at(#[trigger] rs@[j].iter.page_word(p), b)),
        decreases n - step,
    {
        proof {
            lemma_count_true(used@);
        }
        let mut best: usize = n;
        let mut j: usize = 0;
        while j < n
            invariant
                n == rs@.len(),
                used@.len() == n,
                j <= n,
                best == n || (best < n && !used@[best as int]),
                best == n ==> forall|x: int| 0 <= x < j ==> used@[x],
            decreases n - j,
        {
            if !used[j] && (best == n || rs[j].len < rs[best].len) {
                best = j;
            }
            j = j + 1;
        }
        if best == n {
            proof {
                assert(forall|x: int| 0 <= x < n ==> used@[x]);
                lemma_count_all(used@);
            }
        } else {
            let ghost old_used = used@;
            let ghost old_acc = acc;
            assert(result_of(cs[best as int], rs@[best as int]));
            let next = rs[best].iter.duplicate();
            acc = BitPageVecIter::and(acc, next);
            used.set(best, true);
            proof {
                lemma_count_true_update(old_used, best as int);
                assert forall|p: int, b: u64| b < 64 implies (bit_at(acc.page_word(p), b) <==> forall|j: int|
                    0 <= j < n && used@[j] ==> bit_at(#[trigger] rs@[j].iter.page_word(p), b)) by {
                    let x = old_acc.page_word(p);
                    let y = rs@[best as int].iter.page_word(p);
                    assert(bit_at(x & y, b) == (bit_at(x, b) && bit_at(y, b))) by (bit_vector);
                    if forall|j: int| 0 <= j < n && used@[j] ==> bit_at(#[trigger] rs@[j].iter.page_word(p), b) {
                        assert forall|j: int| 0 <= j < n && old_used[j] implies bit_at(#[trigger] rs@[j].iter.page_word(p), b) by {
                            assert(used@[j]);
                        }
                    }
                }
            }
        }
        step = step + 1;
    }
    proof {
        lemma_count_true(used@);
        assert forall|p: int, b: u64| b < 64 implies (bit_at(acc.page_word(p), b) <==> (min_len(cs, cs.len()) != 0
            && all_bits(cs, cs.len(), p, b))) by {
            lemma_all_bits(cs, cs.len(), p, b);
            if forall|j: int| 0 <= j < n && used@[j] ==> bit_at(#[trigger] rs@[j].iter.page_word(p), b) {
                assert forall|k: int| 0 <= k < n implies eval_bit(#[trigger] cs[k], p, b) by {
                    assert(used@[k]);
                    assert(bit_at(rs@[k].iter.page_word(p), b));
                }
            }
            if all_bits(cs, cs.len(), p, b) {
                assert forall|j: int| 0 <= j < n && used@[j] implies bit_at(#[trigger] rs@[j].iter.page_word(p), b) by {
                    assert(eval_bit(cs[j], p, b));
                }
            }
        }
    }
    BooleanOpResult { len, iter: acc.with_bound(bound) }
}

proof fn lemma_count_none(s: Seq<bool>)
    requires
        forall|j: int| 0 <= j < s.len() ==> !s[j],
    ensures
        count_true(s) == 0,
    decreases s.len(),
{
    if s.len() > 0 {
        lemma_count_none(s.drop_last());
    }
}

proof fn lemma_count_all(s: Seq<bool>)
    requires
        forall|j: int| 0 <= j < s.len() ==> s[j],
    ensures
        count_true(s) == s.len(),
    decreases s.len(),
{
    if s.len() > 0 {
        lemma_count_all(s.drop_last());
    }
}

/// Unites evaluated operands, folded in order.
fn or_merge_leaves<'a>(rs: Vec<BooleanOpResult>, cs: Ghost<Seq<BooleanOp<'a>>>) -> (r: BooleanOpResult)
    requires
        rs@.len() == cs@.len(),
        rs@.len() > 0,
        forall|k: int| 0 <= k < rs@.len() ==> result_of(#[trigger] cs@[k], rs@[k]),
    ensures
        r.iter.wf(),
        r.len == max_len(cs@, cs@.len()),
        r.iter.last_bit_index == min_bounds(cs@, cs@.len()),
        forall|p: int, b: u64|
            #![trigger bit_at(r.iter.page_word(p), b)]
            b < 64 ==> (bit_at(r.iter.page_word(p), b) <==> any_bits(cs@, cs@.len(), p, b)),
{
    let n = rs.len();
    let ghost cs = cs@;
    assert(result_of(cs[0], rs@[0]));
    let mut len: usize = rs[0].len;
    let mut acc = rs[0].iter.duplicate();
    proof {
        assert(max_len(cs, 0) == 0);
        assert(max_len(cs, 1) == op_len(cs[0]));
        assert forall|p: int, b: u64| b < 64 implies (bit_at(acc.page_word(p), b) <==> any_bits(cs, 1, p, b)) by {
            assert(!any_bits(cs, 0, p, b));
            assert(any_bits(cs, 1, p, b) == eval_bit(cs[0], p, b));
        }
    }
    let mut i: usize = 1;
    while i < n
        invariant
            n == rs@.len(),
            n == cs.len(),
            1 <= i <= n,
            forall|k: int| 0 <= k < rs@.len() ==> result_of(#[trigger] cs[k], rs@[k]),
            len == max_len(cs, i as nat),
            acc.wf(),
            acc.last_bit_index == min_bounds(cs, i as nat),
            forall|p: int, b: u64|
                #![trigger bit_at(acc.page_word(p), b)]
                b < 64 ==> (bit_at(acc.page_word(p), b) <==> any_bits(cs, i as nat, p, b)),
        decreases n - i,
    {
        assert(result_of(cs[i as int], rs@[i as int]));
        if rs[i].len > len {
            len = rs[i].len;
        }
        let ghost old_acc = acc;
        let next = rs[i].iter.duplicate();
        acc = BitPageVecIter::or(acc, next);
        proof {
            assert forall|p: int, b: u64| b < 64 implies (bit_at(acc.page_word(p), b) <==> any_bits(cs, (i + 1) as nat, p, b)) by {
                let x = old_acc.page_word(p);
                let y = rs@[i as int].iter.page_word(p);
                assert(bit_at(x | y, b) == (bit_at(x, b) || bit_at(y, b))) by (bit_vector);
            }
        }
        i = i + 1;
    }
    BooleanOpResult { len, iter: acc }
}

impl<'a> BooleanOp<'a> {
    pub fn new_leaf_op(bit_page_vec: &'a BitPageVec) -> (r: BooleanOp<'a>)
        ensures
            r == BooleanOp::BorrowedLeaf(bit_page_vec),
    {
        BooleanOp::BorrowedLeaf(bit_page_vec)
    }

    pub fn new_owned_leaf_op(bit_page_vec: BitPageVec) -> (r: BooleanOp<'a>)
        ensures
            r == BooleanOp::OwnedLeaf(bit_page_vec),
    {
        BooleanOp::OwnedLeaf(bit_page_vec)
    }

    /// The AND of `ops`: the operand itself when there is one, an error when there is none.
    pub fn new_and_op(ops: Vec<BooleanOp<'a>>) -> (r: Result<BooleanOp<'a>, BooleanOpError>)
        ensures
            ops@.len() == 0 ==> r == Err::<BooleanOp<'a>, BooleanOpError>(BooleanOpError::EmptyAnd),
            ops@.len() == 1 ==> r == Ok::<BooleanOp<'a>, BooleanOpError>(ops@[0]),
            ops@.len() > 1 ==> r == Ok::<BooleanOp<'a>, BooleanOpError>(BooleanOp::And(ops)),
    {
        let mut ops = ops;
        if ops.len() == 0 {
            Err(BooleanOpError::EmptyAnd)
        } else if ops.len() == 1 {
            match ops.pop() {
                Some(op) => Ok(op),
                None => Err(BooleanOpError::EmptyAnd),
            }
        } else {
            Ok(BooleanOp::And(ops))
        }
    }

    /// The OR of `ops`: the operand itself when there is one, an error when there is none.
    pub fn new_or_op(ops: Vec<BooleanOp<'a>>) -> (r: Result<BooleanOp<'a>, BooleanOpError>)
        ensures
            ops@.len() == 0 ==> r == Err::<BooleanOp<'a>, BooleanOpError>(BooleanOpError::EmptyOr),
            ops@.len() == 1 ==> r == Ok::<BooleanOp<'a>, BooleanOpError>(ops@[0]),
            ops@.len() > 1 ==> r == Ok::<BooleanOp<'a>, BooleanOpError>(BooleanOp::Or(ops)),
    {
        let mut ops = ops;
        if ops.len() == 0 {
            Err(BooleanOpError::EmptyOr)
        } else if ops.len() == 1 {
            match ops.pop() {
                Some(op) => Ok(op),
                None => Err(BooleanOpError::EmptyOr),
            }
        } else {
            Ok(BooleanOp::Or(ops))
        }
    }

    pub fn new_not_op(op: BooleanOp<'a>) -> (r: BooleanOp<'a>)
        ensures
            r is Not,
            *r->Not_0 == op,
    {
        BooleanOp::Not(Box::new(op))
    }

    /// Evaluates the expression bottom-up into a stream.
    pub fn evaluate(self) -> (r: BooleanOpResult)
        requires
            op_wf(self),
        ensures
            result_of(self, r),
        decreases self,
    {
        let ghost whole = self;
        match self {
            BooleanOp::BorrowedLeaf(leaf) => BooleanOpResult { len: leaf.size(), iter: leaf.iter() },
            BooleanOp::OwnedLeaf(leaf) => {
                let len = leaf.size();
                BooleanOpResult { len, iter: leaf.into_iter() }
            },
            BooleanOp::Not(op) => {
                let r = (*op).evaluate();
                let ghost before = r;
                let r = r.not();
                proof {
                    assert forall|p: int, b: u64| b < 64 implies (bit_at(r.iter.page_word(p), b) <==> eval_bit(self, p, b)) by {
                        let x = before.iter.page_word(p);
                        assert(bit_at(!x, b) == !bit_at(x, b)) by (bit_vector)
                            requires
                                b < 64,
                        ;
                    }
                }
                r
            },
            BooleanOp::And(ops) => {
                let ghost cs = ops@;
                proof {
                    lemma_all_wf(cs, cs.len());
                }
                let n = ops.len();
                let mut ops = ops;
                let mut rs: Vec<BooleanOpResult> = Vec::new();
                let mut i: usize = 0;
                while i < n
                    invariant
                        n == cs.len(),
                        i <= n,
                        ops@ == cs.subrange(i as int, n as int),
                        rs@.len() == i,
                        forall|k: int| 0 <= k < n ==> op_wf(#[trigger] cs[k]),
                        forall|k: int| 0 <= k < i ==> result_of(#[trigger] cs[k], rs@[k]),
                        decreases_to!(whole => cs),
                        whole == self,
                    decreases n - i,
                {
                    let op = ops.remove(0);
                    proof {
                        assert(op == cs[i as int]);
                        assert(decreases_to!(cs => cs[i as int]));
                    }
                    let r = op.evaluate();
                    rs.push(r);
                    i = i + 1;
                }
                and_merge_leaves(rs, Ghost(cs))
            },
            BooleanOp::Or(ops) => {
                let ghost cs = ops@;
                proof {
                    lemma_all_wf(cs, cs.len());
                }
                let n = ops.len();
                let mut ops = ops;
                let mut rs: Vec<BooleanOpResult> = Vec::new();
                let mut i: usize = 0;
                while i < n
                    invariant
                        n == cs.len(),
                        i <= n,
                        ops@ == cs.subrange(i as int, n as int),
                        rs@.len() == i,
                        forall|k: int| 0 <= k < n ==> op_wf(#[trigger] cs[k]),
                        forall|k: int| 0 <= k < i ==> result_of(#[trigger] cs[k], rs@[k]),
                        decreases_to!(whole => cs),
                        whole == self,
                    decreases n - i,
                {
                    let op = ops.remove(0);
                    proof {
                        assert(op == cs[i as int]);
                        assert(decreases_to!(cs => cs[i as int]));
                    }
                    let r = op.evaluate();
                    rs.push(r);
                    i = i + 1;
                }
                or_merge_leaves(rs, Ghost(cs))
            },
        }
    }
}

} // verus!
