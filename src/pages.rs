//! Ordered lists of pages: lookup, ordered merge and their laws.
use vstd::prelude::*;

use crate::page::BitPageWithPosition;

use itertools::{EitherOrBoth, Itertools};

verus! {

/// Page indices strictly increase along the list.
pub open spec fn sorted_pages(s: Seq<BitPageWithPosition>) -> bool {
    forall|i: int, j: int| 0 <= i < j < s.len() ==> s[i].page_idx < s[j].page_idx
}

/// The list holds an entry for page `p`.
pub open spec fn has_page(s: Seq<BitPageWithPosition>, p: int) -> bool {
    exists|i: int| 0 <= i < s.len() && s[i].page_idx == p
}

/// The word of page `p`: the stored word if there is an entry, else the background `bg`.
pub open spec fn word_in(s: Seq<BitPageWithPosition>, bg: u64, p: int) -> u64 {
    if has_page(s, p) {
        s[choose|i: int| 0 <= i < s.len() && s[i].page_idx == p].bit_page
    } else {
        bg
    }
}

pub proof fn lemma_word_at(s: Seq<BitPageWithPosition>, bg: u64, i: int)
    requires
        sorted_pages(s),
        0 <= i < s.len(),
    ensures
        has_page(s, s[i].page_idx as int),
        word_in(s, bg, s[i].page_idx as int) == s[i].bit_page,
{
    assert(has_page(s, s[i].page_idx as int));
    let k = choose|k: int| 0 <= k < s.len() && s[k].page_idx == s[i].page_idx;
    if k < i {
        assert(s[k].page_idx < s[i].page_idx);
    } else if k > i {
        assert(s[i].page_idx < s[k].page_idx);
    }
}

/// The outcome of a binary search for a page index.
pub open spec fn search_result(s: Seq<BitPageWithPosition>, p: int, r: Result<usize, usize>) -> bool {
    match r {
        Ok(i) => i < s.len() && s[i as int].page_idx == p,
        Err(i) => i <= s.len() && (forall|k: int| 0 <= k < i ==> s[k].page_idx < p) && (forall|k: int|
            i <= k < s.len() ==> s[k].page_idx > p),
    }
}

/// Binary search of a sorted page list for `page_idx`: `Ok` with the entry's position,
/// or `Err` with the position at which an entry would be inserted.
pub fn find_page(pages: &Vec<BitPageWithPosition>, page_idx: usize) -> (r: Result<usize, usize>)
    requires
        sorted_pages(pages@),
    ensures
        search_result(pages@, page_idx as int, r),
        r is Ok <==> has_page(pages@, page_idx as int),
{
    let mut lo: usize = 0;
    let mut hi: usize = pages.len();
    while lo < hi
        invariant
            lo <= hi <= pages@.len(),
            sorted_pages(pages@),
            forall|k: int| 0 <= k < lo ==> pages@[k].page_idx < page_idx,
            forall|k: int| hi <= k < pages@.len() ==> pages@[k].page_idx > page_idx,
        decreases hi - lo,
    {
        let mid = lo + (hi - lo) / 2;
        let probe = pages[mid].page_idx;
        if probe == page_idx {
            return Ok(mid);
        } else if probe < page_idx {
            lo = mid + 1;
        } else {
            hi = mid;
        }
    }
    proof {
        if has_page(pages@, page_idx as int) {
            let k = choose|k: int| 0 <= k < pages@.len() && pages@[k].page_idx == page_idx;
            assert(k < lo || k >= hi);
        }
    }
    Err(lo)
}

/// One step of an ordered merge of two page lists.
#[derive(Clone, Copy, Debug)]
pub enum Joined {
    Left(BitPageWithPosition),
    Right(BitPageWithPosition),
    Both(BitPageWithPosition, BitPageWithPosition),
}

/// The page index that a merge step stands at.
pub open spec fn joined_idx(e: Joined) -> usize {
    match e {
        Joined::Left(x) => x.page_idx,
        Joined::Right(y) => y.page_idx,
        Joined::Both(x, _) => x.page_idx,
    }
}

/// The ordered merge of two lists by page index: an entry present on one side only is
/// emitted alone, entries with equal indices are emitted together.
pub open spec fn merge_join(a: Seq<BitPageWithPosition>, b: Seq<BitPageWithPosition>) -> Seq<Joined>
    decreases a.len() + b.len(),
{
    if a.len() == 0 {
        b.map_values(|y: BitPageWithPosition| Joined::Right(y))
    } else if b.len() == 0 {
        a.map_values(|x: BitPageWithPosition| Joined::Left(x))
    } else if a[0].page_idx < b[0].page_idx {
        seq![Joined::Left(a[0])] + merge_join(a.drop_first(), b)
    } else if a[0].page_idx > b[0].page_idx {
        seq![Joined::Right(b[0])] + merge_join(a, b.drop_first())
    } else {
        seq![Joined::Both(a[0], b[0])] + merge_join(a.drop_first(), b.drop_first())
    }
}

/// Orders two pages by their index.
pub fn merge_cmp(first: &BitPageWithPosition, second: &BitPageWithPosition) -> (r: std::cmp::Ordering)
    ensures
        (r == std::cmp::Ordering::Less) == (first.page_idx < second.page_idx),
        (r == std::cmp::Ordering::Equal) == (first.page_idx == second.page_idx),
        (r == std::cmp::Ordering::Greater) == (first.page_idx > second.page_idx),
{
    if first.page_idx < second.page_idx {
        std::cmp::Ordering::Less
    } else if first.page_idx == second.page_idx {
        std::cmp::Ordering::Equal
    } else {
        std::cmp::Ordering::Greater
    }
}

/// Relies on `Itertools::merge_join_by` with `merge_cmp`: it emits `Left` for the smaller
/// head of the first list, `Right` for the smaller head of the second, `Both` for equal heads,
/// and the rest of the longer list once the other is exhausted.
#[verifier::external_body]
pub(crate) fn merge_join_pages(a: &Vec<BitPageWithPosition>, b: &Vec<BitPageWithPosition>) -> (r: Vec<Joined>)
    ensures
        r@ == merge_join(a@, b@),
{
    a.iter().merge_join_by(b.iter(), |x, y| merge_cmp(x, y)).map(|e| match e {
        EitherOrBoth::Left(x) => Joined::Left(*x),
        EitherOrBoth::Right(y) => Joined::Right(*y),
        EitherOrBoth::Both(x, y) => Joined::Both(*x, *y),
    }).collect()
}

/// Some step of the merge stands at page `p`.
pub open spec fn has_joined(m: Seq<Joined>, p: usize) -> bool {
    exists|j: int| 0 <= j < m.len() && joined_idx(m[j]) == p
}

/// What a merge step says of the two lists.
pub open spec fn joined_from(e: Joined, a: Seq<BitPageWithPosition>, b: Seq<BitPageWithPosition>) -> bool {
    match e {
        Joined::Left(x) => a.contains(x) && !has_page(b, x.page_idx as int),
        Joined::Right(y) => b.contains(y) && !has_page(a, y.page_idx as int),
        Joined::Both(x, y) => a.contains(x) && b.contains(y) && x.page_idx == y.page_idx,
    }
}

#[verifier::rlimit(80)]
pub proof fn lemma_merge_join(a: Seq<BitPageWithPosition>, b: Seq<BitPageWithPosition>)
    requires
        sorted_pages(a),
        sorted_pages(b),
    ensures
        forall|i: int, j: int|
            0 <= i < j < merge_join(a, b).len() ==> joined_idx(merge_join(a, b)[i]) < joined_idx(
                merge_join(a, b)[j],
            ),
        forall|j: int|
            0 <= j < merge_join(a, b).len() ==> joined_from(#[trigger] merge_join(a, b)[j], a, b),
        forall|i: int| 0 <= i < a.len() ==> has_joined(merge_join(a, b), #[trigger] a[i].page_idx),
        forall|i: int| 0 <= i < b.len() ==> has_joined(merge_join(a, b), #[trigger] b[i].page_idx),
    decreases a.len() + b.len(),
{
    let m = merge_join(a, b);
    if a.len() == 0 {
        assert forall|j: int| 0 <= j < m.len() implies joined_from(#[trigger] m[j], a, b) by {
            assert(b.contains(b[j]));
        }
        assert forall|i: int| 0 <= i < b.len() implies has_joined(m, b[i].page_idx) by {
            assert(joined_idx(m[i]) == b[i].page_idx);
        }
    } else if b.len() == 0 {
        assert forall|j: int| 0 <= j < m.len() implies joined_from(#[trigger] m[j], a, b) by {
            assert(a.contains(a[j]));
        }
        assert forall|i: int| 0 <= i < a.len() implies has_joined(m, a[i].page_idx) by {
            assert(joined_idx(m[i]) == a[i].page_idx);
        }
    } else {
        let a1 = a.drop_first();
        let b1 = b.drop_first();
        if a[0].page_idx < b[0].page_idx {
            lemma_merge_join(a1, b);
            let r = merge_join(a1, b);
            assert(m == seq![Joined::Left(a[0])] + r);
            assert forall|j: int| 0 <= j < r.len() implies joined_idx(#[trigger] r[j]) > a[0].page_idx by {
                if r[j] is Left {
                    let x = r[j]->Left_0;
                    let k = choose|k: int| 0 <= k < a1.len() && a1[k] == x;
                    assert(a[k + 1] == x);
                } else if r[j] is Right {
                    let y = r[j]->Right_0;
                    let k = choose|k: int| 0 <= k < b.len() && b[k] == y;
                    assert(k == 0 || b[0].page_idx < b[k].page_idx);
                } else {
                    let x = r[j]->Both_0;
                    let k = choose|k: int| 0 <= k < a1.len() && a1[k] == x;
                    assert(a[k + 1] == x);
                }
            }
            assert forall|j: int| 0 <= j < m.len() implies joined_from(#[trigger] m[j], a, b) by {
                if j == 0 {
                    assert(a.contains(a[0]));
                    if has_page(b, a[0].page_idx as int) {
                        let k = choose|k: int| 0 <= k < b.len() && b[k].page_idx == a[0].page_idx;
                        assert(k == 0 || b[0].page_idx < b[k].page_idx);
                    }
                } else {
                    assert(m[j] == r[j - 1]);
                    assert(joined_from(r[j - 1], a1, b));
                    if m[j] is Left {
                        let x = m[j]->Left_0;
                        let k = choose|k: int| 0 <= k < a1.len() && a1[k] == x;
                        assert(a[k + 1] == x);
                    } else if m[j] is Right {
                        let y = m[j]->Right_0;
                        if has_page(a, y.page_idx as int) {
                            let k = choose|k: int| 0 <= k < a.len() && a[k].page_idx == y.page_idx;
                            if k == 0 {
                                assert(joined_idx(r[j - 1]) > a[0].page_idx);
                            } else {
                                assert(a1[k - 1].page_idx == y.page_idx);
                            }
                        }
                    } else {
                        let x = m[j]->Both_0;
                        let k = choose|k: int| 0 <= k < a1.len() && a1[k] == x;
                        assert(a[k + 1] == x);
                    }
                }
            }
            assert forall|i: int| 0 <= i < a.len() implies has_joined(m, a[i].page_idx) by {
                if i == 0 {
                    assert(joined_idx(m[0]) == a[0].page_idx);
                } else {
                    assert(a1[i - 1] == a[i]);
                    let j = choose|j: int| 0 <= j < r.len() && joined_idx(r[j]) == a1[i - 1].page_idx;
                    assert(m[j + 1] == r[j]);
                }
            }
            assert forall|i: int| 0 <= i < b.len() implies has_joined(m, b[i].page_idx) by {
                let j = choose|j: int| 0 <= j < r.len() && joined_idx(r[j]) == b[i].page_idx;
                assert(m[j + 1] == r[j]);
            }
        } else if a[0].page_idx > b[0].page_idx {
            lemma_merge_join(a, b1);
            let r = merge_join(a, b1);
            assert(m == seq![Joined::Right(b[0])] + r);
            assert forall|j: int| 0 <= j < r.len() implies joined_idx(#[trigger] r[j]) > b[0].page_idx by {
                if r[j] is Left {
                    let x = r[j]->Left_0;
                    let k = choose|k: int| 0 <= k < a.len() && a[k] == x;
                    assert(k == 0 || a[0].page_idx < a[k].page_idx);
                } else if r[j] is Right {
                    let y = r[j]->Right_0;
                    let k = choose|k: int| 0 <= k < b1.len() && b1[k] == y;
                    assert(b[k + 1] == y);
                } else {
                    let x = r[j]->Both_0;
                    let k = choose|k: int| 0 <= k < a.len() && a[k] == x;
                    assert(k == 0 || a[0].page_idx < a[k].page_idx);
                }
            }
            assert forall|j: int| 0 <= j < m.len() implies joined_from(#[trigger] m[j], a, b) by {
                if j == 0 {
                    assert(b.contains(b[0]));
                    if has_page(a, b[0].page_idx as int) {
                        let k = choose|k: int| 0 <= k < a.len() && a[k].page_idx == b[0].page_idx;
                        assert(k == 0 || a[0].page_idx < a[k].page_idx);
                    }
                } else {
                    assert(m[j] == r[j - 1]);
                    assert(joined_from(r[j - 1], a, b1));
                    if m[j] is Left {
                        let x = m[j]->Left_0;
                        if has_page(b, x.page_idx as int) {
                            let k = choose|k: int| 0 <= k < b.len() && b[k].page_idx == x.page_idx;
                            if k == 0 {
                                assert(joined_idx(r[j - 1]) > b[0].page_idx);
                            } else {
                                assert(b1[k - 1].page_idx == x.page_idx);
                            }
                        }
                    } else if m[j] is Right {
                        let y = m[j]->Right_0;
                        let k = choose|k: int| 0 <= k < b1.len() && b1[k] == y;
                        assert(b[k + 1] == y);
                    } else {
                        let y = m[j]->Both_1;
                        let k = choose|k: int| 0 <= k < b1.len() && b1[k] == y;
                        assert(b[k + 1] == y);
                    }
                }
            }
            assert forall|i: int| 0 <= i < b.len() implies has_joined(m, b[i].page_idx) by {
                if i == 0 {
                    assert(joined_idx(m[0]) == b[0].page_idx);
                } else {
                    assert(b1[i - 1] == b[i]);
                    let j = choose|j: int| 0 <= j < r.len() && joined_idx(r[j]) == b1[i - 1].page_idx;
                    assert(m[j + 1] == r[j]);
                }
            }
            assert forall|i: int| 0 <= i < a.len() implies has_joined(m, a[i].page_idx) by {
                let j = choose|j: int| 0 <= j < r.len() && joined_idx(r[j]) == a[i].page_idx;
                assert(m[j + 1] == r[j]);
            }
        } else {
            lemma_merge_join(a1, b1);
            let r = merge_join(a1, b1);
            assert(m == seq![Joined::Both(a[0], b[0])] + r);
            assert forall|j: int| 0 <= j < r.len() implies joined_idx(#[trigger] r[j]) > a[0].page_idx by {
                if r[j] is Left {
                    let x = r[j]->Left_0;
                    let k = choose|k: int| 0 <= k < a1.len() && a1[k] == x;
                    assert(a[k + 1] == x);
                } else if r[j] is Right {
                    let y = r[j]->Right_0;
                    let k = choose|k: int| 0 <= k < b1.len() && b1[k] == y;
                    assert(b[k + 1] == y);
                } else {
                    let x = r[j]->Both_0;
                    let k = choose|k: int| 0 <= k < a1.len() && a1[k] == x;
                    assert(a[k + 1] == x);
                }
            }
            assert forall|j: int| 0 <= j < m.len() implies joined_from(#[trigger] m[j], a, b) by {
                if j == 0 {
                    assert(a.contains(a[0]));
                    assert(b.contains(b[0]));
                } else {
                    assert(m[j] == r[j - 1]);
                    assert(joined_from(r[j - 1], a1, b1));
                    if m[j] is Left {
                        let x = m[j]->Left_0;
                        let k = choose|k: int| 0 <= k < a1.len() && a1[k] == x;
                        assert(a[k + 1] == x);
                        if has_page(b, x.page_idx as int) {
                            let k2 = choose|k2: int| 0 <= k2 < b.len() && b[k2].page_idx == x.page_idx;
                            if k2 == 0 {
                                assert(joined_idx(r[j - 1]) > a[0].page_idx);
                            } else {
                                assert(b1[k2 - 1].page_idx == x.page_idx);
                            }
                        }
                    } else if m[j] is Right {
                        let y = m[j]->Right_0;
                        let k = choose|k: int| 0 <= k < b1.len() && b1[k] == y;
                        assert(b[k + 1] == y);
                        if has_page(a, y.page_idx as int) {
                            let k2 = choose|k2: int| 0 <= k2 < a.len() && a[k2].page_idx == y.page_idx;
                            if k2 == 0 {
                                assert(joined_idx(r[j - 1]) > a[0].page_idx);
                            } else {
                                assert(a1[k2 - 1].page_idx == y.page_idx);
                            }
                        }
                    } else {
                        let x = m[j]->Both_0;
                        let y = m[j]->Both_1;
                        let k = choose|k: int| 0 <= k < a1.len() && a1[k] == x;
                        assert(a[k + 1] == x);
                        let k2 = choose|k2: int| 0 <= k2 < b1.len() && b1[k2] == y;
                        assert(b[k2 + 1] == y);
                    }
                }
            }
            assert forall|i: int| 0 <= i < a.len() implies has_joined(m, a[i].page_idx) by {
                if i == 0 {
                    assert(joined_idx(m[0]) == a[0].page_idx);
                } else {
                    assert(a1[i - 1] == a[i]);
                    let j = choose|j: int| 0 <= j < r.len() && joined_idx(r[j]) == a1[i - 1].page_idx;
                    assert(m[j + 1] == r[j]);
                }
            }
            assert forall|i: int| 0 <= i < b.len() implies has_joined(m, b[i].page_idx) by {
                if i == 0 {
                    assert(joined_idx(m[0]) == b[0].page_idx);
                } else {
                    assert(b1[i - 1] == b[i]);
                    let j = choose|j: int| 0 <= j < r.len() && joined_idx(r[j]) == b1[i - 1].page_idx;
                    assert(m[j + 1] == r[j]);
                }
            }
        }
        assert forall|i: int, j: int| 0 <= i < j < m.len() implies joined_idx(m[i]) < joined_idx(m[j]) by {
            if i > 0 {
                assert(m[i] == merge_join(a, b)[i]);
            }
        }
    }
}

/// A bitwise operation that combines two words.
#[derive(Clone, Copy, Debug, PartialEq, Eq, Structural)]
pub enum WordOp {
    And,
    Or,
}

pub open spec fn apply_op(op: WordOp, x: u64, y: u64) -> u64 {
    match op {
        WordOp::And => x & y,
        WordOp::Or => x | y,
    }
}

fn combine(op: WordOp, x: u64, y: u64) -> (r: u64)
    ensures
        r == apply_op(op, x, y),
{
    match op {
        WordOp::And => x & y,
        WordOp::Or => x | y,
    }
}

/// The word a merge step yields, a missing side reading as its background.
pub open spec fn joined_value(e: Joined, op: WordOp, bga: u64, bgb: u64) -> u64 {
    match e {
        Joined::Left(x) => apply_op(op, x.bit_page, bgb),
        Joined::Right(y) => apply_op(op, bga, y.bit_page),
        Joined::Both(x, y) => apply_op(op, x.bit_page, y.bit_page),
    }
}

proof fn lemma_contains_word(s: Seq<BitPageWithPosition>, bg: u64, x: BitPageWithPosition)
    requires
        sorted_pages(s),
        s.contains(x),
    ensures
        has_page(s, x.page_idx as int),
        word_in(s, bg, x.page_idx as int) == x.bit_page,
{
    let k = choose|k: int| 0 <= k < s.len() && s[k] == x;
    lemma_word_at(s, bg, k);
}

pub proof fn lemma_joined_value(
    e: Joined,
    a: Seq<BitPageWithPosition>,
    b: Seq<BitPageWithPosition>,
    op: WordOp,
    bga: u64,
    bgb: u64,
)
    requires
        sorted_pages(a),
        sorted_pages(b),
        joined_from(e, a, b),
    ensures
        has_page(a, joined_idx(e) as int) || has_page(b, joined_idx(e) as int),
        joined_value(e, op, bga, bgb) == apply_op(
            op,
            word_in(a, bga, joined_idx(e) as int),
            word_in(b, bgb, joined_idx(e) as int),
        ),
{
    match e {
        Joined::Left(x) => {
            lemma_contains_word(a, bga, x);
        },
        Joined::Right(y) => {
            lemma_contains_word(b, bgb, y);
        },
        Joined::Both(x, y) => {
            lemma_contains_word(a, bga, x);
            lemma_contains_word(b, bgb, y);
        },
    }
}

/// The word that combining two lists gives at page `p`: `op` of their words where either
/// list has an entry, else the background `bg`.
pub open spec fn merged_word(
    a: Seq<BitPageWithPosition>,
    bga: u64,
    b: Seq<BitPageWithPosition>,
    bgb: u64,
    op: WordOp,
    bg: u64,
    p: int,
) -> u64 {
    if has_page(a, p) || has_page(b, p) {
        apply_op(op, word_in(a, bga, p), word_in(b, bgb, p))
    } else {
        bg
    }
}

/// Combines two sorted page lists page by page with `op`, reading a missing entry as its
/// list's background, and keeps the pages that differ from the background `bg` of the result.
pub fn merge_pages(
    a: &Vec<BitPageWithPosition>,
    bga: u64,
    b: &Vec<BitPageWithPosition>,
    bgb: u64,
    op: WordOp,
    bg: u64,
) -> (r: Vec<BitPageWithPosition>)
    requires
        sorted_pages(a@),
        sorted_pages(b@),
    ensures
        sorted_pages(r@),
        forall|k: int| 0 <= k < r@.len() ==> (#[trigger] r@[k]).bit_page != bg,
        forall|p: int| word_in(r@, bg, p) == merged_word(a@, bga, b@, bgb, op, bg, p),
{
    let joined = merge_join_pages(a, b);
    proof {
        lemma_merge_join(a@, b@);
    }
    let ghost m = joined@;
    let ghost mut src: Seq<int> = Seq::empty();
    let mut out: Vec<BitPageWithPosition> = Vec::new();
    let mut i: usize = 0;
    while i < joined.len()
        invariant
            m == joined@,
            m == merge_join(a@, b@),
            sorted_pages(a@),
            sorted_pages(b@),
            i <= m.len(),
            forall|x: int, y: int| 0 <= x < y < m.len() ==> joined_idx(m[x]) < joined_idx(m[y]),
            forall|j: int| 0 <= j < m.len() ==> joined_from(#[trigger] m[j], a@, b@),
            sorted_pages(out@),
            src.len() == out@.len(),
            forall|k: int|
                0 <= k < out@.len() ==> 0 <= #[trigger] src[k] < i && joined_idx(m[src[k]])
                    == out@[k].page_idx && joined_value(m[src[k]], op, bga, bgb) == out@[k].bit_page,
            forall|k: int| 0 <= k < out@.len() ==> (#[trigger] out@[k]).bit_page != bg,
            forall|j: int|
                0 <= j < i && joined_value(#[trigger] m[j], op, bga, bgb) != bg ==> has_page(
                    out@,
                    joined_idx(m[j]) as int,
                ),
        decreases m.len() - i,
    {
        let e = joined[i];
        let (idx, value) = match e {
            Joined::Left(x) => (x.page_idx, combine(op, x.bit_page, bgb)),
            Joined::Right(y) => (y.page_idx, combine(op, bga, y.bit_page)),
            Joined::Both(x, y) => (x.page_idx, combine(op, x.bit_page, y.bit_page)),
        };
        if value != bg {
            proof {
                if out@.len() > 0 {
                    let last = out@.len() - 1;
                    assert(src[last] < i);
                }
            }
            let ghost old_out = out@;
            out.push(BitPageWithPosition { page_idx: idx, bit_page: value });
            proof {
                src = src.push(i as int);
                assert forall|j: int|
                    0 <= j < i + 1 && joined_value(#[trigger] m[j], op, bga, bgb) != bg implies has_page(
                    out@,
                    joined_idx(m[j]) as int,
                ) by {
                    if j < i {
                        let k = choose|k: int| 0 <= k < old_out.len() && old_out[k].page_idx == joined_idx(m[j]);
                        assert(out@[k] == old_out[k]);
                    } else {
                        assert(out@[out@.len() - 1].page_idx == joined_idx(m[j]));
                    }
                }
            }
        }
        i = i + 1;
    }
    proof {
        assert forall|p: int| word_in(out@, bg, p) == merged_word(a@, bga, b@, bgb, op, bg, p) by {
            if has_page(out@, p) {
                let k = choose|k: int| 0 <= k < out@.len() && out@[k].page_idx == p;
                lemma_word_at(out@, bg, k);
                lemma_joined_value(m[src[k]], a@, b@, op, bga, bgb);
            } else if has_page(a@, p) || has_page(b@, p) {
                if has_page(a@, p) {
                    let ia = choose|ia: int| 0 <= ia < a@.len() && a@[ia].page_idx == p;
                    assert(has_joined(m, a@[ia].page_idx));
                } else {
                    let ib = choose|ib: int| 0 <= ib < b@.len() && b@[ib].page_idx == p;
                    assert(has_joined(m, b@[ib].page_idx));
                }
                let j = choose|j: int| 0 <= j < m.len() && joined_idx(m[j]) == p;
                lemma_joined_value(m[j], a@, b@, op, bga, bgb);
            }
        }
    }
    out
}

/// Replacing the word of entry `i` changes the word of its page alone.
pub proof fn lemma_update_word(s: Seq<BitPageWithPosition>, bg: u64, i: int, w: u64)
    requires
        sorted_pages(s),
        0 <= i < s.len(),
    ensures
        sorted_pages(s.update(i, BitPageWithPosition { page_idx: s[i].page_idx, bit_page: w })),
        forall|q: int|
            word_in(s.update(i, BitPageWithPosition { page_idx: s[i].page_idx, bit_page: w }), bg, q)
                == if q == s[i].page_idx {
                w
            } else {
                word_in(s, bg, q)
            },
{
    let t = s.update(i, BitPageWithPosition { page_idx: s[i].page_idx, bit_page: w });
    assert forall|q: int| word_in(t, bg, q) == if q == s[i].page_idx { w } else { word_in(s, bg, q) } by {
        if q == s[i].page_idx {
            lemma_word_at(t, bg, i);
        } else if has_page(s, q) {
            let k = choose|k: int| 0 <= k < s.len() && s[k].page_idx == q;
            lemma_word_at(s, bg, k);
            lemma_word_at(t, bg, k);
        } else if has_page(t, q) {
            let k = choose|k: int| 0 <= k < t.len() && t[k].page_idx == q;
            assert(s[k].page_idx == q);
        }
    }
}

/// Inserting an entry at its sorted position sets the word of its page alone.
pub proof fn lemma_insert_word(s: Seq<BitPageWithPosition>, bg: u64, i: int, x: BitPageWithPosition)
    requires
        sorted_pages(s),
        0 <= i <= s.len(),
        forall|k: int| 0 <= k < i ==> s[k].page_idx < x.page_idx,
        forall|k: int| i <= k < s.len() ==> s[k].page_idx > x.page_idx,
    ensures
        sorted_pages(s.insert(i, x)),
        forall|q: int|
            word_in(s.insert(i, x), bg, q) == if q == x.page_idx {
                x.bit_page
            } else {
                word_in(s, bg, q)
            },
{
    let t = s.insert(i, x);
    assert forall|a: int, b: int| 0 <= a < b < t.len() implies t[a].page_idx < t[b].page_idx by {
        if a < i && b > i {
            assert(t[b] == s[b - 1]);
        } else if a == i {
            assert(t[b] == s[b - 1]);
        } else if b == i {
            assert(t[a] == s[a]);
        } else if a > i {
            assert(t[a] == s[a - 1]);
            assert(t[b] == s[b - 1]);
        }
    }
    assert forall|q: int| word_in(t, bg, q) == if q == x.page_idx { x.bit_page } else { word_in(s, bg, q) } by {
        if q == x.page_idx {
            lemma_word_at(t, bg, i);
        } else if has_page(s, q) {
            let k = choose|k: int| 0 <= k < s.len() && s[k].page_idx == q;
            lemma_word_at(s, bg, k);
            if k < i {
                lemma_word_at(t, bg, k);
            } else {
                assert(t[k + 1] == s[k]);
                lemma_word_at(t, bg, k + 1);
            }
        } else if has_page(t, q) {
            let k = choose|k: int| 0 <= k < t.len() && t[k].page_idx == q;
            if k < i {
                assert(s[k].page_idx == q);
            } else if k > i {
                assert(s[k - 1].page_idx == q);
            }
        }
    }
}

/// Removing entry `i` returns its page to the background.
pub proof fn lemma_remove_word(s: Seq<BitPageWithPosition>, bg: u64, i: int)
    requires
        sorted_pages(s),
        0 <= i < s.len(),
    ensures
        sorted_pages(s.remove(i)),
        forall|q: int|
            word_in(s.remove(i), bg, q) == if q == s[i].page_idx {
                bg
            } else {
                word_in(s, bg, q)
            },
{
    let t = s.remove(i);
    assert forall|a: int, b: int| 0 <= a < b < t.len() implies t[a].page_idx < t[b].page_idx by {
        if a < i && b >= i {
            assert(t[b] == s[b + 1]);
        } else if a >= i {
            assert(t[a] == s[a + 1]);
            assert(t[b] == s[b + 1]);
        }
    }
    assert forall|q: int| word_in(t, bg, q) == if q == s[i].page_idx { bg } else { word_in(s, bg, q) } by {
        if has_page(t, q) {
            let k = choose|k: int| 0 <= k < t.len() && t[k].page_idx == q;
            lemma_word_at(t, bg, k);
            if k < i {
                lemma_word_at(s, bg, k);
                assert(s[k].page_idx < s[i].page_idx);
            } else {
                assert(t[k] == s[k + 1]);
                lemma_word_at(s, bg, k + 1);
                assert(s[i].page_idx < s[k + 1].page_idx);
            }
        } else if q != s[i].page_idx && has_page(s, q) {
            let k = choose|k: int| 0 <= k < s.len() && s[k].page_idx == q;
            if k < i {
                assert(t[k] == s[k]);
            } else {
                assert(t[k - 1] == s[k]);
            }
        }
    }
}

/// A list in canonical form over background `bg`: sorted, with no entry equal to `bg`.
pub open spec fn is_canonical(s: Seq<BitPageWithPosition>, bg: u64) -> bool {
    &&& sorted_pages(s)
    &&& forall|k: int| 0 <= k < s.len() ==> (#[trigger] s[k]).bit_page != bg
}

/// Two canonical lists over the same background that read the same on every page are equal.
pub proof fn lemma_canonical_unique(s: Seq<BitPageWithPosition>, t: Seq<BitPageWithPosition>, bg: u64)
    requires
        is_canonical(s, bg),
        is_canonical(t, bg),
        forall|p: int| word_in(s, bg, p) == word_in(t, bg, p),
    ensures
        s == t,
    decreases s.len() + t.len(),
{
    if s.len() == 0 || t.len() == 0 {
        if s.len() > 0 {
            lemma_word_at(s, bg, 0);
            assert(word_in(t, bg, s[0].page_idx as int) == bg);
        } else if t.len() > 0 {
            lemma_word_at(t, bg, 0);
            assert(word_in(s, bg, t[0].page_idx as int) == bg);
        }
        assert(s =~= t);
    } else {
        lemma_word_at(s, bg, 0);
        lemma_word_at(t, bg, 0);
        let a = s[0].page_idx as int;
        let b = t[0].page_idx as int;
        if a < b {
            if has_page(t, a) {
                let k = choose|k: int| 0 <= k < t.len() && t[k].page_idx == a;
                assert(k == 0 || t[0].page_idx < t[k].page_idx);
            }
        } else if b < a {
            if has_page(s, b) {
                let k = choose|k: int| 0 <= k < s.len() && s[k].page_idx == b;
                assert(k == 0 || s[0].page_idx < s[k].page_idx);
            }
        }
        assert(a == b);
        assert(s[0] == t[0]);
        lemma_remove_word(s, bg, 0);
        lemma_remove_word(t, bg, 0);
        let s1 = s.remove(0);
        let t1 = t.remove(0);
        assert forall|k: int| 0 <= k < s1.len() implies (#[trigger] s1[k]).bit_page != bg by {
            assert(s1[k] == s[k + 1]);
        }
        assert forall|k: int| 0 <= k < t1.len() implies (#[trigger] t1[k]).bit_page != bg by {
            assert(t1[k] == t[k + 1]);
        }
        lemma_canonical_unique(s1, t1, bg);
        assert(s =~= seq![s[0]] + s1);
        assert(t =~= seq![t[0]] + t1);
    }
}

} // verus!
