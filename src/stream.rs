//! Page streams: a background encoding with an ordered page list, and the boolean algebra
//! over them. A stream's pages are held as a list in index order; intermediate results skip
//! the compactor, and a bitmap is produced once, at the end, through it.
use vstd::prelude::*;

use crate::bitmap::{
    and_model, background, background_word, min_bound, not_model, or_model, BitPageVec, BitPageVecKind,
};
use crate::compactor::{
    compacted_word, compaction_of, compact_sparse_with_ones_hole, compact_sparse_with_zeroes_hole, drop_background,
    drop_background_pages, policy_background,
};
use crate::page::{BitPageWithPosition, ALL_ONES};
use crate::pages::{
    apply_op, has_page, is_canonical, lemma_word_at, merge_pages, sorted_pages, word_in, WordOp,
};

verus! {

/// A page stream: pages in ascending index order over the background of `kind`.
#[derive(Debug)]
pub struct BitPageVecIter {
    pub kind: BitPageVecKind,
    pub pages: Vec<BitPageWithPosition>,
    pub last_bit_index: (usize, usize),
}

/// The lesser of two universe bounds.
pub fn min_last_bit_index(first: (usize, usize), second: (usize, usize)) -> (r: (usize, usize))
    ensures
        r == min_bound(first, second),
{
    if first.0 < second.0 || (first.0 == second.0 && first.1 <= second.1) {
        first
    } else {
        second
    }
}

/// The encoding of an intersection: zeros absorb, ones are neutral, and a zero background
/// on either side gives a zero background.
pub open spec fn and_kind(a: BitPageVecKind, b: BitPageVecKind) -> BitPageVecKind {
    if a == BitPageVecKind::AllZeroes || b == BitPageVecKind::AllZeroes {
        BitPageVecKind::AllZeroes
    } else if a == BitPageVecKind::AllOnes {
        b
    } else if b == BitPageVecKind::AllOnes {
        a
    } else if a == BitPageVecKind::SparseWithOnesHole && b == BitPageVecKind::SparseWithOnesHole {
        BitPageVecKind::SparseWithOnesHole
    } else {
        BitPageVecKind::SparseWithZeroesHole
    }
}

/// The encoding of a union: ones absorb, zeros are neutral, and a one background on either
/// side gives a one background.
pub open spec fn or_kind(a: BitPageVecKind, b: BitPageVecKind) -> BitPageVecKind {
    if a == BitPageVecKind::AllOnes || b == BitPageVecKind::AllOnes {
        BitPageVecKind::AllOnes
    } else if a == BitPageVecKind::AllZeroes {
        b
    } else if b == BitPageVecKind::AllZeroes {
        a
    } else if a == BitPageVecKind::SparseWithZeroesHole && b == BitPageVecKind::SparseWithZeroesHole {
        BitPageVecKind::SparseWithZeroesHole
    } else {
        BitPageVecKind::SparseWithOnesHole
    }
}

/// The encoding of the result of `op`.
pub open spec fn op_kind(op: WordOp, a: BitPageVecKind, b: BitPageVecKind) -> BitPageVecKind {
    match op {
        WordOp::And => and_kind(a, b),
        WordOp::Or => or_kind(a, b),
    }
}

/// The encoding of a complement: the background flips.
pub open spec fn not_kind(a: BitPageVecKind) -> BitPageVecKind {
    match a {
        BitPageVecKind::AllZeroes => BitPageVecKind::AllOnes,
        BitPageVecKind::AllOnes => BitPageVecKind::AllZeroes,
        BitPageVecKind::SparseWithZeroesHole => BitPageVecKind::SparseWithOnesHole,
        BitPageVecKind::SparseWithOnesHole => BitPageVecKind::SparseWithZeroesHole,
    }
}

proof fn lemma_word_constants()
    ensures
        0u64 & 0u64 == 0u64,
        0u64 & ALL_ONES == 0u64,
        ALL_ONES & 0u64 == 0u64,
        ALL_ONES & ALL_ONES == ALL_ONES,
        0u64 | 0u64 == 0u64,
        0u64 | ALL_ONES == ALL_ONES,
        ALL_ONES | 0u64 == ALL_ONES,
        ALL_ONES | ALL_ONES == ALL_ONES,
        forall|x: u64| #[trigger] (x & 0u64) == 0u64,
        forall|x: u64| #[trigger] (0u64 & x) == 0u64,
        forall|x: u64| #[trigger] (x & ALL_ONES) == x,
        forall|x: u64| #[trigger] (ALL_ONES & x) == x,
        forall|x: u64| #[trigger] (x | 0u64) == x,
        forall|x: u64| #[trigger] (0u64 | x) == x,
        forall|x: u64| #[trigger] (x | ALL_ONES) == ALL_ONES,
        forall|x: u64| #[trigger] (ALL_ONES | x) == ALL_ONES,
{
    assert(0u64 & 0u64 == 0u64 && 0u64 & ALL_ONES == 0u64 && ALL_ONES & 0u64 == 0u64 && ALL_ONES & ALL_ONES
        == ALL_ONES && 0u64 | 0u64 == 0u64 && 0u64 | ALL_ONES == ALL_ONES && ALL_ONES | 0u64 == ALL_ONES
        && ALL_ONES | ALL_ONES == ALL_ONES) by (bit_vector);
    assert forall|x: u64|
        #![trigger x & 0u64]
        #![trigger 0u64 & x]
        #![trigger x & ALL_ONES]
        #![trigger ALL_ONES & x]
        #![trigger x | 0u64]
        #![trigger 0u64 | x]
        #![trigger x | ALL_ONES]
        #![trigger ALL_ONES | x]
        x & 0u64 == 0u64 && 0u64 & x == 0u64 && x & ALL_ONES == x && ALL_ONES & x == x && x | 0u64 == x
            && 0u64 | x == x && x | ALL_ONES == ALL_ONES && ALL_ONES | x == ALL_ONES by {
        assert(x & 0u64 == 0u64 && 0u64 & x == 0u64 && x & ALL_ONES == x && ALL_ONES & x == x && x | 0u64
            == x && 0u64 | x == x && x | ALL_ONES == ALL_ONES && ALL_ONES | x == ALL_ONES) by (bit_vector);
    }
}

/// A copy of a page list.
fn copy_pages(pages: &Vec<BitPageWithPosition>) -> (r: Vec<BitPageWithPosition>)
    ensures
        r@ == pages@,
{
    let mut out: Vec<BitPageWithPosition> = Vec::new();
    let mut i: usize = 0;
    while i < pages.len()
        invariant
            i <= pages@.len(),
            out@ == pages@.take(i as int),
        decreases pages@.len() - i,
    {
        out.push(pages[i]);
        i = i + 1;
        assert(out@ == pages@.take(i as int));
    }
    assert(pages@.take(i as int) == pages@);
    out
}

impl BitPageVecIter {
    /// The stream invariant: pages in ascending index order, none for a uniform encoding.
    pub open spec fn wf(&self) -> bool {
        &&& sorted_pages(self.pages@)
        &&& (!(self.kind == BitPageVecKind::SparseWithZeroesHole || self.kind
            == BitPageVecKind::SparseWithOnesHole) ==> self.pages@.len() == 0)
        &&& self.last_bit_index.1 <= 64
    }

    /// The word of page `p`, for every page index.
    pub open spec fn page_word(&self, p: int) -> u64 {
        word_in(self.pages@, background(self.kind), p)
    }

    /// The pages that differ from the background, in order: what the compactor receives.
    pub open spec fn kept(&self) -> Seq<BitPageWithPosition> {
        drop_background(self.pages@, background(self.kind))
    }

    pub fn new(kind: BitPageVecKind, pages: Vec<BitPageWithPosition>, last_bit_index: (usize, usize)) -> (r: BitPageVecIter)
        ensures
            r.kind == kind,
            r.pages@ == pages@,
            r.last_bit_index == last_bit_index,
    {
        BitPageVecIter { kind, pages, last_bit_index }
    }

    pub fn kind(&self) -> (r: &BitPageVecKind)
        ensures
            *r == self.kind,
    {
        &self.kind
    }

    /// The uniform stream of `kind`, which is `AllZeroes` or `AllOnes`.
    fn uniform(kind: BitPageVecKind, last_bit_index: (usize, usize)) -> (r: BitPageVecIter)
        requires
            kind == BitPageVecKind::AllZeroes || kind == BitPageVecKind::AllOnes,
            last_bit_index.1 <= 64,
        ensures
            r.wf(),
            r.kind == kind,
            r.last_bit_index == last_bit_index,
            forall|p: int| r.page_word(p) == background(kind),
    {
        BitPageVecIter { kind, pages: Vec::new(), last_bit_index }
    }

    /// A copy of this stream.
    pub fn duplicate(&self) -> (r: BitPageVecIter)
        ensures
            r.kind == self.kind,
            r.pages@ == self.pages@,
            r.last_bit_index == self.last_bit_index,
    {
        BitPageVecIter { kind: self.kind, pages: copy_pages(&self.pages), last_bit_index: self.last_bit_index }
    }

    /// This stream with another universe bound.
    pub(crate) fn with_bound(self, last_bit_index: (usize, usize)) -> (r: BitPageVecIter)
        requires
            self.wf(),
            last_bit_index.1 <= 64,
        ensures
            r.wf(),
            r.kind == self.kind,
            r.pages@ == self.pages@,
            r.last_bit_index == last_bit_index,
    {
        BitPageVecIter { kind: self.kind, pages: self.pages, last_bit_index }
    }

    /// The sparse stream that combines two page lists with `op`.
    fn merged(
        kind: BitPageVecKind,
        a: &Vec<BitPageWithPosition>,
        bga: u64,
        b: &Vec<BitPageWithPosition>,
        bgb: u64,
        op: WordOp,
        last_bit_index: (usize, usize),
    ) -> (r: BitPageVecIter)
        requires
            kind == BitPageVecKind::SparseWithZeroesHole || kind == BitPageVecKind::SparseWithOnesHole,
            sorted_pages(a@),
            sorted_pages(b@),
            apply_op(op, bga, bgb) == background(kind),
            last_bit_index.1 <= 64,
        ensures
            r.wf(),
            r.kind == kind,
            r.last_bit_index == last_bit_index,
            forall|p: int| r.page_word(p) == apply_op(op, word_in(a@, bga, p), word_in(b@, bgb, p)),
    {
        let bg = if kind == BitPageVecKind::SparseWithZeroesHole {
            0
        } else {
            ALL_ONES
        };
        let pages = merge_pages(a, bga, b, bgb, op, bg);
        BitPageVecIter { kind, pages, last_bit_index }
    }

    /// Complements the stream: the background flips and each word is complemented.
    pub fn not(self) -> (r: BitPageVecIter)
        requires
            self.wf(),
        ensures
            r.wf(),
            r.kind == not_kind(self.kind),
            r.last_bit_index == self.last_bit_index,
            r.pages@.len() == self.pages@.len(),
            forall|k: int|
                0 <= k < r.pages@.len() ==> #[trigger] r.pages@[k] == (BitPageWithPosition {
                    page_idx: self.pages@[k].page_idx,
                    bit_page: !self.pages@[k].bit_page,
                }),
            forall|p: int| r.page_word(p) == !self.page_word(p),
    {
        assert(!0u64 == ALL_ONES && !ALL_ONES == 0u64) by (bit_vector);
        match self.kind {
            BitPageVecKind::AllZeroes => BitPageVec::all_ones(self.last_bit_index).into_iter(),
            BitPageVecKind::AllOnes => BitPageVec::all_zeros(self.last_bit_index).into_iter(),
            _ => {
                let kind = if self.kind == BitPageVecKind::SparseWithZeroesHole {
                    BitPageVecKind::SparseWithOnesHole
                } else {
                    BitPageVecKind::SparseWithZeroesHole
                };
                let ghost bg = background(self.kind);
                let mut out: Vec<BitPageWithPosition> = Vec::new();
                let mut i: usize = 0;
                while i < self.pages.len()
                    invariant
                        i <= self.pages@.len(),
                        out@.len() == i,
                        forall|k: int|
                            0 <= k < i ==> (#[trigger] out@[k]).page_idx == self.pages@[k].page_idx
                                && out@[k].bit_page == !self.pages@[k].bit_page,
                    decreases self.pages@.len() - i,
                {
                    let x = self.pages[i];
                    out.push(BitPageWithPosition { page_idx: x.page_idx, bit_page: !x.bit_page });
                    i = i + 1;
                }
                proof {
                    let s = self.pages@;
                    assert(sorted_pages(out@));
                    assert forall|p: int| word_in(out@, !bg, p) == !word_in(s, bg, p) by {
                        if has_page(s, p) {
                            let k = choose|k: int| 0 <= k < s.len() && s[k].page_idx == p;
                            lemma_word_at(s, bg, k);
                            lemma_word_at(out@, !bg, k);
                        } else if has_page(out@, p) {
                            let k = choose|k: int| 0 <= k < out@.len() && out@[k].page_idx == p;
                            assert(s[k].page_idx == p);
                        }
                    }
                }
                BitPageVecIter { kind, pages: out, last_bit_index: self.last_bit_index }
            },
        }
    }

    /// Intersects two streams.
    pub fn and(first: BitPageVecIter, second: BitPageVecIter) -> (r: BitPageVecIter)
        requires
            first.wf(),
            second.wf(),
        ensures
            r.wf(),
            r.kind == and_kind(first.kind, second.kind),
            r.last_bit_index == min_bound(first.last_bit_index, second.last_bit_index),
            forall|p: int| r.page_word(p) == first.page_word(p) & second.page_word(p),
    {
        proof {
            lemma_word_constants();
        }
        let bound = min_last_bit_index(first.last_bit_index, second.last_bit_index);
        match (first.kind, second.kind) {
            (BitPageVecKind::AllZeroes, _) | (_, BitPageVecKind::AllZeroes) => {
                BitPageVecIter::uniform(BitPageVecKind::AllZeroes, bound)
            },
            (BitPageVecKind::AllOnes, _) => second.with_bound(bound),
            (_, BitPageVecKind::AllOnes) => first.with_bound(bound),
            (BitPageVecKind::SparseWithOnesHole, BitPageVecKind::SparseWithOnesHole) => {
                BitPageVecIter::merged(
                    BitPageVecKind::SparseWithOnesHole,
                    &first.pages,
                    ALL_ONES,
                    &second.pages,
                    ALL_ONES,
                    WordOp::And,
                    bound,
                )
            },
            _ => {
                BitPageVecIter::merged(
                    BitPageVecKind::SparseWithZeroesHole,
                    &first.pages,
                    background_word(first.kind),
                    &second.pages,
                    background_word(second.kind),
                    WordOp::And,
                    bound,
                )
            },
        }
    }

    /// Unites two streams.
    pub fn or(first: BitPageVecIter, second: BitPageVecIter) -> (r: BitPageVecIter)
        requires
            first.wf(),
            second.wf(),
        ensures
            r.wf(),
            r.kind == or_kind(first.kind, second.kind),
            r.last_bit_index == min_bound(first.last_bit_index, second.last_bit_index),
            forall|p: int| r.page_word(p) == first.page_word(p) | second.page_word(p),
    {
        proof {
            lemma_word_constants();
        }
        let bound = min_last_bit_index(first.last_bit_index, second.last_bit_index);
        match (first.kind, second.kind) {
            (BitPageVecKind::AllOnes, _) | (_, BitPageVecKind::AllOnes) => {
                BitPageVecIter::uniform(BitPageVecKind::AllOnes, bound)
            },
            (BitPageVecKind::AllZeroes, _) => second.with_bound(bound),
            (_, BitPageVecKind::AllZeroes) => first.with_bound(bound),
            (BitPageVecKind::SparseWithZeroesHole, BitPageVecKind::SparseWithZeroesHole) => {
                BitPageVecIter::merged(
                    BitPageVecKind::SparseWithZeroesHole,
                    &first.pages,
                    0,
                    &second.pages,
                    0,
                    WordOp::Or,
                    bound,
                )
            },
            _ => {
                BitPageVecIter::merged(
                    BitPageVecKind::SparseWithOnesHole,
                    &first.pages,
                    background_word(first.kind),
                    &second.pages,
                    background_word(second.kind),
                    WordOp::Or,
                    bound,
                )
            },
        }
    }

    /// Drains the stream into a bitmap: pages equal to the background are dropped and the
    /// compactor picks the encoding.
    pub fn into_bit_page_vec(self) -> (r: BitPageVec)
        requires
            self.wf(),
        ensures
            r.wf(),
            r.last_bit_index == self.last_bit_index,
            forall|p: int| 0 <= p <= self.last_bit_index.0 ==> r.page_word(p) == self.page_word(p),
            background(r.kind) == if (self.kind == BitPageVecKind::SparseWithZeroesHole || self.kind
                == BitPageVecKind::SparseWithOnesHole) {
                policy_background(drop_background(self.pages@, background(self.kind)), background(self.kind))
            } else {
                background(self.kind)
            },
            is_canonical(self.kept(), background(self.kind)),
            forall|p: int| word_in(self.kept(), background(self.kind), p) == self.page_word(p),
            compaction_of(r, background(self.kind), self.kept(), self.last_bit_index),
    {
        proof {
            if self.pages@.len() == 0 {
                assert(self.kept() == self.pages@);
            }
        }
        match self.kind {
            BitPageVecKind::AllZeroes | BitPageVecKind::AllOnes => {
                let r = if self.kind == BitPageVecKind::AllZeroes {
                    BitPageVec::all_zeros(self.last_bit_index)
                } else {
                    BitPageVec::all_ones(self.last_bit_index)
                };
                assert forall|p: int| #[trigger] r.page_word(p) == compacted_word(
                    self.kept(),
                    background(self.kind),
                    self.last_bit_index.0,
                    false,
                    p,
                ) by {
                    assert(!has_page(self.kept(), p));
                }
                assert(policy_background(self.kept(), background(self.kind)) == background(self.kind));
                assert(r.pages@ == self.kept());
                assert(compaction_of(r, background(self.kind), self.kept(), self.last_bit_index));
                r
            },
            BitPageVecKind::SparseWithZeroesHole => {
                let pages = drop_background_pages(&self.pages, 0);
                compact_sparse_with_zeroes_hole(pages, self.last_bit_index)
            },
            BitPageVecKind::SparseWithOnesHole => {
                let pages = drop_background_pages(&self.pages, ALL_ONES);
                compact_sparse_with_ones_hole(pages, self.last_bit_index)
            },
        }
    }
}

impl Clone for BitPageVec {
    fn clone(&self) -> (r: BitPageVec)
        ensures
            r.kind == self.kind,
            r.pages@ == self.pages@,
            r.last_bit_index == self.last_bit_index,
    {
        let pages = copy_pages(&self.pages);
        BitPageVec { kind: self.kind, pages, last_bit_index: self.last_bit_index }
    }
}

impl BitPageVec {
    /// A stream over a copy of this bitmap's pages.
    pub fn iter(&self) -> (r: BitPageVecIter)
        requires
            self.wf(),
        ensures
            r.wf(),
            r.kind == self.kind,
            r.pages@ == self.pages@,
            r.last_bit_index == self.last_bit_index,
    {
        BitPageVecIter { kind: self.kind, pages: copy_pages(&self.pages), last_bit_index: self.last_bit_index }
    }

    /// A stream that takes over this bitmap's pages.
    pub fn into_iter(self) -> (r: BitPageVecIter)
        requires
            self.wf(),
        ensures
            r.wf(),
            r.kind == self.kind,
            r.pages@ == self.pages@,
            r.last_bit_index == self.last_bit_index,
    {
        BitPageVecIter { kind: self.kind, pages: self.pages, last_bit_index: self.last_bit_index }
    }

    /// Unites `second` into this bitmap.
    pub fn or(&mut self, second: &BitPageVec)
        requires
            old(self).wf(),
            second.wf(),
        ensures
            final(self).wf(),
            final(self)@ == or_model(old(self)@, second@),
            combined(*final(self), *old(self), *second, WordOp::Or),
    {
        let ghost a = *self;
        let first = self.iter();
        let other = second.iter();
        let ghost first_words = first;
        let ghost other_words = other;
        let s = BitPageVecIter::or(first, other);
        let ghost st = s;
        *self = s.into_bit_page_vec();
        assert(self@.words =~= or_model(a@, second@).words);
        proof {
            let bg = background(st.kind);
            assert forall|p: int| word_in(st.kept(), bg, p) == apply_op(WordOp::Or, a.page_word(p), second.page_word(p)) by {
                assert(word_in(st.kept(), bg, p) == st.page_word(p));
                assert(st.page_word(p) == first_words.page_word(p) | other_words.page_word(p));
            }
            assert(compaction_of(*self, bg, st.kept(), min_bound(a.last_bit_index, second.last_bit_index)));
            assert(is_canonical(st.kept(), bg));
            assert(bg == background(or_kind(a.kind, second.kind)));
            assert(combined(*self, a, *second, WordOp::Or));
        }
    }

    /// Intersects this bitmap with `second`.
    pub fn and(&mut self, second: &BitPageVec)
        requires
            old(self).wf(),
            second.wf(),
        ensures
            final(self).wf(),
            final(self)@ == and_model(old(self)@, second@),
            combined(*final(self), *old(self), *second, WordOp::And),
    {
        let ghost a = *self;
        let first = self.iter();
        let other = second.iter();
        let ghost first_words = first;
        let ghost other_words = other;
        let s = BitPageVecIter::and(first, other);
        let ghost st = s;
        *self = s.into_bit_page_vec();
        assert(self@.words =~= and_model(a@, second@).words);
        proof {
            let bg = background(st.kind);
            assert forall|p: int| word_in(st.kept(), bg, p) == apply_op(WordOp::And, a.page_word(p), second.page_word(p)) by {
                assert(word_in(st.kept(), bg, p) == st.page_word(p));
                assert(st.page_word(p) == first_words.page_word(p) & other_words.page_word(p));
            }
            assert(compaction_of(*self, bg, st.kept(), min_bound(a.last_bit_index, second.last_bit_index)));
            assert(is_canonical(st.kept(), bg));
            assert(bg == background(and_kind(a.kind, second.kind)));
            assert(combined(*self, a, *second, WordOp::And));
        }
    }

    /// Complements this bitmap within its universe.
    pub fn not(&mut self)
        requires
            old(self).wf(),
        ensures
            final(self).wf(),
            final(self)@ == not_model(old(self)@),
            complemented(*final(self), *old(self)),
    {
        let ghost a = *self;
        let it = self.iter();
        let ghost it_words = it;
        let s = it.not();
        let ghost st = s;
        *self = s.into_bit_page_vec();
        assert(self@.words =~= not_model(a@).words);
        proof {
            let bg = background(st.kind);
            assert forall|p: int| word_in(st.kept(), bg, p) == !a.page_word(p) by {
                assert(word_in(st.kept(), bg, p) == st.page_word(p));
                assert(st.page_word(p) == !it_words.page_word(p));
            }
            assert(compaction_of(*self, bg, st.kept(), a.last_bit_index));
        }
    }
}

/// `r` is what combining `a` and `b` with `op` stores: the compaction, under the lesser
/// universe, of the canonical list whose words are `op` of their words, held over the
/// background of the stream algebra's result encoding.
pub open spec fn combined(r: BitPageVec, a: BitPageVec, b: BitPageVec, op: WordOp) -> bool {
    let bg = background(op_kind(op, a.kind, b.kind));
    exists|kept: Seq<BitPageWithPosition>|
        #[trigger] compaction_of(r, bg, kept, min_bound(a.last_bit_index, b.last_bit_index)) && is_canonical(kept, bg)
            && forall|p: int| word_in(kept, bg, p) == apply_op(op, a.page_word(p), b.page_word(p))
}

/// `r` is what complementing `a` stores: the compaction of the canonical list of the
/// complemented words, over the flipped background.
pub open spec fn complemented(r: BitPageVec, a: BitPageVec) -> bool {
    let bg = background(not_kind(a.kind));
    exists|kept: Seq<BitPageWithPosition>|
        #[trigger] compaction_of(r, bg, kept, a.last_bit_index) && is_canonical(kept, bg) && forall|p: int|
            word_in(kept, bg, p) == !a.page_word(p)
}

} // verus!
