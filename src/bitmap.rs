//! The paged bitmap with its four encodings, point mutation and reads.
use vstd::prelude::*;

use crate::page::{bit_at, bit_mask, BitPage, BitPageWithPosition, ALL_ONES};
use crate::pages::{
    find_page, has_page, lemma_insert_word, lemma_remove_word, lemma_update_word, lemma_word_at,
    sorted_pages, word_in,
};

verus! {

/// The encoding of a bitmap.
#[derive(Clone, Copy, Debug, PartialEq, Eq, Structural)]
pub enum BitPageVecKind {
    AllZeroes,
    SparseWithZeroesHole,
    AllOnes,
    SparseWithOnesHole,
}

/// The word that an absent page reads as under an encoding.
pub open spec fn background(kind: BitPageVecKind) -> u64 {
    match kind {
        BitPageVecKind::AllZeroes | BitPageVecKind::SparseWithZeroesHole => 0,
        BitPageVecKind::AllOnes | BitPageVecKind::SparseWithOnesHole => ALL_ONES,
    }
}

/// The word that an absent page reads as under an encoding.
pub fn background_word(kind: BitPageVecKind) -> (r: u64)
    ensures
        r == background(kind),
{
    match kind {
        BitPageVecKind::AllZeroes | BitPageVecKind::SparseWithZeroesHole => 0,
        BitPageVecKind::AllOnes | BitPageVecKind::SparseWithOnesHole => ALL_ONES,
    }
}

/// The lesser of two universe bounds, ordered by page and then by bit.
pub open spec fn min_bound(a: (usize, usize), b: (usize, usize)) -> (usize, usize) {
    if a.0 < b.0 || (a.0 == b.0 && a.1 <= b.1) {
        a
    } else {
        b
    }
}

/// What a bitmap means: its universe bound and the words of pages `0 ..= last page`.
pub struct BitmapModel {
    pub last_bit_index: (usize, usize),
    pub words: Seq<u64>,
}

/// A bitmap: an encoding, its explicit pages, and the universe bound `(last_page, last_bit)`.
#[derive(Debug)]
pub struct BitPageVec {
    pub kind: BitPageVecKind,
    pub pages: Vec<BitPageWithPosition>,
    pub last_bit_index: (usize, usize),
}

/// The representation invariant of an encoding and its pages.
pub open spec fn pages_wf(kind: BitPageVecKind, pages: Seq<BitPageWithPosition>) -> bool {
    &&& sorted_pages(pages)
    &&& match kind {
        BitPageVecKind::AllZeroes | BitPageVecKind::AllOnes => pages.len() == 0,
        BitPageVecKind::SparseWithZeroesHole => pages.len() > 0 && forall|i: int|
            0 <= i < pages.len() ==> (#[trigger] pages[i]).bit_page != 0,
        BitPageVecKind::SparseWithOnesHole => pages.len() > 0 && forall|i: int|
            0 <= i < pages.len() ==> (#[trigger] pages[i]).bit_page != ALL_ONES,
    }
}

impl View for BitPageVec {
    type V = BitmapModel;

    open spec fn view(&self) -> BitmapModel {
        BitmapModel {
            last_bit_index: self.last_bit_index,
            words: Seq::new((self.last_bit_index.0 + 1) as nat, |p: int| self.page_word(p)),
        }
    }
}

/// The model after setting bit `b` of page `p`.
pub open spec fn set_model(m: BitmapModel, p: int, b: u64) -> BitmapModel {
    if 0 <= p < m.words.len() {
        BitmapModel { words: m.words.update(p, m.words[p] | bit_mask(b)), ..m }
    } else {
        m
    }
}

/// The model after clearing bit `b` of page `p`.
pub open spec fn clear_model(m: BitmapModel, p: int, b: u64) -> BitmapModel {
    if 0 <= p < m.words.len() {
        BitmapModel { words: m.words.update(p, m.words[p] & !bit_mask(b)), ..m }
    } else {
        m
    }
}

/// `r` is `b` with bit `bit` of page `page_idx` set, in valid form with the same bound and
/// background.
pub open spec fn sets_bit(r: BitPageVec, b: BitPageVec, page_idx: int, bit: u64) -> bool {
    &&& r.wf()
    &&& r.last_bit_index == b.last_bit_index
    &&& background(r.kind) == background(b.kind)
    &&& forall|q: int|
        #[trigger] r.page_word(q) == if q == page_idx {
            b.page_word(q) | bit_mask(bit)
        } else {
            b.page_word(q)
        }
}

/// `r` is `b` with bit `bit` of page `page_idx` clear, in valid form with the same bound and
/// background.
pub open spec fn clears_bit(r: BitPageVec, b: BitPageVec, page_idx: int, bit: u64) -> bool {
    &&& r.wf()
    &&& r.last_bit_index == b.last_bit_index
    &&& background(r.kind) == background(b.kind)
    &&& forall|q: int|
        #[trigger] r.page_word(q) == if q == page_idx {
            b.page_word(q) & !bit_mask(bit)
        } else {
            b.page_word(q)
        }
}

/// Complement, page by page.
pub open spec fn not_model(m: BitmapModel) -> BitmapModel {
    BitmapModel { last_bit_index: m.last_bit_index, words: m.words.map_values(|w: u64| !w) }
}

/// Intersection over the lesser universe.
pub open spec fn and_model(a: BitmapModel, b: BitmapModel) -> BitmapModel {
    let l = min_bound(a.last_bit_index, b.last_bit_index);
    BitmapModel { last_bit_index: l, words: Seq::new((l.0 + 1) as nat, |p: int| a.words[p] & b.words[p]) }
}

/// Union over the lesser universe.
pub open spec fn or_model(a: BitmapModel, b: BitmapModel) -> BitmapModel {
    let l = min_bound(a.last_bit_index, b.last_bit_index);
    BitmapModel { last_bit_index: l, words: Seq::new((l.0 + 1) as nat, |p: int| a.words[p] | b.words[p]) }
}

impl BitPageVec {
    /// The representation invariant.
    pub open spec fn wf(&self) -> bool {
        &&& pages_wf(self.kind, self.pages@)
        &&& self.last_bit_index.1 <= 64
    }

    /// The word of page `p`, for every page index.
    pub open spec fn page_word(&self, p: int) -> u64 {
        word_in(self.pages@, background(self.kind), p)
    }

    /// Builds a bitmap from an encoding and its pages, `None` standing for no pages.
    pub fn new(
        kind: BitPageVecKind,
        pages: Option<Vec<BitPageWithPosition>>,
        last_bit_index: (usize, usize),
    ) -> (r: BitPageVec)
        ensures
            r.kind == kind,
            r.last_bit_index == last_bit_index,
            r.pages@ == match pages {
                Some(v) => v@,
                None => Seq::<BitPageWithPosition>::empty(),
            },
    {
        let pages = match pages {
            Some(v) => v,
            None => Vec::new(),
        };
        BitPageVec { kind, pages, last_bit_index }
    }

    pub fn all_zeros(last_bit_index: (usize, usize)) -> (r: BitPageVec)
        requires
            last_bit_index.1 <= 64,
        ensures
            r.wf(),
            r.kind == BitPageVecKind::AllZeroes,
            r.last_bit_index == last_bit_index,
            forall|p: int| r.page_word(p) == 0,
    {
        BitPageVec::new(BitPageVecKind::AllZeroes, None, last_bit_index)
    }

    pub fn all_ones(last_bit_index: (usize, usize)) -> (r: BitPageVec)
        requires
            last_bit_index.1 <= 64,
        ensures
            r.wf(),
            r.kind == BitPageVecKind::AllOnes,
            r.last_bit_index == last_bit_index,
            forall|p: int| r.page_word(p) == ALL_ONES,
    {
        BitPageVec::new(BitPageVecKind::AllOnes, None, last_bit_index)
    }

    pub fn kind(&self) -> (r: &BitPageVecKind)
        ensures
            *r == self.kind,
    {
        &self.kind
    }

    pub fn last_bit_index(&self) -> (r: (usize, usize))
        ensures
            r == self.last_bit_index,
    {
        self.last_bit_index
    }

    /// The number of explicit pages.
    pub fn size(&self) -> (r: usize)
        ensures
            r == self.pages@.len(),
    {
        self.pages.len()
    }

    /// Whether bit `bit_idx` of page `page_idx` is set.
    pub fn is_bit_set(&self, page_idx: usize, bit_idx: usize) -> (r: bool)
        requires
            self.wf(),
            bit_idx < 64,
        ensures
            r == bit_at(self.page_word(page_idx as int), bit_idx as u64),
    {
        match self.kind {
            BitPageVecKind::AllZeroes => {
                assert(0u64 & bit_mask(bit_idx as u64) == 0) by (bit_vector);
                false
            },
            BitPageVecKind::AllOnes => {
                let b = bit_idx as u64;
                assert(ALL_ONES & bit_mask(b) != 0) by (bit_vector)
                    requires
                        b < 64,
                ;
                true
            },
            _ => {
                match find_page(&self.pages, page_idx) {
                    Ok(i) => {
                        proof {
                            lemma_word_at(self.pages@, background(self.kind), i as int);
                        }
                        BitPage::is_bit_set(&self.pages[i].bit_page, bit_idx)
                    },
                    Err(_) => {
                        let b = bit_idx as u64;
                        assert(0u64 & bit_mask(b) == 0) by (bit_vector);
                        assert(ALL_ONES & bit_mask(b) != 0) by (bit_vector)
                            requires
                                b < 64,
                        ;
                        self.kind == BitPageVecKind::SparseWithOnesHole
                    },
                }
            },
        }
    }

    /// Sets bit `bit_idx` of page `page_idx`.
    pub fn set_bit(&mut self, page_idx: usize, bit_idx: usize)
        requires
            old(self).wf(),
            bit_idx < 64,
        ensures
            final(self).wf(),
            final(self).last_bit_index == old(self).last_bit_index,
            forall|q: int|
                final(self).page_word(q) == if q == page_idx {
                    old(self).page_word(q) | bit_mask(bit_idx as u64)
                } else {
                    old(self).page_word(q)
                },
            final(self)@ == set_model(old(self)@, page_idx as int, bit_idx as u64),
            background(final(self).kind) == background(old(self).kind),
            sets_bit(*final(self), *old(self), page_idx as int, bit_idx as u64),
    {
        let ghost old_self = *self;
        let b = bit_idx as u64;
        assert(bit_mask(b) != 0 && ALL_ONES | bit_mask(b) == ALL_ONES) by (bit_vector)
            requires
                b < 64,
        ;
        match self.kind {
            BitPageVecKind::AllZeroes => {
                let mut bit_page = BitPage::zeroes();
                BitPage::set_bit(&mut bit_page, bit_idx);
                assert(0u64 | bit_mask(b) == bit_mask(b)) by (bit_vector);
                let mut pages: Vec<BitPageWithPosition> = Vec::new();
                pages.push(BitPageWithPosition { page_idx, bit_page });
                proof {
                    lemma_insert_word(Seq::empty(), 0, 0, pages@[0]);
                    assert(pages@ == Seq::<BitPageWithPosition>::empty().insert(0, pages@[0]));
                }
                *self = BitPageVec::new(BitPageVecKind::SparseWithZeroesHole, Some(pages), self.last_bit_index);
            },
            BitPageVecKind::AllOnes => {},
            BitPageVecKind::SparseWithZeroesHole => {
                match find_page(&self.pages, page_idx) {
                    Ok(i) => {
                        let mut bit_page = self.pages[i].bit_page;
                        let w = bit_page;
                        BitPage::set_bit(&mut bit_page, bit_idx);
                        assert(w != 0 ==> w | bit_mask(b) != 0) by (bit_vector);
                        proof {
                            lemma_word_at(self.pages@, 0, i as int);
                            lemma_update_word(self.pages@, 0, i as int, bit_page);
                        }
                        self.pages[i] = BitPageWithPosition { page_idx, bit_page };
                    },
                    Err(i) => {
                        let mut bit_page = BitPage::zeroes();
                        BitPage::set_bit(&mut bit_page, bit_idx);
                        assert(0u64 | bit_mask(b) == bit_mask(b)) by (bit_vector);
                        let x = BitPageWithPosition { page_idx, bit_page };
                        proof {
                            lemma_insert_word(self.pages@, 0, i as int, x);
                        }
                        self.pages.insert(i, x);
                    },
                }
            },
            BitPageVecKind::SparseWithOnesHole => {
                match find_page(&self.pages, page_idx) {
                    Ok(i) => {
                        let mut bit_page = self.pages[i].bit_page;
                        BitPage::set_bit(&mut bit_page, bit_idx);
                        proof {
                            lemma_word_at(self.pages@, ALL_ONES, i as int);
                        }
                        if BitPage::is_ones(&bit_page) {
                            proof {
                                lemma_remove_word(self.pages@, ALL_ONES, i as int);
                            }
                            self.pages.remove(i);
                            if self.pages.len() == 0 {
                                *self = BitPageVec::all_ones(self.last_bit_index);
                            }
                        } else {
                            proof {
                                lemma_update_word(self.pages@, ALL_ONES, i as int, bit_page);
                            }
                            self.pages[i] = BitPageWithPosition { page_idx, bit_page };
                        }
                    },
                    Err(_) => {},
                }
            },
        }
        proof {
            assert(self@.words =~= set_model(old_self@, page_idx as int, b).words);
        }
    }

    /// Clears bit `bit_idx` of page `page_idx`.
    pub fn clear_bit(&mut self, page_idx: usize, bit_idx: usize)
        requires
            old(self).wf(),
            bit_idx < 64,
        ensures
            final(self).wf(),
            final(self).last_bit_index == old(self).last_bit_index,
            forall|q: int|
                final(self).page_word(q) == if q == page_idx {
                    old(self).page_word(q) & !bit_mask(bit_idx as u64)
                } else {
                    old(self).page_word(q)
                },
            final(self)@ == clear_model(old(self)@, page_idx as int, bit_idx as u64),
            background(final(self).kind) == background(old(self).kind),
            clears_bit(*final(self), *old(self), page_idx as int, bit_idx as u64),
    {
        let ghost old_self = *self;
        let b = bit_idx as u64;
        assert(ALL_ONES & !bit_mask(b) != ALL_ONES && 0u64 & !bit_mask(b) == 0) by (bit_vector)
            requires
                b < 64,
        ;
        match self.kind {
            BitPageVecKind::AllZeroes => {},
            BitPageVecKind::AllOnes => {
                let mut bit_page = BitPage::ones();
                BitPage::clear_bit(&mut bit_page, bit_idx);
                let mut pages: Vec<BitPageWithPosition> = Vec::new();
                pages.push(BitPageWithPosition { page_idx, bit_page });
                proof {
                    lemma_insert_word(Seq::empty(), ALL_ONES, 0, pages@[0]);
                    assert(pages@ == Seq::<BitPageWithPosition>::empty().insert(0, pages@[0]));
                }
                *self = BitPageVec::new(BitPageVecKind::SparseWithOnesHole, Some(pages), self.last_bit_index);
            },
            BitPageVecKind::SparseWithZeroesHole => {
                match find_page(&self.pages, page_idx) {
                    Ok(i) => {
                        let mut bit_page = self.pages[i].bit_page;
                        BitPage::clear_bit(&mut bit_page, bit_idx);
                        proof {
                            lemma_word_at(self.pages@, 0, i as int);
                        }
                        if BitPage::is_zeroes(&bit_page) {
                            proof {
                                lemma_remove_word(self.pages@, 0, i as int);
                            }
                            self.pages.remove(i);
                            if self.pages.len() == 0 {
                                *self = BitPageVec::all_zeros(self.last_bit_index);
                            }
                        } else {
                            proof {
                                lemma_update_word(self.pages@, 0, i as int, bit_page);
                            }
                            self.pages[i] = BitPageWithPosition { page_idx, bit_page };
                        }
                    },
                    Err(_) => {},
                }
            },
            BitPageVecKind::SparseWithOnesHole => {
                match find_page(&self.pages, page_idx) {
                    Ok(i) => {
                        let mut bit_page = self.pages[i].bit_page;
                        let w = bit_page;
                        BitPage::clear_bit(&mut bit_page, bit_idx);
                        assert(w != ALL_ONES ==> w & !bit_mask(b) != ALL_ONES) by (bit_vector);
                        proof {
                            lemma_word_at(self.pages@, ALL_ONES, i as int);
                            lemma_update_word(self.pages@, ALL_ONES, i as int, bit_page);
                        }
                        self.pages[i] = BitPageWithPosition { page_idx, bit_page };
                    },
                    Err(i) => {
                        let mut bit_page = BitPage::ones();
                        BitPage::clear_bit(&mut bit_page, bit_idx);
                        let x = BitPageWithPosition { page_idx, bit_page };
                        proof {
                            lemma_insert_word(self.pages@, ALL_ONES, i as int, x);
                        }
                        self.pages.insert(i, x);
                    },
                }
            },
        }
        proof {
            assert(self@.words =~= clear_model(old_self@, page_idx as int, b).words);
        }
    }
}

} // verus!
