//! A bitmap over a zero background without a universe bound, as kept in storage.
use vstd::prelude::*;

use crate::bitmap::{background, pages_wf, BitPageVec, BitPageVecKind};
use crate::codec::{
    bitmap_bytes, decode_pages, encode_pages, get_u64, get_u8, is_sorted, kind_tag, parse_bitmap, put_u8,
    DecodeError,
};
use crate::compactor::{compaction_of, drop_background, drop_background_pages};
use crate::stream::{or_kind, BitPageVecIter};
use crate::page::{bit_at, bit_mask, BitPageWithPosition};
use crate::pages::{find_page, is_canonical, lemma_word_at, sorted_pages, word_in};

verus! {

/// A stored bitmap: no bits set, or the explicit nonzero pages.
#[derive(Debug)]
pub enum DbBitPageVec {
    AllZeroes,
    Sparse(Vec<BitPageWithPosition>),
}

/// The binary digits of `w`, most significant first, without leading zeros.
pub open spec fn binary_digits(w: u64) -> Seq<char>
    decreases w,
{
    if w < 2 {
        seq![if w == 0 { '0' } else { '1' }]
    } else {
        binary_digits(w / 2).push(if w % 2 == 0 { '0' } else { '1' })
    }
}

/// Relies on the `{:b}` format of `u64`: its binary digits without prefix or leading zeros.
#[verifier::external_body]
fn to_binary(w: u64) -> (r: String)
    ensures
        r@ == binary_digits(w),
{
    format!("{:b}", w)
}

impl Default for DbBitPageVec {
    fn default() -> (r: DbBitPageVec)
        ensures
            r == DbBitPageVec::AllZeroes,
    {
        DbBitPageVec::all_zeros()
    }
}

impl DbBitPageVec {
    /// The representation invariant: sorted nonzero pages, at least one of them.
    pub open spec fn wf(&self) -> bool {
        match self {
            DbBitPageVec::AllZeroes => true,
            DbBitPageVec::Sparse(pages) => pages_wf(BitPageVecKind::SparseWithZeroesHole, pages@),
        }
    }

    /// The explicit pages.
    pub open spec fn spec_pages(&self) -> Seq<BitPageWithPosition> {
        match self {
            DbBitPageVec::AllZeroes => Seq::empty(),
            DbBitPageVec::Sparse(pages) => pages@,
        }
    }

    /// The word of page `p`, for every page index.
    pub open spec fn page_word(&self, p: int) -> u64 {
        word_in(self.spec_pages(), 0, p)
    }

    pub fn all_zeros() -> (r: DbBitPageVec)
        ensures
            r.wf(),
            r == DbBitPageVec::AllZeroes,
    {
        DbBitPageVec::AllZeroes
    }

    /// The bitmap of universe `last_bit_index` with the same pages.
    pub fn into_bit_page_vec(self, last_bit_index: (usize, usize)) -> (r: BitPageVec)
        requires
            self.wf(),
            last_bit_index.1 <= 64,
        ensures
            r.wf(),
            background(r.kind) == 0,
            r.kind == self.spec_kind(),
            r.pages@ == self.spec_pages(),
            r.last_bit_index == last_bit_index,
    {
        match self {
            DbBitPageVec::AllZeroes => BitPageVec::all_zeros(last_bit_index),
            DbBitPageVec::Sparse(pages) => BitPageVec::new(
                BitPageVecKind::SparseWithZeroesHole,
                Some(pages),
                last_bit_index,
            ),
        }
    }

    /// The stored form of a bitmap over a zero background.
    fn from_bit_page_vec(v: BitPageVec) -> (r: DbBitPageVec)
        requires
            v.wf(),
            background(v.kind) == 0,
        ensures
            r.wf(),
            r.spec_pages() == v.pages@,
    {
        if v.kind == BitPageVecKind::AllZeroes {
            DbBitPageVec::AllZeroes
        } else {
            DbBitPageVec::Sparse(v.pages)
        }
    }

    /// Clears bit `bit_idx` of page `page_idx`.
    pub fn clear_bit(&mut self, page_idx: usize, bit_idx: usize)
        requires
            old(self).wf(),
            bit_idx < 64,
        ensures
            final(self).wf(),
            forall|q: int|
                final(self).page_word(q) == if q == page_idx {
                    old(self).page_word(q) & !bit_mask(bit_idx as u64)
                } else {
                    old(self).page_word(q)
                },
    {
        let ghost before = *self;
        let mut taken = DbBitPageVec::AllZeroes;
        std::mem::swap(self, &mut taken);
        assert(taken == before);
        let mut v = taken.into_bit_page_vec((0, 0));
        let ghost v0 = v;
        v.clear_bit(page_idx, bit_idx);
        *self = DbBitPageVec::from_bit_page_vec(v);
        assert forall|q: int| self.page_word(q) == if q == page_idx {
            before.page_word(q) & !bit_mask(bit_idx as u64)
        } else {
            before.page_word(q)
        } by {
            assert(self.page_word(q) == v.page_word(q));
            assert(v0.page_word(q) == before.page_word(q));
        }
    }

    /// Sets bit `bit_idx` of page `page_idx`.
    pub fn set_bit(&mut self, page_idx: usize, bit_idx: usize)
        requires
            old(self).wf(),
            bit_idx < 64,
        ensures
            final(self).wf(),
            forall|q: int|
                final(self).page_word(q) == if q == page_idx {
                    old(self).page_word(q) | bit_mask(bit_idx as u64)
                } else {
                    old(self).page_word(q)
                },
    {
        let ghost before = *self;
        let mut taken = DbBitPageVec::AllZeroes;
        std::mem::swap(self, &mut taken);
        assert(taken == before);
        let mut v = taken.into_bit_page_vec((0, 0));
        let ghost v0 = v;
        v.set_bit(page_idx, bit_idx);
        *self = DbBitPageVec::from_bit_page_vec(v);
        assert forall|q: int| self.page_word(q) == if q == page_idx {
            before.page_word(q) | bit_mask(bit_idx as u64)
        } else {
            before.page_word(q)
        } by {
            assert(self.page_word(q) == v.page_word(q));
            assert(v0.page_word(q) == before.page_word(q));
        }
    }

    /// The binary digits of page `page_idx`, if it has an explicit entry.
    pub fn get_bit_page_in_binary_format(&self, page_idx: usize) -> (r: Option<String>)
        requires
            self.wf(),
        ensures
            match r {
                Some(s) => crate::pages::has_page(self.spec_pages(), page_idx as int) && s@ == binary_digits(
                    self.page_word(page_idx as int),
                ),
                None => !crate::pages::has_page(self.spec_pages(), page_idx as int),
            },
    {
        match self {
            DbBitPageVec::AllZeroes => None,
            DbBitPageVec::Sparse(pages) => {
                match find_page(pages, page_idx) {
                    Ok(i) => {
                        proof {
                            lemma_word_at(pages@, 0, i as int);
                        }
                        Some(to_binary(pages[i].bit_page))
                    },
                    Err(_) => None,
                }
            },
        }
    }

    /// Whether bit `bit_idx` of page `page_idx` is set.
    pub fn is_bit_set(&self, page_idx: usize, bit_idx: usize) -> (r: bool)
        requires
            self.wf(),
            bit_idx < 64,
        ensures
            r == bit_at(self.page_word(page_idx as int), bit_idx as u64),
    {
        let b = bit_idx as u64;
        assert(0u64 & bit_mask(b) == 0) by (bit_vector);
        match self {
            DbBitPageVec::AllZeroes => false,
            DbBitPageVec::Sparse(pages) => {
                match find_page(pages, page_idx) {
                    Ok(i) => {
                        proof {
                            lemma_word_at(pages@, 0, i as int);
                        }
                        crate::page::BitPage::is_bit_set(&pages[i].bit_page, bit_idx)
                    },
                    Err(_) => false,
                }
            },
        }
    }
}

impl DbBitPageVec {
    /// The encoding that the stored form is written in.
    pub open spec fn spec_kind(&self) -> BitPageVecKind {
        match self {
            DbBitPageVec::AllZeroes => BitPageVecKind::AllZeroes,
            DbBitPageVec::Sparse(_) => BitPageVecKind::SparseWithZeroesHole,
        }
    }

    /// Whether this stored bitmap is in valid form.
    pub fn is_valid(&self) -> (r: bool)
        ensures
            r == self.wf(),
    {
        match self {
            DbBitPageVec::AllZeroes => true,
            DbBitPageVec::Sparse(pages) => {
                if pages.len() == 0 || !is_sorted(pages) {
                    return false;
                }
                let mut i: usize = 0;
                while i < pages.len()
                    invariant
                        i <= pages@.len(),
                        self is Sparse,
                        self.spec_pages() == pages@,
                        forall|k: int| 0 <= k < i ==> (#[trigger] pages@[k]).bit_page != 0,
                    decreases pages@.len() - i,
                {
                    if pages[i].bit_page == 0 {
                        assert(pages@[i as int].bit_page == 0);
                        assert(!pages_wf(BitPageVecKind::SparseWithZeroesHole, pages@));
                        return false;
                    }
                    i = i + 1;
                }
                true
            },
        }
    }

    /// Appends the bytes of this bitmap, in the layout of a bitmap over a zero background.
    pub fn encode(&self, buf: &mut Vec<u8>)
        requires
            self.wf(),
        ensures
            final(buf)@ == old(buf)@ + bitmap_bytes(self.spec_kind(), self.spec_pages()),
    {
        match self {
            DbBitPageVec::AllZeroes => put_u8(buf, 0),
            DbBitPageVec::Sparse(pages) => {
                put_u8(buf, 1);
                encode_pages(pages, buf);
            },
        }
        proof {
            assert(old(buf)@.push(kind_tag(self.spec_kind())) == old(buf)@ + seq![kind_tag(self.spec_kind())]);
        }
    }

    /// Reads a stored bitmap from the start of `buf`; only the two zero-background encodings
    /// are accepted, and pages that read as zero are dropped.
    pub fn decode(buf: &[u8]) -> (r: Result<DbBitPageVec, DecodeError>)
        ensures
            if buf@.len() > 0 && (buf@[0] == 2 || buf@[0] == 3) {
                r == Err::<DbBitPageVec, DecodeError>(DecodeError::UnknownTag(buf@[0]))
            } else {
                match parse_bitmap(buf@) {
                    Err(e) => r == Err::<DbBitPageVec, DecodeError>(e),
                    Ok((_, pages)) => if sorted_pages(pages) {
                        &&& r is Ok
                        &&& r->Ok_0.wf()
                        &&& r->Ok_0.spec_pages() == drop_background(pages, 0)
                        &&& forall|p: int| r->Ok_0.page_word(p) == word_in(pages, 0, p)
                    } else {
                        r == Err::<DbBitPageVec, DecodeError>(DecodeError::Unsorted)
                    },
                }
            },
    {
        if buf.len() == 0 {
            return Err(DecodeError::Truncated);
        }
        let t = get_u8(buf, 0);
        if t == 0 {
            proof {
                let e = Seq::<BitPageWithPosition>::empty();
                assert(drop_background(e, 0) == e);
            }
            Ok(DbBitPageVec::AllZeroes)
        } else if t == 1 {
            if buf.len() < 9 {
                return Err(DecodeError::Truncated);
            }
            let n = get_u64(buf, 1);
            match decode_pages(buf, 9, n) {
                Ok((pages, _)) => {
                    if !is_sorted(&pages) {
                        return Err(DecodeError::Unsorted);
                    }
                    let kept = drop_background_pages(&pages, 0);
                    if kept.len() == 0 {
                        Ok(DbBitPageVec::AllZeroes)
                    } else {
                        Ok(DbBitPageVec::Sparse(kept))
                    }
                },
                Err(e) => Err(e),
            }
        } else {
            Err(DecodeError::UnknownTag(t))
        }
    }
}

impl BitPageVecIter {
    /// Unites a stored bitmap into the stream.
    pub fn add(self, db_value: DbBitPageVec) -> (r: BitPageVecIter)
        requires
            self.wf(),
            db_value.wf(),
        ensures
            r.wf(),
            r.last_bit_index == self.last_bit_index,
            forall|p: int| r.page_word(p) == self.page_word(p) | db_value.page_word(p),
    {
        let bit_page_vec = db_value.into_bit_page_vec(self.last_bit_index);
        BitPageVecIter::or(self, bit_page_vec.into_iter())
    }
}

impl BitPageVec {
    /// The union of this bitmap and a stored bitmap, in this bitmap's universe.
    pub fn add(self, db_value: DbBitPageVec) -> (r: BitPageVec)
        requires
            self.wf(),
            db_value.wf(),
        ensures
            r.wf(),
            r.last_bit_index == self.last_bit_index,
            forall|p: int|
                0 <= p <= self.last_bit_index.0 ==> r.page_word(p) == self.page_word(p) | db_value.page_word(p),
            added(r, self, db_value),
    {
        let ghost a = self;
        let ghost d = db_value;
        let bit_page_vec = db_value.into_bit_page_vec(self.last_bit_index);
        let first = self.into_iter();
        let second = bit_page_vec.into_iter();
        let ghost first_words = first;
        let ghost second_words = second;
        let s = BitPageVecIter::or(first, second);
        let ghost st = s;
        let r = s.into_bit_page_vec();
        proof {
            let bg = background(st.kind);
            assert forall|p: int| word_in(st.kept(), bg, p) == a.page_word(p) | d.page_word(p) by {
                assert(word_in(st.kept(), bg, p) == st.page_word(p));
                assert(st.page_word(p) == first_words.page_word(p) | second_words.page_word(p));
            }
            assert(compaction_of(r, bg, st.kept(), a.last_bit_index));
            assert(is_canonical(st.kept(), bg));
        }
        r
    }
}

/// `r` is what adding the stored bitmap `d` to `a` stores: the compaction, in `a`'s universe,
/// of the canonical list of the united words, over the background of the union's encoding.
pub open spec fn added(r: BitPageVec, a: BitPageVec, d: DbBitPageVec) -> bool {
    let bg = background(or_kind(a.kind, d.spec_kind()));
    exists|kept: Seq<BitPageWithPosition>|
        #[trigger] compaction_of(r, bg, kept, a.last_bit_index) && is_canonical(kept, bg) && forall|p: int|
            word_in(kept, bg, p) == a.page_word(p) | d.page_word(p)
}

} // verus!
