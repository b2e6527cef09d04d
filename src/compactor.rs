//! The compaction policy: the encoding that a page list is stored in after an operation.
use vstd::prelude::*;

use crate::bitmap::{background, BitPageVec, BitPageVecKind};
use crate::page::{popcount, set_positions, BitPage, BitPageWithPosition, ALL_ONES};
use crate::pages::{
    has_page, is_canonical, lemma_canonical_unique, lemma_insert_word, lemma_word_at, merge_pages,
    merged_word, sorted_pages, word_in, WordOp,
};

verus! {

/// Up to this many explicit pages a sparse list keeps its encoding.
pub const SMALL_THRESHOLD: usize = 10_000;

/// The entries of `s` whose word differs from `bg`, in order.
pub open spec fn drop_background(s: Seq<BitPageWithPosition>, bg: u64) -> Seq<BitPageWithPosition>
    decreases s.len(),
{
    if s.len() == 0 {
        s
    } else if s.last().bit_page != bg {
        drop_background(s.drop_last(), bg).push(s.last())
    } else {
        drop_background(s.drop_last(), bg)
    }
}

/// The number of set bits over all entries.
pub open spec fn ones_sum(s: Seq<BitPageWithPosition>) -> nat
    decreases s.len(),
{
    if s.len() == 0 {
        0
    } else {
        ones_sum(s.drop_last()) + popcount(s.last().bit_page)
    }
}

/// Whether a long, dense sparse list is rewritten to the opposite encoding: at least three
/// quarters of the pages between its first and last index are present and, for a zero
/// background, at least three quarters of their bits are set, or, for a one background, at
/// most a quarter.
pub open spec fn should_flip(zero_hole: bool, s: Seq<BitPageWithPosition>) -> bool {
    let span = s.last().page_idx - s[0].page_idx + 1;
    &&& s.len() > SMALL_THRESHOLD
    &&& 4 * s.len() >= 3 * span
    &&& if zero_hole {
        4 * ones_sum(s) >= 3 * 64 * span
    } else {
        4 * ones_sum(s) <= 64 * span
    }
}

/// The background that the compactor picks for a list kept over background `bg`.
pub open spec fn policy_background(s: Seq<BitPageWithPosition>, bg: u64) -> u64 {
    if s.len() > 0 && should_flip(bg == 0, s) {
        if bg == 0 {
            ALL_ONES
        } else {
            0
        }
    } else {
        bg
    }
}

/// The word of page `p` after compacting `kept` (held over background `bg`, with last page
/// `last_page`): the list decides it, except that when the policy flips the background, a
/// page outside `0 ..= last_page` without an entry reads as the new background.
pub open spec fn compacted_word(kept: Seq<BitPageWithPosition>, bg: u64, last_page: usize, flip: bool, p: int) -> u64 {
    if !flip || (0 <= p <= last_page) || has_page(kept, p) {
        word_in(kept, bg, p)
    } else {
        !bg
    }
}

/// `r` is what the compactor stores for the canonical list `kept` over background `bg` in
/// universe `last_bit_index`: the encoding the policy picks, the list itself when the policy
/// keeps the background, and in every case the word of every page.
pub open spec fn compaction_of(
    r: BitPageVec,
    bg: u64,
    kept: Seq<BitPageWithPosition>,
    last_bit_index: (usize, usize),
) -> bool {
    let flip = kept.len() > 0 && should_flip(bg == 0, kept);
    &&& r.wf()
    &&& r.last_bit_index == last_bit_index
    &&& background(r.kind) == policy_background(kept, bg)
    &&& !flip ==> r.pages@ == kept
    &&& forall|p: int| #[trigger] r.page_word(p) == compacted_word(kept, bg, last_bit_index.0, flip, p)
}

/// A valid bitmap's pages are canonical over its background.
pub proof fn lemma_wf_canonical(x: BitPageVec)
    requires
        x.wf(),
    ensures
        is_canonical(x.pages@, background(x.kind)),
{
}

/// Two valid bitmaps with the same background, bound and words are the same bitmap.
pub proof fn lemma_bitmap_unique(x: BitPageVec, y: BitPageVec)
    requires
        x.wf(),
        y.wf(),
        background(x.kind) == background(y.kind),
        x.last_bit_index == y.last_bit_index,
        forall|p: int| x.page_word(p) == y.page_word(p),
    ensures
        x.kind == y.kind,
        x.pages@ == y.pages@,
{
    let bg = background(x.kind);
    assert forall|p: int| word_in(x.pages@, bg, p) == word_in(y.pages@, bg, p) by {
        assert(x.page_word(p) == y.page_word(p));
    }
    lemma_canonical_unique(x.pages@, y.pages@, bg);
}

/// What the compactor stores for a list is unique.
pub proof fn lemma_compaction_unique(
    r1: BitPageVec,
    r2: BitPageVec,
    bg: u64,
    kept: Seq<BitPageWithPosition>,
    last_bit_index: (usize, usize),
)
    requires
        compaction_of(r1, bg, kept, last_bit_index),
        compaction_of(r2, bg, kept, last_bit_index),
    ensures
        r1.kind == r2.kind,
        r1.pages@ == r2.pages@,
        r1.last_bit_index == r2.last_bit_index,
{
    let flip = kept.len() > 0 && should_flip(bg == 0, kept);
    assert forall|p: int| r1.page_word(p) == r2.page_word(p) by {
        assert(r1.page_word(p) == compacted_word(kept, bg, last_bit_index.0, flip, p));
        assert(r2.page_word(p) == compacted_word(kept, bg, last_bit_index.0, flip, p));
    }
    lemma_bitmap_unique(r1, r2);
}

/// Dropping the background from a list without background entries keeps it.
pub proof fn lemma_drop_background_same(s: Seq<BitPageWithPosition>, bg: u64)
    requires
        forall|k: int| 0 <= k < s.len() ==> (#[trigger] s[k]).bit_page != bg,
    ensures
        drop_background(s, bg) == s,
    decreases s.len(),
{
    if s.len() > 0 {
        let t = s.drop_last();
        assert forall|k: int| 0 <= k < t.len() implies (#[trigger] t[k]).bit_page != bg by {
            assert(t[k] == s[k]);
        }
        lemma_drop_background_same(t, bg);
        assert(s.last() == s[s.len() - 1]);
        assert(t.push(s.last()) =~= s);
    }
}

proof fn lemma_popcount_le(w: u64, n: nat)
    ensures
        set_positions(w, n).len() <= n,
    decreases n,
{
    if n > 0 {
        lemma_popcount_le(w, (n - 1) as nat);
    }
}

/// The entries of a sorted list whose word differs from `bg`.
pub fn drop_background_pages(pages: &Vec<BitPageWithPosition>, bg: u64) -> (r: Vec<BitPageWithPosition>)
    requires
        sorted_pages(pages@),
    ensures
        r@ == drop_background(pages@, bg),
        sorted_pages(r@),
        forall|k: int| 0 <= k < r@.len() ==> (#[trigger] r@[k]).bit_page != bg,
        forall|p: int| word_in(r@, bg, p) == word_in(pages@, bg, p),
{
    let mut out: Vec<BitPageWithPosition> = Vec::new();
    let mut i: usize = 0;
    while i < pages.len()
        invariant
            i <= pages@.len(),
            sorted_pages(pages@),
            out@ == drop_background(pages@.take(i as int), bg),
            sorted_pages(out@),
            forall|k: int| 0 <= k < out@.len() ==> (#[trigger] out@[k]).bit_page != bg,
            forall|k: int| 0 <= k < out@.len() ==> exists|j: int| 0 <= j < i && pages@[j] == #[trigger] out@[k],
            forall|p: int| word_in(out@, bg, p) == word_in(pages@.take(i as int), bg, p),
        decreases pages@.len() - i,
    {
        let x = pages[i];
        let ghost t = pages@.take(i as int);
        proof {
            assert(pages@.take(i + 1).drop_last() == t);
            assert(pages@.take(i + 1) == t.insert(i as int, x));
            assert(sorted_pages(t));
            lemma_insert_word(t, bg, i as int, x);
        }
        if x.bit_page != bg {
            proof {
                assert forall|k: int| 0 <= k < out@.len() implies out@[k].page_idx < x.page_idx by {
                    let j = choose|j: int| 0 <= j < i && pages@[j] == out@[k];
                }
                lemma_insert_word(out@, bg, out@.len() as int, x);
                assert(out@.insert(out@.len() as int, x) == out@.push(x));
            }
            let ghost old_out = out@;
            out.push(x);
            proof {
                assert forall|k: int| 0 <= k < out@.len() implies exists|j: int| 0 <= j < i + 1 && pages@[j] == #[trigger] out@[k] by {
                    if k < old_out.len() {
                        let j = choose|j: int| 0 <= j < i && pages@[j] == old_out[k];
                    } else {
                        assert(pages@[i as int] == out@[k]);
                    }
                }
            }
        } else {
            proof {
                assert forall|p: int| word_in(out@, bg, p) == word_in(pages@.take(i + 1), bg, p) by {
                    if p == x.page_idx {
                        if has_page(out@, p) {
                            let k = choose|k: int| 0 <= k < out@.len() && out@[k].page_idx == p;
                            let j = choose|j: int| 0 <= j < i && pages@[j] == out@[k];
                        }
                    }
                }
            }
        }
        i = i + 1;
    }
    assert(pages@.take(i as int) == pages@);
    out
}

/// The list of every page `0 ..= last_page`, each holding `word`.
pub(crate) fn fill_pages(last_page: usize, word: u64) -> (r: Vec<BitPageWithPosition>)
    ensures
        sorted_pages(r@),
        forall|p: int| 0 <= p <= last_page ==> has_page(r@, p) && word_in(r@, 0, p) == word,
        forall|p: int| has_page(r@, p) ==> 0 <= p <= last_page,
{
    let mut out: Vec<BitPageWithPosition> = Vec::new();
    let mut p: usize = 0;
    loop
        invariant_except_break
            out@.len() == p,
        invariant
            p <= last_page,
            forall|k: int| 0 <= k < out@.len() ==> (#[trigger] out@[k]).page_idx == k && out@[k].bit_page == word,
        ensures
            out@.len() == last_page + 1,
        decreases last_page - p,
    {
        out.push(BitPageWithPosition { page_idx: p, bit_page: word });
        if p == last_page {
            break;
        }
        p = p + 1;
    }
    assert forall|p: int| 0 <= p <= last_page implies has_page(out@, p) && word_in(out@, 0, p) == word by {
        lemma_word_at(out@, 0, p);
    }
    assert forall|p: int| has_page(out@, p) implies 0 <= p <= last_page by {
        let k = choose|k: int| 0 <= k < out@.len() && out@[k].page_idx == p;
    }
    out
}

/// Stores a sorted list of nonzero pages over a zero background in the encoding that the
/// policy picks.
pub fn compact_sparse_with_zeroes_hole(pages: Vec<BitPageWithPosition>, last_bit_index: (usize, usize)) -> (r: BitPageVec)
    requires
        sorted_pages(pages@),
        forall|k: int| 0 <= k < pages@.len() ==> (#[trigger] pages@[k]).bit_page != 0,
        last_bit_index.1 <= 64,
    ensures
        r.wf(),
        r.last_bit_index == last_bit_index,
        forall|p: int| 0 <= p <= last_bit_index.0 ==> r.page_word(p) == word_in(pages@, 0, p),
        background(r.kind) == policy_background(pages@, 0),
        background(r.kind) == 0 ==> r.pages@ == pages@,
        compaction_of(r, 0, pages@, last_bit_index),
{
    if pages.len() == 0 {
        let r = BitPageVec::all_zeros(last_bit_index);
        assert forall|p: int| #[trigger] r.page_word(p) == compacted_word(pages@, 0, last_bit_index.0, false, p) by {
            assert(!has_page(pages@, p));
        }
        return r;
    }
    if pages.len() <= SMALL_THRESHOLD || !flip_wanted(true, &pages) {
        assert(!should_flip(true, pages@));
        let r = BitPageVec::new(BitPageVecKind::SparseWithZeroesHole, Some(pages), last_bit_index);
        assert forall|p: int| #[trigger] r.page_word(p) == compacted_word(r.pages@, 0, last_bit_index.0, false, p) by {
        }
        return r;
    }
    let full = fill_pages(last_bit_index.0, 0);
    let flipped = merge_pages(&full, 0, &pages, 0, WordOp::Or, ALL_ONES);
    proof {
        assert forall|p: int| 0 <= p <= last_bit_index.0 implies word_in(flipped@, ALL_ONES, p) == word_in(pages@, 0, p) by {
            assert(merged_word(full@, 0, pages@, 0, WordOp::Or, ALL_ONES, p) == word_in(flipped@, ALL_ONES, p));
            let w = word_in(pages@, 0, p);
            assert(0u64 | w == w) by (bit_vector);
        }
        assert forall|p: int| word_in(flipped@, ALL_ONES, p) == compacted_word(pages@, 0, last_bit_index.0, true, p) by {
            assert(merged_word(full@, 0, pages@, 0, WordOp::Or, ALL_ONES, p) == word_in(flipped@, ALL_ONES, p));
            let w = word_in(pages@, 0, p);
            assert(0u64 | w == w && !0u64 == ALL_ONES) by (bit_vector);
        }
    }
    assert(should_flip(true, pages@));
    let r = if flipped.len() == 0 {
        BitPageVec::all_ones(last_bit_index)
    } else {
        BitPageVec::new(BitPageVecKind::SparseWithOnesHole, Some(flipped), last_bit_index)
    };
    assert forall|p: int| #[trigger] r.page_word(p) == compacted_word(pages@, 0, last_bit_index.0, true, p) by {
        assert(word_in(flipped@, ALL_ONES, p) == compacted_word(pages@, 0, last_bit_index.0, true, p));
        if flipped@.len() == 0 {
            assert(!has_page(flipped@, p));
        }
    }
    r
}

/// Stores a sorted list of pages that are not all ones over a one background in the encoding
/// that the policy picks.
pub fn compact_sparse_with_ones_hole(pages: Vec<BitPageWithPosition>, last_bit_index: (usize, usize)) -> (r: BitPageVec)
    requires
        sorted_pages(pages@),
        forall|k: int| 0 <= k < pages@.len() ==> (#[trigger] pages@[k]).bit_page != ALL_ONES,
        last_bit_index.1 <= 64,
    ensures
        r.wf(),
        r.last_bit_index == last_bit_index,
        forall|p: int| 0 <= p <= last_bit_index.0 ==> r.page_word(p) == word_in(pages@, ALL_ONES, p),
        background(r.kind) == policy_background(pages@, ALL_ONES),
        background(r.kind) == ALL_ONES ==> r.pages@ == pages@,
        compaction_of(r, ALL_ONES, pages@, last_bit_index),
{
    if pages.len() == 0 {
        let r = BitPageVec::all_ones(last_bit_index);
        assert forall|p: int| #[trigger] r.page_word(p) == compacted_word(pages@, ALL_ONES, last_bit_index.0, false, p) by {
            assert(!has_page(pages@, p));
        }
        return r;
    }
    if pages.len() <= SMALL_THRESHOLD || !flip_wanted(false, &pages) {
        assert(!should_flip(false, pages@));
        let r = BitPageVec::new(BitPageVecKind::SparseWithOnesHole, Some(pages), last_bit_index);
        assert forall|p: int| #[trigger] r.page_word(p) == compacted_word(r.pages@, ALL_ONES, last_bit_index.0, false, p) by {
        }
        return r;
    }
    let full = fill_pages(last_bit_index.0, ALL_ONES);
    let flipped = merge_pages(&full, ALL_ONES, &pages, ALL_ONES, WordOp::And, 0);
    proof {
        assert forall|p: int| 0 <= p <= last_bit_index.0 implies word_in(flipped@, 0, p) == word_in(pages@, ALL_ONES, p) by {
            assert(merged_word(full@, ALL_ONES, pages@, ALL_ONES, WordOp::And, 0, p) == word_in(flipped@, 0, p));
            let w = word_in(pages@, ALL_ONES, p);
            assert(word_in(full@, ALL_ONES, p) == word_in(full@, 0, p));
            assert(ALL_ONES & w == w) by (bit_vector);
        }
        assert forall|p: int| word_in(flipped@, 0, p) == compacted_word(pages@, ALL_ONES, last_bit_index.0, true, p) by {
            assert(merged_word(full@, ALL_ONES, pages@, ALL_ONES, WordOp::And, 0, p) == word_in(flipped@, 0, p));
            let w = word_in(pages@, ALL_ONES, p);
            if has_page(full@, p) {
                assert(word_in(full@, ALL_ONES, p) == word_in(full@, 0, p));
            }
            assert(ALL_ONES & w == w && !ALL_ONES == 0u64) by (bit_vector);
        }
    }
    assert(should_flip(false, pages@));
    let r = if flipped.len() == 0 {
        BitPageVec::all_zeros(last_bit_index)
    } else {
        BitPageVec::new(BitPageVecKind::SparseWithZeroesHole, Some(flipped), last_bit_index)
    };
    assert forall|p: int| #[trigger] r.page_word(p) == compacted_word(pages@, ALL_ONES, last_bit_index.0, true, p) by {
        assert(word_in(flipped@, 0, p) == compacted_word(pages@, ALL_ONES, last_bit_index.0, true, p));
        if flipped@.len() == 0 {
            assert(!has_page(flipped@, p));
        }
    }
    r
}

impl BitPageVec {
    /// The number of set bits over all the pages of a list.
    pub fn count_ones(pages: &Vec<BitPageWithPosition>) -> (r: u128)
        ensures
            r == ones_sum(pages@),
    {
        let mut sum: u128 = 0;
        let mut i: usize = 0;
        while i < pages.len()
            invariant
                i <= pages@.len(),
                sum == ones_sum(pages@.take(i as int)),
                sum <= 64 * i,
            decreases pages@.len() - i,
        {
            proof {
                lemma_popcount_le(pages@[i as int].bit_page, 64);
                assert(pages@.take(i + 1).drop_last() == pages@.take(i as int));
            }
            let c = BitPage::count_ones(&pages[i].bit_page);
            sum = sum + c as u128;
            i = i + 1;
        }
        assert(pages@.take(i as int) == pages@);
        sum
    }

    /// The index of the first page, if any.
    pub fn start_page(pages: &Vec<BitPageWithPosition>) -> (r: Option<usize>)
        ensures
            r == if pages@.len() > 0 { Some(pages@[0].page_idx) } else { None::<usize> },
    {
        if pages.len() > 0 {
            Some(pages[0].page_idx)
        } else {
            None
        }
    }

    /// The index of the last page, if any.
    pub fn end_page(pages: &Vec<BitPageWithPosition>) -> (r: Option<usize>)
        ensures
            r == if pages@.len() > 0 { Some(pages@.last().page_idx) } else { None::<usize> },
    {
        if pages.len() > 0 {
            Some(pages[pages.len() - 1].page_idx)
        } else {
            None
        }
    }
}

/// Whether a nonempty list longer than the small threshold is dense and full (zero background)
/// or dense and empty (one background) enough to be rewritten.
fn flip_wanted(zero_hole: bool, pages: &Vec<BitPageWithPosition>) -> (r: bool)
    requires
        pages@.len() > SMALL_THRESHOLD,
        sorted_pages(pages@),
    ensures
        r == should_flip(zero_hole, pages@),
{
    let start_page = pages[0].page_idx;
    let end_page = pages[pages.len() - 1].page_idx;
    let span = (end_page - start_page) as u128 + 1;
    let actual_length = pages.len() as u128;
    let ones = BitPageVec::count_ones(pages);
    proof {
        lemma_ones_sum_le(pages@);
    }
    let dense = 4 * actual_length >= 3 * span;
    if zero_hole {
        dense && 4 * ones >= 192 * span
    } else {
        dense && 4 * ones <= 64 * span
    }
}

proof fn lemma_ones_sum_le(s: Seq<BitPageWithPosition>)
    ensures
        ones_sum(s) <= 64 * s.len(),
    decreases s.len(),
{
    if s.len() > 0 {
        lemma_ones_sum_le(s.drop_last());
        lemma_popcount_le(s.last().bit_page, 64);
    }
}

} // verus!
