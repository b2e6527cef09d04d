//! Algebraic laws of bitmaps, stated over their models.
use vstd::prelude::*;

use crate::bitmap::{and_model, background, clear_model, clears_bit, sets_bit, min_bound, not_model, or_model, set_model, BitPageVec};
use crate::codec::{
    bitmap_bytes, decoded_from, lemma_parse_bitmap, lemma_parse_bitmap_of, parse_bitmap, DecodeError,
};
use crate::compactor::drop_background;
use crate::db::DbBitPageVec;
use crate::page::{bit_mask, BitPageWithPosition};
use crate::bitmap::BitPageVecKind;
use crate::active_bits::{bits_in_universe, count_model, lemma_range_bits, universe_bits, universe_word};
use crate::page::{bit_at, low_mask};
use crate::compactor::{
    compacted_word, compaction_of, lemma_bitmap_unique, lemma_compaction_unique, lemma_drop_background_same,
    should_flip,
};
use crate::pages::{apply_op, is_canonical, lemma_canonical_unique, word_in, WordOp};
use crate::stream::{combined, op_kind};

verus! {

/// Setting a bit after clearing it gives the bitmap with that bit set.
pub proof fn set_after_clear(b: BitPageVec, page_idx: usize, bit_idx: usize)
    requires
        bit_idx < 64,
    ensures
        set_model(clear_model(b@, page_idx as int, bit_idx as u64), page_idx as int, bit_idx as u64)
            == set_model(b@, page_idx as int, bit_idx as u64),
{
    let m = b@;
    let p = page_idx as int;
    let x = bit_idx as u64;
    if 0 <= p < m.words.len() {
        let w = m.words[p];
        assert((w & !bit_mask(x)) | bit_mask(x) == w | bit_mask(x)) by (bit_vector);
        assert(set_model(clear_model(m, p, x), p, x).words =~= set_model(m, p, x).words);
    }
}

/// Clearing a bit after setting it gives the bitmap with that bit clear.
pub proof fn clear_after_set(b: BitPageVec, page_idx: usize, bit_idx: usize)
    requires
        bit_idx < 64,
    ensures
        clear_model(set_model(b@, page_idx as int, bit_idx as u64), page_idx as int, bit_idx as u64)
            == clear_model(b@, page_idx as int, bit_idx as u64),
{
    let m = b@;
    let p = page_idx as int;
    let x = bit_idx as u64;
    if 0 <= p < m.words.len() {
        let w = m.words[p];
        assert((w | bit_mask(x)) & !bit_mask(x) == w & !bit_mask(x)) by (bit_vector);
        assert(clear_model(set_model(m, p, x), p, x).words =~= clear_model(m, p, x).words);
    }
}

/// Setting a bit twice is setting it once.
pub proof fn set_idempotent(b: BitPageVec, page_idx: usize, bit_idx: usize)
    requires
        bit_idx < 64,
    ensures
        set_model(set_model(b@, page_idx as int, bit_idx as u64), page_idx as int, bit_idx as u64)
            == set_model(b@, page_idx as int, bit_idx as u64),
{
    let m = b@;
    let p = page_idx as int;
    let x = bit_idx as u64;
    if 0 <= p < m.words.len() {
        let w = m.words[p];
        assert((w | bit_mask(x)) | bit_mask(x) == w | bit_mask(x)) by (bit_vector);
        assert(set_model(set_model(m, p, x), p, x).words =~= set_model(m, p, x).words);
    }
}

/// Clearing a bit twice is clearing it once.
pub proof fn clear_idempotent(b: BitPageVec, page_idx: usize, bit_idx: usize)
    requires
        bit_idx < 64,
    ensures
        clear_model(clear_model(b@, page_idx as int, bit_idx as u64), page_idx as int, bit_idx as u64)
            == clear_model(b@, page_idx as int, bit_idx as u64),
{
    let m = b@;
    let p = page_idx as int;
    let x = bit_idx as u64;
    if 0 <= p < m.words.len() {
        let w = m.words[p];
        assert((w & !bit_mask(x)) & !bit_mask(x) == w & !bit_mask(x)) by (bit_vector);
        assert(clear_model(clear_model(m, p, x), p, x).words =~= clear_model(m, p, x).words);
    }
}

/// The complement of an intersection is the union of the complements.
pub proof fn de_morgan(b1: BitPageVec, b2: BitPageVec)
    ensures
        not_model(and_model(b1@, b2@)) == or_model(not_model(b1@), not_model(b2@)),
{
    let l = not_model(and_model(b1@, b2@));
    let r = or_model(not_model(b1@), not_model(b2@));
    assert forall|p: int| 0 <= p < l.words.len() implies l.words[p] == r.words[p] by {
        let x = b1@.words[p];
        let y = b2@.words[p];
        assert(!(x & y) == !x | !y) by (bit_vector);
    }
    assert(l.words =~= r.words);
}

/// Intersection commutes.
pub proof fn and_commutative(b1: BitPageVec, b2: BitPageVec)
    ensures
        and_model(b1@, b2@) == and_model(b2@, b1@),
{
    let l = and_model(b1@, b2@);
    let r = and_model(b2@, b1@);
    assert forall|p: int| 0 <= p < l.words.len() implies l.words[p] == r.words[p] by {
        let x = b1@.words[p];
        let y = b2@.words[p];
        assert(x & y == y & x) by (bit_vector);
    }
    assert(l.words =~= r.words);
}

/// Union commutes.
pub proof fn or_commutative(b1: BitPageVec, b2: BitPageVec)
    ensures
        or_model(b1@, b2@) == or_model(b2@, b1@),
{
    let l = or_model(b1@, b2@);
    let r = or_model(b2@, b1@);
    assert forall|p: int| 0 <= p < l.words.len() implies l.words[p] == r.words[p] by {
        let x = b1@.words[p];
        let y = b2@.words[p];
        assert(x | y == y | x) by (bit_vector);
    }
    assert(l.words =~= r.words);
}

/// Intersection associates.
pub proof fn and_associative(b1: BitPageVec, b2: BitPageVec, b3: BitPageVec)
    ensures
        and_model(and_model(b1@, b2@), b3@) == and_model(b1@, and_model(b2@, b3@)),
{
    let l = and_model(and_model(b1@, b2@), b3@);
    let r = and_model(b1@, and_model(b2@, b3@));
    assert(min_bound(min_bound(b1.last_bit_index, b2.last_bit_index), b3.last_bit_index) == min_bound(
        b1.last_bit_index,
        min_bound(b2.last_bit_index, b3.last_bit_index),
    ));
    assert forall|p: int| 0 <= p < l.words.len() implies l.words[p] == r.words[p] by {
        let x = b1@.words[p];
        let y = b2@.words[p];
        let z = b3@.words[p];
        assert((x & y) & z == x & (y & z)) by (bit_vector);
    }
    assert(l.words =~= r.words);
}

/// Union associates.
pub proof fn or_associative(b1: BitPageVec, b2: BitPageVec, b3: BitPageVec)
    ensures
        or_model(or_model(b1@, b2@), b3@) == or_model(b1@, or_model(b2@, b3@)),
{
    let l = or_model(or_model(b1@, b2@), b3@);
    let r = or_model(b1@, or_model(b2@, b3@));
    assert(min_bound(min_bound(b1.last_bit_index, b2.last_bit_index), b3.last_bit_index) == min_bound(
        b1.last_bit_index,
        min_bound(b2.last_bit_index, b3.last_bit_index),
    ));
    assert forall|p: int| 0 <= p < l.words.len() implies l.words[p] == r.words[p] by {
        let x = b1@.words[p];
        let y = b2@.words[p];
        let z = b3@.words[p];
        assert((x | y) | z == x | (y | z)) by (bit_vector);
    }
    assert(l.words =~= r.words);
}

/// Complementing twice gives the bitmap back.
pub proof fn not_involution(b: BitPageVec)
    ensures
        not_model(not_model(b@)) == b@,
{
    let l = not_model(not_model(b@));
    assert forall|p: int| 0 <= p < l.words.len() implies l.words[p] == b@.words[p] by {
        let x = b@.words[p];
        assert(!!x == x) by (bit_vector);
    }
    assert(l.words =~= b@.words);
}

/// The bytes of a bitmap read back as its encoding and pages, and decoding them under the
/// bitmap's own universe gives a bitmap with the same model; when the bitmap is already in the
/// form the compactor keeps, decoding gives back its very encoding and pages.
pub proof fn codec_round_trip(b: BitPageVec, r: BitPageVec)
    requires
        b.wf(),
        b.pages@.len() <= u64::MAX,
    ensures
        parse_bitmap(bitmap_bytes(b.kind, b.pages@)) == Ok::<(BitPageVecKind, Seq<BitPageWithPosition>), DecodeError>(
            (b.kind, b.pages@),
        ),
        decoded_from(r, b.kind, b.pages@, b.last_bit_index) ==> r@ == b@,
        decoded_from(r, b.kind, b.pages@, b.last_bit_index) && !(b.pages@.len() > 0 && should_flip(
            background(b.kind) == 0,
            b.pages@,
        )) ==> r.kind == b.kind && r.pages@ == b.pages@,
{
    lemma_parse_bitmap(b);
    if decoded_from(r, b.kind, b.pages@, b.last_bit_index) {
        assert(r@.words =~= b@.words);
        if !(b.pages@.len() > 0 && should_flip(background(b.kind) == 0, b.pages@)) {
            lemma_drop_background_same(b.pages@, background(b.kind));
            assert forall|p: int| r.page_word(p) == b.page_word(p) by {
                assert(r.page_word(p) == compacted_word(b.pages@, background(b.kind), b.last_bit_index.0, false, p));
            }
            lemma_bitmap_unique(r, b);
        }
    }
}

/// The number of set bits within the universe is the size of the set of bits that are set
/// and lie within the universe; the ascending enumeration lists each of them once.
pub proof fn popcount_agreement(b: BitPageVec)
    requires
        b.wf(),
    ensures
        bits_in_universe(b@).len() == count_model(b@),
        universe_bits(b@).to_set() == bits_in_universe(b@),
        universe_bits(b@).len() == count_model(b@),
        universe_bits(b@).no_duplicates(),
{
    let m = b@;
    let n = (m.last_bit_index.0 + 1) as nat;
    lemma_range_bits(m, n);
    let s = universe_bits(m);
    assert forall|x: (usize, usize)| s.to_set().contains(x) <==> bits_in_universe(m).contains(x) by {
        if x.0 == m.last_bit_index.0 && x.1 < 64 {
            let w = m.words[x.0 as int];
            let c = x.1 as u64;
            let lb = m.last_bit_index.1 as u64;
            assert(bit_at(w & low_mask(lb), c) == (c < lb && bit_at(w, c))) by (bit_vector)
                requires
                    c < 64,
                    lb <= 64,
                    low_mask(lb) == if lb >= 64 { 0xffff_ffff_ffff_ffffu64 } else { ((1u64 << lb) - 1) as u64 },
            ;
            assert(universe_word(m, x.0 as int) == w & low_mask(lb));
        }
    }
    assert(s.to_set() =~= bits_in_universe(m));
    s.unique_seq_to_set();
}

/// Combining in either order stores the same bitmap: `op` commutes on words, its result
/// encoding is symmetric, and the compactor is a function of the list it receives.
proof fn lemma_combined_commutes(a: BitPageVec, b: BitPageVec, r1: BitPageVec, r2: BitPageVec, op: WordOp)
    requires
        combined(r1, a, b, op),
        combined(r2, b, a, op),
    ensures
        r1.kind == r2.kind,
        r1.pages@ == r2.pages@,
        r1.last_bit_index == r2.last_bit_index,
{
    assert(op_kind(op, a.kind, b.kind) == op_kind(op, b.kind, a.kind));
    let bg = background(op_kind(op, a.kind, b.kind));
    let bound = min_bound(a.last_bit_index, b.last_bit_index);
    assert(bound == min_bound(b.last_bit_index, a.last_bit_index));
    let k1 = choose|kept: Seq<BitPageWithPosition>|
        #[trigger] compaction_of(r1, bg, kept, bound) && is_canonical(kept, bg) && forall|p: int|
            word_in(kept, bg, p) == apply_op(op, a.page_word(p), b.page_word(p));
    let k2 = choose|kept: Seq<BitPageWithPosition>|
        #[trigger] compaction_of(r2, bg, kept, bound) && is_canonical(kept, bg) && forall|p: int|
            word_in(kept, bg, p) == apply_op(op, b.page_word(p), a.page_word(p));
    assert forall|p: int| word_in(k1, bg, p) == word_in(k2, bg, p) by {
        let x = a.page_word(p);
        let y = b.page_word(p);
        assert(x & y == y & x && x | y == y | x) by (bit_vector);
    }
    lemma_canonical_unique(k1, k2, bg);
    lemma_compaction_unique(r1, r2, bg, k1, bound);
}

/// Intersecting `b1` with `b2` or `b2` with `b1` stores the same encoding, pages and bound.
pub proof fn and_same_both_orders(b1: BitPageVec, b2: BitPageVec, r1: BitPageVec, r2: BitPageVec)
    requires
        combined(r1, b1, b2, WordOp::And),
        combined(r2, b2, b1, WordOp::And),
    ensures
        r1.kind == r2.kind,
        r1.pages@ == r2.pages@,
        r1.last_bit_index == r2.last_bit_index,
{
    lemma_combined_commutes(b1, b2, r1, r2, WordOp::And);
}

/// Uniting `b1` with `b2` or `b2` with `b1` stores the same encoding, pages and bound.
pub proof fn or_same_both_orders(b1: BitPageVec, b2: BitPageVec, r1: BitPageVec, r2: BitPageVec)
    requires
        combined(r1, b1, b2, WordOp::Or),
        combined(r2, b2, b1, WordOp::Or),
    ensures
        r1.kind == r2.kind,
        r1.pages@ == r2.pages@,
        r1.last_bit_index == r2.last_bit_index,
{
    lemma_combined_commutes(b1, b2, r1, r2, WordOp::Or);
}

/// Setting a bit a second time stores exactly the bitmap that the first set stored.
pub proof fn set_twice_same(b: BitPageVec, r1: BitPageVec, r2: BitPageVec, page_idx: usize, bit_idx: usize)
    requires
        bit_idx < 64,
        sets_bit(r1, b, page_idx as int, bit_idx as u64),
        sets_bit(r2, r1, page_idx as int, bit_idx as u64),
    ensures
        r2.kind == r1.kind,
        r2.pages@ == r1.pages@,
        r2.last_bit_index == r1.last_bit_index,
{
    let m = bit_mask(bit_idx as u64);
    assert forall|q: int| r2.page_word(q) == r1.page_word(q) by {
        if q == page_idx {
            assert(r1.page_word(q) == b.page_word(q) | m);
            let v = b.page_word(q);
            assert((v | m) | m == v | m) by (bit_vector);
        }
    }
    lemma_bitmap_unique(r2, r1);
}

/// Clearing a bit a second time stores exactly the bitmap that the first clear stored.
pub proof fn clear_twice_same(b: BitPageVec, r1: BitPageVec, r2: BitPageVec, page_idx: usize, bit_idx: usize)
    requires
        bit_idx < 64,
        clears_bit(r1, b, page_idx as int, bit_idx as u64),
        clears_bit(r2, r1, page_idx as int, bit_idx as u64),
    ensures
        r2.kind == r1.kind,
        r2.pages@ == r1.pages@,
        r2.last_bit_index == r1.last_bit_index,
{
    let m = bit_mask(bit_idx as u64);
    assert forall|q: int| r2.page_word(q) == r1.page_word(q) by {
        if q == page_idx {
            assert(r1.page_word(q) == b.page_word(q) & !m);
            let v = b.page_word(q);
            assert((v & !m) & !m == v & !m) by (bit_vector);
        }
    }
    lemma_bitmap_unique(r2, r1);
}

/// The bytes of a stored bitmap read back as its encoding and pages, and decoding them gives a
/// stored bitmap with the same pages and the same variant.
pub proof fn stored_codec_round_trip(d: DbBitPageVec, r: DbBitPageVec)
    requires
        d.wf(),
        d.spec_pages().len() <= u64::MAX,
    ensures
        parse_bitmap(bitmap_bytes(d.spec_kind(), d.spec_pages())) == Ok::<(BitPageVecKind, Seq<BitPageWithPosition>), DecodeError>(
            (d.spec_kind(), d.spec_pages()),
        ),
        r.wf() && r.spec_pages() == drop_background(d.spec_pages(), 0) ==> r.spec_pages() == d.spec_pages() && (r is AllZeroes
            <==> d is AllZeroes),
{
    lemma_parse_bitmap_of(d.spec_kind(), d.spec_pages());
    lemma_drop_background_same(d.spec_pages(), 0);
}

} // verus!
