//! Enumeration and counting of set bits, for a page and for a bitmap within its universe.
use vstd::prelude::*;

use crate::bitmap::{background, BitPageVec, BitPageVecKind, BitmapModel};
use crate::page::{bit_at, low_mask, popcount, prefix_mask, set_positions, BitPage, ALL_ONES};
use crate::compactor::fill_pages;
use crate::pages::{
    has_joined, has_page, joined_from, joined_idx, lemma_joined_value, lemma_merge_join, lemma_word_at,
    merge_join, merge_join_pages, sorted_pages, word_in, Joined, WordOp,
};

verus! {

/// Bit `b` of `w` is bit `b - s` of the byte that starts at bit `s`.
proof fn lemma_byte_bit(w: u64, i: u64, j: u64)
    requires
        i < 8,
        j < 8,
    ensures
        bit_at(((w >> ((8 * i) as u64)) as u8) as u64, j) == bit_at(w, (8 * i + j) as u64),
{
    let s = (8 * i) as u64;
    let t = (8 * i + j) as u64;
    assert((((w >> s) as u8) as u64) & (1u64 << j) != 0 <==> w & (1u64 << t) != 0)
        by (bit_vector)
        requires
            i < 8,
            j < 8,
            s == 8 * i,
            t == 8 * i + j,
    ;
}

proof fn lemma_byte_positions(w: u64, i: u64, j: nat)
    requires
        i < 8,
        j <= 8,
    ensures
        set_positions(w, (8 * i + j) as nat) == set_positions(w, (8 * i) as nat) + set_positions(
            ((w >> ((8 * i) as u64)) as u8) as u64,
            j,
        ).map_values(|b: usize| (8 * i + b) as usize),
    decreases j,
{
    let byte = ((w >> ((8 * i) as u64)) as u8) as u64;
    if j == 0 {
        assert(set_positions(byte, 0).map_values(|b: usize| (8 * i + b) as usize) =~= Seq::<usize>::empty());
        assert(set_positions(w, (8 * i) as nat) + Seq::<usize>::empty() =~= set_positions(w, (8 * i) as nat));
    } else {
        lemma_byte_positions(w, i, (j - 1) as nat);
        lemma_byte_bit(w, i, (j - 1) as u64);
        let f = |b: usize| (8 * i + b) as usize;
        assert(set_positions(byte, j).map_values(f) =~= if bit_at(byte, (j - 1) as u64) {
            set_positions(byte, (j - 1) as nat).map_values(f).push((8 * i + j - 1) as usize)
        } else {
            set_positions(byte, (j - 1) as nat).map_values(f)
        });
        assert((8 * i + j - 1) as nat == (8 * i + j) as nat - 1);
    }
}

/// The positions below `n` of the set bits of `w` ascend, stay below `n`, and are exactly
/// the set bits below `n`.
pub proof fn lemma_positions_facts(w: u64, n: nat)
    requires
        n <= 64,
    ensures
        forall|m: int| 0 <= m < set_positions(w, n).len() ==> set_positions(w, n)[m] < n,
        forall|a: int, b: int| 0 <= a < b < set_positions(w, n).len() ==> set_positions(w, n)[a] < set_positions(w, n)[b],
        forall|b: usize| set_positions(w, n).contains(b) <==> b < n && bit_at(w, b as u64),
    decreases n,
{
    if n > 0 {
        lemma_positions_facts(w, (n - 1) as nat);
        let s = set_positions(w, (n - 1) as nat);
        if bit_at(w, (n - 1) as u64) {
            let t = set_positions(w, n);
            assert(t == s.push((n - 1) as usize));
            assert(t[s.len() as int] == n - 1);
            assert forall|a: int, b: int| 0 <= a < b < t.len() implies t[a] < t[b] by {
                if b == s.len() {
                    assert(t[a] == s[a]);
                }
            }
            assert forall|b: usize| set_positions(w, n).contains(b) <==> b < n && bit_at(w, b as u64) by {
                if b == n - 1 {
                    assert(t[s.len() as int] == b);
                }
                if b < n && bit_at(w, b as u64) && b != n - 1 {
                    assert(s.contains(b));
                    let k = choose|k: int| 0 <= k < s.len() && s[k] == b;
                    assert(set_positions(w, n)[k] == b);
                }
                if set_positions(w, n).contains(b) {
                    let k = choose|k: int| 0 <= k < set_positions(w, n).len() && set_positions(w, n)[k] == b;
                    if k < s.len() {
                        assert(s.contains(b));
                    }
                }
            }
        }
    }
}

/// The positions of the set bits of a byte, ascending.
fn build_active_bits(bit: u8) -> (r: Vec<usize>)
    ensures
        r@ == set_positions(bit as u64, 8),
{
    let mut bits: Vec<usize> = Vec::new();
    let mut index: usize = 0;
    while index < 8
        invariant
            index <= 8,
            bits@ == set_positions(bit as u64, index as nat),
        decreases 8 - index,
    {
        let v = bit as u64;
        let s = index as u64;
        let set = v & (1u64 << s) != 0;
        if set {
            bits.push(index);
        }
        index = index + 1;
    }
    bits
}

proof fn lemma_positions_zero(n: nat)
    ensures
        set_positions(0, n) == Seq::<usize>::empty(),
    decreases n,
{
    if n > 0 {
        lemma_positions_zero((n - 1) as nat);
        let b = (n - 1) as u64;
        assert(!bit_at(0, b)) by (bit_vector);
    }
}

/// Masking a word to its bits below `k` keeps at most `k` set bits.
proof fn lemma_popcount_masked(w: u64, k: u64, n: nat)
    requires
        k <= 64,
        n <= 64,
    ensures
        set_positions(w & low_mask(k), n).len() <= k,
        set_positions(w, n).len() <= n,
    decreases n,
{
    if n > 0 {
        lemma_popcount_masked(w, k, (n - 1) as nat);
        let b = (n - 1) as u64;
        assert(bit_at(w & low_mask(k), b) ==> b < k) by (bit_vector)
            requires
                b < 64,
                k <= 64,
                low_mask(k) == if k >= 64 { 0xffff_ffff_ffff_ffffu64 } else { ((1u64 << k) - 1) as u64 },
        ;
        if bit_at(w & low_mask(k), b) {
            assert(set_positions(w & low_mask(k), (n - 1) as nat).len() <= b) by {
                lemma_popcount_masked(w, b, (n - 1) as nat);
                lemma_masked_same(w, k, b, (n - 1) as nat);
            }
        }
    }
}

/// Below `n <= j <= k`, masking to the bits below `k` or below `j` keeps the same positions.
proof fn lemma_masked_same(w: u64, k: u64, j: u64, n: nat)
    requires
        k <= 64,
        j <= k,
        n <= j,
    ensures
        set_positions(w & low_mask(k), n) == set_positions(w & low_mask(j), n),
    decreases n,
{
    if n > 0 {
        lemma_masked_same(w, k, j, (n - 1) as nat);
        let b = (n - 1) as u64;
        assert(bit_at(w & low_mask(k), b) == bit_at(w & low_mask(j), b)) by (bit_vector)
            requires
                b < j,
                j <= k,
                k <= 64,
                low_mask(k) == if k >= 64 { 0xffff_ffff_ffff_ffffu64 } else { ((1u64 << k) - 1) as u64 },
                low_mask(j) == if j >= 64 { 0xffff_ffff_ffff_ffffu64 } else { ((1u64 << j) - 1) as u64 },
        ;
    }
}

impl BitPage {
    /// The positions of the set bits of `value`, ascending, read byte by byte.
    pub fn active_bits(value: u64) -> (r: Vec<usize>)
        ensures
            r@ == set_positions(value, 64),
    {
        let mut out: Vec<usize> = Vec::new();
        if value == 0 {
            proof {
                lemma_positions_zero(64);
            }
            return out;
        }
        let mut i: usize = 0;
        while i < 8
            invariant
                i <= 8,
                out@ == set_positions(value, (8 * i) as nat),
            decreases 8 - i,
        {
            let byte = (value >> (8 * i as u64)) as u8;
            let bits = build_active_bits(byte);
            proof {
                lemma_byte_positions(value, i as u64, 8);
            }
            let ghost start = out@;
            proof {
                lemma_positions_facts(byte as u64, 8);
            }
            let mut k: usize = 0;
            while k < bits.len()
                invariant
                    i < 8,
                    k <= bits@.len(),
                    bits@ == set_positions(byte as u64, 8),
                    forall|m: int| 0 <= m < bits@.len() ==> bits@[m] < 8,
                    out@.len() == start.len() + k,
                    forall|m: int| 0 <= m < start.len() ==> out@[m] == start[m],
                    forall|m: int| 0 <= m < k ==> out@[start.len() + m] == 8 * i + bits@[m],
                decreases bits@.len() - k,
            {
                out.push(8 * i + bits[k]);
                k = k + 1;
            }
            assert(out@ =~= start + set_positions(byte as u64, 8).map_values(|b: usize| (8 * i + b) as usize));
            i = i + 1;
        }
        out
    }
}

/// The word of page `p` within the universe: the last page keeps only its bits below the
/// last bit.
pub open spec fn universe_word(m: BitmapModel, p: int) -> u64 {
    if p == m.last_bit_index.0 {
        m.words[p] & low_mask(m.last_bit_index.1 as u64)
    } else {
        m.words[p]
    }
}

/// The number of set bits within the universe on pages below `n`.
pub open spec fn range_count(m: BitmapModel, n: nat) -> nat
    decreases n,
{
    if n == 0 {
        0
    } else {
        range_count(m, (n - 1) as nat) + popcount(universe_word(m, n - 1))
    }
}

/// The number of set bits within the universe.
pub open spec fn count_model(m: BitmapModel) -> nat {
    range_count(m, (m.last_bit_index.0 + 1) as nat)
}

/// The set bits within the universe on pages below `n`, as `(page, bit)` in ascending order.
pub open spec fn range_bits(m: BitmapModel, n: nat) -> Seq<(usize, usize)>
    decreases n,
{
    if n == 0 {
        Seq::empty()
    } else {
        range_bits(m, (n - 1) as nat) + set_positions(universe_word(m, n - 1), 64).map_values(
            |b: usize| ((n - 1) as usize, b),
        )
    }
}

/// The set bits within the universe, as `(page, bit)` in ascending order.
pub open spec fn universe_bits(m: BitmapModel) -> Seq<(usize, usize)> {
    range_bits(m, (m.last_bit_index.0 + 1) as nat)
}

proof fn lemma_popcount_le64(w: u64)
    ensures
        popcount(w) <= 64,
{
    lemma_popcount_masked(w, 64, 64);
}

impl BitPageVec {
    /// The words of pages `0 ..= last page` for a one background: the explicit pages merged
    /// into the full page range, absent pages reading as all ones.
    fn one_hole_words(&self) -> (r: Vec<u64>)
        requires
            self.wf(),
            background(self.kind) == ALL_ONES,
        ensures
            r@ == self@.words,
    {
        let last_page = self.last_bit_index.0;
        let ghost m = self@;
        let full = fill_pages(last_page, ALL_ONES);
        let joined = merge_join_pages(&full, &self.pages);
        proof {
            lemma_merge_join(full@, self.pages@);
        }
        let ghost j = joined@;
        let mut out: Vec<u64> = Vec::new();
        let mut i: usize = 0;
        while i < joined.len() && out.len() <= last_page
            invariant
                self.wf(),
                m == self@,
                background(self.kind) == ALL_ONES,
                last_page == self.last_bit_index.0,
                sorted_pages(full@),
                forall|p: int| 0 <= p <= last_page ==> has_page(full@, p) && word_in(full@, 0, p) == ALL_ONES,
                j == joined@,
                j == merge_join(full@, self.pages@),
                forall|x: int, y: int| 0 <= x < y < j.len() ==> joined_idx(j[x]) < joined_idx(j[y]),
                forall|x: int| 0 <= x < j.len() ==> joined_from(#[trigger] j[x], full@, self.pages@),
                forall|x: int| 0 <= x < full@.len() ==> has_joined(j, #[trigger] full@[x].page_idx),
                i <= j.len(),
                out@.len() <= last_page + 1,
                forall|x: int| 0 <= x < i ==> joined_idx(#[trigger] j[x]) < out@.len(),
                forall|x: int| i <= x < j.len() ==> joined_idx(#[trigger] j[x]) >= out@.len(),
                forall|q: int| 0 <= q < out@.len() ==> out@[q] == m.words[q],
            decreases j.len() - i,
        {
            let e = joined[i];
            let ghost next = out@.len() as int;
            proof {
                assert(has_page(full@, next));
                let k = choose|k: int| 0 <= k < full@.len() && full@[k].page_idx == next;
                assert(has_joined(j, full@[k].page_idx));
                let x = choose|x: int| 0 <= x < j.len() && joined_idx(j[x]) == next;
                assert(x >= i);
                if x > i {
                    assert(joined_idx(j[i as int]) < joined_idx(j[x]));
                }
                assert(joined_idx(j[i as int]) >= next);
                lemma_joined_value(e, full@, self.pages@, WordOp::And, ALL_ONES, ALL_ONES);
                lemma_and_all_ones(self.page_word(next));
            }
            let w = match e {
                Joined::Left(_) => ALL_ONES,
                Joined::Right(y) => y.bit_page,
                Joined::Both(_, y) => y.bit_page,
            };
            proof {
                if e is Right {
                    assert(has_page(full@, next));
                }
                assert(word_in(full@, ALL_ONES, next) == word_in(full@, 0, next));
                lemma_and_all_ones(w);
            }
            out.push(w);
            i = i + 1;
        }
        proof {
            if out@.len() <= last_page {
                let next = out@.len() as int;
                assert(has_page(full@, next));
                let k = choose|k: int| 0 <= k < full@.len() && full@[k].page_idx == next;
                assert(has_joined(j, full@[k].page_idx));
                let x = choose|x: int| 0 <= x < j.len() && joined_idx(j[x]) == next;
                assert(joined_idx(j[x]) < out@.len());
            }
        }
        assert(out@ =~= m.words);
        out
    }

    /// The number of set bits within the universe.
    pub fn active_bits_count(&self) -> (r: usize)
        requires
            self.wf(),
            self.last_bit_index.0 * 64 + self.last_bit_index.1 <= usize::MAX,
        ensures
            r == count_model(self@),
    {
        if self.kind == BitPageVecKind::AllZeroes || self.kind == BitPageVecKind::SparseWithZeroesHole {
            return self.zero_hole_count();
        }
        let last_page = self.last_bit_index.0;
        let last_bit = self.last_bit_index.1;
        let ghost m = self@;
        let words = self.one_hole_words();
        let mut sum: usize = 0;
        let mut p: usize = 0;
        loop
            invariant_except_break
                p <= last_page,
                sum == range_count(m, p as nat),
                sum <= 64 * p,
            invariant
                self.wf(),
                m == self@,
                words@ == m.words,
                last_page == self.last_bit_index.0,
                last_bit == self.last_bit_index.1,
                last_page * 64 + last_bit <= usize::MAX,
            ensures
                sum == range_count(m, (last_page + 1) as nat),
            decreases last_page - p,
        {
            let w = words[p];
            if p == last_page {
                let masked = w & prefix_mask(last_bit);
                let c = BitPage::count_ones(&masked);
                proof {
                    lemma_popcount_masked(w, last_bit as u64, 64);
                }
                sum = sum + c as usize;
                break;
            }
            let c = BitPage::count_ones(&w);
            proof {
                lemma_popcount_le64(w);
            }
            sum = sum + c as usize;
            p = p + 1;
        }
        sum
    }

    /// The set bits within the universe, as `(page, bit)` in ascending order.
    pub fn active_bits(&self) -> (r: Vec<(usize, usize)>)
        requires
            self.wf(),
        ensures
            r@ == universe_bits(self@),
    {
        if self.kind == BitPageVecKind::AllZeroes || self.kind == BitPageVecKind::SparseWithZeroesHole {
            return self.zero_hole_bits();
        }
        let last_page = self.last_bit_index.0;
        let last_bit = self.last_bit_index.1;
        let ghost m = self@;
        let words = self.one_hole_words();
        let mut out: Vec<(usize, usize)> = Vec::new();
        let mut p: usize = 0;
        loop
            invariant_except_break
                p <= last_page,
                out@ == range_bits(m, p as nat),
            invariant
                self.wf(),
                m == self@,
                words@ == m.words,
                last_page == self.last_bit_index.0,
                last_bit == self.last_bit_index.1,
            ensures
                out@ == range_bits(m, (last_page + 1) as nat),
            decreases last_page - p,
        {
            let w = words[p];
            let word = if p == last_page {
                w & prefix_mask(last_bit)
            } else {
                w
            };
            let bits = BitPage::active_bits(word);
            let ghost start = out@;
            let mut k: usize = 0;
            while k < bits.len()
                invariant
                    k <= bits@.len(),
                    out@.len() == start.len() + k,
                    forall|j: int| 0 <= j < start.len() ==> out@[j] == start[j],
                    forall|j: int| 0 <= j < k ==> out@[start.len() + j] == (p, bits@[j]),
                decreases bits@.len() - k,
            {
                out.push((p, bits[k]));
                k = k + 1;
            }
            assert(out@ =~= start + set_positions(word, 64).map_values(|b: usize| (p, b)));
            if p == last_page {
                break;
            }
            p = p + 1;
        }
        out
    }
}

proof fn lemma_and_all_ones(w: u64)
    ensures
        ALL_ONES & w == w,
{
    assert(ALL_ONES & w == w) by (bit_vector);
}

/// The bits `(page, bit)` that are set and lie within the universe.
pub open spec fn bits_in_universe(m: BitmapModel) -> Set<(usize, usize)> {
    Set::new(
        |x: (usize, usize)|
            x.0 <= m.last_bit_index.0 && x.1 < 64 && (x.0 < m.last_bit_index.0 || x.1 < m.last_bit_index.1)
                && bit_at(m.words[x.0 as int], x.1 as u64),
    )
}

pub proof fn lemma_range_bits(m: BitmapModel, n: nat)
    requires
        n <= m.last_bit_index.0 + 1,
    ensures
        range_bits(m, n).len() == range_count(m, n),
        range_bits(m, n).no_duplicates(),
        forall|i: int| 0 <= i < range_bits(m, n).len() ==> (#[trigger] range_bits(m, n)[i]).0 < n,
        forall|x: (usize, usize)|
            range_bits(m, n).contains(x) <==> x.0 < n && x.1 < 64 && bit_at(universe_word(m, x.0 as int), x.1 as u64),
    decreases n,
{
    if n > 0 {
        let k = (n - 1) as nat;
        lemma_range_bits(m, k);
        let w = universe_word(m, k as int);
        lemma_positions_facts(w, 64);
        let pos = set_positions(w, 64);
        let block = pos.map_values(|b: usize| (k as usize, b));
        let prev = range_bits(m, k);
        let all = range_bits(m, n);
        assert(all == prev + block);
        assert forall|i: int, j: int| 0 <= i < all.len() && 0 <= j < all.len() && i != j implies all[i] != all[j] by {
            if i < prev.len() && j >= prev.len() {
                assert(all[j] == block[j - prev.len()]);
                assert(all[i] == prev[i]);
            } else if j < prev.len() && i >= prev.len() {
                assert(all[i] == block[i - prev.len()]);
                assert(all[j] == prev[j]);
            } else if i >= prev.len() && j >= prev.len() {
                assert(all[i] == block[i - prev.len()]);
                assert(all[j] == block[j - prev.len()]);
                if i < j {
                    assert(pos[i - prev.len()] < pos[j - prev.len()]);
                } else {
                    assert(pos[j - prev.len()] < pos[i - prev.len()]);
                }
            } else {
                assert(all[i] == prev[i]);
                assert(all[j] == prev[j]);
            }
        }
        assert forall|i: int| 0 <= i < all.len() implies (#[trigger] all[i]).0 < n by {
            if i < prev.len() {
                assert(all[i] == prev[i]);
            } else {
                assert(all[i] == block[i - prev.len()]);
            }
        }
        assert forall|x: (usize, usize)|
            all.contains(x) <==> x.0 < n && x.1 < 64 && bit_at(universe_word(m, x.0 as int), x.1 as u64) by {
            if all.contains(x) {
                let i = choose|i: int| 0 <= i < all.len() && all[i] == x;
                if i < prev.len() {
                    assert(prev[i] == x);
                    assert(prev.contains(x));
                } else {
                    assert(block[i - prev.len()] == x);
                    assert(pos.contains(x.1));
                }
            }
            if x.0 < n && x.1 < 64 && bit_at(universe_word(m, x.0 as int), x.1 as u64) {
                if x.0 < k {
                    assert(prev.contains(x));
                    let i = choose|i: int| 0 <= i < prev.len() && prev[i] == x;
                    assert(all[i] == x);
                } else {
                    assert(pos.contains(x.1));
                    let i = choose|i: int| 0 <= i < pos.len() && pos[i] == x.1;
                    assert(all[prev.len() + i] == x);
                }
            }
        }
    }
}

/// Pages that read as zero add no set bits.
proof fn lemma_zero_gap(m: BitmapModel, a: nat, b: nat)
    requires
        a <= b <= m.words.len(),
        m.last_bit_index.1 <= 64,
        forall|p: int| a <= p < b ==> m.words[p] == 0,
    ensures
        range_count(m, b) == range_count(m, a),
        range_bits(m, b) == range_bits(m, a),
    decreases b - a,
{
    if a < b {
        lemma_zero_gap(m, a, (b - 1) as nat);
        let lb = m.last_bit_index.1 as u64;
        assert(0u64 & low_mask(lb) == 0) by (bit_vector)
            requires
                lb <= 64,
                low_mask(lb) == if lb >= 64 { 0xffff_ffff_ffff_ffffu64 } else { ((1u64 << lb) - 1) as u64 },
        ;
        assert(m.last_bit_index.1 <= 64);
        assert(universe_word(m, b - 1) == 0);
        lemma_positions_zero(64);
        assert(range_bits(m, b) =~= range_bits(m, (b - 1) as nat));
    }
}

/// The number of set bits within the universe on pages below `n` stays within the universe's
/// size.
proof fn lemma_range_count_bound(m: BitmapModel, n: nat)
    requires
        m.words.len() == m.last_bit_index.0 + 1,
        m.last_bit_index.1 <= 64,
        n <= m.words.len(),
    ensures
        n <= m.last_bit_index.0 ==> range_count(m, n) <= 64 * n,
        n == m.last_bit_index.0 + 1 ==> range_count(m, n) <= 64 * m.last_bit_index.0 + m.last_bit_index.1,
    decreases n,
{
    if n > 0 {
        lemma_range_count_bound(m, (n - 1) as nat);
        let w = m.words[n - 1];
        lemma_popcount_masked(w, m.last_bit_index.1 as u64, 64);
    }
}

impl BitPageVec {
    /// The count for a zero background, summed over the explicit pages within the universe.
    fn zero_hole_count(&self) -> (r: usize)
        requires
            self.wf(),
            self.kind == BitPageVecKind::AllZeroes || self.kind == BitPageVecKind::SparseWithZeroesHole,
            self.last_bit_index.0 * 64 + self.last_bit_index.1 <= usize::MAX,
        ensures
            r == count_model(self@),
    {
        let last_page = self.last_bit_index.0;
        let last_bit = self.last_bit_index.1;
        let ghost m = self@;
        let n = self.pages.len();
        let mut sum: usize = 0;
        let mut k: usize = 0;
        let ghost mut next: nat = 0;
        while k < n && self.pages[k].page_idx <= last_page
            invariant
                self.wf(),
                m == self@,
                background(self.kind) == 0,
                n == self.pages@.len(),
                last_page == self.last_bit_index.0,
                last_bit == self.last_bit_index.1,
                last_page * 64 + last_bit <= usize::MAX,
                k <= n,
                next <= last_page + 1,
                sum == range_count(m, next),
                forall|j: int| k <= j < n ==> self.pages@[j].page_idx >= next,
                forall|j: int| 0 <= j < k ==> self.pages@[j].page_idx < next,
                k < n ==> next <= self.pages@[k as int].page_idx,
            decreases n - k,
        {
            let x = self.pages[k];
            proof {
                assert forall|q: int| next <= q < x.page_idx implies m.words[q] == 0 by {
                    assert forall|j: int| 0 <= j < n implies self.pages@[j].page_idx != q by {
                        if j > k {
                            assert(self.pages@[j].page_idx > x.page_idx);
                        }
                    }
                }
                lemma_zero_gap(m, next, x.page_idx as nat);
                lemma_word_at(self.pages@, 0, k as int);
                lemma_range_count_bound(m, (x.page_idx + 1) as nat);
            }
            proof {
                assert forall|j: int| 0 <= j < k + 1 implies self.pages@[j].page_idx < x.page_idx + 1 by {
                    if j < k {
                        assert(self.pages@[j].page_idx < x.page_idx);
                    }
                }
            }
            let c = if x.page_idx == last_page {
                let masked = x.bit_page & prefix_mask(last_bit);
                BitPage::count_ones(&masked)
            } else {
                BitPage::count_ones(&x.bit_page)
            };
            sum = sum + c as usize;
            proof {
                next = (x.page_idx + 1) as nat;
            }
            k = k + 1;
        }
        proof {
            assert forall|q: int| next <= q <= last_page implies m.words[q] == 0 by {
                assert forall|j: int| 0 <= j < n implies self.pages@[j].page_idx != q by {
                    if k < n && j >= k {
                        assert(self.pages@[j].page_idx >= self.pages@[k as int].page_idx);
                    }
                }
            }
            lemma_zero_gap(m, next, (last_page + 1) as nat);
        }
        sum
    }

    /// The set bits for a zero background, read from the explicit pages within the universe.
    fn zero_hole_bits(&self) -> (r: Vec<(usize, usize)>)
        requires
            self.wf(),
            self.kind == BitPageVecKind::AllZeroes || self.kind == BitPageVecKind::SparseWithZeroesHole,
        ensures
            r@ == universe_bits(self@),
    {
        let last_page = self.last_bit_index.0;
        let last_bit = self.last_bit_index.1;
        let ghost m = self@;
        let n = self.pages.len();
        let mut out: Vec<(usize, usize)> = Vec::new();
        let mut k: usize = 0;
        let ghost mut next: nat = 0;
        while k < n && self.pages[k].page_idx <= last_page
            invariant
                self.wf(),
                m == self@,
                background(self.kind) == 0,
                n == self.pages@.len(),
                last_page == self.last_bit_index.0,
                last_bit == self.last_bit_index.1,
                k <= n,
                next <= last_page + 1,
                out@ == range_bits(m, next),
                forall|j: int| k <= j < n ==> self.pages@[j].page_idx >= next,
                forall|j: int| 0 <= j < k ==> self.pages@[j].page_idx < next,
                k < n ==> next <= self.pages@[k as int].page_idx,
            decreases n - k,
        {
            let x = self.pages[k];
            proof {
                assert forall|q: int| next <= q < x.page_idx implies m.words[q] == 0 by {
                    assert forall|j: int| 0 <= j < n implies self.pages@[j].page_idx != q by {
                        if j > k {
                            assert(self.pages@[j].page_idx > x.page_idx);
                        }
                    }
                }
                lemma_zero_gap(m, next, x.page_idx as nat);
                lemma_word_at(self.pages@, 0, k as int);
            }
            proof {
                assert forall|j: int| 0 <= j < k + 1 implies self.pages@[j].page_idx < x.page_idx + 1 by {
                    if j < k {
                        assert(self.pages@[j].page_idx < x.page_idx);
                    }
                }
            }
            let p = x.page_idx;
            let word = if p == last_page {
                x.bit_page & prefix_mask(last_bit)
            } else {
                x.bit_page
            };
            let bits = BitPage::active_bits(word);
            let ghost start = out@;
            let mut i: usize = 0;
            while i < bits.len()
                invariant
                    i <= bits@.len(),
                    out@.len() == start.len() + i,
                    forall|j: int| 0 <= j < start.len() ==> out@[j] == start[j],
                    forall|j: int| 0 <= j < i ==> out@[start.len() + j] == (p, bits@[j]),
                decreases bits@.len() - i,
            {
                out.push((p, bits[i]));
                i = i + 1;
            }
            assert(out@ =~= start + set_positions(word, 64).map_values(|b: usize| (p, b)));
            proof {
                next = (x.page_idx + 1) as nat;
            }
            k = k + 1;
        }
        proof {
            assert forall|q: int| next <= q <= last_page implies m.words[q] == 0 by {
                assert forall|j: int| 0 <= j < n implies self.pages@[j].page_idx != q by {
                    if k < n && j >= k {
                        assert(self.pages@[j].page_idx >= self.pages@[k as int].page_idx);
                    }
                }
            }
            lemma_zero_gap(m, next, (last_page + 1) as nat);
        }
        out
    }
}

} // verus!
