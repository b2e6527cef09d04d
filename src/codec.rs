//! The binary layout of pages and bitmaps: a tag byte, then for the sparse encodings a
//! page count and the pages, each an index and a tagged word. Integers are big-endian.
use vstd::prelude::*;

use crate::bitmap::{background, background_word, BitPageVec, BitPageVecKind};
use crate::page::{BitPage, BitPageWithPosition, ALL_ONES};
use crate::pages::{has_page, sorted_pages, word_in};
use crate::compactor::{compacted_word, compaction_of, drop_background, policy_background};
use crate::stream::BitPageVecIter;

verus! {

/// Why a buffer does not decode.
#[derive(Clone, Copy, Debug, PartialEq, Eq, Structural)]
pub enum DecodeError {
    /// The buffer ends inside a value.
    Truncated,
    /// The encoding tag is not known.
    UnknownTag(u8),
    /// A page's tag is not known.
    UnknownPageTag(u8),
    /// Page indices do not strictly increase.
    Unsorted,
}

/// The eight big-endian bytes of `v`.
pub open spec fn u64_be(v: u64) -> Seq<u8> {
    seq![
        (v >> 56u64) as u8,
        (v >> 48u64) as u8,
        (v >> 40u64) as u8,
        (v >> 32u64) as u8,
        (v >> 24u64) as u8,
        (v >> 16u64) as u8,
        (v >> 8u64) as u8,
        v as u8,
    ]
}

/// The integer whose big-endian bytes start `s`.
pub open spec fn be_u64(s: Seq<u8>) -> u64 {
    ((s[0] as u64) << 56u64) | ((s[1] as u64) << 48u64) | ((s[2] as u64) << 40u64) | ((s[3] as u64)
        << 32u64) | ((s[4] as u64) << 24u64) | ((s[5] as u64) << 16u64) | ((s[6] as u64) << 8u64) | (
    s[7] as u64)
}

pub proof fn lemma_be_round_trip(v: u64)
    ensures
        be_u64(u64_be(v)) == v,
{
    let s = u64_be(v);
    assert(s[0] == (v >> 56u64) as u8 && s[7] == v as u8);
    assert(((((v >> 56u64) as u8) as u64) << 56u64) | ((((v >> 48u64) as u8) as u64) << 48u64) | ((((v
        >> 40u64) as u8) as u64) << 40u64) | ((((v >> 32u64) as u8) as u64) << 32u64) | ((((v >> 24u64)
        as u8) as u64) << 24u64) | ((((v >> 16u64) as u8) as u64) << 16u64) | ((((v >> 8u64) as u8)
        as u64) << 8u64) | ((v as u8) as u64) == v) by (bit_vector);
}

/// The bytes of one page word: `0` for zero, `1` for all ones, else `2` and the word.
pub open spec fn page_bytes(w: u64) -> Seq<u8> {
    if w == 0 {
        seq![0u8]
    } else if w == ALL_ONES {
        seq![1u8]
    } else {
        seq![2u8] + u64_be(w)
    }
}

/// The bytes of one page entry: its index, then its word.
pub open spec fn entry_bytes(x: BitPageWithPosition) -> Seq<u8> {
    u64_be(x.page_idx as u64) + page_bytes(x.bit_page)
}

/// The bytes of a page list, entry after entry.
pub open spec fn pages_bytes(s: Seq<BitPageWithPosition>) -> Seq<u8>
    decreases s.len(),
{
    if s.len() == 0 {
        Seq::empty()
    } else {
        entry_bytes(s[0]) + pages_bytes(s.drop_first())
    }
}

pub open spec fn kind_tag(kind: BitPageVecKind) -> u8 {
    match kind {
        BitPageVecKind::AllZeroes => 0,
        BitPageVecKind::SparseWithZeroesHole => 1,
        BitPageVecKind::AllOnes => 2,
        BitPageVecKind::SparseWithOnesHole => 3,
    }
}

/// The bytes of a bitmap with encoding `kind` and pages `s`.
pub open spec fn bitmap_bytes(kind: BitPageVecKind, s: Seq<BitPageWithPosition>) -> Seq<u8> {
    if kind == BitPageVecKind::SparseWithZeroesHole || kind == BitPageVecKind::SparseWithOnesHole {
        seq![kind_tag(kind)] + u64_be(s.len() as u64) + pages_bytes(s)
    } else {
        seq![kind_tag(kind)]
    }
}

/// Reads a page word at `pos`: the word and the position after it.
pub open spec fn parse_page(s: Seq<u8>, pos: int) -> Result<(u64, int), DecodeError> {
    if pos >= s.len() {
        Err(DecodeError::Truncated)
    } else if s[pos] == 0 {
        Ok((0u64, pos + 1))
    } else if s[pos] == 1 {
        Ok((ALL_ONES, pos + 1))
    } else if s[pos] == 2 {
        if pos + 9 <= s.len() {
            Ok((be_u64(s.subrange(pos + 1, pos + 9)), pos + 9))
        } else {
            Err(DecodeError::Truncated)
        }
    } else {
        Err(DecodeError::UnknownPageTag(s[pos]))
    }
}

/// Reads a page entry at `pos`.
pub open spec fn parse_entry(s: Seq<u8>, pos: int) -> Result<(BitPageWithPosition, int), DecodeError> {
    if pos + 8 > s.len() {
        Err(DecodeError::Truncated)
    } else {
        match parse_page(s, pos + 8) {
            Ok((w, e)) => Ok(
                (BitPageWithPosition { page_idx: be_u64(s.subrange(pos, pos + 8)) as usize, bit_page: w }, e),
            ),
            Err(x) => Err(x),
        }
    }
}

/// `pre` followed by what a parse gave, or the parse's error.
pub open spec fn prepend(
    pre: Seq<BitPageWithPosition>,
    r: Result<(Seq<BitPageWithPosition>, int), DecodeError>,
) -> Result<(Seq<BitPageWithPosition>, int), DecodeError> {
    match r {
        Ok((rest, e)) => Ok((pre + rest, e)),
        Err(x) => Err(x),
    }
}

/// Reads `n` page entries from `pos`.
pub open spec fn parse_pages(s: Seq<u8>, pos: int, n: nat) -> Result<(Seq<BitPageWithPosition>, int), DecodeError>
    decreases n,
{
    if n == 0 {
        Ok((Seq::empty(), pos))
    } else {
        match parse_entry(s, pos) {
            Ok((x, p)) => prepend(seq![x], parse_pages(s, p, (n - 1) as nat)),
            Err(e) => Err(e),
        }
    }
}

/// Reads a bitmap from the start of `s`: its encoding and its pages as stored.
pub open spec fn parse_bitmap(s: Seq<u8>) -> Result<(BitPageVecKind, Seq<BitPageWithPosition>), DecodeError> {
    if s.len() == 0 {
        Err(DecodeError::Truncated)
    } else if s[0] == 0 {
        Ok((BitPageVecKind::AllZeroes, Seq::empty()))
    } else if s[0] == 2 {
        Ok((BitPageVecKind::AllOnes, Seq::empty()))
    } else if s[0] == 1 || s[0] == 3 {
        if s.len() < 9 {
            Err(DecodeError::Truncated)
        } else {
            match parse_pages(s, 9, be_u64(s.subrange(1, 9)) as nat) {
                Ok((pages, _)) => Ok(
                    (
                        if s[0] == 1 {
                            BitPageVecKind::SparseWithZeroesHole
                        } else {
                            BitPageVecKind::SparseWithOnesHole
                        },
                        pages,
                    ),
                ),
                Err(e) => Err(e),
            }
        }
    } else {
        Err(DecodeError::UnknownTag(s[0]))
    }
}

/// Relies on `bytes::BufMut::put_u8` for `Vec<u8>`: appends the byte.
#[verifier::external_body]
pub(crate) fn put_u8(buf: &mut Vec<u8>, n: u8)
    ensures
        final(buf)@ == old(buf)@.push(n),
{
    bytes::BufMut::put_u8(buf, n)
}

/// Relies on `bytes::BufMut::put_u64` for `Vec<u8>`: appends the big-endian bytes.
#[verifier::external_body]
fn put_u64(buf: &mut Vec<u8>, n: u64)
    ensures
        final(buf)@ == old(buf)@ + u64_be(n),
{
    bytes::BufMut::put_u64(buf, n)
}

/// Relies on `bytes::Buf::get_u8` for `&[u8]`: the first byte of what remains.
#[verifier::external_body]
pub(crate) fn get_u8(buf: &[u8], pos: usize) -> (r: u8)
    requires
        pos < buf@.len(),
    ensures
        r == buf@[pos as int],
{
    let mut rest: &[u8] = &buf[pos..];
    bytes::Buf::get_u8(&mut rest)
}

/// Relies on `bytes::Buf::get_u64` for `&[u8]`: the big-endian integer of the first eight
/// bytes of what remains.
#[verifier::external_body]
pub(crate) fn get_u64(buf: &[u8], pos: usize) -> (r: u64)
    requires
        pos + 8 <= buf@.len(),
    ensures
        r == be_u64(buf@.subrange(pos as int, pos + 8)),
{
    let mut rest: &[u8] = &buf[pos..];
    bytes::Buf::get_u64(&mut rest)
}

impl BitPage {
    /// Appends the bytes of a page word.
    pub fn encode(value: u64, buf: &mut Vec<u8>)
        ensures
            final(buf)@ == old(buf)@ + page_bytes(value),
    {
        if value == 0 {
            put_u8(buf, 0);
        } else if value == ALL_ONES {
            put_u8(buf, 1);
        } else {
            put_u8(buf, 2);
            put_u64(buf, value);
        }
    }

    /// Reads a page word at `pos`: the word and the position after it.
    pub fn decode(buf: &[u8], pos: usize) -> (r: Result<(u64, usize), DecodeError>)
        ensures
            match r {
                Ok((w, e)) => parse_page(buf@, pos as int) == Ok::<(u64, int), DecodeError>((w, e as int)),
                Err(x) => parse_page(buf@, pos as int) == Err::<(u64, int), DecodeError>(x),
            },
    {
        if pos >= buf.len() {
            return Err(DecodeError::Truncated);
        }
        let t = get_u8(buf, pos);
        if t == 0 {
            Ok((0, pos + 1))
        } else if t == 1 {
            Ok((ALL_ONES, pos + 1))
        } else if t == 2 {
            if buf.len() - pos >= 9 {
                let w = get_u64(buf, pos + 1);
                Ok((w, pos + 9))
            } else {
                Err(DecodeError::Truncated)
            }
        } else {
            Err(DecodeError::UnknownPageTag(t))
        }
    }
}

proof fn lemma_pages_bytes_push(s: Seq<BitPageWithPosition>, x: BitPageWithPosition)
    ensures
        pages_bytes(s.push(x)) == pages_bytes(s) + entry_bytes(x),
    decreases s.len(),
{
    if s.len() == 0 {
        let t = s.push(x);
        assert(t.drop_first() =~= Seq::<BitPageWithPosition>::empty());
        assert(t[0] == x);
        assert(pages_bytes(t.drop_first()) == Seq::<u8>::empty());
        assert(pages_bytes(t) == entry_bytes(x) + Seq::<u8>::empty());
        assert(entry_bytes(x) + Seq::<u8>::empty() =~= entry_bytes(x));
        assert(pages_bytes(s) == Seq::<u8>::empty());
        assert(Seq::<u8>::empty() + entry_bytes(x) =~= entry_bytes(x));
    } else {
        assert(s.push(x).drop_first() == s.drop_first().push(x));
        lemma_pages_bytes_push(s.drop_first(), x);
        assert(pages_bytes(s.push(x)) == entry_bytes(s[0]) + (pages_bytes(s.drop_first()) + entry_bytes(x)));
    }
}

/// Appends the bytes of the page entries of `pages`.
pub(crate) fn encode_pages(pages: &Vec<BitPageWithPosition>, buf: &mut Vec<u8>)
    ensures
        final(buf)@ == old(buf)@ + u64_be(pages@.len() as u64) + pages_bytes(pages@),
{
    put_u64(buf, pages.len() as u64);
    let ghost start = buf@;
    let mut i: usize = 0;
    while i < pages.len()
        invariant
            i <= pages@.len(),
            buf@ == start + pages_bytes(pages@.take(i as int)),
        decreases pages@.len() - i,
    {
        let x = pages[i];
        proof {
            assert(pages@.take(i + 1) == pages@.take(i as int).push(x));
            lemma_pages_bytes_push(pages@.take(i as int), x);
        }
        put_u64(buf, x.page_idx as u64);
        BitPage::encode(x.bit_page, buf);
        i = i + 1;
        assert(buf@ == start + pages_bytes(pages@.take(i as int)));
    }
    assert(pages@.take(i as int) == pages@);
}

/// Reads `n` page entries from `pos`: the entries, the position after them, and whether
/// their indices strictly increase.
pub(crate) fn decode_pages(buf: &[u8], pos: usize, n: u64) -> (r: Result<(Vec<BitPageWithPosition>, usize), DecodeError>)
    ensures
        match r {
            Ok((v, e)) => parse_pages(buf@, pos as int, n as nat) == Ok::<(Seq<BitPageWithPosition>, int), DecodeError>((v@, e as int)),
            Err(x) => parse_pages(buf@, pos as int, n as nat) == Err::<(Seq<BitPageWithPosition>, int), DecodeError>(x),
        },
{
    let mut pages: Vec<BitPageWithPosition> = Vec::new();
    let mut at = pos;
    let mut i: u64 = 0;
    while i < n
        invariant
            i <= n,
            parse_pages(buf@, pos as int, n as nat) == prepend(pages@, parse_pages(buf@, at as int, (n - i) as nat)),
        decreases n - i,
    {
        proof {
            let k = (n - i) as nat;
            assert(parse_pages(buf@, at as int, k) == match parse_entry(buf@, at as int) {
                Ok((x, p)) => prepend(seq![x], parse_pages(buf@, p, (k - 1) as nat)),
                Err(e) => Err(e),
            });
        }
        if buf.len() < 8 || at > buf.len() - 8 {
            return Err(DecodeError::Truncated);
        }
        let idx = get_u64(buf, at);
        match BitPage::decode(buf, at + 8) {
            Ok((w, e)) => {
                let x = BitPageWithPosition { page_idx: idx as usize, bit_page: w };
                proof {
                    let rest = parse_pages(buf@, e as int, (n - i - 1) as nat);
                    match rest {
                        Ok((t, f)) => {
                            assert(pages@ + (seq![x] + t) == pages@.push(x) + t);
                        },
                        Err(_) => {},
                    }
                }
                pages.push(x);
                at = e;
            },
            Err(x) => {
                return Err(x);
            },
        }
        i = i + 1;
    }
    assert(pages@ + Seq::<BitPageWithPosition>::empty() == pages@);
    Ok((pages, at))
}

/// Whether page indices strictly increase along the list.
pub(crate) fn is_sorted(pages: &Vec<BitPageWithPosition>) -> (r: bool)
    ensures
        r == sorted_pages(pages@),
{
    let mut i: usize = 1;
    if pages.len() == 0 {
        return true;
    }
    while i < pages.len()
        invariant
            1 <= i <= pages@.len(),
            sorted_pages(pages@.take(i as int)),
        decreases pages@.len() - i,
    {
        if pages[i - 1].page_idx >= pages[i].page_idx {
            assert(!sorted_pages(pages@));
            return false;
        }
        assert forall|a: int, b: int| 0 <= a < b < i + 1 implies pages@[a].page_idx < pages@[b].page_idx by {
            if b < i {
                assert(pages@.take(i as int)[a] == pages@[a]);
                assert(pages@.take(i as int)[b] == pages@[b]);
            } else if a < i - 1 {
                assert(pages@.take(i as int)[a] == pages@[a]);
                assert(pages@.take(i as int)[i - 1] == pages@[i - 1]);
            }
        }
        i = i + 1;
        assert(sorted_pages(pages@.take(i as int)));
    }
    assert(pages@.take(i as int) == pages@);
    true
}

impl BitPageVec {
    /// Whether this bitmap is in valid form.
    pub fn is_valid(&self) -> (r: bool)
        ensures
            r == self.wf(),
    {
        if self.last_bit_index.1 > 64 || !is_sorted(&self.pages) {
            return false;
        }
        match self.kind {
            BitPageVecKind::AllZeroes | BitPageVecKind::AllOnes => self.pages.len() == 0,
            _ => {
                if self.pages.len() == 0 {
                    return false;
                }
                let bg = background_word(self.kind);
                let mut i: usize = 0;
                while i < self.pages.len()
                    invariant
                        i <= self.pages@.len(),
                        bg == background(self.kind),
                        forall|k: int| 0 <= k < i ==> (#[trigger] self.pages@[k]).bit_page != bg,
                    decreases self.pages@.len() - i,
                {
                    if self.pages[i].bit_page == bg {
                        return false;
                    }
                    i = i + 1;
                }
                true
            },
        }
    }
}

/// What decoding reads: the encoding and the pages as stored.
pub open spec fn decoded_from(r: BitPageVec, kind: BitPageVecKind, pages: Seq<BitPageWithPosition>, last_bit_index: (usize, usize)) -> bool {
    &&& r.wf()
    &&& r.last_bit_index == last_bit_index
    &&& forall|p: int| 0 <= p <= last_bit_index.0 ==> r.page_word(p) == word_in(pages, background(kind), p)
    &&& compaction_of(r, background(kind), drop_background(pages, background(kind)), last_bit_index)
}

impl BitPageVec {
    /// Appends the bytes of this bitmap.
    pub fn encode(&self, buf: &mut Vec<u8>)
        requires
            self.wf(),
        ensures
            final(buf)@ == old(buf)@ + bitmap_bytes(self.kind, self.pages@),
    {
        match self.kind {
            BitPageVecKind::AllZeroes => put_u8(buf, 0),
            BitPageVecKind::SparseWithZeroesHole => {
                put_u8(buf, 1);
                encode_pages(&self.pages, buf);
            },
            BitPageVecKind::AllOnes => put_u8(buf, 2),
            BitPageVecKind::SparseWithOnesHole => {
                put_u8(buf, 3);
                encode_pages(&self.pages, buf);
            },
        }
        proof {
            assert(old(buf)@.push(kind_tag(self.kind)) == old(buf)@ + seq![kind_tag(self.kind)]);
        }
    }

    /// Reads a bitmap of universe `last_bit_index` from the start of `buf`; the compactor
    /// picks the encoding of a sparse one.
    pub fn decode(buf: &[u8], last_bit_index: (usize, usize)) -> (r: Result<BitPageVec, DecodeError>)
        requires
            last_bit_index.1 <= 64,
        ensures
            match parse_bitmap(buf@) {
                Err(e) => r == Err::<BitPageVec, DecodeError>(e),
                Ok((kind, pages)) => if sorted_pages(pages) {
                    &&& r is Ok
                    &&& decoded_from(r->Ok_0, kind, pages, last_bit_index)
                    &&& background(r->Ok_0.kind) == if kind == BitPageVecKind::SparseWithZeroesHole || kind
                        == BitPageVecKind::SparseWithOnesHole {
                        policy_background(drop_background(pages, background(kind)), background(kind))
                    } else {
                        background(kind)
                    }
                } else {
                    r == Err::<BitPageVec, DecodeError>(DecodeError::Unsorted)
                },
            },
    {
        if buf.len() == 0 {
            return Err(DecodeError::Truncated);
        }
        let t = get_u8(buf, 0);
        if t == 0 || t == 2 {
            let r = if t == 0 {
                BitPageVec::all_zeros(last_bit_index)
            } else {
                BitPageVec::all_ones(last_bit_index)
            };
            proof {
                let kind = if t == 0 {
                    BitPageVecKind::AllZeroes
                } else {
                    BitPageVecKind::AllOnes
                };
                let e = Seq::<BitPageWithPosition>::empty();
                assert(drop_background(e, background(kind)) == e);
                assert forall|p: int| #[trigger] r.page_word(p) == compacted_word(e, background(kind), last_bit_index.0, false, p) by {
                    assert(!has_page(e, p));
                }
                assert(r.pages@ =~= e);
                assert(background(r.kind) == background(kind));
                assert(compaction_of(r, background(kind), e, last_bit_index));
            }
            Ok(r)
        } else if t == 1 || t == 3 {
            if buf.len() < 9 {
                return Err(DecodeError::Truncated);
            }
            let n = get_u64(buf, 1);
            match decode_pages(buf, 9, n) {
                Ok((pages, _)) => {
                    if !is_sorted(&pages) {
                        return Err(DecodeError::Unsorted);
                    }
                    let kind = if t == 1 {
                        BitPageVecKind::SparseWithZeroesHole
                    } else {
                        BitPageVecKind::SparseWithOnesHole
                    };
                    Ok(BitPageVecIter::new(kind, pages, last_bit_index).into_bit_page_vec())
                },
                Err(e) => Err(e),
            }
        } else {
            Err(DecodeError::UnknownTag(t))
        }
    }
}

proof fn lemma_parse_pages(buf: Seq<u8>, pos: int, s: Seq<BitPageWithPosition>)
    requires
        0 <= pos,
        pos + pages_bytes(s).len() <= buf.len(),
        buf.subrange(pos, pos + pages_bytes(s).len()) == pages_bytes(s),
    ensures
        parse_pages(buf, pos, s.len()) == Ok::<(Seq<BitPageWithPosition>, int), DecodeError>(
            (s, pos + pages_bytes(s).len()),
        ),
    decreases s.len(),
{
    if s.len() == 0 {
        assert(s =~= Seq::<BitPageWithPosition>::empty());
    } else {
        let x = s[0];
        let rest = s.drop_first();
        let e = entry_bytes(x);
        let all = pages_bytes(s);
        assert(all == e + pages_bytes(rest));
        let l = all.len();
        assert forall|k: int| 0 <= k < l implies buf[pos + k] == all[k] by {
            assert(buf.subrange(pos, pos + l)[k] == buf[pos + k]);
        }
        let idx_bytes = u64_be(x.page_idx as u64);
        assert(buf.subrange(pos, pos + 8) =~= idx_bytes) by {
            assert forall|k: int| 0 <= k < 8 implies buf.subrange(pos, pos + 8)[k] == idx_bytes[k] by {
                assert(all[k] == e[k]);
            }
        }
        lemma_be_round_trip(x.page_idx as u64);
        let w = x.bit_page;
        let pb = page_bytes(w);
        assert(buf[pos + 8] == pb[0]) by {
            assert(all[8] == e[8]);
        }
        if w != 0 && w != ALL_ONES {
            assert(buf.subrange(pos + 9, pos + 17) =~= u64_be(w)) by {
                assert forall|k: int| 0 <= k < 8 implies buf.subrange(pos + 9, pos + 17)[k] == u64_be(w)[k] by {
                    assert(all[9 + k] == e[9 + k]);
                    assert(e[9 + k] == pb[1 + k]);
                }
            }
            lemma_be_round_trip(w);
        }
        assert(parse_entry(buf, pos) == Ok::<(BitPageWithPosition, int), DecodeError>((x, pos + e.len())));
        let p1 = pos + e.len();
        let rl = pages_bytes(rest).len();
        assert(buf.subrange(p1, p1 + rl) =~= pages_bytes(rest)) by {
            assert forall|k: int| 0 <= k < rl implies buf.subrange(p1, p1 + rl)[k] == pages_bytes(rest)[k] by {
                assert(all[e.len() + k] == pages_bytes(rest)[k]);
            }
        }
        lemma_parse_pages(buf, p1, rest);
        assert(seq![x] + rest =~= s);
        assert(l == e.len() + rl);
        assert(rest.len() == (s.len() - 1) as nat);
        assert(parse_pages(buf, pos, s.len()) == prepend(seq![x], parse_pages(buf, p1, (s.len() - 1) as nat)));
    }
}

/// The bytes of a valid bitmap read back as its encoding and pages.
pub proof fn lemma_parse_bitmap(b: BitPageVec)
    requires
        b.wf(),
        b.pages@.len() <= u64::MAX,
    ensures
        parse_bitmap(bitmap_bytes(b.kind, b.pages@)) == Ok::<(BitPageVecKind, Seq<BitPageWithPosition>), DecodeError>(
            (b.kind, b.pages@),
        ),
{
    lemma_parse_bitmap_of(b.kind, b.pages@);
}

/// The bytes of an encoding and its pages read back as them, when a uniform encoding has no
/// pages.
pub proof fn lemma_parse_bitmap_of(kind: BitPageVecKind, s: Seq<BitPageWithPosition>)
    requires
        s.len() <= u64::MAX,
        !(kind == BitPageVecKind::SparseWithZeroesHole || kind == BitPageVecKind::SparseWithOnesHole) ==> s.len()
            == 0,
    ensures
        parse_bitmap(bitmap_bytes(kind, s)) == Ok::<(BitPageVecKind, Seq<BitPageWithPosition>), DecodeError>(
            (kind, s),
        ),
{
    let bytes = bitmap_bytes(kind, s);
    if kind == BitPageVecKind::SparseWithZeroesHole || kind == BitPageVecKind::SparseWithOnesHole {
        let n = u64_be(s.len() as u64);
        let pb = pages_bytes(s);
        assert(bytes == seq![kind_tag(kind)] + n + pb);
        assert(bytes.subrange(1, 9) =~= n);
        lemma_be_round_trip(s.len() as u64);
        assert(bytes.subrange(9, 9 + pb.len() as int) =~= pb);
        lemma_parse_pages(bytes, 9, s);
    } else {
        assert(s =~= Seq::<BitPageWithPosition>::empty());
    }
}

} // verus!
