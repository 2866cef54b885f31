use vstd::prelude::*;

use crate::page::{Block, BLOCKSIZE};
use crate::posting::{DocId, Posting};
use crate::ring_buffer::BiasedRingBuffer;

verus! {

broadcast use vstd::array::group_array_axioms;

/// Number of coded slots in one block: four bytes for each posting.
pub const BLOCK_ITEMS: usize = 16;

/// The little-endian 32-bit word stored in slot `i` of a block.
pub open spec fn word_at(b: Block, i: int) -> int
    recommends
        0 <= i < BLOCK_ITEMS,
{
    b.0@[4 * i] + 256 * b.0@[4 * i + 1] + 65536 * b.0@[4 * i + 2] + 16777216 * b.0@[4 * i + 3]
}

/// The document ids coded in slots `i ..` of a block, given the value
/// `prev` that precedes them.  Slot `i` stores `value - prev + 1`; a zero
/// slot (or one that would leave the id range) ends the block.
pub open spec fn decode_from(b: Block, prev: u32, i: int) -> Seq<u32>
    decreases BLOCK_ITEMS - i when i <= BLOCK_ITEMS
{
    if i < 0 || i >= BLOCK_ITEMS {
        Seq::empty()
    } else {
        let r = word_at(b, i);
        if r == 0 || prev + r - 1 > u32::MAX {
            Seq::empty()
        } else {
            seq![(prev + r - 1) as u32] + decode_from(b, (prev + r - 1) as u32, i + 1)
        }
    }
}

/// The document ids coded in a whole block, delta-coded against `base`.
pub open spec fn decode_block(b: Block, base: u32) -> Seq<u32> {
    decode_from(b, base, 0)
}

/// The last element of `s`, or `dflt` when `s` is empty.
pub open spec fn last_or(s: Seq<u32>, dflt: u32) -> u32 {
    if s.len() == 0 {
        dflt
    } else {
        s.last()
    }
}

/// A sequence of document ids that can be delta-coded against `base`:
/// non-decreasing from the base, and leaving room below the sentinel.
pub open spec fn codable_from(base: u32, s: Seq<u32>) -> bool {
    &&& forall|i: int| 0 <= i < s.len() ==> #[trigger] s[i] < u32::MAX
    &&& (s.len() > 0 ==> base <= s[0])
    &&& forall|i: int| #![trigger s[i], s[i - 1]] 1 <= i < s.len() ==> s[i - 1] <= s[i]
}

pub proof fn lemma_codable_prefix(base: u32, s: Seq<u32>, n: int)
    requires
        codable_from(base, s),
        0 <= n <= s.len(),
    ensures
        codable_from(base, s.take(n)),
        codable_from(last_or(s.take(n), base), s.skip(n)),
{
    assert forall|i: int| 0 <= i < s.skip(n).len() implies (if i == 0 {
        last_or(s.take(n), base)
    } else {
        s.skip(n)[i - 1]
    }) <= #[trigger] s.skip(n)[i] by {
        assert(s.skip(n)[i] == s[n + i]);
        if i > 0 {
            assert(s.skip(n)[i - 1] == s[n + i - 1]);
        }
    }
}

/// In a codable sequence the elements never decrease.
pub proof fn lemma_codable_le(base: u32, s: Seq<u32>, i: int, j: int)
    requires
        codable_from(base, s),
        0 <= i <= j < s.len(),
    ensures
        s[i] <= s[j],
        base <= s[j],
    decreases j,
{
    if i < j {
        lemma_codable_le(base, s, i, j - 1);
        assert(s[j - 1] <= s[j]);
    } else if j > 0 {
        lemma_codable_le(base, s, j - 1, j - 1);
        assert(s[j - 1] <= s[j]);
    } else {
        assert(base <= s[0]);
    }
}

/// Reads the word in slot `i`.
fn read_word(b: &Block, i: usize) -> (w: u32)
    requires
        i < BLOCK_ITEMS,
    ensures
        w == word_at(*b, i as int),
{
    let b0 = b.0[4 * i] as u32;
    let b1 = b.0[4 * i + 1] as u32;
    let b2 = b.0[4 * i + 2] as u32;
    let b3 = b.0[4 * i + 3] as u32;
    b0 + 256 * b1 + 65536 * b2 + 16777216 * b3
}

proof fn lemma_u32_from_bytes(w: u32)
    ensures
        (w % 256) + 256 * ((w / 256) % 256) + 65536 * ((w / 65536) % 256) + 16777216 * ((w
            / 16777216) % 256) == w,
        w / 16777216 < 256,
{
    assert((w % 256) + 256 * ((w / 256) % 256) + 65536 * ((w / 65536) % 256) + 16777216 * ((w
        / 16777216) % 256) == w) by (bit_vector);
    assert(w / 16777216 < 256) by (bit_vector);
}

/// Writes `w` into slot `i`, little-endian; no other byte changes.
fn write_word(b: &mut Block, i: usize, w: u32)
    requires
        i < BLOCK_ITEMS,
    ensures
        forall|j: int| 0 <= j < BLOCKSIZE && !(4 * i <= j < 4 * i + 4) ==> final(b).0@[j] == old(
            b,
        ).0@[j],
        word_at(*final(b), i as int) == w,
{
    proof {
        lemma_u32_from_bytes(w);
    }
    b.0[4 * i] = (w % 256) as u8;
    b.0[4 * i + 1] = ((w / 256) % 256) as u8;
    b.0[4 * i + 2] = ((w / 65536) % 256) as u8;
    b.0[4 * i + 3] = ((w / 16777216) % 256) as u8;
}

/// Extending a partially-filled block by one slot extends its decoding by
/// one value.  `b1` is the block before the write: zero from slot `k` on;
/// `b2` differs from it in slot `k` alone.
proof fn lemma_decode_extend(b1: Block, b2: Block, prev: u32, i: int, k: int, w: int)
    requires
        0 <= i <= k < BLOCK_ITEMS,
        forall|j: int| 4 * k <= j < BLOCKSIZE ==> b1.0@[j] == 0,
        forall|j: int|
            0 <= j < BLOCKSIZE && !(4 * k <= j < 4 * k + 4) ==> b2.0@[j] == b1.0@[j],
        word_at(b2, k) == w,
        1 <= w,
        decode_from(b1, prev, i).len() == k - i,
        last_or(decode_from(b1, prev, i), prev) + w - 1 <= u32::MAX,
    ensures
        decode_from(b2, prev, i) == decode_from(b1, prev, i).push(
            (last_or(decode_from(b1, prev, i), prev) + w - 1) as u32,
        ),
    decreases k - i,
{
    if i == k {
        assert(word_at(b1, k) == 0);
        assert(decode_from(b1, prev, i) =~= Seq::<u32>::empty());
        let v = (prev + w - 1) as u32;
        if k + 1 < BLOCK_ITEMS {
            assert(word_at(b2, k + 1) == word_at(b1, k + 1));
            assert(word_at(b1, k + 1) == 0);
        }
        assert(decode_from(b2, v, k + 1) =~= Seq::<u32>::empty());
        assert(prev + w - 1 <= u32::MAX);
        assert(decode_from(b2, prev, i) == seq![v] + decode_from(b2, v, i + 1));
        assert(decode_from(b2, prev, i) =~= seq![v]);
        assert(decode_from(b1, prev, i).push(v) =~= seq![v]);
    } else {
        assert(word_at(b2, i) == word_at(b1, i));
        let r = word_at(b1, i);
        // the decoding of b1 at i is non-empty, so slot i neither ends the
        // block nor overflows
        assert(decode_from(b1, prev, i).len() > 0);
        assert(!(r == 0 || prev + r - 1 > u32::MAX));
        let v = (prev + r - 1) as u32;
        assert(decode_from(b1, prev, i) == seq![v] + decode_from(b1, v, i + 1));
        assert(decode_from(b2, prev, i) == seq![v] + decode_from(b2, v, i + 1));
        assert(last_or(decode_from(b1, prev, i), prev) == last_or(
            decode_from(b1, v, i + 1),
            v,
        ));
        lemma_decode_extend(b1, b2, v, i + 1, k, w);
        let x = (last_or(decode_from(b1, prev, i), prev) + w - 1) as u32;
        assert(decode_from(b2, prev, i) =~= decode_from(b1, prev, i).push(x));
    }
}

/// The block compressor: a fixed density of `BLOCK_ITEMS` postings per
/// block, each slot holding `value - previous + 1` as a little-endian
/// 32-bit word, so that an all-zero suffix marks the end of a short block.
pub struct NaiveCompressor;

impl NaiveCompressor {
    /// Pops `n` postings from the buffer and codes them into one block.
    fn encode_items(buffer: &mut BiasedRingBuffer, n: usize) -> (b: Block)
        requires
            1 <= n <= BLOCK_ITEMS,
            n <= old(buffer)@.len(),
            codable_from(old(buffer).spec_base(), old(buffer)@),
        ensures
            decode_block(b, old(buffer).spec_base()) == old(buffer)@.take(n as int),
            final(buffer)@ == old(buffer)@.skip(n as int),
            final(buffer).spec_base() == old(buffer)@[n - 1],
    {
        let ghost s = buffer@;
        let ghost base0 = buffer.spec_base();
        let mut b = Block::empty();
        let mut prev: u32 = buffer.base().doc_id().0;
        let mut k: usize = 0;
        while k < n
            invariant
                1 <= n <= BLOCK_ITEMS,
                n <= s.len(),
                codable_from(base0, s),
                0 <= k <= n,
                buffer@ == s.skip(k as int),
                buffer.spec_base() == base0,
                prev == last_or(s.take(k as int), base0),
                decode_from(b, base0, 0).len() == k,
                decode_from(b, base0, 0) == s.take(k as int),
                forall|j: int| 4 * k <= j < BLOCKSIZE ==> b.0@[j] == 0,
            decreases n - k,
        {
            let ghost b_before = b;
            let p = match buffer.pop_front() {
                Some(p) => p,
                None => {
                    proof {
                        assert(false);
                    }
                    Posting(DocId(0))
                },
            };
            let v = p.0.0;
            proof {
                assert(s.skip(k as int)[0] == s[k as int]);
                lemma_codable_prefix(base0, s, k as int);
                assert(codable_from(prev, s.skip(k as int)));
                assert(prev <= v);
                assert(v < u32::MAX);
            }
            let w = v - prev + 1;
            write_word(&mut b, k, w);
            proof {
                lemma_decode_extend(b_before, b, base0, 0, k as int, w as int);
                assert(s.take(k as int).push(v) =~= s.take(k + 1 as int));
                assert forall|j: int| 4 * (k + 1) <= j < BLOCKSIZE implies b.0@[j] == 0 by {
                    assert(b.0@[j] == b_before.0@[j]);
                }
                assert(buffer@ =~= s.skip(k + 1 as int));
            }
            prev = v;
            k += 1;
        }
        proof {
            assert(s.take(n as int)[n - 1] == s[n - 1]);
        }
        buffer.set_base(Posting(DocId(prev)));
        b
    }

    /// If the buffer holds at least one block's worth of postings, pops
    /// them and returns the coded block; otherwise leaves the buffer
    /// untouched.
    pub fn compress(buffer: &mut BiasedRingBuffer) -> (r: Option<Block>)
        requires
            codable_from(old(buffer).spec_base(), old(buffer)@),
        ensures
            old(buffer)@.len() < BLOCK_ITEMS ==> r is None && *final(buffer) == *old(buffer),
            old(buffer)@.len() >= BLOCK_ITEMS ==> {
                &&& r is Some
                &&& decode_block(r.unwrap(), old(buffer).spec_base()) == old(buffer)@.take(
                    BLOCK_ITEMS as int,
                )
                &&& final(buffer)@ == old(buffer)@.skip(BLOCK_ITEMS as int)
                &&& final(buffer).spec_base() == old(buffer)@[BLOCK_ITEMS - 1]
            },
    {
        if buffer.count() < BLOCK_ITEMS {
            None
        } else {
            Some(Self::encode_items(buffer, BLOCK_ITEMS))
        }
    }

    /// Codes whatever remains in the buffer into one zero-padded block.
    pub fn force_compress(buffer: &mut BiasedRingBuffer) -> (b: Block)
        requires
            1 <= old(buffer)@.len() <= BLOCK_ITEMS,
            codable_from(old(buffer).spec_base(), old(buffer)@),
        ensures
            decode_block(b, old(buffer).spec_base()) == old(buffer)@,
            final(buffer)@ == Seq::<u32>::empty(),
            final(buffer).spec_base() == old(buffer)@.last(),
    {
        let n = buffer.count();
        let b = Self::encode_items(buffer, n);
        proof {
            assert(old(buffer)@.take(n as int) =~= old(buffer)@);
            assert(buffer@ =~= Seq::<u32>::empty());
        }
        b
    }

    /// Appends the postings coded in `block` to the buffer, delta-coded
    /// against the buffer's current base.
    pub fn decompress(block: Block, buffer: &mut BiasedRingBuffer) -> (n: usize)
        ensures
            final(buffer)@ == old(buffer)@ + decode_block(block, old(buffer).spec_base()),
            final(buffer).spec_base() == old(buffer).spec_base(),
            n == decode_block(block, old(buffer).spec_base()).len(),
    {
        let ghost base0 = buffer.spec_base();
        let ghost s0 = buffer@;
        let mut prev: u32 = buffer.base().doc_id().0;
        let mut i: usize = 0;
        let mut n: usize = 0;
        loop
            invariant
                0 <= i <= BLOCK_ITEMS,
                n == buffer@.len() - s0.len(),
                n <= i,
                buffer.spec_base() == base0,
                prev == last_or(buffer@.skip(s0.len() as int), base0),
                s0 + decode_block(block, base0) == buffer@ + decode_from(block, prev, i as int),
                buffer@.take(s0.len() as int) == s0,
            ensures
                buffer@ == s0 + decode_block(block, base0),
                buffer.spec_base() == base0,
                n == buffer@.len() - s0.len(),
            decreases BLOCK_ITEMS - i,
        {
            if i >= BLOCK_ITEMS {
                proof {
                    assert(decode_from(block, prev, i as int) =~= Seq::<u32>::empty());
                    assert(buffer@ =~= s0 + decode_block(block, base0));
                }
                break;
            }
            let w = read_word(&block, i);
            if w == 0 {
                proof {
                    assert(decode_from(block, prev, i as int) =~= Seq::<u32>::empty());
                    assert(buffer@ =~= s0 + decode_block(block, base0));
                }
                break;
            }
            // a slot that would leave the id range also ends the block
            if !(w - 1 <= u32::MAX - prev) {
                proof {
                    assert(prev + word_at(block, i as int) - 1 > u32::MAX);
                    assert(decode_from(block, prev, i as int) =~= Seq::<u32>::empty());
                    assert(buffer@ =~= s0 + decode_block(block, base0));
                }
                break;
            }
            let v = prev + (w - 1);
            let ghost pushed = buffer@;
            buffer.push_back(Posting(DocId(v)));
            proof {
                assert(decode_from(block, prev, i as int) == seq![v] + decode_from(
                    block,
                    v,
                    i + 1 as int,
                ));
                assert(buffer@ + decode_from(block, v, i + 1 as int) =~= pushed + decode_from(
                    block,
                    prev,
                    i as int,
                ));
                assert(buffer@.skip(s0.len() as int).last() == v);
                assert(buffer@.take(s0.len() as int) =~= s0);
            }
            prev = v;
            i += 1;
            n += 1;
        }
        n
    }
}

} // verus!
