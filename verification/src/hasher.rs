//! The incremental SHA-1 hasher, verified against the model.

use crate::model::{
    be64, compress, digest_spec, h_init, lemma_process_blocks_append, lemma_process_one_block,
    lemma_sched_alt, padding, process_blocks, rotl, rounds, sched, word_be, Regs, MAX_MSG_LEN,
};
use vstd::prelude::*;

verus! {

/// SHA-1 hash state. Represents one single hash.
///
/// Can be reset and reused, but cannot hash more than one thing at
/// once. Can be cloned if multiple pieces of data share a common
/// prefix. Using a finished state again without calling [`Sha1::reset`]
/// is documented misuse: it cannot crash, but the digest it then
/// produces continues from the padded state and is not meaningful.
pub struct Sha1 {
    /// 512-bit block buffer; only the first `used` bytes are
    /// meaningful between calls.
    pub chunk: [u8; 64],
    /// Number of buffered bytes not yet compressed.
    pub used: u8,
    /// Number of 64-byte blocks compressed so far.
    pub chunks_processed: u64,
    /// The five running hash words.
    pub h0: u32,
    pub h1: u32,
    pub h2: u32,
    pub h3: u32,
    pub h4: u32,
    /// The bytes absorbed since construction or the last reset.
    pub absorbed: Ghost<Seq<u8>>,
}

impl Sha1 {
    /// The running hash words as a sequence.
    pub open spec fn hwords(self) -> Seq<u32> {
        seq![self.h0, self.h1, self.h2, self.h3, self.h4]
    }

    /// Well-formedness: the counters split the absorbed bytes into
    /// full blocks and a buffered tail, the hash words are the model's
    /// fold over the full blocks, and the buffer holds the tail.
    pub open spec fn wf(self) -> bool {
        let n = self.absorbed@.len() as int;
        let full = 64 * (self.chunks_processed as int);
        &&& n <= MAX_MSG_LEN
        &&& self.used as int == n % 64
        &&& self.chunks_processed as int == n / 64
        &&& self.hwords() == process_blocks(h_init(), self.absorbed@.take(full))
        &&& self.chunk@.take(self.used as int) == self.absorbed@.skip(full)
    }

    /// A state that has absorbed nothing: the fixed initial hash
    /// words and empty counters, as produced by [`Sha1::new`] and
    /// [`Sha1::reset`].
    pub open spec fn is_fresh(self) -> bool {
        &&& self.used == 0
        &&& self.chunks_processed == 0
        &&& self.h0 == 0x67452301u32
        &&& self.h1 == 0xEFCDAB89u32
        &&& self.h2 == 0x98BADCFEu32
        &&& self.h3 == 0x10325476u32
        &&& self.h4 == 0xC3D2E1F0u32
        &&& self.absorbed@ == Seq::<u8>::empty()
    }

    /// Creates a new empty `Sha1` state.
    pub fn new() -> (r: Sha1)
        ensures
            r.wf(),
            r.is_fresh(),
    {
        let r = Sha1 {
            chunk: [0; 64],
            used: 0,
            chunks_processed: 0,
            h0: 0x67452301,
            h1: 0xEFCDAB89,
            h2: 0x98BADCFE,
            h3: 0x10325476,
            h4: 0xC3D2E1F0,
            absorbed: Ghost(Seq::empty()),
        };
        proof {
            assert(r.absorbed@.take(0) =~= Seq::<u8>::empty());
            assert(r.absorbed@.skip(0) =~= Seq::<u8>::empty());
            assert(r.chunk@.take(0) =~= Seq::<u8>::empty());
            assert(r.hwords() =~= h_init());
        }
        r
    }

    /// Re-initializes the state to act like a brand new `Sha1`. May be
    /// slightly faster than `Sha1::new()` because the internal 64-byte
    /// block buffer is not zeroed: with `used == 0` its stale contents
    /// are unreachable.
    pub fn reset(&mut self)
        ensures
            final(self).wf(),
            final(self).is_fresh(),
            final(self).chunk == old(self).chunk,
    {
        self.used = 0;
        self.chunks_processed = 0;
        self.h0 = 0x67452301;
        self.h1 = 0xEFCDAB89;
        self.h2 = 0x98BADCFE;
        self.h3 = 0x10325476;
        self.h4 = 0xC3D2E1F0;
        self.absorbed = Ghost(Seq::empty());
        proof {
            assert(self.absorbed@.take(0) =~= Seq::<u8>::empty());
            assert(self.absorbed@.skip(0) =~= Seq::<u8>::empty());
            assert(self.chunk@.take(0) =~= Seq::<u8>::empty());
            assert(self.hwords() =~= h_init());
        }
    }

    /// True when `a` and `b` agree on every field except the block
    /// buffer.
    spec fn eq_except_chunk(a: Sha1, b: Sha1) -> bool {
        &&& a.used == b.used
        &&& a.chunks_processed == b.chunks_processed
        &&& a.h0 == b.h0
        &&& a.h1 == b.h1
        &&& a.h2 == b.h2
        &&& a.h3 == b.h3
        &&& a.h4 == b.h4
        &&& a.absorbed == b.absorbed
    }

    /// Copies `data[start .. start + count]` into the buffer at
    /// `offset`, leaving every other byte and field unchanged.
    fn copy_into_chunk(&mut self, data: &[u8], offset: usize, start: usize, count: usize)
        requires
            offset + count <= 64,
            start + count <= data@.len(),
        ensures
            final(self).chunk@ == old(self).chunk@.take(offset as int) + data@.subrange(
                start as int,
                (start + count) as int,
            ) + old(self).chunk@.skip((offset + count) as int),
            Self::eq_except_chunk(*final(self), *old(self)),
    {
        let dlen: usize = data.len();
        let mut j: usize = 0;
        while j < count
            invariant
                j <= count,
                offset + count <= 64,
                start + count <= dlen,
                dlen == data@.len(),
                self.chunk@.len() == 64,
                forall|k: int| 0 <= k < offset ==> self.chunk@[k] == old(self).chunk@[k],
                forall|k: int|
                    offset <= k < offset + j ==> self.chunk@[k] == data@[start + (k - offset)],
                forall|k: int| offset + j <= k < 64 ==> self.chunk@[k] == old(self).chunk@[k],
                Self::eq_except_chunk(*self, *old(self)),
            decreases count - j,
        {
            self.chunk[offset + j] = data[start + j];
            j = j + 1;
        }
        proof {
            assert(self.chunk@ =~= old(self).chunk@.take(offset as int) + data@.subrange(
                start as int,
                (start + count) as int,
            ) + old(self).chunk@.skip((offset + count) as int));
        }
    }

    /// Writes `count` zero bytes into the buffer at `offset`, leaving
    /// every other byte and field unchanged.
    fn zero_chunk_range(&mut self, offset: usize, count: usize)
        requires
            offset + count <= 64,
        ensures
            final(self).chunk@ == old(self).chunk@.take(offset as int) + Seq::new(
                count as nat,
                |k: int| 0u8,
            ) + old(self).chunk@.skip((offset + count) as int),
            Self::eq_except_chunk(*final(self), *old(self)),
    {
        let mut j: usize = 0;
        while j < count
            invariant
                j <= count,
                offset + count <= 64,
                self.chunk@.len() == 64,
                forall|k: int| 0 <= k < offset ==> self.chunk@[k] == old(self).chunk@[k],
                forall|k: int| offset <= k < offset + j ==> self.chunk@[k] == 0u8,
                forall|k: int| offset + j <= k < 64 ==> self.chunk@[k] == old(self).chunk@[k],
                Self::eq_except_chunk(*self, *old(self)),
            decreases count - j,
        {
            self.chunk[offset + j] = 0;
            j = j + 1;
        }
        proof {
            assert(self.chunk@ =~= old(self).chunk@.take(offset as int) + Seq::new(
                count as nat,
                |k: int| 0u8,
            ) + old(self).chunk@.skip((offset + count) as int));
        }
    }

    /// Mixes the full 64-byte buffer into the hash words, exactly as
    /// the model's compression function describes, and counts the
    /// block.
    fn process_chunk(&mut self)
        requires
            old(self).chunks_processed < u64::MAX,
        ensures
            final(self).hwords() == compress(old(self).hwords(), old(self).chunk@),
            final(self).chunks_processed == old(self).chunks_processed + 1,
            final(self).chunk == old(self).chunk,
            final(self).used == old(self).used,
            final(self).absorbed == old(self).absorbed,
    {
        self.chunks_processed = self.chunks_processed + 1;

        let ghost blk = self.chunk@;
        let ghost h = self.hwords();

        // 80-word message schedule.
        let mut w: [u32; 80] = [0; 80];

        // Fill the first 16 words with the block's bytes, big-endian.
        let mut i: usize = 0;
        while i < 16
            invariant
                i <= 16,
                forall|j: int| 0 <= j < i ==> w@[j] == sched(blk, j),
                blk == self.chunk@,
            decreases 16 - i,
        {
            w[i] = ((self.chunk[4 * i] as u32) << 24u32) | ((self.chunk[4 * i + 1] as u32)
                << 16u32) | ((self.chunk[4 * i + 2] as u32) << 8u32) | (self.chunk[4 * i + 3]
                as u32);
            assert(w@[i as int] == word_be(blk, i as int));
            i = i + 1;
        }

        // Extend to 32 words by the canonical rotate-by-one recurrence.
        while i < 32
            invariant
                16 <= i <= 32,
                forall|j: int| 0 <= j < i ==> w@[j] == sched(blk, j),
            decreases 32 - i,
        {
            let x: u32 = w[i - 3] ^ w[i - 8] ^ w[i - 14] ^ w[i - 16];
            assert(x == (sched(blk, i as int - 3) ^ sched(blk, i as int - 8) ^ sched(
                blk,
                i as int - 14,
            ) ^ sched(blk, i as int - 16)));
            w[i] = leftrotate(x, 1);
            assert(w@[i as int] == sched(blk, i as int));
            i = i + 1;
        }

        // Extend to 80 words by the equivalent rotate-by-two form,
        // which reaches further back and is slightly faster.
        while i < 80
            invariant
                32 <= i <= 80,
                forall|j: int| 0 <= j < i ==> w@[j] == sched(blk, j),
            decreases 80 - i,
        {
            let x: u32 = w[i - 6] ^ w[i - 16] ^ w[i - 28] ^ w[i - 32];
            w[i] = leftrotate(x, 2);
            proof {
                lemma_sched_alt(blk, i as int);
            }
            assert(w@[i as int] == sched(blk, i as int));
            i = i + 1;
        }

        // Initialize the working registers from the hash words.
        let mut a: u32 = self.h0;
        let mut b: u32 = self.h1;
        let mut c: u32 = self.h2;
        let mut d: u32 = self.h3;
        let mut e: u32 = self.h4;
        let ghost s0 = Regs { a: a, b: b, c: c, d: d, e: e };

        let mut r: usize = 0;
        while r < 20
            invariant
                r <= 20,
                forall|j: int| 0 <= j < 80 ==> w@[j] == sched(blk, j),
                (Regs { a: a, b: b, c: c, d: d, e: e }) == rounds(blk, s0, r as int),
            decreases 20 - r,
        {
            let f: u32 = (b & c) | (!b & d);
            let tmp: u32 = leftrotate(a, 5).wrapping_add(f).wrapping_add(e).wrapping_add(
                0x5A827999,
            ).wrapping_add(w[r]);
            e = d;
            d = c;
            c = leftrotate(b, 30);
            b = a;
            a = tmp;
            r = r + 1;
        }

        while r < 40
            invariant
                20 <= r <= 40,
                forall|j: int| 0 <= j < 80 ==> w@[j] == sched(blk, j),
                (Regs { a: a, b: b, c: c, d: d, e: e }) == rounds(blk, s0, r as int),
            decreases 40 - r,
        {
            let f: u32 = b ^ c ^ d;
            let tmp: u32 = leftrotate(a, 5).wrapping_add(f).wrapping_add(e).wrapping_add(
                0x6ED9EBA1,
            ).wrapping_add(w[r]);
            e = d;
            d = c;
            c = leftrotate(b, 30);
            b = a;
            a = tmp;
            r = r + 1;
        }

        while r < 60
            invariant
                40 <= r <= 60,
                forall|j: int| 0 <= j < 80 ==> w@[j] == sched(blk, j),
                (Regs { a: a, b: b, c: c, d: d, e: e }) == rounds(blk, s0, r as int),
            decreases 60 - r,
        {
            let f: u32 = (b & c) | (b & d) | (c & d);
            let tmp: u32 = leftrotate(a, 5).wrapping_add(f).wrapping_add(e).wrapping_add(
                0x8F1BBCDC,
            ).wrapping_add(w[r]);
            e = d;
            d = c;
            c = leftrotate(b, 30);
            b = a;
            a = tmp;
            r = r + 1;
        }

        while r < 80
            invariant
                60 <= r <= 80,
                forall|j: int| 0 <= j < 80 ==> w@[j] == sched(blk, j),
                (Regs { a: a, b: b, c: c, d: d, e: e }) == rounds(blk, s0, r as int),
            decreases 80 - r,
        {
            let f: u32 = b ^ c ^ d;
            let tmp: u32 = leftrotate(a, 5).wrapping_add(f).wrapping_add(e).wrapping_add(
                0xCA62C1D6,
            ).wrapping_add(w[r]);
            e = d;
            d = c;
            c = leftrotate(b, 30);
            b = a;
            a = tmp;
            r = r + 1;
        }

        // Fold the round result back into the running hash words.
        self.h0 = self.h0.wrapping_add(a);
        self.h1 = self.h1.wrapping_add(b);
        self.h2 = self.h2.wrapping_add(c);
        self.h3 = self.h3.wrapping_add(d);
        self.h4 = self.h4.wrapping_add(e);
        proof {
            assert(self.hwords() =~= compress(h, blk));
        }
    }
    /// Absorbs `data` into the hash. A full block is compressed for
    /// every 64 bytes passed to the state through this function,
    /// including bytes carried over from previous calls; the rest is
    /// buffered, so the buffer always keeps at least one byte free.
    ///
    /// The length bound keeps the total bit count inside the 64-bit
    /// length suffix that finalization appends.
    pub fn update(&mut self, data: &[u8])
        requires
            old(self).wf(),
            old(self).absorbed@.len() + data@.len() <= MAX_MSG_LEN,
        ensures
            final(self).wf(),
            final(self).absorbed@ == old(self).absorbed@ + data@,
    {
        let ghost orig = self.absorbed@;

        // Buffer occupancy, tracked in locals while blocks are
        // compressed; `self.used` is written back once at the end.
        let mut used: usize = self.used as usize;
        let mut free: usize = 64 - used;

        // Progress through `data`.
        let mut i: usize = 0;
        let mut remaining: usize = data.len();

        // While the input can fill the rest of the block, fill it and
        // compress the full block.
        while remaining >= free
            invariant
                used < 64,
                free == 64 - used,
                i + remaining == data@.len(),
                data@.len() <= usize::MAX,
                orig.len() + data@.len() <= MAX_MSG_LEN,
                self.absorbed@ == orig + data@.take(i as int),
                used as int == self.absorbed@.len() % 64,
                self.chunks_processed as int == self.absorbed@.len() / 64,
                self.hwords() == process_blocks(
                    h_init(),
                    self.absorbed@.take(64 * (self.chunks_processed as int)),
                ),
                self.chunk@.take(used as int) == self.absorbed@.skip(
                    64 * (self.chunks_processed as int),
                ),
            decreases remaining,
        {
            let ghost pre = *self;
            let ghost c: int = self.chunks_processed as int;

            self.copy_into_chunk(data, used, i, free);
            proof {
                assert(self.chunk@.take(used as int) =~= pre.chunk@.take(used as int));
                assert(self.chunk@ =~= self.chunk@.take(used as int) + data@.subrange(
                    i as int,
                    (i + free) as int,
                ));
            }
            self.absorbed = Ghost(self.absorbed@ + data@.subrange(i as int, (i + free) as int));
            proof {
                assert(self.absorbed@.len() == 64 * (c + 1));
                assert(self.absorbed@.take(64 * c) =~= pre.absorbed@.take(64 * c));
                assert(self.absorbed@.skip(64 * c) =~= pre.absorbed@.skip(64 * c) + data@
                    .subrange(i as int, (i + free) as int));
                assert(self.absorbed@.take(64 * (c + 1)) =~= self.absorbed@);
                assert(self.absorbed@ =~= pre.absorbed@.take(64 * c) + self.chunk@);
            }
            self.process_chunk();
            proof {
                lemma_process_blocks_append(h_init(), pre.absorbed@.take(64 * c), self.chunk@);
                lemma_process_one_block(
                    process_blocks(h_init(), pre.absorbed@.take(64 * c)),
                    self.chunk@,
                );
                assert(self.hwords() == process_blocks(
                    h_init(),
                    self.absorbed@.take(64 * (self.chunks_processed as int)),
                ));
                assert(self.chunk@.take(0) =~= self.absorbed@.skip(64 * (c + 1)));
                assert(orig + data@.take(i as int) + data@.subrange(i as int, (i + free) as int)
                    =~= orig + data@.take((i + free) as int));
            }
            remaining = remaining - free;
            i = i + free;
            used = 0;
            free = 64;
        }

        // Buffer the remainder of the input, which now fits.
        let ghost pre = *self;
        let ghost c: int = self.chunks_processed as int;
        self.copy_into_chunk(data, used, i, remaining);
        self.used = (used + remaining) as u8;
        self.absorbed = Ghost(orig + data@);
        proof {
            assert(data@.take(i as int) + data@.subrange(i as int, data@.len() as int) =~= data@);
            assert(self.absorbed@.len() == pre.absorbed@.len() + remaining);
            assert(self.absorbed@.take(64 * c) =~= pre.absorbed@.take(64 * c));
            assert(self.chunk@.take(used as int) =~= pre.chunk@.take(used as int));
            assert(self.chunk@.take((used + remaining) as int) =~= pre.chunk@.take(used as int)
                + data@.subrange(i as int, (i + remaining) as int));
            assert(self.absorbed@.skip(64 * c) =~= pre.absorbed@.skip(64 * c) + data@.subrange(
                i as int,
                (i + remaining) as int,
            ));
        }
    }

    /// Writes the message bit length into buffer positions 56 to 63,
    /// big-endian, leaving every other byte and field unchanged.
    fn write_length(&mut self, message_length: u64)
        ensures
            final(self).chunk@ == old(self).chunk@.take(56) + be64(message_length),
            Self::eq_except_chunk(*final(self), *old(self)),
    {
        proof {
            assert(((message_length >> 56u64) & 0xff) <= 0xff && ((message_length >> 48u64)
                & 0xff) <= 0xff && ((message_length >> 40u64) & 0xff) <= 0xff && ((
            message_length >> 32u64) & 0xff) <= 0xff && ((message_length >> 24u64) & 0xff)
                <= 0xff && ((message_length >> 16u64) & 0xff) <= 0xff && ((message_length
                >> 8u64) & 0xff) <= 0xff && (message_length & 0xff) <= 0xff) by (bit_vector);
        }
        self.chunk[56] = ((message_length >> 56u64) & 0xff) as u8;
        self.chunk[57] = ((message_length >> 48u64) & 0xff) as u8;
        self.chunk[58] = ((message_length >> 40u64) & 0xff) as u8;
        self.chunk[59] = ((message_length >> 32u64) & 0xff) as u8;
        self.chunk[60] = ((message_length >> 24u64) & 0xff) as u8;
        self.chunk[61] = ((message_length >> 16u64) & 0xff) as u8;
        self.chunk[62] = ((message_length >> 8u64) & 0xff) as u8;
        self.chunk[63] = (message_length & 0xff) as u8;
        proof {
            assert(self.chunk@ =~= old(self).chunk@.take(56) + be64(message_length));
        }
    }

    /// Finishes the hash: pads the buffered tail as the model's
    /// padding describes, compresses the final block or blocks, and
    /// returns the digest of everything absorbed since the last reset.
    ///
    /// The state is consumed: using it again without [`Sha1::reset`]
    /// continues from the padded state and produces no meaningful
    /// digest.
    pub fn finish(&mut self) -> (r: [u32; 5])
        requires
            old(self).wf(),
        ensures
            r@ == digest_spec(old(self).absorbed@),
    {
        let ghost msg = self.absorbed@;
        let ghost pad = padding(msg.len() as nat);
        let ghost padded = msg + pad;
        let ghost c: int = self.chunks_processed as int;
        let ghost u: int = self.used as int;
        let ghost pending = msg.skip(64 * c);

        // The total bit count, captured before padding disturbs the
        // counters.
        let message_length: u64 = self.chunks_processed * 512 + 8 * (self.used as u64);
        proof {
            assert(message_length == 8 * msg.len());
        }

        // Terminator byte.
        self.chunk[self.used as usize] = 0x80;
        self.used = self.used + 1;

        if self.used <= 56 {
            // One final block: zeros up to the length suffix.
            proof {
                assert(pad.len() == 64 - u);
            }
            self.zero_chunk_range(self.used as usize, 56 - self.used as usize);
            self.write_length(message_length);
            proof {
                assert(self.chunk@ =~= pending + pad);
                assert(padded.skip(64 * c) =~= pending + pad);
                assert(padded.take(64 * c) =~= msg.take(64 * c));
            }
            self.process_chunk();
            proof {
                lemma_process_blocks_append(h_init(), padded.take(64 * c), self.chunk@);
                lemma_process_one_block(
                    process_blocks(h_init(), padded.take(64 * c)),
                    self.chunk@,
                );
                assert(padded.take(64 * c) + self.chunk@ =~= padded);
            }
        } else {
            // No room for the length suffix: close this block with
            // zeros and compress it, then build a second block of
            // zeros and the length suffix.
            proof {
                assert(pad.len() == 128 - u);
            }
            self.zero_chunk_range(self.used as usize, 64 - self.used as usize);
            proof {
                assert(self.chunk@ =~= (pending + seq![0x80u8]) + Seq::new(
                    (63 - u) as nat,
                    |k: int| 0u8,
                ));
                assert(padded.skip(64 * c).take(64) =~= (pending + seq![0x80u8]) + Seq::new(
                    (63 - u) as nat,
                    |k: int| 0u8,
                ));
                assert(self.chunk@ =~= padded.skip(64 * c).take(64));
                assert(padded.take(64 * c) =~= msg.take(64 * c));
                assert(padded.take(64 * c) + self.chunk@ =~= padded.take(64 * (c + 1)));
            }
            self.process_chunk();
            proof {
                lemma_process_blocks_append(h_init(), padded.take(64 * c), self.chunk@);
                lemma_process_one_block(
                    process_blocks(h_init(), padded.take(64 * c)),
                    self.chunk@,
                );
            }
            self.zero_chunk_range(0, 56);
            self.write_length(message_length);
            proof {
                assert(self.chunk@ =~= padded.skip(64 * (c + 1)));
                assert(padded.take(64 * (c + 1)) + self.chunk@ =~= padded);
            }
            self.process_chunk();
            proof {
                lemma_process_blocks_append(
                    h_init(),
                    padded.take(64 * (c + 1)),
                    self.chunk@,
                );
                lemma_process_one_block(
                    process_blocks(h_init(), padded.take(64 * (c + 1))),
                    self.chunk@,
                );
            }
        }

        let r = [self.h0, self.h1, self.h2, self.h3, self.h4];
        proof {
            assert(r@ =~= self.hwords());
        }
        r
    }

    /// One-shot digest of an in-memory byte sequence. Equivalent to
    /// `Sha1::new()`, one `update(data)`, and `finish()`.
    pub fn digest(data: &[u8]) -> (r: [u32; 5])
        requires
            data@.len() <= MAX_MSG_LEN,
        ensures
            r@ == digest_spec(data@),
    {
        let mut s = Sha1::new();
        proof {
            assert(Seq::<u8>::empty() + data@ =~= data@);
        }
        s.update(data);
        s.finish()
    }
}

impl Clone for Sha1 {
    /// A deep, independent copy of the state: the clone carries the
    /// same buffer, counters, hash words and absorbed bytes, and
    /// shares nothing with the original, so mutating either afterwards
    /// leaves the other's digest untouched.
    fn clone(&self) -> (r: Sha1)
        ensures
            r == *self,
    {
        Sha1 {
            chunk: self.chunk,
            used: self.used,
            chunks_processed: self.chunks_processed,
            h0: self.h0,
            h1: self.h1,
            h2: self.h2,
            h3: self.h3,
            h4: self.h4,
            absorbed: self.absorbed,
        }
    }
}

/// Exact-block boundary: in any well-formed state that has absorbed a
/// whole number of blocks, the buffer is empty and every block has
/// been compressed. In particular, absorbing exactly 64 bytes into a
/// fresh state leaves `used == 0` and `chunks_processed == 1`.
pub proof fn lemma_block_boundary(s: Sha1)
    requires
        s.wf(),
        s.absorbed@.len() % 64 == 0,
    ensures
        s.used == 0,
        64 * (s.chunks_processed as int) == s.absorbed@.len(),
{
}

/// Reset equivalence: any two states that have absorbed nothing — a
/// freshly constructed state, or any state right after `reset` —
/// finish to the same digest, the digest of the empty sequence.
pub proof fn lemma_fresh_states_agree(a: Sha1, b: Sha1)
    requires
        a.is_fresh(),
        b.is_fresh(),
    ensures
        digest_spec(a.absorbed@) == digest_spec(b.absorbed@),
{
}

/// Circular left rotation of a 32-bit word by `bits` bits.
fn leftrotate(word: u32, bits: u8) -> (r: u32)
    requires
        0 < bits < 32,
    ensures
        r == rotl(word, bits as u32),
{
    (word << (bits as u32)) | (word >> (32u32 - (bits as u32)))
}

} // verus!
