//! Mathematical model of SHA-1.
//!
//! Everything here is specification-level: the padding rule, the
//! 80-word message schedule, the four round groups of the compression
//! function, and the digest of an arbitrary byte sequence. The
//! executable hasher is verified against [`digest_spec`].

use vstd::prelude::*;

verus! {

/// Largest message length, in bytes, whose bit length fits the 64-bit
/// length suffix that the padding appends.
pub const MAX_MSG_LEN: u64 = 0x1FFF_FFFF_FFFF_FFFF;

/// Circular left rotation of a 32-bit word by `n` bits, `0 < n < 32`.
pub open spec fn rotl(x: u32, n: u32) -> u32
    recommends
        0 < n < 32,
{
    (x << n) | (x >> ((32 - n) as u32))
}

/// Addition of two 32-bit words modulo 2^32.
pub open spec fn w_add(x: u32, y: u32) -> u32 {
    if x + y > u32::MAX {
        (x + y - 0x1_0000_0000) as u32
    } else {
        (x + y) as u32
    }
}

/// The `i`-th big-endian 32-bit word of a byte sequence.
pub open spec fn word_be(b: Seq<u8>, i: int) -> u32
    recommends
        0 <= i,
        4 * i + 4 <= b.len(),
{
    ((b[4 * i] as u32) << 24u32) | ((b[4 * i + 1] as u32) << 16u32) | ((b[4 * i + 2] as u32)
        << 8u32) | (b[4 * i + 3] as u32)
}

/// The `i`-th word of the message schedule of a 64-byte block: the
/// block's own sixteen words, extended by the canonical
/// rotate-by-one recurrence.
pub open spec fn sched(b: Seq<u8>, i: int) -> u32
    recommends
        b.len() == 64,
        0 <= i < 80,
    decreases i,
{
    if i < 16 {
        word_be(b, i)
    } else {
        rotl(sched(b, i - 3) ^ sched(b, i - 8) ^ sched(b, i - 14) ^ sched(b, i - 16), 1)
    }
}

/// The round function of round `r`.
pub open spec fn f_round(r: int, b: u32, c: u32, d: u32) -> u32
    recommends
        0 <= r < 80,
{
    if r < 20 {
        (b & c) | (!b & d)
    } else if r < 40 {
        b ^ c ^ d
    } else if r < 60 {
        (b & c) | (b & d) | (c & d)
    } else {
        b ^ c ^ d
    }
}

/// The additive constant of round `r`.
pub open spec fn k_round(r: int) -> u32
    recommends
        0 <= r < 80,
{
    if r < 20 {
        0x5A827999
    } else if r < 40 {
        0x6ED9EBA1
    } else if r < 60 {
        0x8F1BBCDC
    } else {
        0xCA62C1D6
    }
}

/// The five working registers of the compression function.
pub struct Regs {
    pub a: u32,
    pub b: u32,
    pub c: u32,
    pub d: u32,
    pub e: u32,
}

/// One round of the compression function on block `b64`.
pub open spec fn step(b64: Seq<u8>, r: int, s: Regs) -> Regs
    recommends
        b64.len() == 64,
        0 <= r < 80,
{
    Regs {
        a: w_add(
            w_add(w_add(w_add(rotl(s.a, 5), f_round(r, s.b, s.c, s.d)), s.e), k_round(r)),
            sched(b64, r),
        ),
        b: s.a,
        c: rotl(s.b, 30),
        d: s.c,
        e: s.d,
    }
}

/// The registers after the first `r` rounds on block `b64`, starting
/// from `s0`.
pub open spec fn rounds(b64: Seq<u8>, s0: Regs, r: int) -> Regs
    recommends
        b64.len() == 64,
        0 <= r <= 80,
    decreases r,
{
    if r <= 0 {
        s0
    } else {
        step(b64, r - 1, rounds(b64, s0, r - 1))
    }
}

/// The compression function: mixes one 64-byte block into the five
/// running hash words.
pub open spec fn compress(h: Seq<u32>, b64: Seq<u8>) -> Seq<u32>
    recommends
        h.len() == 5,
        b64.len() == 64,
{
    let s = rounds(b64, Regs { a: h[0], b: h[1], c: h[2], d: h[3], e: h[4] }, 80);
    seq![
        w_add(h[0], s.a),
        w_add(h[1], s.b),
        w_add(h[2], s.c),
        w_add(h[3], s.d),
        w_add(h[4], s.e),
    ]
}

/// The five initial hash words.
pub open spec fn h_init() -> Seq<u32> {
    seq![0x67452301u32, 0xEFCDAB89u32, 0x98BADCFEu32, 0x10325476u32, 0xC3D2E1F0u32]
}

/// Folds the compression function over every full leading 64-byte
/// block of `data`; a trailing partial block is left untouched.
pub open spec fn process_blocks(h: Seq<u32>, data: Seq<u8>) -> Seq<u32>
    recommends
        h.len() == 5,
    decreases data.len(),
{
    if data.len() < 64 {
        h
    } else {
        process_blocks(compress(h, data.take(64)), data.skip(64))
    }
}

/// The eight big-endian bytes of a 64-bit word.
pub open spec fn be64(x: u64) -> Seq<u8> {
    seq![
        ((x >> 56u64) & 0xff) as u8,
        ((x >> 48u64) & 0xff) as u8,
        ((x >> 40u64) & 0xff) as u8,
        ((x >> 32u64) & 0xff) as u8,
        ((x >> 24u64) & 0xff) as u8,
        ((x >> 16u64) & 0xff) as u8,
        ((x >> 8u64) & 0xff) as u8,
        (x & 0xff) as u8,
    ]
}

/// How many zero bytes the padding inserts between the 0x80 marker
/// and the length suffix for a message of `len` bytes.
pub open spec fn pad_zero_count(len: nat) -> nat {
    ((64 - ((len + 9) % 64)) % 64) as nat
}

/// The standard padding appended to a message of `len` bytes: a 0x80
/// byte, the shortest zero fill that makes the total a multiple of 64,
/// and the message's bit length as eight big-endian bytes.
pub open spec fn padding(len: nat) -> Seq<u8>
    recommends
        len <= MAX_MSG_LEN,
{
    seq![0x80u8] + Seq::new(pad_zero_count(len), |i: int| 0u8) + be64((len * 8) as u64)
}

/// The SHA-1 digest of an arbitrary byte sequence, as five 32-bit
/// words.
pub open spec fn digest_spec(data: Seq<u8>) -> Seq<u32>
    recommends
        data.len() <= MAX_MSG_LEN,
{
    process_blocks(h_init(), data + padding(data.len() as nat))
}

/// The bytes a hasher has absorbed after feeding it the given pieces
/// in order, one `update` call per piece: each call appends its piece
/// to what was absorbed before.
pub open spec fn absorb_pieces(pieces: Seq<Seq<u8>>) -> Seq<u8>
    decreases pieces.len(),
{
    if pieces.len() == 0 {
        Seq::empty()
    } else {
        absorb_pieces(pieces.drop_last()) + pieces.last()
    }
}

/// Chunking invariance: however a message is split into consecutive
/// pieces, empty pieces included, feeding the pieces through
/// successive `update` calls absorbs exactly their concatenation, so
/// finishing afterwards yields the same digest as absorbing the whole
/// message in one call.
pub proof fn lemma_chunking_invariance(pieces: Seq<Seq<u8>>)
    ensures
        absorb_pieces(pieces) == pieces.flatten(),
        digest_spec(absorb_pieces(pieces)) == digest_spec(pieces.flatten()),
    decreases pieces.len(),
{
    if pieces.len() == 0 {
        assert(pieces.flatten() =~= Seq::<u8>::empty());
    } else {
        lemma_chunking_invariance(pieces.drop_last());
        pieces.lemma_flatten_and_flatten_alt_are_equivalent();
        assert(pieces.flatten_alt() == pieces.drop_last().flatten_alt() + pieces.last());
        pieces.drop_last().lemma_flatten_and_flatten_alt_are_equivalent();
    }
}

/// The padding boundary: padding always closes the message to a whole
/// number of blocks, with a single extra block exactly when the
/// buffered tail has reached 56 bytes — the point where the 0x80
/// marker and the eight length bytes no longer fit.
pub proof fn lemma_padding_boundary(len: nat)
    requires
        len <= MAX_MSG_LEN,
    ensures
        (len + padding(len).len()) % 64 == 0,
        len % 64 < 56 ==> padding(len).len() == 64 - (len % 64),
        len % 64 >= 56 ==> padding(len).len() == 128 - (len % 64),
{
}

/// Processing a sequence that is exactly one block long is one
/// application of the compression function.
pub proof fn lemma_process_one_block(h: Seq<u32>, b64: Seq<u8>)
    requires
        b64.len() == 64,
    ensures
        process_blocks(h, b64) == compress(h, b64),
{
    assert(b64.take(64) =~= b64);
    assert(b64.skip(64) =~= Seq::<u8>::empty());
    assert(process_blocks(compress(h, b64), b64.skip(64)) == compress(h, b64));
}

/// Blocks can be processed in stages: folding the compression
/// function over `a + b` equals folding it over `a` first and then
/// over `b`, as long as `a` is a whole number of blocks.
pub proof fn lemma_process_blocks_append(h: Seq<u32>, a: Seq<u8>, b: Seq<u8>)
    requires
        a.len() % 64 == 0,
    ensures
        process_blocks(h, a + b) == process_blocks(process_blocks(h, a), b),
    decreases a.len(),
{
    if a.len() == 0 {
        assert(a + b =~= b);
    } else {
        assert((a + b).take(64) =~= a.take(64));
        assert((a + b).skip(64) =~= a.skip(64) + b);
        lemma_process_blocks_append(compress(h, a.take(64)), a.skip(64), b);
    }
}

/// From word 32 on, the schedule can equivalently be computed by a
/// single rotation by two of words six, sixteen, twenty-eight and
/// thirty-two positions back. This identity justifies the faster
/// second expansion loop of the hasher: rotation distributes over
/// exclusive or, so unfolding the canonical recurrence one level makes
/// six of the sixteen inner terms cancel in pairs.
pub proof fn lemma_sched_alt(blk: Seq<u8>, i: int)
    requires
        32 <= i < 80,
    ensures
        sched(blk, i) == rotl(
            sched(blk, i - 6) ^ sched(blk, i - 16) ^ sched(blk, i - 28) ^ sched(blk, i - 32),
            2,
        ),
{
    let x6 = sched(blk, i - 6);
    let x11 = sched(blk, i - 11);
    let x16 = sched(blk, i - 16);
    let x17 = sched(blk, i - 17);
    let x19 = sched(blk, i - 19);
    let x22 = sched(blk, i - 22);
    let x24 = sched(blk, i - 24);
    let x28 = sched(blk, i - 28);
    let x30 = sched(blk, i - 30);
    let x32 = sched(blk, i - 32);
    let p = x6 ^ x11 ^ x17 ^ x19;
    let q = x11 ^ x16 ^ x22 ^ x24;
    let u = x17 ^ x22 ^ x28 ^ x30;
    let v = x19 ^ x24 ^ x30 ^ x32;
    assert(sched(blk, i - 3) == rotl(p, 1));
    assert(sched(blk, i - 8) == rotl(q, 1));
    assert(sched(blk, i - 14) == rotl(u, 1));
    assert(sched(blk, i - 16) == rotl(v, 1));
    assert(sched(blk, i) == rotl(rotl(p, 1) ^ rotl(q, 1) ^ rotl(u, 1) ^ rotl(v, 1), 1));
    assert(rotl(rotl(p, 1) ^ rotl(q, 1) ^ rotl(u, 1) ^ rotl(v, 1), 1) == rotl(
        x6 ^ x16 ^ x28 ^ x32,
        2,
    )) by (bit_vector)
        requires
            p == x6 ^ x11 ^ x17 ^ x19,
            q == x11 ^ x16 ^ x22 ^ x24,
            u == x17 ^ x22 ^ x28 ^ x30,
            v == x19 ^ x24 ^ x30 ^ x32,
    ;
}

} // verus!

