use vstd::prelude::*;

use crate::hacheutil::le_value;
use vstd::arithmetic::div_mod::{
    lemma_fundamental_div_mod, lemma_fundamental_div_mod_converse, lemma_mod_multiples_vanish,
};

verus! {

/// Bytes in one block of the compression function.
pub const BLOCK_LENGTH: usize = 64;

/// Bytes in a digest.
pub const DIGEST_LENGTH: usize = 16;

/// The additive constant of each of the 64 rounds.
pub const T_VALUES: [u32; 64] = [
    0xd76a_a478, 0xe8c7_b756, 0x2420_70db, 0xc1bd_ceee, 0xf57c_0faf, 0x4787_c62a, 0xa830_4613, 0xfd46_9501,
    0x6980_98d8, 0x8b44_f7af, 0xffff_5bb1, 0x895c_d7be, 0x6b90_1122, 0xfd98_7193, 0xa679_438e, 0x49b4_0821,
    0xf61e_2562, 0xc040_b340, 0x265e_5a51, 0xe9b6_c7aa, 0xd62f_105d, 0x0244_1453, 0xd8a1_e681, 0xe7d3_fbc8,
    0x21e1_cde6, 0xc337_07d6, 0xf4d5_0d87, 0x455a_14ed, 0xa9e3_e905, 0xfcef_a3f8, 0x676f_02d9, 0x8d2a_4c8a,
    0xfffa_3942, 0x8771_f681, 0x6d9d_6122, 0xfde5_380c, 0xa4be_ea44, 0x4bde_cfa9, 0xf6bb_4b60, 0xbebf_bc70,
    0x289b_7ec6, 0xeaa1_27fa, 0xd4ef_3085, 0x0488_1d05, 0xd9d4_d039, 0xe6db_99e5, 0x1fa2_7cf8, 0xc4ac_5665,
    0xf429_2244, 0x432a_ff97, 0xab94_23a7, 0xfc93_a039, 0x655b_59c3, 0x8f0c_cc92, 0xffef_f47d, 0x8584_5dd1,
    0x6fa8_7e4f, 0xfe2c_e6e0, 0xa301_4314, 0x4e08_11a1, 0xf753_7e82, 0xbd3a_f235, 0x2ad7_d2bb, 0xeb86_d391,
];

/// The left-rotation amount of each of the 64 rounds.
pub const SHIFTS: [u32; 64] = [
    7, 12, 17, 22, 7, 12, 17, 22, 7, 12, 17, 22, 7, 12, 17, 22,
    5, 9, 14, 20, 5, 9, 14, 20, 5, 9, 14, 20, 5, 9, 14, 20,
    4, 11, 16, 23, 4, 11, 16, 23, 4, 11, 16, 23, 4, 11, 16, 23,
    6, 10, 15, 21, 6, 10, 15, 21, 6, 10, 15, 21, 6, 10, 15, 21,
];

/// The four 32-bit accumulators A, B, C and D.
pub type Acc = (u32, u32, u32, u32);

/// The accumulators of a fresh engine.
pub open spec fn initial_acc() -> Acc {
    (0x6745_2301, 0xefcd_ab89, 0x98ba_dcfe, 0x1032_5476)
}

/// The nonlinear function of round `r`: F, G, H or I by stage.
pub open spec fn mix(r: int, x: u32, y: u32, z: u32) -> u32 {
    if r < 16 {
        (x & y) | (!x & z)
    } else if r < 32 {
        (x & z) | (y & !z)
    } else if r < 48 {
        x ^ y ^ z
    } else {
        y ^ (x | !z)
    }
}

/// Which of the block's sixteen words round `r` reads.
pub open spec fn word_index(r: int) -> int {
    if r < 16 {
        r
    } else if r < 32 {
        (5 * r + 1) % 16
    } else if r < 48 {
        (3 * r + 5) % 16
    } else {
        (7 * r) % 16
    }
}

/// `x` rotated left by `s` bits, for `0 < s < 32`.
pub open spec fn rotl(x: u32, s: u32) -> u32 {
    (x << s) | (x >> ((32 - s) as u32))
}

/// Word `j` of a 64-byte block, read little-endian.
pub open spec fn block_word(block: Seq<u8>, j: int) -> u32 {
    le_value(block.subrange(4 * j, 4 * j + 4)) as u32
}

/// One round: `(a, b, c, d)` becomes `(d, b + rotl(temp), b, c)`, all sums modulo 2^32.
pub open spec fn round_step(r: int, v: Acc, block: Seq<u8>) -> Acc {
    let temp = mix(r, v.1, v.2, v.3).wrapping_add(v.0).wrapping_add(T_VALUES[r]).wrapping_add(
        block_word(block, word_index(r)),
    );
    (v.3, v.1.wrapping_add(rotl(temp, SHIFTS[r])), v.1, v.2)
}

/// The working variables after the first `n` rounds on `block`.
pub open spec fn rounds(n: nat, v: Acc, block: Seq<u8>) -> Acc
    decreases n,
{
    if n == 0 {
        v
    } else {
        round_step(n - 1, rounds((n - 1) as nat, v, block), block)
    }
}

/// The compression function: 64 rounds, then the working variables added into the state.
pub open spec fn compress(st: Acc, block: Seq<u8>) -> Acc {
    let w = rounds(64, st, block);
    (st.0.wrapping_add(w.0), st.1.wrapping_add(w.1), st.2.wrapping_add(w.2), st.3.wrapping_add(w.3))
}

/// Folds every complete 64-byte block of `data`, front to back, into `st`;
/// a tail shorter than a block is left out.
pub open spec fn absorb(st: Acc, data: Seq<u8>) -> Acc
    decreases data.len(),
{
    if data.len() < 64 {
        st
    } else {
        absorb(compress(st, data.take(64)), data.skip(64))
    }
}

/// The `n` low bytes of `v`, least significant first.
pub open spec fn le_bytes(v: nat, n: nat) -> Seq<u8>
    decreases n,
{
    if n == 0 {
        Seq::empty()
    } else {
        seq![(v % 256) as u8].add(le_bytes(v / 256, (n - 1) as nat))
    }
}

/// `le_bytes(v, n)` has `n` bytes.
pub proof fn lemma_le_bytes_len(v: nat, n: nat)
    ensures
        le_bytes(v, n).len() == n,
    decreases n,
{
    if n > 0 {
        lemma_le_bytes_len(v / 256, (n - 1) as nat);
    }
}

/// The number of padding bytes (the 0x80 byte and the zeros) after a message of `n` bytes,
/// which bring its length to 56 modulo 64.
pub open spec fn pad_len(n: nat) -> nat {
    if n % 64 < 56 {
        (56 - n % 64) as nat
    } else {
        (120 - n % 64) as nat
    }
}

/// What finalization appends to a message of `n` bytes whose bit counter reads `bits`:
/// 0x80, zeros up to 56 modulo 64, and the counter as eight little-endian bytes.
pub open spec fn padding(n: nat, bits: nat) -> Seq<u8> {
    seq![0x80u8] + Seq::new((pad_len(n) - 1) as nat, |i: int| 0u8) + le_bytes(bits, 8)
}

/// The message's length in bits, modulo 2^64.
pub open spec fn bit_length(n: nat) -> nat {
    (8 * n) % 0x1_0000_0000_0000_0000
}

/// The accumulators as 16 bytes, each word little-endian, A first.
pub open spec fn acc_bytes(st: Acc) -> Seq<u8> {
    le_bytes(st.0 as nat, 4) + le_bytes(st.1 as nat, 4) + le_bytes(st.2 as nat, 4) + le_bytes(
        st.3 as nat,
        4,
    )
}

/// The MD5 digest of `msg`.
pub open spec fn md5(msg: Seq<u8>) -> Seq<u8> {
    acc_bytes(absorb(initial_acc(), msg + padding(msg.len(), bit_length(msg.len()))))
}

/// The lowercase hexadecimal digit of `n < 16`.
pub open spec fn hex_digit(n: nat) -> char {
    if n < 10 {
        ('0' as nat + n) as char
    } else {
        ('a' as nat + n - 10) as char
    }
}

/// Two lowercase hexadecimal digits per byte, the high nibble first.
pub open spec fn hex(bytes: Seq<u8>) -> Seq<char>
    decreases bytes.len(),
{
    if bytes.len() == 0 {
        Seq::empty()
    } else {
        let b = bytes.last();
        hex(bytes.drop_last()) + seq![hex_digit(b as nat / 16), hex_digit(b as nat % 16)]
    }
}

/// 2^64: the bit counter counts modulo this.
pub open spec fn counter_modulus() -> nat {
    0x1_0000_0000_0000_0000
}

/// What an engine holds: the accumulators, the bytes of the current block not yet
/// compressed, the bit counter and the digest of the last finalization.
pub struct EngineView {
    pub acc: Acc,
    pub pending: Seq<u8>,
    pub bits: nat,
    pub digest: Seq<u8>,
}

impl EngineView {
    /// The shape every engine has: fewer than 64 pending bytes, as many as the bit
    /// counter says modulo 64, a counter below 2^64 and a 16-byte digest.
    pub open spec fn wf(self) -> bool {
        &&& self.pending.len() < 64
        &&& self.pending.len() == (self.bits / 8) % 64
        &&& self.bits < counter_modulus()
        &&& self.digest.len() == 16
    }
}

/// A freshly constructed (or reset) engine: standard accumulators, nothing pending,
/// the counter at zero and an all-zero digest.
pub open spec fn initial_view() -> EngineView {
    EngineView {
        acc: initial_acc(),
        pending: Seq::empty(),
        bits: 0,
        digest: Seq::new(16, |i: int| 0u8),
    }
}

/// The engine after it is fed `data`: every block completed by the pending bytes and
/// `data` is compressed, the rest stays pending, and the counter grows by the bits fed.
pub open spec fn feed(v: EngineView, data: Seq<u8>) -> EngineView {
    let all = v.pending + data;
    EngineView {
        acc: absorb(v.acc, all),
        pending: all.skip((all.len() / 64 * 64) as int),
        bits: (v.bits + 8 * data.len()) % counter_modulus(),
        digest: v.digest,
    }
}

/// The engine after it is fed each chunk in turn.
pub open spec fn feed_all(v: EngineView, chunks: Seq<Seq<u8>>) -> EngineView
    decreases chunks.len(),
{
    if chunks.len() == 0 {
        v
    } else {
        feed_all(feed(v, chunks[0]), chunks.drop_first())
    }
}

/// The bytes that finalization feeds: padding up to 56 modulo 64, then the counter
/// as it stood before them.
pub open spec fn final_padding(v: EngineView) -> Seq<u8> {
    padding(v.bits / 8, v.bits)
}

/// The engine after finalization: the padding is fed, and the digest is the
/// accumulators' bytes.
pub open spec fn finished(v: EngineView) -> EngineView {
    let w = feed(v, final_padding(v));
    EngineView { digest: acc_bytes(w.acc), ..w }
}

proof fn lemma_absorb_split(st: Acc, x: Seq<u8>, y: Seq<u8>)
    requires
        x.len() % 64 == 0,
    ensures
        absorb(st, x + y) == absorb(absorb(st, x), y),
    decreases x.len(),
{
    if x.len() == 0 {
        assert(x + y =~= y);
    } else {
        assert((x + y).take(64) =~= x.take(64));
        assert((x + y).skip(64) =~= x.skip(64) + y);
        lemma_absorb_split(compress(st, x.take(64)), x.skip(64), y);
    }
}

/// Absorbing `x` compresses its complete blocks only: the same as absorbing them alone.
proof fn lemma_absorb_whole_blocks(st: Acc, x: Seq<u8>)
    ensures
        absorb(st, x) == absorb(st, x.take((x.len() / 64 * 64) as int)),
        (x.len() / 64 * 64) % 64 == 0,
        x.len() - x.len() / 64 * 64 < 64,
{
    let f = (x.len() / 64 * 64) as int;
    lemma_fundamental_div_mod(x.len() as int, 64);
    assert(x =~= x.take(f) + x.skip(f));
    lemma_absorb_split(st, x.take(f), x.skip(f));
}

proof fn lemma_block_floor(c: nat, r: nat)
    ensures
        (64 * c + r) / 64 * 64 == 64 * c + r / 64 * 64,
{
    let (c, r) = (c as int, r as int);
    lemma_fundamental_div_mod(r, 64);
    lemma_fundamental_div_mod_converse(64 * c + r, 64, c + r / 64, r % 64);
}

proof fn lemma_counter_add(bits: nat, n: nat, m: nat)
    ensures
        ((bits + 8 * n) % counter_modulus() + 8 * m) % counter_modulus() == (bits + 8 * (n + m))
            % counter_modulus(),
{
    let x = (bits + 8 * n) as int;
    let big = counter_modulus() as int;
    lemma_fundamental_div_mod(x, big);
    lemma_mod_multiples_vanish(x / big, x % big + 8 * m, big);
}

/// After the counter grows by `n` bytes, modulo 2^64, it names `n` more bytes
/// modulo 64.
proof fn lemma_counter_offset(bits: nat, n: nat)
    ensures
        ((bits + 8 * n) % counter_modulus()) / 8 % 64 == (bits / 8 + n) % 64,
{
    let b = bits as int;
    let x = b + 8 * n;
    let big = counter_modulus() as int;
    let k = x / big;
    lemma_fundamental_div_mod(x, big);
    lemma_fundamental_div_mod(b, 8);
    let q = (b / 8 + n) - 0x2000_0000_0000_0000 * k;
    assert(x % big == 8 * q + b % 8);
    lemma_fundamental_div_mod_converse(x % big, 8, q, b % 8);
    lemma_mod_multiples_vanish(-0x80_0000_0000_0000 * k, b / 8 + n, 64);
}

/// Feeding keeps an engine well formed.
pub proof fn lemma_feed_wf(v: EngineView, data: Seq<u8>)
    requires
        v.wf(),
    ensures
        feed(v, data).wf(),
{
    let all = v.pending + data;
    lemma_absorb_whole_blocks(v.acc, all);
    lemma_counter_offset(v.bits, data.len());
    lemma_fundamental_div_mod(all.len() as int, 64);
    lemma_fundamental_div_mod((v.bits / 8) as int, 64);
    lemma_mod_multiples_vanish((v.bits / 8 / 64) as int, (v.pending.len() + data.len()) as int, 64);
}

/// Feeding `a` and then `b` leaves the engine exactly as feeding `a + b` at once:
/// where the input is cut does not matter, also on a block edge.
pub proof fn lemma_feed_feed(v: EngineView, a: Seq<u8>, b: Seq<u8>)
    ensures
        feed(feed(v, a), b) == feed(v, a + b),
{
    let all1 = v.pending + a;
    let f1 = all1.len() / 64 * 64;
    let pend1 = all1.skip(f1 as int);
    let head = all1.take(f1 as int);
    lemma_absorb_whole_blocks(v.acc, all1);
    assert(all1 =~= head + pend1);
    lemma_absorb_split(v.acc, head, pend1);
    assert(all1 + b =~= head + (pend1 + b));
    lemma_absorb_split(v.acc, head, pend1 + b);
    assert(v.pending + (a + b) =~= all1 + b);
    let r = (pend1 + b).len();
    assert((all1 + b).len() == 64 * (f1 / 64) + r);
    lemma_block_floor(f1 / 64, r);
    assert((all1 + b).skip(((all1 + b).len() / 64 * 64) as int) =~= (pend1 + b).skip(
        (r / 64 * 64) as int,
    ));
    lemma_counter_add(v.bits, a.len(), b.len());
}

/// Feeding chunks one by one leaves the engine exactly as feeding their concatenation
/// at once, however the input is partitioned.
pub proof fn lemma_chunk_invariance(v: EngineView, chunks: Seq<Seq<u8>>)
    requires
        v.wf(),
    ensures
        feed_all(v, chunks) == feed(v, chunks.flatten()),
    decreases chunks.len(),
{
    if chunks.len() == 0 {
        assert(v.pending + Seq::<u8>::empty() =~= v.pending);
        assert(v.pending.skip(0) =~= v.pending);
        vstd::arithmetic::div_mod::lemma_small_mod(v.bits, counter_modulus());
    } else {
        lemma_feed_wf(v, chunks[0]);
        lemma_chunk_invariance(feed(v, chunks[0]), chunks.drop_first());
        lemma_feed_feed(v, chunks[0], chunks.drop_first().flatten());
    }
}

/// A fresh engine fed `msg` and then finalized holds the MD5 digest of `msg`:
/// streaming gives the one-shot result.
pub proof fn lemma_streaming_matches_one_shot(msg: Seq<u8>)
    ensures
        finished(feed(initial_view(), msg)).digest == md5(msg),
{
    let w = feed(initial_view(), msg);
    assert(initial_view().pending + msg =~= msg);
    lemma_counter_offset(0, msg.len());
    assert(pad_len(w.bits / 8) == pad_len(msg.len()));
    assert(final_padding(w) == padding(msg.len(), bit_length(msg.len())));
    let p = final_padding(w);
    let f = (msg.len() / 64 * 64) as int;
    lemma_absorb_whole_blocks(initial_acc(), msg);
    assert(msg + p =~= msg.take(f) + (msg.skip(f) + p));
    lemma_absorb_split(initial_acc(), msg.take(f), msg.skip(f) + p);
}

/// However a message is cut into chunks, a fresh engine fed the chunks in turn and
/// then finalized holds the MD5 digest of the whole message.
pub proof fn lemma_chunked_digest(chunks: Seq<Seq<u8>>)
    ensures
        finished(feed_all(initial_view(), chunks)).digest == md5(chunks.flatten()),
{
    lemma_chunk_invariance(initial_view(), chunks);
    lemma_streaming_matches_one_shot(chunks.flatten());
}

/// Absorbing one more whole block compresses it into what the earlier blocks gave.
pub proof fn lemma_absorb_next_block(st: Acc, x: Seq<u8>, k: int)
    requires
        0 <= k,
        k % 64 == 0,
        k + 64 <= x.len(),
    ensures
        absorb(st, x.take(k + 64)) == compress(absorb(st, x.take(k)), x.subrange(k, k + 64)),
{
    let blk = x.subrange(k, k + 64);
    assert(x.take(k + 64) =~= x.take(k) + blk);
    lemma_absorb_split(st, x.take(k), blk);
    let s1 = absorb(st, x.take(k));
    assert(blk.take(64) =~= blk);
    assert(absorb(s1, blk) == absorb(compress(s1, blk), blk.skip(64)));
    assert(absorb(compress(s1, blk), blk.skip(64)) == compress(s1, blk));
}

/// The view after an update that compressed the first `k` bytes of the pending bytes
/// and `data`, and keeps the rest pending.
pub proof fn lemma_feed_split(v: EngineView, data: Seq<u8>, k: int)
    requires
        v.wf(),
        0 <= k <= (v.pending + data).len(),
        k % 64 == 0,
        (v.pending + data).len() - k < 64,
    ensures
        feed(v, data).acc == absorb(v.acc, (v.pending + data).take(k)),
        feed(v, data).pending == (v.pending + data).skip(k),
        feed(v, data).bits / 8 % 64 == (v.pending + data).len() - k,
{
    let all = v.pending + data;
    lemma_absorb_whole_blocks(v.acc, all);
    lemma_fundamental_div_mod_converse(all.len() as int, 64, k / 64, all.len() - k);
    lemma_feed_wf(v, data);
}

} // verus!
