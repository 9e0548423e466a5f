use vstd::prelude::*;

use crate::hacheutil::bytes_to_u32;
use crate::Digest;
use crate::model::{
    absorb, acc_bytes, block_word, compress, counter_modulus, feed, final_padding, finished, hex,
    hex_digit, initial_view, le_bytes, lemma_absorb_next_block, lemma_feed_feed, lemma_feed_split,
    lemma_le_bytes_len, lemma_streaming_matches_one_shot, md5, rounds, EngineView, SHIFTS, T_VALUES,
};
use vstd::arithmetic::div_mod::{
    lemma_fundamental_div_mod, lemma_fundamental_div_mod_converse, lemma_mod_multiples_vanish,
};
use vstd::slice::slice_subrange;
use vstd::string::StringSliceAdditionalSpecFns;

verus! {

/// The accumulators' standard initial values, A to D.
const INITIAL_STATE: [u32; 4] = [0x6745_2301, 0xefcd_ab89, 0x98ba_dcfe, 0x1032_5476];

/// The padding that finalization feeds before the length: 0x80, then zeros.
const PADDING: [u8; 64] = [
    0x80, 0, 0, 0, 0, 0, 0, 0, 0, 0, 0, 0, 0, 0, 0, 0, 0, 0, 0, 0, 0, 0, 0, 0, 0, 0, 0, 0, 0, 0, 0, 0,
    0, 0, 0, 0, 0, 0, 0, 0, 0, 0, 0, 0, 0, 0, 0, 0, 0, 0, 0, 0, 0, 0, 0, 0, 0, 0, 0, 0, 0, 0, 0, 0,
];

/// A streaming MD5 engine.
///
/// Its view is an `EngineView`: the accumulators, the bytes of the current block not yet
/// compressed (the first `(count / 8) % 64` bytes of `buffer`), the bit counter and the
/// digest of the last finalization, all zero before the first.
pub struct MD5 {
    state: [u32; 4],
    count: u64,
    buffer: [u8; 64],
    digest: [u8; 16],
}

impl View for MD5 {
    type V = EngineView;

    closed spec fn view(&self) -> EngineView {
        EngineView {
            acc: (self.state[0], self.state[1], self.state[2], self.state[3]),
            pending: self.buffer@.take(((self.count as nat / 8) % 64) as int),
            bits: self.count as nat,
            digest: self.digest@,
        }
    }
}

/// Copies `src[from..from + len]` into `buf` at `at`.
fn copy_into(buf: &mut [u8; 64], at: usize, src: &[u8], from: usize, len: usize)
    requires
        at + len <= 64,
        from + len <= src@.len(),
        from + len <= usize::MAX,
    ensures
        final(buf)@.take(at as int) == old(buf)@.take(at as int),
        final(buf)@.subrange(at as int, at + len) == src@.subrange(from as int, from + len),
{
    let mut k: usize = 0;
    while k < len
        invariant
            k <= len,
            at + len <= 64,
            from + len <= src@.len(),
            from + len <= usize::MAX,
            forall|q: int| 0 <= q < at ==> buf[q] == old(buf)[q],
            forall|q: int| at <= q < at + k ==> buf[q] == src@[from + q - at],
        decreases len - k,
    {
        buf[at + k] = src[from + k];
        k = k + 1;
    }
    assert(buf@.take(at as int) =~= old(buf)@.take(at as int));
    assert(buf@.subrange(at as int, at + len) =~= src@.subrange(from as int, from + len));
}

/// Appends the `n` low bytes of `x` to `out`, least significant first.
fn push_le(out: &mut Vec<u8>, x: u64, n: usize)
    ensures
        final(out)@ == old(out)@ + le_bytes(x as nat, n as nat),
{
    let mut v = x;
    let mut k: usize = 0;
    while k < n
        invariant
            k <= n,
            old(out)@ + le_bytes(x as nat, n as nat) == out@ + le_bytes(v as nat, (n - k) as nat),
        decreases n - k,
    {
        let ghost before = out@;
        out.push((v % 256) as u8);
        proof {
            assert(before + le_bytes(v as nat, (n - k) as nat) =~= out@ + le_bytes(
                (v / 256) as nat,
                (n - k - 1) as nat,
            ));
        }
        v = v / 256;
        k = k + 1;
    }
    assert(out@ + le_bytes(v as nat, 0) =~= out@);
}

proof fn lemma_count_step(count: u64, n: usize)
    ensures
        count.wrapping_add((n as u64).wrapping_mul(8)) as nat == (count as nat + 8 * (n as nat))
            % counter_modulus(),
{
    let big = counter_modulus() as int;
    let c = count as int;
    let x = 8 * n as int;
    let r = x % big;
    assert(n as u64 == n);
    lemma_fundamental_div_mod(x, big);
    lemma_mod_multiples_vanish(x / big, c + r, big);
    if c + r < big {
        lemma_fundamental_div_mod_converse(c + r, big, 0, c + r);
    } else {
        lemma_fundamental_div_mod_converse(c + r, big, 1, c + r - big);
    }
}

impl MD5 {
    /// Every engine's view is well formed.
    pub proof fn lemma_view_wf(&self)
        ensures
            self@.wf(),
    {
    }

    /// A fresh engine: standard accumulators, nothing fed, an all-zero digest.
    pub fn new() -> (r: Self)
        ensures
            r@ == initial_view(),
    {
        let r = Self { state: INITIAL_STATE, count: 0, buffer: [0; 64], digest: [0; 16] };
        assert(r@.pending =~= Seq::<u8>::empty());
        assert(r@.digest =~= initial_view().digest);
        r
    }

    /// Compresses one 64-byte block into the accumulators.
    fn transform(&mut self, data: &[u8])
        requires
            data@.len() == 64,
        ensures
            final(self)@ == (EngineView { acc: compress(old(self)@.acc, data@), ..old(self)@ }),
    {
        let mut words: [u32; 16] = [0; 16];
        let mut j: usize = 0;
        while j < 16
            invariant
                j <= 16,
                data@.len() == 64,
                forall|k: int| 0 <= k < j ==> words[k] == block_word(data@, k),
            decreases 16 - j,
        {
            let w = bytes_to_u32(slice_subrange(data, 4 * j, 4 * j + 4));
            words[j] = w;
            j = j + 1;
        }
        let ghost st = old(self)@.acc;
        let mut a = self.state[0];
        let mut b = self.state[1];
        let mut c = self.state[2];
        let mut d = self.state[3];
        let mut idx: usize = 0;
        while idx < 64
            invariant
                idx <= 64,
                st == old(self)@.acc,
                (a, b, c, d) == rounds(idx as nat, st, data@),
                forall|k: int| 0 <= k < 16 ==> words[k] == block_word(data@, k),
            decreases 64 - idx,
        {
            let (value, g): (u32, usize) = if idx < 16 {
                ((b & c) | (!b & d), idx)
            } else if idx < 32 {
                ((b & d) | (c & !d), (5 * idx + 1) % 16)
            } else if idx < 48 {
                (b ^ c ^ d, (3 * idx + 5) % 16)
            } else {
                (c ^ (b | !d), (7 * idx) % 16)
            };
            let f = value.wrapping_add(a).wrapping_add(T_VALUES[idx]).wrapping_add(words[g]);
            let s = SHIFTS[idx];
            a = d;
            d = c;
            c = b;
            b = b.wrapping_add((f << s) | (f >> (32 - s)));
            idx = idx + 1;
        }
        self.state[0] = self.state[0].wrapping_add(a);
        self.state[1] = self.state[1].wrapping_add(b);
        self.state[2] = self.state[2].wrapping_add(c);
        self.state[3] = self.state[3].wrapping_add(d);
    }

    /// Feeds the first `nbytes` bytes of `value`, all of it when `nbytes` is `None`.
    fn update_with_len(&mut self, value: &[u8], nbytes: Option<usize>)
        requires
            match nbytes {
                Some(n) => n <= value@.len(),
                None => true,
            },
        ensures
            final(self)@ == feed(
                old(self)@,
                value@.take(
                    match nbytes {
                        Some(n) => n as int,
                        None => value@.len() as int,
                    },
                ),
            ),
    {
        let nbytes = match nbytes {
            Some(n) => n,
            None => value.len(),
        };
        let ghost v0 = old(self)@;
        let ghost data = value@.take(nbytes as int);
        let ghost all = v0.pending + data;
        proof {
            old(self).lemma_view_wf();
            lemma_count_step(old(self).count, nbytes);
        }
        if nbytes == 0 {
            assert(data =~= Seq::<u8>::empty());
            assert(all =~= v0.pending);
            proof {
                lemma_feed_split(v0, data, 0);
            }
            assert(feed(v0, data).pending =~= v0.pending);
            return;
        }
        let cnt = self.count;
        assert(((cnt >> 3) & 63) == (cnt / 8) % 64) by (bit_vector);
        let mut offset = ((cnt >> 3) & 63) as usize;
        self.count = self.count.wrapping_add((nbytes as u64).wrapping_mul(8));
        let part_len = 64 - offset;
        let mut i: usize;
        if nbytes >= part_len {
            copy_into(&mut self.buffer, offset, value, 0, part_len);
            let buf = self.buffer;
            assert(buf@ =~= all.take(64));
            proof {
                assert(all.take(0) =~= Seq::<u8>::empty());
                lemma_absorb_next_block(v0.acc, all, 0);
                assert(all.subrange(0, 64) =~= all.take(64));
            }
            self.transform(&buf);
            i = part_len;
            while nbytes - i >= 64
                invariant
                    part_len <= i <= nbytes <= value@.len(),
                    offset + part_len == 64,
                    (offset + i) % 64 == 0,
                    all == v0.pending + data,
                    data == value@.take(nbytes as int),
                    v0.pending.len() == offset,
                    (self.state[0], self.state[1], self.state[2], self.state[3]) == absorb(
                        v0.acc,
                        all.take(offset + i),
                    ),
                    self.count == old(self).count.wrapping_add((nbytes as u64).wrapping_mul(8)),
                    self.digest == old(self).digest,
                decreases nbytes - i,
            {
                let blk = slice_subrange(value, i, i + 64);
                proof {
                    lemma_absorb_next_block(v0.acc, all, offset + i);
                    assert(all.subrange(offset + i, offset + i + 64) =~= blk@);
                }
                self.transform(blk);
                i = i + 64;
            }
            offset = 0;
        } else {
            i = 0;
        }
        copy_into(&mut self.buffer, offset, value, i, nbytes - i);
        proof {
            lemma_feed_split(v0, data, (v0.pending.len() + i - offset) as int);
            if nbytes < part_len {
                assert(all.take(0) =~= Seq::<u8>::empty());
            }
        }
        assert(self@.pending =~= feed(v0, data).pending);
    }

    /// The accumulators as 16 bytes, each word little-endian.
    fn state_bytes(&self) -> (r: [u8; 16])
        ensures
            r@ == acc_bytes(self@.acc),
    {
        let mut out: Vec<u8> = Vec::new();
        push_le(&mut out, self.state[0] as u64, 4);
        push_le(&mut out, self.state[1] as u64, 4);
        push_le(&mut out, self.state[2] as u64, 4);
        push_le(&mut out, self.state[3] as u64, 4);
        proof {
            lemma_le_bytes_len(self.state[0] as nat, 4);
            lemma_le_bytes_len(self.state[1] as nat, 4);
            lemma_le_bytes_len(self.state[2] as nat, 4);
            lemma_le_bytes_len(self.state[3] as nat, 4);
        }
        let mut r: [u8; 16] = [0; 16];
        let mut k: usize = 0;
        while k < 16
            invariant
                k <= 16,
                out@ == acc_bytes(self@.acc),
                out@.len() == 16,
                forall|q: int| 0 <= q < k ==> r[q] == out@[q],
            decreases 16 - k,
        {
            r[k] = out[k];
            k = k + 1;
        }
        assert(r@ =~= out@);
        r
    }

    /// Finalizes: feeds the padding and the bit counter as it stood before it, and stores
    /// the accumulators' bytes as the digest.
    ///
    /// The padding is counted like any other input, so a second call without a reset in
    /// between digests a longer message: reset the engine before reusing it.
    pub fn finish(&mut self) -> (r: &Self)
        ensures
            final(self)@ == finished(old(self)@),
            r@ == finished(old(self)@),
    {
        let ghost v0 = self@;
        let cnt = self.count;
        let mut bits: Vec<u8> = Vec::new();
        push_le(&mut bits, cnt, 8);
        assert(((cnt >> 3) & 63) == (cnt / 8) % 64) by (bit_vector);
        let index = (cnt >> 3) & 63;
        let pad_len = if index < 56 {
            56 - index
        } else {
            120 - index
        };
        let ghost pad = PADDING@.take(pad_len as int);
        self.update_with_len(&PADDING, Some(pad_len as usize));
        self.update(bits.as_slice());
        proof {
            assert(pad =~= seq![0x80u8] + Seq::new((pad_len - 1) as nat, |i: int| 0u8));
            assert(pad + bits@ =~= final_padding(v0));
            lemma_feed_feed(v0, pad, bits@);
        }
        let digest = self.state_bytes();
        self.digest = digest;
        assert(self@.digest =~= finished(v0).digest);
        self
    }

    /// The digest as 32 lowercase hexadecimal digits; all zeros before the first
    /// finalization.
    pub fn to_string(&self) -> (r: String)
        ensures
            r@ == hex(self@.digest),
    {
        let digits = "0123456789abcdef";
        proof {
            reveal_strlit("0123456789abcdef");
            assert(forall|q: int| 0 <= q < 16 ==> digits@[q] == hex_digit(q as nat));
        }
        let mut out = String::new();
        let mut k: usize = 0;
        while k < 16
            invariant
                k <= 16,
                digits@.len() == 16,
                forall|q: int| 0 <= q < 16 ==> digits@[q] == hex_digit(q as nat),
                out@ == hex(self.digest@.take(k as int)),
            decreases 16 - k,
        {
            let b = self.digest[k];
            let hi = (b / 16) as usize;
            let lo = (b % 16) as usize;
            out.append(digits.substring_char(hi, hi + 1));
            out.append(digits.substring_char(lo, lo + 1));
            proof {
                let t = self.digest@.take(k + 1);
                assert(t.drop_last() =~= self.digest@.take(k as int));
                assert(out@ =~= hex(t));
            }
            k = k + 1;
        }
        assert(self.digest@.take(16) =~= self.digest@);
        out
    }
}

impl Digest for MD5 {
    /// Returns the engine to its just-constructed state, whatever it was fed.
    fn reset(&mut self) -> (r: &mut Self)
        ensures
            r@ == initial_view(),
            *final(self) == *final(r),
    {
        self.state = INITIAL_STATE;
        self.count = 0;
        self.buffer = [0; 64];
        self.digest = [0; 16];
        assert(self@.pending =~= Seq::<u8>::empty());
        assert(self@.digest =~= initial_view().digest);
        self
    }

    /// Feeds `value`; an empty `value` changes nothing.
    fn update(&mut self, value: &[u8]) -> (r: &mut Self)
        ensures
            r@ == feed(old(self)@, value@),
            *final(self) == *final(r),
    {
        self.update_with_len(value, None);
        assert(value@.take(value@.len() as int) =~= value@);
        self
    }

    /// The MD5 digest of `value`'s UTF-8 bytes as 32 lowercase hexadecimal digits.
    fn hexdigest(value: &str) -> (r: String)
        ensures
            r@ == hex(md5(value.spec_bytes())),
    {
        proof {
            lemma_streaming_matches_one_shot(value.spec_bytes());
        }
        Self::new().update(value.as_bytes()).finish().to_string()
    }
}

} // verus!
