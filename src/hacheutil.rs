use vstd::prelude::*;

verus! {

/// The number whose little-endian base-256 digits are the bytes of `s`:
/// `s[0]` is the least significant byte.
pub open spec fn le_value(s: Seq<u8>) -> nat
    decreases s.len(),
{
    if s.len() == 0 {
        0
    } else {
        s[0] as nat + 256 * le_value(s.drop_first())
    }
}

/// `256^n`: one more than the largest number of `n` bytes.
pub open spec fn byte_range(n: nat) -> nat
    decreases n,
{
    if n == 0 {
        1
    } else {
        256 * byte_range((n - 1) as nat)
    }
}

/// A little-endian number of `n` bytes is below `256^n`.
pub proof fn lemma_le_value_bound(s: Seq<u8>)
    ensures
        le_value(s) < byte_range(s.len()),
    decreases s.len(),
{
    if s.len() > 0 {
        let rest = s.drop_first();
        lemma_le_value_bound(rest);
        let p = byte_range(rest.len());
        let v = le_value(rest);
        assert(s[0] as nat + 256 * v < 256 * p) by (nonlinear_arith)
            requires
                v < p,
                s[0] < 256,
        ;
    }
}

/// Reads up to four bytes as a little-endian unsigned 32-bit integer.
pub fn bytes_to_u32(data: &[u8]) -> (r: u32)
    requires
        data@.len() <= 4,
    ensures
        r as nat == le_value(data@),
{
    let mut value: u32 = 0;
    let mut idx: usize = data.len();
    while idx > 0
        invariant
            idx <= data@.len() <= 4,
            value as nat == le_value(data@.skip(idx as int)),
        decreases idx,
    {
        idx = idx - 1;
        let ghost tail = data@.skip(idx as int);
        proof {
            assert(tail.drop_first() =~= data@.skip(idx + 1));
            lemma_le_value_bound(tail.drop_first());
            reveal_with_fuel(byte_range, 4);
            assert(byte_range(tail.drop_first().len()) <= 0x100_0000);
        }
        value = data[idx] as u32 + 256 * value;
    }
    assert(data@.skip(0) =~= data@);
    value
}

} // verus!
