//! The CRC-16 used by LHA headers (polynomial 0xA001 in reflected form,
//! initial state 0), together with its mathematical definition.

use vstd::prelude::*;

verus! {

/// One shift step of the bitwise CRC-16 computation.
pub open spec fn crc16_bit(x: u16) -> u16 {
    if x & 1 == 1 {
        (x >> 1) ^ 0xA001
    } else {
        x >> 1
    }
}

/// `n` shift steps of the bitwise CRC-16 computation.
pub open spec fn crc16_bits(x: u16, n: nat) -> u16
    decreases n,
{
    if n == 0 {
        x
    } else {
        crc16_bits(crc16_bit(x), (n - 1) as nat)
    }
}

/// The CRC-16 state after digesting one byte.
pub open spec fn crc16_byte(state: u16, b: u8) -> u16 {
    crc16_bits(state ^ (b as u16), 8)
}

/// The CRC-16 state after digesting a byte sequence.
pub open spec fn crc16_seq(state: u16, s: Seq<u8>) -> u16
    decreases s.len(),
{
    if s.len() == 0 {
        state
    } else {
        crc16_seq(crc16_byte(state, s[0]), s.drop_first())
    }
}

/// The CRC-16 of a byte sequence, from the initial state 0.
pub open spec fn crc16(s: Seq<u8>) -> u16 {
    crc16_seq(0, s)
}

/// Appending to the digested sequence composes with digesting the parts.
pub proof fn lemma_crc16_seq_append(state: u16, a: Seq<u8>, b: Seq<u8>)
    ensures
        crc16_seq(state, a + b) == crc16_seq(crc16_seq(state, a), b),
    decreases a.len(),
{
    if a.len() == 0 {
        assert(a + b =~= b);
    } else {
        assert((a + b).drop_first() =~= a.drop_first() + b);
        lemma_crc16_seq_append(crc16_byte(state, a[0]), a.drop_first(), b);
    }
}

/// Digesting one more byte extends the digested sequence by that byte.
pub proof fn lemma_crc16_seq_push(state: u16, a: Seq<u8>, b: u8)
    ensures
        crc16_seq(state, a.push(b)) == crc16_byte(crc16_seq(state, a), b),
{
    lemma_crc16_seq_append(state, a, seq![b]);
    assert(a + seq![b] =~= a.push(b));
    let s2 = crc16_seq(state, a);
    assert(seq![b].drop_first() =~= Seq::<u8>::empty());
    assert(crc16_seq(s2, seq![b]) == crc16_seq(crc16_byte(s2, b), seq![b].drop_first()));
    assert(crc16_seq(crc16_byte(s2, b), Seq::<u8>::empty()) == crc16_byte(s2, b));
}

proof fn lemma_crc16_bits_snoc(x: u16, n: nat)
    ensures
        crc16_bits(x, n + 1) == crc16_bit(crc16_bits(x, n)),
    decreases n,
{
    if n == 0 {
        assert(crc16_bits(x, 1) == crc16_bits(crc16_bit(x), 0));
    } else {
        lemma_crc16_bits_snoc(crc16_bit(x), (n - 1) as nat);
        assert(crc16_bits(x, n + 1) == crc16_bits(crc16_bit(x), n));
        assert(crc16_bits(x, n) == crc16_bits(crc16_bit(x), (n - 1) as nat));
    }
}

/// A rolling CRC-16 digest.
pub struct Crc16 {
    state: u16,
}

impl Crc16 {
    /// The state the digest currently holds.
    pub closed spec fn view(&self) -> u16 {
        self.state
    }

    /// A fresh digest in the initial state.
    pub fn new() -> (r: Crc16)
        ensures
            r@ == 0u16,
    {
        Crc16 { state: 0 }
    }

    /// Digest one byte.
    pub fn digest_byte(&mut self, b: u8)
        ensures
            final(self)@ == crc16_byte(old(self)@, b),
    {
        let mut x: u16 = self.state ^ (b as u16);
        let ghost x0: u16 = x;
        let mut i: usize = 0;
        while i < 8
            invariant
                i <= 8,
                x == crc16_bits(x0, i as nat),
            decreases 8 - i,
        {
            proof {
                lemma_crc16_bits_snoc(x0, i as nat);
            }
            if x & 1 == 1 {
                x = (x >> 1) ^ 0xA001;
            } else {
                x = x >> 1;
            }
            i = i + 1;
        }
        self.state = x;
    }

    /// Digest a slice of bytes.
    pub fn digest(&mut self, buf: &[u8])
        ensures
            final(self)@ == crc16_seq(old(self)@, buf@),
    {
        let mut i: usize = 0;
        while i < buf.len()
            invariant
                i <= buf@.len(),
                self@ == crc16_seq(old(self)@, buf@.subrange(0, i as int)),
            decreases buf@.len() - i,
        {
            proof {
                lemma_crc16_seq_push(old(self)@, buf@.subrange(0, i as int), buf@[i as int]);
                assert(buf@.subrange(0, i as int).push(buf@[i as int]) =~= buf@.subrange(
                    0,
                    i as int + 1,
                ));
            }
            self.digest_byte(buf[i]);
            i = i + 1;
        }
        proof {
            assert(buf@.subrange(0, buf@.len() as int) =~= buf@);
        }
    }

    /// Finalize the digest to its 16-bit value.
    pub fn sum16(&self) -> (r: u16)
        ensures
            r == self@,
    {
        self.state
    }
}

} // verus!
