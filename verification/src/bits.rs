//! MSB-first bit streams over bytes: the writer behind the move-stream
//! encoder and the reader behind its decoder.
//!
//! Bit `k` of a stream lives in byte `k / 8`, counted from the most
//! significant end of the byte, so the first bit written lands in the top
//! bit of the first byte.  A writer must be padded to a whole byte before
//! its bytes are taken; a reader fails with [`Error::IO`] once the bytes
//! are exhausted.

use vstd::arithmetic::div_mod::lemma_fundamental_div_mod;
use vstd::prelude::*;

use crate::Error;

verus! {

/// Bit `i` of a byte, counting from the most significant end.
pub open spec fn u8_msb_bit(b: u8, i: int) -> bool {
    (b >> ((7 - i) as u8)) & 1 == 1
}

/// Bit `k` of a byte stream, MSB-first within each byte.
pub open spec fn stream_bit(bytes: Seq<u8>, k: int) -> bool {
    u8_msb_bit(bytes[k / 8], k % 8)
}

/// The low `count` bits of `value`, most significant first.
pub open spec fn num_bits(value: u32, count: nat) -> Seq<bool> {
    Seq::new(count, |k: int| (value >> ((count - 1 - k) as u32)) & 1 == 1)
}

/// A byte has no bits set after `or`-ing nothing into zero.
proof fn lemma_u8_zero_bits()
    ensures
        forall|i: int| 0 <= i < 8 ==> !#[trigger] u8_msb_bit(0, i),
{
    assert forall|i: int| 0 <= i < 8 implies !#[trigger] u8_msb_bit(0, i) by {
        let k = (7 - i) as u8;
        assert((0u8 >> k) & 1 == 0) by (bit_vector);
    }
}

/// Setting the bit `u` places from the top flips exactly that bit.
proof fn lemma_u8_set_msb(c: u8, u: u8)
    requires
        u < 8,
    ensures
        forall|i: int|
            0 <= i < 8 ==> #[trigger] u8_msb_bit(c | (1u8 << ((7 - u) as u8)), i) == (i == u
                || u8_msb_bit(c, i)),
{
    assert forall|i: int| 0 <= i < 8 implies #[trigger] u8_msb_bit(
        c | (1u8 << ((7 - u) as u8)),
        i,
    ) == (i == u || u8_msb_bit(c, i)) by {
        let j = i as u8;
        assert((((c | (1u8 << ((7 - u) as u8))) >> ((7 - j) as u8)) & 1 == 1) == (j == u || ((c
            >> ((7 - j) as u8)) & 1 == 1))) by (bit_vector)
            requires
                u < 8,
                j < 8,
        ;
    }
}

/// Accumulates bits MSB-first and packs them into bytes.  Its view is the
/// sequence of bits written so far.
pub struct BitWriter {
    bytes: Vec<u8>,
    cur: u8,
    used: u8,
}

impl View for BitWriter {
    type V = Seq<bool>;

    closed spec fn view(&self) -> Seq<bool> {
        Seq::new(
            (self.bytes@.len() * 8 + self.used) as nat,
            |k: int|
                if k < self.bytes@.len() * 8 {
                    stream_bit(self.bytes@, k)
                } else {
                    u8_msb_bit(self.cur, k - self.bytes@.len() * 8)
                },
        )
    }
}

impl BitWriter {
    /// Internal soundness: under 8 pending bits, and the positions the
    /// pending bits have not reached yet are still zero, so they become
    /// the padding of the final byte.
    pub closed spec fn wf(&self) -> bool {
        &&& self.used < 8
        &&& forall|i: int| self.used <= i < 8 ==> !u8_msb_bit(self.cur, i)
    }

    /// A writer with nothing written.
    pub fn new() -> (w: BitWriter)
        ensures
            w.wf(),
            w@ == Seq::<bool>::empty(),
    {
        let w = BitWriter { bytes: Vec::new(), cur: 0, used: 0 };
        proof {
            lemma_u8_zero_bits();
            assert(w@ =~= Seq::<bool>::empty());
        }
        w
    }

    /// Appends a single bit.
    pub fn write_bit(&mut self, bit: bool)
        requires
            old(self).wf(),
        ensures
            final(self).wf(),
            final(self)@ == old(self)@.push(bit),
    {
        let ghost ov = self@;
        let ghost oldcur = self.cur;
        let ghost u = self.used as int;
        let ghost blen = self.bytes@.len() as int;
        if bit {
            proof {
                lemma_u8_set_msb(self.cur, self.used);
            }
            self.cur = self.cur | (1u8 << (7 - self.used));
        }
        assert(forall|i: int| 0 <= i < 8 ==> u8_msb_bit(self.cur, i) == (bit && i == u
            || u8_msb_bit(oldcur, i)));
        self.used = self.used + 1;
        if self.used == 8 {
            self.bytes.push(self.cur);
            self.cur = 0;
            self.used = 0;
            proof {
                lemma_u8_zero_bits();
                assert forall|k: int| 0 <= k < blen * 8 + 8 implies self@[k] == ov.push(bit)[k] by {
                    lemma_fundamental_div_mod(k, 8);
                    if k < blen * 8 {
                        assert(k / 8 < blen);
                        assert(self.bytes@[k / 8] == old(self).bytes@[k / 8]);
                    } else {
                        assert(k / 8 == blen);
                        assert(self.bytes@[k / 8] == self.bytes@.last());
                    }
                }
                assert(self@ =~= ov.push(bit));
            }
        } else {
            assert(self@ =~= ov.push(bit));
        }
    }

    /// Appends the low `count` bits of `value`, most significant first.
    pub fn write_bits(&mut self, value: u32, count: usize)
        requires
            old(self).wf(),
            count <= 32,
        ensures
            final(self).wf(),
            final(self)@ == old(self)@ + num_bits(value, count as nat),
    {
        let ghost base = self@;
        let mut i: usize = 0;
        while i < count
            invariant
                self.wf(),
                i <= count,
                count <= 32,
                self@ == base + num_bits(value, count as nat).take(i as int),
            decreases count - i,
        {
            let bit = (value >> ((count - 1 - i) as u32)) & 1 == 1;
            self.write_bit(bit);
            assert(self@ =~= base + num_bits(value, count as nat).take(i + 1));
            i = i + 1;
        }
        assert(self@ =~= base + num_bits(value, count as nat));
    }

    /// Appends zero bits up to the next byte boundary.
    pub fn pad_to_byte(&mut self)
        requires
            old(self).wf(),
        ensures
            final(self).wf(),
            final(self)@ == old(self)@ + Seq::new(
                ((8 - old(self)@.len() % 8) % 8) as nat,
                |k: int| false,
            ),
            final(self)@.len() % 8 == 0,
    {
        let ghost base = self@;
        proof {
            lemma_fundamental_div_mod(base.len() as int, 8);
            assert(base.len() % 8 == self.used) by {
                assert(base.len() == self.bytes@.len() * 8 + self.used);
            }
        }
        if self.used != 0 {
            let n = 8 - self.used;
            let mut i: u8 = 0;
            while i < n
                invariant
                    self.wf(),
                    i <= n,
                    self@ == base + Seq::new(i as nat, |k: int| false),
                decreases n - i,
            {
                self.write_bit(false);
                assert(self@ =~= base + Seq::new(i as nat + 1, |k: int| false));
                i = i + 1;
            }
            assert(self@ =~= base + Seq::new(((8 - base.len() % 8) % 8) as nat, |k: int| false));
            proof {
                lemma_fundamental_div_mod(self@.len() as int, 8);
            }
        } else {
            assert(self@ =~= base + Seq::new(((8 - base.len() % 8) % 8) as nat, |k: int| false));
        }
    }

    /// Hands out the finished bytes; the stream must be whole bytes, so
    /// call [`Self::pad_to_byte`] first.  Bit `k` of the result is the
    /// `k`-th bit written.
    pub fn into_bytes(self) -> (r: Vec<u8>)
        requires
            self.wf(),
            self@.len() % 8 == 0,
        ensures
            r@.len() * 8 == self@.len(),
            forall|k: int| 0 <= k < self@.len() ==> stream_bit(r@, k) == self@[k],
    {
        proof {
            assert(self@.len() == self.bytes@.len() * 8 + self.used);
            assert(self.used == 0) by {
                lemma_fundamental_div_mod(self@.len() as int, 8);
            }
        }
        let BitWriter { bytes, cur: _, used: _ } = self;
        bytes
    }
}

/// Reads a byte slice bit by bit, MSB-first.
pub struct BitReader<'a> {
    data: &'a [u8],
    byte: usize,
    used: u8,
}

impl<'a> BitReader<'a> {
    /// The bytes being read.
    pub closed spec fn source(&self) -> Seq<u8> {
        self.data@
    }

    /// How many bits have been consumed.
    pub closed spec fn pos(&self) -> int {
        self.byte * 8 + self.used
    }

    /// Internal soundness of the cursor.
    pub closed spec fn wf(&self) -> bool {
        &&& self.used < 8
        &&& self.byte <= self.data@.len()
    }

    /// A reader at the head of `data`.
    pub fn new(data: &'a [u8]) -> (r: BitReader<'a>)
        ensures
            r.wf(),
            r.source() == data@,
            r.pos() == 0,
    {
        BitReader { data, byte: 0, used: 0 }
    }

    /// Reads one bit, or fails with [`Error::IO`] when the bytes have run
    /// out.
    pub fn read_bit(&mut self) -> (r: Result<bool, Error>)
        requires
            old(self).wf(),
        ensures
            final(self).wf(),
            final(self).source() == old(self).source(),
            old(self).pos() < old(self).source().len() * 8 ==> {
                &&& r == Ok::<bool, Error>(stream_bit(old(self).source(), old(self).pos()))
                &&& final(self).pos() == old(self).pos() + 1
            },
            old(self).pos() >= old(self).source().len() * 8 ==> {
                &&& r == Err::<bool, Error>(Error::IO)
                &&& final(self).pos() == old(self).pos()
            },
    {
        if self.byte >= self.data.len() {
            return Err(Error::IO);
        }
        let b = self.data[self.byte];
        let bit = (b >> (7 - self.used)) & 1 == 1;
        proof {
            let p = self.pos();
            lemma_fundamental_div_mod(p, 8);
            assert(p / 8 == self.byte && p % 8 == self.used);
            assert(bit == stream_bit(self.data@, p));
        }
        self.used = self.used + 1;
        if self.used == 8 {
            self.used = 0;
            self.byte = self.byte + 1;
        }
        Ok(bit)
    }
}

} // verus!
