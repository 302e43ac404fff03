use vstd::prelude::*;

verus! {

/// Bit `i` of `b`, counting from the most significant bit (`i == 0`).
pub open spec fn bit_of(b: u8, i: int) -> bool {
    ((b >> ((7 - i) as u8)) & 1u8) == 1u8
}

/// The first `n` bits of `b`, most significant first.
pub open spec fn prefix_bits(b: u8, n: int) -> Seq<bool> {
    Seq::new(n as nat, |i: int| bit_of(b, i))
}

/// The eight bits of `b`, most significant first.
pub open spec fn byte_bits(b: u8) -> Seq<bool> {
    prefix_bits(b, 8)
}

/// The bits of a byte sequence, each byte most significant bit first.
pub open spec fn bytes_to_bits(s: Seq<u8>) -> Seq<bool>
    decreases s.len(),
{
    if s.len() == 0 {
        seq![]
    } else {
        bytes_to_bits(s.drop_last()) + byte_bits(s.last())
    }
}

/// `n` zero bits.
pub open spec fn zeros(n: nat) -> Seq<bool> {
    Seq::new(n, |i: int| false)
}

/// The number of padding bits that complete `n` bits to whole bytes.
pub open spec fn padding_for(n: nat) -> nat {
    ((8 - n % 8) % 8) as nat
}

/// The payload bits of a packed stream whose final byte carries `padding`
/// unused low-order bits.
pub open spec fn stream_bits(bytes: Seq<u8>, padding: u8) -> Seq<bool> {
    if bytes.len() == 0 {
        seq![]
    } else {
        bytes_to_bits(bytes).take(8 * bytes.len() - padding)
    }
}

/// Bit arithmetic behind `lemma_set_bit`, over machine bytes.
pub proof fn lemma_bit_bv(b: u8, l: u8, i: u8)
    by (bit_vector)
    requires
        l < 8,
        i < 8,
    ensures
        (((b | (1u8 << ((7u8 - l) as u8))) >> ((7u8 - i) as u8)) & 1u8 == 1u8) == (i == l || ((b >> ((7u8 - i) as u8))
            & 1u8) == 1u8),
        ((0u8 >> ((7u8 - i) as u8)) & 1u8) != 1u8,
{
}

/// Setting bit `l` of `b` changes bit `l` alone, to one.
pub proof fn lemma_set_bit(b: u8, l: int, i: int)
    requires
        0 <= l < 8,
        0 <= i < 8,
    ensures
        bit_of(b | (1u8 << ((7 - l) as u8)), i) == (i == l || bit_of(b, i)),
        !bit_of(0u8, i),
{
    lemma_bit_bv(b, l as u8, i as u8);
    assert((7 - l) as u8 == 7u8 - (l as u8));
    assert((7 - i) as u8 == 7u8 - (i as u8));
}

/// Each byte gives eight bits.
pub proof fn lemma_bytes_to_bits_len(s: Seq<u8>)
    ensures
        bytes_to_bits(s).len() == 8 * s.len(),
    decreases s.len(),
{
    if s.len() > 0 {
        lemma_bytes_to_bits_len(s.drop_last());
    }
}

/// Appending a byte appends its eight bits.
pub proof fn lemma_bytes_to_bits_push(s: Seq<u8>, b: u8)
    ensures
        bytes_to_bits(s.push(b)) == bytes_to_bits(s) + byte_bits(b),
{
    assert(s.push(b).drop_last() =~= s);
}

/// Bit `8 * p + k` of a byte sequence is bit `k` of its byte `p`.
pub proof fn lemma_bytes_to_bits_index(s: Seq<u8>, p: int, k: int)
    requires
        0 <= p < s.len(),
        0 <= k < 8,
    ensures
        bytes_to_bits(s)[8 * p + k] == bit_of(s[p], k),
    decreases s.len(),
{
    lemma_bytes_to_bits_len(s.drop_last());
    if p < s.len() - 1 {
        lemma_bytes_to_bits_index(s.drop_last(), p, k);
    }
}

/// Packs bits, most significant first, into whole bytes.
pub struct BitWriter {
    out: Vec<u8>,
    current_byte: u8,
    bits_filled: u8,
}

impl BitWriter {
    /// The bits written so far.
    pub closed spec fn view(&self) -> Seq<bool> {
        bytes_to_bits(self.out@) + prefix_bits(self.current_byte, self.bits_filled as int)
    }

    pub closed spec fn wf(&self) -> bool {
        &&& self.bits_filled < 8
        &&& forall|i: int| self.bits_filled <= i < 8 ==> !bit_of(self.current_byte, i)
    }

    pub fn new() -> (r: Self)
        ensures
            r.wf(),
            r@ == Seq::<bool>::empty(),
    {
        let r = BitWriter { out: Vec::new(), current_byte: 0, bits_filled: 0 };
        assert forall|i: int| 0 <= i < 8 implies !bit_of(0u8, i) by {
            lemma_set_bit(0u8, 0, i);
        }
        assert(r@ =~= Seq::<bool>::empty());
        r
    }

    /// Appends one bit.
    pub fn write_bit(&mut self, bit: bool)
        requires
            old(self).wf(),
        ensures
            final(self).wf(),
            final(self)@ == old(self)@.push(bit),
    {
        let ghost old_byte = self.current_byte;
        let f = self.bits_filled;
        if bit {
            self.current_byte = self.current_byte | (1u8 << (7 - f));
        }
        proof {
            assert forall|i: int| 0 <= i < 8 implies bit_of(self.current_byte, i) == (if i == f {
                bit
            } else {
                bit_of(old_byte, i)
            }) by {
                lemma_set_bit(old_byte, f as int, i);
            }
            assert(prefix_bits(self.current_byte, f + 1) =~= prefix_bits(old_byte, f as int).push(
                bit,
            ));
        }
        self.bits_filled = f + 1;
        if self.bits_filled == 8 {
            let ghost full = self.current_byte;
            proof {
                lemma_bytes_to_bits_push(self.out@, full);
            }
            self.out.push(self.current_byte);
            self.current_byte = 0;
            self.bits_filled = 0;
            proof {
                assert forall|i: int| 0 <= i < 8 implies !bit_of(0u8, i) by {
                    lemma_set_bit(0u8, 0, i);
                }
                assert(prefix_bits(0u8, 0) =~= Seq::<bool>::empty());
                assert(self@ =~= old(self)@.push(bit));
            }
        } else {
            assert(self@ =~= old(self)@.push(bit));
        }
    }

    /// Appends the first `length` bits of `bits`, most significant first.
    pub fn write_bits(&mut self, bits: u8, length: u8)
        requires
            old(self).wf(),
            length <= 8,
        ensures
            final(self).wf(),
            final(self)@ == old(self)@ + prefix_bits(bits, length as int),
    {
        let mut i: u8 = 0;
        while i < length
            invariant
                i <= length <= 8,
                self.wf(),
                self@ == old(self)@ + prefix_bits(bits, i as int),
            decreases length - i,
        {
            let bit = (bits >> (7 - i)) & 1 == 1;
            self.write_bit(bit);
            assert(prefix_bits(bits, i + 1) =~= prefix_bits(bits, i as int).push(bit));
            i = i + 1;
        }
    }

    /// Ends the stream: a partial final byte is completed with zero bits.
    /// Returns the packed bytes and the number of padding bits used.
    pub fn flush(self) -> (r: (Vec<u8>, u8))
        requires
            self.wf(),
        ensures
            r.1 as nat == padding_for(self@.len()),
            r.1 < 8,
            bytes_to_bits(r.0@) == self@ + zeros(r.1 as nat),
    {
        let mut out = self.out;
        let f = self.bits_filled;
        proof {
            lemma_bytes_to_bits_len(out@);
            let n = out@.len();
            assert((8 * n + f) % 8 == f as int) by (nonlinear_arith)
                requires
                    f < 8,
            ;
        }
        if f > 0 {
            proof {
                lemma_bytes_to_bits_push(out@, self.current_byte);
                assert(byte_bits(self.current_byte) =~= prefix_bits(self.current_byte, f as int)
                    + zeros((8 - f) as nat));
            }
            out.push(self.current_byte);
            (out, 8 - f)
        } else {
            assert(self@ + zeros(0) =~= bytes_to_bits(out@));
            (out, 0)
        }
    }
}

/// Yields the payload bits of a packed stream one at a time, leaving out the
/// padding bits of its final byte.
pub struct BitReader {
    bytes: Vec<u8>,
    pos: usize,
    bit_index: u8,
    padding_bits: u8,
}

impl BitReader {
    /// The bits not yet read.
    pub closed spec fn view(&self) -> Seq<bool> {
        stream_bits(self.bytes@, self.padding_bits).skip(8 * self.pos + self.bit_index)
    }

    pub closed spec fn wf(&self) -> bool {
        &&& self.padding_bits <= 8
        &&& self.bit_index < 8
        &&& self.pos <= self.bytes@.len()
        &&& (self.pos == self.bytes@.len() ==> self.bit_index == 0)
        &&& 8 * self.pos + self.bit_index <= stream_bits(self.bytes@, self.padding_bits).len()
    }

    pub fn new(bytes: Vec<u8>, padding_bits: u8) -> (r: Self)
        requires
            padding_bits <= 8,
        ensures
            r.wf(),
            r@ == stream_bits(bytes@, padding_bits),
    {
        proof {
            lemma_bytes_to_bits_len(bytes@);
        }
        let r = BitReader { bytes, pos: 0, bit_index: 0, padding_bits };
        assert(r@ =~= stream_bits(r.bytes@, padding_bits));
        r
    }

    /// Returns the next payload bit, or `None` once the payload is exhausted.
    pub fn read_bit(&mut self) -> (r: Option<bool>)
        requires
            old(self).wf(),
        ensures
            final(self).wf(),
            old(self)@.len() == 0 ==> r is None && final(self)@ == old(self)@,
            old(self)@.len() > 0 ==> r == Some(old(self)@[0]) && final(self)@ == old(self)@.drop_first(),
    {
        proof {
            lemma_bytes_to_bits_len(self.bytes@);
        }
        if self.pos >= self.bytes.len() {
            return None;
        }
        let byte = self.bytes[self.pos];
        let is_last_byte = self.pos + 1 == self.bytes.len();
        let valid_bits = if is_last_byte {
            8 - self.padding_bits
        } else {
            8
        };
        if self.bit_index >= valid_bits {
            return None;
        }
        let bit = (byte >> (7 - self.bit_index)) & 1 == 1;
        proof {
            lemma_bytes_to_bits_index(self.bytes@, self.pos as int, self.bit_index as int);
        }
        self.bit_index = self.bit_index + 1;
        if self.bit_index == 8 {
            self.advance();
        }
        assert(self@ =~= old(self)@.drop_first());
        Some(bit)
    }

    /// Moves on to the first bit of the next byte.
    fn advance(&mut self)
        requires
            old(self).pos < old(self).bytes@.len(),
        ensures
            final(self).bytes == old(self).bytes,
            final(self).padding_bits == old(self).padding_bits,
            final(self).pos == old(self).pos + 1,
            final(self).bit_index == 0,
    {
        let len = self.bytes.len();
        assert(self.pos < len);
        self.pos = self.pos + 1;
        self.bit_index = 0;
    }
}

} // verus!
