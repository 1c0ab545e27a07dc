//! Bits read from a stream of bytes, most significant bit first.
use vstd::prelude::*;

use crate::binary::{bits_of_bytes, byte_bit, lemma_pattern_bit, pattern_offset, valid_pattern};

verus! {

/// A byte.
#[derive(Debug, Clone, Copy, PartialEq, Eq, Structural)]
pub struct Byte(pub u8);

/// A bit: 0 or 1.
#[derive(Debug, Clone, Copy, PartialEq, Eq, Structural)]
pub struct Bit(pub u8);

/// The mask of the next bit to read in the current byte; 0 once the byte is read.
#[derive(Debug)]
struct BinaryPattern(u8);

/// The bytes of a sequence of [Byte]s.
pub open spec fn byte_values(bytes: Seq<Byte>) -> Seq<u8> {
    bytes.map_values(|b: Byte| b.0)
}

/// Bit sequence iterator over bytes; iteration begins from the most significant bit of
/// each byte.
#[derive(Debug)]
pub struct BitIterator {
    bytes: Vec<Byte>,
    next_byte: usize,
    current_byte: Byte,
    fetch_pattern: BinaryPattern,
}

impl BitIterator {
    #[verifier::type_invariant]
    spec fn well_formed(&self) -> bool {
        &&& valid_pattern(self.fetch_pattern.0)
        &&& self.next_byte <= self.bytes@.len()
        &&& self.fetch_pattern.0 != 0 ==> self.next_byte >= 1 && self.current_byte
            == self.bytes@[self.next_byte - 1]
    }

    /// The bytes read from.
    pub closed spec fn source(&self) -> Seq<u8> {
        byte_values(self.bytes@)
    }

    /// Number of bits already read.
    pub closed spec fn position(&self) -> int {
        if self.next_byte == 0 {
            0
        } else {
            8 * (self.next_byte - 1) + pattern_offset(self.fetch_pattern.0)
        }
    }

    /// The bits still to be read.
    pub open spec fn remaining(&self) -> Seq<u8> {
        bits_of_bytes(self.source()).skip(self.position())
    }

    /// Creates an iterator over `bytes`, beginning with the most significant bit of the
    /// first byte.
    pub fn new(bytes: Vec<Byte>) -> (res: Self)
        ensures
            res.source() == byte_values(bytes@),
            res.remaining() == bits_of_bytes(byte_values(bytes@)),
    {
        let res = BitIterator { bytes, next_byte: 0, current_byte: Byte(0), fetch_pattern: BinaryPattern(0) };
        assert(bits_of_bytes(byte_values(res.bytes@)).skip(0) =~= bits_of_bytes(byte_values(res.bytes@)));
        res
    }

    /// Reads the next bit, or `None` once every bit is read.
    pub fn next(&mut self) -> (ret: Option<Bit>)
        ensures
            final(self).source() == old(self).source(),
            old(self).remaining().len() > 0 ==> ret == Some(Bit(old(self).remaining()[0]))
                && final(self).remaining() == old(self).remaining().drop_first(),
            old(self).remaining().len() == 0 ==> ret is None && final(self).remaining()
                == old(self).remaining(),
    {
        proof {
            use_type_invariant(&*self);
        }
        let ghost all = bits_of_bytes(self.source());
        let ghost old_pos = self.position();
        assert(all.len() == 8 * self.bytes@.len());
        if self.fetch_pattern.0 == 0 {
            if self.next_byte >= self.bytes.len() {
                assert(old_pos == all.len());
                return None;
            }
            let b = self.bytes[self.next_byte];
            self.current_byte = b;
            self.next_byte = self.next_byte + 1;
            self.fetch_pattern = BinaryPattern(0x80);
        }
        let byte = self.current_byte.0;
        let pattern = self.fetch_pattern.0;
        let ghost k = 8 * (self.next_byte - 1) + pattern_offset(pattern);
        proof {
            assert(k == old_pos);
            assert(0 <= pattern_offset(pattern) < 8);
            assert(byte_values(self.bytes@)[self.next_byte - 1] == byte);
            assert(k / 8 == self.next_byte - 1) by (nonlinear_arith)
                requires
                    k == 8 * (self.next_byte - 1) + pattern_offset(pattern),
                    0 <= pattern_offset(pattern) < 8,
                    self.next_byte >= 1,
            ;
            assert(k % 8 == pattern_offset(pattern)) by (nonlinear_arith)
                requires
                    k == 8 * (self.next_byte - 1) + pattern_offset(pattern),
                    0 <= pattern_offset(pattern) < 8,
                    self.next_byte >= 1,
            ;
        }
        let masked = byte & pattern;
        let bit = if masked == 0 {
            Bit(0)
        } else {
            Bit(1)
        };
        proof {
            lemma_pattern_bit(byte, pattern);
        }
        self.fetch_pattern = BinaryPattern(pattern >> 1);
        assert(all.skip(old_pos + 1) =~= all.skip(old_pos).drop_first());
        Some(bit)
    }
}

} // verus!
