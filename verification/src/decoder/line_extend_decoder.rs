//! Reads a 1 bit where the line, whitespace runs counted as one space and trailing
//! whitespace left out, is longer than the pivot.
use vstd::prelude::*;

use crate::binary::{bit_values, Bit};
use crate::chars::{byte_len, byte_len_exact, chars_of, collapse_white_space, collapse_whitespace, trim_end, trim_end_chars};
use crate::decoder::LineDecoder;

verus! {

/// The bit read from `line`: 1 when the line, whitespace runs collapsed to one space and
/// trailing whitespace trimmed, is longer than `pivot` bytes.
pub open spec fn extension_bit(line: Seq<char>, pivot: nat) -> u8 {
    if byte_len(trim_end(collapse_white_space(line))) > pivot {
        1
    } else {
        0
    }
}

/// Decodes the bit of the Line Extension encoder.
pub struct LineExtendDecoder {
    pivot: usize,
}

impl LineExtendDecoder {
    /// The pivot.
    pub closed spec fn pivot_of(&self) -> usize {
        self.pivot
    }

    pub fn new(pivot: usize) -> (res: Self)
        ensures
            res.pivot_of() == pivot,
    {
        LineExtendDecoder { pivot }
    }
}

impl LineDecoder for LineExtendDecoder {
    fn decode(&self, line: &str) -> (res: Vec<Bit>)
        ensures
            bit_values(res@) == seq![extension_bit(line@, self.pivot_of() as nat)],
    {
        let chars = chars_of(line);
        let cleaned = collapse_whitespace(&chars);
        let trimmed = trim_end_chars(cleaned);
        let bit = if byte_len_exact(&trimmed) > self.pivot as u128 {
            Bit(1)
        } else {
            Bit(0)
        };
        let res = vec![bit];
        assert(bit_values(res@) =~= seq![extension_bit(line@, self.pivot as nat)]);
        res
    }
}

} // verus!
