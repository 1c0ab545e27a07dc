//! Reads a 1 bit where two ASCII spaces follow each other in the line.
use vstd::prelude::*;

use crate::binary::{bit_values, Bit};
use crate::decoder::LineDecoder;
use crate::method::random_whitespace::{double_space_bit, rw_decoded};

verus! {

/// Decodes the bit of the Random Whitespace encoder.
pub struct RandomWhitespaceDecoder {}

impl RandomWhitespaceDecoder {
    pub fn new() -> Self {
        RandomWhitespaceDecoder {  }
    }
}

impl Default for RandomWhitespaceDecoder {
    fn default() -> Self {
        Self::new()
    }
}

impl LineDecoder for RandomWhitespaceDecoder {
    fn decode(&self, line: &str) -> (res: Vec<Bit>)
        ensures
            bit_values(res@) == seq![rw_decoded(line@)],
    {
        let res = vec![Bit(double_space_bit(line))];
        assert(bit_values(res@) =~= seq![rw_decoded(line@)]);
        res
    }
}

} // verus!
