//! Reads a 1 bit where the line ends with an ASCII space.
use vstd::prelude::*;

use crate::binary::{bit_values, Bit};
use crate::chars::chars_of;
use crate::decoder::LineDecoder;
use crate::method::trailing_whitespace::tw_decoded;

verus! {

/// Decodes the bit of the Trailing Whitespace encoder.
pub struct TrailingWhitespaceDecoder {}

impl TrailingWhitespaceDecoder {
    pub fn new() -> Self {
        TrailingWhitespaceDecoder {  }
    }
}

impl Default for TrailingWhitespaceDecoder {
    fn default() -> Self {
        Self::new()
    }
}

impl LineDecoder for TrailingWhitespaceDecoder {
    fn decode(&self, line: &str) -> (res: Vec<Bit>)
        ensures
            bit_values(res@) == seq![tw_decoded(line@)],
    {
        let chars = chars_of(line);
        let n = chars.len();
        let bit = if n > 0 && chars[n - 1] == ' ' {
            Bit(1)
        } else {
            Bit(0)
        };
        let res = vec![bit];
        assert(bit_values(res@) =~= seq![tw_decoded(line@)]);
        res
    }
}

} // verus!
