//! The Extended Line decoder: Random Whitespace, Line Extension and Trailing Whitespace.
use vstd::prelude::*;

use crate::binary::{bit_values, Bit};
use crate::decoder::line_extend_decoder::{extension_bit, LineExtendDecoder};
use crate::decoder::random_whitespace_decoder::RandomWhitespaceDecoder;
use crate::decoder::trailing_whitespace_decoder::TrailingWhitespaceDecoder;
use crate::decoder::LineDecoder;
use crate::method::random_whitespace::rw_decoded;
use crate::method::trailing_whitespace::tw_decoded;

verus! {

/// Reads the bits of Random Whitespace, Line Extension and Trailing Whitespace from a
/// line, in that order.
pub struct ExtendedLineDecoder {
    random_whitespace: RandomWhitespaceDecoder,
    line_extend: LineExtendDecoder,
    trailing_whitespace: TrailingWhitespaceDecoder,
}

impl ExtendedLineDecoder {
    /// The pivot.
    pub closed spec fn pivot_of(&self) -> usize {
        self.line_extend.pivot_of()
    }

    pub fn new(pivot: usize) -> (res: Self)
        ensures
            res.pivot_of() == pivot,
    {
        ExtendedLineDecoder {
            random_whitespace: RandomWhitespaceDecoder::new(),
            line_extend: LineExtendDecoder::new(pivot),
            trailing_whitespace: TrailingWhitespaceDecoder::new(),
        }
    }
}

impl LineDecoder for ExtendedLineDecoder {
    fn decode(&self, line: &str) -> (res: Vec<Bit>)
        ensures
            bit_values(res@) == seq![
                rw_decoded(line@),
                extension_bit(line@, self.pivot_of() as nat),
                tw_decoded(line@),
            ],
    {
        let mut secret_data: Vec<Bit> = Vec::new();
        let mut first = self.random_whitespace.decode(line);
        let ghost a = bit_values(first@);
        secret_data.append(&mut first);
        assert(bit_values(secret_data@) =~= a);
        let mut second = self.line_extend.decode(line);
        let ghost b = bit_values(second@);
        secret_data.append(&mut second);
        assert(bit_values(secret_data@) =~= a + b);
        let mut third = self.trailing_whitespace.decode(line);
        let ghost c = bit_values(third@);
        secret_data.append(&mut third);
        assert(bit_values(secret_data@) =~= a + b + c);
        assert(bit_values(secret_data@) =~= seq![
            rw_decoded(line@),
            extension_bit(line@, self.pivot_of() as nat),
            tw_decoded(line@),
        ]);
        secret_data
    }
}

} // verus!
