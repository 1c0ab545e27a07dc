//! The Extended Line encoder: Random Whitespace, Line Extension and Trailing Whitespace.
use vstd::prelude::*;

use crate::binary::BitIterator;
use crate::encoder::complex_encoder::{complex_outcome, AnyLineEncoder, ComplexEncoder};
use crate::encoder::line_extend_encoder::LineExtendEncoder;
use crate::encoder::random_whitespace_encoder::RandomWhitespaceEncoder;
use crate::encoder::trailing_whitespace_encoder::TrailingWhitespaceEncoder;
use crate::encoder::{line_res, EncoderResult, EncodingError, LineEncoder};
use crate::ptero_text::extended_line_method::CoverWords;

verus! {

/// Applies Random Whitespace, Line Extension and Trailing Whitespace to a line in turn.
pub struct ExtendedLineEncoder {
    encoders: ComplexEncoder,
}

impl ExtendedLineEncoder {
    /// The encoders applied in turn.
    pub closed spec fn encoders_of(&self) -> Seq<AnyLineEncoder> {
        self.encoders.encoders_of()
    }

    /// The encoder taking the extra words of Line Extension from `word_iter`.
    pub fn new(word_iter: CoverWords) -> (res: Self)
        ensures
            res.encoders_of().len() == 3,
            res.encoders_of()[0] is RandomWhitespace,
            res.encoders_of()[1] is LineExtend,
            res.encoders_of()[1].extra_words() == word_iter.rest(),
            res.encoders_of()[2] is TrailingWhitespace,
    {
        let mut encoders: Vec<AnyLineEncoder> = Vec::new();
        encoders.push(AnyLineEncoder::RandomWhitespace(RandomWhitespaceEncoder::new()));
        encoders.push(AnyLineEncoder::LineExtend(LineExtendEncoder::new(word_iter)));
        encoders.push(AnyLineEncoder::TrailingWhitespace(TrailingWhitespaceEncoder::new()));
        let res = ExtendedLineEncoder { encoders: ComplexEncoder::new(encoders) };
        assert(res.encoders_of()[1].extra_words() == word_iter.rest());
        res
    }
}

impl LineEncoder for ExtendedLineEncoder {
    fn encode(&mut self, data: &mut BitIterator, line: &mut String) -> (res: Result<EncoderResult, EncodingError>)
        ensures
            final(data).source() == old(data).source(),
            complex_outcome(
                old(self).encoders_of(),
                final(self).encoders_of(),
                old(line)@,
                old(data).remaining(),
                final(line)@,
                final(data).remaining(),
                line_res(res),
            ),
    {
        self.encoders.encode(data, line)
    }
}

} // verus!
