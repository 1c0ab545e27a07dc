//! Builds the Extended Line encoder from line encoders.
use vstd::prelude::*;

use crate::encoder::complex_encoder::{AnyLineEncoder, ComplexEncoder};
use crate::encoder::line_extend_encoder::LineExtendEncoder;
use crate::encoder::random_whitespace_encoder::RandomWhitespaceEncoder;
use crate::encoder::trailing_whitespace_encoder::TrailingWhitespaceEncoder;
use crate::ptero_text::extended_line_method::CoverWords;

verus! {

/// Builds the Extended Line encoder: Random Whitespace, Line Extension and Trailing
/// Whitespace, in that order.
pub struct ExtendedLineEncoderFactory;

impl ExtendedLineEncoderFactory {
    pub fn build(word_iter: CoverWords) -> (res: ComplexEncoder)
        ensures
            res.count() == 3,
    {
        let mut encoders: Vec<AnyLineEncoder> = Vec::new();
        encoders.push(AnyLineEncoder::RandomWhitespace(RandomWhitespaceEncoder::new()));
        encoders.push(AnyLineEncoder::LineExtend(LineExtendEncoder::new(word_iter)));
        encoders.push(AnyLineEncoder::TrailingWhitespace(TrailingWhitespaceEncoder::new()));
        ComplexEncoder::new(encoders)
    }
}

} // verus!
