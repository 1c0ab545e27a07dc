//! An encoder putting a trailing ASCII space on the line for a 1 bit.
use vstd::prelude::*;

use crate::binary::BitIterator;
use crate::chars::push_char;
use crate::encoder::{
    line_res, one_bit_line_step, EncoderResult, EncodingError, LineEncoder,
};

verus! {

/// Encodes a bit as a trailing ASCII space.
pub struct TrailingWhitespaceEncoder {}

impl TrailingWhitespaceEncoder {
    pub fn new() -> Self {
        TrailingWhitespaceEncoder {  }
    }

    /// Bits hidden per line.
    pub fn rate(&self) -> (res: u32)
        ensures
            res == 1,
    {
        1
    }
}

impl Default for TrailingWhitespaceEncoder {
    fn default() -> Self {
        Self::new()
    }
}

impl LineEncoder for TrailingWhitespaceEncoder {
    fn encode(&mut self, data: &mut BitIterator, line: &mut String) -> (res: Result<EncoderResult, EncodingError>)
        ensures
            final(data).source() == old(data).source(),
            one_bit_line_step(old(line)@, old(data).remaining(), old(line)@.push(' '), final(line)@, final(data).remaining(), line_res(res)),
    {
        match data.next() {
            Some(bit) => {
                if bit.0 == 1 {
                    push_char(line, ' ');
                }
                Ok(EncoderResult::Success)
            },
            None => Ok(EncoderResult::NoDataLeft),
        }
    }
}

} // verus!
