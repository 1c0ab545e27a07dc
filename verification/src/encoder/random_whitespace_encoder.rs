//! An encoder doubling a space of the line, near a random place, for a 1 bit.
use vstd::prelude::*;

use crate::binary::BitIterator;
use crate::chars::{byte_len, byte_len_exact, chars_of, char_width, is_whitespace, string_of, is_white_space};
use crate::encoder::{line_res, one_bit_line_step, EncoderResult, EncodingError, EncodingErrorKind, LineEncoder};
use crate::method::random_whitespace::{
    find_char, first_index_of, lemma_first_index_bounds, random_below, rw_inserted, scan_whitespace,
};

verus! {

/// Where the extra space goes for the random byte offset `det`: before the last
/// whitespace character whose byte offset is at most `det`; when there is none, before
/// the first ASCII space; when there is none, before the last character.
pub open spec fn rw_line_position(s: Seq<char>, det: int) -> int {
    let first = first_index_of(s, ' ', 0);
    scan_whitespace(s, det, 0, if first < s.len() { first } else { s.len() - 1 })
}

/// One step of the encoder: a 1 bit doubles a space near an offset drawn at random among
/// the bytes of the line.
pub open spec fn random_whitespace_step(
    line: Seq<char>,
    bits: Seq<u8>,
    new_line: Seq<char>,
    new_bits: Seq<u8>,
    res: Result<EncoderResult, EncodingErrorKind>,
) -> bool {
    if bits.len() == 0 {
        res == Ok::<EncoderResult, EncodingErrorKind>(EncoderResult::NoDataLeft) && new_line == line
            && new_bits == bits
    } else if bits[0] == 1 {
        &&& res == Ok::<EncoderResult, EncodingErrorKind>(EncoderResult::Success)
        &&& new_bits == bits.drop_first()
        &&& exists|det: int| 0 <= det < byte_len(line) && new_line == #[trigger] rw_inserted(line, rw_line_position(line, det))
    } else {
        res == Ok::<EncoderResult, EncodingErrorKind>(EncoderResult::Success) && new_line == line
            && new_bits == bits.drop_first()
    }
}

/// Encodes a 1 bit by doubling a space of the line.
pub struct RandomWhitespaceEncoder {}

impl RandomWhitespaceEncoder {
    pub fn new() -> Self {
        RandomWhitespaceEncoder {  }
    }
}

impl Default for RandomWhitespaceEncoder {
    fn default() -> Self {
        Self::new()
    }
}

impl LineEncoder for RandomWhitespaceEncoder {
    /// The line must not be empty when a 1 bit comes (no offset could be drawn).
    fn encode(&mut self, data: &mut BitIterator, line: &mut String) -> (res: Result<EncoderResult, EncodingError>)
        ensures
            final(data).source() == old(data).source(),
            old(line)@.len() > 0 ==> random_whitespace_step(
                old(line)@,
                old(data).remaining(),
                final(line)@,
                final(data).remaining(),
                line_res(res),
            ),
            old(line)@.len() == 0 ==> one_bit_line_step(
                old(line)@,
                old(data).remaining(),
                old(line)@,
                final(line)@,
                final(data).remaining(),
                line_res(res),
            ),
    {
        match data.next() {
            Some(bit) => {
                if bit.0 == 1 {
                    let chars = chars_of(line.as_str());
                    if chars.len() == 0 {
                        return Ok(EncoderResult::Success);
                    }
                    let length = byte_len_exact(&chars);
                    proof {
                        crate::chars::lemma_byte_len_ge_len(chars@);
                    }
                    let det = random_below(length);
                    let first = find_char(&chars, ' ');
                    proof {
                        lemma_first_index_bounds(chars@, ' ', 0);
                    }
                    let mut position = if first < chars.len() { first } else { chars.len() - 1 };
                    let mut offset: u128 = 0;
                    let mut i: usize = 0;
                    assert(chars@.take(0) =~= Seq::<char>::empty());
                    while i < chars.len()
                        invariant
                            i <= chars.len(),
                            position < chars.len(),
                            offset == byte_len(chars@.take(i as int)),
                            offset <= 4 * i,
                            rw_line_position(chars@, det as int) == scan_whitespace(chars@, det as int, i as int, position as int),
                        ensures
                            position <= chars.len(),
                            rw_line_position(chars@, det as int) == position as int,
                        decreases chars.len() - i,
                    {
                        if offset > det {
                            break ;
                        }
                        if is_whitespace(chars[i]) {
                            position = i;
                        }
                        assert(chars@.take(i as int + 1).drop_last() == chars@.take(i as int));
                        offset = offset + char_width(chars[i]) as u128;
                        i += 1;
                    }
                    let mut out = chars;
                    out.insert(position, ' ');
                    assert(out@ =~= rw_inserted(old(line)@, position as int));
                    *line = string_of(&out);
                }
                Ok(EncoderResult::Success)
            },
            None => Ok(EncoderResult::NoDataLeft),
        }
    }
}

} // verus!
