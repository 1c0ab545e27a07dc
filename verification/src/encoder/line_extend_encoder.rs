//! An encoder extending the line with one more word for a 1 bit.
use vstd::prelude::*;

use crate::binary::BitIterator;
use crate::chars::{push_char, push_str};
use crate::encoder::{
    line_res, EncoderResult, EncodingError, EncodingErrorKind, LineEncoder,
};
use crate::ptero_text::extended_line_method::CoverWords;

verus! {

/// Encodes a 1 bit by extending the line with a space and the next cover word.
pub struct LineExtendEncoder {
    word_iter: CoverWords,
}

/// One step of the encoder: a 1 bit appends a space and the next word, an error when no
/// word is left.
pub open spec fn line_extend_step(
    line: Seq<char>,
    words: Seq<Seq<char>>,
    bits: Seq<u8>,
    new_line: Seq<char>,
    new_words: Seq<Seq<char>>,
    new_bits: Seq<u8>,
    res: Result<EncoderResult, EncodingErrorKind>,
) -> bool {
    if bits.len() == 0 {
        res == Ok::<EncoderResult, EncodingErrorKind>(EncoderResult::NoDataLeft) && new_line == line
            && new_words == words && new_bits == bits
    } else if bits[0] == 1 {
        &&& new_bits == bits.drop_first()
        &&& if words.len() == 0 {
            res == Err::<EncoderResult, EncodingErrorKind>(EncodingErrorKind::NoWordsLeft)
        } else {
            res == Ok::<EncoderResult, EncodingErrorKind>(EncoderResult::Success) && new_line == line
                + seq![' '] + words[0] && new_words == words.drop_first()
        }
    } else {
        res == Ok::<EncoderResult, EncodingErrorKind>(EncoderResult::Success) && new_line == line
            && new_words == words && new_bits == bits.drop_first()
    }
}

impl LineExtendEncoder {
    /// The cover words not used yet.
    pub closed spec fn words_left(&self) -> Seq<Seq<char>> {
        self.word_iter.rest()
    }

    /// An encoder taking extra words from `word_iter`.
    pub fn new(word_iter: CoverWords) -> (res: Self)
        ensures
            res.words_left() == word_iter.rest(),
    {
        LineExtendEncoder { word_iter }
    }
}

impl LineEncoder for LineExtendEncoder {
    fn encode(&mut self, data: &mut BitIterator, line: &mut String) -> (res: Result<EncoderResult, EncodingError>)
        ensures
            final(data).source() == old(data).source(),
            line_extend_step(
                old(line)@,
                old(self).words_left(),
                old(data).remaining(),
                final(line)@,
                final(self).words_left(),
                final(data).remaining(),
                line_res(res),
            ),
    {
        match data.next() {
            Some(bit) => {
                if bit.0 == 1 {
                    let word = match self.word_iter.next() {
                        Some(w) => w,
                        None => {
                            return Err(EncodingError::no_words_error());
                        },
                    };
                    push_char(line, ' ');
                    push_str(line, word.as_str());
                    assert(line@ =~= old(line)@ + seq![' '] + old(self).words_left()[0]);
                }
                Ok(EncoderResult::Success)
            },
            None => Ok(EncoderResult::NoDataLeft),
        }
    }
}

} // verus!
