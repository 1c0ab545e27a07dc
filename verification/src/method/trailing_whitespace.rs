//! This method uses the trailing [ASCII_WHITESPACE] to encode bits.
//! If the whitespace is present the bit 1 is encoded, otherwise 0.
use vstd::prelude::*;

use crate::binary::{bit_values, Bit, BitIterator};
use crate::chars::{copy_string, push_char};
use crate::context::{Context, ContextError, PivotByLineContext, PivotByRawLineContext};
use crate::decoder::Decoder;
use crate::encoder::{
    enc_state, one_bit_step, result_kind, Capacity, EncState, Encoder, EncoderResult, ErrorKind,
    MethodError,
};
use crate::method::Method;

verus! {

/// Character used as the trailing whitespace in the method.
pub const ASCII_WHITESPACE: char = ' ';

/// `line` with the trailing whitespace that hides a 1 bit.
pub open spec fn tw_extended(line: Seq<char>) -> Seq<char> {
    line.push(' ')
}

/// The bit hidden in `line`: 1 when it ends with an ASCII space.
pub open spec fn tw_decoded(line: Seq<char>) -> u8 {
    if line.len() > 0 && line.last() == ' ' {
        1
    } else {
        0
    }
}

/// One encoding step of the method.
pub open spec fn tw_step(before: EncState, after: EncState, res: Result<EncoderResult, ErrorKind>) -> bool {
    &&& after.words == before.words
    &&& one_bit_step(
        before.current,
        before.bits,
        tw_extended(before.current->0),
        after.current,
        after.bits,
        res,
    )
}

/// Unit structure used to define the method.
pub struct TrailingWhitespaceMethod;

impl TrailingWhitespaceMethod {
    pub fn new() -> Self {
        TrailingWhitespaceMethod {  }
    }
}

impl Default for TrailingWhitespaceMethod {
    fn default() -> Self {
        Self::new()
    }
}

impl Capacity for TrailingWhitespaceMethod {
    fn bitrate(&self) -> (res: usize)
        ensures
            res == 1,
    {
        1
    }
}

/// Appends `c` to the current text of `context`.
pub fn append_to_current(context: &mut PivotByLineContext, c: char) -> (res: Result<(), ContextError>)
    ensures
        final(context).pivot_of() == old(context).pivot_of(),
        final(context).words_left() == old(context).words_left(),
        old(context).current() is None ==> res is Err && res->Err_0.kind_of()
            == crate::context::ContextErrorKind::NoTextLeft && final(context).current() is None,
        old(context).current() is Some ==> res is Ok && final(context).current() == Some(
            old(context).current()->0.push(c),
        ),
{
    let text = match context.get_current_text() {
        Ok(t) => copy_string(t),
        Err(e) => return Err(e),
    };
    let mut text = text;
    push_char(&mut text, c);
    context.set_current_text(text)
}

impl Encoder<PivotByLineContext> for TrailingWhitespaceMethod {
    fn partial_encode(&self, context: &mut PivotByLineContext, data: &mut BitIterator) -> (res:
        Result<EncoderResult, MethodError>)
        ensures
            final(data).source() == old(data).source(),
            final(context).pivot_of() == old(context).pivot_of(),
            tw_step(
                enc_state(*old(context), old(data).remaining()),
                enc_state(*final(context), final(data).remaining()),
                result_kind(res),
            ),
    {
        match data.next() {
            Some(Bit(1)) => {
                match append_to_current(context, ASCII_WHITESPACE) {
                    Ok(()) => Ok(EncoderResult::Success),
                    Err(e) => Err(MethodError::Context(e)),
                }
            },
            None => Ok(EncoderResult::NoDataLeft),
            _ => Ok(EncoderResult::Success),
        }
    }
}

impl Decoder<PivotByRawLineContext> for TrailingWhitespaceMethod {
    fn partial_decode(&self, context: &PivotByRawLineContext) -> (res: Result<Vec<Bit>, ContextError>)
        ensures
            context.current() is None ==> res is Err && res->Err_0.kind_of()
                == crate::context::ContextErrorKind::NoTextLeft,
            context.current() is Some ==> res is Ok && bit_values(res->Ok_0@) == seq![
                tw_decoded(context.current()->0),
            ],
    {
        let text = match context.get_current_text() {
            Ok(t) => t,
            Err(e) => return Err(e),
        };
        let chars = crate::chars::chars_of(text.as_str());
        let n = chars.len();
        let bit = if n > 0 && chars[n - 1] == ASCII_WHITESPACE {
            Bit(1)
        } else {
            Bit(0)
        };
        let res = vec![bit];
        assert(bit_values(res@) =~= seq![tw_decoded(context.current()->0)]);
        Ok(res)
    }
}

impl Method<PivotByLineContext, PivotByRawLineContext> for TrailingWhitespaceMethod {
    fn method_name(&self) -> (res: String)
        ensures
            res@ == "TrailingWhitespaceMethod"@,
    {
        "TrailingWhitespaceMethod".to_string()
    }
}

/// A trailing space hides a 1 that reading gives back; a line that does not end with a
/// space reads as 0.
pub proof fn lemma_trailing_whitespace_roundtrip(line: Seq<char>)
    requires
        line.len() == 0 || line.last() != ' ',
    ensures
        tw_decoded(line) == 0,
        tw_decoded(tw_extended(line)) == 1,
{
}

} // verus!
