//! This method extends a line with an extra word (past the pivot) to encode a bit.
//! If the line length is greater than the pivot the bit 1 is encoded, otherwise 0.
//!
//! Encoding fails with [EncodingError](crate::encoder::EncodingError) when no extra word
//! is left for a 1 bit.
use vstd::prelude::*;

use crate::binary::{bit_values, Bit, BitIterator};
use crate::chars::{
    byte_len, byte_len_exact, chars_of, collapse_white_space, collapse_whitespace, copy_string,
    is_white_space, push_char, push_str, trim_end_in, trim_end_matching,
};
use crate::context::{Context, ContextError, PivotByLineContext, PivotByRawLineContext};
use crate::decoder::Decoder;
use crate::encoder::{
    enc_state, result_kind, Capacity, EncState, Encoder, EncoderResult, EncodingError, ErrorKind,
    MethodError,
};
use crate::method::Method;

verus! {

/// Character used as the word delimiter.
pub const ASCII_DELIMITER: char = ' ';

/// Set of possible line endings. It includes every character a trailing-character
/// method may append, not only the curated sets used in encoding.
pub const POSSIBLE_LINE_ENDINGS_SET: [char; 32] = [
    '\u{0020}', '\u{2000}', '\u{2001}', '\u{2002}', '\u{2003}', '\u{2004}', '\u{2005}', '\u{2006}',
    '\u{2007}', '\u{2009}', '\u{200A}', '\u{200B}', '\u{200C}', '\u{200D}', '\u{200E}', '\u{2028}',
    '\u{202A}', '\u{202C}', '\u{202D}', '\u{202F}', '\u{205F}', '\u{2060}', '\u{2061}', '\u{2062}',
    '\u{2063}', '\u{2064}', '\u{2066}', '\u{2068}', '\u{2069}', '\u{3000}', '\u{FEFF}', '\u{00A0}',
];

/// `line` extended with `word`, which hides a 1 bit.
pub open spec fn le_extended(line: Seq<char>, word: Seq<char>) -> Seq<char> {
    line + seq![' '] + word
}

/// The text whose length is compared with the pivot: whitespace runs collapsed to one
/// space and possible line endings trimmed.
pub open spec fn le_measured(line: Seq<char>) -> Seq<char> {
    trim_end_in(collapse_white_space(line), POSSIBLE_LINE_ENDINGS_SET@)
}

/// The bit hidden in `line` under `pivot`: 1 when the measured line is longer than the pivot.
pub open spec fn le_decoded(line: Seq<char>, pivot: int) -> u8 {
    if byte_len(le_measured(line)) > pivot {
        1
    } else {
        0
    }
}

/// One encoding step of the method.
pub open spec fn le_step(before: EncState, after: EncState, res: Result<EncoderResult, ErrorKind>) -> bool {
    let bits = before.bits;
    let cur = before.current;
    let ws = before.words;
    if bits.len() == 0 {
        res == Ok::<EncoderResult, ErrorKind>(EncoderResult::NoDataLeft) && after.current == cur
            && after.words == ws && after.bits == bits
    } else if bits[0] != 1 {
        res == Ok::<EncoderResult, ErrorKind>(EncoderResult::Success) && after.current == cur
            && after.words == ws && after.bits == bits.drop_first()
    } else if ws.len() == 0 {
        res == Err::<EncoderResult, ErrorKind>(ErrorKind::NoWordsLeft) && after.current == cur
            && after.words == ws && after.bits == bits.drop_first()
    } else {
        &&& after.bits == bits.drop_first()
        &&& after.words == ws.drop_first()
        &&& match cur {
            None => res == Err::<EncoderResult, ErrorKind>(ErrorKind::NoTextLeft)
                && after.current is None,
            Some(l) => res == Ok::<EncoderResult, ErrorKind>(EncoderResult::Success)
                && after.current == Some(le_extended(l, ws[0])),
        }
    }
}

/// Unit structure representing the line extension method.
pub struct LineExtendMethod;

impl LineExtendMethod {
    pub fn new() -> Self {
        LineExtendMethod {  }
    }
}

impl Default for LineExtendMethod {
    fn default() -> Self {
        Self::new()
    }
}

impl Capacity for LineExtendMethod {
    fn bitrate(&self) -> (res: usize)
        ensures
            res == 1,
    {
        1
    }
}

impl Encoder<PivotByLineContext> for LineExtendMethod {
    fn partial_encode(&self, context: &mut PivotByLineContext, data: &mut BitIterator) -> (res:
        Result<EncoderResult, MethodError>)
        ensures
            final(data).source() == old(data).source(),
            final(context).pivot_of() == old(context).pivot_of(),
            le_step(
                enc_state(*old(context), old(data).remaining()),
                enc_state(*final(context), final(data).remaining()),
                result_kind(res),
            ),
    {
        match data.next() {
            Some(Bit(1)) => {
                let word = match context.next_word() {
                    Some(w) => w,
                    None => {
                        return Err(MethodError::Encoding(EncodingError::no_words_error()));
                    },
                };
                let text = match context.get_current_text() {
                    Ok(t) => copy_string(t),
                    Err(e) => {
                        return Err(MethodError::Context(e));
                    },
                };
                let mut text = text;
                let ghost before = text@;
                push_char(&mut text, ASCII_DELIMITER);
                push_str(&mut text, word.as_str());
                assert(text@ =~= le_extended(before, word@));
                match context.set_current_text(text) {
                    Ok(()) => Ok(EncoderResult::Success),
                    Err(e) => Err(MethodError::Context(e)),
                }
            },
            None => Ok(EncoderResult::NoDataLeft),
            _ => Ok(EncoderResult::Success),
        }
    }
}

impl Decoder<PivotByRawLineContext> for LineExtendMethod {
    fn partial_decode(&self, context: &PivotByRawLineContext) -> (res: Result<Vec<Bit>, ContextError>)
        ensures
            context.current() is None ==> res is Err && res->Err_0.kind_of()
                == crate::context::ContextErrorKind::NoTextLeft,
            context.current() is Some ==> res is Ok && bit_values(res->Ok_0@) == seq![
                le_decoded(context.current()->0, context.pivot_of() as int),
            ],
    {
        let text = match context.get_current_text() {
            Ok(t) => t,
            Err(e) => return Err(e),
        };
        let chars = chars_of(text.as_str());
        let cleaned = collapse_whitespace(&chars);
        let trimmed = trim_end_matching(cleaned, &POSSIBLE_LINE_ENDINGS_SET);
        let length = byte_len_exact(&trimmed);
        let bit = if length > context.get_pivot() as u128 {
            Bit(1)
        } else {
            Bit(0)
        };
        let res = vec![bit];
        assert(bit_values(res@) =~= seq![
            le_decoded(context.current()->0, context.pivot_of() as int),
        ]);
        Ok(res)
    }
}

impl Method<PivotByLineContext, PivotByRawLineContext> for LineExtendMethod {
    fn method_name(&self) -> (res: String)
        ensures
            res@ == "LineExtendMethod"@,
    {
        "LineExtendMethod".to_string()
    }
}

/// Whether the only whitespace of `s` is single ASCII spaces.
pub open spec fn single_spaced(s: Seq<char>) -> bool {
    &&& forall|i: int| 0 <= i < s.len() && is_white_space(#[trigger] s[i]) ==> s[i] == ' '
    &&& forall|i: int| 0 <= i && i + 1 < s.len() ==> !(is_white_space(s[i]) && is_white_space(#[trigger] s[i + 1]))
}

/// Collapsing whitespace runs leaves a single-spaced text as it is.
proof fn lemma_collapse_single_spaced(s: Seq<char>)
    requires
        single_spaced(s),
    ensures
        collapse_white_space(s) == s,
    decreases s.len(),
{
    if s.len() > 0 {
        let d = s.drop_last();
        assert(single_spaced(d)) by {
            assert forall|i: int| 0 <= i < d.len() && is_white_space(#[trigger] d[i]) implies d[i] == ' ' by {
                assert(d[i] == s[i]);
            }
            assert forall|i: int| 0 <= i && i + 1 < d.len() implies !(is_white_space(d[i]) && is_white_space(#[trigger] d[i + 1])) by {
                assert(d[i] == s[i] && d[i + 1] == s[i + 1]);
            }
        }
        lemma_collapse_single_spaced(d);
        if is_white_space(s.last()) && s.len() >= 2 {
            let j = s.len() - 2;
            assert(!(is_white_space(s[j]) && is_white_space(s[j + 1])));
            assert(!is_white_space(s[s.len() - 2]));
        }
        assert(d.push(s.last()) =~= s);
    }
}

/// An extension past the pivot hides a 1 that reading gives back: a single-spaced line
/// within the pivot reads as 0; extended with a space and a next word that brings it
/// beyond the pivot, it reads as 1 (neither ending in a possible line ending).
pub proof fn lemma_line_extend_roundtrip(line: Seq<char>, word: Seq<char>, pivot: int)
    requires
        single_spaced(line),
        line.len() > 0,
        !is_white_space(line.last()),
        !POSSIBLE_LINE_ENDINGS_SET@.contains(line.last()),
        word.len() > 0,
        forall|i: int| 0 <= i < word.len() ==> !is_white_space(#[trigger] word[i]),
        !POSSIBLE_LINE_ENDINGS_SET@.contains(word.last()),
        byte_len(line) <= pivot < byte_len(line) + 1 + byte_len(word),
    ensures
        le_decoded(line, pivot) == 0,
        le_decoded(le_extended(line, word), pivot) == 1,
{
    let ext = le_extended(line, word);
    assert((' ' as u32) == 0x20);
    assert(single_spaced(ext)) by {
        assert forall|i: int| 0 <= i < ext.len() && is_white_space(#[trigger] ext[i]) implies ext[i] == ' ' by {
            if i < line.len() {
                assert(ext[i] == line[i]);
            } else if i > line.len() {
                assert(ext[i] == word[i - line.len() - 1]);
            }
        }
        assert forall|i: int| 0 <= i && i + 1 < ext.len() implies !(is_white_space(ext[i]) && is_white_space(#[trigger] ext[i + 1])) by {
            if i + 1 < line.len() {
                assert(ext[i] == line[i] && ext[i + 1] == line[i + 1]);
            } else if i + 1 == line.len() {
                assert(ext[i] == line.last());
            } else if i == line.len() {
                assert(ext[i + 1] == word[0]);
            } else {
                assert(ext[i] == word[i - line.len() - 1]);
            }
        }
    }
    lemma_collapse_single_spaced(line);
    lemma_collapse_single_spaced(ext);
    assert(ext.last() == word.last());
    crate::chars::lemma_byte_len_concat(line + seq![' '], word);
    crate::chars::lemma_byte_len_concat(line, seq![' ']);
    reveal_with_fuel(byte_len, 2);
    assert(seq![' '].drop_last() =~= Seq::<char>::empty());
}

} // verus!
