//! This method puts [ASCII_WHITESPACE] between two randomly selected words.
//! If the duplicate whitespace is present the bit 1 is encoded, otherwise 0.
use rand::Rng;
use vstd::prelude::*;

use crate::binary::{bit_values, Bit, BitIterator};
use crate::chars::{
    byte_len, byte_len_exact, char_width, chars_of, is_white_space, is_whitespace, string_of,
};
use crate::context::{Context, ContextError, PivotByLineContext, PivotByRawLineContext};
use crate::decoder::Decoder;
use crate::encoder::{
    enc_state, result_kind, Capacity, EncState, Encoder, EncoderResult, ErrorKind, MethodError,
};
use crate::method::Method;

verus! {

/// Character used as the random whitespace in the method.
pub const ASCII_WHITESPACE: char = ' ';

/// A number drawn uniformly from `0..upper` by the thread-local generator
/// (`rand::thread_rng().gen_range(0..upper)`); the contract states only the range.
#[verifier::external_body]
pub(crate) fn random_below(upper: u128) -> (res: u128)
    requires
        upper > 0,
    ensures
        res < upper,
{
    rand::thread_rng().gen_range(0..upper)
}

/// Index of the first `c` in `s` at or after `i`, or `s.len()` when there is none.
pub open spec fn first_index_of(s: Seq<char>, c: char, i: int) -> int
    decreases s.len() - i,
{
    if i < 0 || i >= s.len() {
        s.len() as int
    } else if s[i] == c {
        i
    } else {
        first_index_of(s, c, i + 1)
    }
}

/// Scans `s` from index `i` while the byte offset of the character is at most `det`,
/// remembering the index of the last whitespace character seen (starting from `pos`).
pub open spec fn scan_whitespace(s: Seq<char>, det: int, i: int, pos: int) -> int
    decreases s.len() - i,
{
    if i < 0 || i >= s.len() || byte_len(s.take(i)) > det {
        pos
    } else {
        scan_whitespace(s, det, i + 1, if is_white_space(s[i]) { i } else { pos })
    }
}

/// Where the extra space goes for the random byte offset `det`: before the last
/// whitespace character whose byte offset is at most `det`; when there is none, before
/// the first ASCII space; when there is none, at the end.
pub open spec fn rw_position(s: Seq<char>, det: int) -> int {
    scan_whitespace(s, det, 0, first_index_of(s, ' ', 0))
}

/// `s` with an ASCII space inserted at index `pos`.
pub open spec fn rw_inserted(s: Seq<char>, pos: int) -> Seq<char> {
    s.take(pos) + seq![' '] + s.skip(pos)
}

/// Whether `s` holds two consecutive ASCII spaces.
pub open spec fn has_double_space(s: Seq<char>) -> bool {
    exists|i: int| 0 <= i && i + 1 < s.len() && s[i] == ' ' && #[trigger] s[i + 1] == ' '
}

/// The bit hidden in `line`: 1 when it holds two consecutive ASCII spaces.
pub open spec fn rw_decoded(line: Seq<char>) -> u8 {
    if has_double_space(line) {
        1
    } else {
        0
    }
}

pub(crate) proof fn lemma_first_index_bounds(s: Seq<char>, c: char, i: int)
    requires
        0 <= i <= s.len(),
    ensures
        i <= first_index_of(s, c, i) <= s.len(),
    decreases s.len() - i,
{
    if i < s.len() && s[i] != c {
        lemma_first_index_bounds(s, c, i + 1);
    }
}

/// Index of the first `c` in `s`, or its length.
pub(crate) fn find_char(s: &Vec<char>, c: char) -> (res: usize)
    ensures
        res == first_index_of(s@, c, 0),
{
    let mut i: usize = 0;
    while i < s.len()
        invariant
            i <= s.len(),
            first_index_of(s@, c, 0) == first_index_of(s@, c, i as int),
        decreases s.len() - i,
    {
        if s[i] == c {
            return i;
        }
        i += 1;
    }
    i
}

/// Index in `s` before which the extra space goes for the byte offset `det`.
fn find_approx_whitespace_position(s: &Vec<char>, det: u128) -> (res: usize)
    ensures
        res == rw_position(s@, det as int),
        res <= s.len(),
{
    let first = find_char(s, ASCII_WHITESPACE);
    proof {
        lemma_first_index_bounds(s@, ' ', 0);
    }
    let mut position = first;
    let mut offset: u128 = 0;
    let mut i: usize = 0;
    assert(s@.take(0) =~= Seq::<char>::empty());
    while i < s.len()
        invariant
            i <= s.len(),
            position <= s.len(),
            offset == byte_len(s@.take(i as int)),
            offset <= 4 * i,
            rw_position(s@, det as int) == scan_whitespace(s@, det as int, i as int, position as int),
        ensures
            position <= s.len(),
            rw_position(s@, det as int) == position as int,
        decreases s.len() - i,
    {
        if offset > det {
            break;
        }
        if is_whitespace(s[i]) {
            position = i;
        }
        assert(s@.take(i as int + 1).drop_last() == s@.take(i as int));
        offset = offset + char_width(s[i]) as u128;
        i += 1;
    }
    position
}

/// `s` with `c` inserted at index `pos`.
fn insert_char(s: &Vec<char>, pos: usize, c: char) -> (res: Vec<char>)
    requires
        pos <= s.len(),
    ensures
        res@ == s@.take(pos as int) + seq![c] + s@.skip(pos as int),
{
    let mut res: Vec<char> = Vec::new();
    let mut i: usize = 0;
    while i < pos
        invariant
            i <= pos <= s.len(),
            res@ == s@.take(i as int),
        decreases pos - i,
    {
        res.push(s[i]);
        assert(s@.take(i as int + 1) == s@.take(i as int).push(s@[i as int]));
        i += 1;
    }
    res.push(c);
    while i < s.len()
        invariant
            pos <= i <= s.len(),
            res@ == s@.take(pos as int) + seq![c] + s@.subrange(pos as int, i as int),
        decreases s.len() - i,
    {
        res.push(s[i]);
        assert(s@.subrange(pos as int, i as int + 1) == s@.subrange(pos as int, i as int).push(
            s@[i as int],
        ));
        i += 1;
    }
    assert(s@.subrange(pos as int, s.len() as int) == s@.skip(pos as int));
    res
}

/// One encoding step of the method; `det` is drawn at random below the byte length of
/// the line.
pub open spec fn rw_step(before: EncState, after: EncState, res: Result<EncoderResult, ErrorKind>) -> bool {
    let bits = before.bits;
    let cur = before.current;
    &&& after.words == before.words
    &&& if bits.len() == 0 {
        res == Ok::<EncoderResult, ErrorKind>(EncoderResult::NoDataLeft) && after.current == cur
            && after.bits == bits
    } else if bits[0] != 1 {
        res == Ok::<EncoderResult, ErrorKind>(EncoderResult::Success) && after.current == cur
            && after.bits == bits.drop_first()
    } else {
        &&& after.bits == bits.drop_first()
        &&& match cur {
            None => res == Err::<EncoderResult, ErrorKind>(ErrorKind::NoTextLeft)
                && after.current is None,
            Some(l) => res == Ok::<EncoderResult, ErrorKind>(EncoderResult::Success) && (l.len()
                == 0 ==> after.current == cur) && (l.len() > 0 ==> exists|det: int|
                0 <= det < byte_len(l) && after.current == Some(
                    #[trigger] rw_inserted(l, rw_position(l, det)),
                )),
        }
    }
}

/// Unit structure representing the random whitespace method.
pub struct RandomWhitespaceMethod;

impl RandomWhitespaceMethod {
    pub fn new() -> Self {
        RandomWhitespaceMethod {  }
    }
}

impl Default for RandomWhitespaceMethod {
    fn default() -> Self {
        Self::new()
    }
}

impl Capacity for RandomWhitespaceMethod {
    fn bitrate(&self) -> (res: usize)
        ensures
            res == 1,
    {
        1
    }
}

impl Encoder<PivotByLineContext> for RandomWhitespaceMethod {
    /// Needs a non-empty current line when the next bit is 1 (the random offset is
    /// drawn below its byte length).
    fn partial_encode(&self, context: &mut PivotByLineContext, data: &mut BitIterator) -> (res:
        Result<EncoderResult, MethodError>)
        ensures
            final(data).source() == old(data).source(),
            final(context).pivot_of() == old(context).pivot_of(),
            rw_step(
                enc_state(*old(context), old(data).remaining()),
                enc_state(*final(context), final(data).remaining()),
                result_kind(res),
            ),
    {
        match data.next() {
            Some(Bit(1)) => {
                let text = match context.get_current_text() {
                    Ok(t) => chars_of(t.as_str()),
                    Err(e) => {
                        return Err(MethodError::Context(e));
                    },
                };
                let total = byte_len_exact(&text);
                if total == 0 {
                    return Ok(EncoderResult::Success);
                }
                let det = random_below(total);
                let position = find_approx_whitespace_position(&text, det);
                let inserted = insert_char(&text, position, ASCII_WHITESPACE);
                let new_text = string_of(&inserted);
                assert(inserted@ == rw_inserted(text@, rw_position(text@, det as int)));
                match context.set_current_text(new_text) {
                    Ok(()) => Ok(EncoderResult::Success),
                    Err(e) => Err(MethodError::Context(e)),
                }
            },
            None => Ok(EncoderResult::NoDataLeft),
            _ => Ok(EncoderResult::Success),
        }
    }
}

impl Decoder<PivotByRawLineContext> for RandomWhitespaceMethod {
    fn partial_decode(&self, context: &PivotByRawLineContext) -> (res: Result<Vec<Bit>, ContextError>)
        ensures
            context.current() is None ==> res is Err && res->Err_0.kind_of()
                == crate::context::ContextErrorKind::NoTextLeft,
            context.current() is Some ==> res is Ok && bit_values(res->Ok_0@) == seq![
                rw_decoded(context.current()->0),
            ],
    {
        let text = match context.get_current_text() {
            Ok(t) => t,
            Err(e) => return Err(e),
        };
        let res = vec![Bit(double_space_bit(text.as_str()))];
        assert(bit_values(res@) =~= seq![rw_decoded(context.current()->0)]);
        Ok(res)
    }
}

/// The bit hidden in `line`: 1 when it holds two consecutive ASCII spaces.
pub fn double_space_bit(line: &str) -> (res: u8)
    ensures
        res == rw_decoded(line@),
{
    let chars = chars_of(line);
    let mut seen_whitespace = false;
    let mut i: usize = 0;
    while i < chars.len()
        invariant
            i <= chars.len(),
            chars@ == line@,
            seen_whitespace == (i > 0 && chars@[i - 1] == ' '),
            forall|j: int| 0 <= j && j + 1 < i ==> !(chars@[j] == ' ' && #[trigger] chars@[j + 1] == ' '),
        decreases chars.len() - i,
    {
        let is_whitespace = chars[i] == ASCII_WHITESPACE;
        if seen_whitespace && is_whitespace {
            assert(chars@[i - 1] == ' ' && chars@[(i - 1) + 1] == ' ');
            assert(has_double_space(chars@));
            return 1;
        }
        seen_whitespace = is_whitespace;
        i += 1;
    }
    assert(!has_double_space(chars@));
    0
}

impl Method<PivotByLineContext, PivotByRawLineContext> for RandomWhitespaceMethod {
    fn method_name(&self) -> (res: String)
        ensures
            res@ == "RandomWhitespaceMethod"@,
    {
        "RandomWhitespaceMethod".to_string()
    }
}

/// The scan ends on its starting position or on a whitespace character.
proof fn lemma_scan_lands_on_whitespace(s: Seq<char>, det: int, i: int, pos: int)
    requires
        0 <= i,
    ensures
        scan_whitespace(s, det, i, pos) == pos || (0 <= scan_whitespace(s, det, i, pos) < s.len()
            && is_white_space(s[scan_whitespace(s, det, i, pos)])),
    decreases s.len() - i,
{
    if i < s.len() && byte_len(s.take(i)) <= det {
        lemma_scan_lands_on_whitespace(s, det, i + 1, if is_white_space(s[i]) { i } else { pos });
    }
}

/// Doubling a space hides a 1 that reading gives back: in a line whose only whitespace
/// is single ASCII spaces, and which has one, no double space is read before, and one is
/// read after the extra space goes in, wherever the random offset falls.
pub proof fn lemma_random_whitespace_roundtrip(line: Seq<char>, det: int)
    requires
        exists|i: int| 0 <= i < line.len() && line[i] == ' ',
        forall|i: int| 0 <= i < line.len() && is_white_space(#[trigger] line[i]) ==> line[i] == ' ',
        forall|i: int| 0 <= i && i + 1 < line.len() ==> !(line[i] == ' ' && #[trigger] line[i + 1] == ' '),
    ensures
        rw_decoded(line) == 0,
        rw_decoded(rw_inserted(line, rw_position(line, det))) == 1,
{
    let w = choose|i: int| 0 <= i < line.len() && line[i] == ' ';
    lemma_first_index_below_rw(line, ' ', 0, w);
    let first = first_index_of(line, ' ', 0);
    lemma_scan_lands_on_whitespace(line, det, 0, first);
    let p = rw_position(line, det);
    assert(0 <= p < line.len() && line[p] == ' ');
    let out = rw_inserted(line, p);
    assert(out[p] == ' ');
    assert(out[p + 1] == ' ');
    assert(has_double_space(out));
}

/// The first occurrence of `c` from `i` on comes no later than a known occurrence.
proof fn lemma_first_index_below_rw(s: Seq<char>, c: char, i: int, o: int)
    requires
        0 <= i <= o < s.len(),
        s[o] == c,
    ensures
        first_index_of(s, c, i) <= o,
        s[first_index_of(s, c, i)] == c,
        0 <= first_index_of(s, c, i),
    decreases o - i,
{
    if s[i] != c {
        lemma_first_index_below_rw(s, c, i + 1, o);
    }
}

} // verus!
