//! An encoder applying several line encoders in turn.
use vstd::prelude::*;

use crate::binary::BitIterator;
use crate::encoder::line_extend_encoder::LineExtendEncoder;
use crate::encoder::random_whitespace_encoder::RandomWhitespaceEncoder;
use crate::encoder::trailing_unicode_encoder::TrailingUnicodeEncoder;
use crate::encoder::trailing_whitespace_encoder::TrailingWhitespaceEncoder;
use crate::encoder::line_extend_encoder::line_extend_step;
use crate::encoder::random_whitespace_encoder::random_whitespace_step;
use crate::encoder::trailing_unicode_encoder::{trailing_unicode_step, FULL_UNICODE_CHARACTER_SET};
use crate::encoder::{
    line_res, one_bit_line_step, EncoderResult, EncodingError, EncodingErrorKind, LineEncoder,
};

pub mod eluv_encoder;
pub mod extended_line_encoder;

verus! {

/// One of the line encoders.
pub enum AnyLineEncoder {
    RandomWhitespace(RandomWhitespaceEncoder),
    LineExtend(LineExtendEncoder),
    TrailingWhitespace(TrailingWhitespaceEncoder),
    TrailingUnicode(TrailingUnicodeEncoder),
}

impl AnyLineEncoder {
    /// Which line encoder is held: 0 Random Whitespace, 1 Line Extension, 2 Trailing
    /// Whitespace, 3 Trailing Unicode.
    pub open spec fn kind(&self) -> nat {
        match self {
            AnyLineEncoder::RandomWhitespace(_) => 0,
            AnyLineEncoder::LineExtend(_) => 1,
            AnyLineEncoder::TrailingWhitespace(_) => 2,
            AnyLineEncoder::TrailingUnicode(_) => 3,
        }
    }

    /// The cover words the encoder still has for extending lines (none but for Line
    /// Extension).
    pub open spec fn extra_words(&self) -> Seq<Seq<char>> {
        match self {
            AnyLineEncoder::LineExtend(e) => e.words_left(),
            _ => seq![],
        }
    }

    /// Hides the next bits of `data` in `line` with the encoder held.
    pub fn encode(&mut self, data: &mut BitIterator, line: &mut String) -> (res: Result<EncoderResult, EncodingError>)
        ensures
            final(data).source() == old(data).source(),
            any_line_step(
                *old(self),
                *final(self),
                old(line)@,
                old(data).remaining(),
                final(line)@,
                final(data).remaining(),
                line_res(res),
            ),
    {
        match self {
            AnyLineEncoder::RandomWhitespace(e) => e.encode(data, line),
            AnyLineEncoder::LineExtend(e) => e.encode(data, line),
            AnyLineEncoder::TrailingWhitespace(e) => e.encode(data, line),
            AnyLineEncoder::TrailingUnicode(e) => e.encode(data, line),
        }
    }
}

/// One step of the line encoder `e`, which becomes `e2`: the line and bits before and
/// after, and the result.
pub open spec fn any_line_step(
    e: AnyLineEncoder,
    e2: AnyLineEncoder,
    line: Seq<char>,
    bits: Seq<u8>,
    new_line: Seq<char>,
    new_bits: Seq<u8>,
    res: Result<EncoderResult, EncodingErrorKind>,
) -> bool {
    &&& e2.kind() == e.kind()
    &&& match e {
        AnyLineEncoder::RandomWhitespace(_) => if line.len() > 0 {
            random_whitespace_step(line, bits, new_line, new_bits, res)
        } else {
            one_bit_line_step(line, bits, line, new_line, new_bits, res)
        },
        AnyLineEncoder::LineExtend(_) => line_extend_step(
            line,
            e.extra_words(),
            bits,
            new_line,
            e2.extra_words(),
            new_bits,
            res,
        ),
        AnyLineEncoder::TrailingWhitespace(_) => one_bit_line_step(
            line,
            bits,
            line.push(' '),
            new_line,
            new_bits,
            res,
        ),
        AnyLineEncoder::TrailingUnicode(_) => res == Ok::<EncoderResult, EncodingErrorKind>(
            EncoderResult::Success,
        ) && trailing_unicode_step(FULL_UNICODE_CHARACTER_SET@, 5, line, bits, new_line, new_bits),
    }
}

/// Applying the encoders `es[..n]` in turn, each succeeding, leads from `line` and
/// `bits` to `l` and `b`, and leaves the encoders `es2[..n]`.
pub open spec fn chain_ok(
    es: Seq<AnyLineEncoder>,
    es2: Seq<AnyLineEncoder>,
    n: int,
    line: Seq<char>,
    bits: Seq<u8>,
    l: Seq<char>,
    b: Seq<u8>,
) -> bool
    decreases n,
{
    if n <= 0 {
        l == line && b == bits
    } else {
        exists|ml: Seq<char>, mb: Seq<u8>|
            chain_ok(es, es2, n - 1, line, bits, ml, mb) && #[trigger] any_line_step(
                es[n - 1],
                es2[n - 1],
                ml,
                mb,
                l,
                b,
                Ok::<EncoderResult, EncodingErrorKind>(EncoderResult::Success),
            )
    }
}

/// The encoders `es[..i]` succeeded, then encoder `i` stopped with `res` (no data left,
/// or an error), leaving the encoders after it as they were.
pub open spec fn chain_stopped(
    es: Seq<AnyLineEncoder>,
    es2: Seq<AnyLineEncoder>,
    line: Seq<char>,
    bits: Seq<u8>,
    l: Seq<char>,
    b: Seq<u8>,
    res: Result<EncoderResult, EncodingErrorKind>,
) -> bool {
    &&& res != Ok::<EncoderResult, EncodingErrorKind>(EncoderResult::Success)
    &&& exists|i: int, ml: Seq<char>, mb: Seq<u8>|
        0 <= i < es.len() && #[trigger] chain_ok(es, es2, i, line, bits, ml, mb) && any_line_step(
            es[i],
            es2[i],
            ml,
            mb,
            l,
            b,
            res,
        ) && (forall|j: int| i < j < es.len() ==> es2[j] == es[j])
}

/// What applying the encoders `es` in turn to a line does: all succeed, or one stops the
/// others after it.
pub open spec fn complex_outcome(
    es: Seq<AnyLineEncoder>,
    es2: Seq<AnyLineEncoder>,
    line: Seq<char>,
    bits: Seq<u8>,
    l: Seq<char>,
    b: Seq<u8>,
    res: Result<EncoderResult, EncodingErrorKind>,
) -> bool {
    &&& es2.len() == es.len()
    &&& (res == Ok::<EncoderResult, EncodingErrorKind>(EncoderResult::Success) && chain_ok(
        es,
        es2,
        es.len() as int,
        line,
        bits,
        l,
        b,
    ) || chain_stopped(es, es2, line, bits, l, b, res))
}

/// A chain of encoders depends only on the encoders it went through.
pub proof fn lemma_chain_ok_frame(
    es: Seq<AnyLineEncoder>,
    es2: Seq<AnyLineEncoder>,
    es3: Seq<AnyLineEncoder>,
    n: int,
    line: Seq<char>,
    bits: Seq<u8>,
    l: Seq<char>,
    b: Seq<u8>,
)
    requires
        forall|j: int| 0 <= j < n ==> es2[j] == es3[j],
        chain_ok(es, es2, n, line, bits, l, b),
    ensures
        chain_ok(es, es3, n, line, bits, l, b),
    decreases n,
{
    if n > 0 {
        let (ml, mb) = choose|ml: Seq<char>, mb: Seq<u8>|
            chain_ok(es, es2, n - 1, line, bits, ml, mb) && #[trigger] any_line_step(
                es[n - 1],
                es2[n - 1],
                ml,
                mb,
                l,
                b,
                Ok::<EncoderResult, EncodingErrorKind>(EncoderResult::Success),
            );
        lemma_chain_ok_frame(es, es2, es3, n - 1, line, bits, ml, mb);
        assert(es2[n - 1] == es3[n - 1]);
    }
}

/// One more encoder that succeeds extends a chain.
pub proof fn lemma_chain_ok_step(
    es: Seq<AnyLineEncoder>,
    es2: Seq<AnyLineEncoder>,
    n: int,
    line: Seq<char>,
    bits: Seq<u8>,
    ml: Seq<char>,
    mb: Seq<u8>,
    l: Seq<char>,
    b: Seq<u8>,
)
    requires
        0 <= n,
        chain_ok(es, es2, n, line, bits, ml, mb),
        any_line_step(es[n], es2[n], ml, mb, l, b, Ok::<EncoderResult, EncodingErrorKind>(EncoderResult::Success)),
    ensures
        chain_ok(es, es2, n + 1, line, bits, l, b),
{
    let m = n + 1;
    assert(m - 1 == n);
    assert(chain_ok(es, es2, m - 1, line, bits, ml, mb));
}

/// Applies its encoders to a line in turn, until one has no data left.
pub struct ComplexEncoder {
    encoders: Vec<AnyLineEncoder>,
}

impl ComplexEncoder {
    /// The number of encoders.
    pub closed spec fn count(&self) -> nat {
        self.encoders@.len()
    }

    /// The encoders, in order.
    pub closed spec fn encoders_of(&self) -> Seq<AnyLineEncoder> {
        self.encoders@
    }

    pub fn new(encoders: Vec<AnyLineEncoder>) -> (res: Self)
        ensures
            res.count() == encoders@.len(),
            res.encoders_of() == encoders@,
    {
        ComplexEncoder { encoders }
    }
}

impl LineEncoder for ComplexEncoder {
    /// Applies the encoders in turn; stops with `NoDataLeft` after the first that has no
    /// data left, and with the first error.
    fn encode(&mut self, data: &mut BitIterator, line: &mut String) -> (res: Result<EncoderResult, EncodingError>)
        ensures
            final(data).source() == old(data).source(),
            final(self).count() == old(self).count(),
            complex_outcome(
                old(self).encoders_of(),
                final(self).encoders_of(),
                old(line)@,
                old(data).remaining(),
                final(line)@,
                final(data).remaining(),
                line_res(res),
            ),
    {
        let ghost eo = self.encoders@;
        let ghost l0 = line@;
        let ghost b0 = data.remaining();
        let mut encoders: Vec<AnyLineEncoder> = Vec::new();
        std::mem::swap(&mut encoders, &mut self.encoders);
        let mut i: usize = 0;
        let mut result: Result<EncoderResult, EncodingError> = Ok(EncoderResult::Success);
        let mut stopped = false;
        while i < encoders.len() && !stopped
            invariant
                i <= encoders.len(),
                encoders@.len() == eo.len(),
                eo == old(self).encoders@,
                l0 == old(line)@,
                b0 == old(data).remaining(),
                data.source() == old(data).source(),
                !stopped ==> result == Ok::<EncoderResult, EncodingError>(EncoderResult::Success)
                    && chain_ok(eo, encoders@, i as int, l0, b0, line@, data.remaining())
                    && (forall|j: int| i <= j < eo.len() ==> encoders@[j] == eo[j]),
                stopped ==> chain_stopped(eo, encoders@, l0, b0, line@, data.remaining(), line_res(result)),
            decreases encoders.len() - i,
        {
            let ghost before = encoders@;
            let ghost ml = line@;
            let ghost mb = data.remaining();
            let mut encoder = encoders.remove(i);
            assert(encoder == eo[i as int]);
            let r = encoder.encode(data, line);
            encoders.insert(i, encoder);
            assert(encoders@ =~= before.update(i as int, encoder));
            proof {
                lemma_chain_ok_frame(eo, before, encoders@, i as int, l0, b0, ml, mb);
            }
            match r {
                Ok(EncoderResult::Success) => {
                    proof {
                        lemma_chain_ok_step(eo, encoders@, i as int, l0, b0, ml, mb, line@, data.remaining());
                    }
                },
                _ => {
                    result = r;
                    stopped = true;
                    assert(chain_ok(eo, encoders@, i as int, l0, b0, ml, mb));
                    assert(forall|j: int| i < j < eo.len() ==> encoders@[j] == eo[j]);
                },
            }
            i += 1;
        }
        std::mem::swap(&mut encoders, &mut self.encoders);
        result
    }
}

} // verus!
