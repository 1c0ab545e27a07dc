//! Complex methods: sequences of simple methods applied one after another to every line.
use vstd::prelude::*;

use crate::binary::{
    bit_values, bits_of_bytes, bytes_of_bits, is_bit_seq, u32_bits, Bit, BitIterator, BitVec,
};
use crate::chars::{push_char, push_str};
use crate::cli::progress::{steps, ProgressStatus};
use crate::context::{
    fit_count, lemma_line_outcome_count, line_outcome, Context, ContextError, PivotByLineContext, PivotByRawLineContext,
};
use crate::decoder::Decoder;
use crate::encoder::{
    context_kind, enc_state, result_kind, Capacity, EncState, Encoder, EncoderResult, ErrorKind,
    MethodError,
};
use crate::method::line_extend::{le_decoded, le_step, LineExtendMethod};
use crate::method::Method;
use crate::method::random_whitespace::{rw_decoded, rw_step, RandomWhitespaceMethod};
use crate::method::trailing_unicode::{
    lemma_charset_shape, tu_decoded, tu_rate, tu_step, TrailingUnicodeMethod,
};
use crate::method::trailing_whitespace::{tw_decoded, tw_step, TrailingWhitespaceMethod};
use crate::ptero_text::extended_line_method::character_sets::{CharacterSetType, GetCharacterSet};

pub mod eluv;
pub mod roundtrip;
pub mod extended_line;

verus! {

/// A simple method used as a part of a complex method.
#[derive(Debug, Clone, Copy, PartialEq, Eq, Structural)]
pub enum Submethod {
    RandomWhitespace,
    LineExtend,
    TrailingWhitespace,
    TrailingUnicode(CharacterSetType),
}

/// One encoding step of a simple method.
pub open spec fn sub_step(
    m: Submethod,
    before: EncState,
    after: EncState,
    res: Result<EncoderResult, ErrorKind>,
) -> bool {
    match m {
        Submethod::RandomWhitespace => rw_step(before, after, res),
        Submethod::LineExtend => le_step(before, after, res),
        Submethod::TrailingWhitespace => tw_step(before, after, res),
        Submethod::TrailingUnicode(cs) => tu_step(cs.charset(), before, after, res),
    }
}

/// The bits a simple method reads from `line` under `pivot`.
pub open spec fn sub_decoded(m: Submethod, pivot: int, line: Seq<char>) -> Seq<u8> {
    match m {
        Submethod::RandomWhitespace => seq![rw_decoded(line)],
        Submethod::LineExtend => seq![le_decoded(line, pivot)],
        Submethod::TrailingWhitespace => seq![tw_decoded(line)],
        Submethod::TrailingUnicode(cs) => tu_decoded(cs.charset(), line),
    }
}

/// Bits per line of a simple method.
pub open spec fn sub_rate(m: Submethod) -> nat {
    match m {
        Submethod::TrailingUnicode(cs) => tu_rate(cs.charset().len()),
        _ => 1,
    }
}

/// Bits per line of a sequence of simple methods.
pub open spec fn total_rate(ms: Seq<Submethod>) -> nat
    decreases ms.len(),
{
    if ms.len() == 0 {
        0
    } else {
        total_rate(ms.drop_last()) + sub_rate(ms.last())
    }
}

/// Applying the methods `ms[i..]` in order: each step on the state left by the previous
/// one, stopping after the first step that does not succeed.
pub open spec fn chain_from(
    ms: Seq<Submethod>,
    i: int,
    before: EncState,
    after: EncState,
    res: Result<EncoderResult, ErrorKind>,
) -> bool
    decreases ms.len() - i,
{
    if i < 0 || i >= ms.len() {
        after == before && res == Ok::<EncoderResult, ErrorKind>(EncoderResult::Success)
    } else {
        exists|mid: EncState, r: Result<EncoderResult, ErrorKind>|
            #[trigger] sub_step(ms[i], before, mid, r) && if r == Ok::<EncoderResult, ErrorKind>(
                EncoderResult::Success,
            ) {
                chain_from(ms, i + 1, mid, after, res)
            } else {
                after == mid && res == r
            }
    }
}

/// `prefix` put before a successful output.
pub open spec fn prepend(prefix: Seq<char>, out: Result<Seq<char>, ErrorKind>) -> Result<
    Seq<char>,
    ErrorKind,
> {
    match out {
        Ok(s) => Ok(prefix + s),
        Err(e) => Err(e),
    }
}

/// The lines built from the words `ws` under `pivot`, each followed by a line feed,
/// until no further line can be built.
pub open spec fn rest_lines(ws: Seq<Seq<char>>, pivot: int) -> Seq<char>
    decreases ws.len(),
{
    match line_outcome(ws, pivot) {
        Ok(line) => if 0 < fit_count(ws, pivot) <= ws.len() {
            line + seq!['\n'] + rest_lines(ws.skip(fit_count(ws, pivot)), pivot)
        } else {
            seq![]
        },
        Err(_) => seq![],
    }
}

/// What encoding the bits `bits` into the cover words `ws` with the methods `ms` may
/// produce: line by line, load a line and apply the methods; a line is written out
/// (with a line feed) once the methods are done with it; when no data is left, the
/// remaining words are written out as lines; errors stop the encoding.
pub open spec fn encode_rel(
    ms: Seq<Submethod>,
    pivot: int,
    ws: Seq<Seq<char>>,
    bits: Seq<u8>,
    out: Result<Seq<char>, ErrorKind>,
) -> bool
    decreases ws.len(),
{
    match line_outcome(ws, pivot) {
        Err(k) => out == Err::<Seq<char>, ErrorKind>(context_kind(k)),
        Ok(line) => {
            let loaded = EncState {
                current: Some(line),
                words: ws.skip(fit_count(ws, pivot)),
                bits,
            };
            exists|after: EncState, r: Result<EncoderResult, ErrorKind>|
                #[trigger] chain_from(ms, 0, loaded, after, r) && match r {
                    Err(e) => out == Err::<Seq<char>, ErrorKind>(e),
                    Ok(EncoderResult::NoDataLeft) => after.current is Some && out == Ok::<
                        Seq<char>,
                        ErrorKind,
                    >(after.current->0 + seq!['\n'] + rest_lines(after.words, pivot)),
                    Ok(EncoderResult::Success) => after.current is Some && after.words.len()
                        < ws.len() && exists|o: Result<Seq<char>, ErrorKind>|
                        encode_rel(ms, pivot, after.words, after.bits, o) && out == #[trigger] prepend(
                            after.current->0 + seq!['\n'],
                            o,
                        ),
                }
        },
    }
}

/// The bits the methods `ms` read from `line`, in order.
pub open spec fn decode_line(ms: Seq<Submethod>, pivot: int, line: Seq<char>) -> Seq<u8>
    decreases ms.len(),
{
    if ms.len() == 0 {
        seq![]
    } else {
        decode_line(ms.drop_last(), pivot, line) + sub_decoded(ms.last(), pivot, line)
    }
}

/// The bits the methods `ms` read from `lines`, line after line.
pub open spec fn decode_lines(ms: Seq<Submethod>, pivot: int, lines: Seq<Seq<char>>) -> Seq<u8>
    decreases lines.len(),
{
    if lines.len() == 0 {
        seq![]
    } else {
        decode_lines(ms, pivot, lines.drop_last()) + decode_line(ms, pivot, lines.last())
    }
}

/// `bits` followed by zero bits up to a multiple of 8.
pub open spec fn padded(bits: Seq<u8>) -> Seq<u8> {
    bits + Seq::new(((8 - bits.len() % 8) % 8) as nat, |i: int| 0u8)
}

/// What the simple method does on the state, and what it keeps.
proof fn lemma_sub_step_frame(
    m: Submethod,
    before: EncState,
    after: EncState,
    res: Result<EncoderResult, ErrorKind>,
)
    requires
        sub_step(m, before, after, res),
        before.current is Some,
    ensures
        after.words.len() <= before.words.len(),
        res is Ok ==> after.current is Some,
        res == Ok::<EncoderResult, ErrorKind>(EncoderResult::NoDataLeft) ==> after.bits.len() == 0,
{
}

/// What the step reports of an encoding say: `k` lines were hidden, in full or, for the
/// last one, in part, when `n` bits were hidden at `rate` bits per line; so `k` is `n`
/// divided by `rate`, rounded down or up.
pub open spec fn lines_reported(k: nat, n: nat, rate: nat) -> bool {
    &&& n < (k + 1) * rate
    &&& (k == 0 || n > (k - 1) * rate)
}

/// The bits per line of the methods `ms[i..]`.
pub open spec fn rate_from(ms: Seq<Submethod>, i: int) -> nat
    decreases ms.len() - i,
{
    if i < 0 || i >= ms.len() {
        0
    } else {
        sub_rate(ms[i]) + rate_from(ms, i + 1)
    }
}

/// Whether every method of `ms[i..]` is Trailing Unicode.
pub open spec fn all_trailing_unicode(ms: Seq<Submethod>, i: int) -> bool {
    forall|j: int| i <= j < ms.len() ==> #[trigger] ms[j] is TrailingUnicode
}

/// The bits per line of `ms[..k]` and of `ms[k..]` make up the bits per line of `ms`.
pub proof fn lemma_rate_from_total(ms: Seq<Submethod>, k: int)
    requires
        0 <= k <= ms.len(),
    ensures
        total_rate(ms.take(k)) + rate_from(ms, k) == total_rate(ms),
    decreases ms.len() - k,
{
    if k < ms.len() {
        lemma_rate_from_total(ms, k + 1);
        assert(ms.take(k + 1).drop_last() =~= ms.take(k));
        assert(ms.take(k + 1).last() == ms[k]);
    } else {
        assert(ms.take(k) =~= ms);
    }
}

/// The bits a simple method takes on a loaded line: a whole line's worth when some
/// are left after it, at least one when there were some, none when it runs out of
/// data; only Trailing Unicode succeeds without data.
pub proof fn lemma_sub_consumed(
    m: Submethod,
    before: EncState,
    after: EncState,
    res: Result<EncoderResult, ErrorKind>,
)
    requires
        sub_step(m, before, after, res),
        before.current is Some,
    ensures
        sub_rate(m) >= 1,
        after.bits.len() <= before.bits.len(),
        res == Ok::<EncoderResult, ErrorKind>(EncoderResult::Success) ==> ({
            let c = before.bits.len() - after.bits.len();
            &&& c <= sub_rate(m)
            &&& (after.bits.len() > 0 ==> c == sub_rate(m))
            &&& (before.bits.len() > 0 ==> c >= 1)
            &&& (before.bits.len() == 0 ==> m is TrailingUnicode)
        }),
        res == Ok::<EncoderResult, ErrorKind>(EncoderResult::NoDataLeft) ==> before.bits.len() == 0
            && after.bits.len() == 0 && !(m is TrailingUnicode),
{
    if let Submethod::TrailingUnicode(cs) = m {
        lemma_charset_shape(cs);
    }
}

/// The bits a chain of simple methods takes on a loaded line.
pub proof fn lemma_chain_consumed(
    ms: Seq<Submethod>,
    i: int,
    before: EncState,
    after: EncState,
    res: Result<EncoderResult, ErrorKind>,
)
    requires
        chain_from(ms, i, before, after, res),
        before.current is Some,
        0 <= i,
    ensures
        after.bits.len() <= before.bits.len(),
        res == Ok::<EncoderResult, ErrorKind>(EncoderResult::Success) ==> ({
            let c = before.bits.len() - after.bits.len();
            &&& c <= rate_from(ms, i)
            &&& (after.bits.len() > 0 ==> c == rate_from(ms, i))
            &&& (before.bits.len() > 0 && i < ms.len() ==> c >= 1)
            &&& (before.bits.len() == 0 ==> all_trailing_unicode(ms, i))
        }),
        res == Ok::<EncoderResult, ErrorKind>(EncoderResult::NoDataLeft) ==> after.bits.len() == 0
            && before.bits.len() - after.bits.len() < rate_from(ms, i) && !all_trailing_unicode(ms, i),
    decreases ms.len() - i,
{
    if i < ms.len() {
        let (mid, r) = choose|mid: EncState, r: Result<EncoderResult, ErrorKind>|
            #[trigger] sub_step(ms[i], before, mid, r) && if r == Ok::<EncoderResult, ErrorKind>(
                EncoderResult::Success,
            ) {
                chain_from(ms, i + 1, mid, after, res)
            } else {
                after == mid && res == r
            };
        lemma_sub_consumed(ms[i], before, mid, r);
        lemma_sub_step_frame(ms[i], before, mid, r);
        if r == Ok::<EncoderResult, ErrorKind>(EncoderResult::Success) {
            lemma_chain_consumed(ms, i + 1, mid, after, res);
            if before.bits.len() == 0 {
                assert(mid.bits.len() == 0);
                if res == Ok::<EncoderResult, ErrorKind>(EncoderResult::Success) {
                    assert forall|j: int| i <= j < ms.len() implies #[trigger] ms[j] is TrailingUnicode by {
                        if j > i {
                            assert(all_trailing_unicode(ms, i + 1));
                        }
                    }
                }
            }
            if res == Ok::<EncoderResult, ErrorKind>(EncoderResult::NoDataLeft) {
                if all_trailing_unicode(ms, i) {
                    assert forall|j: int| i + 1 <= j < ms.len() implies #[trigger] ms[j] is TrailingUnicode by {
                        assert(ms[j] is TrailingUnicode);
                    }
                }
            }
        } else if res == Ok::<EncoderResult, ErrorKind>(EncoderResult::NoDataLeft) {
            assert(!(ms[i] is TrailingUnicode));
            if rate_from(ms, i + 1) == 0 {
            }
        }
    }
}

/// A chain keeps the line loaded when it ends without error and never adds words.
proof fn lemma_chain_frame(
    ms: Seq<Submethod>,
    i: int,
    before: EncState,
    after: EncState,
    res: Result<EncoderResult, ErrorKind>,
)
    requires
        chain_from(ms, i, before, after, res),
        before.current is Some,
    ensures
        after.words.len() <= before.words.len(),
        res is Ok ==> after.current is Some,
        res == Ok::<EncoderResult, ErrorKind>(EncoderResult::NoDataLeft) ==> after.bits.len() == 0,
    decreases ms.len() - i,
{
    if 0 <= i < ms.len() {
        let (mid, r) = choose|mid: EncState, r: Result<EncoderResult, ErrorKind>|
            #[trigger] sub_step(ms[i], before, mid, r) && if r == Ok::<EncoderResult, ErrorKind>(
                EncoderResult::Success,
            ) {
                chain_from(ms, i + 1, mid, after, res)
            } else {
                after == mid && res == r
            };
        lemma_sub_step_frame(ms[i], before, mid, r);
        if r == Ok::<EncoderResult, ErrorKind>(EncoderResult::Success) {
            lemma_chain_frame(ms, i + 1, mid, after, res);
        }
    }
}

/// One encoding step of a simple method.
pub fn sub_partial_encode(m: Submethod, context: &mut PivotByLineContext, data: &mut BitIterator) -> (res:
    Result<EncoderResult, MethodError>)
    ensures
        final(data).source() == old(data).source(),
        final(context).pivot_of() == old(context).pivot_of(),
        sub_step(
            m,
            enc_state(*old(context), old(data).remaining()),
            enc_state(*final(context), final(data).remaining()),
            result_kind(res),
        ),
{
    match m {
        Submethod::RandomWhitespace => RandomWhitespaceMethod::new().partial_encode(context, data),
        Submethod::LineExtend => LineExtendMethod::new().partial_encode(context, data),
        Submethod::TrailingWhitespace => TrailingWhitespaceMethod::new().partial_encode(
            context,
            data,
        ),
        Submethod::TrailingUnicode(cs) => TrailingUnicodeMethod::new(cs).partial_encode(
            context,
            data,
        ),
    }
}

/// Applies the methods `ms[i..]` in order, stopping after the first that does not succeed.
pub fn chain_encode(
    ms: &Vec<Submethod>,
    i: usize,
    context: &mut PivotByLineContext,
    data: &mut BitIterator,
) -> (res: Result<EncoderResult, MethodError>)
    ensures
        final(data).source() == old(data).source(),
        final(context).pivot_of() == old(context).pivot_of(),
        chain_from(
            ms@,
            i as int,
            enc_state(*old(context), old(data).remaining()),
            enc_state(*final(context), final(data).remaining()),
            result_kind(res),
        ),
    decreases ms.len() - i,
{
    if i >= ms.len() {
        return Ok(EncoderResult::Success);
    }
    let ghost before = enc_state(*context, data.remaining());
    let r = sub_partial_encode(ms[i], context, data);
    let ghost mid = enc_state(*context, data.remaining());
    match r {
        Ok(EncoderResult::Success) => {
            let res = chain_encode(ms, i + 1, context, data);
            proof {
                let after = enc_state(*context, data.remaining());
                assert(sub_step(ms@[i as int], before, mid, result_kind(r)));
                assert(chain_from(ms@, i + 1, mid, after, result_kind(res)));
            }
            res
        },
        _ => {
            proof {
                assert(sub_step(ms@[i as int], before, mid, result_kind(r)));
            }
            r
        },
    }
}

/// The bits one simple method reads from the current line.
pub fn sub_partial_decode(m: Submethod, context: &PivotByRawLineContext) -> (res: Result<
    Vec<Bit>,
    ContextError,
>)
    ensures
        context.current() is None ==> res is Err && res->Err_0.kind_of()
            == crate::context::ContextErrorKind::NoTextLeft,
        context.current() is Some ==> res is Ok && bit_values(res->Ok_0@) == sub_decoded(
            m,
            context.pivot_of() as int,
            context.current()->0,
        ),
{
    match m {
        Submethod::RandomWhitespace => RandomWhitespaceMethod::new().partial_decode(context),
        Submethod::LineExtend => LineExtendMethod::new().partial_decode(context),
        Submethod::TrailingWhitespace => TrailingWhitespaceMethod::new().partial_decode(context),
        Submethod::TrailingUnicode(cs) => TrailingUnicodeMethod::new(cs).partial_decode(context),
    }
}

/// The bits all the methods read from the current line, in order.
pub fn chain_decode(ms: &Vec<Submethod>, context: &PivotByRawLineContext) -> (res: Result<
    Vec<Bit>,
    ContextError,
>)
    ensures
        context.current() is None ==> res is Err && res->Err_0.kind_of()
            == crate::context::ContextErrorKind::NoTextLeft,
        context.current() is Some ==> res is Ok && bit_values(res->Ok_0@) == decode_line(
            ms@,
            context.pivot_of() as int,
            context.current()->0,
        ),
{
    let mut secret_data: Vec<Bit> = Vec::new();
    let mut i: usize = 0;
    if context.get_current_text().is_err() {
        return Err(ContextError::new(crate::context::ContextErrorKind::NoTextLeft));
    }
    while i < ms.len()
        invariant
            i <= ms.len(),
            context.current() is Some,
            bit_values(secret_data@) == decode_line(
                ms@.take(i as int),
                context.pivot_of() as int,
                context.current()->0,
            ),
        decreases ms.len() - i,
    {
        let result = sub_partial_decode(ms[i], context);
        match result {
            Ok(bits) => {
                let ghost before = secret_data@;
                let ghost appended = bits@;
                let mut bits = bits;
                secret_data.append(&mut bits);
                assert(ms@.take(i as int + 1).drop_last() == ms@.take(i as int));
                assert(bit_values(secret_data@) =~= bit_values(before) + bit_values(appended));
            },
            Err(e) => {
                return Err(e);
            },
        }
        i += 1;
    }
    assert(ms@.take(ms.len() as int) == ms@);
    Ok(secret_data)
}

/// A text result with its error reduced to the error kind.
pub open spec fn out_kind(res: Result<String, MethodError>) -> Result<Seq<char>, ErrorKind> {
    match res {
        Ok(s) => Ok(s@),
        Err(e) => Err(e.kind_of()),
    }
}

/// Unfolds one successful line of `encode_rel`.
proof fn lemma_encode_rel_success(
    ms: Seq<Submethod>,
    p: int,
    ws: Seq<Seq<char>>,
    bits: Seq<u8>,
    line: Seq<char>,
    after: EncState,
    o: Result<Seq<char>, ErrorKind>,
)
    requires
        line_outcome(ws, p) == Ok::<Seq<char>, crate::context::ContextErrorKind>(line),
        chain_from(
            ms,
            0,
            EncState { current: Some(line), words: ws.skip(fit_count(ws, p)), bits },
            after,
            Ok::<EncoderResult, ErrorKind>(EncoderResult::Success),
        ),
        after.current is Some,
        after.words.len() < ws.len(),
        encode_rel(ms, p, after.words, after.bits, o),
    ensures
        encode_rel(ms, p, ws, bits, prepend(after.current->0 + seq!['\n'], o)),
{
    let loaded = EncState { current: Some(line), words: ws.skip(fit_count(ws, p)), bits };
    let r = Ok::<EncoderResult, ErrorKind>(EncoderResult::Success);
    assert(chain_from(ms, 0, loaded, after, r));
}

/// Appends the current line of `context` and a line feed to `stego`.
fn append_current_line(stego: &mut String, context: &PivotByLineContext)
    requires
        context.current() is Some,
    ensures
        final(stego)@ == old(stego)@ + context.current()->0 + seq!['\n'],
{
    match context.get_current_text() {
        Ok(line) => {
            push_str(stego, line.as_str());
        },
        Err(_) => {},
    }
    push_char(stego, '\n');
}

/// Encodes the bits of `data` into the cover words of `context` with the methods `ms`,
/// line by line, and returns the resulting text; on success every bit of `data` was
/// taken.
pub fn complex_encode(
    ms: &Vec<Submethod>,
    context: &mut PivotByLineContext,
    data: &mut BitIterator,
    progress: &mut Vec<ProgressStatus>,
) -> (res: Result<String, MethodError>)
    requires
        ms@.len() <= 3,
    ensures
        encode_rel(
            ms@,
            old(context).pivot_of() as int,
            old(context).words_left(),
            old(data).remaining(),
            out_kind(res),
        ),
        res is Ok ==> final(data).remaining().len() == 0,
        exists|k: nat|
            final(progress)@ == old(progress)@ + #[trigger] steps(k, total_rate(ms@) as u64) && (res is Ok
                ==> lines_reported(k, old(data).remaining().len(), total_rate(ms@))),
{
    let rate = methods_bitrate(ms) as u64;
    let ghost r = total_rate(ms@);
    proof {
        lemma_rate_from_total(ms@, 0);
        assert(ms@.take(0) =~= Seq::<Submethod>::empty());
    }
    let ghost mut k: nat = 0;
    let ghost mut kr: int = 0;
    assert(old(progress)@ + steps(0, rate) =~= old(progress)@);
    let ghost p = context.pivot_of() as int;
    let ghost ws0 = context.words_left();
    let ghost bits0 = data.remaining();
    let mut stego = String::new();
    assert(forall|o: Result<Seq<char>, ErrorKind>| prepend(Seq::<char>::empty(), o) == o) by {
        assert forall|o: Result<Seq<char>, ErrorKind>| prepend(Seq::<char>::empty(), o) == o by {
            if let Ok(s) = o {
                assert(Seq::<char>::empty() + s =~= s);
            }
        }
    }
    loop
        invariant
            context.pivot_of() as int == p,
            p == old(context).pivot_of() as int,
            ws0 == old(context).words_left(),
            bits0 == old(data).remaining(),
            data.source() == old(data).source(),
            forall|o: Result<Seq<char>, ErrorKind>|
                #[trigger] encode_rel(ms@, p, context.words_left(), data.remaining(), o)
                    ==> encode_rel(ms@, p, ws0, bits0, prepend(stego@, o)),
            r == total_rate(ms@),
            r == rate_from(ms@, 0),
            rate == r,
            kr == k * r,
            progress@ == old(progress)@ + steps(k, rate),
            data.remaining().len() <= bits0.len(),
            bits0.len() - data.remaining().len() <= kr,
            data.remaining().len() > 0 ==> bits0.len() - data.remaining().len() == kr,
            data.remaining().len() == 0 && k > 0 ==> (bits0.len() > kr - r || all_trailing_unicode(
                ms@,
                0,
            )),
        decreases context.words_left().len(),
    {
        let ghost ws_i = context.words_left();
        let ghost bits_i = data.remaining();
        let ghost stego_i = stego@;
        assert(forall|o: Result<Seq<char>, ErrorKind>|
            #[trigger] encode_rel(ms@, p, ws_i, bits_i, o) ==> encode_rel(
                ms@,
                p,
                ws0,
                bits0,
                prepend(stego_i, o),
            ));
        match context.load_text() {
            Err(e) => {
                proof {
                    let o = out_kind(Err(MethodError::Context(e)));
                    assert(encode_rel(ms@, p, ws_i, bits_i, o));
                    assert(prepend(stego_i, o) == o);
                }
                assert(progress@ == old(progress)@ + steps(k, total_rate(ms@) as u64));
                return Err(MethodError::Context(e));
            },
            Ok(_) => {},
        }
        let ghost line = context.current()->0;
        let ghost loaded = enc_state(*context, bits_i);
        proof {
            lemma_line_outcome_count(ws_i, p);
            assert(loaded == EncState {
                current: Some(line),
                words: ws_i.skip(fit_count(ws_i, p)),
                bits: bits_i,
            });
        }
        let res_line = chain_encode(ms, 0, context, data);
        let ghost after = enc_state(*context, data.remaining());
        proof {
            lemma_chain_frame(ms@, 0, loaded, after, result_kind(res_line));
            lemma_chain_consumed(ms@, 0, loaded, after, result_kind(res_line));
        }
        match res_line {
            Err(e) => {
                proof {
                    assert(chain_from(ms@, 0, loaded, after, result_kind(res_line)));
                    let o = Err::<Seq<char>, ErrorKind>(e.kind_of());
                    assert(encode_rel(ms@, p, ws_i, bits_i, o));
                    assert(prepend(stego_i, o) == o);
                }
                assert(progress@ == old(progress)@ + steps(k, total_rate(ms@) as u64));
                return Err(e);
            },
            Ok(EncoderResult::NoDataLeft) => {
                append_current_line(&mut stego, context);
                let ghost first = stego@;
                let ghost tail = after.current->0 + seq!['\n'];
                assert(first == stego_i + tail);
                loop
                    invariant
                        context.pivot_of() as int == p,
                        progress@ == old(progress)@ + steps(k, rate),
                        stego@ + rest_lines(context.words_left(), p) == first + rest_lines(
                            after.words,
                            p,
                        ),
                    ensures
                        stego@ == first + rest_lines(after.words, p),
                    decreases context.words_left().len(),
                {
                    let ghost ws_j = context.words_left();
                    let ghost stego_j = stego@;
                    match context.load_text() {
                        Ok(l) => {
                            proof {
                                lemma_line_outcome_count(ws_j, p);
                            }
                            push_str(&mut stego, l.as_str());
                            push_char(&mut stego, '\n');
                            assert(stego@ + rest_lines(context.words_left(), p) =~= stego_j
                                + rest_lines(ws_j, p));
                        },
                        Err(_) => {
                            assert(rest_lines(ws_j, p) =~= Seq::<char>::empty());
                            assert(stego@ =~= stego@ + rest_lines(ws_j, p));
                            break ;
                        },
                    }
                }
                proof {
                    assert(lines_reported(k, bits0.len(), r)) by (nonlinear_arith)
                        requires
                            kr == k * r,
                            bits_i.len() <= bits0.len(),
                            bits0.len() - bits_i.len() <= kr,
                            bits_i.len() > 0 ==> bits0.len() - bits_i.len() == kr,
                            bits_i.len() == 0 && k > 0 ==> bits0.len() > kr - r,
                            bits_i.len() - after.bits.len() < r,
                            after.bits.len() == 0,
                            after.bits.len() <= bits_i.len(),
                    ;
                    let o = Ok::<Seq<char>, ErrorKind>(tail + rest_lines(after.words, p));
                    assert(chain_from(ms@, 0, loaded, after, result_kind(res_line)));
                    assert(encode_rel(ms@, p, ws_i, bits_i, o));
                    assert(stego@ =~= stego_i + (tail + rest_lines(after.words, p)));
                }
                assert(progress@ == old(progress)@ + steps(k, total_rate(ms@) as u64));
                return Ok(stego);
            },
            Ok(EncoderResult::Success) => {
                progress.push(ProgressStatus::Step(rate));
                proof {
                    assert(old(progress)@ + steps(k + 1, rate) =~= old(progress)@ + steps(k, rate) + seq![
                        ProgressStatus::Step(rate),
                    ]);
                    assert((k + 1) * r == k * r + r) by (nonlinear_arith);
                    k = k + 1;
                    kr = kr + r;
                }
                append_current_line(&mut stego, context);
                proof {
                    let tail = after.current->0 + seq!['\n'];
                    assert(stego@ == stego_i + tail);
                    assert forall|o: Result<Seq<char>, ErrorKind>|
                        #[trigger] encode_rel(ms@, p, context.words_left(), data.remaining(), o)
                            implies encode_rel(ms@, p, ws0, bits0, prepend(stego@, o)) by {
                        assert(chain_from(ms@, 0, loaded, after, result_kind(res_line)));
                        assert(after.words.len() < ws_i.len());
                        assert(after.current is Some);
                        assert(result_kind(res_line) == Ok::<EncoderResult, ErrorKind>(
                            EncoderResult::Success,
                        ));
                        assert(encode_rel(ms@, p, after.words, after.bits, o));
                        lemma_encode_rel_success(ms@, p, ws_i, bits_i, line, after, o);
                        if let Ok(s) = o {
                            assert(stego_i + (tail + s) =~= stego@ + s);
                        }
                    }
                }
            },
        }
    }
}

/// Every bit of a 32-bit number is 0 or 1.
pub proof fn lemma_u32_bits_are_bits(n: u32)
    ensures
        is_bit_seq(u32_bits(n)),
{
    assert forall|k: int| 0 <= k < u32_bits(n).len() implies #[trigger] u32_bits(n)[k] <= 1 by {
        let sh = (31 - k) as u32;
        assert(((n >> sh) & 1u32) <= 1) by (bit_vector);
    }
}

/// What the methods read from a line are bits.
pub proof fn lemma_decode_line_bits(ms: Seq<Submethod>, pivot: int, line: Seq<char>)
    ensures
        is_bit_seq(decode_line(ms, pivot, line)),
    decreases ms.len(),
{
    if ms.len() > 0 {
        lemma_decode_line_bits(ms.drop_last(), pivot, line);
        let d = sub_decoded(ms.last(), pivot, line);
        assert(is_bit_seq(d)) by {
            if let Submethod::TrailingUnicode(cs) = ms.last() {
                lemma_charset_shape(cs);
                if line.len() > 0 {
                    lemma_u32_bits_are_bits(
                        crate::ptero_text::extended_line_method::character_sets::char_number(
                            cs.charset(),
                            line.last(),
                        ) as u32,
                    );
                }
            }
        }
        let all = decode_line(ms, pivot, line);
        let pre = decode_line(ms.drop_last(), pivot, line);
        assert forall|i: int| 0 <= i < all.len() implies #[trigger] all[i] <= 1 by {
            if i < pre.len() {
                assert(all[i] == pre[i]);
            } else {
                assert(all[i] == d[i - pre.len()]);
            }
        }
    }
}

/// What the methods read from lines are bits.
pub proof fn lemma_decode_lines_bits(ms: Seq<Submethod>, pivot: int, lines: Seq<Seq<char>>)
    ensures
        is_bit_seq(decode_lines(ms, pivot, lines)),
    decreases lines.len(),
{
    if lines.len() > 0 {
        lemma_decode_lines_bits(ms, pivot, lines.drop_last());
        lemma_decode_line_bits(ms, pivot, lines.last());
        let all = decode_lines(ms, pivot, lines);
        let pre = decode_lines(ms, pivot, lines.drop_last());
        let d = decode_line(ms, pivot, lines.last());
        assert forall|i: int| 0 <= i < all.len() implies #[trigger] all[i] <= 1 by {
            if i < pre.len() {
                assert(all[i] == pre[i]);
            } else {
                assert(all[i] == d[i - pre.len()]);
            }
        }
    }
}

/// Decodes the data hidden in the lines of `context` with the methods `ms`: the bits of
/// every line, padded with zero bits to a whole number of bytes.
pub fn complex_decode(ms: &Vec<Submethod>, context: &mut PivotByRawLineContext) -> (res: Result<
    Vec<u8>,
    MethodError,
>)
    ensures
        res is Ok,
        res matches Ok(bytes) ==> bytes@ == bytes_of_bits(
            padded(decode_lines(ms@, old(context).pivot_of() as int, old(context).lines_left())),
        ),
{
    let ghost p = context.pivot_of() as int;
    let ghost all = context.lines_left();
    let mut secret: Vec<Bit> = Vec::new();
    let ghost mut j: int = 0;
    assert(all.take(0) =~= Seq::<Seq<char>>::empty());
    assert(all.skip(0) =~= all);
    loop
        invariant
            0 <= j <= all.len(),
            p == old(context).pivot_of() as int,
            all == old(context).lines_left(),
            context.pivot_of() as int == p,
            context.lines_left() == all.skip(j),
            bit_values(secret@) == decode_lines(ms@, p, all.take(j)),
        ensures
            bit_values(secret@) == decode_lines(ms@, p, all),
        decreases all.len() - j,
    {
        match context.load_text() {
            Ok(_) => {},
            Err(_) => {
                assert(all.take(j) =~= all);
                break ;
            },
        }
        let bits = match chain_decode(ms, context) {
            Ok(b) => b,
            Err(e) => {
                return Err(MethodError::Context(e));
            },
        };
        let ghost before = secret@;
        let ghost appended = bits@;
        let mut bits = bits;
        secret.append(&mut bits);
        proof {
            assert(all.take(j + 1).drop_last() =~= all.take(j));
            assert(all.take(j + 1).last() == all[j]);
            assert(all.skip(j)[0] == all[j]);
            assert(all.skip(j).drop_first() =~= all.skip(j + 1));
            assert(bit_values(secret@) =~= bit_values(before) + bit_values(appended));
            j = j + 1;
        }
    }
    let ghost unpadded = bit_values(secret@);
    let ghost pad_count: int = (8 - unpadded.len() % 8) % 8;
    assert(secret@.len() == unpadded.len());
    while secret.len() % 8 != 0
        invariant
            unpadded.len() <= secret@.len() <= unpadded.len() + pad_count,
            0 <= pad_count < 8,
            pad_count == (8 - unpadded.len() % 8) % 8,
            bit_values(secret@) == unpadded + Seq::new(
                (secret@.len() - unpadded.len()) as nat,
                |i: int| 0u8,
            ),
        decreases unpadded.len() + pad_count - secret@.len(),
    {
        let ghost before = secret@;
        assert(secret@.len() < unpadded.len() + pad_count);
        secret.push(Bit(0));
        assert(secret@ == before.push(Bit(0)));
        assert(bit_values(secret@) =~= bit_values(before).push(0u8));
        assert(bit_values(secret@) =~= unpadded + Seq::new(
            (secret@.len() - unpadded.len()) as nat,
            |i: int| 0u8,
        ));
    }
    assert(secret@.len() == unpadded.len() + pad_count);
    proof {
        assert(bit_values(secret@) =~= padded(unpadded));
        lemma_decode_lines_bits(ms@, p, all);
        let pad = padded(unpadded);
        assert forall|i: int| 0 <= i < pad.len() implies #[trigger] pad[i] <= 1 by {
            if i >= unpadded.len() {
                assert(pad[i] == 0);
            } else {
                assert(pad[i] == unpadded[i]);
            }
        }
    }
    let bit_vec = BitVec::new(secret);
    match bit_vec.try_into_bytes() {
        Ok(bytes) => Ok(bytes),
        Err(e) => Err(MethodError::Conversion(e)),
    }
}

/// Bits per line of a simple method.
pub fn sub_bitrate(m: Submethod) -> (res: usize)
    ensures
        res == sub_rate(m),
{
    match m {
        Submethod::TrailingUnicode(cs) => TrailingUnicodeMethod::new(cs).bitrate(),
        _ => 1,
    }
}

/// Bits per line of a sequence of simple methods.
pub fn methods_bitrate(ms: &Vec<Submethod>) -> (res: usize)
    requires
        ms.len() <= 3,
    ensures
        res == total_rate(ms@),
{
    let mut total: usize = 0;
    let mut i: usize = 0;
    while i < ms.len()
        invariant
            i <= ms.len() <= 3,
            total == total_rate(ms@.take(i as int)),
            total <= 5 * i,
        decreases ms.len() - i,
    {
        let r = sub_bitrate(ms[i]);
        proof {
            if let Submethod::TrailingUnicode(cs) = ms@[i as int] {
                lemma_charset_shape(cs);
            }
            assert(ms@.take(i as int + 1).drop_last() == ms@.take(i as int));
        }
        total = total + r;
        i += 1;
    }
    assert(ms@.take(ms.len() as int) == ms@);
    total
}

/// The name of a simple method.
pub open spec fn sub_name(m: Submethod) -> Seq<char> {
    match m {
        Submethod::RandomWhitespace => "RandomWhitespaceMethod"@,
        Submethod::LineExtend => "LineExtendMethod"@,
        Submethod::TrailingWhitespace => "TrailingWhitespaceMethod"@,
        Submethod::TrailingUnicode(_) => "TrailingUnicodeMethod"@,
    }
}

/// The name of a simple method.
pub fn sub_method_name(m: Submethod) -> (res: String)
    ensures
        res@ == sub_name(m),
{
    match m {
        Submethod::RandomWhitespace => RandomWhitespaceMethod::new().method_name(),
        Submethod::LineExtend => LineExtendMethod::new().method_name(),
        Submethod::TrailingWhitespace => TrailingWhitespaceMethod::new().method_name(),
        Submethod::TrailingUnicode(cs) => TrailingUnicodeMethod::new(cs).method_name(),
    }
}

/// `prefix` followed by the names of the three methods, separated by commas, and `)`.
pub fn complex_name(prefix: &str, ms: &Vec<Submethod>) -> (res: String)
    requires
        ms.len() == 3,
    ensures
        res@ == prefix@ + sub_name(ms@[0]) + ","@ + sub_name(ms@[1]) + ","@ + sub_name(ms@[2])
            + ")"@,
{
    let mut name = String::new();
    push_str(&mut name, prefix);
    let n0 = sub_method_name(ms[0]);
    push_str(&mut name, n0.as_str());
    push_str(&mut name, ",");
    let n1 = sub_method_name(ms[1]);
    push_str(&mut name, n1.as_str());
    push_str(&mut name, ",");
    let n2 = sub_method_name(ms[2]);
    push_str(&mut name, n2.as_str());
    push_str(&mut name, ")");
    assert(name@ =~= prefix@ + sub_name(ms@[0]) + ","@ + sub_name(ms@[1]) + ","@ + sub_name(ms@[2])
        + ")"@);
    name
}

} // verus!
