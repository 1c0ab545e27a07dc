//! Capacity of a cover text for a given pivot.
use vstd::prelude::*;

use crate::chars::{byte_len, capped_byte_len, split_whitespace, views, words_of};
use crate::cli::encoder::{determine_pivot_size, max_word_len};
use crate::context::{
    fit_count, lemma_line_outcome_count, line_outcome, Context, ContextErrorKind,
    PivotByLineContext,
};
use crate::encoder::{context_kind, ErrorKind, MethodError};
use crate::method::complex::eluv::{eluv_methods, ELUVMethodVariant};
use crate::method::complex::extended_line::{extended_line_methods, ExtendedLineMethodVariant};
use crate::method::complex::{methods_bitrate, total_rate, Submethod};
use crate::ptero_text::extended_line_method::character_sets::CharacterSetType;

verus! {

/// Calculate the minimal capacity for the cover text and given pivot.
pub struct GetCapacityCommand {
    /// Path to cover text.
    pub cover: String,
    /// Pivot i.e. line length.
    pub pivot: usize,
    /// Use ELUV method for encoding.
    pub eluv: bool,
    /// Use Extended Line method for encoding.
    pub extended_line: bool,
}

/// Total number of characters of `ws`.
pub open spec fn total_chars(ws: Seq<Seq<char>>) -> nat
    decreases ws.len(),
{
    if ws.len() == 0 {
        0
    } else {
        total_chars(ws.drop_last()) + ws.last().len()
    }
}

/// Number of lines that can be loaded from `ws` under `pivot` when one word is skipped
/// after each line, or the error that stops loading.
pub open spec fn capacity_lines(ws: Seq<Seq<char>>, pivot: int) -> Result<nat, ContextErrorKind>
    decreases ws.len(),
{
    match line_outcome(ws, pivot) {
        Err(ContextErrorKind::NoTextLeft) => Ok(0),
        Err(k) => Err(k),
        Ok(_) => {
            let rest = ws.skip(fit_count(ws, pivot));
            let next = if rest.len() > 0 {
                rest.drop_first()
            } else {
                rest
            };
            if 0 < fit_count(ws, pivot) <= ws.len() {
                match capacity_lines(next, pivot) {
                    Ok(n) => Ok(n + 1),
                    Err(k) => Err(k),
                }
            } else {
                Ok(0)
            }
        },
    }
}

/// The words left after the line loaded from `ws` under `pivot` and the one word skipped
/// after it (none when the line took every word).
pub open spec fn words_after_line(ws: Seq<Seq<char>>, pivot: int) -> Seq<Seq<char>> {
    let k = fit_count(ws, pivot);
    if k < ws.len() {
        ws.skip(k + 1)
    } else {
        Seq::empty()
    }
}

/// Every line the context loads is counted once, the last one too: with no words the
/// count is zero; when the first word is longer than the pivot, no line can be built;
/// otherwise a line is loaded and the count is one more than the count for the words
/// after that line and the skipped word, so it is at least one.
pub proof fn lemma_capacity_counts_every_line(ws: Seq<Seq<char>>, pivot: int)
    ensures
        ws.len() == 0 ==> capacity_lines(ws, pivot) == Ok::<nat, ContextErrorKind>(0),
        ws.len() > 0 && byte_len(ws[0]) > pivot ==> capacity_lines(ws, pivot) == Err::<
            nat,
            ContextErrorKind,
        >(ContextErrorKind::CannotConstructLine),
        ws.len() > 0 && byte_len(ws[0]) <= pivot ==> {
            &&& line_outcome(ws, pivot) is Ok
            &&& match capacity_lines(words_after_line(ws, pivot), pivot) {
                Ok(n) => capacity_lines(ws, pivot) == Ok::<nat, ContextErrorKind>(n + 1),
                Err(k) => capacity_lines(ws, pivot) == Err::<nat, ContextErrorKind>(k),
            }
            &&& capacity_lines(ws, pivot) matches Ok(n) ==> n >= 1
        },
{
    if ws.len() > 0 && byte_len(ws[0]) <= pivot {
        lemma_line_outcome_count(ws, pivot);
        let k = fit_count(ws, pivot);
        let rest = ws.skip(k);
        if k < ws.len() {
            assert(rest.drop_first() =~= ws.skip(k + 1));
        } else {
            assert(rest =~= Seq::<Seq<char>>::empty());
        }
    }
}

/// The capacity (in bits) the command computes for `cover` with pivot `pivot` and a
/// method of `rate` bits per line.
pub open spec fn capacity_outcome(cover: Seq<char>, pivot: int, rate: nat) -> Result<nat, ErrorKind> {
    let ws = words_of(cover);
    if max_word_len(ws) <= pivot && pivot >= total_chars(ws) {
        Err(ErrorKind::PivotTooLarge)
    } else {
        match capacity_lines(ws, pivot) {
            Ok(n) => Ok(n * rate),
            Err(k) => Err(context_kind(k)),
        }
    }
}

/// The characters counted against the pivot are those of the words joined together,
/// whitespace left out.
pub proof fn lemma_total_chars_joined(ws: Seq<Seq<char>>)
    ensures
        total_chars(ws) == ws.flatten().len(),
    decreases ws.len(),
{
    lemma_total_chars_alt(ws);
    ws.lemma_flatten_and_flatten_alt_are_equivalent();
}

proof fn lemma_total_chars_alt(ws: Seq<Seq<char>>)
    ensures
        total_chars(ws) == ws.flatten_alt().len(),
    decreases ws.len(),
{
    if ws.len() > 0 {
        lemma_total_chars_alt(ws.drop_last());
    }
}

/// The cover is refused as too short exactly when no word is longer (in bytes) than the
/// pivot and the pivot reaches the number of characters of the words joined together;
/// otherwise the capacity is the number of lines counted times the rate, or the error
/// that stops the lines.
pub proof fn lemma_capacity_refusal(cover: Seq<char>, pivot: int, rate: nat)
    ensures
        capacity_outcome(cover, pivot, rate) == Err::<nat, ErrorKind>(ErrorKind::PivotTooLarge)
            <==> (max_word_len(words_of(cover)) <= pivot && pivot >= words_of(cover).flatten().len()),
        !(max_word_len(words_of(cover)) <= pivot && pivot >= words_of(cover).flatten().len())
            ==> capacity_outcome(cover, pivot, rate) == match capacity_lines(words_of(cover), pivot) {
            Ok(n) => Ok::<nat, ErrorKind>(n * rate),
            Err(k) => Err::<nat, ErrorKind>(context_kind(k)),
        },
{
    lemma_total_chars_joined(words_of(cover));
    let ws = words_of(cover);
    if !(max_word_len(ws) <= pivot && pivot >= total_chars(ws)) {
        match capacity_lines(ws, pivot) {
            Ok(_) => {},
            Err(k) => {
                assert(k == ContextErrorKind::CannotConstructLine) by {
                    lemma_capacity_error_kind(ws, pivot);
                }
            },
        }
    }
}

/// Counting lines fails only when a line cannot be built.
proof fn lemma_capacity_error_kind(ws: Seq<Seq<char>>, pivot: int)
    ensures
        capacity_lines(ws, pivot) matches Err(k) ==> k == ContextErrorKind::CannotConstructLine,
    decreases ws.len(),
{
    if ws.len() > 0 && byte_len(ws[0]) <= pivot {
        lemma_line_outcome_count(ws, pivot);
        let k = fit_count(ws, pivot);
        let rest = ws.skip(k);
        let next = if rest.len() > 0 { rest.drop_first() } else { rest };
        lemma_capacity_error_kind(next, pivot);
    }
}

/// Total number of characters of the words.
fn count_word_chars(words: &Vec<String>) -> (res: u128)
    ensures
        res == total_chars(views(words@)),
{
    let mut total: u128 = 0;
    let mut i: usize = 0;
    while i < words.len()
        invariant
            i <= words.len(),
            total == total_chars(views(words@).take(i as int)),
            total <= i * usize::MAX,
        decreases words.len() - i,
    {
        let n = crate::chars::chars_of(words[i].as_str()).len();
        assert(views(words@).take(i as int + 1).drop_last() =~= views(words@).take(i as int));
        assert(total + n <= (i + 1) * usize::MAX) by (nonlinear_arith)
            requires
                total <= i * usize::MAX,
                n <= usize::MAX,
        ;
        assert((i + 1) * usize::MAX <= usize::MAX * usize::MAX) by (nonlinear_arith)
            requires
                i < usize::MAX,
        ;
        total = total + n as u128;
        i += 1;
    }
    assert(views(words@).take(words.len() as int) =~= views(words@));
    total
}

impl GetCapacityCommand {
    /// The simple methods of the selected method.
    pub open spec fn methods_spec(&self) -> Seq<Submethod> {
        if self.eluv {
            eluv_methods(ELUVMethodVariant::Variant1, CharacterSetType::Full)
        } else {
            extended_line_methods(ExtendedLineMethodVariant::Variant1)
        }
    }

    /// The simple methods of the selected method: ELUV or Extended Line, first variant.
    pub fn get_method(&self) -> (res: Vec<Submethod>)
        ensures
            res@ == self.methods_spec(),
    {
        if self.eluv {
            crate::method::complex::eluv::ELUVMethodBuilder::new().build().into_methods()
        } else {
            crate::method::complex::extended_line::ExtendedLineMethodBuilder::new().build().into_methods()
        }
    }

    /// Number of bits the cover text can hold: the number of lines built under the pivot
    /// (a word is skipped after each line) times the bitrate of the method.
    /// Fails when the pivot is not below the number of characters of the words (and no
    /// word is longer than the pivot), or when a line cannot be built. The capacity must
    /// fit in a `u32`.
    pub fn get_cover_text_capacity(&self, cover_text: &str) -> (res: Result<u32, MethodError>)
        requires
            capacity_outcome(cover_text@, self.pivot as int, total_rate(self.methods_spec())) matches Ok(
                n,
            ) ==> n <= u32::MAX,
        ensures
            ({
                let out = capacity_outcome(cover_text@, self.pivot as int, total_rate(self.methods_spec()));
                match res {
                    Ok(n) => out == Ok::<nat, ErrorKind>(n as nat),
                    Err(e) => out == Err::<nat, ErrorKind>(e.kind_of()),
                }
            }),
    {
        match self.cover_text_capacity(cover_text) {
            Ok(n) => Ok(n as u32),
            Err(e) => Err(e),
        }
    }

    /// The capacity as `get_cover_text_capacity` computes it, whatever its size.
    pub fn cover_text_capacity(&self, cover_text: &str) -> (res: Result<u128, MethodError>)
        ensures
            ({
                let out = capacity_outcome(cover_text@, self.pivot as int, total_rate(self.methods_spec()));
                match res {
                    Ok(n) => out == Ok::<nat, ErrorKind>(n as nat),
                    Err(e) => out == Err::<nat, ErrorKind>(e.kind_of()),
                }
            }),
    {
        let words = split_whitespace(cover_text);
        let max_word_length = determine_pivot_size(&words);
        let text_length = count_word_chars(&words);
        if max_word_length <= self.pivot && self.pivot as u128 >= text_length {
            return Err(MethodError::PivotTooLarge);
        }
        let mut context = PivotByLineContext::new(cover_text, self.pivot);
        let ghost p = self.pivot as int;
        let ghost ws0 = context.words_left();
        assert(ws0.len() == words.len());
        let mut text_fragment_count: u128 = 0;
        loop
            invariant
                context.pivot_of() as int == p,
                p == self.pivot as int,
                ws0 == words_of(cover_text@),
                ws0.len() <= usize::MAX,
                !(max_word_len(ws0) <= p && p >= total_chars(ws0)),
                context.words_left().len() <= ws0.len(),
                text_fragment_count + context.words_left().len() <= ws0.len(),
                match capacity_lines(context.words_left(), p) {
                    Ok(n) => capacity_lines(ws0, p) == Ok::<nat, ContextErrorKind>(
                        (n + text_fragment_count) as nat,
                    ),
                    Err(k) => capacity_lines(ws0, p) == Err::<nat, ContextErrorKind>(k),
                },
            ensures
                !(max_word_len(ws0) <= p && p >= total_chars(ws0)),
                text_fragment_count <= ws0.len(),
                capacity_lines(ws0, p) == Ok::<nat, ContextErrorKind>(text_fragment_count as nat),
            decreases context.words_left().len(),
        {
            let ghost ws_i = context.words_left();
            match context.load_text() {
                Ok(_) => {
                    proof {
                        lemma_line_outcome_count(ws_i, p);
                    }
                    text_fragment_count = text_fragment_count + 1;
                },
                Err(error) => {
                    match error.kind() {
                        ContextErrorKind::CannotConstructLine => {
                            assert(capacity_lines(ws_i, p) == Err::<nat, ContextErrorKind>(
                                ContextErrorKind::CannotConstructLine,
                            ));
                            return Err(MethodError::Context(error));
                        },
                        ContextErrorKind::NoTextLeft => {
                            assert(capacity_lines(ws_i, p) == Ok::<nat, ContextErrorKind>(0));
                            break ;
                        },
                    }
                },
            }
            let ghost ws_loaded = context.words_left();
            context.next_word();
            proof {
                if ws_loaded.len() > 0 {
                    assert(context.words_left() == ws_loaded.drop_first());
                }
            }
        }
        let rate = methods_bitrate(&self.get_method());
        proof {
            assert(capacity_lines(ws0, p) == Ok::<nat, ContextErrorKind>(
                text_fragment_count as nat,
            ));
            assert(rate <= 7) by {
                crate::method::trailing_unicode::lemma_charset_shape(CharacterSetType::Full);
                reveal_with_fuel(total_rate, 4);
            }
            assert(text_fragment_count * rate <= usize::MAX * 7) by (nonlinear_arith)
                requires
                    text_fragment_count <= usize::MAX,
                    rate <= 7,
            ;
        }
        Ok(text_fragment_count * rate as u128)
    }
}

} // verus!
