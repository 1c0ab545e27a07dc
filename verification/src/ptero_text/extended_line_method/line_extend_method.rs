//! Line Extension: lines are built from the cover words up to the pivot length (counted in
//! grapheme clusters); a 1 bit extends the line with one more word, beyond the pivot.
use vstd::prelude::*;

use crate::binary::{capped_count, BitIterator};
use crate::chars::{byte_len, push_char, push_str, words_of};
use crate::ptero_common::config::CommonMethodConfig;
use crate::ptero_common::method::{MethodProgressStatus, MethodResult};
use crate::ptero_text::extended_line_method::{
    glen, graphemes_length, ConcealError, ConcealErrorView, CoverTooSmallErrorReason, CoverWords,
    ElState,
};

verus! {

/// The pivot used when none is given.
pub const DEFAULT_PIVOT: usize = 20;

/// The text added to a line for word `w` when `cur` clusters are already on it: the word,
/// after a space unless the line is empty.
pub open spec fn appendix(w: Seq<char>, cur: nat) -> Seq<char> {
    if cur > 0 {
        seq![' '] + w
    } else {
        w
    }
}

/// Building a line from `ws[i..]` with `cur` clusters already on it: the index of the
/// first word left out and the text added.
pub open spec fn pivot_line_from(ws: Seq<Seq<char>>, pivot: nat, i: int, cur: nat) -> (int, Seq<char>)
    decreases ws.len() - i,
{
    if 0 <= i < ws.len() && cur + glen(appendix(ws[i], cur)) <= pivot {
        let next = pivot_line_from(ws, pivot, i + 1, cur + glen(appendix(ws[i], cur)));
        (next.0, appendix(ws[i], cur) + next.1)
    } else {
        (i, seq![])
    }
}

/// The number of words put on the line built from `ws`.
pub open spec fn line_count(ws: Seq<Seq<char>>, pivot: nat) -> int {
    pivot_line_from(ws, pivot, 0, 0).0
}

/// The line built from `ws`.
pub open spec fn pivot_line(ws: Seq<Seq<char>>, pivot: nat) -> Seq<char> {
    pivot_line_from(ws, pivot, 0, 0).1
}

/// The first word of `ws` longer than `pivot` bytes, if any.
pub open spec fn first_long_word(ws: Seq<Seq<char>>, pivot: nat) -> Option<Seq<char>>
    decreases ws.len(),
{
    if ws.len() == 0 {
        None
    } else if byte_len(ws[0]) > pivot {
        Some(ws[0])
    } else {
        first_long_word(ws.drop_first(), pivot)
    }
}

/// One Line Extension step on a line whose pivot part has `pll` clusters: no bit left
/// gives `NoDataLeft`; a 0 bit leaves the line; a 1 bit appends a space and the next word,
/// which must bring the line beyond the pivot.
pub open spec fn le_step(
    pivot: nat,
    pll: nat,
    s: ElState,
    after: ElState,
    res: Result<MethodResult, ConcealErrorView>,
) -> bool {
    if s.bits.len() == 0 {
        res == Ok::<MethodResult, ConcealErrorView>(MethodResult::NoDataLeft) && after == s
    } else if s.bits[0] == 1 {
        let rest = s.bits.drop_first();
        if s.words.len() == 0 {
            res == Err::<MethodResult, ConcealErrorView>(
                ConcealErrorView::CoverTextTooSmall(
                    CoverTooSmallErrorReason::NoCoverWordsLeft,
                    capped_count(rest.len()),
                    pivot,
                ),
            )
        } else if pll + glen(s.words[0]) + glen(seq![' ']) <= pivot {
            res == Err::<MethodResult, ConcealErrorView>(
                ConcealErrorView::CoverTextTooSmall(
                    CoverTooSmallErrorReason::ConstructedTooShortLine,
                    capped_count(rest.len()),
                    pivot,
                ),
            )
        } else {
            res == Ok::<MethodResult, ConcealErrorView>(MethodResult::Success) && after == ElState {
                line: s.line + seq![' '] + s.words[0],
                words: s.words.drop_first(),
                bits: rest,
            }
        }
    } else {
        res == Ok::<MethodResult, ConcealErrorView>(MethodResult::Success) && after == ElState {
            bits: s.bits.drop_first(),
            ..s
        }
    }
}

/// The bit read from a line: whether its words, counted in clusters, with one space
/// between each two, go beyond the pivot.
pub open spec fn le_revealed(line: Seq<char>, pivot: nat) -> u8 {
    let ws = words_of(line);
    if clusters_of_words(ws) + (ws.len() - 1) > pivot {
        1
    } else {
        0
    }
}

/// Total number of clusters of the words `ws`.
pub open spec fn clusters_of_words(ws: Seq<Seq<char>>) -> nat
    decreases ws.len(),
{
    if ws.len() == 0 {
        0
    } else {
        clusters_of_words(ws.drop_last()) + glen(ws.last())
    }
}

/// The Line Extension method.
pub struct LineExtendMethod {
    pivot: usize,
}

impl LineExtendMethod {
    /// The pivot.
    pub closed spec fn pivot_of(&self) -> usize {
        self.pivot
    }

    /// The method with the given pivot.
    pub fn new(pivot: usize) -> (res: Self)
        ensures
            res.pivot_of() == pivot,
    {
        LineExtendMethod { pivot }
    }

    /// The pivot.
    pub fn get_pivot(&self) -> (res: usize)
        ensures
            res == self.pivot_of(),
    {
        self.pivot
    }

    /// Builds the next line from the cover words: words are added while the line, counted
    /// in grapheme clusters, stays within the pivot.
    pub fn construct_pivot_line(&self, words: &mut CoverWords) -> (res: String)
        ensures
            res@ == pivot_line(old(words).rest(), self.pivot_of() as nat),
            0 <= line_count(old(words).rest(), self.pivot_of() as nat) <= old(words).rest().len(),
            final(words).rest() == old(words).rest().skip(
                line_count(old(words).rest(), self.pivot_of() as nat),
            ),
            res@.len() > 0 ==> line_count(old(words).rest(), self.pivot_of() as nat) > 0,
            byte_len(res@) <= isize::MAX,
    {
        let ghost ws = words.rest();
        let ghost p = self.pivot as nat;
        let mut current_line_length: usize = 0;
        let mut result = String::new();
        let ghost mut i: int = 0;
        assert(ws.skip(0) == ws);
        loop
            invariant
                ws == old(words).rest(),
                p == self.pivot as nat,
                0 <= i <= ws.len(),
                current_line_length <= p,
                byte_len(result@) <= isize::MAX,
                words.rest() == ws.skip(i),
                pivot_line_from(ws, p, 0, 0) == (
                    pivot_line_from(ws, p, i, current_line_length as nat).0,
                    result@ + pivot_line_from(ws, p, i, current_line_length as nat).1,
                ),
            ensures
                0 <= i <= ws.len(),
                words.rest() == ws.skip(i),
                pivot_line_from(ws, p, i, current_line_length as nat) == (i, Seq::<char>::empty()),
                pivot_line_from(ws, p, 0, 0) == (i, result@),
                byte_len(result@) <= isize::MAX,
            decreases ws.len() - i,
        {
            let next_word = match words.peek() {
                Some(w) => w,
                None => {
                    assert(result@ + Seq::<char>::empty() =~= result@);
                    break ;
                },
            };
            let mut line_appendix = String::new();
            if current_line_length > 0 {
                push_char(&mut line_appendix, ' ');
            }
            push_str(&mut line_appendix, next_word.as_str());
            assert(line_appendix@ =~= appendix(ws[i], current_line_length as nat));
            let appendix_length = graphemes_length(line_appendix.as_str());
            if current_line_length as u128 + appendix_length as u128 > self.pivot as u128 {
                assert(result@ + Seq::<char>::empty() =~= result@);
                break ;
            }
            current_line_length = current_line_length + appendix_length;
            let ghost before = result@;
            push_str(&mut result, line_appendix.as_str());
            assert(line_appendix@.len() == 0 ==> result@ =~= before);
            assert(before + pivot_line_from(ws, p, i, (current_line_length - appendix_length) as nat).1
                =~= result@ + pivot_line_from(ws, p, i + 1, current_line_length as nat).1);
            words.next();
            assert(ws.skip(i).drop_first() =~= ws.skip(i + 1));
            proof {
                i = i + 1;
            }
        }
        proof {
            lemma_pivot_line_from_bounds(ws, p, i, current_line_length as nat);
            lemma_pivot_line_from_bounds(ws, p, 0, 0);
        }
        result
    }

    /// Hides the next bit by extending the line (in `line`, whose pivot part has
    /// `pivot_line_length` clusters) with the next cover word. A hidden bit is reported
    /// to the observers as one bit written; when the bit cannot be hidden, the bits left
    /// are drained from `data` and their number goes into the error.
    pub fn conceal_in_extended_line(
        &self,
        pivot_line_length: usize,
        words: &mut CoverWords,
        data: &mut BitIterator,
        line: &mut String,
        config: &mut CommonMethodConfig,
    ) -> (res: Result<MethodResult, ConcealError>)
        ensures
            final(data).source() == old(data).source(),
            le_step(
                self.pivot_of() as nat,
                pivot_line_length as nat,
                ElState { line: old(line)@, words: old(words).rest(), bits: old(data).remaining() },
                ElState { line: final(line)@, words: final(words).rest(), bits: final(data).remaining() },
                match res {
                    Ok(r) => Ok(r),
                    Err(e) => Err(e.view_of()),
                },
            ),
            res is Ok ==> final(line)@.len() >= old(line)@.len(),
            res is Ok && byte_len(old(line)@) <= isize::MAX ==> byte_len(final(line)@) <= isize::MAX,
            final(words).rest().len() <= old(words).rest().len(),
            res is Err ==> final(data).remaining().len() == 0,
            res == Ok::<MethodResult, ConcealError>(MethodResult::Success) ==> final(data).remaining().len()
                + 1 == old(data).remaining().len(),
            res == Ok::<MethodResult, ConcealError>(MethodResult::NoDataLeft) ==> final(data).remaining().len()
                == 0 && old(data).remaining().len() == 0,
            res is Err ==> final(data).remaining().len() < old(data).remaining().len(),
            res == Ok::<MethodResult, ConcealError>(MethodResult::Success) ==> final(config).notifier.events_of()
                == old(config).notifier.events_of().push(MethodProgressStatus::DataWritten(1)),
            res != Ok::<MethodResult, ConcealError>(MethodResult::Success) ==> final(config).notifier.events_of()
                == old(config).notifier.events_of(),
    {
        match data.next() {
            Some(bit) => {
                if bit.0 == 1 {
                    let next_word = match words.peek() {
                        Some(w) => w,
                        None => {
                            let remaining_data_size = data.drain();
                            return Err(ConcealError::no_cover_words_left(remaining_data_size, self.pivot));
                        },
                    };
                    let word_length = graphemes_length(next_word.as_str());
                    let delimiter_length = graphemes_length(" ");
                    proof {
                        reveal_strlit(" ");
                        assert(" "@ =~= seq![' ']);
                    }
                    let extended_line_length = pivot_line_length as u128 + word_length as u128
                        + delimiter_length as u128;
                    if extended_line_length <= self.pivot as u128 {
                        let remaining_data_size = data.drain();
                        return Err(ConcealError::line_too_short(remaining_data_size, self.pivot));
                    }
                    push_char(line, ' ');
                    let ghost with_space = line@;
                    push_str(line, next_word.as_str());
                    assert(line@ =~= old(line)@ + seq![' '] + old(words).rest()[0]);
                    assert(next_word@.len() == 0 ==> line@ =~= with_space);
                    words.next();
                    config.notifier.notify(&MethodProgressStatus::DataWritten(1));
                    Ok(MethodResult::Success)
                } else {
                    config.notifier.notify(&MethodProgressStatus::DataWritten(1));
                    Ok(MethodResult::Success)
                }
            },
            None => Ok(MethodResult::NoDataLeft),
        }
    }

    /// Reads a bit from a line: 1 when its words with single spaces between them go
    /// beyond the pivot. The line must hold a word.
    pub fn reveal_in_extended_line(&self, stego_text_line: &str) -> (res: u8)
        requires
            words_of(stego_text_line@).len() > 0,
        ensures
            res == le_revealed(stego_text_line@, self.pivot_of() as nat),
    {
        let words = crate::chars::split_whitespace(stego_text_line);
        let expected_whitespace_amount = words.len() - 1;
        let mut ext_line_length: u128 = 0;
        let mut i: usize = 0;
        while i < words.len()
            invariant
                i <= words.len(),
                crate::chars::views(words@) == words_of(stego_text_line@),
                ext_line_length == clusters_of_words(crate::chars::views(words@).take(i as int)),
                ext_line_length <= i * usize::MAX,
            decreases words.len() - i,
        {
            let g = graphemes_length(words[i].as_str());
            assert(crate::chars::views(words@).take(i as int + 1).drop_last() =~= crate::chars::views(
                words@,
            ).take(i as int));
            assert(ext_line_length + g <= (i + 1) * usize::MAX) by (nonlinear_arith)
                requires
                    ext_line_length <= i * usize::MAX,
                    g <= usize::MAX,
            ;
            assert((i + 1) * usize::MAX <= usize::MAX * usize::MAX) by (nonlinear_arith)
                requires
                    i < usize::MAX,
            ;
            ext_line_length = ext_line_length + g as u128;
            i += 1;
        }
        assert(crate::chars::views(words@).take(words.len() as int) =~= crate::chars::views(words@));
        if ext_line_length + expected_whitespace_amount as u128 > self.pivot as u128 {
            1
        } else {
            0
        }
    }

    /// Checks that no cover word is longer (in bytes) than the pivot.
    pub fn verify_pivot(&self, cover: &str) -> (res: Result<(), ConcealError>)
        ensures
            first_long_word(words_of(cover@), self.pivot_of() as nat) is None <==> res is Ok,
            res matches Err(e) ==> e.view_of() == ConcealErrorView::PivotTooSmall(
                first_long_word(words_of(cover@), self.pivot_of() as nat)->0,
                self.pivot_of() as nat,
            ),
    {
        let words = crate::chars::split_whitespace(cover);
        let ghost ws = crate::chars::views(words@);
        let mut i: usize = 0;
        assert(ws.skip(0) =~= ws);
        while i < words.len()
            invariant
                i <= words.len(),
                ws == crate::chars::views(words@),
                ws == words_of(cover@),
                first_long_word(ws, self.pivot as nat) == first_long_word(ws.skip(i as int), self.pivot as nat),
            decreases words.len() - i,
        {
            let len = crate::chars::str_byte_len_exact(words[i].as_str());
            assert(ws.skip(i as int)[0] == ws[i as int]);
            assert(ws.skip(i as int).drop_first() =~= ws.skip(i as int + 1));
            if len > self.pivot as u128 {
                let word = crate::chars::string_of(&crate::chars::chars_of(words[i].as_str()));
                return Err(ConcealError::pivot_too_small(word, self.pivot));
            }
            i += 1;
        }
        Ok(())
    }
}

/// The end of a line build lies between its start and the number of words.
pub proof fn lemma_pivot_line_from_bounds(ws: Seq<Seq<char>>, pivot: nat, i: int, cur: nat)
    requires
        0 <= i <= ws.len(),
    ensures
        i <= pivot_line_from(ws, pivot, i, cur).0 <= ws.len(),
        pivot_line_from(ws, pivot, i, cur).1.len() > 0 ==> pivot_line_from(ws, pivot, i, cur).0 > i,
    decreases ws.len() - i,
{
    if i < ws.len() && cur + glen(appendix(ws[i], cur)) <= pivot {
        lemma_pivot_line_from_bounds(ws, pivot, i + 1, cur + glen(appendix(ws[i], cur)));
    }
}

} // verus!
