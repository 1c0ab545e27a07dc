//! The Extended Line method: it hides data in a text laid out in lines around a pivot
//! length. Each line is built from the cover words up to the pivot; a bit is hidden by
//! extending the line with one more word, by doubling a space, and by a trailing
//! character from a character set.
use std::cell::RefCell;
use std::sync::Arc;

use rand::RngCore;
use unicode_segmentation::UnicodeSegmentation;

use vstd::prelude::*;

use crate::binary::{bit_values, capped_count, Bit, BitIterator, BitVec};
use crate::method::trailing_unicode::{lemma_charset_shape, tu_rate};
use crate::method::variant::{decimal, push_decimal};
use crate::chars::{byte_len, chars_of, no_white_space, push_char, push_str, split_whitespace, views, words_of};
use crate::ptero_common::config::{CommonMethodConfig, CommonMethodConfigBuilder};
use crate::ptero_common::method::{
    lemma_reports_chain, lemma_reports_none, lemma_reports_step, reports_written, written_since, MethodProgressStatus,
    MethodResult, SteganographyMethod,
};
use crate::ptero_common::observer::{kept_in_order, Observer, Subscriber};
use crate::ptero_text::line_separator::{separator_chars, DEFAULT_LINE_SEPARATOR};

use self::character_sets::{CharacterSetType, GetCharacterSet};
use self::line_extend_method::{
    first_long_word, le_revealed, le_step, lemma_pivot_line_from_bounds, line_count, pivot_line,
    LineExtendMethod, DEFAULT_PIVOT,
};
use self::random_whitespace_method::{rw_outcome, rw_revealed, rw_step, RandomWhitespaceMethod};
use self::trailing_whitespace_method::{tw_revealed, tw_step, TrailingWhitespaceMethod};

pub mod character_sets;
pub mod line_extend_method;
pub mod random_whitespace_method;
pub mod roundtrip;
pub mod trailing_whitespace_method;

verus! {

/// The extended grapheme clusters of `text`, in order, as `unicode_segmentation` splits it.
pub uninterp spec fn segmented(text: Seq<char>) -> Seq<Seq<char>>;

/// Whether every character of `text` comes before U+0300 (where the combining marks
/// begin) and none is a carriage return.
pub open spec fn before_combining_without_cr(text: Seq<char>) -> bool {
    forall|i: int| 0 <= i < text.len() ==> (#[trigger] text[i] as u32) < 0x300 && text[i] != '\r'
}

/// Each character of `text` as a cluster of its own.
pub open spec fn single_chars(text: Seq<char>) -> Seq<Seq<char>> {
    Seq::new(text.len(), |i: int| seq![text[i]])
}

/// The extended grapheme clusters of `text`: each character on its own for text of
/// characters before U+0300 without a carriage return, and what the segmentation gives
/// otherwise.
#[verifier::opaque]
pub open spec fn extended_graphemes(text: Seq<char>) -> Seq<Seq<char>> {
    if before_combining_without_cr(text) {
        single_chars(text)
    } else {
        segmented(text)
    }
}

/// The concatenation of `parts`.
pub open spec fn joined(parts: Seq<Seq<char>>) -> Seq<char>
    decreases parts.len(),
{
    if parts.len() == 0 {
        seq![]
    } else {
        joined(parts.drop_last()) + parts.last()
    }
}

/// Joining is additive over concatenation.
pub proof fn lemma_joined_concat(a: Seq<Seq<char>>, b: Seq<Seq<char>>)
    ensures
        joined(a + b) == joined(a) + joined(b),
    decreases b.len(),
{
    if b.len() == 0 {
        assert(a + b =~= a);
        assert(joined(a) + Seq::<char>::empty() =~= joined(a));
    } else {
        lemma_joined_concat(a, b.drop_last());
        assert((a + b).drop_last() =~= a + b.drop_last());
        assert((a + b).last() == b.last());
    }
}

/// Part `k` of `parts` sits in their concatenation right after the parts before it.
pub proof fn lemma_joined_part(parts: Seq<Seq<char>>, k: int)
    requires
        0 <= k < parts.len(),
    ensures
        joined(parts) == joined(parts.take(k)) + parts[k] + joined(parts.skip(k + 1)),
        joined(parts.take(k)).len() + parts[k].len() <= joined(parts).len(),
        joined(parts).subrange(
            joined(parts.take(k)).len() as int,
            (joined(parts.take(k)).len() + parts[k].len()) as int,
        ) == parts[k],
{
    assert(parts =~= parts.take(k) + (seq![parts[k]] + parts.skip(k + 1)));
    lemma_joined_concat(parts.take(k), seq![parts[k]] + parts.skip(k + 1));
    lemma_joined_concat(seq![parts[k]], parts.skip(k + 1));
    assert(seq![parts[k]].drop_last() =~= Seq::<Seq<char>>::empty());
    assert(joined(Seq::<Seq<char>>::empty()) =~= Seq::<char>::empty());
    assert(seq![parts[k]].last() == parts[k]);
    assert(Seq::<char>::empty() + parts[k] =~= parts[k]);
    assert(joined(seq![parts[k]]) =~= parts[k]);
    let pre = joined(parts.take(k));
    let post = joined(parts.skip(k + 1));
    assert((pre + parts[k] + post).subrange(pre.len() as int, (pre.len() + parts[k].len()) as int) =~= parts[k]);
    assert(pre + (parts[k] + post) =~= pre + parts[k] + post);
}

/// Number of extended grapheme clusters of `text`.
pub open spec fn glen(text: Seq<char>) -> nat {
    extended_graphemes(text).len()
}

/// The extended grapheme clusters of `text` (`UnicodeSegmentation::graphemes` with
/// `is_extended` set). The crate yields consecutive non-empty slices of the text from
/// its start to its end, so the clusters are non-empty and together make up the text.
/// On text of characters before U+0300 without a carriage return, every character is a
/// cluster of its own: in the crate's table of cluster categories, the characters before
/// U+0300 are plain, controls, CR, LF, or the two pictographs U+00A9 and U+00AE, so none
/// extends, joins or prefixes a cluster (a pictograph joins only across a zero-width
/// joiner), and CR LF is the only pair the rules keep together. Where the boundaries
/// fall otherwise is left to the named result.
#[verifier::external_body]
fn segment(text: &str) -> (res: Vec<String>)
    ensures
        views(res@) == segmented(text@),
        before_combining_without_cr(text@) ==> views(res@) == single_chars(text@),
        joined(views(res@)) == text@,
        forall|i: int| 0 <= i < res@.len() ==> #[trigger] res@[i]@.len() > 0,
{
    text.graphemes(true).map(String::from).collect()
}

/// The extended grapheme clusters of `text`: non-empty, and together they make up the
/// text.
pub(crate) fn graphemes(text: &str) -> (res: Vec<String>)
    ensures
        views(res@) == extended_graphemes(text@),
        joined(views(res@)) == text@,
        forall|i: int| 0 <= i < res@.len() ==> #[trigger] res@[i]@.len() > 0,
{
    let res = segment(text);
    proof {
        reveal(extended_graphemes);
    }
    res
}

/// Number of extended grapheme clusters of `text`.
pub(crate) fn graphemes_length(text: &str) -> (res: usize)
    ensures
        res == glen(text@),
{
    let clusters = graphemes(text);
    clusters.len()
}

/// The cover words not used yet: a peekable cursor over the words of the cover.
pub struct CoverWords {
    words: Vec<String>,
    pos: usize,
}

impl CoverWords {
    #[verifier::type_invariant]
    spec fn well_formed(&self) -> bool {
        self.pos <= self.words@.len()
    }

    /// The words left, in order.
    pub closed spec fn rest(&self) -> Seq<Seq<char>> {
        views(self.words@).skip(self.pos as int)
    }

    /// A cursor over `words`.
    pub fn new(words: Vec<String>) -> (res: Self)
        ensures
            res.rest() == views(words@),
    {
        let res = CoverWords { words, pos: 0 };
        assert(views(res.words@).skip(0) == views(res.words@));
        res
    }

    /// The next word, if any, without moving on.
    pub fn peek(&self) -> (res: Option<&String>)
        ensures
            self.rest().len() == 0 <==> res is None,
            res matches Some(w) ==> w@ == self.rest()[0],
    {
        proof {
            use_type_invariant(self);
        }
        if self.pos < self.words.len() {
            Some(&self.words[self.pos])
        } else {
            None
        }
    }

    /// Moves past the next word, if any, and returns it.
    pub fn next(&mut self) -> (res: Option<&String>)
        ensures
            old(self).rest().len() == 0 ==> res is None && final(self).rest() == old(self).rest(),
            old(self).rest().len() > 0 ==> (res is Some && res->0@ == old(self).rest()[0]
                && final(self).rest() == old(self).rest().drop_first()),
    {
        proof {
            use_type_invariant(&*self);
        }
        if self.pos < self.words.len() {
            let i = self.pos;
            self.pos = self.pos + 1;
            assert(views(self.words@).skip(i as int + 1) =~= views(self.words@).skip(
                i as int,
            ).drop_first());
            Some(&self.words[i])
        } else {
            None
        }
    }
}

/// Describes why a cover text was too small, with more context.
#[derive(Debug, PartialEq, Eq, Structural, Clone, Copy)]
pub enum CoverTooSmallErrorReason {
    /// No cover word was left to build or extend a line.
    NoCoverWordsLeft,
    /// The last line built from the cover is too short to extend it above the pivot.
    ConstructedTooShortLine,
}

/// The text describing `reason`.
pub open spec fn reason_text(reason: CoverTooSmallErrorReason) -> Seq<char> {
    match reason {
        CoverTooSmallErrorReason::NoCoverWordsLeft => "No cover words left, cannot construct a line."@,
        CoverTooSmallErrorReason::ConstructedTooShortLine => "Line constructed is too short to extend it above pivot length"@,
    }
}

impl CoverTooSmallErrorReason {
    /// The message describing the reason.
    pub fn message(&self) -> (res: &'static str)
        ensures
            res@ == reason_text(*self),
    {
        match self {
            CoverTooSmallErrorReason::NoCoverWordsLeft => {
                "No cover words left, cannot construct a line."
            },
            CoverTooSmallErrorReason::ConstructedTooShortLine => {
                "Line constructed is too short to extend it above pivot length"
            },
        }
    }
}

/// Possible errors while concealing data with [ExtendedLineMethod].
#[derive(Debug, PartialEq)]
pub enum ConcealError {
    /// The cover has a word longer than the pivot, so no line can hold it.
    PivotTooSmall { word: String, pivot: usize },
    /// The cover cannot hide the data: `remaining_data_size` bits were left.
    CoverTextTooSmall {
        reason: CoverTooSmallErrorReason,
        remaining_data_size: usize,
        pivot: usize,
    },
    /// The line has too few words to double a space in it.
    NotEnoughWordsOnPivotLine { line: String },
}

/// A [ConcealError] as plain values.
pub enum ConcealErrorView {
    PivotTooSmall(Seq<char>, nat),
    CoverTextTooSmall(CoverTooSmallErrorReason, nat, nat),
    NotEnoughWordsOnPivotLine(Seq<char>),
}

impl ConcealError {
    /// The error as plain values.
    pub open spec fn view_of(&self) -> ConcealErrorView {
        match self {
            ConcealError::PivotTooSmall { word, pivot } => ConcealErrorView::PivotTooSmall(
                word@,
                *pivot as nat,
            ),
            ConcealError::CoverTextTooSmall { reason, remaining_data_size, pivot } =>
                ConcealErrorView::CoverTextTooSmall(
                *reason,
                *remaining_data_size as nat,
                *pivot as nat,
            ),
            ConcealError::NotEnoughWordsOnPivotLine { line } =>
                ConcealErrorView::NotEnoughWordsOnPivotLine(line@),
        }
    }

    /// The text describing the error.
    pub open spec fn text_of(&self) -> Seq<char> {
        match self {
            ConcealError::PivotTooSmall { word, pivot } => "Pivot '"@ + decimal(*pivot as nat)
                + "' is smaller then the longest word in cover: '"@ + word@ + "'"@,
            ConcealError::CoverTextTooSmall { reason, remaining_data_size, pivot } => reason_text(*reason)
                + ". '"@ + decimal(*remaining_data_size as nat) + "' bytes left unprocessed while using '"@
                + decimal(*pivot as nat) + "' as a pivot"@,
            ConcealError::NotEnoughWordsOnPivotLine { line } => "Line '"@ + line@
                + "' doesn't have enough words to conceal a bit"@,
        }
    }

    /// The message describing the error.
    pub fn message(&self) -> (res: String)
        ensures
            res@ == self.text_of(),
    {
        let mut res = String::new();
        match self {
            ConcealError::PivotTooSmall { word, pivot } => {
                push_str(&mut res, "Pivot '");
                push_decimal(&mut res, *pivot as u64);
                push_str(&mut res, "' is smaller then the longest word in cover: '");
                push_str(&mut res, word.as_str());
                push_str(&mut res, "'");
            },
            ConcealError::CoverTextTooSmall { reason, remaining_data_size, pivot } => {
                push_str(&mut res, reason.message());
                push_str(&mut res, ". '");
                push_decimal(&mut res, *remaining_data_size as u64);
                push_str(&mut res, "' bytes left unprocessed while using '");
                push_decimal(&mut res, *pivot as u64);
                push_str(&mut res, "' as a pivot");
            },
            ConcealError::NotEnoughWordsOnPivotLine { line } => {
                push_str(&mut res, "Line '");
                push_str(&mut res, line.as_str());
                push_str(&mut res, "' doesn't have enough words to conceal a bit");
            },
        }
        assert(res@ =~= self.text_of());
        res
    }

    pub fn pivot_too_small(word: String, pivot: usize) -> (res: ConcealError)
        ensures
            res.view_of() == ConcealErrorView::PivotTooSmall(word@, pivot as nat),
    {
        ConcealError::PivotTooSmall { word, pivot }
    }

    pub fn no_cover_words_left(remaining_data_size: usize, pivot: usize) -> (res: ConcealError)
        ensures
            res.view_of() == ConcealErrorView::CoverTextTooSmall(
                CoverTooSmallErrorReason::NoCoverWordsLeft,
                remaining_data_size as nat,
                pivot as nat,
            ),
    {
        ConcealError::CoverTextTooSmall {
            reason: CoverTooSmallErrorReason::NoCoverWordsLeft,
            remaining_data_size,
            pivot,
        }
    }

    pub fn line_too_short(remaining_data_size: usize, pivot: usize) -> (res: ConcealError)
        ensures
            res.view_of() == ConcealErrorView::CoverTextTooSmall(
                CoverTooSmallErrorReason::ConstructedTooShortLine,
                remaining_data_size as nat,
                pivot as nat,
            ),
    {
        ConcealError::CoverTextTooSmall {
            reason: CoverTooSmallErrorReason::ConstructedTooShortLine,
            remaining_data_size,
            pivot,
        }
    }

    pub fn not_enough_words(line: &str) -> (res: ConcealError)
        ensures
            res.view_of() == ConcealErrorView::NotEnoughWordsOnPivotLine(line@),
    {
        ConcealError::NotEnoughWordsOnPivotLine { line: crate::chars::string_of(&crate::chars::chars_of(line)) }
    }
}

/// What a concealing step works on: the line being built, the cover words left and the
/// bits left to hide.
#[verifier::ext_equal]
pub struct ElState {
    pub line: Seq<char>,
    pub words: Seq<Seq<char>>,
    pub bits: Seq<u8>,
}

/// Extended Line method variant: the order in which the submethods are used.
#[derive(Debug, Clone, Copy, PartialEq, Eq, Structural)]
pub enum Variant {
    /// Line Extension, Random Whitespace, Trailing Whitespace.
    V1,
    /// Line Extension, Trailing Whitespace, Random Whitespace.
    V2,
    /// Random Whitespace, Line Extension, Trailing Whitespace.
    V3,
}

/// The submethods.
#[derive(Debug, Clone, Copy, PartialEq, Eq, Structural)]
pub enum MethodActions {
    LineExtend,
    RandomASCIIWhitespace,
    TrailingASCIIWhitespace,
}

/// The submethods of a variant, in order.
pub open spec fn variant_actions(v: Variant) -> Seq<MethodActions> {
    match v {
        Variant::V1 => seq![
            MethodActions::LineExtend,
            MethodActions::RandomASCIIWhitespace,
            MethodActions::TrailingASCIIWhitespace,
        ],
        Variant::V2 => seq![
            MethodActions::LineExtend,
            MethodActions::TrailingASCIIWhitespace,
            MethodActions::RandomASCIIWhitespace,
        ],
        Variant::V3 => seq![
            MethodActions::RandomASCIIWhitespace,
            MethodActions::LineExtend,
            MethodActions::TrailingASCIIWhitespace,
        ],
    }
}

/// The submethods of a variant, in order.
pub fn get_variant_methods(variant: Variant) -> (res: [MethodActions; 3])
    ensures
        res@ == variant_actions(variant),
{
    let res = match variant {
        Variant::V1 => [
            MethodActions::LineExtend,
            MethodActions::RandomASCIIWhitespace,
            MethodActions::TrailingASCIIWhitespace,
        ],
        Variant::V2 => [
            MethodActions::LineExtend,
            MethodActions::TrailingASCIIWhitespace,
            MethodActions::RandomASCIIWhitespace,
        ],
        Variant::V3 => [
            MethodActions::RandomASCIIWhitespace,
            MethodActions::LineExtend,
            MethodActions::TrailingASCIIWhitespace,
        ],
    };
    assert(res@ =~= variant_actions(variant));
    res
}

/// What a configured method hides and reveals with: the pivot, the character set of
/// the trailing characters, the line separator and the submethods in order.
pub struct ElSetup {
    pub pivot: nat,
    pub set: Seq<char>,
    pub sep: Seq<char>,
    pub acts: Seq<MethodActions>,
}

/// One submethod step, on a line whose pivot part has `pll` clusters and which `before`
/// bytes of text precede.
pub open spec fn el_step(
    m: ElSetup,
    pll: nat,
    before: nat,
    a: MethodActions,
    s: ElState,
    after: ElState,
    res: Result<MethodResult, ConcealErrorView>,
) -> bool {
    match a {
        MethodActions::LineExtend => le_step(m.pivot, pll, s, after, res),
        MethodActions::RandomASCIIWhitespace => rw_step(m.sep, before, s, after, res),
        MethodActions::TrailingASCIIWhitespace => tw_step(m.set, s, after, res),
    }
}

/// Applying the submethods `m.acts[i..]` in order, each on the state the previous one
/// left, stopping after the first that does not succeed.
pub open spec fn el_chain(
    m: ElSetup,
    pll: nat,
    before: nat,
    i: int,
    s: ElState,
    after: ElState,
    res: Result<MethodResult, ConcealErrorView>,
) -> bool
    decreases m.acts.len() - i,
{
    if i < 0 || i >= m.acts.len() {
        after == s && res == Ok::<MethodResult, ConcealErrorView>(MethodResult::Success)
    } else {
        exists|mid: ElState, r: Result<MethodResult, ConcealErrorView>|
            #[trigger] el_step(m, pll, before, m.acts[i], s, mid, r) && if r == Ok::<
                MethodResult,
                ConcealErrorView,
            >(MethodResult::Success) {
                el_chain(m, pll, before, i + 1, mid, after, res)
            } else {
                after == mid && res == r
            }
    }
}

/// Hiding bits in one line: the line is built from the words `ws` (an error when it is
/// empty), then the submethods are applied to it.
pub open spec fn conceal_line(
    m: ElSetup,
    ws: Seq<Seq<char>>,
    bits: Seq<u8>,
    before: nat,
    after: ElState,
    res: Result<MethodResult, ConcealErrorView>,
) -> bool {
    let pl = pivot_line(ws, m.pivot);
    if pl.len() == 0 {
        res == Err::<MethodResult, ConcealErrorView>(
            ConcealErrorView::CoverTextTooSmall(
                CoverTooSmallErrorReason::NoCoverWordsLeft,
                capped_count(bits.len()),
                m.pivot,
            ),
        )
    } else {
        el_chain(
            m,
            glen(pl),
            before,
            0,
            ElState { line: pl, words: ws.skip(line_count(ws, m.pivot)), bits },
            after,
            res,
        )
    }
}

/// The lines built from the words `ws` once no data is left, each after a line feed.
pub open spec fn trailing_lines(ws: Seq<Seq<char>>, pivot: nat) -> Seq<char>
    decreases ws.len(),
{
    let k = line_count(ws, pivot);
    let pl = pivot_line(ws, pivot);
    if pl.len() > 0 && 0 < k <= ws.len() {
        seq!['\n'] + pl + trailing_lines(ws.skip(k), pivot)
    } else {
        seq![]
    }
}

/// `prefix` put before a successful output.
pub open spec fn prepend_text(prefix: Seq<char>, out: Result<Seq<char>, ConcealErrorView>) -> Result<
    Seq<char>,
    ConcealErrorView,
> {
    match out {
        Ok(t) => Ok(prefix + t),
        Err(e) => Err(e),
    }
}

/// What hiding `bits` in the cover words `ws` may give, `before` bytes of text preceding:
/// line by line, each line ends with a line feed while data is left; once no data is
/// left, the remaining words are laid out in lines; errors stop the hiding.
pub open spec fn conceal_rel(
    m: ElSetup,
    ws: Seq<Seq<char>>,
    bits: Seq<u8>,
    before: nat,
    out: Result<Seq<char>, ConcealErrorView>,
) -> bool
    decreases ws.len(),
{
    exists|after: ElState, r: Result<MethodResult, ConcealErrorView>|
        #[trigger] conceal_line(m, ws, bits, before, after, r) && match r {
            Err(e) => out == Err::<Seq<char>, ConcealErrorView>(e),
            Ok(MethodResult::NoDataLeft) => out == Ok::<Seq<char>, ConcealErrorView>(
                after.line + trailing_lines(after.words, m.pivot),
            ),
            Ok(MethodResult::Success) => after.words.len() < ws.len() && exists|
                o: Result<Seq<char>, ConcealErrorView>,
            |
                conceal_rel(m, after.words, after.bits, before + byte_len(after.line) + 1, o)
                    && out == #[trigger] prepend_text(after.line + seq!['\n'], o),
        }
}

/// What one submethod step, taking the bit count from `n0` to `n1`, sends: one event
/// reporting the bits it took when it succeeds; nothing when it runs out of data (having
/// taken fewer than `rate` bits) or fails.
pub open spec fn step_reported(
    e0: Seq<MethodProgressStatus>,
    e1: Seq<MethodProgressStatus>,
    n0: nat,
    n1: nat,
    rate: nat,
    res: Result<MethodResult, ConcealErrorView>,
) -> bool {
    match res {
        Ok(MethodResult::Success) => n1 <= n0 && e1 == e0.push(
            MethodProgressStatus::DataWritten((n0 - n1) as u64),
        ) && n0 - n1 <= u64::MAX,
        Ok(MethodResult::NoDataLeft) => e1 == e0 && n1 == 0 && n0 < rate,
        Err(_) => e1 == e0 && n1 <= n0,
    }
}

/// What one submethod step reports: the bits it hid when it succeeds, nothing else.
pub proof fn lemma_step_reported(
    e0: Seq<MethodProgressStatus>,
    e1: Seq<MethodProgressStatus>,
    n0: nat,
    n1: nat,
    rate: nat,
    res: Result<MethodResult, ConcealErrorView>,
)
    requires
        step_reported(e0, e1, n0, n1, rate, res),
    ensures
        reports_written(e0, e1),
        progress_reported(written_since(e0, e1), n0, n1, rate, res),
{
    lemma_reports_none(e0);
    if res == Ok::<MethodResult, ConcealErrorView>(MethodResult::Success) {
        lemma_reports_step(e0, e0, (n0 - n1) as u64);
    }
}

/// What hiding reports of its progress, for `n0` bits before and `n1` after, when the
/// events sent report `written` bits and a character of Trailing Whitespace holds
/// `rate` bits: every bit hidden on success; on running out of data, all bits taken but
/// those of a last, incomplete Trailing Whitespace chunk; on an error, no more than the
/// bits taken.
pub open spec fn progress_reported(
    written: int,
    n0: nat,
    n1: nat,
    rate: nat,
    res: Result<MethodResult, ConcealErrorView>,
) -> bool {
    match res {
        Ok(MethodResult::Success) => written == n0 - n1,
        Ok(MethodResult::NoDataLeft) => n1 == 0 && written <= n0 < written + rate,
        Err(_) => 0 <= written <= n0 - n1,
    }
}

/// The error of a result as plain values.
pub open spec fn view_res<T>(res: Result<T, ConcealError>) -> Result<T, ConcealErrorView> {
    match res {
        Ok(r) => Ok(r),
        Err(e) => Err(e.view_of()),
    }
}

/// The text of a result, with the error as plain values.
pub open spec fn text_res(res: Result<String, ConcealError>) -> Result<Seq<char>, ConcealErrorView> {
    match res {
        Ok(t) => Ok(t@),
        Err(e) => Err(e.view_of()),
    }
}

/// Reading the submethods `m.acts[..i]` backwards from the last: the bits each reads
/// from `line`, each on the line the one after it left.
pub open spec fn el_reveal_from(m: ElSetup, i: int, line: Seq<char>) -> Seq<u8>
    decreases i,
{
    if i <= 0 || i > m.acts.len() {
        seq![]
    } else {
        match m.acts[i - 1] {
            MethodActions::LineExtend => seq![le_revealed(line, m.pivot)] + el_reveal_from(
                m,
                i - 1,
                line,
            ),
            MethodActions::RandomASCIIWhitespace => seq![rw_revealed(line).0] + el_reveal_from(
                m,
                i - 1,
                rw_revealed(line).1,
            ),
            MethodActions::TrailingASCIIWhitespace => tw_revealed(m.set, line).0 + el_reveal_from(
                m,
                i - 1,
                tw_revealed(m.set, line).1,
            ),
        }
    }
}

/// Whether reading `line` backwards from submethod `i` finds a word wherever the Line
/// Extension submethod reads.
pub open spec fn reveal_ok(m: ElSetup, i: int, line: Seq<char>) -> bool
    decreases i,
{
    if i <= 0 || i > m.acts.len() {
        true
    } else {
        match m.acts[i - 1] {
            MethodActions::LineExtend => words_of(line).len() > 0 && reveal_ok(m, i - 1, line),
            MethodActions::RandomASCIIWhitespace => reveal_ok(m, i - 1, rw_revealed(line).1),
            MethodActions::TrailingASCIIWhitespace => reveal_ok(m, i - 1, tw_revealed(m.set, line).1),
        }
    }
}

/// The bits hidden in one line, in the order of the submethods.
pub open spec fn reveal_line(m: ElSetup, line: Seq<char>) -> Seq<u8> {
    el_reveal_from(m, m.acts.len() as int, line).reverse()
}

/// The bits hidden in `lines`, line after line.
pub open spec fn reveal_text(m: ElSetup, lines: Seq<Seq<char>>) -> Seq<u8>
    decreases lines.len(),
{
    if lines.len() == 0 {
        seq![]
    } else {
        reveal_text(m, lines.drop_last()) + reveal_line(m, lines.last())
    }
}

/// The pieces of `s` between line feeds, the last one included even when empty (what
/// `str::split` on `"\n"` yields).
pub open spec fn segments(s: Seq<char>) -> Seq<Seq<char>>
    decreases s.len(),
{
    if s.len() == 0 {
        seq![seq![]]
    } else {
        let prev = segments(s.drop_last());
        if s.last() == '\n' {
            prev.push(seq![])
        } else {
            prev.update(prev.len() - 1, prev.last().push(s.last()))
        }
    }
}

/// There is always at least one piece.
pub proof fn lemma_segments_len(s: Seq<char>)
    ensures
        segments(s).len() >= 1,
    decreases s.len(),
{
    if s.len() > 0 {
        lemma_segments_len(s.drop_last());
    }
}

/// Splits `text` at its line feeds.
fn split_newlines(text: &str) -> (res: Vec<String>)
    ensures
        views(res@) == segments(text@),
{
    let chars = chars_of(text);
    let mut pieces: Vec<String> = Vec::new();
    let mut current: Vec<char> = Vec::new();
    let mut i: usize = 0;
    assert(text@.take(0) =~= Seq::<char>::empty());
    while i < chars.len()
        invariant
            i <= chars.len(),
            chars@ == text@,
            views(pieces@).push(current@) == segments(text@.take(i as int)),
        decreases chars.len() - i,
    {
        let c = chars[i];
        proof {
            lemma_segments_len(text@.take(i as int));
        }
        assert(text@.take(i as int + 1).drop_last() =~= text@.take(i as int));
        if c == '\n' {
            let piece = crate::chars::string_of(&current);
            pieces.push(piece);
            current = Vec::new();
            assert(views(pieces@).push(current@) =~= segments(text@.take(i as int)).push(seq![]));
        } else {
            let ghost old_current = current@;
            current.push(c);
            assert(views(pieces@).push(current@) =~= segments(text@.take(i as int)).update(
                segments(text@.take(i as int)).len() - 1,
                old_current.push(c),
            ));
        }
        i += 1;
    }
    assert(text@.take(chars.len() as int) =~= text@);
    let piece = crate::chars::string_of(&current);
    pieces.push(piece);
    assert(views(pieces@) =~= segments(text@));
    pieces
}

/// A Random Whitespace step does not depend on the words left.
proof fn lemma_rw_step_words(
    sep: Seq<char>,
    before: nat,
    s: ElState,
    after: ElState,
    res: Result<MethodResult, ConcealErrorView>,
    ws: Seq<Seq<char>>,
)
    requires
        rw_step(
            sep,
            before,
            ElState { line: s.line, words: seq![], bits: s.bits },
            ElState { line: after.line, words: seq![], bits: after.bits },
            res,
        ),
        after.words == ws,
    ensures
        rw_step(sep, before, ElState { line: s.line, words: ws, bits: s.bits }, after, res),
{
    let s0 = ElState { line: s.line, words: seq![], bits: s.bits };
    let a0 = ElState { line: after.line, words: seq![], bits: after.bits };
    let s1 = ElState { line: s.line, words: ws, bits: s.bits };
    if s.bits.len() > 0 && s.bits[0] == 1 {
        let r = choose|r: nat|
            before <= r < before + byte_len(s0.line) && #[trigger] rw_outcome(
                sep,
                before,
                r,
                s0,
                a0,
                res,
            );
        assert(rw_outcome(sep, before, r, s1, after, res));
    }
}

/// Builder of [ExtendedLineMethod]; a random number generator must be given.
pub struct ExtendedLineMethodBuilder {
    config_builder: CommonMethodConfigBuilder,
    character_set: CharacterSetType,
    pivot: usize,
    variant: Variant,
}

/// The error of building a method without a random number generator.
#[derive(Debug, PartialEq, Eq, Structural, Clone, Copy)]
pub struct BuilderError;

impl BuilderError {
    /// The message describing the error.
    pub fn message(&self) -> (res: &'static str)
        ensures
            res@ == "Couldn't finish building ExtendedLineMethod: `rng` must be initialized"@,
    {
        "Couldn't finish building ExtendedLineMethod: `rng` must be initialized"
    }
}

impl ExtendedLineMethodBuilder {
    pub closed spec fn pivot_of(&self) -> usize {
        self.pivot
    }

    pub closed spec fn set_of(&self) -> CharacterSetType {
        self.character_set
    }

    pub closed spec fn variant_of(&self) -> Variant {
        self.variant
    }

    pub closed spec fn has_rng(&self) -> bool {
        self.config_builder.has_rng()
    }

    /// A builder with the default pivot, the one-bit character set, the first variant and
    /// no random number generator.
    pub fn new() -> (res: Self)
        ensures
            res.pivot_of() == DEFAULT_PIVOT,
            res.set_of() == CharacterSetType::OneBit,
            res.variant_of() == Variant::V1,
            !res.has_rng(),
    {
        ExtendedLineMethodBuilder {
            config_builder: CommonMethodConfig::builder(),
            character_set: CharacterSetType::OneBit,
            pivot: DEFAULT_PIVOT,
            variant: Variant::V1,
        }
    }

    /// Sets the random number generator of the method.
    pub fn with_rng<T: RngCore + 'static>(self, rng: T) -> (res: Self)
        ensures
            res.pivot_of() == self.pivot_of(),
            res.set_of() == self.set_of(),
            res.variant_of() == self.variant_of(),
            res.has_rng(),
    {
        let mut builder = self;
        builder.config_builder = builder.config_builder.with_rng(rng);
        builder
    }

    /// Sets the character set of the Trailing Whitespace submethod; larger sets hide more
    /// bits per line, 5 at most.
    pub fn with_trailing_charset(self, character_set: CharacterSetType) -> (res: Self)
        ensures
            res.pivot_of() == self.pivot_of(),
            res.set_of() == character_set,
            res.variant_of() == self.variant_of(),
            res.has_rng() == self.has_rng(),
    {
        let mut builder = self;
        builder.character_set = character_set;
        builder
    }

    /// Sets the variant of the method.
    pub fn with_variant(self, variant: Variant) -> (res: Self)
        ensures
            res.pivot_of() == self.pivot_of(),
            res.set_of() == self.set_of(),
            res.variant_of() == variant,
            res.has_rng() == self.has_rng(),
    {
        let mut builder = self;
        builder.variant = variant;
        builder
    }

    /// Sets the pivot.
    pub fn with_pivot(self, pivot: usize) -> (res: Self)
        ensures
            res.pivot_of() == pivot,
            res.set_of() == self.set_of(),
            res.variant_of() == self.variant_of(),
            res.has_rng() == self.has_rng(),
    {
        let mut builder = self;
        builder.pivot = pivot;
        builder
    }

    /// Constructs the method; fails when no random number generator was given.
    pub fn build(self) -> (res: Result<ExtendedLineMethod, BuilderError>)
        ensures
            res is Ok <==> self.has_rng(),
            res matches Ok(m) ==> m.setup() == (ElSetup {
                pivot: self.pivot_of() as nat,
                set: self.set_of().charset(),
                sep: separator_chars(DEFAULT_LINE_SEPARATOR),
                acts: variant_actions(self.variant_of()),
            }),
    {
        let config = match self.config_builder.build() {
            Ok(c) => c,
            Err(_) => {
                return Err(BuilderError);
            },
        };
        Ok(ExtendedLineMethod {
            variant: self.variant,
            config,
            rw_submethod: RandomWhitespaceMethod::new(),
            tw_submethod: TrailingWhitespaceMethod::new(self.character_set),
            le_submethod: LineExtendMethod::new(self.pivot),
        })
    }
}

impl Default for ExtendedLineMethodBuilder {
    fn default() -> (res: Self)
        ensures
            res.pivot_of() == DEFAULT_PIVOT,
            res.set_of() == CharacterSetType::OneBit,
            res.variant_of() == Variant::V1,
            !res.has_rng(),
    {
        ExtendedLineMethodBuilder::new()
    }
}

/// The main structure describing internal state for the Extended Line method.
pub struct ExtendedLineMethod {
    variant: Variant,
    config: CommonMethodConfig,
    rw_submethod: RandomWhitespaceMethod,
    tw_submethod: TrailingWhitespaceMethod,
    le_submethod: LineExtendMethod,
}

impl ExtendedLineMethod {
    /// What the method hides and reveals with.
    pub closed spec fn setup(&self) -> ElSetup {
        ElSetup {
            pivot: self.le_submethod.pivot_of() as nat,
            set: self.tw_submethod.set_of().charset(),
            sep: self.rw_submethod.separator_of(),
            acts: variant_actions(self.variant),
        }
    }

    /// A builder for the method.
    pub fn builder() -> (res: ExtendedLineMethodBuilder)
        ensures
            res.pivot_of() == DEFAULT_PIVOT,
            res.set_of() == CharacterSetType::OneBit,
            res.variant_of() == Variant::V1,
            !res.has_rng(),
    {
        ExtendedLineMethodBuilder::default()
    }

    /// The subscribers to the progress of the method, in order of subscription.
    pub closed spec fn subscribers_of(&self) -> Seq<Subscriber<MethodProgressStatus>> {
        self.config.notifier.subscribers_of()
    }

    /// The progress events the method has sent, in order.
    pub closed spec fn events_of(&self) -> Seq<MethodProgressStatus> {
        self.config.notifier.events_of()
    }

    /// Subscribes an observer to the progress of the method.
    pub fn subscribe(&mut self, subscriber: Arc<RefCell<dyn Observer<MethodProgressStatus>>>)
        ensures
            final(self).setup() == old(self).setup(),
            final(self).subscribers_of().len() == old(self).subscribers_of().len() + 1,
            final(self).subscribers_of().take(old(self).subscribers_of().len() as int)
                == old(self).subscribers_of(),
            final(self).events_of() == old(self).events_of(),
    {
        self.config.notifier.add_subscriber(&subscriber);
    }

    /// Sends `event` to the subscribers whose observers are alive; the others are dropped.
    fn notify(&mut self, event: &MethodProgressStatus)
        ensures
            final(self).setup() == old(self).setup(),
            final(self).events_of() == old(self).events_of().push(*event),
            kept_in_order(old(self).subscribers_of(), final(self).subscribers_of()),
    {
        self.config.notifier.notify(event);
    }

    /// Applies the submethods from the `i`-th on to `line`, stopping after the first that
    /// does not succeed.
    fn chain_conceal(
        &mut self,
        i: usize,
        pivot_line_length: usize,
        before: usize,
        words: &mut CoverWords,
        data: &mut BitIterator,
        line: &mut String,
    ) -> (res: Result<MethodResult, ConcealError>)
        requires
            i <= 3,
            old(line)@.len() > 0,
            byte_len(old(line)@) <= isize::MAX,
            before <= isize::MAX,
        ensures
            final(self).setup() == old(self).setup(),
            final(data).source() == old(data).source(),
            final(words).rest().len() <= old(words).rest().len(),
            el_chain(
                old(self).setup(),
                pivot_line_length as nat,
                before as nat,
                i as int,
                ElState { line: old(line)@, words: old(words).rest(), bits: old(data).remaining() },
                ElState { line: final(line)@, words: final(words).rest(), bits: final(data).remaining() },
                view_res(res),
            ),
            res is Ok ==> byte_len(final(line)@) <= isize::MAX && final(line)@.len() > 0,
            reports_written(old(self).events_of(), final(self).events_of()),
            progress_reported(
                written_since(old(self).events_of(), final(self).events_of()),
                old(data).remaining().len(),
                final(data).remaining().len(),
                tu_rate(old(self).setup().set.len()),
                view_res(res),
            ),
        decreases 3 - i,
    {
        proof {
            lemma_reports_none(self.events_of());
        }
        if i >= 3 {
            return Ok(MethodResult::Success);
        }
        let ghost m = self.setup();
        let ghost e0 = self.events_of();
        let ghost n0 = data.remaining().len();
        let ghost s = ElState { line: line@, words: words.rest(), bits: data.remaining() };
        let actions = get_variant_methods(self.variant);
        let ghost rate = tu_rate(m.set.len());
        proof {
            lemma_charset_shape(self.tw_submethod.set_of());
        }
        let r = match actions[i] {
            MethodActions::LineExtend => {
                let r = self.le_submethod.conceal_in_extended_line(
                    pivot_line_length,
                    words,
                    data,
                    line,
                    &mut self.config,
                );
                assert(step_reported(e0, self.events_of(), n0, data.remaining().len(), rate, view_res(r)));
                r
            },
            MethodActions::RandomASCIIWhitespace => {
                let r = self.rw_submethod.conceal_in_random_whitespace(
                    data,
                    line,
                    before,
                    &mut self.config,
                );
                assert(step_reported(e0, self.events_of(), n0, data.remaining().len(), rate, view_res(r)));
                r
            },
            MethodActions::TrailingASCIIWhitespace => {
                let r = Ok(self.tw_submethod.conceal_in_trailing_whitespace(data, line, &mut self.config));
                assert(step_reported(e0, self.events_of(), n0, data.remaining().len(), rate, view_res(r)));
                r
            },
        };
        let ghost mid = ElState { line: line@, words: words.rest(), bits: data.remaining() };
        proof {
            if actions@[i as int] == MethodActions::RandomASCIIWhitespace {
                lemma_rw_step_words(m.sep, before as nat, s, mid, view_res(r), s.words);
            }
            assert(el_step(m, pivot_line_length as nat, before as nat, m.acts[i as int], s, mid, view_res(r)));
        }
        let ghost e1 = self.events_of();
        let ghost n1 = data.remaining().len();
        proof {
            lemma_step_reported(e0, e1, n0, n1, rate, view_res(r));
        }
        match r {
            Ok(MethodResult::Success) => {
                let res = self.chain_conceal(i + 1, pivot_line_length, before, words, data, line);
                proof {
                    let after = ElState { line: line@, words: words.rest(), bits: data.remaining() };
                    assert(el_chain(m, pivot_line_length as nat, before as nat, i + 1, mid, after, view_res(res)));
                    lemma_reports_chain(e0, e1, self.events_of());
                }
                res
            },
            _ => r,
        }
    }

    /// Builds the next line from the cover words into `line` and hides bits in it with
    /// the submethods. When no line can be built, the bits left are drained from `data`
    /// and their number goes into the error.
    fn partial_conceal(
        &mut self,
        words: &mut CoverWords,
        data: &mut BitIterator,
        before: usize,
        line: &mut String,
    ) -> (res: Result<MethodResult, ConcealError>)
        requires
            before <= isize::MAX,
        ensures
            final(self).setup() == old(self).setup(),
            final(data).source() == old(data).source(),
            conceal_line(
                old(self).setup(),
                old(words).rest(),
                old(data).remaining(),
                before as nat,
                ElState { line: final(line)@, words: final(words).rest(), bits: final(data).remaining() },
                view_res(res),
            ),
            res is Ok ==> byte_len(final(line)@) <= isize::MAX && final(words).rest().len() < old(
                words,
            ).rest().len(),
            reports_written(old(self).events_of(), final(self).events_of()),
            progress_reported(
                written_since(old(self).events_of(), final(self).events_of()),
                old(data).remaining().len(),
                final(data).remaining().len(),
                tu_rate(old(self).setup().set.len()),
                view_res(res),
            ),
    {
        let ghost m = self.setup();
        let ghost ws = words.rest();
        let pivot = self.le_submethod.get_pivot();
        let pivot_line = self.le_submethod.construct_pivot_line(words);
        proof {
            lemma_reports_none(self.events_of());
        }
        if pivot_line.as_str().is_empty() {
            let remaining_data_size = data.drain();
            return Err(ConcealError::no_cover_words_left(remaining_data_size, pivot));
        }
        let pivot_line_length = graphemes_length(pivot_line.as_str());
        *line = pivot_line;
        proof {
            lemma_pivot_line_from_bounds(ws, m.pivot, 0, 0);
        }
        self.chain_conceal(0, pivot_line_length, before, words, data, line)
    }

    /// Hides the bits of `data` in `cover`: lines are built from the cover words around
    /// the pivot and the submethods hide bits in each, until no bit is left; the rest of
    /// the cover is then laid out in lines. Fails when a cover word is longer than the
    /// pivot (leaving `data` untouched), when the cover runs out of words, or when a line
    /// has too few words. The observers are told of each bit hidden as it is written
    /// (but for a last Trailing Whitespace character holding fewer bits than the rate),
    /// and of the end of a successful hiding.
    pub fn try_conceal(&mut self, cover: &str, data: &mut BitIterator) -> (res: Result<String, ConcealError>)
        ensures
            final(self).setup() == old(self).setup(),
            match first_long_word(words_of(cover@), old(self).setup().pivot) {
                Some(w) => res is Err && res->Err_0.view_of() == ConcealErrorView::PivotTooSmall(
                    w,
                    old(self).setup().pivot,
                ) && *final(data) == *old(data),
                None => conceal_rel(old(self).setup(), words_of(cover@), old(data).remaining(), 0, text_res(res)),
            },
            res is Ok ==> ({
                let ev = final(self).events_of();
                let w = written_since(old(self).events_of(), ev.drop_last());
                &&& ev.len() > 0
                &&& ev.last() == MethodProgressStatus::Finished
                &&& reports_written(old(self).events_of(), ev.drop_last())
                &&& w <= old(data).remaining().len() < w + tu_rate(old(self).setup().set.len())
            }),
            res is Err ==> reports_written(old(self).events_of(), final(self).events_of()) && written_since(
                old(self).events_of(),
                final(self).events_of(),
            ) <= old(data).remaining().len(),
    {
        let ghost m = self.setup();
        let ghost ev0 = self.events_of();
        proof {
            lemma_reports_none(ev0);
            lemma_charset_shape(self.tw_submethod.set_of());
        }
        match self.le_submethod.verify_pivot(cover) {
            Err(e) => {
                return Err(e);
            },
            Ok(()) => {},
        }
        // Words from `split_whitespace` hold no whitespace, so none is filtered out here.
        proof {
            crate::chars::lemma_words_of_shape(cover@);
        }
        let words = keep_words_without_whitespace(split_whitespace(cover));
        let mut cursor = CoverWords::new(words);
        let ghost ws0 = cursor.rest();
        let ghost bits0 = data.remaining();
        let mut result = String::new();
        let mut result_bytes: usize = 0;
        assert(forall|o: Result<Seq<char>, ConcealErrorView>| prepend_text(Seq::<char>::empty(), o) == o) by {
            assert forall|o: Result<Seq<char>, ConcealErrorView>| prepend_text(Seq::<char>::empty(), o) == o by {
                if let Ok(t) = o {
                    assert(Seq::<char>::empty() + t =~= t);
                }
            }
        }
        loop
            invariant
                self.setup() == m,
                m == old(self).setup(),
                first_long_word(words_of(cover@), m.pivot) is None,
                ws0 == words_of(cover@),
                bits0 == old(data).remaining(),
                data.source() == old(data).source(),
                result_bytes == byte_len(result@),
                result_bytes <= isize::MAX,
                ev0 == old(self).events_of(),
                reports_written(ev0, self.events_of()),
                written_since(ev0, self.events_of()) == bits0.len() - data.remaining().len(),
                forall|o: Result<Seq<char>, ConcealErrorView>|
                    #[trigger] conceal_rel(m, cursor.rest(), data.remaining(), result_bytes as nat, o)
                        ==> conceal_rel(m, ws0, bits0, 0, prepend_text(result@, o)),
            decreases cursor.rest().len(),
        {
            let ghost ws_i = cursor.rest();
            let ghost bits_i = data.remaining();
            let ghost result_i = result@;
            assert(forall|o: Result<Seq<char>, ConcealErrorView>|
                #[trigger] conceal_rel(m, ws_i, bits_i, result_bytes as nat, o) ==> conceal_rel(
                    m,
                    ws0,
                    bits0,
                    0,
                    prepend_text(result_i, o),
                ));
            let mut line = String::new();
            let ghost ev_i = self.events_of();
            let r = self.partial_conceal(&mut cursor, data, result_bytes, &mut line);
            proof {
                lemma_reports_chain(ev0, ev_i, self.events_of());
            }
            let ghost after = ElState { line: line@, words: cursor.rest(), bits: data.remaining() };
            match r {
                Err(e) => {
                    proof {
                        let o = Err::<Seq<char>, ConcealErrorView>(e.view_of());
                        assert(conceal_line(m, ws_i, bits_i, result_bytes as nat, after, view_res(r)));
                        assert(conceal_rel(m, ws_i, bits_i, result_bytes as nat, o));
                        assert(prepend_text(result_i, o) == o);
                    }
                    return Err(e);
                },
                Ok(MethodResult::NoDataLeft) => {
                    push_str(&mut result, line.as_str());
                    let ghost first = result@;
                    let ghost ev_line = self.events_of();
                    assert(first == result_i + after.line);
                    loop
                        invariant_except_break
                            result@ + trailing_lines(cursor.rest(), m.pivot) == first + trailing_lines(
                                after.words,
                                m.pivot,
                            ),
                        invariant
                            self.setup() == m,
                            self.events_of() == ev_line,
                        ensures
                            self.setup() == m,
                            self.events_of() == ev_line,
                            result@ == first + trailing_lines(after.words, m.pivot),
                        decreases cursor.rest().len(),
                    {
                        let ghost ws_j = cursor.rest();
                        let ghost result_j = result@;
                        let next_line = self.le_submethod.construct_pivot_line(&mut cursor);
                        if next_line.as_str().is_empty() {
                            assert(trailing_lines(ws_j, m.pivot) =~= Seq::<char>::empty());
                            assert(result@ =~= result@ + trailing_lines(ws_j, m.pivot));
                            break ;
                        }
                        proof {
                            lemma_pivot_line_from_bounds(ws_j, m.pivot, 0, 0);
                        }
                        push_char(&mut result, '\n');
                        push_str(&mut result, next_line.as_str());
                        assert(result@ + trailing_lines(cursor.rest(), m.pivot) =~= result_j
                            + trailing_lines(ws_j, m.pivot));
                    }
                    self.notify(&MethodProgressStatus::Finished);
                    assert(self.events_of().drop_last() == ev_line);
                    proof {
                        let o = Ok::<Seq<char>, ConcealErrorView>(
                            after.line + trailing_lines(after.words, m.pivot),
                        );
                        assert(conceal_line(m, ws_i, bits_i, result_bytes as nat, after, view_res(r)));
                        assert(conceal_rel(m, ws_i, bits_i, result_bytes as nat, o));
                        assert(result@ =~= result_i + (after.line + trailing_lines(after.words, m.pivot)));
                    }
                    return Ok(result);
                },
                Ok(MethodResult::Success) => {
                    let line_bytes = crate::chars::str_byte_len(line.as_str());
                    push_str(&mut result, line.as_str());
                    proof {
                        crate::chars::lemma_byte_len_concat(result_i, line@);
                    }
                    result_bytes = result_bytes + line_bytes;
                    push_char(&mut result, '\n');
                    proof {
                        crate::chars::lemma_byte_len_concat(result_i + line@, seq!['\n']);
                        reveal_with_fuel(byte_len, 2);
                        assert(seq!['\n'].drop_last() =~= Seq::<char>::empty());
                        assert(result@ =~= result_i + line@ + seq!['\n']);
                    }
                    result_bytes = result_bytes + 1;
                    proof {
                        let tail = after.line + seq!['\n'];
                        assert(result@ == result_i + tail);
                        assert forall|o: Result<Seq<char>, ConcealErrorView>|
                            #[trigger] conceal_rel(m, cursor.rest(), data.remaining(), result_bytes as nat, o)
                                implies conceal_rel(m, ws0, bits0, 0, prepend_text(result@, o)) by {
                            lemma_conceal_rel_success(m, ws_i, bits_i, result_i, after, o);
                            if let Ok(t) = o {
                                assert(result_i + (tail + t) =~= result@ + t);
                            }
                        }
                    }
                },
            }
        }
    }

    /// Reads the bits hidden in one line, in the order of the submethods.
    fn partial_reveal(&mut self, line: &str) -> (res: Vec<Bit>)
        requires
            reveal_ok(old(self).setup(), 3, line@),
        ensures
            final(self).setup() == old(self).setup(),
            bit_values(res@) == reveal_line(old(self).setup(), line@),
    {
        let ghost m = self.setup();
        let actions = get_variant_methods(self.variant);
        let mut current_line = crate::chars::string_of(&chars_of(line));
        let mut gathered: Vec<Bit> = Vec::new();
        let mut i: usize = 3;
        assert(bit_values(gathered@) + el_reveal_from(m, 3, current_line@) =~= el_reveal_from(m, 3, line@));
        while i > 0
            invariant
                i <= 3,
                self.setup() == m,
                m.acts.len() == 3,
                actions@ == m.acts,
                reveal_ok(m, i as int, current_line@),
                bit_values(gathered@) + el_reveal_from(m, i as int, current_line@) == el_reveal_from(
                    m,
                    3,
                    line@,
                ),
            decreases i,
        {
            i -= 1;
            let ghost before_bits = bit_values(gathered@);
            let ghost before_line = current_line@;
            match actions[i] {
                MethodActions::LineExtend => {
                    let b = self.le_submethod.reveal_in_extended_line(current_line.as_str());
                    gathered.push(Bit(b));
                    assert(bit_values(gathered@) =~= before_bits + seq![b]);
                },
                MethodActions::RandomASCIIWhitespace => {
                    let b = self.rw_submethod.reveal_in_random_whitespace(&mut current_line);
                    gathered.push(Bit(b));
                    assert(bit_values(gathered@) =~= before_bits + seq![b]);
                },
                MethodActions::TrailingASCIIWhitespace => {
                    let mut bits = self.tw_submethod.reveal_in_trailing_whitespace(&mut current_line);
                    let ghost read = bit_values(bits@);
                    gathered.append(&mut bits);
                    assert(bit_values(gathered@) =~= before_bits + read);
                },
            }
            assert(bit_values(gathered@) + el_reveal_from(m, i as int, current_line@) =~= before_bits
                + el_reveal_from(m, i as int + 1, before_line));
        }
        let mut res: Vec<Bit> = Vec::new();
        let mut j: usize = gathered.len();
        assert(bit_values(gathered@).skip(gathered@.len() as int).reverse() =~= Seq::<u8>::empty());
        while j > 0
            invariant
                j <= gathered.len(),
                bit_values(res@) == bit_values(gathered@).skip(j as int).reverse(),
            decreases j,
        {
            j -= 1;
            let ghost before_res = bit_values(res@);
            res.push(gathered[j]);
            let ghost x = gathered@[j as int].0;
            let ghost t = bit_values(gathered@).skip(j as int + 1);
            assert(bit_values(gathered@).skip(j as int) =~= seq![x] + t);
            assert((seq![x] + t).reverse() =~= t.reverse().push(x));
            assert(bit_values(res@) =~= before_res.push(x));
        }
        assert(bit_values(gathered@).skip(0) =~= bit_values(gathered@));
        assert(el_reveal_from(m, 3, line@) =~= bit_values(gathered@));
        res
    }

    /// Reads the bits hidden in `stego_text`, line after line. Every line, as the
    /// submethods leave it, must hold a word where Line Extension reads it.
    pub fn try_reveal(&mut self, stego_text: &str) -> (res: Result<BitVec, ConcealError>)
        requires
            forall|i: int|
                0 <= i < segments(stego_text@).len() ==> reveal_ok(
                    old(self).setup(),
                    3,
                    #[trigger] segments(stego_text@)[i],
                ),
        ensures
            final(self).setup() == old(self).setup(),
            res is Ok,
            res matches Ok(bits) ==> bits@ == reveal_text(old(self).setup(), segments(stego_text@)),
    {
        let ghost m = self.setup();
        let lines = split_newlines(stego_text);
        let ghost ls = views(lines@);
        let mut revealed: Vec<Bit> = Vec::new();
        let mut i: usize = 0;
        assert(ls.take(0) =~= Seq::<Seq<char>>::empty());
        while i < lines.len()
            invariant
                i <= lines.len(),
                self.setup() == m,
                ls == views(lines@),
                ls == segments(stego_text@),
                forall|k: int| 0 <= k < ls.len() ==> reveal_ok(m, 3, #[trigger] ls[k]),
                bit_values(revealed@) == reveal_text(m, ls.take(i as int)),
            decreases lines.len() - i,
        {
            assert(ls[i as int] == lines@[i as int]@);
            let mut bits = self.partial_reveal(lines[i].as_str());
            let ghost before = bit_values(revealed@);
            let ghost read = bit_values(bits@);
            revealed.append(&mut bits);
            assert(ls.take(i as int + 1).drop_last() =~= ls.take(i as int));
            assert(bit_values(revealed@) =~= before + read);
            i += 1;
        }
        assert(ls.take(lines.len() as int) =~= ls);
        Ok(BitVec::new(revealed))
    }

    /// Whether every submethod can read `line`: reading it backwards, a word stands
    /// wherever Line Extension reads.
    fn line_revealable(&self, line: &str) -> (res: bool)
        ensures
            res == reveal_ok(self.setup(), 3, line@),
    {
        let ghost m = self.setup();
        let actions = get_variant_methods(self.variant);
        let mut current_line = crate::chars::string_of(&chars_of(line));
        let mut i: usize = 3;
        while i > 0
            invariant
                i <= 3,
                m == self.setup(),
                m.acts.len() == 3,
                actions@ == m.acts,
                reveal_ok(m, 3, line@) == reveal_ok(m, i as int, current_line@),
            decreases i,
        {
            i -= 1;
            match actions[i] {
                MethodActions::LineExtend => {
                    let words = split_whitespace(current_line.as_str());
                    if words.len() == 0 {
                        assert(words_of(current_line@).len() == 0);
                        return false;
                    }
                },
                MethodActions::RandomASCIIWhitespace => {
                    self.rw_submethod.reveal_in_random_whitespace(&mut current_line);
                },
                MethodActions::TrailingASCIIWhitespace => {
                    self.tw_submethod.reveal_in_trailing_whitespace(&mut current_line);
                },
            }
        }
        true
    }

    /// Reads the bits hidden in `stego_text`, line after line, when every line can be
    /// read; `None` when in some line, as the submethods leave it, no word stands where
    /// Line Extension reads.
    pub fn try_reveal_checked(&mut self, stego_text: &str) -> (res: Option<BitVec>)
        ensures
            final(self).setup() == old(self).setup(),
            res is Some <==> forall|i: int|
                0 <= i < segments(stego_text@).len() ==> reveal_ok(
                    old(self).setup(),
                    3,
                    #[trigger] segments(stego_text@)[i],
                ),
            res matches Some(bits) ==> bits@ == reveal_text(old(self).setup(), segments(stego_text@)),
    {
        let ghost m = self.setup();
        let lines = split_newlines(stego_text);
        let ghost ls = views(lines@);
        let mut i: usize = 0;
        while i < lines.len()
            invariant
                i <= lines.len(),
                self.setup() == m,
                ls == views(lines@),
                ls == segments(stego_text@),
                forall|k: int| 0 <= k < i ==> reveal_ok(m, 3, #[trigger] ls[k]),
            decreases lines.len() - i,
        {
            assert(ls[i as int] == lines@[i as int]@);
            if !self.line_revealable(lines[i].as_str()) {
                assert(!reveal_ok(m, 3, ls[i as int]));
                return None;
            }
            i += 1;
        }
        match self.try_reveal(stego_text) {
            Ok(bits) => Some(bits),
            Err(_) => None,
        }
    }
}

/// One more line that succeeded extends what the rest of the hiding may give.
proof fn lemma_conceal_rel_success(
    m: ElSetup,
    ws: Seq<Seq<char>>,
    bits: Seq<u8>,
    text: Seq<char>,
    after: ElState,
    o: Result<Seq<char>, ConcealErrorView>,
)
    requires
        conceal_line(m, ws, bits, byte_len(text), after, Ok::<MethodResult, ConcealErrorView>(MethodResult::Success)),
        after.words.len() < ws.len(),
        conceal_rel(m, after.words, after.bits, byte_len(text) + byte_len(after.line) + 1, o),
    ensures
        conceal_rel(m, ws, bits, byte_len(text), prepend_text(after.line + seq!['\n'], o)),
{
    let r = Ok::<MethodResult, ConcealErrorView>(MethodResult::Success);
    assert(conceal_line(m, ws, bits, byte_len(text), after, r));
}

/// The words of `ws` that hold no whitespace, in order.
pub open spec fn words_without_whitespace(ws: Seq<Seq<char>>) -> Seq<Seq<char>>
    decreases ws.len(),
{
    if ws.len() == 0 {
        seq![]
    } else if no_white_space(ws.last()) {
        words_without_whitespace(ws.drop_last()).push(ws.last())
    } else {
        words_without_whitespace(ws.drop_last())
    }
}

/// When no word holds whitespace, all words are kept.
pub proof fn lemma_all_words_kept(ws: Seq<Seq<char>>)
    requires
        forall|k: int| 0 <= k < ws.len() ==> no_white_space(#[trigger] ws[k]),
    ensures
        words_without_whitespace(ws) == ws,
    decreases ws.len(),
{
    if ws.len() > 0 {
        let p = ws.drop_last();
        assert forall|k: int| 0 <= k < p.len() implies no_white_space(#[trigger] p[k]) by {
            assert(p[k] == ws[k]);
        }
        lemma_all_words_kept(p);
        assert(no_white_space(ws[ws.len() - 1]));
        assert(p.push(ws.last()) =~= ws);
    }
}

/// Keeps the words that hold no whitespace.
fn keep_words_without_whitespace(words: Vec<String>) -> (res: Vec<String>)
    ensures
        views(res@) == words_without_whitespace(views(words@)),
        (forall|k: int| 0 <= k < views(words@).len() ==> no_white_space(#[trigger] views(words@)[k]))
            ==> views(res@) == views(words@),
{
    let mut kept: Vec<String> = Vec::new();
    let mut i: usize = 0;
    while i < words.len()
        invariant
            i <= words.len(),
            views(kept@) == words_without_whitespace(views(words@).take(i as int)),
        decreases words.len() - i,
    {
        let chars = chars_of(words[i].as_str());
        let ghost before = views(kept@);
        let ghost ws = views(words@);
        assert(ws.take(i as int + 1).drop_last() =~= ws.take(i as int));
        assert(ws.take(i as int + 1).last() == ws[i as int]);
        assert(ws[i as int] == words@[i as int]@);
        assert(no_white_space(chars@) == !crate::ptero_text::extended_line_method::random_whitespace_method::has_white_space(chars@)) by {
            if !no_white_space(chars@) {
                let j = choose|j: int| 0 <= j < chars@.len() && crate::chars::is_white_space(#[trigger] chars@[j]);
                assert(crate::chars::is_white_space(chars@[j]));
            }
        }
        if !crate::ptero_text::extended_line_method::random_whitespace_method::contains_whitespace(&chars) {
            kept.push(crate::chars::string_of(&chars));
            assert(views(kept@) =~= before.push(chars@));
        }
        i += 1;
    }
    assert(views(words@).take(words.len() as int) =~= views(words@));
    proof {
        if forall|k: int| 0 <= k < views(words@).len() ==> no_white_space(#[trigger] views(words@)[k]) {
            lemma_all_words_kept(views(words@));
        }
    }
    kept
}

/// Every variant uses each of the three submethods exactly once: it is a permutation.
pub proof fn lemma_variant_is_permutation(v: Variant)
    ensures
        variant_actions(v).len() == 3,
        forall|i: int, j: int|
            0 <= i < j < 3 ==> #[trigger] variant_actions(v)[i] != #[trigger] variant_actions(v)[j],
{
}

impl<'a> SteganographyMethod<&'a str, ConcealError> for ExtendedLineMethod {
    type ConcealedOutput = String;

    open spec fn can_reveal(&self, cover: &'a str) -> bool {
        forall|i: int|
            0 <= i < segments(cover@).len() ==> reveal_ok(self.setup(), 3, #[trigger] segments(cover@)[i])
    }

    fn try_conceal(&mut self, cover: &'a str, data: &mut BitIterator) -> (res: Result<String, ConcealError>)
        ensures
            final(self).setup() == old(self).setup(),
            match first_long_word(words_of(cover@), old(self).setup().pivot) {
                Some(w) => res is Err && res->Err_0.view_of() == ConcealErrorView::PivotTooSmall(
                    w,
                    old(self).setup().pivot,
                ) && *final(data) == *old(data),
                None => conceal_rel(old(self).setup(), words_of(cover@), old(data).remaining(), 0, text_res(res)),
            },
    {
        ExtendedLineMethod::try_conceal(self, cover, data)
    }

    fn try_reveal(&mut self, cover: &'a str) -> (res: Result<BitVec, ConcealError>)
        ensures
            final(self).setup() == old(self).setup(),
            res is Ok,
            res matches Ok(bits) ==> bits@ == reveal_text(old(self).setup(), segments(cover@)),
    {
        ExtendedLineMethod::try_reveal(self, cover)
    }
}

} // verus!
