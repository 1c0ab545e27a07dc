//! Contexts: the state of the cover text while hiding or revealing data, loaded one
//! fragment (line) at a time.
use vstd::prelude::*;

use crate::chars::{
    byte_len, byte_len_exact, chars_of, lemma_byte_len_concat, push_char, push_str,
    str_byte_len_exact, string_of, trim_end, trim_end_chars,
};
use crate::text::{CoverTextLineIterator, CoverTextWordIterator};

verus! {

/// Context with essential methods for every encoder/decoder.
pub trait Context {
    /// The currently loaded cover text fragment, if any.
    spec fn current(&self) -> Option<Seq<char>>;

    /// Gets the currently loaded cover text fragment.
    fn get_current_text(&self) -> (res: Result<&String, ContextError>)
        ensures
            self.current() is None <==> res is Err,
            res matches Ok(t) ==> self.current() == Some(t@),
            res matches Err(e) ==> e.kind_of() == ContextErrorKind::NoTextLeft,
    ;

    /// Replaces the currently loaded cover text fragment (the write access that
    /// a mutable borrow of it gives).
    fn set_current_text(&mut self, text: String) -> (res: Result<(), ContextError>)
        ensures
            old(self).current() is None <==> res is Err,
            res is Ok ==> final(self).current() == Some(text@),
            res matches Err(e) ==> e.kind_of() == ContextErrorKind::NoTextLeft && final(self).current() is None,
    ;

    /// Loads the next cover text fragment.
    fn load_text(&mut self) -> (res: Result<String, ContextError>)
        ensures
            res matches Ok(t) ==> final(self).current() == Some(t@),
            res is Err ==> final(self).current() is None,
    ;
}

/// Context used by methods requiring pivot.
/// Loads and returns cover text line by line - *not bound by pivot*.
pub struct PivotByRawLineContext {
    pivot: usize,
    cover_text_iter: CoverTextLineIterator,
    current_text: Option<String>,
}

/// Context used by methods requiring pivot.
/// Loads cover text line by line, uses pivot and does not keep the whitespace of the cover.
/// It also exposes the word iterator for purpose of peeking and/or traversing.
pub struct PivotByLineContext {
    pivot: usize,
    cover_text_iter: CoverTextWordIterator,
    current_text: Option<String>,
}

/// The words `ws`, each followed by a single ASCII space.
pub open spec fn spaced_words(ws: Seq<Seq<char>>) -> Seq<char>
    decreases ws.len(),
{
    if ws.len() == 0 {
        seq![]
    } else {
        spaced_words(ws.drop_last()) + ws.last() + seq![' ']
    }
}

/// Whether word `j` of `ws` still fits on the line holding words `0..j` under `pivot`.
pub open spec fn fits_next(ws: Seq<Seq<char>>, pivot: int, j: int) -> bool {
    byte_len(spaced_words(ws.take(j))) + byte_len(ws[j]) <= pivot
}

/// Number of leading words of `ws` that go on one line, counting from `i`.
pub open spec fn fit_count_from(ws: Seq<Seq<char>>, pivot: int, i: int) -> int
    decreases ws.len() - i,
{
    if 0 <= i < ws.len() && fits_next(ws, pivot, i) {
        fit_count_from(ws, pivot, i + 1)
    } else {
        i
    }
}

/// Number of leading words of `ws` that go on one line under `pivot`.
pub open spec fn fit_count(ws: Seq<Seq<char>>, pivot: int) -> int {
    fit_count_from(ws, pivot, 0)
}

/// The line built from the leading words of `ws` under `pivot`: the words that fit,
/// separated by single spaces; the trailing space is kept only when no word is left.
pub open spec fn pivot_line(ws: Seq<Seq<char>>, pivot: int) -> Seq<char> {
    let k = fit_count(ws, pivot);
    let raw = spaced_words(ws.take(k));
    if k == ws.len() {
        raw
    } else {
        trim_end(raw)
    }
}

/// The outcome of loading one line from the words `ws` under `pivot`.
pub open spec fn line_outcome(ws: Seq<Seq<char>>, pivot: int) -> Result<Seq<char>, ContextErrorKind> {
    if ws.len() == 0 {
        Err(ContextErrorKind::NoTextLeft)
    } else if byte_len(ws[0]) > pivot {
        Err(ContextErrorKind::CannotConstructLine)
    } else {
        Ok(pivot_line(ws, pivot))
    }
}

/// Laying out one more word adds the word and a space.
pub proof fn lemma_spaced_step(ws: Seq<Seq<char>>, i: int)
    requires
        0 <= i < ws.len(),
    ensures
        spaced_words(ws.take(i + 1)) == spaced_words(ws.take(i)) + ws[i] + seq![' '],
        byte_len(spaced_words(ws.take(i + 1))) == byte_len(spaced_words(ws.take(i))) + byte_len(
            ws[i],
        ) + 1,
{
    assert(ws.take(i + 1).drop_last() == ws.take(i));
    lemma_byte_len_concat(spaced_words(ws.take(i)), ws[i]);
    lemma_byte_len_concat(spaced_words(ws.take(i)) + ws[i], seq![' ']);
    assert(byte_len(seq![' ']) == 1) by {
        reveal_with_fuel(byte_len, 2);
        assert(seq![' '].drop_last() =~= Seq::<char>::empty());
        assert((' ' as u32) == 32);
    }
}

/// A fitting count never exceeds the number of words and is at least the start.
pub proof fn lemma_fit_count_from_bounds(ws: Seq<Seq<char>>, pivot: int, i: int)
    requires
        0 <= i <= ws.len(),
    ensures
        i <= fit_count_from(ws, pivot, i) <= ws.len(),
    decreases ws.len() - i,
{
    if i < ws.len() && fits_next(ws, pivot, i) {
        lemma_fit_count_from_bounds(ws, pivot, i + 1);
    }
}

/// When a line can be loaded, at least one word goes on it.
pub proof fn lemma_line_outcome_count(ws: Seq<Seq<char>>, pivot: int)
    requires
        line_outcome(ws, pivot) is Ok,
    ensures
        1 <= fit_count(ws, pivot) <= ws.len(),
{
    assert(ws.take(0) =~= Seq::<Seq<char>>::empty());
    assert(fits_next(ws, pivot, 0));
    lemma_fit_count_from_bounds(ws, pivot, 1);
}

impl PivotByRawLineContext {
    /// The pivot.
    pub closed spec fn pivot_of(&self) -> usize {
        self.pivot
    }

    /// The lines not loaded yet.
    pub closed spec fn lines_left(&self) -> Seq<Seq<char>> {
        self.cover_text_iter.remaining()
    }

    pub fn new(cover_text: &str, pivot: usize) -> (res: Self)
        ensures
            res.pivot_of() == pivot,
            res.lines_left() == crate::chars::lines_of(cover_text@),
            res.current() is None,
    {
        PivotByRawLineContext {
            pivot,
            cover_text_iter: CoverTextLineIterator::new(cover_text),
            current_text: None,
        }
    }

    pub fn get_pivot(&self) -> (res: usize)
        ensures
            res == self.pivot_of(),
    {
        self.pivot
    }
}

impl PivotByLineContext {
    /// The pivot.
    pub closed spec fn pivot_of(&self) -> usize {
        self.pivot
    }

    /// The words not consumed yet.
    pub closed spec fn words_left(&self) -> Seq<Seq<char>> {
        self.cover_text_iter.remaining()
    }

    pub fn new(cover_text: &str, pivot: usize) -> (res: Self)
        ensures
            res.pivot_of() == pivot,
            res.words_left() == crate::chars::words_of(cover_text@),
            res.current() is None,
    {
        PivotByLineContext {
            pivot,
            cover_text_iter: CoverTextWordIterator::new(cover_text),
            current_text: None,
        }
    }

    pub fn get_pivot(&self) -> (res: usize)
        ensures
            res == self.pivot_of(),
    {
        self.pivot
    }

    /// Peeks the next word without forwarding the iterator.
    pub fn peek_word(&mut self) -> (res: Option<String>)
        ensures
            *final(self) == *old(self),
            old(self).words_left().len() == 0 ==> res is None,
            old(self).words_left().len() > 0 ==> (res is Some && res->0@ == old(self).words_left()[0]),
    {
        self.cover_text_iter.peek()
    }

    /// Gets the next word and forwards the iterator.
    pub fn next_word(&mut self) -> (res: Option<String>)
        ensures
            final(self).pivot_of() == old(self).pivot_of(),
            final(self).current() == old(self).current(),
            old(self).words_left().len() == 0 ==> res is None && final(self).words_left() == old(self).words_left(),
            old(self).words_left().len() > 0 ==> (res is Some && res->0@ == old(self).words_left()[0] && final(self).words_left() == old(self).words_left().drop_first()),
    {
        self.cover_text_iter.next()
    }

    /// Constructs the line of maximum length determined by the pivot from the words left.
    fn construct_line_by_pivot(&mut self) -> (res: Result<String, ContextError>)
        ensures
            final(self).pivot_of() == old(self).pivot_of(),
            final(self).current() == old(self).current(),
            ({
                let ws = old(self).words_left();
                let p = old(self).pivot_of() as int;
                match line_outcome(ws, p) {
                    Ok(line) => res is Ok && res->Ok_0@ == line && final(self).words_left()
                        == ws.skip(fit_count(ws, p)),
                    Err(kind) => res is Err && res->Err_0.kind_of() == kind && final(self).words_left() == ws,
                }
            }),
    {
        let ghost ws = self.words_left();
        let ghost p = self.pivot as int;
        let first = match self.cover_text_iter.peek() {
            Some(w) => w,
            None => {
                return Err(ContextError::new(ContextErrorKind::NoTextLeft));
            },
        };
        let first_len = str_byte_len_exact(first.as_str());
        if first_len > self.pivot as u128 {
            return Err(ContextError::new(ContextErrorKind::CannotConstructLine));
        }
        let mut word = first;
        let mut line = String::new();
        let mut used: u128 = 0;
        let ghost mut i: int = 0;
        assert(ws.take(0) =~= Seq::<Seq<char>>::empty());
        loop
            invariant
                0 <= i < ws.len(),
                ws == old(self).words_left(),
                p == old(self).pivot_of() as int,
                self.pivot as int == p,
                byte_len(ws[0]) <= p,
                self.current() == old(self).current(),
                self.words_left() == ws.skip(i),
                word@ == ws[i],
                line@ == spaced_words(ws.take(i)),
                used == byte_len(line@),
                used <= p + 1,
                fit_count_from(ws, p, 0) == fit_count_from(ws, p, i),
            ensures
                0 <= i < ws.len(),
                self.pivot as int == p,
                self.current() == old(self).current(),
                self.words_left() == ws.skip(i),
                line@ == spaced_words(ws.take(i)),
                fit_count_from(ws, p, 0) == fit_count_from(ws, p, i),
                !fits_next(ws, p, i),
            decreases ws.len() - i,
        {
            let word_len = str_byte_len_exact(word.as_str());
            if word_len > self.pivot as u128 || used > self.pivot as u128 - word_len {
                break;
            }
            proof {
                lemma_spaced_step(ws, i);
            }
            push_str(&mut line, word.as_str());
            push_char(&mut line, ' ');
            assert(line@ =~= spaced_words(ws.take(i + 1)));
            used = used + word_len + 1;
            self.cover_text_iter.next();
            assert(ws.skip(i).drop_first() =~= ws.skip(i + 1));
            proof {
                i = i + 1;
            }
            match self.cover_text_iter.peek() {
                Some(w) => {
                    word = w;
                },
                None => {
                    proof {
                        lemma_fit_count_from_bounds(ws, p, i);
                    }
                    return Ok(line);
                },
            }
        }
        proof {
            lemma_fit_count_from_bounds(ws, p, i);
            assert(!fits_next(ws, p, i));
            assert(fit_count(ws, p) == i);
            assert(line_outcome(ws, p) == Ok::<Seq<char>, ContextErrorKind>(trim_end(line@)));
        }
        let chars = chars_of(line.as_str());
        let trimmed = trim_end_chars(chars);
        Ok(string_of(&trimmed))
    }
}

impl Context for PivotByLineContext {
    closed spec fn current(&self) -> Option<Seq<char>> {
        match self.current_text {
            Some(t) => Some(t@),
            None => None,
        }
    }

    fn get_current_text(&self) -> (res: Result<&String, ContextError>) {
        match &self.current_text {
            Some(t) => Ok(t),
            None => Err(ContextError::new(ContextErrorKind::NoTextLeft)),
        }
    }

    fn set_current_text(&mut self, text: String) -> (res: Result<(), ContextError>)
        ensures
            final(self).pivot_of() == old(self).pivot_of(),
            final(self).words_left() == old(self).words_left(),
    {
        if self.current_text.is_some() {
            self.current_text = Some(text);
            Ok(())
        } else {
            Err(ContextError::new(ContextErrorKind::NoTextLeft))
        }
    }

    /// Loads the line considering the pivot; its length is at most the pivot.
    /// Original whitespace is not preserved: words are delimited by single ASCII spaces.
    fn load_text(&mut self) -> (res: Result<String, ContextError>)
        ensures
            final(self).pivot_of() == old(self).pivot_of(),
            ({
                let ws = old(self).words_left();
                let p = old(self).pivot_of() as int;
                match line_outcome(ws, p) {
                    Ok(line) => res is Ok && res->Ok_0@ == line && final(self).current() == Some(
                        line,
                    ) && final(self).words_left() == ws.skip(fit_count(ws, p)),
                    Err(kind) => res is Err && res->Err_0.kind_of() == kind && final(self).current() is None && final(self).words_left() == ws,
                }
            }),
    {
        match self.construct_line_by_pivot() {
            Ok(line) => {
                let copy = crate::chars::copy_string(&line);
                self.current_text = Some(line);
                Ok(copy)
            },
            Err(e) => {
                self.current_text = None;
                Err(e)
            },
        }
    }
}

impl Context for PivotByRawLineContext {
    closed spec fn current(&self) -> Option<Seq<char>> {
        match self.current_text {
            Some(t) => Some(t@),
            None => None,
        }
    }

    fn get_current_text(&self) -> (res: Result<&String, ContextError>) {
        match &self.current_text {
            Some(t) => Ok(t),
            None => Err(ContextError::new(ContextErrorKind::NoTextLeft)),
        }
    }

    fn set_current_text(&mut self, text: String) -> (res: Result<(), ContextError>)
        ensures
            final(self).pivot_of() == old(self).pivot_of(),
            final(self).lines_left() == old(self).lines_left(),
    {
        if self.current_text.is_some() {
            self.current_text = Some(text);
            Ok(())
        } else {
            Err(ContextError::new(ContextErrorKind::NoTextLeft))
        }
    }

    /// Loads the next raw line, preserving its whitespace.
    fn load_text(&mut self) -> (res: Result<String, ContextError>)
        ensures
            final(self).pivot_of() == old(self).pivot_of(),
            old(self).lines_left().len() == 0 ==> res is Err && res->Err_0.kind_of()
                == ContextErrorKind::NoTextLeft && final(self).current() is None && final(self).lines_left() == old(self).lines_left(),
            old(self).lines_left().len() > 0 ==> res is Ok && res->Ok_0@ == old(self).lines_left()[0] && final(self).current() == Some(old(self).lines_left()[0]) && final(self).lines_left() == old(self).lines_left().drop_first(),
    {
        match self.cover_text_iter.next() {
            Some(line) => {
                let copy = crate::chars::copy_string(&line);
                self.current_text = Some(line);
                Ok(copy)
            },
            None => {
                self.current_text = None;
                Err(ContextError::new(ContextErrorKind::NoTextLeft))
            },
        }
    }
}

/// Enum determining the exact context error.
#[derive(Debug, Clone, Copy, PartialEq, Eq, Structural)]
pub enum ContextErrorKind {
    /// No cover text is left to load.
    NoTextLeft,
    /// A line cannot be constructed: the next word is longer than the pivot.
    CannotConstructLine,
}

/// Error implementation for [Context]. Exact error message is determined by [ContextErrorKind].
#[derive(Debug)]
pub struct ContextError {
    kind: ContextErrorKind,
}

impl ContextError {
    /// The kind of the error.
    pub closed spec fn kind_of(&self) -> ContextErrorKind {
        self.kind
    }

    pub fn new(kind: ContextErrorKind) -> (res: Self)
        ensures
            res.kind_of() == kind,
    {
        ContextError { kind }
    }

    /// The kind of the error.
    pub fn kind(&self) -> (res: ContextErrorKind)
        ensures
            res == self.kind_of(),
    {
        self.kind
    }

    /// The message describing the error.
    pub fn message(&self) -> (res: &'static str)
        ensures
            res@ == match self.kind_of() {
                ContextErrorKind::NoTextLeft => "No cover text left."@,
                ContextErrorKind::CannotConstructLine => "Pivot is too small to construct a line."@,
            },
    {
        match self.kind {
            ContextErrorKind::NoTextLeft => "No cover text left.",
            ContextErrorKind::CannotConstructLine => "Pivot is too small to construct a line.",
        }
    }
}

/// Every word before the fitting count fits.
pub proof fn lemma_fit_count_from_fits(ws: Seq<Seq<char>>, pivot: int, i: int, j: int)
    requires
        0 <= i <= j < fit_count_from(ws, pivot, i),
    ensures
        fits_next(ws, pivot, j),
    decreases ws.len() - i,
{
    if 0 <= i < ws.len() && fits_next(ws, pivot, i) {
        if j > i {
            lemma_fit_count_from_fits(ws, pivot, i + 1, j);
        }
    }
}

/// A loaded line stays within the pivot: built from words without whitespace, the line
/// is at most `pivot` bytes long when words are left after it; when it takes the last
/// words it keeps its trailing space and is at most one byte longer.
pub proof fn lemma_loaded_line_within_pivot(ws: Seq<Seq<char>>, pivot: int)
    requires
        forall|k: int| 0 <= k < ws.len() ==> (#[trigger] ws[k]).len() > 0 && crate::chars::no_white_space(ws[k]),
        line_outcome(ws, pivot) is Ok,
    ensures
        byte_len(line_outcome(ws, pivot)->Ok_0) <= pivot + 1,
        fit_count(ws, pivot) < ws.len() ==> byte_len(line_outcome(ws, pivot)->Ok_0) <= pivot,
{
    lemma_line_outcome_count(ws, pivot);
    let k = fit_count(ws, pivot);
    lemma_fit_count_from_fits(ws, pivot, 0, k - 1);
    lemma_spaced_step(ws, k - 1);
    let x = spaced_words(ws.take(k - 1)) + ws[k - 1];
    assert(spaced_words(ws.take(k)) == x + seq![' ']);
    lemma_byte_len_concat(spaced_words(ws.take(k - 1)), ws[k - 1]);
    assert((x + seq![' ']).drop_last() =~= x);
    assert(x.last() == ws[k - 1].last());
    assert(!crate::chars::is_white_space(x.last()));
    assert(trim_end(x) == x);
    assert((' ' as u32) == 0x20);
    assert(crate::chars::is_white_space(' '));
    assert(trim_end(x + seq![' ']) == x);
}

} // verus!
