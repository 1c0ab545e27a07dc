//! Cover text iterators: word by word (with peeking) and line by line.
use vstd::prelude::*;

use crate::chars::{copy_string, lines_of, split_lines, split_whitespace, views, words_of};

verus! {

/// Cover text iterator which traverses the text word by word.
/// It also enables the user to peek the word without forwarding the iterator.
#[derive(Debug)]
pub struct CoverTextWordIterator {
    words: Vec<String>,
    word_index: usize,
}

/// Cover text iterator which traverses the text line by line.
#[derive(Debug)]
pub struct CoverTextLineIterator {
    lines: Vec<String>,
    line_index: usize,
}

impl CoverTextWordIterator {
    #[verifier::type_invariant]
    spec fn well_formed(&self) -> bool {
        self.word_index <= self.words@.len()
    }

    /// The words still to be yielded.
    pub closed spec fn remaining(&self) -> Seq<Seq<char>> {
        views(self.words@).skip(self.word_index as int)
    }

    /// Creates an iterator over the whitespace-separated words of `cover_text`.
    pub fn new(cover_text: &str) -> (res: Self)
        ensures
            res.remaining() == words_of(cover_text@),
    {
        let words = split_whitespace(cover_text);
        let res = CoverTextWordIterator { words, word_index: 0 };
        assert(views(res.words@).skip(0) == views(res.words@));
        res
    }

    /// The next word, without forwarding the iterator.
    pub fn peek(&self) -> (res: Option<String>)
        ensures
            self.remaining().len() == 0 ==> res is None,
            self.remaining().len() > 0 ==> (res is Some && res->0@ == self.remaining()[0]),
    {
        proof {
            use_type_invariant(self);
        }
        if self.word_index < self.words.len() {
            Some(copy_string(&self.words[self.word_index]))
        } else {
            None
        }
    }

    /// The next word; forwards the iterator.
    pub fn next(&mut self) -> (res: Option<String>)
        ensures
            old(self).remaining().len() == 0 ==> res is None && final(self).remaining() == old(self).remaining(),
            old(self).remaining().len() > 0 ==> (res is Some && res->0@ == old(self).remaining()[0]
                && final(self).remaining() == old(self).remaining().drop_first()),
    {
        proof {
            use_type_invariant(&*self);
        }
        if self.word_index < self.words.len() {
            let word = copy_string(&self.words[self.word_index]);
            self.word_index = self.word_index + 1;
            assert(views(self.words@).skip(self.word_index as int) =~= views(
                self.words@,
            ).skip(self.word_index - 1).drop_first());
            Some(word)
        } else {
            None
        }
    }
}

impl CoverTextLineIterator {
    #[verifier::type_invariant]
    spec fn well_formed(&self) -> bool {
        self.line_index <= self.lines@.len()
    }

    /// The lines still to be yielded.
    pub closed spec fn remaining(&self) -> Seq<Seq<char>> {
        views(self.lines@).skip(self.line_index as int)
    }

    /// Creates an iterator over the lines of `cover_text`.
    pub fn new(cover_text: &str) -> (res: Self)
        ensures
            res.remaining() == lines_of(cover_text@),
    {
        let lines = split_lines(cover_text);
        let res = CoverTextLineIterator { lines, line_index: 0 };
        assert(views(res.lines@).skip(0) == views(res.lines@));
        res
    }

    /// The next line; forwards the iterator.
    pub fn next(&mut self) -> (res: Option<String>)
        ensures
            old(self).remaining().len() == 0 ==> res is None && final(self).remaining() == old(self).remaining(),
            old(self).remaining().len() > 0 ==> (res is Some && res->0@ == old(self).remaining()[0]
                && final(self).remaining() == old(self).remaining().drop_first()),
    {
        proof {
            use_type_invariant(&*self);
        }
        if self.line_index < self.lines.len() {
            let line = copy_string(&self.lines[self.line_index]);
            self.line_index = self.line_index + 1;
            assert(views(self.lines@).skip(self.line_index as int) =~= views(
                self.lines@,
            ).skip(self.line_index - 1).drop_first());
            Some(line)
        } else {
            None
        }
    }
}

} // verus!
