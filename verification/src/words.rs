//! A text kept for iterating over its words.
use vstd::prelude::*;

use crate::chars::{copy_string, split_whitespace, views, words_of};

verus! {

/// A text, to iterate over its whitespace-separated words.
#[derive(Debug)]
pub struct WordIterator {
    raw_text: String,
}

impl WordIterator {
    /// The text.
    pub closed spec fn text(&self) -> Seq<char> {
        self.raw_text@
    }

    /// Keeps a copy of `text`.
    pub fn new(text: &str) -> (res: WordIterator)
        ensures
            res.text() == text@,
    {
        let v = crate::chars::chars_of(text);
        WordIterator { raw_text: crate::chars::string_of(&v) }
    }

    /// The words of the text, in order (`str::split_whitespace`).
    pub fn iter(&self) -> (res: Vec<String>)
        ensures
            views(res@) == words_of(self.text()),
    {
        split_whitespace(self.raw_text.as_str())
    }
}

} // verus!
