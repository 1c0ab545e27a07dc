//! Hiding a secret in a cover text from the command line.
use vstd::prelude::*;

use crate::chars::{byte_len, capped_byte_len, split_whitespace, views, words_of};
use crate::encodable::{el_encoding, Encodable};
use crate::encoder::{ErrorKind, MethodError};
use crate::method::complex::out_kind;

verus! {

/// Hide a secret in a cover text.
pub struct EncodeSubCommand {
    /// Path to the cover text.
    pub cover: String,
    /// Path to the data to hide.
    pub data: String,
    /// Pivot i.e. line length; the longest word of the cover by default.
    pub pivot: Option<usize>,
}

/// The largest byte length among `ws` (0 when there is none), each capped at `usize::MAX`.
pub open spec fn max_word_len(ws: Seq<Seq<char>>) -> nat
    decreases ws.len(),
{
    if ws.len() == 0 {
        0
    } else {
        let rest = max_word_len(ws.drop_last());
        let last = capped_byte_len(ws.last());
        if last > rest {
            last
        } else {
            rest
        }
    }
}

/// The default pivot is the byte length (UTF-8) of the longest word: no word whose byte
/// length fits in a `usize` is longer, and some word has exactly that length (or, past
/// `usize::MAX`, is at least as long); with no words it is 0.
pub proof fn lemma_max_word_len_is_longest(ws: Seq<Seq<char>>)
    ensures
        max_word_len(ws) <= usize::MAX,
        forall|i: int|
            0 <= i < ws.len() && byte_len(#[trigger] ws[i]) <= usize::MAX ==> byte_len(ws[i])
                <= max_word_len(ws),
        ws.len() == 0 ==> max_word_len(ws) == 0,
        ws.len() > 0 ==> exists|i: int|
            0 <= i < ws.len() && (max_word_len(ws) == byte_len(#[trigger] ws[i]) || (max_word_len(
                ws,
            ) == usize::MAX && byte_len(ws[i]) > usize::MAX)),
    decreases ws.len(),
{
    if ws.len() > 0 {
        let init = ws.drop_last();
        let last = ws.len() - 1;
        lemma_max_word_len_is_longest(init);
        assert forall|i: int|
            0 <= i < ws.len() && byte_len(#[trigger] ws[i]) <= usize::MAX implies byte_len(ws[i])
                <= max_word_len(ws) by {
            if i < last {
                assert(init[i] == ws[i]);
            }
        }
        if capped_byte_len(ws.last()) > max_word_len(init) {
            assert(max_word_len(ws) == capped_byte_len(ws[last]));
        } else if init.len() == 0 {
            assert(max_word_len(ws) == capped_byte_len(ws[last]));
        } else {
            let j = choose|j: int|
                0 <= j < init.len() && (max_word_len(init) == byte_len(#[trigger] init[j]) || (
                max_word_len(init) == usize::MAX && byte_len(init[j]) > usize::MAX));
            assert(init[j] == ws[j]);
        }
    }
}

/// With no pivot asked, the pivot chosen is at least the byte length of every word of the
/// cover, so each word fits on a line; an asked pivot is refused exactly when it is below
/// the byte length of some word (and below `usize::MAX`, where lengths are capped).
pub proof fn lemma_default_pivot_fits_every_word(cover: Seq<char>, asked: usize)
    ensures
        chosen_pivot(cover, None) matches Some(p) && forall|i: int|
            0 <= i < words_of(cover).len() && byte_len(#[trigger] words_of(cover)[i])
                <= usize::MAX ==> byte_len(words_of(cover)[i]) <= p,
        chosen_pivot(cover, Some(asked)) is None <==> asked < usize::MAX && exists|i: int|
            0 <= i < words_of(cover).len() && asked < byte_len(#[trigger] words_of(cover)[i]),
{
    let ws = words_of(cover);
    lemma_max_word_len_is_longest(ws);
    if chosen_pivot(cover, Some(asked)) is None {
        let i = choose|i: int|
            0 <= i < ws.len() && (max_word_len(ws) == byte_len(#[trigger] ws[i]) || (max_word_len(ws)
                == usize::MAX && byte_len(ws[i]) > usize::MAX));
        assert(asked < byte_len(ws[i]));
    }
    if asked < usize::MAX && exists|i: int| 0 <= i < ws.len() && asked < byte_len(#[trigger] ws[i]) {
        let i = choose|i: int| 0 <= i < ws.len() && asked < byte_len(#[trigger] ws[i]);
        if byte_len(ws[i]) <= usize::MAX {
            assert(byte_len(ws[i]) <= max_word_len(ws));
        } else {
            lemma_max_word_len_capped(ws, i);
        }
    }
}

/// A word longer than `usize::MAX` bytes makes the longest length `usize::MAX`.
proof fn lemma_max_word_len_capped(ws: Seq<Seq<char>>, i: int)
    requires
        0 <= i < ws.len(),
        byte_len(ws[i]) > usize::MAX,
    ensures
        max_word_len(ws) == usize::MAX,
    decreases ws.len(),
{
    lemma_max_word_len_is_longest(ws);
    if i < ws.len() - 1 {
        assert(ws.drop_last()[i] == ws[i]);
        lemma_max_word_len_capped(ws.drop_last(), i);
    }
}

/// The largest word length in bytes (0 for no words), capped at `usize::MAX`.
pub fn determine_pivot_size(words: &Vec<String>) -> (res: usize)
    ensures
        res == max_word_len(views(words@)),
{
    let mut max: usize = 0;
    let mut i: usize = 0;
    while i < words.len()
        invariant
            i <= words.len(),
            max == max_word_len(views(words@).take(i as int)),
        decreases words.len() - i,
    {
        let len = crate::chars::str_byte_len(words[i].as_str());
        assert(views(words@).take(i as int + 1).drop_last() =~= views(words@).take(i as int));
        if len > max {
            max = len;
        }
        i += 1;
    }
    assert(views(words@).take(words.len() as int) =~= views(words@));
    max
}


/// The pivot used for `cover` when the user asks for `user_pivot`: the longest word of
/// the cover by default; `None` when the asked pivot is below that length.
pub open spec fn chosen_pivot(cover: Seq<char>, user_pivot: Option<usize>) -> Option<nat> {
    let longest = max_word_len(words_of(cover));
    match user_pivot {
        None => Some(longest),
        Some(p) => if p < longest {
            None
        } else {
            Some(p as nat)
        },
    }
}

/// Hides `data` in `cover_text` with the Extended Line method, using the pivot chosen by
/// [chosen_pivot]. Fails with `PivotTooSmall` when the asked pivot is shorter than the
/// longest word, and otherwise as the encoding does.
pub fn encode_command(cover_text: &str, data: &Vec<u8>, user_pivot: Option<usize>) -> (res:
    Result<String, MethodError>)
    ensures
        chosen_pivot(cover_text@, user_pivot) is None ==> (res is Err && res->Err_0.kind_of()
            == ErrorKind::PivotTooSmall),
        chosen_pivot(cover_text@, user_pivot) matches Some(p) ==> el_encoding(
            cover_text@,
            p as int,
            data@,
            out_kind(res),
        ),
{
    let words = split_whitespace(cover_text);
    let mut pivot = determine_pivot_size(&words);
    match user_pivot {
        Some(user) => {
            if user < pivot {
                return Err(MethodError::PivotTooSmall);
            }
            pivot = user;
        },
        None => {},
    }
    data.encode(cover_text, pivot)
}

} // verus!
