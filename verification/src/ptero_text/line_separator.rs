//! Line separators.
use vstd::prelude::*;

verus! {

/// The kinds of line separators.
#[derive(Debug, PartialEq, Eq, Structural, Clone, Copy)]
pub enum LineSeparatorType {
    /// `"\r\n"`.
    Windows,
    /// `"\n"`.
    Unix,
    /// `"\n"`, while `"\r\n"` is recognised too.
    UnixMixed,
}

/// The line separator used by default on this platform.
pub const DEFAULT_LINE_SEPARATOR: LineSeparatorType = LineSeparatorType::Unix;

/// The characters of the separator of a kind.
pub open spec fn separator_chars(t: LineSeparatorType) -> Seq<char> {
    match t {
        LineSeparatorType::Windows => seq!['\r', '\n'],
        _ => seq!['\n'],
    }
}

/// Whether `s` is recognised as a separator of kind `t`.
pub open spec fn matches_separator(t: LineSeparatorType, s: Seq<char>) -> bool {
    match t {
        LineSeparatorType::UnixMixed => s == seq!['\r', '\n'] || s == seq!['\n'],
        _ => s == separator_chars(t),
    }
}

impl LineSeparatorType {
    /// The separator text.
    pub fn separator(&self) -> (res: &'static str)
        ensures
            res@ == separator_chars(*self),
    {
        proof {
            reveal_strlit("\r\n");
            reveal_strlit("\n");
        }
        match self {
            LineSeparatorType::Windows => "\r\n",
            LineSeparatorType::Unix => "\n",
            LineSeparatorType::UnixMixed => "\n",
        }
    }

    /// Whether `other` is a separator of this kind; the mixed kind also recognises `"\r\n"`.
    pub fn matches(&self, other: &str) -> (res: bool)
        ensures
            res == matches_separator(*self, other@),
    {
        proof {
            reveal_strlit("\r\n");
            reveal_strlit("\n");
        }
        let chars = crate::chars::chars_of(other);
        let is_windows = chars.len() == 2 && chars[0] == '\r' && chars[1] == '\n';
        let is_unix = chars.len() == 1 && chars[0] == '\n';
        assert(is_windows <==> other@ == seq!['\r', '\n']) by {
            if chars@.len() == 2 {
                assert(is_windows ==> chars@ =~= seq!['\r', '\n']);
            }
        }
        assert(is_unix <==> other@ == seq!['\n']) by {
            if chars@.len() == 1 {
                assert(is_unix ==> chars@ =~= seq!['\n']);
            }
        }
        match self {
            LineSeparatorType::Windows => is_windows,
            LineSeparatorType::Unix => is_unix,
            LineSeparatorType::UnixMixed => is_windows || is_unix,
        }
    }
}

impl From<LineSeparatorType> for &'static str {
    fn from(sep_type: LineSeparatorType) -> (res: Self) {
        sep_type.separator()
    }
}

impl vstd::std_specs::convert::FromSpecImpl<LineSeparatorType> for &'static str {
    open spec fn obeys_from_spec() -> bool {
        false
    }

    open spec fn from_spec(v: LineSeparatorType) -> Self {
        arbitrary()
    }
}

impl PartialEq<str> for LineSeparatorType {
    fn eq(&self, other: &str) -> (res: bool) {
        self.matches(other)
    }
}

impl vstd::std_specs::cmp::PartialEqSpecImpl<str> for LineSeparatorType {
    open spec fn obeys_eq_spec() -> bool {
        true
    }

    open spec fn eq_spec(&self, other: &str) -> bool {
        matches_separator(*self, other@)
    }
}

} // verus!
