//! A pair of delimiters, written as a start character, the separator `<=>`
//! and an end character.

use crate::text::{chars_of, push_char};
use vstd::prelude::*;
use vstd::string::*;

verus! {

/// A start character and the end character that answers it.
#[derive(Clone, Copy, Debug, PartialEq, Eq, Structural)]
pub struct Delimiter {
    pub start: char,
    pub end: char,
}

/// Why a text is not a pair of delimiters.
#[derive(Clone, Copy, Debug, PartialEq, Eq, Structural)]
pub enum DelimiterParseErr {
    MissingSeparator,
    TooManyArgumentDelimiters,
    MustBeChar,
}

/// The separator `<=>` stands in `s` at index `i`.
pub open spec fn separator_at(s: Seq<char>, i: int) -> bool {
    &&& 0 <= i
    &&& i + 3 <= s.len()
    &&& s[i] == '<'
    &&& s[i + 1] == '='
    &&& s[i + 2] == '>'
}

/// What a text with its only separator at index `i` stands for: the first
/// character before the separator and the first one behind it, if both
/// sides have one.
pub open spec fn pair_around(s: Seq<char>, i: int) -> Result<Delimiter, DelimiterParseErr> {
    if i == 0 || i + 3 == s.len() {
        Err(DelimiterParseErr::MustBeChar)
    } else {
        Ok(Delimiter { start: s[0], end: s[i + 3] })
    }
}

/// The first index from `from` on at which the separator stands in `s`.
fn find_separator(s: &Vec<char>, from: usize) -> (r: Option<usize>)
    ensures
        match r {
            Some(i) => from <= i && separator_at(s@, i as int) && forall|j: int|
                from <= j < i ==> !separator_at(s@, j),
            None => forall|j: int| from <= j ==> !separator_at(s@, j),
        },
{
    if s.len() < 3 || from > s.len() - 3 {
        return None;
    }
    let total = s.len();
    let last = total - 3;
    let mut i = from;
    while i <= last
        invariant
            from <= i <= last + 1,
            total == s@.len(),
            last == total - 3,
            forall|j: int| from <= j < i ==> !separator_at(s@, j),
        decreases last + 1 - i,
    {
        if s[i] == '<' && s[i + 1] == '=' && s[i + 2] == '>' {
            return Some(i);
        }
        i = i + 1;
    }
    None
}

impl Delimiter {
    /// Reads a pair of delimiters. The text must hold the separator `<=>`
    /// exactly once, with at least one character on each side; the first
    /// character of each side is taken.
    pub fn from_str(s: &str) -> (r: Result<Delimiter, DelimiterParseErr>)
        ensures
            (forall|i: int| !separator_at(s@, i)) ==> r == Err::<Delimiter, DelimiterParseErr>(
                DelimiterParseErr::MissingSeparator,
            ),
            (exists|i: int, j: int| i < j && separator_at(s@, i) && separator_at(s@, j)) ==> r
                == Err::<Delimiter, DelimiterParseErr>(
                DelimiterParseErr::TooManyArgumentDelimiters,
            ),
            forall|i: int|
                separator_at(s@, i) && (forall|j: int| j != i ==> !separator_at(s@, j)) ==> r
                    == pair_around(s@, i),
    {
        let chars = chars_of(s);
        let total = chars.len();
        match find_separator(&chars, 0) {
            None => Err(DelimiterParseErr::MissingSeparator),
            Some(first) => {
                match find_separator(&chars, first + 1) {
                    Some(_) => Err(DelimiterParseErr::TooManyArgumentDelimiters),
                    None => {
                        if first == 0 || first + 3 == total {
                            Err(DelimiterParseErr::MustBeChar)
                        } else {
                            Ok(Delimiter { start: chars[0], end: chars[first + 3] })
                        }
                    },
                }
            },
        }
    }

    /// The pair as text: the start character, the separator and the end
    /// character.
    pub fn to_string(&self) -> (r: String)
        ensures
            r@ == seq![self.start] + "<=>"@ + seq![self.end],
    {
        let mut out = String::new();
        push_char(&mut out, self.start);
        out.append("<=>");
        push_char(&mut out, self.end);
        assert(out@ =~= seq![self.start] + "<=>"@ + seq![self.end]);
        out
    }
}

impl DelimiterParseErr {
    /// The message that tells a user what is wrong.
    pub fn to_string(&self) -> (r: String)
        ensures
            r@ == match *self {
                DelimiterParseErr::MissingSeparator => "Missing Delimiter Separator `<=>`"@,
                DelimiterParseErr::TooManyArgumentDelimiters =>
                    "Expected exactly two delimiters: one start and one end delimiter"@,
                DelimiterParseErr::MustBeChar => "Delimiter must be a char"@,
            },
    {
        match self {
            DelimiterParseErr::MissingSeparator => String::from_str(
                "Missing Delimiter Separator `<=>`",
            ),
            DelimiterParseErr::TooManyArgumentDelimiters => String::from_str(
                "Expected exactly two delimiters: one start and one end delimiter",
            ),
            DelimiterParseErr::MustBeChar => String::from_str("Delimiter must be a char"),
        }
    }
}

} // verus!
