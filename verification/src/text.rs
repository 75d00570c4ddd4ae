//! Small helpers on strings.

use vstd::prelude::*;
use vstd::string::*;
use vstd::utf8::{decode_utf8, encode_utf8, encode_utf8_decode_utf8, is_char_boundary};

verus! {

/// The number of columns that a text takes on a terminal.
pub uninterp spec fn display_width(text: Seq<char>) -> nat;

/// The number of columns that a text takes on a terminal. Wraps
/// `unicode_width::UnicodeWidthStr::width`, which works the width out from
/// the characters of the text and its Unicode tables and depends on
/// nothing else; the contract gives the result its name and claims no
/// more.
#[verifier::external_body]
fn width_of(text: &str) -> (r: usize)
    ensures
        r == display_width(text@),
{
    unicode_width::UnicodeWidthStr::width(text)
}

/// The mark that stands at the end of a label that was cut short.
pub open spec fn cut_mark() -> Seq<char> {
    "\u{e2}\u{20ac}\u{a6}"@
}

/// `n` spaces.
pub open spec fn spaces(n: nat) -> Seq<char> {
    Seq::new(n, |i: int| ' ')
}

/// A label brought to a fixed length: one that is too long is cut and
/// ends in the cut mark, any other is padded with spaces on the left.
/// Lengths are counted in bytes.
pub open spec fn trim_string_spec(s: Seq<char>, max_length: int) -> Seq<char> {
    let bytes = encode_utf8(s);
    if bytes.len() > max_length {
        decode_utf8(bytes.subrange(0, max_length - 1)) + cut_mark()
    } else {
        spaces((max_length - bytes.len()) as nat) + s
    }
}

/// Brings a label to a fixed length, counted in bytes. A label that is too
/// long can only be cut where a character begins.
pub fn trim_string(s: &str, max_length: usize) -> (r: String)
    requires
        s.spec_bytes().len() > max_length ==> max_length >= 1 && is_char_boundary(
            s.spec_bytes(),
            max_length - 1,
        ),
    ensures
        r@ == trim_string_spec(s@, max_length as int),
{
    let length = s.as_bytes().len();
    if length > max_length {
        let (head, _) = s.split_at(max_length - 1);
        let mut out = String::from_str(head);
        out.append("\u{e2}\u{20ac}\u{a6}");
        proof {
            encode_utf8_decode_utf8(head@);
        }
        out
    } else {
        let missing = max_length - length;
        let mut out = String::new();
        let mut k: usize = 0;
        while k < missing
            invariant
                k <= missing,
                out@ == spaces(k as nat),
            decreases missing - k,
        {
            push_char(&mut out, ' ');
            k = k + 1;
            assert(out@ =~= spaces(k as nat));
        }
        out.append(s);
        out
    }
}

/// The column of the text cursor behind a text of `width` columns in a box
/// whose left border stands in column `left`: one column for the border,
/// then the text, its width counted modulo 2^16. There is none when that
/// column is beyond the last one a `u16` can name.
pub open spec fn column_spec(left: int, width: int) -> Option<u16> {
    let column = left + width % 0x10000 + 1;
    if column <= u16::MAX {
        Some(column as u16)
    } else {
        None
    }
}

/// The column of the text cursor behind a text of `width` columns in a box
/// whose left border stands in column `left`.
pub fn cursor_column(left: u16, width: usize) -> (r: Option<u16>)
    ensures
        r == column_spec(left as int, width as int),
{
    let wrapped = (width % 0x10000) as u16;
    match left.checked_add(wrapped) {
        Some(sum) => sum.checked_add(1),
        None => None,
    }
}

/// The column of the text cursor behind `text` in a box whose left border
/// stands in column `left`.
pub fn text_cursor_column(left: u16, text: &str) -> (r: Option<u16>)
    ensures
        r == column_spec(left as int, display_width(text@) as int),
{
    cursor_column(left, width_of(text))
}

/// The characters of a text.
pub(crate) fn chars_of(s: &str) -> (r: Vec<char>)
    ensures
        r@ == s@,
{
    let mut out: Vec<char> = Vec::new();
    for c in it: s.chars()
        invariant
            it.seq() == s@,
            out@ == s@.take(it.index() as int),
    {
        out.push(c);
        assert(s@.take(it.index() + 1) =~= s@.take(it.index() as int).push(c));
    }
    assert(s@.take(s@.len() as int) =~= s@);
    out
}

/// Appends a character to a string. Wraps `String::push`, which puts the
/// character behind the last one and changes nothing else.
#[verifier::external_body]
pub(crate) fn push_char(s: &mut String, c: char)
    ensures
        final(s)@ == old(s)@.push(c),
{
    s.push(c)
}

/// Removes the last character of a string. Wraps `String::pop`, which hands
/// out the last character and leaves the ones before it, and does nothing
/// to an empty string.
#[verifier::external_body]
pub(crate) fn pop_char(s: &mut String) -> (r: Option<char>)
    ensures
        old(s)@.len() == 0 ==> r.is_none() && final(s)@ == old(s)@,
        old(s)@.len() > 0 ==> r == Some(old(s)@.last()) && final(s)@ == old(s)@.drop_last(),
{
    s.pop()
}

} // verus!
