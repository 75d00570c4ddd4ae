//! Reindenting a byte stream by its delimiters.
//!
//! The stream is cut into segments: a start delimiter ends a segment and
//! belongs to it, an end delimiter begins a new segment, and newline bytes
//! are dropped. Each segment carries the nesting depth at which it stands;
//! a start delimiter raises the depth and an end delimiter lowers it.

use crate::delimiter::Delimiter;
use vstd::prelude::*;

verus! {

/// Why a byte stream cannot be cut into segments.
#[derive(Clone, Copy, Debug, PartialEq, Eq, Structural)]
pub enum DelimitError {
    /// The nesting depth left the range of `i32`.
    DepthOutOfRange,
}

/// The state of the scan: the finished segments, the bytes of the segment
/// being read, and the current depth.
pub ghost struct Scan {
    pub lines: Seq<(int, Seq<u8>)>,
    pub current: Seq<u8>,
    pub indent: int,
}

/// `b` is the start character of one of the delimiters.
pub open spec fn opens(delimiter: Seq<Delimiter>, b: u8) -> bool {
    exists|i: int| 0 <= i < delimiter.len() && (#[trigger] delimiter[i]).start == b as char
}

/// `b` is the end character of one of the delimiters.
pub open spec fn closes(delimiter: Seq<Delimiter>, b: u8) -> bool {
    exists|i: int| 0 <= i < delimiter.len() && (#[trigger] delimiter[i]).end == b as char
}

/// The scan before the first byte.
pub open spec fn scan_start() -> Scan {
    Scan { lines: Seq::empty(), current: Seq::empty(), indent: 0 }
}

/// The scan after one more byte.
pub open spec fn scan_step(delimiter: Seq<Delimiter>, s: Scan, b: u8) -> Scan {
    if opens(delimiter, b) {
        Scan {
            lines: s.lines.push((s.indent, s.current.push(b))),
            current: Seq::empty(),
            indent: s.indent + 1,
        }
    } else if closes(delimiter, b) {
        Scan { lines: s.lines.push((s.indent, s.current)), current: seq![b], indent: s.indent - 1 }
    } else if b == 10 {
        s
    } else {
        Scan { current: s.current.push(b), ..s }
    }
}

/// The scan after all of `input`.
pub open spec fn scan(delimiter: Seq<Delimiter>, input: Seq<u8>) -> Scan
    decreases input.len(),
{
    if input.len() == 0 {
        scan_start()
    } else {
        scan_step(delimiter, scan(delimiter, input.drop_last()), input.last())
    }
}

/// `line` without the spaces it begins with.
pub open spec fn trim_start(line: Seq<u8>) -> Seq<u8>
    decreases line.len(),
{
    if line.len() > 0 && line[0] == 32 {
        trim_start(line.drop_first())
    } else {
        line
    }
}

/// A segment with its leading spaces taken off.
pub open spec fn trimmed(entry: (int, Seq<u8>)) -> (int, Seq<u8>) {
    (entry.0, trim_start(entry.1))
}

/// The segments of `input`, each with its depth and without leading
/// spaces; the last one is what was being read when the input ended.
pub open spec fn segments(delimiter: Seq<Delimiter>, input: Seq<u8>) -> Seq<(int, Seq<u8>)> {
    let s = scan(delimiter, input);
    s.lines.push((s.indent, s.current)).map_values(|entry: (int, Seq<u8>)| trimmed(entry))
}

/// The depth stays in the range of `i32` all through `input`.
pub open spec fn depth_fits(delimiter: Seq<Delimiter>, input: Seq<u8>) -> bool {
    forall|k: int|
        0 <= k <= input.len() ==> i32::MIN <= (#[trigger] scan(delimiter, input.take(k))).indent
            <= i32::MAX
}

/// Segments as plain values.
pub open spec fn entries(lines: Seq<(i32, Vec<u8>)>) -> Seq<(int, Seq<u8>)> {
    lines.map_values(|entry: (i32, Vec<u8>)| (entry.0 as int, entry.1@))
}

/// One segment as it is written out: as many spaces as its depth, if that
/// is positive, then its bytes and a newline.
pub open spec fn render_line(entry: (int, Seq<u8>)) -> Seq<u8> {
    Seq::new(
        if entry.0 > 0 {
            entry.0 as nat
        } else {
            0
        },
        |i: int| 32u8,
    ) + entry.1 + seq![10u8]
}

/// The segments written out one after the other.
pub open spec fn render(lines: Seq<(int, Seq<u8>)>) -> Seq<u8>
    decreases lines.len(),
{
    if lines.len() == 0 {
        Seq::empty()
    } else {
        render(lines.drop_last()) + render_line(lines.last())
    }
}

/// Whether a byte is the start character of one of the delimiters.
pub fn is_delimiter_start(b: u8, delimiter: &Vec<Delimiter>) -> (r: bool)
    ensures
        r == opens(delimiter@, b),
{
    let c = b as char;
    let mut i: usize = 0;
    while i < delimiter.len()
        invariant
            i <= delimiter@.len(),
            c == b as char,
            forall|j: int| 0 <= j < i ==> (#[trigger] delimiter@[j]).start != c,
        decreases delimiter.len() - i,
    {
        if delimiter[i].start == c {
            return true;
        }
        i = i + 1;
    }
    false
}

/// Whether a byte is the end character of one of the delimiters.
pub fn is_delimiter_end(b: u8, delimiter: &Vec<Delimiter>) -> (r: bool)
    ensures
        r == closes(delimiter@, b),
{
    let c = b as char;
    let mut i: usize = 0;
    while i < delimiter.len()
        invariant
            i <= delimiter@.len(),
            c == b as char,
            forall|j: int| 0 <= j < i ==> (#[trigger] delimiter@[j]).end != c,
        decreases delimiter.len() - i,
    {
        if delimiter[i].end == c {
            return true;
        }
        i = i + 1;
    }
    false
}

/// Taking spaces off the front one by one ends at the first byte that is
/// no space.
proof fn lemma_trim_start(line: Seq<u8>, k: int)
    requires
        0 <= k <= line.len(),
        forall|j: int| 0 <= j < k ==> line[j] == 32,
        k == line.len() || line[k] != 32,
    ensures
        trim_start(line) == line.subrange(k, line.len() as int),
    decreases k,
{
    if k == 0 {
        assert(line.subrange(0, line.len() as int) =~= line);
    } else {
        let rest = line.drop_first();
        assert forall|j: int| 0 <= j < k - 1 implies rest[j] == 32 by {
            assert(rest[j] == line[j + 1]);
        }
        lemma_trim_start(rest, k - 1);
        assert(rest.subrange(k - 1, rest.len() as int) =~= line.subrange(k, line.len() as int));
    }
}

/// A segment without the spaces it begins with.
fn trim_leading_spaces(line: Vec<u8>) -> (r: Vec<u8>)
    ensures
        r@ == trim_start(line@),
{
    let mut k: usize = 0;
    while k < line.len() && line[k] == 32
        invariant
            k <= line@.len(),
            forall|j: int| 0 <= j < k ==> line@[j] == 32,
        decreases line.len() - k,
    {
        k = k + 1;
    }
    proof {
        lemma_trim_start(line@, k as int);
    }
    let mut out: Vec<u8> = Vec::new();
    let mut i = k;
    while i < line.len()
        invariant
            k <= i <= line@.len(),
            out@ == line@.subrange(k as int, i as int),
        decreases line.len() - i,
    {
        out.push(line[i]);
        i = i + 1;
        assert(out@ =~= line@.subrange(k as int, i as int));
    }
    out
}

/// Cuts a byte stream into its segments. Fails when the depth leaves the
/// range of `i32`, and only then.
pub fn delimit_with(delimiter: &Vec<Delimiter>, input: Vec<u8>) -> (r: Result<
    Vec<(i32, Vec<u8>)>,
    DelimitError,
>)
    ensures
        match r {
            Ok(lines) => depth_fits(delimiter@, input@) && entries(lines@) == segments(
                delimiter@,
                input@,
            ),
            Err(e) => !depth_fits(delimiter@, input@),
        },
{
    let mut lines: Vec<(i32, Vec<u8>)> = Vec::new();
    let mut curr_line: Vec<u8> = Vec::new();
    let mut indent: i32 = 0;
    let mut k: usize = 0;
    proof {
        assert(input@.take(0) =~= Seq::empty());
        assert(entries(lines@) =~= scan_start().lines.map_values(
            |entry: (int, Seq<u8>)| trimmed(entry),
        ));
    }
    while k < input.len()
        invariant
            k <= input@.len(),
            entries(lines@) == scan(delimiter@, input@.take(k as int)).lines.map_values(
                |entry: (int, Seq<u8>)| trimmed(entry),
            ),
            curr_line@ == scan(delimiter@, input@.take(k as int)).current,
            indent == scan(delimiter@, input@.take(k as int)).indent,
            forall|j: int|
                0 <= j <= k ==> i32::MIN <= (#[trigger] scan(delimiter@, input@.take(j))).indent
                    <= i32::MAX,
        decreases input.len() - k,
    {
        let byte = input[k];
        let ghost before = scan(delimiter@, input@.take(k as int));
        let ghost after = scan(delimiter@, input@.take(k + 1));
        proof {
            assert(input@.take(k + 1).drop_last() =~= input@.take(k as int));
            assert(input@.take(k + 1).last() == byte);
            assert(after == scan_step(delimiter@, before, byte));
        }
        if is_delimiter_start(byte, delimiter) {
            if indent == i32::MAX {
                return Err(DelimitError::DepthOutOfRange);
            }
            curr_line.push(byte);
            let ghost raw = curr_line@;
            let ghost done = entries(lines@);
            lines.push((indent, trim_leading_spaces(curr_line)));
            proof {
                assert(entries(lines@) =~= done.push((indent as int, trim_start(raw))));
                assert(after.lines.map_values(|entry: (int, Seq<u8>)| trimmed(entry))
                    =~= before.lines.map_values(|entry: (int, Seq<u8>)| trimmed(entry)).push(
                    trimmed((before.indent, raw)),
                ));
            }
            indent = indent + 1;
            curr_line = Vec::new();
        } else if is_delimiter_end(byte, delimiter) {
            if indent == i32::MIN {
                return Err(DelimitError::DepthOutOfRange);
            }
            let ghost raw = curr_line@;
            let ghost done = entries(lines@);
            lines.push((indent, trim_leading_spaces(curr_line)));
            proof {
                assert(entries(lines@) =~= done.push((indent as int, trim_start(raw))));
                assert(after.lines.map_values(|entry: (int, Seq<u8>)| trimmed(entry))
                    =~= before.lines.map_values(|entry: (int, Seq<u8>)| trimmed(entry)).push(
                    trimmed((before.indent, raw)),
                ));
            }
            indent = indent - 1;
            curr_line = Vec::new();
            curr_line.push(byte);
            assert(curr_line@ =~= seq![byte]);
        } else if byte == 10 {
        } else {
            curr_line.push(byte);
        }
        k = k + 1;
    }
    let ghost last = scan(delimiter@, input@);
    let ghost done = entries(lines@);
    let ghost raw = curr_line@;
    proof {
        assert(input@.take(k as int) =~= input@);
        assert forall|j: int| 0 <= j <= input@.len() implies i32::MIN <= (#[trigger] scan(
            delimiter@,
            input@.take(j),
        )).indent <= i32::MAX by {}
    }
    lines.push((indent, trim_leading_spaces(curr_line)));
    proof {
        assert(entries(lines@) =~= done.push((indent as int, trim_start(raw))));
        assert(segments(delimiter@, input@) =~= last.lines.map_values(
            |entry: (int, Seq<u8>)| trimmed(entry),
        ).push(trimmed((last.indent, raw))));
    }
    Ok(lines)
}

/// Writes the segments out, each on a line of its own behind as many
/// spaces as its depth.
pub fn format_delimited(structure: Vec<(i32, Vec<u8>)>) -> (r: Vec<u8>)
    ensures
        r@ == render(entries(structure@)),
{
    let mut output: Vec<u8> = Vec::new();
    let mut k: usize = 0;
    proof {
        assert(entries(structure@).take(0) =~= Seq::empty());
    }
    while k < structure.len()
        invariant
            k <= structure@.len(),
            output@ == render(entries(structure@).take(k as int)),
        decreases structure.len() - k,
    {
        let ghost before = output@;
        let ghost entry = entries(structure@)[k as int];
        let indent = structure[k].0;
        let mut i: i32 = 0;
        while i < indent
            invariant
                0 <= i,
                i <= indent || i == 0,
                output@ == before + Seq::new(i as nat, |j: int| 32u8),
            decreases indent - i,
        {
            output.push(32);
            i = i + 1;
            assert(output@ =~= before + Seq::new(i as nat, |j: int| 32u8));
        }
        assert(output@ == before + Seq::new(
            if indent > 0 {
                indent as nat
            } else {
                0
            },
            |j: int| 32u8,
        ));
        let ghost spaced = output@;
        let mut j: usize = 0;
        while j < structure[k].1.len()
            invariant
                k < structure@.len(),
                j <= structure@[k as int].1@.len(),
                output@ == spaced + structure@[k as int].1@.take(j as int),
            decreases structure@[k as int].1@.len() - j,
        {
            output.push(structure[k].1[j]);
            j = j + 1;
            assert(output@ =~= spaced + structure@[k as int].1@.take(j as int));
        }
        output.push(10);
        proof {
            assert(structure@[k as int].1@.take(j as int) =~= structure@[k as int].1@);
            assert(entry == (indent as int, structure@[k as int].1@));
            assert(output@ =~= before + render_line(entry));
            assert(entries(structure@).take(k + 1).drop_last() =~= entries(structure@).take(
                k as int,
            ));
            assert(entries(structure@).take(k + 1).last() == entry);
        }
        k = k + 1;
    }
    proof {
        assert(entries(structure@).take(k as int) =~= entries(structure@));
    }
    output
}

} // verus!
