//! The search filter: narrowing an outline to the lines whose node text
//! contains a search term.

use crate::outline::Line;
use crate::tree::{NodeView, Span, ParseTree};
use vstd::prelude::*;
use vstd::slice::slice_subrange;
use vstd::string::*;

verus! {

/// `needle` stands in `hay` at offset `at`.
pub open spec fn occurs_at(hay: Seq<u8>, needle: Seq<u8>, at: int) -> bool {
    &&& 0 <= at
    &&& at + needle.len() <= hay.len()
    &&& hay.subrange(at, at + needle.len()) == needle
}

/// `needle` stands somewhere in `hay`.
pub open spec fn contains_bytes(hay: Seq<u8>, needle: Seq<u8>) -> bool {
    exists|at: int| occurs_at(hay, needle, at)
}

/// The bytes of the document that a span covers. A span that does not lie
/// inside the document covers nothing.
pub open spec fn text_of(source: Seq<u8>, span: Span) -> Seq<u8> {
    if span.start_byte <= span.end_byte <= source.len() {
        source.subrange(span.start_byte as int, span.end_byte as int)
    } else {
        Seq::empty()
    }
}

/// Whether a line passes the filter: every line passes the empty term, and
/// a line passes another term when the text of its node contains the term.
pub open spec fn line_matches(
    nodes: Seq<NodeView>,
    source: Seq<u8>,
    term: Seq<u8>,
    line: Line,
) -> bool {
    term.len() == 0 || (line.node < nodes.len() && contains_bytes(
        text_of(source, nodes[line.node as int].span),
        term,
    ))
}

/// The filter as a predicate on lines.
pub open spec fn keeps(nodes: Seq<NodeView>, source: Seq<u8>, term: Seq<u8>) -> spec_fn(
    Line,
) -> bool {
    |line: Line| line_matches(nodes, source, term, line)
}

/// The lines that pass the filter, in their order.
pub open spec fn filter_spec(
    lines: Seq<Line>,
    nodes: Seq<NodeView>,
    source: Seq<u8>,
    term: Seq<u8>,
) -> Seq<Line> {
    lines.filter(keeps(nodes, source, term))
}

/// Whether `needle` stands in `hay` at offset `at`.
fn matches_at(hay: &[u8], needle: &[u8], at: usize) -> (r: bool)
    requires
        at + needle@.len() <= hay@.len(),
    ensures
        r == occurs_at(hay@, needle@, at as int),
{
    let total = hay.len();
    let mut k: usize = 0;
    while k < needle.len()
        invariant
            k <= needle@.len(),
            at + needle@.len() <= hay@.len() == total,
            forall|j: int| 0 <= j < k ==> hay@[at + j] == needle@[j],
        decreases needle.len() - k,
    {
        if hay[at + k] != needle[k] {
            proof {
                let part = hay@.subrange(at as int, at + needle@.len());
                assert(part[k as int] == hay@[at + k]);
            }
            return false;
        }
        k = k + 1;
    }
    assert(hay@.subrange(at as int, at + needle@.len()) =~= needle@);
    true
}

/// Whether `needle` stands somewhere in `hay`.
pub fn contains(hay: &[u8], needle: &[u8]) -> (r: bool)
    ensures
        r == contains_bytes(hay@, needle@),
{
    if needle.len() > hay.len() {
        return false;
    }
    let last = hay.len() - needle.len();
    let mut at: usize = 0;
    loop
        invariant
            at <= last,
            last == hay@.len() - needle@.len(),
            forall|j: int| 0 <= j < at ==> !occurs_at(hay@, needle@, j),
        decreases last - at,
    {
        if matches_at(hay, needle, at) {
            return true;
        }
        if at == last {
            return false;
        }
        at = at + 1;
    }
}

/// The bytes of the document that a span covers.
pub fn node_text<'a>(source: &'a [u8], span: Span) -> (r: &'a [u8])
    ensures
        r@ == text_of(source@, span),
{
    if span.start_byte <= span.end_byte && span.end_byte <= source.len() {
        slice_subrange(source, span.start_byte, span.end_byte)
    } else {
        slice_subrange(source, 0, 0)
    }
}

/// Narrows `lines` to those whose node text contains `term`; the empty
/// term keeps every line.
pub fn filter(lines: &Vec<Line>, tree: &ParseTree, source: &str, term: &str) -> (r: Vec<Line>)
    ensures
        r@ == filter_spec(lines@, tree@, source.spec_bytes(), term.spec_bytes()),
        term@.len() == 0 ==> r@ == lines@,
{
    proof {
        if term@.len() == 0 {
            assert(term.spec_bytes() =~= Seq::<u8>::empty());
            lemma_filter_empty_term(lines@, tree@, source.spec_bytes());
        }
    }
    let text = source.as_bytes();
    let needle = term.as_bytes();
    let total = tree.len();
    let ghost pred = keeps(tree@, source.spec_bytes(), term.spec_bytes());
    let mut out: Vec<Line> = Vec::new();
    let mut k: usize = 0;
    proof {
        assert(lines@.take(0) =~= Seq::empty());
        reveal(Seq::filter);
    }
    while k < lines.len()
        invariant
            k <= lines@.len(),
            total == tree@.len(),
            text@ == source.spec_bytes(),
            needle@ == term.spec_bytes(),
            pred == keeps(tree@, source.spec_bytes(), term.spec_bytes()),
            out@ == lines@.take(k as int).filter(pred),
        decreases lines.len() - k,
    {
        let item = lines[k];
        let keep = needle.len() == 0 || (item.node < total && contains(
            node_text(text, tree.span(item.node)),
            needle,
        ));
        proof {
            assert(keep == pred(item));
            lines@.take(k as int).lemma_filter_push(item, pred);
            assert(lines@.take(k as int).push(item) =~= lines@.take(k + 1));
        }
        if keep {
            out.push(item);
        }
        k = k + 1;
    }
    proof {
        assert(lines@.take(k as int) =~= lines@);
    }
    out
}

/// The empty term filters nothing out.
pub proof fn lemma_filter_empty_term(lines: Seq<Line>, nodes: Seq<NodeView>, source: Seq<u8>)
    ensures
        filter_spec(lines, nodes, source, Seq::empty()) == lines,
    decreases lines.len(),
{
    let pred = keeps(nodes, source, Seq::empty());
    reveal(Seq::filter);
    if lines.len() > 0 {
        lemma_filter_empty_term(lines.drop_last(), nodes, source);
        assert(pred(lines.last()));
        assert(lines.drop_last().push(lines.last()) =~= lines);
    }
}

} // verus!
