//! The two scanning strategies share one interface: text in, document out, and the
//! document always reconstructs to the text it came from.

use vstd::prelude::*;

use crate::document::{
    lemma_tiles_line_text, line_texts, render, spans_view, tiles, Block, Document, Line, LineView,
    SpanView,
};
use crate::text::{
    bounded_by, chars_of, lemma_join_split, lemma_split_lines_short, line_bounds, lines_at,
    split_lines, text_of,
};

verus! {

/// A scanning strategy: turns raw text into a document.
pub trait Parser {
    /// The document that scanning `input` gives.
    spec fn spec_parse(&self, input: Seq<char>) -> Seq<LineView>;

    /// Scans `input`. Reconstructing the result gives `input` back exactly.
    fn parse(&self, input: &str) -> (d: Document)
        ensures
            d@ == self.spec_parse(input@),
            render(d@) == input@,
    ;
}

/// The strategy that makes each whole line one code span.
pub struct PlainParser {}

/// A single span covering all of `l`.
pub open spec fn whole_span(l: Seq<char>, code: bool) -> SpanView {
    SpanView { code, start: 0, end: l.len() as usize, content: l }
}

/// The plain scan of `s`: line `i` is numbered `i + 1` and is one code span.
pub open spec fn plain_lines(s: Seq<char>) -> Seq<LineView> {
    let ls = split_lines(s);
    Seq::new(
        ls.len(),
        |i: int| LineView { number: (i + 1) as usize, spans: seq![whole_span(ls[i], true)] },
    )
}

/// A document whose lines lay out the lines of `s`, one for one, renders to `s`.
pub proof fn lemma_render_tiled(d: Seq<LineView>, s: Seq<char>)
    requires
        d.len() == split_lines(s).len(),
        forall|i: int| 0 <= i < d.len() ==> tiles(#[trigger] d[i].spans, split_lines(s)[i]),
    ensures
        render(d) == s,
{
    let ls = split_lines(s);
    assert forall|i: int| 0 <= i < d.len() implies #[trigger] line_texts(d)[i] == ls[i] by {
        lemma_tiles_line_text(d[i].spans, ls[i], d[i].number);
        assert(d[i] == LineView { number: d[i].number, spans: d[i].spans });
    }
    assert(line_texts(d) =~= ls);
    lemma_join_split(s);
}

/// Round trip of the plain strategy: the text of the plain scan of `s` is `s`.
pub proof fn lemma_plain_round_trip(s: Seq<char>)
    requires
        s.len() <= usize::MAX,
    ensures
        render(plain_lines(s)) == s,
{
    let ls = split_lines(s);
    let d = plain_lines(s);
    lemma_split_lines_short(s);
    assert forall|i: int| 0 <= i < d.len() implies tiles(#[trigger] d[i].spans, ls[i]) by {
        assert(ls[i].len() <= s.len());
        assert(ls[i].subrange(0, ls[i].len() as int) =~= ls[i]);
    }
    lemma_render_tiled(d, s);
}

impl Parser for PlainParser {
    open spec fn spec_parse(&self, input: Seq<char>) -> Seq<LineView> {
        plain_lines(input)
    }

    fn parse(&self, input: &str) -> (d: Document) {
        let chars = chars_of(input);
        let bounds = line_bounds(&chars);
        let ghost ls = split_lines(input@);
        let mut lines: Vec<Line> = Vec::new();
        let mut k: usize = 0;
        while k < bounds.len()
            invariant
                chars@ == input@,
                ls == split_lines(input@),
                lines_at(bounds@, chars@),
                k <= bounds.len(),
                lines.len() == k,
                forall|j: int| 0 <= j < k ==> #[trigger] lines@[j]@ == plain_lines(input@)[j],
            decreases bounds.len() - k,
        {
            let (a, b) = bounds[k];
            assert(bounded_by(bounds@[k as int], chars@.len() as int));
            assert(chars@.subrange(bounds@[k as int].0 as int, bounds@[k as int].1 as int)
                == ls[k as int]);
            let text = text_of(&chars, a, b);
            let mut blocks: Vec<Block> = Vec::new();
            blocks.push(Block::Code((0, b - a), text));
            let line = Line { number: k + 1, blocks };
            assert(spans_view(line.blocks@) =~= seq![whole_span(ls[k as int], true)]);
            lines.push(line);
            k = k + 1;
        }
        let d = Document { lines };
        assert(d@ =~= plain_lines(input@));
        proof {
            assert forall|i: int| 0 <= i < d@.len() implies tiles(
                #[trigger] d@[i].spans,
                split_lines(input@)[i],
            ) by {
                let l = ls[i];
                assert(bounded_by(bounds@[i], chars@.len() as int));
                assert(chars@.subrange(bounds@[i].0 as int, bounds@[i].1 as int) == l);
                assert(l.subrange(0, l.len() as int) =~= l);
            }
            lemma_render_tiled(d@, input@);
        }
        d
    }
}

} // verus!
