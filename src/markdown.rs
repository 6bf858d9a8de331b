//! The Markdown-aware scanner: fenced blocks are code line by line, and outside them
//! inline code between single backticks is code, the backticks themselves prose.

use vstd::prelude::*;

use crate::document::{render, spans_view, tiles, Block, Document, Line, LineView, SpanView};
use crate::parser::{lemma_render_tiled, whole_span, Parser};
use crate::text::{
    bounded_by, chars_of, lemma_split_lines_short, line_bounds, lines_at, skip_space, split_lines,
    text_of, trim_start,
};

verus! {

/// Whether `l` is a fence line: after its leading whitespace come three backticks.
pub open spec fn is_fence_line(l: Seq<char>) -> bool {
    let t = trim_start(l);
    t.len() >= 3 && t[0] == '`' && t[1] == '`' && t[2] == '`'
}

/// The positions of the backticks of `l`, in increasing order.
pub open spec fn ticks(l: Seq<char>) -> Seq<int>
    decreases l.len(),
{
    if l.len() == 0 {
        Seq::empty()
    } else if l.last() == '`' {
        ticks(l.drop_last()).push(l.len() - 1)
    } else {
        ticks(l.drop_last())
    }
}

/// Where span `j` of a line with backticks at `t` starts: an even span (prose) starts
/// at the backtick that closed the code before it, an odd span (code) just after the
/// backtick that opened it.
pub open spec fn seg_start(t: Seq<int>, j: int) -> int {
    if j == 0 {
        0
    } else if j % 2 == 1 {
        t[j - 1] + 1
    } else {
        t[j - 1]
    }
}

/// Where span `j` ends: prose takes the backtick that opens the next code span,
/// code stops before its closing backtick, and the last span runs to the end `n`.
pub open spec fn seg_end(t: Seq<int>, j: int, n: int) -> int {
    if j == t.len() {
        n
    } else if j % 2 == 0 {
        t[j] + 1
    } else {
        t[j]
    }
}

/// Span `j` of line `l` with backticks at `t`.
pub open spec fn seg(l: Seq<char>, t: Seq<int>, j: int) -> SpanView {
    SpanView {
        code: j % 2 == 1,
        start: seg_start(t, j) as usize,
        end: seg_end(t, j, l.len() as int) as usize,
        content: l.subrange(seg_start(t, j), seg_end(t, j, l.len() as int)),
    }
}

/// The spans of a line outside fenced blocks. With an odd number of backticks the
/// last inline code never closes, and the whole line is one prose span. Every line,
/// an empty one too, has at least one span.
pub open spec fn inline_spans(l: Seq<char>) -> Seq<SpanView> {
    let t = ticks(l);
    if t.len() % 2 == 1 {
        seq![whole_span(l, false)]
    } else {
        Seq::new((t.len() + 1) as nat, |j: int| seg(l, t, j))
    }
}

/// The spans of a line, given whether a fenced block is open before it.
pub open spec fn md_line_spans(l: Seq<char>, in_block: bool) -> Seq<SpanView> {
    if is_fence_line(l) {
        seq![whole_span(l, false)]
    } else if in_block {
        seq![whole_span(l, true)]
    } else {
        inline_spans(l)
    }
}

/// Whether a fenced block is open after the lines `ls`.
pub open spec fn in_block_after(ls: Seq<Seq<char>>) -> bool
    decreases ls.len(),
{
    if ls.len() == 0 {
        false
    } else {
        in_block_after(ls.drop_last()) != is_fence_line(ls.last())
    }
}

/// The Markdown scan of `s`: line `i` is numbered `i + 1`.
pub open spec fn markdown_lines(s: Seq<char>) -> Seq<LineView> {
    let ls = split_lines(s);
    Seq::new(
        ls.len(),
        |i: int|
            LineView {
                number: (i + 1) as usize,
                spans: md_line_spans(ls[i], in_block_after(ls.take(i))),
            },
    )
}

proof fn lemma_ticks(l: Seq<char>)
    ensures
        forall|k: int|
            0 <= k < ticks(l).len() ==> 0 <= #[trigger] ticks(l)[k] < l.len() && l[ticks(l)[k]]
                == '`',
        forall|a: int, b: int| 0 <= a < b < ticks(l).len() ==> ticks(l)[a] < ticks(l)[b],
    decreases l.len(),
{
    if l.len() > 0 {
        let p = l.drop_last();
        lemma_ticks(p);
        let tp = ticks(p);
        let tl = ticks(l);
        assert forall|k: int| 0 <= k < tl.len() implies 0 <= #[trigger] tl[k] < l.len() && l[tl[k]]
            == '`' by {
            if k < tp.len() {
                assert(tl[k] == tp[k]);
                assert(l[tp[k]] == p[tp[k]]);
            }
        }
        assert forall|a: int, b: int| 0 <= a < b < tl.len() implies tl[a] < tl[b] by {
            if b < tp.len() {
                assert(tl[a] == tp[a] && tl[b] == tp[b]);
            } else {
                assert(tl[a] == tp[a]);
                assert(tp[a] < p.len());
            }
        }
    }
}

proof fn lemma_ticks_step(l: Seq<char>, i: int)
    requires
        0 <= i < l.len(),
    ensures
        ticks(l.take(i + 1)) == if l[i] == '`' {
            ticks(l.take(i)).push(i)
        } else {
            ticks(l.take(i))
        },
{
    assert(l.take(i + 1).drop_last() =~= l.take(i));
}

proof fn lemma_inline_tiles(l: Seq<char>)
    requires
        l.len() <= usize::MAX,
    ensures
        tiles(inline_spans(l), l),
{
    let t = ticks(l);
    lemma_ticks(l);
    if t.len() % 2 == 1 {
        assert(l.subrange(0, l.len() as int) =~= l);
    } else {
        let s = inline_spans(l);
        assert forall|j: int| 0 <= j < s.len() implies #[trigger] s[j].start <= s[j].end
            <= l.len() && s[j].content == l.subrange(s[j].start as int, s[j].end as int) by {
            if j > 0 && j < t.len() {
                assert(t[j - 1] < t[j]);
            }
            if j > 0 {
                assert(t[j - 1] < l.len());
            }
        }
    }
}

/// The spans of a scanned line lay that line out.
proof fn lemma_md_line_tiles(l: Seq<char>, in_block: bool)
    requires
        l.len() <= usize::MAX,
    ensures
        tiles(md_line_spans(l, in_block), l),
{
    if is_fence_line(l) || in_block {
        assert(l.subrange(0, l.len() as int) =~= l);
    } else {
        lemma_inline_tiles(l);
    }
}

/// Round trip of the Markdown strategy: the text of the Markdown scan of `s` is `s`.
pub proof fn lemma_markdown_round_trip(s: Seq<char>)
    requires
        s.len() <= usize::MAX,
    ensures
        render(markdown_lines(s)) == s,
{
    let ls = split_lines(s);
    let d = markdown_lines(s);
    lemma_split_lines_short(s);
    assert forall|i: int| 0 <= i < d.len() implies tiles(#[trigger] d[i].spans, ls[i]) by {
        assert(ls[i].len() <= s.len());
        lemma_md_line_tiles(ls[i], in_block_after(ls.take(i)));
    }
    lemma_render_tiled(d, s);
}

/// The Markdown scanning strategy.
pub struct MarkdownParser;

impl MarkdownParser {
    pub fn new() -> Self {
        MarkdownParser
    }

    /// Scans one line. `in_code_block` says whether a fenced block is open before it,
    /// and is flipped by a fence line.
    pub fn parse_line(&self, number: usize, line: &str, in_code_block: &mut bool) -> (r: Line)
        ensures
            r@ == (LineView { number, spans: md_line_spans(line@, *old(in_code_block)) }),
            *final(in_code_block) == (*old(in_code_block) != is_fence_line(line@)),
            r.blocks.len() >= 1,
    {
        if Self::is_fence(line) {
            *in_code_block = !*in_code_block;
            let chars = chars_of(line);
            let mut blocks: Vec<Block> = Vec::new();
            blocks.push(Block::Text((0, chars.len()), line.to_owned()));
            let r = Line { number, blocks };
            assert(spans_view(r.blocks@) =~= seq![whole_span(line@, false)]);
            return r;
        }
        if *in_code_block {
            let r = Self::parse_fenced_code_line(number, line);
            assert(spans_view(r.blocks@).len() == r.blocks.len());
            return r;
        }
        let r = Self::parse_inline_code_line(number, line);
        assert(spans_view(r.blocks@).len() == r.blocks.len());
        r
    }

    fn is_fence(line: &str) -> (r: bool)
        ensures
            r == is_fence_line(line@),
    {
        let chars = chars_of(line);
        let a = skip_space(&chars, 0, chars.len());
        assert(chars@.subrange(0, chars.len() as int) =~= chars@);
        chars.len() - a >= 3 && chars[a] == '`' && chars[a + 1] == '`' && chars[a + 2] == '`'
    }

    fn parse_fenced_code_line(number: usize, line: &str) -> (r: Line)
        ensures
            r@ == (LineView { number, spans: seq![whole_span(line@, true)] }),
    {
        let chars = chars_of(line);
        let mut blocks: Vec<Block> = Vec::new();
        blocks.push(Block::Code((0, chars.len()), line.to_owned()));
        let r = Line { number, blocks };
        assert(spans_view(r.blocks@) =~= seq![whole_span(line@, true)]);
        r
    }

    /// Scans a line outside fenced blocks for inline code.
    fn parse_inline_code_line(number: usize, line: &str) -> (r: Line)
        ensures
            r@ == (LineView { number, spans: inline_spans(line@) }),
    {
        let chars = chars_of(line);
        let n = chars.len();
        let ghost l = line@;
        let mut blocks: Vec<Block> = Vec::new();
        let mut seg_from: usize = 0;
        let mut inside = false;
        let mut i: usize = 0;
        assert(l.take(0) =~= Seq::<char>::empty());
        while i < n
            invariant
                chars@ == l,
                l == line@,
                n == l.len(),
                i <= n,
                blocks.len() == ticks(l.take(i as int)).len(),
                inside == (ticks(l.take(i as int)).len() % 2 == 1),
                seg_from == seg_start(ticks(l.take(i as int)), blocks.len() as int),
                seg_from <= i,
                forall|k: int|
                    0 <= k < ticks(l.take(i as int)).len() ==> #[trigger] ticks(l.take(i as int))[k]
                        < i,
                forall|j: int|
                    0 <= j < blocks.len() ==> #[trigger] blocks@[j]@ == seg(
                        l,
                        ticks(l.take(i as int)),
                        j,
                    ),
            decreases n - i,
        {
            let ghost t = ticks(l.take(i as int));
            proof {
                lemma_ticks_step(l, i as int);
                lemma_ticks(l.take(i as int));
            }
            if chars[i] == '`' {
                let ghost t2 = t.push(i as int);
                assert forall|j: int| 0 <= j < t.len() implies #[trigger] seg(l, t2, j) == seg(
                    l,
                    t,
                    j,
                ) by {}
                if inside {
                    blocks.push(Block::Code((seg_from, i), text_of(&chars, seg_from, i)));
                    seg_from = i;
                    inside = false;
                } else {
                    blocks.push(Block::Text((seg_from, i + 1), text_of(&chars, seg_from, i + 1)));
                    seg_from = i + 1;
                    inside = true;
                }
                assert(blocks@[t.len() as int]@ == seg(l, t2, t.len() as int));
            }
            i = i + 1;
        }
        assert(l.take(n as int) =~= l);
        proof {
            lemma_ticks(l);
        }
        let r = Self::flush_inline_buffers(blocks, line, seg_from, inside, number);
        assert(r@.spans =~= inline_spans(l));
        r
    }

    /// Ends the scan of a line: the prose after the last backtick becomes the last
    /// span, and an inline code that never closed turns the whole line into prose.
    fn flush_inline_buffers(
        blocks: Vec<Block>,
        line: &str,
        seg_from: usize,
        inside: bool,
        number: usize,
    ) -> (r: Line)
        requires
            seg_from <= line@.len(),
        ensures
            r.number == number,
            inside ==> r@.spans == seq![whole_span(line@, false)],
            !inside && (seg_from < line@.len() || blocks@.len() == 0) ==> r@.spans == spans_view(
                blocks@,
            ).push(
                SpanView {
                    code: false,
                    start: seg_from,
                    end: line@.len() as usize,
                    content: line@.subrange(seg_from as int, line@.len() as int),
                },
            ),
            !inside && seg_from >= line@.len() && blocks@.len() > 0 ==> r@.spans == spans_view(
                blocks@,
            ),
    {
        let n = line.unicode_len();
        let mut blocks = blocks;
        if inside {
            let mut whole: Vec<Block> = Vec::new();
            whole.push(Block::Text((0, n), line.to_owned()));
            let r = Line { number, blocks: whole };
            assert(spans_view(r.blocks@) =~= seq![whole_span(line@, false)]);
            return r;
        }
        if seg_from < n || blocks.len() == 0 {
            let content = line.substring_char(seg_from, n);
            let ghost before = blocks@;
            blocks.push(Block::Text((seg_from, n), content.to_owned()));
            assert(spans_view(blocks@) =~= spans_view(before).push(
                SpanView {
                    code: false,
                    start: seg_from,
                    end: n,
                    content: line@.subrange(seg_from as int, n as int),
                },
            ));
        }
        Line { number, blocks }
    }
}

impl Parser for MarkdownParser {
    open spec fn spec_parse(&self, input: Seq<char>) -> Seq<LineView> {
        markdown_lines(input)
    }

    fn parse(&self, input: &str) -> (d: Document) {
        let chars = chars_of(input);
        let bounds = line_bounds(&chars);
        let ghost ls = split_lines(input@);
        let mut lines: Vec<Line> = Vec::new();
        let mut in_code_block = false;
        let mut k: usize = 0;
        assert(ls.take(0) =~= Seq::<Seq<char>>::empty());
        while k < bounds.len()
            invariant
                chars@ == input@,
                ls == split_lines(input@),
                lines_at(bounds@, chars@),
                k <= bounds.len(),
                lines.len() == k,
                in_code_block == in_block_after(ls.take(k as int)),
                forall|j: int| 0 <= j < k ==> #[trigger] lines@[j]@ == markdown_lines(input@)[j],
            decreases bounds.len() - k,
        {
            let (a, b) = bounds[k];
            assert(bounded_by(bounds@[k as int], chars@.len() as int));
            assert(chars@.subrange(bounds@[k as int].0 as int, bounds@[k as int].1 as int)
                == ls[k as int]);
            let text = text_of(&chars, a, b);
            let line = self.parse_line(k + 1, text.as_str(), &mut in_code_block);
            lines.push(line);
            proof {
                assert(ls.take(k + 1).drop_last() =~= ls.take(k as int));
            }
            k = k + 1;
        }
        let d = Document { lines };
        assert(d@ =~= markdown_lines(input@));
        proof {
            assert forall|i: int| 0 <= i < d@.len() implies tiles(
                #[trigger] d@[i].spans,
                split_lines(input@)[i],
            ) by {
                assert(bounded_by(bounds@[i], chars@.len() as int));
                assert(chars@.subrange(bounds@[i].0 as int, bounds@[i].1 as int) == ls[i]);
                lemma_md_line_tiles(ls[i], in_block_after(ls.take(i)));
            }
            lemma_render_tiled(d@, input@);
        }
        d
    }
}

} // verus!
