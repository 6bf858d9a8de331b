//! The document model: lines of typed, column-tagged spans, the extraction of every
//! code span under a dense address, the merge of updates back by address, and the
//! reconstruction of the text.

use vstd::prelude::*;

use crate::text::join_lines;

verus! {

/// A parsed document: its lines, in order.
#[derive(Debug)]
pub struct Document {
    pub lines: Vec<Line>,
}

/// One line of a document: its 1-based number and its spans.
#[derive(Debug)]
pub struct Line {
    pub number: usize,
    pub blocks: Vec<Block>,
}

/// A span of a line: prose or evaluable code, with its `[start, end)` column range
/// and its literal content.
#[derive(Debug)]
pub enum Block {
    Text((usize, usize), String),
    Code((usize, usize), String),
}

/// The address of a code span: its position among all code spans of a document, in
/// traversal order.
#[derive(Debug, Clone, Copy, PartialEq, Eq, Hash)]
pub struct BlockId(usize);

/// A read-only view of one code span, handed to an evaluator.
#[derive(Debug, Clone, Copy)]
pub struct CodeBlock<'a> {
    pub id: BlockId,
    pub content: &'a str,
}

/// An evaluator's replacement content for the code span at `id`.
#[derive(Debug)]
pub struct CodeBlockUpdate {
    pub id: BlockId,
    pub content: String,
}

/// The model of a span.
pub struct SpanView {
    pub code: bool,
    pub start: usize,
    pub end: usize,
    pub content: Seq<char>,
}

/// The model of a line.
pub struct LineView {
    pub number: usize,
    pub spans: Seq<SpanView>,
}

impl Clone for Block {
    fn clone(&self) -> (r: Self)
        ensures
            r@ == self@,
    {
        match self {
            Block::Text(range, s) => Block::Text(*range, s.clone()),
            Block::Code(range, s) => Block::Code(*range, s.clone()),
        }
    }
}

impl Clone for CodeBlockUpdate {
    fn clone(&self) -> (r: Self)
        ensures
            r@ == self@,
    {
        CodeBlockUpdate { id: self.id, content: self.content.clone() }
    }
}

impl View for BlockId {
    type V = usize;

    closed spec fn view(&self) -> usize {
        self.0
    }
}

impl View for Block {
    type V = SpanView;

    open spec fn view(&self) -> SpanView {
        match self {
            Block::Text(r, s) => SpanView { code: false, start: r.0, end: r.1, content: s@ },
            Block::Code(r, s) => SpanView { code: true, start: r.0, end: r.1, content: s@ },
        }
    }
}

impl View for Line {
    type V = LineView;

    open spec fn view(&self) -> LineView {
        LineView { number: self.number, spans: spans_view(self.blocks@) }
    }
}

impl View for Document {
    type V = Seq<LineView>;

    open spec fn view(&self) -> Seq<LineView> {
        lines_view(self.lines@)
    }
}

impl View for CodeBlockUpdate {
    type V = (usize, Seq<char>);

    open spec fn view(&self) -> (usize, Seq<char>) {
        (self.id@, self.content@)
    }
}

pub open spec fn spans_view(bs: Seq<Block>) -> Seq<SpanView> {
    bs.map_values(|b: Block| b@)
}

pub open spec fn lines_view(ls: Seq<Line>) -> Seq<LineView> {
    ls.map_values(|l: Line| l@)
}

pub open spec fn updates_view(us: Seq<CodeBlockUpdate>) -> Seq<(usize, Seq<char>)> {
    us.map_values(|u: CodeBlockUpdate| u@)
}

/// The contents of the code spans among `spans`, in order.
pub open spec fn span_codes(spans: Seq<SpanView>) -> Seq<Seq<char>>
    decreases spans.len(),
{
    if spans.len() == 0 {
        Seq::empty()
    } else if spans.last().code {
        span_codes(spans.drop_last()).push(spans.last().content)
    } else {
        span_codes(spans.drop_last())
    }
}

/// The contents of all code spans of a document: lines in order, spans within a line
/// in storage order. A code span's address is its index here.
pub open spec fn doc_codes(lines: Seq<LineView>) -> Seq<Seq<char>>
    decreases lines.len(),
{
    if lines.len() == 0 {
        Seq::empty()
    } else {
        doc_codes(lines.drop_last()) + span_codes(lines.last().spans)
    }
}

/// The content of the last update addressed to `id`, if any.
pub open spec fn last_update(ups: Seq<(usize, Seq<char>)>, id: int) -> Option<Seq<char>>
    decreases ups.len(),
{
    if ups.len() == 0 {
        None
    } else if ups.last().0 == id {
        Some(ups.last().1)
    } else {
        last_update(ups.drop_last(), id)
    }
}

/// What the code span at `id` holds after merging `ups`: the last update for it, or
/// its old content when there is none.
pub open spec fn merged_content(ups: Seq<(usize, Seq<char>)>, id: int, old: Seq<char>) -> Seq<
    char,
> {
    match last_update(ups, id) {
        Some(c) => c,
        None => old,
    }
}

/// A line's spans after merging `ups`, where `base` is the address of its first code span.
pub open spec fn merge_spans(spans: Seq<SpanView>, ups: Seq<(usize, Seq<char>)>, base: int) -> Seq<
    SpanView,
> {
    Seq::new(
        spans.len(),
        |j: int|
            if spans[j].code {
                SpanView {
                    code: true,
                    start: spans[j].start,
                    end: spans[j].end,
                    content: merged_content(
                        ups,
                        base + span_codes(spans.take(j)).len(),
                        spans[j].content,
                    ),
                }
            } else {
                spans[j]
            },
    )
}

/// A document after merging `ups`: same lines and spans, each code span holding
/// its merged content.
pub open spec fn merge_view(lines: Seq<LineView>, ups: Seq<(usize, Seq<char>)>) -> Seq<LineView> {
    Seq::new(
        lines.len(),
        |i: int|
            LineView {
                number: lines[i].number,
                spans: merge_spans(lines[i].spans, ups, doc_codes(lines.take(i)).len() as int),
            },
    )
}

/// `s` with `x` placed before the first span that starts after it.
pub open spec fn insert_by_start(x: SpanView, s: Seq<SpanView>) -> Seq<SpanView>
    decreases s.len(),
{
    if s.len() == 0 {
        seq![x]
    } else if x.start < s[0].start {
        seq![x] + s
    } else {
        seq![s[0]] + insert_by_start(x, s.drop_first())
    }
}

/// The spans stably sorted by start column.
pub open spec fn sort_by_start(s: Seq<SpanView>) -> Seq<SpanView>
    decreases s.len(),
{
    if s.len() == 0 {
        s
    } else {
        insert_by_start(s.last(), sort_by_start(s.drop_last()))
    }
}

/// The contents of the spans, concatenated in order.
pub open spec fn concat_contents(s: Seq<SpanView>) -> Seq<char>
    decreases s.len(),
{
    if s.len() == 0 {
        Seq::empty()
    } else {
        concat_contents(s.drop_last()) + s.last().content
    }
}

/// The text of a line: its spans' contents in column order.
pub open spec fn line_text(l: LineView) -> Seq<char> {
    concat_contents(sort_by_start(l.spans))
}

/// The text of a document.
pub open spec fn render(lines: Seq<LineView>) -> Seq<char> {
    join_lines(line_texts(lines))
}

/// The text of each line.
pub open spec fn line_texts(lines: Seq<LineView>) -> Seq<Seq<char>> {
    lines.map_values(|l: LineView| line_text(l))
}

/// Whether `spans` lay `l` out left to right: each holds the characters of its own
/// column range, and the ranges follow one another without gap or overlap from
/// column 0 to the end of `l`.
pub open spec fn tiles(spans: Seq<SpanView>, l: Seq<char>) -> bool {
    &&& spans.len() == 0 ==> l.len() == 0
    &&& spans.len() > 0 ==> spans[0].start == 0 && spans.last().end == l.len()
    &&& forall|j: int|
        0 <= j < spans.len() ==> #[trigger] spans[j].start <= spans[j].end <= l.len()
            && spans[j].content == l.subrange(spans[j].start as int, spans[j].end as int)
    &&& forall|j: int| 0 <= j < spans.len() - 1 ==> #[trigger] spans[j].end == spans[j + 1].start
}

impl BlockId {
    pub fn new(index: usize) -> (r: Self)
        ensures
            r@ == index,
    {
        BlockId(index)
    }

    pub fn index(self) -> (r: usize)
        ensures
            r == self@,
    {
        self.0
    }
}

/// The content of a span.
pub fn block_content(b: &Block) -> (r: &str)
    ensures
        r@ == b@.content,
{
    match b {
        Block::Text(_, s) => s.as_str(),
        Block::Code(_, s) => s.as_str(),
    }
}

proof fn lemma_span_codes_step(spans: Seq<SpanView>, j: int)
    requires
        0 <= j < spans.len(),
    ensures
        span_codes(spans.take(j + 1)) == if spans[j].code {
            span_codes(spans.take(j)).push(spans[j].content)
        } else {
            span_codes(spans.take(j))
        },
{
    assert(spans.take(j + 1).drop_last() =~= spans.take(j));
}

proof fn lemma_doc_codes_step(lines: Seq<LineView>, i: int)
    requires
        0 <= i < lines.len(),
    ensures
        doc_codes(lines.take(i + 1)) == doc_codes(lines.take(i)) + span_codes(lines[i].spans),
{
    assert(lines.take(i + 1).drop_last() =~= lines.take(i));
}

proof fn lemma_span_codes_prefix(spans: Seq<SpanView>, j: int)
    requires
        0 <= j <= spans.len(),
    ensures
        span_codes(spans.take(j)).len() <= span_codes(spans).len(),
    decreases spans.len() - j,
{
    if j < spans.len() {
        lemma_span_codes_step(spans, j);
        lemma_span_codes_prefix(spans, j + 1);
    } else {
        assert(spans.take(j) =~= spans);
    }
}

proof fn lemma_doc_codes_prefix(lines: Seq<LineView>, i: int)
    requires
        0 <= i <= lines.len(),
    ensures
        doc_codes(lines.take(i)).len() <= doc_codes(lines).len(),
    decreases lines.len() - i,
{
    if i < lines.len() {
        lemma_doc_codes_step(lines, i);
        lemma_doc_codes_prefix(lines, i + 1);
    } else {
        assert(lines.take(i) =~= lines);
    }
}

proof fn lemma_insert_at(x: SpanView, s: Seq<SpanView>, pos: int)
    requires
        0 <= pos <= s.len(),
        forall|k: int| 0 <= k < pos ==> !(x.start < #[trigger] s[k].start),
        pos == s.len() || x.start < s[pos].start,
    ensures
        insert_by_start(x, s) == s.insert(pos, x),
    decreases pos,
{
    if pos == 0 {
        if s.len() == 0 {
            assert(s.insert(0, x) =~= seq![x]);
        } else {
            assert(s.insert(0, x) =~= seq![x] + s);
        }
    } else {
        let t = s.drop_first();
        assert forall|k: int| 0 <= k < pos - 1 implies !(x.start < #[trigger] t[k].start) by {
            assert(t[k] == s[k + 1]);
        }
        lemma_insert_at(x, t, pos - 1);
        assert(seq![s[0]] + t.insert(pos - 1, x) =~= s.insert(pos, x));
    }
}

/// The positions of `blocks` in stable order of start column.
fn sorted_order(blocks: &Vec<Block>) -> (order: Vec<usize>)
    ensures
        forall|k: int| 0 <= k < order.len() ==> #[trigger] order[k] < blocks.len(),
        order@.map_values(|i: usize| blocks@[i as int]@) == sort_by_start(spans_view(blocks@)),
{
    let ghost spans = spans_view(blocks@);
    let mut order: Vec<usize> = Vec::new();
    let mut i: usize = 0;
    assert(order@.map_values(|i: usize| blocks@[i as int]@) =~= sort_by_start(spans.take(0)));
    while i < blocks.len()
        invariant
            i <= blocks.len(),
            spans == spans_view(blocks@),
            forall|k: int| 0 <= k < order.len() ==> #[trigger] order[k] < blocks.len(),
            order@.map_values(|i: usize| blocks@[i as int]@) == sort_by_start(spans.take(i as int)),
        decreases blocks.len() - i,
    {
        let ghost sorted = order@.map_values(|i: usize| blocks@[i as int]@);
        let x = block_start(&blocks[i]);
        let mut pos: usize = 0;
        while pos < order.len() && !(x < block_start(&blocks[order[pos]]))
            invariant
                i < blocks.len(),
                pos <= order.len(),
                x == blocks@[i as int]@.start,
                sorted == order@.map_values(|i: usize| blocks@[i as int]@),
                forall|k: int| 0 <= k < order.len() ==> #[trigger] order[k] < blocks.len(),
                forall|k: int| 0 <= k < pos ==> !(x < #[trigger] sorted[k].start),
            decreases order.len() - pos,
        {
            pos = pos + 1;
        }
        proof {
            lemma_insert_at(blocks@[i as int]@, sorted, pos as int);
            assert(spans.take(i + 1).drop_last() =~= spans.take(i as int));
        }
        order.insert(pos, i);
        assert(order@.map_values(|i: usize| blocks@[i as int]@) =~= sorted.insert(
            pos as int,
            blocks@[i as int]@,
        ));
        i = i + 1;
    }
    assert(spans.take(i as int) =~= spans);
    order
}

/// The start column of a span.
fn block_start(b: &Block) -> (r: usize)
    ensures
        r == b@.start,
{
    match b {
        Block::Text(r, _) => r.0,
        Block::Code(r, _) => r.0,
    }
}

proof fn lemma_sort_sorted(s: Seq<SpanView>)
    requires
        forall|a: int, b: int| 0 <= a <= b < s.len() ==> s[a].start <= s[b].start,
    ensures
        sort_by_start(s) == s,
    decreases s.len(),
{
    if s.len() > 0 {
        let t = s.drop_last();
        lemma_sort_sorted(t);
        assert forall|k: int| 0 <= k < t.len() implies !(s.last().start < #[trigger] t[k].start) by {
            assert(t[k] == s[k]);
        }
        lemma_insert_at(s.last(), t, t.len() as int);
        assert(t.insert(t.len() as int, s.last()) =~= s);
    }
}

proof fn lemma_tiles_ordered(spans: Seq<SpanView>, l: Seq<char>, a: int, b: int)
    requires
        tiles(spans, l),
        0 <= a <= b < spans.len(),
    ensures
        spans[a].start <= spans[b].start,
    decreases b - a,
{
    if a < b {
        lemma_tiles_ordered(spans, l, a, b - 1);
        assert(spans[b - 1].end == spans[b].start);
        assert(spans[b - 1].start <= spans[b - 1].end);
    }
}

proof fn lemma_tiles_concat(spans: Seq<SpanView>, l: Seq<char>, j: int)
    requires
        tiles(spans, l),
        1 <= j <= spans.len(),
    ensures
        concat_contents(spans.take(j)) == l.subrange(0, spans[j - 1].end as int),
    decreases j,
{
    assert(spans.take(j).drop_last() =~= spans.take(j - 1));
    assert(spans[j - 1].start <= spans[j - 1].end <= l.len());
    if j == 1 {
        assert(concat_contents(spans.take(0)) =~= Seq::<char>::empty());
        assert(concat_contents(spans.take(1)) =~= l.subrange(0, spans[0].end as int));
    } else {
        lemma_tiles_concat(spans, l, j - 1);
        assert(spans[j - 2].end == spans[j - 1].start);
        assert(concat_contents(spans.take(j)) =~= l.subrange(0, spans[j - 1].end as int));
    }
}

/// Spans that lay out a line reconstruct to exactly that line.
pub proof fn lemma_tiles_line_text(spans: Seq<SpanView>, l: Seq<char>, number: usize)
    requires
        tiles(spans, l),
    ensures
        line_text(LineView { number, spans }) == l,
{
    assert forall|a: int, b: int| 0 <= a <= b < spans.len() implies spans[a].start
        <= spans[b].start by {
        lemma_tiles_ordered(spans, l, a, b);
    }
    lemma_sort_sorted(spans);
    if spans.len() == 0 {
        assert(l =~= Seq::<char>::empty());
    } else {
        lemma_tiles_concat(spans, l, spans.len() as int);
        assert(spans.take(spans.len() as int) =~= spans);
        assert(l.subrange(0, l.len() as int) =~= l);
    }
}

/// Merging no updates leaves a document as it was.
pub proof fn lemma_merge_nothing(lines: Seq<LineView>)
    ensures
        merge_view(lines, Seq::empty()) == lines,
{
    let ups = Seq::<(usize, Seq<char>)>::empty();
    assert forall|i: int| 0 <= i < lines.len() implies #[trigger] merge_view(lines, ups)[i]
        == lines[i] by {
        let base = doc_codes(lines.take(i)).len() as int;
        assert(merge_spans(lines[i].spans, ups, base) =~= lines[i].spans);
    }
    assert(merge_view(lines, ups) =~= lines);
}

/// The contents of code spans `codes` after merging `ups`: at each address the
/// content of the last update for it, or the old content when there is none. Updates
/// to addresses past the end change nothing.
pub open spec fn merged_codes(codes: Seq<Seq<char>>, ups: Seq<(usize, Seq<char>)>) -> Seq<
    Seq<char>,
> {
    Seq::new(codes.len(), |i: int| merged_content(ups, i, codes[i]))
}

proof fn lemma_merge_spans_codes(spans: Seq<SpanView>, ups: Seq<(usize, Seq<char>)>, base: int)
    ensures
        span_codes(merge_spans(spans, ups, base)) == Seq::new(
            span_codes(spans).len(),
            |k: int| merged_content(ups, base + k, span_codes(spans)[k]),
        ),
    decreases spans.len(),
{
    let target = Seq::new(
        span_codes(spans).len(),
        |k: int| merged_content(ups, base + k, span_codes(spans)[k]),
    );
    if spans.len() == 0 {
        assert(span_codes(merge_spans(spans, ups, base)) =~= target);
    } else {
        let s0 = spans.drop_last();
        lemma_merge_spans_codes(s0, ups, base);
        let m = merge_spans(spans, ups, base);
        assert forall|j: int| 0 <= j < s0.len() implies #[trigger] merge_spans(s0, ups, base)[j]
            == m[j] by {
            assert(s0.take(j) =~= spans.take(j));
        }
        assert(m.drop_last() =~= merge_spans(s0, ups, base));
        assert(spans.take(spans.len() - 1) =~= s0);
        assert(span_codes(m) =~= target);
    }
}

/// Merging updates, seen on the contents of the code spans in traversal order: the
/// span at each address takes the content of the last update for that address, or
/// keeps its own; updates to addresses past the last span change nothing, and the
/// number of code spans stays the same.
pub proof fn lemma_merge_codes(lines: Seq<LineView>, ups: Seq<(usize, Seq<char>)>)
    ensures
        doc_codes(merge_view(lines, ups)) == merged_codes(doc_codes(lines), ups),
    decreases lines.len(),
{
    if lines.len() == 0 {
        assert(doc_codes(merge_view(lines, ups)) =~= merged_codes(doc_codes(lines), ups));
    } else {
        let l0 = lines.drop_last();
        lemma_merge_codes(l0, ups);
        let mv = merge_view(lines, ups);
        assert forall|i: int| 0 <= i < l0.len() implies #[trigger] merge_view(l0, ups)[i]
            == mv[i] by {
            assert(l0.take(i) =~= lines.take(i));
        }
        assert(mv.drop_last() =~= merge_view(l0, ups));
        assert(lines.take(lines.len() - 1) =~= l0);
        let base = doc_codes(l0).len() as int;
        lemma_merge_spans_codes(lines.last().spans, ups, base);
        assert(doc_codes(mv) =~= merged_codes(doc_codes(lines), ups));
    }
}

/// The last update for `id` among `ups`.
fn lookup_update(ups: &[CodeBlockUpdate], id: usize) -> (r: Option<usize>)
    ensures
        match r {
            Some(j) => j < ups.len() && last_update(updates_view(ups@), id as int) == Some(
                ups@[j as int].content@,
            ),
            None => last_update(updates_view(ups@), id as int) is None,
        },
{
    let mut j = ups.len();
    assert(ups@.take(j as int) =~= ups@);
    while j > 0
        invariant
            j <= ups.len(),
            last_update(updates_view(ups@), id as int) == last_update(
                updates_view(ups@.take(j as int)),
                id as int,
            ),
        decreases j,
    {
        assert(updates_view(ups@.take(j as int)).drop_last() =~= updates_view(
            ups@.take(j - 1),
        ));
        if ups[j - 1].id.index() == id {
            return Some(j - 1);
        }
        j = j - 1;
    }
    None
}

/// The contents of a sequence of code block views.
pub open spec fn views_content(r: Seq<CodeBlock>) -> Seq<Seq<char>> {
    r.map_values(|c: CodeBlock| c.content@)
}

impl Document {
    /// The code spans of the document, each under its address: views are in
    /// traversal order and their ids run from 0 up, one per code span.
    pub fn code_blocks(&self) -> (r: Vec<CodeBlock<'_>>)
        ensures
            views_content(r@) == doc_codes(self@),
            forall|k: int| 0 <= k < r.len() ==> #[trigger] r[k].id@ == k,
    {
        let mut r: Vec<CodeBlock<'_>> = Vec::new();
        let mut li: usize = 0;
        assert(views_content(r@) =~= doc_codes(self@.take(0)));
        while li < self.lines.len()
            invariant
                li <= self.lines.len(),
                views_content(r@) == doc_codes(self@.take(li as int)),
                forall|k: int| 0 <= k < r.len() ==> #[trigger] r[k].id@ == k,
            decreases self.lines.len() - li,
        {
            let line = &self.lines[li];
            let ghost before = doc_codes(self@.take(li as int));
            let ghost spans = line@.spans;
            let mut bj: usize = 0;
            assert(before + span_codes(spans.take(0)) =~= before);
            while bj < line.blocks.len()
                invariant
                    li < self.lines.len(),
                    line@ == self@[li as int],
                    spans == line@.spans,
                    bj <= line.blocks.len(),
                    spans.len() == line.blocks.len(),
                    views_content(r@) == before + span_codes(spans.take(bj as int)),
                    forall|k: int| 0 <= k < r.len() ==> #[trigger] r[k].id@ == k,
                decreases line.blocks.len() - bj,
            {
                proof {
                    lemma_span_codes_step(spans, bj as int);
                }
                let ghost r0 = r@;
                if let Block::Code(_, s) = &line.blocks[bj] {
                    let id = BlockId::new(r.len());
                    r.push(CodeBlock { id, content: s.as_str() });
                    assert(views_content(r@) =~= views_content(r0).push(spans[bj as int].content));
                }
                bj = bj + 1;
                assert(before + span_codes(spans.take(bj as int)) =~= if spans[bj - 1].code {
                    (before + span_codes(spans.take(bj - 1))).push(spans[bj - 1].content)
                } else {
                    before + span_codes(spans.take(bj - 1))
                });
            }
            proof {
                lemma_doc_codes_step(self@, li as int);
                assert(spans.take(bj as int) =~= spans);
            }
            li = li + 1;
        }
        assert(self@.take(li as int) =~= self@);
        r
    }
    /// Writes `updates` back by address: each code span whose address has an update
    /// takes the content of the last such update; every other span, and the shape of
    /// the document, stay as they were.
    pub fn merge_updates(&mut self, updates: &[CodeBlockUpdate])
        requires
            doc_codes(old(self)@).len() <= usize::MAX,
        ensures
            final(self)@ == merge_view(old(self)@, updates_view(updates@)),
            doc_codes(final(self)@) == merged_codes(doc_codes(old(self)@), updates_view(updates@)),
    {
        let ghost old_lines = self@;
        let ghost ups = updates_view(updates@);
        let ghost target = merge_view(old_lines, ups);
        let mut k: usize = 0;
        let mut li: usize = 0;
        while li < self.lines.len()
            invariant
                li <= self.lines.len() == old_lines.len(),
                target == merge_view(old_lines, ups),
                ups == updates_view(updates@),
                doc_codes(old_lines).len() <= usize::MAX,
                k == doc_codes(old_lines.take(li as int)).len(),
                forall|i: int| 0 <= i < li ==> #[trigger] self@[i] == target[i],
                forall|i: int| li <= i < old_lines.len() ==> #[trigger] self@[i] == old_lines[i],
            decreases old_lines.len() - li,
        {
            let ghost spans = old_lines[li as int].spans;
            let ghost base = k as int;
            let ghost pre = self.lines@;
            let ghost pre_view = self@;
            assert(pre[li as int]@ == old_lines[li as int]) by {
                assert(self@[li as int] == old_lines[li as int]);
            }
            let mut line = Line { number: 0, blocks: Vec::new() };
            self.lines.set_and_swap(li, &mut line);
            let ghost mid = self.lines@;
            assert(line@ == old_lines[li as int]);
            proof {
                lemma_doc_codes_step(old_lines, li as int);
                lemma_doc_codes_prefix(old_lines, li + 1);
            }
            let mut bj: usize = 0;
            while bj < line.blocks.len()
                invariant
                    li < old_lines.len(),
                    target == merge_view(old_lines, ups),
                    ups == updates_view(updates@),
                    spans == old_lines[li as int].spans,
                    base == doc_codes(old_lines.take(li as int)).len(),
                    base + span_codes(spans).len() <= usize::MAX,
                    line.number == old_lines[li as int].number,
                    line.blocks.len() == spans.len(),
                    bj <= spans.len(),
                    k == base + span_codes(spans.take(bj as int)).len(),
                    forall|j: int|
                        0 <= j < bj ==> #[trigger] line.blocks@[j]@ == merge_spans(
                            spans,
                            ups,
                            base,
                        )[j],
                    forall|j: int| bj <= j < spans.len() ==> #[trigger] line.blocks@[j]@ == spans[j],
                decreases spans.len() - bj,
            {
                proof {
                    lemma_span_codes_step(spans, bj as int);
                    lemma_span_codes_prefix(spans, bj + 1);
                }
                assert(line.blocks@[bj as int]@ == spans[bj as int]);
                let replacement = match &line.blocks[bj] {
                    Block::Code(r, _) => {
                        let range = *r;
                        match lookup_update(updates, k) {
                            Some(j) => Some(Block::Code(range, updates[j].content.clone())),
                            None => None,
                        }
                    },
                    Block::Text(..) => None,
                };
                let is_code = match &line.blocks[bj] {
                    Block::Code(..) => true,
                    Block::Text(..) => false,
                };
                if let Some(b) = replacement {
                    line.blocks.set(bj, b);
                }
                assert(line.blocks@[bj as int]@ == merge_spans(spans, ups, base)[bj as int]);
                if is_code {
                    k = k + 1;
                }
                bj = bj + 1;
            }
            assert(line@ == target[li as int]) by {
                assert(line@.spans =~= merge_spans(spans, ups, base));
            }
            proof {
                assert(spans.take(bj as int) =~= spans);
            }
            self.lines.set(li, line);
            assert forall|i: int| 0 <= i <= li implies #[trigger] self@[i] == target[i] by {
                if i < li {
                    assert(self.lines@[i] == pre[i]);
                    assert(self@[i] == self.lines@[i]@);
                    assert(pre_view[i] == pre[i]@);
                }
            }
            assert forall|i: int| li < i < old_lines.len() implies #[trigger] self@[i]
                == old_lines[i] by {
                assert(self.lines@[i] == pre[i]);
                assert(self@[i] == self.lines@[i]@);
                assert(pre_view[i] == pre[i]@);
            }
            li = li + 1;
        }
        assert(self@ =~= target);
        proof {
            lemma_merge_codes(old_lines, ups);
        }
    }

    /// Runs one evaluation pass: hands the addressed code spans to `evaluator` and
    /// merges back the updates it returns. A document without code spans is left as
    /// it is, and `evaluator` is not called: it need accept no input then.
    pub fn evaluate_with<F>(&mut self, evaluator: F) where
        F: FnOnce(&[CodeBlock]) -> Vec<CodeBlockUpdate>,

        requires
            doc_codes(old(self)@).len() > 0 ==> forall|blocks: &[CodeBlock]| evaluator.requires(
                (blocks,),
            ),
        ensures
            doc_codes(old(self)@).len() == 0 ==> final(self)@ == old(self)@,
            doc_codes(old(self)@).len() > 0 ==> exists|
                blocks: &[CodeBlock],
                updates: Vec<CodeBlockUpdate>,
            |
                {
                    &&& views_content(blocks@) == doc_codes(old(self)@)
                    &&& forall|k: int| 0 <= k < blocks@.len() ==> #[trigger] blocks@[k].id@ == k
                    &&& evaluator.ensures((blocks,), updates)
                    &&& final(self)@ == merge_view(old(self)@, updates_view(updates@))
                },
    {
        let blocks = self.code_blocks();
        if blocks.len() == 0 {
            assert(doc_codes(self@).len() == 0);
            return ;
        }
        let updates = evaluator(blocks.as_slice());
        self.merge_updates(updates.as_slice());
    }

    /// The text of one line: its spans' contents in order of start column.
    fn line_text_of(line: &Line) -> (r: String)
        ensures
            r@ == line_text(line@),
    {
        let order = sorted_order(&line.blocks);
        let ghost sorted = order@.map_values(|i: usize| line.blocks@[i as int]@);
        let mut out = String::new();
        let mut k: usize = 0;
        assert(sorted.take(0) =~= Seq::<SpanView>::empty());
        while k < order.len()
            invariant
                k <= order.len(),
                sorted == order@.map_values(|i: usize| line.blocks@[i as int]@),
                forall|j: int| 0 <= j < order.len() ==> #[trigger] order[j] < line.blocks.len(),
                out@ == concat_contents(sorted.take(k as int)),
            decreases order.len() - k,
        {
            out.append(block_content(&line.blocks[order[k]]));
            k = k + 1;
            assert(sorted.take(k as int).drop_last() =~= sorted.take(k - 1));
        }
        assert(sorted.take(k as int) =~= sorted);
        out
    }

    /// The document's text: each line's spans concatenated in order of start
    /// column, lines joined with a single newline.
    pub fn reconstruct(&self) -> (r: String)
        ensures
            r@ == render(self@),
    {
        let ghost texts = line_texts(self@);
        let mut out = String::new();
        let mut li: usize = 0;
        while li < self.lines.len()
            invariant
                li <= self.lines.len(),
                texts == line_texts(self@),
                out@ == join_lines(texts.take(li as int)),
            decreases self.lines.len() - li,
        {
            let text = Self::line_text_of(&self.lines[li]);
            if li > 0 {
                proof {
                    reveal_strlit("\n");
                }
                out.append("\n");
            }
            out.append(text.as_str());
            li = li + 1;
            assert(texts.take(li as int).drop_last() =~= texts.take(li - 1));
            assert(texts[li - 1] == text@);
        }
        assert(texts.take(li as int) =~= texts);
        out
    }
}

} // verus!
