//! The Fend pack: no line counts as an assignment, and the request is one script of
//! statements separated by `; `, with a tagged print for each marked line.

use vstd::prelude::*;

use crate::document::{updates_view, CodeBlock, CodeBlockUpdate};
use crate::lang::{no_assignment, split_line, CodeLine, Language};
use crate::lang::results::{
    apply_results, changed_updates, collect_entries, decimal, marker_entry, marker_results,
    output_lines, push_decimal, strings_view, unless_empty,
};
use crate::text::{find, join_sep, join_strings, trim};

verus! {

/// The Fend language pack.
pub struct FendLang;

/// The statement that prints the tagged value of `code` for line `i`.
pub open spec fn fend_print(i: nat, code: Seq<char>) -> Seq<char> {
    "print \"##RESULT:"@ + decimal(i) + " \"; println ("@ + code + ")"@
}

/// The statements for a classified line at position `i`.
pub open spec fn fend_line(line: CodeLine, i: nat) -> Seq<Seq<char>> {
    match line {
        CodeLine::Code { code } => unless_empty(code@),
        CodeLine::Eval { code, .. } => if code@.len() == 0 {
            Seq::empty()
        } else {
            seq![fend_print(i, code@)]
        },
        CodeLine::EvalAssignment { code, .. } => if code@.len() == 0 {
            Seq::empty()
        } else {
            seq![fend_print(i, code@)]
        },
    }
}

/// The statements for code text `x` at position `i`.
pub open spec fn fend_text(x: Seq<char>, i: nat) -> Seq<Seq<char>> {
    let t = trim(x);
    match find(t, "#="@) {
        None => unless_empty(t),
        Some(p) => {
            let code = trim(t.take(p));
            if code.len() == 0 {
                Seq::empty()
            } else {
                seq![fend_print(i, code)]
            }
        },
    }
}

/// The statements for all lines, in order.
pub open spec fn fend_lines(lines: Seq<CodeLine>) -> Seq<Seq<char>>
    decreases lines.len(),
{
    if lines.len() == 0 {
        Seq::empty()
    } else {
        fend_lines(lines.drop_last()) + fend_line(lines.last(), (lines.len() - 1) as nat)
    }
}

/// The statements for all code blocks, in order.
pub open spec fn fend_texts(blocks: Seq<CodeBlock>) -> Seq<Seq<char>>
    decreases blocks.len(),
{
    if blocks.len() == 0 {
        Seq::empty()
    } else {
        fend_texts(blocks.drop_last()) + fend_text(blocks.last().content@, (blocks.len() - 1) as nat)
    }
}

/// The statement that prints the tagged value of `code` for line `idx`.
fn render_print(idx: usize, code: &str) -> (r: String)
    ensures
        r@ == fend_print(idx as nat, code@),
{
    let mut out = String::new();
    out.append("print \"##RESULT:");
    push_decimal(&mut out, idx);
    out.append(" \"; println (");
    out.append(code);
    out.append(")");
    out
}

/// The script for the classified lines: plain code as it is and a tagged print for
/// each marked expression, joined by `; `. Empty code adds no statement.
fn build_fend_script(lines: &[CodeLine]) -> (r: String)
    ensures
        r@ == join_sep(fend_lines(lines@), "; "@),
{
    let mut statements: Vec<String> = Vec::new();
    let mut i: usize = 0;
    assert(lines@.take(0) =~= Seq::<CodeLine>::empty());
    assert(strings_view(statements@) =~= Seq::<Seq<char>>::empty());
    while i < lines.len()
        invariant
            i <= lines@.len(),
            strings_view(statements@) == fend_lines(lines@.take(i as int)),
        decreases lines@.len() - i,
    {
        let ghost before = strings_view(statements@);
        match &lines[i] {
            CodeLine::Code { code } => {
                if code.unicode_len() > 0 {
                    statements.push((*code).to_owned());
                }
            },
            CodeLine::Eval { code, .. } => {
                if code.unicode_len() > 0 {
                    statements.push(render_print(i, code));
                }
            },
            CodeLine::EvalAssignment { code, .. } => {
                if code.unicode_len() > 0 {
                    statements.push(render_print(i, code));
                }
            },
        }
        assert(lines@.take(i + 1).drop_last() =~= lines@.take(i as int));
        assert(strings_view(statements@) =~= before + fend_line(lines@[i as int], i as nat));
        i = i + 1;
    }
    assert(lines@.take(i as int) =~= lines@);
    join_strings(&statements, "; ")
}

impl FendLang {
    pub fn new() -> Self {
        FendLang
    }

    /// The script to run for the code blocks, or nothing when it would be empty.
    pub fn script(&self, blocks: &[CodeBlock]) -> (r: Option<String>)
        ensures
            join_sep(fend_texts(blocks@), "; "@).len() == 0 ==> r is None,
            join_sep(fend_texts(blocks@), "; "@).len() > 0 ==> (r matches Some(s) && s@ == join_sep(
                fend_texts(blocks@),
                "; "@,
            )),
    {
        let mut lines: Vec<CodeLine> = Vec::new();
        let mut k: usize = 0;
        assert(blocks@.take(0) =~= Seq::<CodeBlock>::empty());
        assert(lines@.take(0) =~= Seq::<CodeLine>::empty());
        while k < blocks.len()
            invariant
                k <= blocks@.len(),
                lines.len() == k,
                fend_lines(lines@) == fend_texts(blocks@.take(k as int)),
            decreases blocks@.len() - k,
        {
            let line = split_line(blocks[k].content, "#=", "#", no_assignment);
            assert(fend_line(line, k as nat) == fend_text(blocks@[k as int].content@, k as nat));
            let ghost before = lines@;
            lines.push(line);
            assert(lines@.drop_last() =~= before);
            assert(blocks@.take(k + 1).drop_last() =~= blocks@.take(k as int));
            k = k + 1;
        }
        assert(blocks@.take(k as int) =~= blocks@);
        let script = build_fend_script(lines.as_slice());
        if script.unicode_len() == 0 {
            return None;
        }
        Some(script)
    }

    /// The updates that the script's output gives: each marked line with a result is
    /// rebuilt around it, and each block whose content changes yields an update.
    pub fn evaluate(&self, blocks: &[CodeBlock], output: &str) -> (r: Vec<CodeBlockUpdate>)
        ensures
            updates_view(r@) == changed_updates(
                blocks@,
                collect_entries(output_lines(output@), |l: Seq<char>| marker_entry(l)),
                "#="@,
                "#"@,
            ),
    {
        let results = marker_results(output);
        apply_results(blocks, "#=", "#", &results)
    }
}

impl Language for FendLang {
    open spec fn spec_name(&self) -> Seq<char> {
        "fend"@
    }

    open spec fn spec_marker(&self) -> Seq<char> {
        "#="@
    }

    fn name(&self) -> (r: &str) {
        "fend"
    }

    fn eval_marker(&self) -> (r: &str) {
        "#="
    }
}

} // verus!
