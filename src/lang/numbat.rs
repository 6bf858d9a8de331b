//! The Numbat pack: an assignment is a `let NAME = ...` line, and the request is a
//! list of expressions, with a tagged print for each marked line.

use vstd::prelude::*;

use crate::document::{updates_view, CodeBlock, CodeBlockUpdate};
use crate::lang::{opt_view, split_line, CodeLine, Language};
use crate::lang::results::{
    apply_results, changed_updates, collect_entries, decimal, marker_entry, marker_results,
    output_lines, push_decimal, strings_view, unless_empty,
};
use crate::text::{push_char, chars_of, find, find_in, skip_space, trim, trim_range, trim_start};

verus! {

/// The Numbat language pack.
pub struct NumbatLang;

/// The name that a `let NAME = ...` line binds: after `let ` comes the name, up to
/// the `=` and without any `: Type` annotation, trimmed.
pub open spec fn let_var(code: Seq<char>) -> Option<Seq<char>> {
    let t = trim(code);
    if t.len() >= 4 && t.take(4) == seq!['l', 'e', 't', ' '] {
        let rest = trim_start(t.skip(4));
        match find(rest, seq!['=']) {
            None => None,
            Some(e) => {
                let lhs = trim(rest.take(e));
                if lhs.len() == 0 {
                    None
                } else {
                    let var = trim(
                        match find(lhs, seq![':']) {
                            Some(c) => lhs.take(c),
                            None => lhs,
                        },
                    );
                    if var.len() == 0 {
                        None
                    } else {
                        Some(var)
                    }
                }
            },
        }
    } else {
        None
    }
}

/// `s` with each double quote escaped by a backslash.
pub open spec fn escaped(s: Seq<char>) -> Seq<char>
    decreases s.len(),
{
    if s.len() == 0 {
        Seq::empty()
    } else if s.last() == '"' {
        escaped(s.drop_last()) + seq!['\\', '"']
    } else {
        escaped(s.drop_last()).push(s.last())
    }
}

/// The expression that prints the tagged value of `e` for line `i`.
pub open spec fn numbat_print(i: nat, e: Seq<char>) -> Seq<char> {
    "print(\"##RESULT:"@ + decimal(i) + " {"@ + escaped(e) + "}\")"@
}

/// The expressions for a classified line at position `i`.
pub open spec fn numbat_line(line: CodeLine, i: nat) -> Seq<Seq<char>> {
    match line {
        CodeLine::Code { code } => unless_empty(code@),
        CodeLine::Eval { code, .. } => if code@.len() == 0 {
            Seq::empty()
        } else {
            seq![numbat_print(i, code@)]
        },
        CodeLine::EvalAssignment { var, code, .. } => unless_empty(code@).push(
            numbat_print(i, var@),
        ),
    }
}

/// The expressions for code text `x` at position `i`.
pub open spec fn numbat_text(x: Seq<char>, i: nat) -> Seq<Seq<char>> {
    let t = trim(x);
    match find(t, "#="@) {
        None => unless_empty(t),
        Some(p) => {
            let code = trim(t.take(p));
            match let_var(code) {
                Some(v) => unless_empty(code).push(numbat_print(i, v)),
                None => if code.len() == 0 {
                    Seq::empty()
                } else {
                    seq![numbat_print(i, code)]
                },
            }
        },
    }
}

/// The expressions for all lines, in order.
pub open spec fn numbat_lines(lines: Seq<CodeLine>) -> Seq<Seq<char>>
    decreases lines.len(),
{
    if lines.len() == 0 {
        Seq::empty()
    } else {
        numbat_lines(lines.drop_last()) + numbat_line(lines.last(), (lines.len() - 1) as nat)
    }
}

/// The expressions for all code blocks, in order.
pub open spec fn numbat_texts(blocks: Seq<CodeBlock>) -> Seq<Seq<char>>
    decreases blocks.len(),
{
    if blocks.len() == 0 {
        Seq::empty()
    } else {
        numbat_texts(blocks.drop_last()) + numbat_text(
            blocks.last().content@,
            (blocks.len() - 1) as nat,
        )
    }
}

/// Whether some code block holds the marker.
pub open spec fn has_marked(blocks: Seq<CodeBlock>) -> bool {
    exists|k: int| 0 <= k < blocks.len() && #[trigger] find(trim(blocks[k].content@), "#="@) is Some
}

/// The name that `code` binds, if it is a `let` line.
fn extract_assigned_var(code: &str) -> (r: Option<&str>)
    ensures
        opt_view(r) == let_var(code@),
{
    let v = chars_of(code);
    assert(v@.subrange(0, v.len() as int) =~= v@);
    let (ts, te) = trim_range(&v, 0, v.len());
    let ghost t = v@.subrange(ts as int, te as int);
    if !(te - ts >= 4 && v[ts] == 'l' && v[ts + 1] == 'e' && v[ts + 2] == 't' && v[ts + 3] == ' ') {
        assert(!(t.len() >= 4 && t.take(4) == seq!['l', 'e', 't', ' '])) by {
            if t.len() >= 4 && t.take(4) == seq!['l', 'e', 't', ' '] {
                assert(t.take(4)[0] == 'l' && t.take(4)[1] == 'e');
                assert(t.take(4)[2] == 't' && t.take(4)[3] == ' ');
            }
        }
        return None;
    }
    assert(t.take(4) =~= seq!['l', 'e', 't', ' ']);
    assert(t.skip(4) =~= v@.subrange(ts + 4, te as int));
    let rs = skip_space(&v, ts + 4, te);
    let ghost rest = v@.subrange(rs as int, te as int);
    let mut eq: Vec<char> = Vec::new();
    eq.push('=');
    assert(eq@ =~= seq!['=']);
    let e = match find_in(&v, rs, te, &eq) {
        Some(e) => e,
        None => {
            return None;
        },
    };
    assert(rest.take(e - rs) =~= v@.subrange(rs as int, e as int));
    let (l1, l2) = trim_range(&v, rs, e);
    if l1 == l2 {
        return None;
    }
    let ghost lhs = v@.subrange(l1 as int, l2 as int);
    let mut colon: Vec<char> = Vec::new();
    colon.push(':');
    assert(colon@ =~= seq![':']);
    let c_end = match find_in(&v, l1, l2, &colon) {
        Some(c) => {
            assert(lhs.take(c - l1) =~= v@.subrange(l1 as int, c as int));
            c
        },
        None => l2,
    };
    let (a, b) = trim_range(&v, l1, c_end);
    if a == b {
        None
    } else {
        Some(code.substring_char(a, b))
    }
}

/// `expr` with each double quote escaped by a backslash.
fn escape_quotes(expr: &str) -> (r: String)
    ensures
        r@ == escaped(expr@),
{
    let v = chars_of(expr);
    let mut out = String::new();
    let mut i: usize = 0;
    assert(expr@.take(0) =~= Seq::<char>::empty());
    while i < v.len()
        invariant
            v@ == expr@,
            i <= v.len(),
            out@ == escaped(expr@.take(i as int)),
        decreases v.len() - i,
    {
        assert(expr@.take(i + 1).drop_last() =~= expr@.take(i as int));
        if v[i] == '"' {
            proof {
                reveal_strlit("\\\"");
            }
            out.append("\\\"");
        } else {
            push_char(&mut out, v[i]);
        }
        i = i + 1;
    }
    assert(expr@.take(i as int) =~= expr@);
    out
}

/// The expression that prints the tagged value of `expr` for line `idx`.
fn render_print(idx: usize, expr: &str) -> (r: String)
    ensures
        r@ == numbat_print(idx as nat, expr@),
{
    let escaped = escape_quotes(expr);
    let mut out = String::new();
    out.append("print(\"##RESULT:");
    push_decimal(&mut out, idx);
    out.append(" {");
    out.append(escaped.as_str());
    out.append("}\")");
    out
}

/// The expressions for the classified lines, in order: plain code as it is, a marked
/// expression as a tagged print, an assignment as itself and then a tagged print of
/// its name. Empty code adds no expression.
fn build_numbat_expressions(lines: &[CodeLine]) -> (r: Vec<String>)
    ensures
        strings_view(r@) == numbat_lines(lines@),
{
    let mut out: Vec<String> = Vec::new();
    let mut i: usize = 0;
    assert(lines@.take(0) =~= Seq::<CodeLine>::empty());
    assert(strings_view(out@) =~= Seq::<Seq<char>>::empty());
    while i < lines.len()
        invariant
            i <= lines@.len(),
            strings_view(out@) == numbat_lines(lines@.take(i as int)),
        decreases lines@.len() - i,
    {
        let ghost before = strings_view(out@);
        match &lines[i] {
            CodeLine::Code { code } => {
                if code.unicode_len() > 0 {
                    out.push((*code).to_owned());
                }
            },
            CodeLine::Eval { code, .. } => {
                if code.unicode_len() > 0 {
                    out.push(render_print(i, code));
                }
            },
            CodeLine::EvalAssignment { code, var, .. } => {
                if code.unicode_len() > 0 {
                    out.push((*code).to_owned());
                }
                out.push(render_print(i, var));
            },
        }
        assert(lines@.take(i + 1).drop_last() =~= lines@.take(i as int));
        assert(strings_view(out@) =~= before + numbat_line(lines@[i as int], i as nat));
        i = i + 1;
    }
    assert(lines@.take(i as int) =~= lines@);
    out
}

impl NumbatLang {
    pub fn new() -> Self {
        NumbatLang
    }

    /// The expressions to run for the code blocks, or nothing when no block is
    /// marked for evaluation or there is no expression at all.
    pub fn expressions(&self, blocks: &[CodeBlock]) -> (r: Option<Vec<String>>)
        ensures
            !has_marked(blocks@) ==> r is None,
            has_marked(blocks@) && numbat_texts(blocks@).len() == 0 ==> r is None,
            has_marked(blocks@) && numbat_texts(blocks@).len() > 0 ==> (r matches Some(v)
                && strings_view(v@) == numbat_texts(blocks@)),
    {
        let mut lines: Vec<CodeLine> = Vec::new();
        let mut has_eval = false;
        let mut k: usize = 0;
        assert(blocks@.take(0) =~= Seq::<CodeBlock>::empty());
        assert(lines@.take(0) =~= Seq::<CodeLine>::empty());
        while k < blocks.len()
            invariant
                k <= blocks@.len(),
                lines.len() == k,
                numbat_lines(lines@) == numbat_texts(blocks@.take(k as int)),
                has_eval == exists|j: int|
                    0 <= j < k && #[trigger] find(trim(blocks@[j].content@), "#="@) is Some,
            decreases blocks@.len() - k,
        {
            let line = split_line(blocks[k].content, "#=", "#", extract_assigned_var);
            assert(numbat_line(line, k as nat) == numbat_text(blocks@[k as int].content@, k as nat));
            let ghost before = lines@;
            match &line {
                CodeLine::Code { .. } => {},
                _ => {
                    has_eval = true;
                },
            }
            lines.push(line);
            assert(lines@.drop_last() =~= before);
            assert(blocks@.take(k + 1).drop_last() =~= blocks@.take(k as int));
            k = k + 1;
        }
        assert(blocks@.take(k as int) =~= blocks@);
        if !has_eval {
            return None;
        }
        let exprs = build_numbat_expressions(lines.as_slice());
        if exprs.len() == 0 {
            return None;
        }
        Some(exprs)
    }

    /// The updates that the expressions' output gives: each marked line with a
    /// result is rebuilt around it, and each block whose content changes yields an
    /// update.
    pub fn evaluate(&self, blocks: &[CodeBlock], output: &str) -> (r: Vec<CodeBlockUpdate>)
        ensures
            updates_view(r@) == changed_updates(
                blocks@,
                collect_entries(output_lines(output@), |l: Seq<char>| marker_entry(l)),
                "#="@,
                "#"@,
            ),
    {
        let results = marker_results(output);
        apply_results(blocks, "#=", "#", &results)
    }
}

impl Language for NumbatLang {
    open spec fn spec_name(&self) -> Seq<char> {
        "numbat"@
    }

    open spec fn spec_marker(&self) -> Seq<char> {
        "#="@
    }

    fn name(&self) -> (r: &str) {
        "numbat"
    }

    fn eval_marker(&self) -> (r: &str) {
        "#="
    }
}

} // verus!
