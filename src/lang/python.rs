//! The Python pack: an assignment is a line with `=` but neither `==` nor `!=`, and
//! the request is one script that prints a tagged result for each marked line.

use vstd::prelude::*;

use crate::document::{updates_view, CodeBlock, CodeBlockUpdate};
use crate::lang::{opt_view, split_line, CodeLine, Language};
use crate::lang::results::{
    apply_results, changed_updates, collect_entries, decimal, has_result_tag, output_line_at,
    output_lines, parse_index, parsed_index, push_decimal, result_tag, results_view,
};
use crate::text::{
    chars_of, find, find_in, join_lines, line_bounds, lines_at, skip_space, squeeze, squeeze_trim,
    trim, trim_range, trim_start, word_end, word_len,
};

verus! {

/// The Python language pack.
pub struct PythonLang;

/// Whether `n` occurs in `h`.
pub open spec fn contains(h: Seq<char>, n: Seq<char>) -> bool {
    find(h, n) is Some
}

/// Whether `code` reads as an assignment: it has `=` but neither `==` nor `!=`.
pub open spec fn is_assignment_text(code: Seq<char>) -> bool {
    contains(code, seq!['=']) && !contains(code, seq!['=', '=']) && !contains(code, seq!['!', '='])
}

/// The name that `code` assigns: the text before its first `=`, trimmed, when that
/// is not empty.
pub open spec fn assigned_var(code: Seq<char>) -> Option<Seq<char>> {
    if !is_assignment_text(code) {
        None
    } else {
        let v = trim(code.take(find(code, seq!['='])->0));
        if v.len() == 0 {
            None
        } else {
            Some(v)
        }
    }
}

/// The statement that prints the tagged result of expression `e` for line `i`.
pub open spec fn python_print(i: nat, e: Seq<char>) -> Seq<char> {
    "print('##RESULT:"@ + decimal(i) + "', "@ + e + ")"@
}

/// The script statement for line `i`.
pub open spec fn python_statement(line: CodeLine, i: nat) -> Seq<char> {
    match line {
        CodeLine::Code { code } => code@,
        CodeLine::Eval { code, .. } => python_print(i, code@),
        CodeLine::EvalAssignment { var, code, .. } => code@ + seq!['\n'] + python_print(i, var@),
    }
}

/// The script statement for code text `x` at position `i`.
pub open spec fn python_text(x: Seq<char>, i: nat) -> Seq<char> {
    let t = trim(x);
    match find(t, "#="@) {
        None => t,
        Some(p) => {
            let code = trim(t.take(p));
            match assigned_var(code) {
                Some(v) => code + seq!['\n'] + python_print(i, v),
                None => python_print(i, code),
            }
        },
    }
}

/// The entry of a result line as Python prints it: `##RESULT:` and then the
/// whitespace-separated words of the index and the value.
pub open spec fn python_entry(l: Seq<char>) -> Option<(usize, Seq<char>)> {
    if l.len() >= 9 && l.take(9) == result_tag() {
        let r = trim_start(l.skip(9));
        let w = word_len(r);
        if w == 0 {
            None
        } else {
            match parsed_index(r.take(w as int)) {
                Some(i) => Some((i, trim(squeeze(r.skip(w as int))))),
                None => None,
            }
        }
    } else {
        None
    }
}

/// The results in the output of a Python script.
pub open spec fn python_output(out: Seq<char>) -> Seq<(usize, Seq<char>)> {
    collect_entries(output_lines(out), |l: Seq<char>| python_entry(l))
}

/// Whether `n` occurs in `code`.
fn contains_text(code: &Vec<char>, n: &str) -> (r: bool)
    ensures
        r == contains(code@, n@),
{
    let nv = chars_of(n);
    assert(code@.subrange(0, code.len() as int) =~= code@);
    find_in(code, 0, code.len(), &nv).is_some()
}

/// Whether `code` reads as an assignment.
fn is_assignment(code: &str) -> (r: bool)
    ensures
        r == is_assignment_text(code@),
{
    let v = chars_of(code);
    proof {
        reveal_strlit("=");
        reveal_strlit("==");
        reveal_strlit("!=");
    }
    let eq = contains_text(&v, "=");
    let eqeq = contains_text(&v, "==");
    let ne = contains_text(&v, "!=");
    assert("="@ =~= seq!['=']);
    assert("=="@ =~= seq!['=', '=']);
    assert("!="@ =~= seq!['!', '=']);
    eq && !eqeq && !ne
}

/// The name that `code` assigns, if it is an assignment.
fn extract_assigned_var(code: &str) -> (r: Option<&str>)
    ensures
        opt_view(r) == assigned_var(code@),
{
    if !is_assignment(code) {
        return None;
    }
    let v = chars_of(code);
    let mut eq: Vec<char> = Vec::new();
    eq.push('=');
    assert(v@.subrange(0, v.len() as int) =~= v@);
    assert(eq@ =~= seq!['=']);
    let p = match find_in(&v, 0, v.len(), &eq) {
        Some(p) => p,
        None => {
            return None;
        },
    };
    assert(v@.subrange(0, p as int) =~= code@.take(p as int));
    let (a, b) = trim_range(&v, 0, p);
    if a == b {
        None
    } else {
        Some(code.substring_char(a, b))
    }
}

/// Appends the print statement for expression `e` of line `i`.
fn push_print(out: &mut String, i: usize, e: &str)
    ensures
        final(out)@ == old(out)@ + python_print(i as nat, e@),
{
    out.append("print('##RESULT:");
    push_decimal(out, i);
    out.append("', ");
    out.append(e);
    out.append(")");
}

/// The script for the classified lines: one statement per line, joined by newlines.
fn build_python_script(input: &[CodeLine]) -> (r: String)
    ensures
        r@ == join_lines(Seq::new(input@.len(), |i: int| python_statement(input@[i], i as nat))),
{
    let ghost stmts = Seq::new(input@.len(), |i: int| python_statement(input@[i], i as nat));
    let mut out = String::new();
    let mut i: usize = 0;
    while i < input.len()
        invariant
            i <= input@.len(),
            stmts == Seq::new(input@.len(), |i: int| python_statement(input@[i], i as nat)),
            out@ == join_lines(stmts.take(i as int)),
        decreases input@.len() - i,
    {
        proof {
            reveal_strlit("\n");
        }
        let mut stmt = String::new();
        match &input[i] {
            CodeLine::Code { code } => {
                stmt.append(code);
            },
            CodeLine::Eval { code, .. } => {
                push_print(&mut stmt, i, code);
            },
            CodeLine::EvalAssignment { var, code, .. } => {
                stmt.append(code);
                stmt.append("\n");
                push_print(&mut stmt, i, var);
            },
        }
        assert(stmt@ =~= stmts[i as int]);
        if i > 0 {
            out.append("\n");
        }
        out.append(stmt.as_str());
        i = i + 1;
        assert(stmts.take(i as int).drop_last() =~= stmts.take(i - 1));
    }
    assert(stmts.take(i as int) =~= stmts);
    out
}

/// Reads the result line `v[lo..hi]` as `python_entry` does.
fn python_entry_at(v: &Vec<char>, lo: usize, hi: usize) -> (r: Option<(usize, String)>)
    requires
        lo <= hi <= v.len(),
    ensures
        match python_entry(v@.subrange(lo as int, hi as int)) {
            Some(e) => r matches Some(x) && x.0 == e.0 && x.1@ == e.1,
            None => r is None,
        },
{
    let ghost l = v@.subrange(lo as int, hi as int);
    if !has_result_tag(v, lo, hi) {
        return None;
    }
    assert(l.skip(9) =~= v@.subrange(lo + 9, hi as int));
    let a = skip_space(v, lo + 9, hi);
    let ghost r = v@.subrange(a as int, hi as int);
    let w = word_end(v, a, hi);
    if w == a {
        return None;
    }
    assert(r.take(w - a) =~= v@.subrange(a as int, w as int));
    assert(r.skip(w - a) =~= v@.subrange(w as int, hi as int));
    match parse_index(v, a, w) {
        Some(i) => Some((i, squeeze_trim(v, w, hi))),
        None => None,
    }
}

/// The results in the output of a Python script, in order.
fn python_results(output: &str) -> (r: Vec<(usize, String)>)
    ensures
        results_view(r@) == python_output(output@),
{
    let v = chars_of(output);
    let bounds = line_bounds(&v);
    let ghost ls = output_lines(output@);
    let ghost f = |l: Seq<char>| python_entry(l);
    let mut out: Vec<(usize, String)> = Vec::new();
    let mut k: usize = 0;
    assert(ls.take(0) =~= Seq::<Seq<char>>::empty());
    assert(results_view(out@) =~= Seq::<(usize, Seq<char>)>::empty());
    while k < bounds.len()
        invariant
            v@ == output@,
            ls == output_lines(output@),
            f == (|l: Seq<char>| python_entry(l)),
            lines_at(bounds@, v@),
            k <= bounds.len(),
            results_view(out@) == collect_entries(ls.take(k as int), f),
        decreases bounds.len() - k,
    {
        let (a, b) = output_line_at(&v, &bounds, k);
        assert(ls.take(k + 1).drop_last() =~= ls.take(k as int));
        let ghost before = out@;
        if let Some(e) = python_entry_at(&v, a, b) {
            out.push(e);
            assert(results_view(out@) =~= results_view(before).push((e.0, e.1@)));
        }
        k = k + 1;
    }
    assert(ls.take(k as int) =~= ls);
    out
}

impl PythonLang {
    pub fn new() -> Self {
        PythonLang
    }

    /// The script to run for the code blocks: the statement of each block, joined by
    /// newlines. A marked line prints its value under its position, an assignment
    /// runs first and then prints the assigned name.
    pub fn script(&self, blocks: &[CodeBlock]) -> (r: String)
        ensures
            r@ == join_lines(
                Seq::new(blocks@.len(), |k: int| python_text(blocks@[k].content@, k as nat)),
            ),
    {
        let mut lines: Vec<CodeLine> = Vec::new();
        let mut k: usize = 0;
        while k < blocks.len()
            invariant
                k <= blocks@.len(),
                lines.len() == k,
                forall|j: int|
                    0 <= j < k ==> python_statement(#[trigger] lines@[j], j as nat) == python_text(
                        blocks@[j].content@,
                        j as nat,
                    ),
            decreases blocks@.len() - k,
        {
            let line = split_line(blocks[k].content, "#=", "#", extract_assigned_var);
            assert(python_statement(line, k as nat) == python_text(blocks@[k as int].content@, k as nat));
            lines.push(line);
            k = k + 1;
        }
        let r = build_python_script(lines.as_slice());
        assert(Seq::new(lines@.len(), |i: int| python_statement(lines@[i], i as nat)) =~= Seq::new(
            blocks@.len(),
            |k: int| python_text(blocks@[k].content@, k as nat),
        ));
        r
    }

    /// The updates that the script's output gives: each marked line with a result is
    /// rebuilt around it, and each block whose content changes yields an update.
    pub fn evaluate(&self, blocks: &[CodeBlock], output: &str) -> (r: Vec<CodeBlockUpdate>)
        ensures
            updates_view(r@) == changed_updates(blocks@, python_output(output@), "#="@, "#"@),
    {
        let results = python_results(output);
        apply_results(blocks, "#=", "#", &results)
    }
}

impl Language for PythonLang {
    open spec fn spec_name(&self) -> Seq<char> {
        "python"@
    }

    open spec fn spec_marker(&self) -> Seq<char> {
        "#="@
    }

    fn name(&self) -> (r: &str) {
        "python"
    }

    fn eval_marker(&self) -> (r: &str) {
        "#="
    }
}

} // verus!
