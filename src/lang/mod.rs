//! The line grammar shared by the language packs: a code line is a plain statement,
//! an expression to evaluate, or an assignment to evaluate, each optionally followed
//! by a prior result and a trailing comment.

use vstd::prelude::*;

use crate::lang::fend::FendLang;
use crate::lang::numbat::NumbatLang;
use crate::lang::python::PythonLang;
use crate::text::{
    chars_of, find, find_in, is_space, lemma_find_after_space, lemma_find_facts, lemma_find_is,
    lemma_trim_ends, lemma_trim_keep, lemma_trim_keeps_prefix, lemma_trim_sub, no_space, occurs_at,
    same_text, trim, trim_end, trim_range, trim_start,
};

pub mod fend;
pub mod numbat;
pub mod python;
pub mod results;

verus! {

/// One code line, classified.
#[derive(Debug, PartialEq)]
pub enum CodeLine<'a> {
    Code { code: &'a str },
    Eval { code: &'a str, marker: &'a str, result: Option<&'a str>, comment: Option<&'a str> },
    EvalAssignment {
        var: &'a str,
        code: &'a str,
        marker: &'a str,
        result: Option<&'a str>,
        comment: Option<&'a str>,
    },
}

/// The view of an optional piece of text.
pub open spec fn opt_view(o: Option<&str>) -> Option<Seq<char>> {
    match o {
        Some(s) => Some(s@),
        None => None,
    }
}

/// The prior result in the text after the marker: what precedes the comment prefix,
/// trimmed, or nothing when that is empty.
pub open spec fn result_part(after: Seq<char>, comment: Seq<char>) -> Option<Seq<char>> {
    let r = match find(after, comment) {
        Some(q) => trim(after.take(q)),
        None => trim(after),
    };
    if r.len() == 0 {
        None
    } else {
        Some(r)
    }
}

/// The trailing comment in the text after the marker: from the comment prefix on,
/// trimmed.
pub open spec fn comment_part(after: Seq<char>, comment: Seq<char>) -> Option<Seq<char>> {
    match find(after, comment) {
        Some(q) => Some(trim(after.skip(q))),
        None => None,
    }
}

impl<'a> CodeLine<'a> {
    /// The statement or expression of the line.
    pub open spec fn code_of(self) -> &'a str {
        match self {
            CodeLine::Code { code } => code,
            CodeLine::Eval { code, .. } => code,
            CodeLine::EvalAssignment { code, .. } => code,
        }
    }

    /// The text of the line rebuilt around `result`.
    pub open spec fn spec_reconstruct(self, result: Seq<char>) -> Seq<char> {
        match self {
            CodeLine::Code { code } => code@,
            CodeLine::Eval { code, marker, comment, .. } => rebuilt(code@, marker@, result, comment),
            CodeLine::EvalAssignment { code, marker, comment, .. } => rebuilt(
                code@,
                marker@,
                result,
                comment,
            ),
        }
    }

    /// The line rebuilt around a new `result`: plain code comes back as it is; an
    /// evaluated line becomes `"{code} {marker} {result}"`, followed by its trimmed
    /// comment after one space.
    pub fn reconstruct(&self, result: &str) -> (r: String)
        ensures
            r@ == self.spec_reconstruct(result@),
    {
        match self {
            CodeLine::Code { code } => (*code).to_owned(),
            CodeLine::Eval { code, marker, comment, .. } => rebuild(code, marker, result, *comment),
            CodeLine::EvalAssignment { code, marker, comment, .. } => rebuild(
                code,
                marker,
                result,
                *comment,
            ),
        }
    }
}

/// Builds `"{code} {marker} {result}"`, then the trimmed comment after one space.
fn rebuild(code: &str, marker: &str, result: &str, comment: Option<&str>) -> (r: String)
    ensures
        r@ == rebuilt(code@, marker@, result@, comment),
{
    proof {
        reveal_strlit(" ");
    }
    let mut out = code.to_owned();
    out.append(" ");
    out.append(marker);
    out.append(" ");
    out.append(result);
    if let Some(c) = comment {
        let cc = chars_of(c);
        assert(cc@.subrange(0, cc.len() as int) =~= cc@);
        let (a, b) = trim_range(&cc, 0, cc.len());
        out.append(" ");
        out.append(c.substring_char(a, b));
    }
    assert(out@ =~= rebuilt(code@, marker@, result@, comment));
    out
}

/// `"{code} {marker} {result}"`, then the trimmed comment after one space.
pub open spec fn rebuilt(
    code: Seq<char>,
    marker: Seq<char>,
    result: Seq<char>,
    comment: Option<&str>,
) -> Seq<char> {
    let head = code + seq![' '] + marker + seq![' '] + result;
    match comment {
        Some(c) => head + seq![' '] + trim(c@),
        None => head,
    }
}

/// The prior result and the trailing comment in `input[lo..hi]`, the text after a
/// marker.
fn result_and_comment<'a>(input: &'a str, chars: &Vec<char>, lo: usize, hi: usize, comment: &str) -> (r: (
    Option<&'a str>,
    Option<&'a str>,
))
    requires
        chars@ == input@,
        lo <= hi <= chars.len(),
    ensures
        opt_view(r.0) == result_part(chars@.subrange(lo as int, hi as int), comment@),
        opt_view(r.1) == comment_part(chars@.subrange(lo as int, hi as int), comment@),
{
    let ghost after = chars@.subrange(lo as int, hi as int);
    let cchars = chars_of(comment);
    let found = find_in(chars, lo, hi, &cchars);
    let mut rs: usize = lo;
    let mut re: usize = hi;
    let mut com: Option<&'a str> = None;
    if let Some(cp) = found {
        let ghost q = cp - lo;
        assert(find(after, comment@) == Some(q));
        assert(after.take(q) =~= chars@.subrange(lo as int, cp as int));
        assert(after.skip(q) =~= chars@.subrange(cp as int, hi as int));
        let (a, b) = trim_range(chars, lo, cp);
        let (c1, c2) = trim_range(chars, cp, hi);
        rs = a;
        re = b;
        com = Some(input.substring_char(c1, c2));
        assert(chars@.subrange(rs as int, re as int) == trim(after.take(q)));
    } else {
        assert(find(after, comment@) is None);
        let (a, b) = trim_range(chars, lo, hi);
        rs = a;
        re = b;
    }
    let result = if rs == re {
        None
    } else {
        Some(input.substring_char(rs, re))
    };
    (result, com)
}

/// Classifies one code line. The line is trimmed; without `marker` in it, it is plain
/// code. Otherwise the text before the first marker, trimmed, is the expression; the
/// text after it holds the prior result up to the first `comment` prefix and the
/// trailing comment from there on, both trimmed. `extract_assignment` decides, on
/// the expression, whether the line is an assignment and of which name.
pub fn split_line<'a, F>(
    input: &'a str,
    marker: &'a str,
    comment: &str,
    extract_assignment: F,
) -> (r: CodeLine<'a>) where F: Fn(&'a str) -> Option<&'a str>
    requires
        forall|s: &'a str| extract_assignment.requires((s,)),
    ensures
        find(trim(input@), marker@) is None ==> r is Code && r.code_of()@ == trim(input@),
        find(trim(input@), marker@) matches Some(p) ==> {
            let t = trim(input@);
            let after = t.skip(p + marker@.len());
            &&& r.code_of()@ == trim(t.take(p))
            &&& match r {
                CodeLine::Code { .. } => false,
                CodeLine::Eval { code, marker: m, result, comment: c } => {
                    &&& m == marker
                    &&& opt_view(result) == result_part(after, comment@)
                    &&& opt_view(c) == comment_part(after, comment@)
                    &&& extract_assignment.ensures((code,), None)
                },
                CodeLine::EvalAssignment { var, code, marker: m, result, comment: c } => {
                    &&& m == marker
                    &&& opt_view(result) == result_part(after, comment@)
                    &&& opt_view(c) == comment_part(after, comment@)
                    &&& extract_assignment.ensures((code,), Some(var))
                },
            }
        },
{
    let chars = chars_of(input);
    let n = chars.len();
    assert(chars@.subrange(0, n as int) =~= chars@);
    let (ts, te) = trim_range(&chars, 0, n);
    let ghost t = chars@.subrange(ts as int, te as int);
    let mchars = chars_of(marker);
    let found = find_in(&chars, ts, te, &mchars);
    match found {
        None => CodeLine::Code { code: input.substring_char(ts, te) },
        Some(mp) => {
            let ghost p = mp - ts;
            let after_start = mp + mchars.len();
            let ghost after = t.skip(p + marker@.len());
            assert(after =~= chars@.subrange(after_start as int, te as int));
            let (result, com) = result_and_comment(input, &chars, after_start, te, comment);
            assert(t.take(p) =~= chars@.subrange(ts as int, mp as int));
            let (cs, ce) = trim_range(&chars, ts, mp);
            let code = input.substring_char(cs, ce);
            match extract_assignment(code) {
                Some(var) => CodeLine::EvalAssignment { var, code, marker, result, comment: com },
                None => CodeLine::Eval { code, marker, result, comment: com },
            }
        },
    }
}

/// An assignment detector that finds none.
pub(crate) fn no_assignment(_code: &str) -> (r: Option<&str>)
    ensures
        r is None,
{
    None
}

/// What `split_line` followed by `reconstruct` makes of `x` with the result `v`:
/// whether the line counts as an assignment does not change how it is rebuilt.
pub open spec fn respelled(x: Seq<char>, marker: Seq<char>, comment: Seq<char>, v: Seq<char>) -> Seq<
    char,
> {
    let t = trim(x);
    match find(t, marker) {
        None => t,
        Some(p) => {
            let after = t.skip(p + marker.len());
            let head = trim(t.take(p)) + seq![' '] + marker + seq![' '] + v;
            match comment_part(after, comment) {
                Some(c) => head + seq![' '] + trim(c),
                None => head,
            }
        },
    }
}

/// An evaluator plugin: the language it speaks and the marker its lines use.
pub trait Language {
    /// The name of the language.
    spec fn spec_name(&self) -> Seq<char>;

    /// The marker that asks for a line to be evaluated.
    spec fn spec_marker(&self) -> Seq<char>;

    fn name(&self) -> (r: &str)
        ensures
            r@ == self.spec_name(),
    ;

    fn eval_marker(&self) -> (r: &str)
        ensures
            r@ == self.spec_marker(),
    ;
}

/// The language packs.
pub enum LanguagePack {
    Python(PythonLang),
    Numbat(NumbatLang),
    Fend(FendLang),
}

impl LanguagePack {
    /// The name of the pack's language.
    pub open spec fn spec_name(self) -> Seq<char> {
        match self {
            LanguagePack::Python(l) => l.spec_name(),
            LanguagePack::Numbat(l) => l.spec_name(),
            LanguagePack::Fend(l) => l.spec_name(),
        }
    }

    /// The name of the pack's language.
    pub fn name(&self) -> (r: &str)
        ensures
            r@ == self.spec_name(),
    {
        match self {
            LanguagePack::Python(l) => l.name(),
            LanguagePack::Numbat(l) => l.name(),
            LanguagePack::Fend(l) => l.name(),
        }
    }

    /// The marker of the pack's language.
    pub fn eval_marker(&self) -> (r: &str)
        ensures
            r@ == "#="@,
    {
        match self {
            LanguagePack::Python(l) => l.eval_marker(),
            LanguagePack::Numbat(l) => l.eval_marker(),
            LanguagePack::Fend(l) => l.eval_marker(),
        }
    }
}

/// The pack for a language name: `python`, `numbat` or `fend`; the pack's name is the
/// name asked for, and any other name has no pack.
pub fn get_language_spec(lang_str: &str) -> (r: Option<LanguagePack>)
    ensures
        r matches Some(p) ==> p.spec_name() == lang_str@,
        r is None <==> !(lang_str@ == "python"@ || lang_str@ == "numbat"@ || lang_str@ == "fend"@),
        (r matches Some(LanguagePack::Python(_))) <==> lang_str@ == "python"@,
        (r matches Some(LanguagePack::Numbat(_))) <==> lang_str@ == "numbat"@,
        (r matches Some(LanguagePack::Fend(_))) <==> lang_str@ == "fend"@,
{
    proof {
        reveal_strlit("python");
        reveal_strlit("numbat");
        reveal_strlit("fend");
        assert("python"@[0] != "numbat"@[0]);
        assert("python"@.len() != "fend"@.len());
        assert("numbat"@.len() != "fend"@.len());
    }
    if same_text(lang_str, "python") {
        Some(LanguagePack::Python(PythonLang::new()))
    } else if same_text(lang_str, "numbat") {
        Some(LanguagePack::Numbat(NumbatLang::new()))
    } else if same_text(lang_str, "fend") {
        Some(LanguagePack::Fend(FendLang::new()))
    } else {
        None
    }
}

/// A result padded with spaces, and then a space and a comment after it, is read back
/// as that result.
proof fn lemma_result_after_marker(r: Seq<char>, comment: Seq<char>, c2: Option<Seq<char>>)
    requires
        comment.len() > 0,
        no_space(comment),
        r.len() > 0,
        !is_space(r[0]),
        !is_space(r.last()),
        find(r, comment) is None,
        c2 matches Some(c) ==> occurs_at(c, comment, 0),
    ensures
        result_part(
            seq![' '] + r + match c2 {
                Some(c) => seq![' '] + c,
                None => Seq::empty(),
            },
            comment,
        ) == Some(r),
{
    let a2 = seq![' '] + r;
    lemma_find_facts(r, comment);
    assert forall|q: int| !occurs_at(a2, comment, q) by {
        if occurs_at(a2, comment, q) {
            if q == 0 {
                assert(comment[0] == a2[0]);
            } else {
                assert(r.subrange(q - 1, q - 1 + comment.len()) =~= a2.subrange(
                    q,
                    q + comment.len(),
                ));
                assert(occurs_at(r, comment, q - 1));
            }
        }
    }
    assert(a2.drop_first() =~= r);
    assert(trim_start(r) == r);
    match c2 {
        Some(c) => {
            let after = a2 + seq![' '] + c;
            assert(seq![' '] + r + (seq![' '] + c) =~= after);
            lemma_find_after_space(a2, c, comment);
            let padded = after.take(a2.len() as int + 1);
            assert(padded =~= seq![' '] + (r + seq![' ']));
            assert((seq![' '] + (r + seq![' '])).drop_first() =~= r + seq![' ']);
            assert((r + seq![' '])[0] == r[0]);
            assert(trim_start(r + seq![' ']) == r + seq![' ']);
            assert((r + seq![' ']).drop_last() =~= r);
            assert(is_space(' '));
            assert(padded.drop_first() =~= r + seq![' ']);
            assert(trim_start(padded) == r + seq![' ']);
            assert(trim_end(r) == r);
            assert(trim_end(r + seq![' ']) == trim_end(r));
            assert(trim(padded) == r);
        },
        None => {
            assert(seq![' '] + r + Seq::<char>::empty() =~= a2);
            lemma_find_facts(a2, comment);
            assert(find(a2, comment) is None) by {
                if find(a2, comment) is Some {
                    assert(occurs_at(a2, comment, find(a2, comment)->0));
                }
            }
            assert(trim(a2) == r);
        },
    }
}

/// Classifying again a marked line rebuilt around `r` gives back `r` as its prior
/// result, for a result that is not empty, has no surrounding whitespace and holds no
/// comment prefix, and a marker and comment prefix that are not empty and hold no
/// whitespace.
pub proof fn lemma_reparse_result(
    x: Seq<char>,
    marker: Seq<char>,
    comment: Seq<char>,
    r: Seq<char>,
)
    requires
        find(trim(x), marker) is Some,
        marker.len() > 0,
        no_space(marker),
        comment.len() > 0,
        no_space(comment),
        r.len() > 0,
        trim(r) == r,
        find(r, comment) is None,
    ensures
        ({
            let y = trim(respelled(x, marker, comment, r));
            &&& find(y, marker) is Some
            &&& result_part(y.skip(find(y, marker)->0 + marker.len()), comment) == Some(r)
        }),
{
    let t = trim(x);
    lemma_find_facts(t, marker);
    let p = find(t, marker)->0;
    let after = t.skip(p + marker.len());
    let code = trim(t.take(p));
    let b = lemma_trim_sub(t.take(p));
    assert forall|q: int| !occurs_at(code, marker, q) by {
        if occurs_at(code, marker, q) {
            assert(t.subrange(b.0 + q, b.0 + q + marker.len()) =~= code.subrange(
                q,
                q + marker.len(),
            ));
            assert(occurs_at(t, marker, b.0 + q));
        }
    }
    lemma_trim_ends(t.take(p));
    lemma_trim_ends(r);
    lemma_find_facts(after, comment);
    let c2: Option<Seq<char>> = match comment_part(after, comment) {
        Some(c) => Some(trim(c)),
        None => None,
    };
    let tail = match c2 {
        Some(c) => seq![' '] + c,
        None => Seq::<char>::empty(),
    };
    if let Some(q0) = find(after, comment) {
        let s0 = after.skip(q0);
        assert(s0.subrange(0, comment.len() as int) =~= after.subrange(q0, q0 + comment.len()));
        lemma_trim_keeps_prefix(s0, comment);
        lemma_trim_keeps_prefix(trim(s0), comment);
        lemma_trim_ends(trim(s0));
    }
    let rest = marker + seq![' '] + r + tail;
    assert(!is_space(rest[0])) by {
        assert(rest[0] == marker[0]);
    }
    assert(!is_space(rest.last())) by {
        match c2 {
            Some(c) => {
                assert(rest.last() == c.last());
            },
            None => {
                assert(rest.last() == r.last());
            },
        }
    }
    let y0 = respelled(x, marker, comment, r);
    assert(y0 =~= code + seq![' '] + rest);
    let pos: int = if code.len() > 0 {
        code.len() as int + 1
    } else {
        0
    };
    if code.len() > 0 {
        assert((code + seq![' '] + rest)[0] == code[0]);
        assert((code + seq![' '] + rest).last() == rest.last());
        lemma_trim_keep(y0);
        assert(rest.subrange(0, marker.len() as int) =~= marker);
        lemma_find_after_space(code, rest, marker);
    } else {
        assert(y0.drop_first() =~= rest);
        assert(trim_start(rest) == rest);
        assert(trim_end(rest) == rest);
        assert(trim(y0) == rest);
        assert(rest.subrange(0, marker.len() as int) =~= marker);
        lemma_find_is(rest, marker, 0);
    }
    let y = trim(y0);
    assert(y.skip(pos + marker.len()) =~= seq![' '] + r + tail);
    lemma_result_after_marker(r, comment, c2);
}

} // verus!
