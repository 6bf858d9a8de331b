//! Choosing a language and a scanning strategy from what is known of the input: a
//! file's extension, or the language tag of its first recognised fenced block.

use vstd::prelude::*;

use crate::lang::opt_view;
use crate::text::{bounded_by, chars_of, line_bounds, lines_at, skip_space, split_lines, trim_start};

verus! {

/// The code of `c` with ASCII capitals turned into small letters.
pub open spec fn lower_code(c: char) -> u32 {
    let u = c as u32;
    if 65 <= u <= 90 {
        (u + 32) as u32
    } else {
        u
    }
}

/// Whether `candidate`, with ASCII capitals made small, is exactly `choice`.
pub open spec fn same_ignoring_case(candidate: Seq<char>, choice: Seq<char>) -> bool {
    candidate.len() == choice.len() && forall|i: int|
        0 <= i < candidate.len() ==> lower_code(#[trigger] candidate[i]) == choice[i] as u32
}

/// Whether `candidate` is one of `choices` once its ASCII capitals are made small.
pub open spec fn matches_any(candidate: Seq<char>, choices: Seq<&str>) -> bool {
    exists|i: int| 0 <= i < choices.len() && same_ignoring_case(candidate, #[trigger] choices[i]@)
}

/// The position just after the last `/` of `p` before `end`, or 0.
pub open spec fn name_start(p: Seq<char>, end: int) -> int
    decreases end,
{
    if end <= 0 {
        0
    } else if p[end - 1] == '/' {
        end
    } else {
        name_start(p, end - 1)
    }
}

/// Whether `p[..end]` ends with a slash, or with a `.` component (a `.` that starts
/// the path or follows a slash).
pub open spec fn ends_in_separator(p: Seq<char>, end: int) -> bool {
    end > 0 && (p[end - 1] == '/' || (p[end - 1] == '.' && (end == 1 || p[end - 2] == '/')))
}

/// The end of `p` once its trailing slashes and `.` components are dropped.
pub open spec fn name_end(p: Seq<char>, end: int) -> int
    decreases end,
{
    if ends_in_separator(p, end) {
        name_end(p, end - 1)
    } else {
        end
    }
}

/// The position of the last `.` in `n[..end]`, if any.
pub open spec fn last_dot(n: Seq<char>, end: int) -> Option<int>
    decreases end,
{
    if end <= 0 {
        None
    } else if n[end - 1] == '.' {
        Some(end - 1)
    } else {
        last_dot(n, end - 1)
    }
}

/// The file name of a path: its last component, trailing slashes and `.` components
/// dropped.
pub open spec fn file_name(p: Seq<char>) -> Seq<char> {
    let e = name_end(p, p.len() as int);
    p.subrange(name_start(p, e), e)
}

/// The extension of a path: what follows the last `.` of its file name, unless the
/// name is `..` or that dot starts it.
pub open spec fn path_extension(p: Seq<char>) -> Option<Seq<char>> {
    let n = file_name(p);
    if n == seq!['.', '.'] {
        None
    } else {
        match last_dot(n, n.len() as int) {
            Some(d) => if d == 0 {
                None
            } else {
                Some(n.skip(d + 1))
            },
            None => None,
        }
    }
}

/// Whether `c` may appear in a fence's language tag.
pub open spec fn is_tag_char(c: char) -> bool {
    let u = c as u32;
    (48 <= u <= 57) || (65 <= u <= 90) || (97 <= u <= 122) || c == '_' || c == '-'
}

/// The length of the tag that starts `s`.
pub open spec fn tag_len(s: Seq<char>) -> nat
    decreases s.len(),
{
    if s.len() > 0 && is_tag_char(s[0]) {
        1 + tag_len(s.drop_first())
    } else {
        0
    }
}

/// The language tag of a fence line.
pub open spec fn fence_tag(l: Seq<char>) -> Option<Seq<char>> {
    let t = trim_start(l);
    if t.len() >= 3 && t[0] == '`' && t[1] == '`' && t[2] == '`' {
        Some(t.skip(3).take(tag_len(t.skip(3)) as int))
    } else {
        None
    }
}

/// The language that a fence tag names.
pub open spec fn tag_language(tag: Seq<char>) -> Option<Seq<char>> {
    if same_ignoring_case(tag, "python"@) || same_ignoring_case(tag, "py"@) {
        Some("python"@)
    } else if same_ignoring_case(tag, "numbat"@) {
        Some("numbat"@)
    } else if same_ignoring_case(tag, "fend"@) {
        Some("fend"@)
    } else {
        None
    }
}

/// The language of the first fence line, among `ls`, whose tag names one.
pub open spec fn markdown_language(ls: Seq<Seq<char>>) -> Option<Seq<char>>
    decreases ls.len(),
{
    if ls.len() == 0 {
        None
    } else {
        match fence_tag(ls[0]) {
            Some(tag) => match tag_language(tag) {
                Some(x) => Some(x),
                None => markdown_language(ls.drop_first()),
            },
            None => markdown_language(ls.drop_first()),
        }
    }
}

/// The code of `c` with an ASCII capital made small.
fn lower_code_of(c: char) -> (r: u32)
    ensures
        r == lower_code(c),
{
    let u = c as u32;
    if 65 <= u && u <= 90 {
        u + 32
    } else {
        u
    }
}

/// Whether `v[lo..hi]`, with ASCII capitals made small, is exactly `choice`.
fn same_ignoring_case_at(v: &Vec<char>, lo: usize, hi: usize, choice: &str) -> (r: bool)
    requires
        lo <= hi <= v.len(),
    ensures
        r == same_ignoring_case(v@.subrange(lo as int, hi as int), choice@),
{
    let ghost c = v@.subrange(lo as int, hi as int);
    let w = chars_of(choice);
    if w.len() != hi - lo {
        return false;
    }
    let mut i: usize = 0;
    while i < w.len()
        invariant
            i <= w.len() == hi - lo,
            hi <= v.len(),
            c == v@.subrange(lo as int, hi as int),
            w@ == choice@,
            forall|k: int| 0 <= k < i ==> lower_code(#[trigger] c[k]) == choice@[k] as u32,
        decreases w.len() - i,
    {
        if lower_code_of(v[lo + i]) != w[i] as u32 {
            assert(lower_code(c[i as int]) != choice@[i as int] as u32);
            return false;
        }
        i = i + 1;
    }
    true
}

/// Whether `candidate` is one of `choices` once its ASCII capitals are made small.
pub fn matches_ignore_case(candidate: &str, choices: &[&str]) -> (r: bool)
    ensures
        r == matches_any(candidate@, choices@),
{
    let v = chars_of(candidate);
    assert(v@.subrange(0, v.len() as int) =~= v@);
    let mut i: usize = 0;
    while i < choices.len()
        invariant
            i <= choices@.len(),
            v@ == candidate@,
            v@.subrange(0, v.len() as int) == v@,
            forall|k: int| 0 <= k < i ==> !same_ignoring_case(candidate@, #[trigger] choices@[k]@),
        decreases choices@.len() - i,
    {
        if same_ignoring_case_at(&v, 0, v.len(), choices[i]) {
            return true;
        }
        i = i + 1;
    }
    false
}

/// The bounds of the extension of the path `v`, if it has one.
fn extension_bounds(v: &Vec<char>) -> (r: Option<(usize, usize)>)
    ensures
        match path_extension(v@) {
            Some(e) => r matches Some(b) && b.0 <= b.1 <= v.len() && v@.subrange(
                b.0 as int,
                b.1 as int,
            ) == e,
            None => r is None,
        },
{
    let ghost p = v@;
    let mut e = v.len();
    while e > 0 && (v[e - 1] == '/' || (v[e - 1] == '.' && (e == 1 || v[e - 2] == '/')))
        invariant
            e <= v.len(),
            name_end(p, p.len() as int) == name_end(p, e as int),
            p == v@,
        decreases e,
    {
        e = e - 1;
    }
    let mut s = e;
    while s > 0 && v[s - 1] != '/'
        invariant
            s <= e <= v.len(),
            name_start(p, e as int) == name_start(p, s as int),
            p == v@,
        decreases s,
    {
        s = s - 1;
    }
    let ghost n = v@.subrange(s as int, e as int);
    assert(n == file_name(p));
    if e - s == 2 && v[s] == '.' && v[s + 1] == '.' {
        assert(n =~= seq!['.', '.']);
        return None;
    }
    assert(n != seq!['.', '.']) by {
        if n == seq!['.', '.'] {
            assert(n[0] == '.' && n[1] == '.');
        }
    }
    let mut d = e;
    while d > s && v[d - 1] != '.'
        invariant
            s <= d <= e <= v.len(),
            n == v@.subrange(s as int, e as int),
            last_dot(n, n.len() as int) == last_dot(n, d - s),
        decreases d,
    {
        assert(n[d - s - 1] == v@[d - 1]);
        d = d - 1;
    }
    if d == s {
        return None;
    }
    assert(n[d - s - 1] == v@[d - 1]);
    if d - 1 == s {
        return None;
    }
    assert(n.skip(d - s) =~= v@.subrange(d as int, e as int));
    Some((d, e))
}

/// The language that a path's extension names: `py` and `pyw` Python, `nbt` and `nb`
/// Numbat, `fend` and `fd` Fend, ignoring ASCII case.
pub fn guess_language_from_path(path: &str) -> (r: Option<&'static str>)
    ensures
        match path_extension(path@) {
            None => r is None,
            Some(e) => if matches_any(e, seq!["py", "pyw"]) {
                opt_view(r) == Some("python"@)
            } else if matches_any(e, seq!["nbt", "nb"]) {
                opt_view(r) == Some("numbat"@)
            } else if matches_any(e, seq!["fend", "fd"]) {
                opt_view(r) == Some("fend"@)
            } else {
                r is None
            },
        },
{
    let v = chars_of(path);
    let (a, b) = match extension_bounds(&v) {
        Some(x) => x,
        None => {
            return None;
        },
    };
    let ext = path.substring_char(a, b);
    let mut python: Vec<&str> = Vec::new();
    python.push("py");
    python.push("pyw");
    let mut numbat: Vec<&str> = Vec::new();
    numbat.push("nbt");
    numbat.push("nb");
    let mut fend: Vec<&str> = Vec::new();
    fend.push("fend");
    fend.push("fd");
    assert(python@ =~= seq!["py", "pyw"]);
    assert(numbat@ =~= seq!["nbt", "nb"]);
    assert(fend@ =~= seq!["fend", "fd"]);
    if matches_ignore_case(ext, python.as_slice()) {
        Some("python")
    } else if matches_ignore_case(ext, numbat.as_slice()) {
        Some("numbat")
    } else if matches_ignore_case(ext, fend.as_slice()) {
        Some("fend")
    } else {
        None
    }
}

/// Whether a path names a Markdown file: its extension is `md`, `markdown`, `mdown`
/// or `mkd`, ignoring ASCII case.
pub fn is_markdown_path(path: &str) -> (r: bool)
    ensures
        r == (path_extension(path@) matches Some(e) && matches_any(
            e,
            seq!["md", "markdown", "mdown", "mkd"],
        )),
{
    let v = chars_of(path);
    let (a, b) = match extension_bounds(&v) {
        Some(x) => x,
        None => {
            return false;
        },
    };
    let ext = path.substring_char(a, b);
    let mut kinds: Vec<&str> = Vec::new();
    kinds.push("md");
    kinds.push("markdown");
    kinds.push("mdown");
    kinds.push("mkd");
    assert(kinds@ =~= seq!["md", "markdown", "mdown", "mkd"]);
    matches_ignore_case(ext, kinds.as_slice())
}

/// The language that the fence line `v[lo..hi]` names, if it is one.
fn fence_language_at(v: &Vec<char>, lo: usize, hi: usize) -> (r: Option<&'static str>)
    requires
        lo <= hi <= v.len(),
    ensures
        opt_view(r) == (match fence_tag(v@.subrange(lo as int, hi as int)) {
            Some(tag) => tag_language(tag),
            None => None,
        }),
{
    let ghost l = v@.subrange(lo as int, hi as int);
    let a = skip_space(v, lo, hi);
    let ghost t = v@.subrange(a as int, hi as int);
    if !(hi - a >= 3 && v[a] == '`' && v[a + 1] == '`' && v[a + 2] == '`') {
        return None;
    }
    let start = a + 3;
    let mut e = start;
    while e < hi && is_tag_char_exec(v[e])
        invariant
            start <= e <= hi <= v.len(),
            tag_len(v@.subrange(start as int, hi as int)) == (e - start) + tag_len(
                v@.subrange(e as int, hi as int),
            ),
        decreases hi - e,
    {
        assert(v@.subrange(e as int, hi as int).drop_first() =~= v@.subrange(e + 1, hi as int));
        e = e + 1;
    }
    assert(t.skip(3) =~= v@.subrange(start as int, hi as int));
    assert(t.skip(3).take(tag_len(t.skip(3)) as int) =~= v@.subrange(start as int, e as int));
    proof {
        reveal_strlit("python");
        reveal_strlit("numbat");
        reveal_strlit("fend");
    }
    if same_ignoring_case_at(v, start, e, "python") || same_ignoring_case_at(v, start, e, "py") {
        Some("python")
    } else if same_ignoring_case_at(v, start, e, "numbat") {
        Some("numbat")
    } else if same_ignoring_case_at(v, start, e, "fend") {
        Some("fend")
    } else {
        None
    }
}

/// Whether `c` may appear in a fence's language tag.
fn is_tag_char_exec(c: char) -> (r: bool)
    ensures
        r == is_tag_char(c),
{
    let u = c as u32;
    (48 <= u && u <= 57) || (65 <= u && u <= 90) || (97 <= u && u <= 122) || c == '_' || c == '-'
}

/// The language named by the tag of the first fence line whose tag names one of
/// `python` (or `py`), `numbat` and `fend`, ignoring ASCII case.
pub fn detect_markdown_language(contents: &str) -> (r: Option<&'static str>)
    ensures
        opt_view(r) == markdown_language(split_lines(contents@)),
{
    let v = chars_of(contents);
    let bounds = line_bounds(&v);
    let ghost ls = split_lines(contents@);
    let mut k: usize = 0;
    assert(ls.skip(0) =~= ls);
    while k < bounds.len()
        invariant
            v@ == contents@,
            ls == split_lines(contents@),
            lines_at(bounds@, v@),
            k <= bounds.len(),
            markdown_language(ls) == markdown_language(ls.skip(k as int)),
        decreases bounds.len() - k,
    {
        let (a, b) = bounds[k];
        assert(bounded_by(bounds@[k as int], v@.len() as int));
        assert(v@.subrange(bounds@[k as int].0 as int, bounds@[k as int].1 as int) == ls[k as int]);
        assert(ls.skip(k as int)[0] == ls[k as int]);
        assert(ls.skip(k as int).drop_first() =~= ls.skip(k + 1));
        if let Some(lang) = fence_language_at(&v, a, b) {
            return Some(lang);
        }
        k = k + 1;
    }
    None
}

} // verus!
