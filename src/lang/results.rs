//! Reading an interpreter's reply and writing it back: the `##RESULT:` lines of its
//! output, the indices and values in them, and the updates they make to the code
//! blocks; with the decimal notation that the requests use.

use vstd::prelude::*;

use crate::document::{last_update, updates_view, CodeBlock, CodeBlockUpdate};
use crate::lang::{no_assignment, respelled, split_line};
use crate::text::{
    bounded_by, chars_of, find, find_in, line_bounds, lines_at, same_text, skip_space, split_lines,
    text_of, trim, trim_range, trim_start,
};

verus! {

/// The view of results read from an interpreter: line position and value.
pub open spec fn results_view(rs: Seq<(usize, String)>) -> Seq<(usize, Seq<char>)> {
    rs.map_values(|r: (usize, String)| (r.0, r.1@))
}

/// The content of the block at position `k` once the results are written back:
/// the line rebuilt around the last result for `k`, or its old content.
pub open spec fn new_content(
    blocks: Seq<CodeBlock>,
    k: int,
    results: Seq<(usize, Seq<char>)>,
    marker: Seq<char>,
    comment: Seq<char>,
) -> Seq<char> {
    match last_update(results, k) {
        Some(v) => respelled(blocks[k].content@, marker, comment, v),
        None => blocks[k].content@,
    }
}

/// One update per block whose content the results change, in block order.
pub open spec fn changed_updates(
    blocks: Seq<CodeBlock>,
    results: Seq<(usize, Seq<char>)>,
    marker: Seq<char>,
    comment: Seq<char>,
) -> Seq<(usize, Seq<char>)>
    decreases blocks.len(),
{
    if blocks.len() == 0 {
        Seq::empty()
    } else {
        let prev = changed_updates(blocks.drop_last(), results, marker, comment);
        let k = blocks.len() - 1;
        let c = new_content(blocks, k, results, marker, comment);
        if c != blocks[k].content@ {
            prev.push((blocks[k].id@, c))
        } else {
            prev
        }
    }
}

/// The last result for position `k`, if any.
fn last_result(results: &Vec<(usize, String)>, k: usize) -> (r: Option<usize>)
    ensures
        match r {
            Some(j) => j < results.len() && last_update(results_view(results@), k as int) == Some(
                results@[j as int].1@,
            ),
            None => last_update(results_view(results@), k as int) is None,
        },
{
    let mut j = results.len();
    assert(results@.take(j as int) =~= results@);
    while j > 0
        invariant
            j <= results.len(),
            last_update(results_view(results@), k as int) == last_update(
                results_view(results@.take(j as int)),
                k as int,
            ),
        decreases j,
    {
        assert(results_view(results@.take(j as int)).drop_last() =~= results_view(
            results@.take(j - 1),
        ));
        if results[j - 1].0 == k {
            return Some(j - 1);
        }
        j = j - 1;
    }
    None
}

/// Writes the results read from an interpreter back into the blocks' lines: each
/// block with a result has its line rebuilt around the last one, and each block whose
/// content that changes yields one update, in block order.
pub fn apply_results(
    blocks: &[CodeBlock],
    marker: &str,
    comment: &str,
    results: &Vec<(usize, String)>,
) -> (r: Vec<CodeBlockUpdate>)
    ensures
        updates_view(r@) == changed_updates(blocks@, results_view(results@), marker@, comment@),
{
    let ghost rv = results_view(results@);
    let mut out: Vec<CodeBlockUpdate> = Vec::new();
    let mut k: usize = 0;
    assert(blocks@.take(0) =~= Seq::<CodeBlock>::empty());
    assert(updates_view(out@) =~= Seq::<(usize, Seq<char>)>::empty());
    while k < blocks.len()
        invariant
            k <= blocks.len(),
            rv == results_view(results@),
            updates_view(out@) == changed_updates(blocks@.take(k as int), rv, marker@, comment@),
        decreases blocks.len() - k,
    {
        let content = blocks[k].content;
        let ghost pre = blocks@.take(k as int + 1);
        assert(pre.drop_last() =~= blocks@.take(k as int));
        assert(new_content(pre, k as int, rv, marker@, comment@) == new_content(
            blocks@,
            k as int,
            rv,
            marker@,
            comment@,
        ));
        if let Some(j) = last_result(results, k) {
            let line = split_line(content, marker, comment, no_assignment);
            let rebuilt = line.reconstruct(results[j].1.as_str());
            assert(rebuilt@ == respelled(content@, marker@, comment@, results@[j as int].1@));
            if !same_text(rebuilt.as_str(), content) {
                let ghost before = out@;
                out.push(CodeBlockUpdate { id: blocks[k].id, content: rebuilt });
                assert(updates_view(out@) =~= updates_view(before).push(
                    (blocks@[k as int].id@, rebuilt@),
                ));
            }
        }
        k = k + 1;
    }
    assert(blocks@.take(k as int) =~= blocks@);
    out
}

/// Appends the decimal digits of `n` to `out`.
pub fn push_decimal(out: &mut String, n: usize)
    ensures
        final(out)@ == old(out)@ + decimal(n as nat),
    decreases n,
{
    if n >= 10 {
        push_decimal(out, n / 10);
    }
    let d = n % 10;
    let s = if d == 0 {
        "0"
    } else if d == 1 {
        "1"
    } else if d == 2 {
        "2"
    } else if d == 3 {
        "3"
    } else if d == 4 {
        "4"
    } else if d == 5 {
        "5"
    } else if d == 6 {
        "6"
    } else if d == 7 {
        "7"
    } else if d == 8 {
        "8"
    } else {
        "9"
    };
    proof {
        reveal_strlit("0");
        reveal_strlit("1");
        reveal_strlit("2");
        reveal_strlit("3");
        reveal_strlit("4");
        reveal_strlit("5");
        reveal_strlit("6");
        reveal_strlit("7");
        reveal_strlit("8");
        reveal_strlit("9");
    }
    assert(s@ =~= seq![digit_char(d as nat)]);
    out.append(s);
}

/// The digit character for `d < 10`.
pub open spec fn digit_char(d: nat) -> char {
    if d == 0 {
        '0'
    } else if d == 1 {
        '1'
    } else if d == 2 {
        '2'
    } else if d == 3 {
        '3'
    } else if d == 4 {
        '4'
    } else if d == 5 {
        '5'
    } else if d == 6 {
        '6'
    } else if d == 7 {
        '7'
    } else if d == 8 {
        '8'
    } else {
        '9'
    }
}

/// The decimal notation of `n`, without leading zeros.
pub open spec fn decimal(n: nat) -> Seq<char>
    decreases n,
{
    if n < 10 {
        seq![digit_char(n)]
    } else {
        decimal(n / 10).push(digit_char(n % 10))
    }
}

/// Whether `c` is an ASCII digit.
pub open spec fn is_digit(c: char) -> bool {
    c == '0' || c == '1' || c == '2' || c == '3' || c == '4' || c == '5' || c == '6' || c == '7'
        || c == '8' || c == '9'
}

/// The value of the ASCII digit `c`.
pub open spec fn digit_value(c: char) -> nat {
    if c == '1' {
        1
    } else if c == '2' {
        2
    } else if c == '3' {
        3
    } else if c == '4' {
        4
    } else if c == '5' {
        5
    } else if c == '6' {
        6
    } else if c == '7' {
        7
    } else if c == '8' {
        8
    } else if c == '9' {
        9
    } else {
        0
    }
}

/// The value of `c` when it is an ASCII digit.
fn digit_of(c: char) -> (r: Option<usize>)
    ensures
        r is Some <==> is_digit(c),
        r matches Some(d) ==> d == digit_value(c),
{
    if c == '0' {
        Some(0)
    } else if c == '1' {
        Some(1)
    } else if c == '2' {
        Some(2)
    } else if c == '3' {
        Some(3)
    } else if c == '4' {
        Some(4)
    } else if c == '5' {
        Some(5)
    } else if c == '6' {
        Some(6)
    } else if c == '7' {
        Some(7)
    } else if c == '8' {
        Some(8)
    } else if c == '9' {
        Some(9)
    } else {
        None
    }
}

/// The value of a string of ASCII digits.
pub open spec fn digits_value(s: Seq<char>) -> nat
    decreases s.len(),
{
    if s.len() == 0 {
        0
    } else {
        digits_value(s.drop_last()) * 10 + digit_value(s.last())
    }
}

/// Whether every character of `d` is an ASCII digit.
pub open spec fn all_digits(d: Seq<char>) -> bool {
    forall|i: int| 0 <= i < d.len() ==> is_digit(#[trigger] d[i])
}

/// `s` without one leading `+`.
pub open spec fn unsigned_part(s: Seq<char>) -> Seq<char> {
    if s.len() > 0 && s[0] == '+' {
        s.drop_first()
    } else {
        s
    }
}

/// What parsing `s` as a `usize` gives: an optional `+`, then one or more ASCII
/// digits whose value fits.
pub open spec fn parsed_index(s: Seq<char>) -> Option<usize> {
    let d = unsigned_part(s);
    if d.len() > 0 && all_digits(d) && digits_value(d) <= usize::MAX {
        Some(digits_value(d) as usize)
    } else {
        None
    }
}

proof fn lemma_digits_grow(s: Seq<char>, j: int)
    requires
        0 <= j <= s.len(),
        forall|i: int| 0 <= i < s.len() ==> is_digit(#[trigger] s[i]),
    ensures
        digits_value(s.take(j)) <= digits_value(s),
    decreases s.len() - j,
{
    if j < s.len() {
        lemma_digits_grow(s, j + 1);
        assert(s.take(j + 1).drop_last() =~= s.take(j));
        assert(digits_value(s.take(j)) <= digits_value(s.take(j)) * 10) by (nonlinear_arith);
    } else {
        assert(s.take(j) =~= s);
    }
}

/// Parses `v[lo..hi]` as a `usize`.
pub fn parse_index(v: &Vec<char>, lo: usize, hi: usize) -> (r: Option<usize>)
    requires
        lo <= hi <= v.len(),
    ensures
        r == parsed_index(v@.subrange(lo as int, hi as int)),
{
    let ghost s = v@.subrange(lo as int, hi as int);
    let mut i = lo;
    if i < hi && v[i] == '+' {
        i = i + 1;
    }
    let ghost d = v@.subrange(i as int, hi as int);
    assert(d =~= unsigned_part(s));
    if i == hi {
        return None;
    }
    let start = i;
    let mut val: usize = 0;
    assert(d.take(0) =~= Seq::<char>::empty());
    while i < hi
        invariant
            lo <= start <= i <= hi <= v.len(),
            d == v@.subrange(start as int, hi as int),
            s == v@.subrange(lo as int, hi as int),
            d.len() > 0,
            d == unsigned_part(s),
            forall|k: int| 0 <= k < i - start ==> is_digit(#[trigger] d[k]),
            val == digits_value(d.take(i - start)),
        decreases hi - i,
    {
        let c = v[i];
        let digit = match digit_of(c) {
            Some(x) => x,
            None => {
                assert(!is_digit(d[i - start]));
                assert(!(forall|k: int| 0 <= k < d.len() ==> is_digit(#[trigger] d[k])));
                return None;
            },
        };
        assert(d.take(i - start + 1).drop_last() =~= d.take(i - start));
        assert(d.take(i - start + 1).last() == c);
        assert(digits_value(d.take(i - start + 1)) == val * 10 + digit);
        let next = match val.checked_mul(10) {
            Some(m) => m.checked_add(digit),
            None => None,
        };
        match next {
            Some(x) => {
                val = x;
            },
            None => {
                proof {
                    assert(val * 10 + digit > usize::MAX);
                    if all_digits(d) {
                        lemma_digits_grow(d, i - start + 1);
                    }
                }
                return None;
            },
        }
        i = i + 1;
    }
    assert(d.take(i - start) =~= d);
    Some(val)
}

/// The lines of an interpreter's output as `str::lines` gives them: split at each
/// newline, a carriage return before a newline dropped with it.
pub open spec fn output_lines(out: Seq<char>) -> Seq<Seq<char>> {
    let ls = split_lines(out);
    Seq::new(
        ls.len(),
        |k: int|
            if k < ls.len() - 1 && ls[k].len() > 0 && ls[k].last() == '\r' {
                ls[k].drop_last()
            } else {
                ls[k]
            },
    )
}

/// The entries that `entry` reads from the lines, in order.
pub open spec fn collect_entries(
    ls: Seq<Seq<char>>,
    entry: spec_fn(Seq<char>) -> Option<(usize, Seq<char>)>,
) -> Seq<(usize, Seq<char>)>
    decreases ls.len(),
{
    if ls.len() == 0 {
        Seq::empty()
    } else {
        let prev = collect_entries(ls.drop_last(), entry);
        match entry(ls.last()) {
            Some(e) => prev.push(e),
            None => prev,
        }
    }
}

/// The tag that starts a result line.
pub open spec fn result_tag() -> Seq<char> {
    seq!['#', '#', 'R', 'E', 'S', 'U', 'L', 'T', ':']
}

/// Whether `v[lo..hi]` starts with the result tag.
pub(crate) fn has_result_tag(v: &Vec<char>, lo: usize, hi: usize) -> (r: bool)
    requires
        lo <= hi <= v.len(),
    ensures
        r == (hi - lo >= 9 && v@.subrange(lo as int, hi as int).take(9) == result_tag()),
{
    if hi - lo < 9 {
        return false;
    }
    let ok = v[lo] == '#' && v[lo + 1] == '#' && v[lo + 2] == 'R' && v[lo + 3] == 'E' && v[lo + 4]
        == 'S' && v[lo + 5] == 'U' && v[lo + 6] == 'L' && v[lo + 7] == 'T' && v[lo + 8] == ':';
    if ok {
        assert(v@.subrange(lo as int, hi as int).take(9) =~= result_tag());
    } else {
        assert(v@.subrange(lo as int, hi as int).take(9) != result_tag()) by {
            let t = v@.subrange(lo as int, hi as int).take(9);
            if t == result_tag() {
                assert(t[0] == '#' && t[1] == '#' && t[2] == 'R' && t[3] == 'E');
                assert(t[4] == 'S' && t[5] == 'U' && t[6] == 'L' && t[7] == 'T' && t[8] == ':');
            }
        }
    }
    ok
}

/// The entry of a result line in the form `##RESULT: <index> <value>`: the index runs
/// to the first space, the value is the rest, trimmed.
pub open spec fn marker_entry(l: Seq<char>) -> Option<(usize, Seq<char>)> {
    if l.len() >= 9 && l.take(9) == result_tag() {
        let r = trim_start(l.skip(9));
        let idx = match find(r, seq![' ']) {
            Some(p) => r.take(p),
            None => r,
        };
        let value = match find(r, seq![' ']) {
            Some(p) => trim(r.skip(p + 1)),
            None => Seq::empty(),
        };
        match parsed_index(idx) {
            Some(i) => Some((i, value)),
            None => None,
        }
    } else {
        None
    }
}

/// Reads the result line `v[lo..hi]` as `marker_entry` does.
fn marker_entry_at(v: &Vec<char>, lo: usize, hi: usize) -> (r: Option<(usize, String)>)
    requires
        lo <= hi <= v.len(),
    ensures
        match marker_entry(v@.subrange(lo as int, hi as int)) {
            Some(e) => r matches Some(x) && x.0 == e.0 && x.1@ == e.1,
            None => r is None,
        },
{
    let ghost l = v@.subrange(lo as int, hi as int);
    if !has_result_tag(v, lo, hi) {
        return None;
    }
    assert(l.skip(9) =~= v@.subrange(lo + 9, hi as int));
    let a = skip_space(v, lo + 9, hi);
    let ghost r = v@.subrange(a as int, hi as int);
    proof {
        reveal_strlit(" ");
    }
    let space = chars_of(" ");
    assert(space@ =~= seq![' ']);
    let mut idx_end = hi;
    let mut value = String::new();
    if let Some(p) = find_in(v, a, hi, &space) {
        assert(r.take(p - a) =~= v@.subrange(a as int, p as int));
        assert(r.skip(p - a + 1) =~= v@.subrange(p + 1, hi as int));
        let (b1, b2) = trim_range(v, p + 1, hi);
        idx_end = p;
        value = text_of(v, b1, b2);
    } else {
        assert(r =~= v@.subrange(a as int, hi as int));
    }
    match parse_index(v, a, idx_end) {
        Some(i) => Some((i, value)),
        None => None,
    }
}

/// The bounds of output line `k` as `output_lines` gives it.
pub(crate) fn output_line_at(v: &Vec<char>, bounds: &Vec<(usize, usize)>, k: usize) -> (r: (usize, usize))
    requires
        lines_at(bounds@, v@),
        k < bounds.len(),
    ensures
        r.0 <= r.1 <= v.len(),
        v@.subrange(r.0 as int, r.1 as int) == output_lines(v@)[k as int],
{
    let (a, b) = bounds[k];
    assert(bounded_by(bounds@[k as int], v@.len() as int));
    assert(v@.subrange(bounds@[k as int].0 as int, bounds@[k as int].1 as int) == split_lines(
        v@,
    )[k as int]);
    if k + 1 < bounds.len() && b > a && v[b - 1] == '\r' {
        assert(v@.subrange(a as int, b - 1) =~= v@.subrange(a as int, b as int).drop_last());
        (a, b - 1)
    } else {
        (a, b)
    }
}

/// The results in the output of an interpreter that writes lines of the form
/// `##RESULT: <index> <value>`, in order.
pub fn marker_results(output: &str) -> (r: Vec<(usize, String)>)
    ensures
        results_view(r@) == collect_entries(output_lines(output@), |l: Seq<char>| marker_entry(l)),
{
    let v = chars_of(output);
    let bounds = line_bounds(&v);
    let ghost ls = output_lines(output@);
    let ghost f = |l: Seq<char>| marker_entry(l);
    let mut out: Vec<(usize, String)> = Vec::new();
    let mut k: usize = 0;
    assert(ls.take(0) =~= Seq::<Seq<char>>::empty());
    assert(results_view(out@) =~= Seq::<(usize, Seq<char>)>::empty());
    while k < bounds.len()
        invariant
            v@ == output@,
            ls == output_lines(output@),
            f == (|l: Seq<char>| marker_entry(l)),
            lines_at(bounds@, v@),
            k <= bounds.len(),
            results_view(out@) == collect_entries(ls.take(k as int), f),
        decreases bounds.len() - k,
    {
        let (a, b) = output_line_at(&v, &bounds, k);
        assert(ls.take(k + 1).drop_last() =~= ls.take(k as int));
        let ghost before = out@;
        if let Some(e) = marker_entry_at(&v, a, b) {
            out.push(e);
            assert(results_view(out@) =~= results_view(before).push((e.0, e.1@)));
        }
        k = k + 1;
    }
    assert(ls.take(k as int) =~= ls);
    out
}

/// `[s]` when `s` is not empty, else nothing.
pub open spec fn unless_empty(s: Seq<char>) -> Seq<Seq<char>> {
    if s.len() == 0 {
        Seq::empty()
    } else {
        seq![s]
    }
}

/// The views of a list of strings.
pub open spec fn strings_view(v: Seq<String>) -> Seq<Seq<char>> {
    v.map_values(|s: String| s@)
}

} // verus!
