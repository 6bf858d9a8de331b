//! Character-level building blocks: whitespace, trimming and substring search,
//! each stated over `Seq<char>`.

use vstd::prelude::*;
use vstd::std_specs::iter::IteratorSpec;

verus! {

/// The Unicode `White_Space` characters, the set that `char::is_whitespace` accepts.
pub open spec fn is_space(c: char) -> bool {
    let u = c as u32;
    ||| 0x9 <= u <= 0xD
    ||| u == 0x20
    ||| u == 0x85
    ||| u == 0xA0
    ||| u == 0x1680
    ||| 0x2000 <= u <= 0x200A
    ||| u == 0x2028
    ||| u == 0x2029
    ||| u == 0x202F
    ||| u == 0x205F
    ||| u == 0x3000
}

pub fn is_space_char(c: char) -> (r: bool)
    ensures
        r == is_space(c),
{
    let u = c as u32;
    (0x9 <= u && u <= 0xD) || u == 0x20 || u == 0x85 || u == 0xA0 || u == 0x1680 || (0x2000
        <= u && u <= 0x200A) || u == 0x2028 || u == 0x2029 || u == 0x202F || u == 0x205F || u
        == 0x3000
}

/// `s` without its leading whitespace.
pub open spec fn trim_start(s: Seq<char>) -> Seq<char>
    decreases s.len(),
{
    if s.len() > 0 && is_space(s[0]) {
        trim_start(s.drop_first())
    } else {
        s
    }
}

/// `s` without its trailing whitespace.
pub open spec fn trim_end(s: Seq<char>) -> Seq<char>
    decreases s.len(),
{
    if s.len() > 0 && is_space(s.last()) {
        trim_end(s.drop_last())
    } else {
        s
    }
}

/// `s` without leading and trailing whitespace.
pub open spec fn trim(s: Seq<char>) -> Seq<char> {
    trim_end(trim_start(s))
}

/// The characters of `s`, one element each.
pub fn chars_of(s: &str) -> (v: Vec<char>)
    ensures
        v@ == s@,
{
    broadcast use vstd::string::group_string_axioms;

    let mut it = s.chars();
    let mut v: Vec<char> = Vec::new();
    loop
        invariant
            v@ + it.remaining() == s@,
            it.decrease() is Some,
        decreases it.decrease()->0,
    {
        let ghost before = it.remaining();
        match it.next() {
            Some(c) => {
                v.push(c);
                assert(v@ + it.remaining() =~= s@) by {
                    assert(before =~= seq![c] + before.drop_first());
                }
            },
            None => {
                assert(v@ =~= s@);
                return v;
            },
        }
    }
}

/// Relies on `String::push`, which appends one character to the string.
#[verifier::external_body]
pub(crate) fn push_char(s: &mut String, c: char)
    ensures
        final(s)@ == old(s)@.push(c),
{
    s.push(c);
}

/// The characters `v[lo..hi]` as a string.
pub fn text_of(v: &Vec<char>, lo: usize, hi: usize) -> (r: String)
    requires
        lo <= hi <= v.len(),
    ensures
        r@ == v@.subrange(lo as int, hi as int),
{
    let mut out = String::new();
    let mut i = lo;
    while i < hi
        invariant
            lo <= i <= hi <= v.len(),
            out@ == v@.subrange(lo as int, i as int),
        decreases hi - i,
    {
        push_char(&mut out, v[i]);
        i = i + 1;
        assert(out@ =~= v@.subrange(lo as int, i as int));
    }
    out
}

/// The start, inside `lo..hi`, of `v[lo..hi]` with its leading whitespace skipped.
pub fn skip_space(v: &Vec<char>, lo: usize, hi: usize) -> (a: usize)
    requires
        lo <= hi <= v.len(),
    ensures
        lo <= a <= hi,
        v@.subrange(a as int, hi as int) == trim_start(v@.subrange(lo as int, hi as int)),
{
    let mut a = lo;
    while a < hi && is_space_char(v[a])
        invariant
            lo <= a <= hi <= v.len(),
            trim_start(v@.subrange(lo as int, hi as int)) == trim_start(
                v@.subrange(a as int, hi as int),
            ),
        decreases hi - a,
    {
        assert(v@.subrange(a as int, hi as int).drop_first() =~= v@.subrange(
            a + 1,
            hi as int,
        ));
        a = a + 1;
    }
    a
}

/// The bounds, inside `lo..hi`, of `v[lo..hi]` with its whitespace trimmed off both ends.
pub fn trim_range(v: &Vec<char>, lo: usize, hi: usize) -> (r: (usize, usize))
    requires
        lo <= hi <= v.len(),
    ensures
        lo <= r.0 <= r.1 <= hi,
        v@.subrange(r.0 as int, r.1 as int) == trim(v@.subrange(lo as int, hi as int)),
{
    let a = skip_space(v, lo, hi);
    let mut b = hi;
    while b > a && is_space_char(v[b - 1])
        invariant
            lo <= a <= b <= hi <= v.len(),
            trim_end(v@.subrange(a as int, hi as int)) == trim_end(v@.subrange(a as int, b as int)),
        decreases b - a,
    {
        assert(v@.subrange(a as int, b as int).drop_last() =~= v@.subrange(a as int, b - 1));
        b = b - 1;
    }
    assert(trim_end(v@.subrange(a as int, b as int)) == v@.subrange(a as int, b as int));
    (a, b)
}

/// Whether `n` occurs in `h` starting at position `p`.
pub open spec fn occurs_at(h: Seq<char>, n: Seq<char>, p: int) -> bool {
    0 <= p && p + n.len() <= h.len() && h.subrange(p, p + n.len()) == n
}

/// The position of the first occurrence of `n` in `h`, if there is one.
#[verifier::opaque]
pub open spec fn find(h: Seq<char>, n: Seq<char>) -> Option<int> {
    if exists|p: int| occurs_at(h, n, p) {
        Some(choose|p: int| occurs_at(h, n, p) && forall|q: int| 0 <= q < p ==> !occurs_at(h, n, q))
    } else {
        None
    }
}

/// Whether `n` occurs in `v` at position `p`.
fn occurs_at_exec(v: &Vec<char>, p: usize, n: &Vec<char>) -> (r: bool)
    requires
        p + n.len() <= v.len(),
    ensures
        r == (v@.subrange(p as int, p + n.len()) == n@),
{
    let mut k: usize = 0;
    while k < n.len()
        invariant
            p + n.len() <= v.len(),
            k <= n.len(),
            v@.subrange(p as int, p + k) == n@.take(k as int),
        decreases n.len() - k,
    {
        if v[p + k] != n[k] {
            assert(v@.subrange(p as int, p + n.len())[k as int] != n@[k as int]);
            return false;
        }
        k = k + 1;
        assert(v@.subrange(p as int, p + k) =~= n@.take(k as int));
    }
    assert(n@.take(n.len() as int) =~= n@);
    true
}

/// Position of the first occurrence of `n` in `v[lo..hi]`, counted from the start of `v`.
pub fn find_in(v: &Vec<char>, lo: usize, hi: usize, n: &Vec<char>) -> (r: Option<usize>)
    requires
        lo <= hi <= v.len(),
    ensures
        match find(v@.subrange(lo as int, hi as int), n@) {
            Some(p) => r is Some && r->0 == lo + p,
            None => r is None,
        },
        r matches Some(x) ==> lo <= x && x + n.len() <= hi && occurs_at(
            v@.subrange(lo as int, hi as int),
            n@,
            x - lo,
        ),
{
    let ghost h = v@.subrange(lo as int, hi as int);
    proof {
        reveal(find);
    }
    if n.len() > hi - lo {
        assert forall|p: int| !occurs_at(h, n@, p) by {}
        return None;
    }
    let last = hi - n.len();
    let mut p = lo;
    while p <= last
        invariant
            lo <= p <= last + 1,
            last + n.len() == hi,
            hi <= v.len(),
            h == v@.subrange(lo as int, hi as int),
            forall|q: int| 0 <= q < p - lo ==> !occurs_at(h, n@, q),
        decreases last + 1 - p,
    {
        if occurs_at_exec(v, p, n) {
            let ghost k = p - lo;
            assert(h.subrange(k, k + n.len()) =~= v@.subrange(p as int, p + n.len()));
            assert(occurs_at(h, n@, k));
            let ghost c = choose|q: int| occurs_at(h, n@, q) && forall|j: int| 0 <= j < q ==> !occurs_at(h, n@, j);
            assert(c == k);
            proof {
                reveal(find);
            }
            return Some(p);
        }
        assert(h.subrange(p - lo, p - lo + n.len()) =~= v@.subrange(p as int, p + n.len()));
        if p == last {
            assert forall|q: int| !occurs_at(h, n@, q) by {
                if 0 <= q && q + n.len() <= h.len() {
                    assert(q <= p - lo);
                }
            }
            proof {
                reveal(find);
            }
            return None;
        }
        p = p + 1;
    }
    None
}

/// The lines of `s`: the pieces between its newline characters. A text with `k`
/// newlines has `k + 1` lines; the newlines belong to none of them.
pub open spec fn split_lines(s: Seq<char>) -> Seq<Seq<char>>
    decreases s.len(),
{
    if s.len() == 0 {
        seq![Seq::empty()]
    } else {
        let prev = split_lines(s.drop_last());
        if s.last() == '\n' {
            prev.push(Seq::empty())
        } else {
            prev.update(prev.len() - 1, prev.last().push(s.last()))
        }
    }
}

/// The lines joined with a single newline between each two.
pub open spec fn join_lines(ls: Seq<Seq<char>>) -> Seq<char>
    decreases ls.len(),
{
    if ls.len() == 0 {
        Seq::empty()
    } else if ls.len() == 1 {
        ls[0]
    } else {
        join_lines(ls.drop_last()) + seq!['\n'] + ls.last()
    }
}

pub proof fn lemma_split_lines_nonempty(s: Seq<char>)
    ensures
        split_lines(s).len() >= 1,
    decreases s.len(),
{
    if s.len() > 0 {
        lemma_split_lines_nonempty(s.drop_last());
    }
}

/// No line of a text is longer than the text.
pub proof fn lemma_split_lines_short(s: Seq<char>)
    ensures
        forall|i: int| 0 <= i < split_lines(s).len() ==> #[trigger] split_lines(s)[i].len() <= s.len(),
    decreases s.len(),
{
    if s.len() > 0 {
        lemma_split_lines_short(s.drop_last());
        lemma_split_lines_nonempty(s.drop_last());
    }
}

proof fn lemma_join_extend_last(ls: Seq<Seq<char>>, x: Seq<char>)
    requires
        ls.len() >= 1,
    ensures
        join_lines(ls.update(ls.len() - 1, ls.last() + x)) == join_lines(ls) + x,
{
    let ls2 = ls.update(ls.len() - 1, ls.last() + x);
    if ls.len() == 1 {
    } else {
        assert(ls2.drop_last() =~= ls.drop_last());
        assert(join_lines(ls2) =~= join_lines(ls) + x);
    }
}

/// Joining the lines of a text with newlines gives the text back.
pub proof fn lemma_join_split(s: Seq<char>)
    ensures
        join_lines(split_lines(s)) == s,
    decreases s.len(),
{
    if s.len() > 0 {
        let t = s.drop_last();
        lemma_join_split(t);
        lemma_split_lines_nonempty(t);
        let prev = split_lines(t);
        if s.last() == '\n' {
            assert(prev.push(Seq::empty()).drop_last() =~= prev);
            assert(join_lines(split_lines(s)) =~= s);
        } else {
            assert(prev.last().push(s.last()) =~= prev.last() + seq![s.last()]);
            lemma_join_extend_last(prev, seq![s.last()]);
            assert(join_lines(split_lines(s)) =~= s);
        }
    }
}

/// Whether `b` is an ordered pair of positions no greater than `n`.
pub open spec fn bounded_by(b: (usize, usize), n: int) -> bool {
    b.0 <= b.1 <= n
}

/// Whether `b` holds the `[start, end)` bounds of each line of `v`, in order.
pub open spec fn lines_at(b: Seq<(usize, usize)>, v: Seq<char>) -> bool {
    &&& b.len() == split_lines(v).len()
    &&& forall|k: int|
        0 <= k < b.len() ==> bounded_by(#[trigger] b[k], v.len() as int) && v.subrange(
            b[k].0 as int,
            b[k].1 as int,
        ) == split_lines(v)[k]
}

/// The `[start, end)` bounds of each line of `v`, in order.
pub fn line_bounds(v: &Vec<char>) -> (r: Vec<(usize, usize)>)
    ensures
        lines_at(r@, v@),
{
    let mut r: Vec<(usize, usize)> = Vec::new();
    let mut start: usize = 0;
    let mut i: usize = 0;
    assert(v@.take(0) =~= Seq::<char>::empty());
    assert(v@.subrange(0, 0) =~= Seq::<char>::empty());
    let ghost mut cur = split_lines(v@.take(0));
    while i < v.len()
        invariant
            start <= i <= v.len(),
            cur == split_lines(v@.take(i as int)),
            r.len() + 1 == cur.len(),
            forall|k: int| 0 <= k < r.len() ==> #[trigger] bounded_by(r@[k], i as int),
            forall|k: int|
                0 <= k < r.len() ==> v@.subrange(#[trigger] r@[k].0 as int, r@[k].1 as int)
                    == cur[k],
            v@.subrange(start as int, i as int) == cur.last(),
        decreases v.len() - i,
    {
        let ghost prev = cur;
        let ghost r0 = r@;
        assert(v@.take(i + 1).drop_last() =~= v@.take(i as int));
        assert(v@.take(i + 1).last() == v@[i as int]);
        if v[i] == '\n' {
            proof {
                cur = prev.push(Seq::empty());
            }
            assert(split_lines(v@.take(i + 1)) == cur);
            r.push((start, i));
            assert(r@ == r0.push((start, i)));
            assert forall|k: int| 0 <= k < r.len() implies v@.subrange(
                #[trigger] r@[k].0 as int,
                r@[k].1 as int,
            ) == cur[k] && bounded_by(r@[k], i + 1) by {
                if k < r.len() - 1 {
                    assert(r@[k] == r0[k]);
                    assert(cur[k] == prev[k]);
                    assert(bounded_by(r0[k], i as int));
                } else {
                    assert(r@[k] == (start, i));
                    assert(cur[k] == prev.last());
                }
            }
            start = i + 1;
            i = i + 1;
            assert(v@.subrange(start as int, i as int) =~= Seq::<char>::empty());
        } else {
            proof {
                cur = prev.update(prev.len() - 1, prev.last().push(v@[i as int]));
            }
            assert(split_lines(v@.take(i + 1)) == cur);
            assert forall|k: int| 0 <= k < r.len() implies v@.subrange(
                #[trigger] r@[k].0 as int,
                r@[k].1 as int,
            ) == cur[k] && bounded_by(r@[k], i + 1) by {
                assert(cur[k] == prev[k]);
                assert(bounded_by(r@[k], i as int));
            }
            i = i + 1;
            assert(v@.subrange(start as int, i as int) =~= prev.last().push(v@[i - 1]));
        }
    }
    let ghost r0 = r@;
    r.push((start, i));
    assert(v@.take(i as int) =~= v@);
    assert forall|k: int| 0 <= k < r.len() implies bounded_by(#[trigger] r@[k], v.len() as int)
        && v@.subrange(r@[k].0 as int, r@[k].1 as int) == split_lines(v@)[k] by {
        if k < r.len() - 1 {
            assert(r@[k] == r0[k]);
            assert(bounded_by(r0[k], i as int));
        } else {
            assert(r@[k] == (start, i));
        }
    }
    r
}

/// `s` with each run of whitespace replaced by one space.
pub open spec fn squeeze(s: Seq<char>) -> Seq<char>
    decreases s.len(),
{
    if s.len() == 0 {
        Seq::empty()
    } else {
        let p = squeeze(s.drop_last());
        if !is_space(s.last()) {
            p.push(s.last())
        } else if s.len() >= 2 && is_space(s[s.len() - 2]) {
            p
        } else {
            p.push(' ')
        }
    }
}

/// The length of the run of non-whitespace characters that starts `s`.
pub open spec fn word_len(s: Seq<char>) -> nat
    decreases s.len(),
{
    if s.len() > 0 && !is_space(s[0]) {
        1 + word_len(s.drop_first())
    } else {
        0
    }
}

/// The end of the run of non-whitespace characters that starts at `lo`.
pub fn word_end(v: &Vec<char>, lo: usize, hi: usize) -> (r: usize)
    requires
        lo <= hi <= v.len(),
    ensures
        lo <= r <= hi,
        r - lo == word_len(v@.subrange(lo as int, hi as int)),
{
    let mut i = lo;
    while i < hi && !is_space_char(v[i])
        invariant
            lo <= i <= hi <= v.len(),
            word_len(v@.subrange(lo as int, hi as int)) == (i - lo) + word_len(
                v@.subrange(i as int, hi as int),
            ),
        decreases hi - i,
    {
        assert(v@.subrange(i as int, hi as int).drop_first() =~= v@.subrange(i + 1, hi as int));
        i = i + 1;
    }
    i
}

/// `v[lo..hi]` with each run of whitespace replaced by one space, then trimmed:
/// its words joined by single spaces.
pub fn squeeze_trim(v: &Vec<char>, lo: usize, hi: usize) -> (r: String)
    requires
        lo <= hi <= v.len(),
    ensures
        r@ == trim(squeeze(v@.subrange(lo as int, hi as int))),
{
    let mut out = String::new();
    let mut i = lo;
    assert(v@.subrange(lo as int, lo as int) =~= Seq::<char>::empty());
    while i < hi
        invariant
            lo <= i <= hi <= v.len(),
            out@ == squeeze(v@.subrange(lo as int, i as int)),
        decreases hi - i,
    {
        let ghost pre = v@.subrange(lo as int, i + 1);
        assert(pre.drop_last() =~= v@.subrange(lo as int, i as int));
        assert(pre.last() == v@[i as int]);
        if i > lo {
            assert(pre[pre.len() - 2] == v@[i - 1]);
        }
        if !is_space_char(v[i]) {
            push_char(&mut out, v[i]);
        } else if !(i > lo && is_space_char(v[i - 1])) {
            proof {
                reveal_strlit(" ");
            }
            out.append(" ");
            assert(out@ =~= squeeze(pre.drop_last()).push(' '));
        }
        i = i + 1;
    }
    let w = chars_of(out.as_str());
    assert(w@.subrange(0, w.len() as int) =~= w@);
    let (a, b) = trim_range(&w, 0, w.len());
    text_of(&w, a, b)
}

/// The pieces joined with `sep` between each two.
pub open spec fn join_sep(ls: Seq<Seq<char>>, sep: Seq<char>) -> Seq<char>
    decreases ls.len(),
{
    if ls.len() == 0 {
        Seq::empty()
    } else if ls.len() == 1 {
        ls[0]
    } else {
        join_sep(ls.drop_last(), sep) + sep + ls.last()
    }
}

/// The strings joined with `sep` between each two.
pub fn join_strings(parts: &Vec<String>, sep: &str) -> (r: String)
    ensures
        r@ == join_sep(parts@.map_values(|s: String| s@), sep@),
{
    let ghost ps = parts@.map_values(|s: String| s@);
    let mut out = String::new();
    let mut i: usize = 0;
    while i < parts.len()
        invariant
            i <= parts.len(),
            ps == parts@.map_values(|s: String| s@),
            out@ == join_sep(ps.take(i as int), sep@),
        decreases parts.len() - i,
    {
        if i > 0 {
            out.append(sep);
        }
        out.append(parts[i].as_str());
        i = i + 1;
        assert(ps.take(i as int).drop_last() =~= ps.take(i - 1));
    }
    assert(ps.take(i as int) =~= ps);
    out
}

/// Whether no character of `s` is whitespace.
pub open spec fn no_space(s: Seq<char>) -> bool {
    forall|i: int| 0 <= i < s.len() ==> !is_space(#[trigger] s[i])
}

/// Trimming the end keeps a prefix.
pub proof fn lemma_trim_end_prefix(s: Seq<char>)
    ensures
        trim_end(s).len() <= s.len(),
        trim_end(s) == s.take(trim_end(s).len() as int),
        forall|j: int| 0 <= j < s.len() && !is_space(s[j]) ==> j < trim_end(s).len(),
    decreases s.len(),
{
    if s.len() > 0 && is_space(s.last()) {
        let t = s.drop_last();
        lemma_trim_end_prefix(t);
        assert(t.take(trim_end(s).len() as int) =~= s.take(trim_end(s).len() as int));
        assert forall|j: int| 0 <= j < s.len() && !is_space(s[j]) implies j < trim_end(s).len() by {
            assert(j < t.len());
            assert(t[j] == s[j]);
        }
    } else {
        assert(s.take(s.len() as int) =~= s);
    }
}

/// Trimming the start keeps a suffix.
pub proof fn lemma_trim_start_suffix(s: Seq<char>)
    ensures
        trim_start(s).len() <= s.len(),
        trim_start(s) == s.skip(s.len() - trim_start(s).len()),
    decreases s.len(),
{
    if s.len() > 0 && is_space(s[0]) {
        lemma_trim_start_suffix(s.drop_first());
        assert(s.drop_first().skip(s.len() - 1 - trim_start(s).len()) =~= s.skip(
            s.len() - trim_start(s).len(),
        ));
    } else {
        assert(s.skip(0) =~= s);
    }
}

/// Trimming keeps a contiguous piece.
pub proof fn lemma_trim_sub(s: Seq<char>) -> (b: (int, int))
    ensures
        0 <= b.0 <= b.1 <= s.len(),
        trim(s) == s.subrange(b.0, b.1),
{
    lemma_trim_start_suffix(s);
    let a = s.len() - trim_start(s).len();
    let u = trim_start(s);
    lemma_trim_end_prefix(u);
    assert(trim(s) =~= s.subrange(a, a + trim_end(u).len()));
    (a, a + trim_end(u).len())
}

/// A piece that starts and ends with non-whitespace is its own trim.
pub proof fn lemma_trim_keep(s: Seq<char>)
    requires
        s.len() > 0,
        !is_space(s[0]),
        !is_space(s.last()),
    ensures
        trim(s) == s,
{
}

/// A non-empty trim starts and ends with non-whitespace.
pub proof fn lemma_trim_ends(s: Seq<char>)
    ensures
        trim(s).len() > 0 ==> !is_space(trim(s)[0]) && !is_space(trim(s).last()),
{
    let u = trim_start(s);
    lemma_trim_start_nonspace(s);
    lemma_trim_end_nonspace(u);
    lemma_trim_end_prefix(u);
    if trim(s).len() > 0 {
        assert(trim(s)[0] == u[0]);
    }
}

proof fn lemma_trim_start_nonspace(s: Seq<char>)
    ensures
        trim_start(s).len() > 0 ==> !is_space(trim_start(s)[0]),
    decreases s.len(),
{
    if s.len() > 0 && is_space(s[0]) {
        lemma_trim_start_nonspace(s.drop_first());
    }
}

proof fn lemma_trim_end_nonspace(s: Seq<char>)
    ensures
        trim_end(s).len() > 0 ==> !is_space(trim_end(s).last()),
    decreases s.len(),
{
    if s.len() > 0 && is_space(s.last()) {
        lemma_trim_end_nonspace(s.drop_last());
    }
}

/// Trimming keeps a leading `n` that holds no whitespace.
pub proof fn lemma_trim_keeps_prefix(s: Seq<char>, n: Seq<char>)
    requires
        n.len() > 0,
        no_space(n),
        occurs_at(s, n, 0),
    ensures
        occurs_at(trim(s), n, 0),
{
    assert(s[0] == n[0]);
    assert(trim_start(s) == s);
    lemma_trim_end_prefix(s);
    assert(s[n.len() - 1] == n[n.len() - 1]);
    assert(trim(s).subrange(0, n.len() as int) =~= s.subrange(0, n.len() as int));
}

/// `find` gives `k` when `n` occurs at `k` and at no earlier position.
pub proof fn lemma_find_is(h: Seq<char>, n: Seq<char>, k: int)
    requires
        occurs_at(h, n, k),
        forall|q: int| 0 <= q < k ==> !occurs_at(h, n, q),
    ensures
        find(h, n) == Some(k),
{
    reveal(find);
    let c = choose|p: int| occurs_at(h, n, p) && forall|q: int| 0 <= q < p ==> !occurs_at(h, n, q);
    assert(occurs_at(h, n, c) && forall|q: int| 0 <= q < c ==> !occurs_at(h, n, q));
    if c < k {
        assert(!occurs_at(h, n, c));
    }
    if c > k {
        assert(!occurs_at(h, n, k));
    }
}

/// What `find` gives is an occurrence, and the first one; without it there is none.
pub proof fn lemma_find_facts(h: Seq<char>, n: Seq<char>)
    ensures
        find(h, n) matches Some(p) ==> occurs_at(h, n, p) && forall|q: int|
            0 <= q < p ==> !occurs_at(h, n, q),
        find(h, n) is None ==> forall|q: int| !occurs_at(h, n, q),
{
    reveal(find);
    if exists|p: int| occurs_at(h, n, p) {
        let start = choose|p: int| occurs_at(h, n, p);
        lemma_first_occurrence(h, n, start);
    }
}

proof fn lemma_first_occurrence(h: Seq<char>, n: Seq<char>, start: int)
    requires
        occurs_at(h, n, start),
    ensures
        exists|p: int| occurs_at(h, n, p) && forall|q: int| 0 <= q < p ==> !occurs_at(h, n, q),
    decreases start,
{
    if exists|q: int| 0 <= q < start && occurs_at(h, n, q) {
        let q = choose|q: int| 0 <= q < start && occurs_at(h, n, q);
        lemma_first_occurrence(h, n, q);
    }
}

/// With `n` nowhere in `a`, free of whitespace and starting `b`, its first
/// occurrence in `a`, a space, `b` is at the start of `b`.
pub proof fn lemma_find_after_space(a: Seq<char>, b: Seq<char>, n: Seq<char>)
    requires
        n.len() > 0,
        no_space(n),
        forall|q: int| !occurs_at(a, n, q),
        occurs_at(b, n, 0),
    ensures
        find(a + seq![' '] + b, n) == Some(a.len() as int + 1),
{
    let s = a + seq![' '] + b;
    let k = a.len() as int + 1;
    assert(s.subrange(k, k + n.len()) =~= b.subrange(0, n.len() as int));
    assert forall|q: int| 0 <= q < a.len() + 1 implies !occurs_at(s, n, q) by {
        if occurs_at(s, n, q) {
            if q + n.len() <= a.len() {
                assert(a.subrange(q, q + n.len()) =~= s.subrange(q, q + n.len()));
                assert(occurs_at(a, n, q));
            } else {
                assert(n[a.len() - q] == s[a.len() as int]);
                assert(is_space(s[a.len() as int]));
            }
        }
    }
    lemma_find_is(s, n, k);
}

/// Whether two texts are equal.
pub fn same_text(a: &str, b: &str) -> (r: bool)
    ensures
        r == (a@ == b@),
{
    a.to_owned() == b.to_owned()
}

} // verus!
