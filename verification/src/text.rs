//! Character-level text: the spec functions the rest of the crate states its contracts over
//! (lines, trimming, joining), and the loops that compute them.
//!
//! Everything here works on the characters of a string, `Seq<char>`, which is the view vstd gives
//! `str` and `String`. The definitions follow what std documents for `str::lines`, `str::trim`
//! and `char::is_whitespace`.

use vstd::prelude::*;

verus! {

// ---------------------------------------------------------------------------------------------
// Whitespace
// ---------------------------------------------------------------------------------------------

/// `char::is_whitespace`: the Unicode `White_Space` property.
pub open spec fn is_white(c: char) -> bool {
    ||| ('\u{9}' <= c && c <= '\u{d}')
    ||| c == ' '
    ||| c == '\u{85}'
    ||| c == '\u{a0}'
    ||| c == '\u{1680}'
    ||| ('\u{2000}' <= c && c <= '\u{200a}')
    ||| c == '\u{2028}'
    ||| c == '\u{2029}'
    ||| c == '\u{202f}'
    ||| c == '\u{205f}'
    ||| c == '\u{3000}'
}

pub fn is_white_char(c: char) -> (b: bool)
    ensures
        b == is_white(c),
{
    ('\u{9}' <= c && c <= '\u{d}') || c == ' ' || c == '\u{85}' || c == '\u{a0}' || c == '\u{1680}'
        || ('\u{2000}' <= c && c <= '\u{200a}') || c == '\u{2028}' || c == '\u{2029}' || c
        == '\u{202f}' || c == '\u{205f}' || c == '\u{3000}'
}

/// `char::is_control`: the general category `Cc`.
pub open spec fn is_control(c: char) -> bool {
    c <= '\u{1f}' || ('\u{7f}' <= c && c <= '\u{9f}')
}

pub fn is_control_char(c: char) -> (b: bool)
    ensures
        b == is_control(c),
{
    c <= '\u{1f}' || ('\u{7f}' <= c && c <= '\u{9f}')
}

// ---------------------------------------------------------------------------------------------
// Trimming
// ---------------------------------------------------------------------------------------------

/// `str::trim_start`: drop leading whitespace.
pub open spec fn trim_start(s: Seq<char>) -> Seq<char>
    decreases s.len(),
{
    if s.len() > 0 && is_white(s[0]) {
        trim_start(s.drop_first())
    } else {
        s
    }
}

/// `str::trim_end`: drop trailing whitespace.
pub open spec fn trim_end(s: Seq<char>) -> Seq<char>
    decreases s.len(),
{
    if s.len() > 0 && is_white(s.last()) {
        trim_end(s.drop_last())
    } else {
        s
    }
}

/// `str::trim`: drop whitespace at both ends.
pub open spec fn trim(s: Seq<char>) -> Seq<char> {
    trim_end(trim_start(s))
}

/// Where the trimmed text sits in `s`: `s[start..end]` is `trim(s[from..to])`.
pub fn trim_bounds(s: &Vec<char>, from: usize, to: usize) -> (r: (usize, usize))
    requires
        from <= to <= s@.len(),
    ensures
        from <= r.0 <= r.1 <= to,
        s@.subrange(r.0 as int, r.1 as int) == trim(s@.subrange(from as int, to as int)),
{
    let mut i = from;
    while i < to && is_white_char(s[i])
        invariant
            from <= i <= to <= s@.len(),
            trim_start(s@.subrange(from as int, to as int)) == trim_start(
                s@.subrange(i as int, to as int),
            ),
        decreases to - i,
    {
        assert(s@.subrange(i as int, to as int).drop_first() =~= s@.subrange(
            i + 1,
            to as int,
        ));
        i = i + 1;
    }
    let mut j = to;
    while j > i && is_white_char(s[j - 1])
        invariant
            from <= i <= j <= to <= s@.len(),
            trim_end(s@.subrange(i as int, to as int)) == trim_end(
                s@.subrange(i as int, j as int),
            ),
        decreases j - i,
    {
        assert(s@.subrange(i as int, j as int).drop_last() =~= s@.subrange(
            i as int,
            j - 1,
        ));
        j = j - 1;
    }
    (i, j)
}

// ---------------------------------------------------------------------------------------------
// Lines
// ---------------------------------------------------------------------------------------------

/// The index of the first `'\n'` in `s`, or its length when there is none.
pub open spec fn newline_index(s: Seq<char>) -> nat
    decreases s.len(),
{
    if s.len() == 0 {
        0
    } else if s[0] == '\n' {
        0
    } else {
        1 + newline_index(s.drop_first())
    }
}

/// A line as `str::lines` yields it: without its `'\n'`, and without a `'\r'` just before it.
pub open spec fn strip_cr(l: Seq<char>) -> Seq<char> {
    if l.len() > 0 && l.last() == '\r' {
        l.drop_last()
    } else {
        l
    }
}

/// `str::lines`: the text split at each `'\n'`, a `"\r\n"` ending counting as one, and no empty
/// line after a final `'\n'`. The empty string has no lines.
pub open spec fn lines(s: Seq<char>) -> Seq<Seq<char>>
    decreases s.len(),
{
    if s.len() == 0 {
        seq![]
    } else {
        let k = newline_index(s);
        if k < s.len() {
            seq![strip_cr(s.take(k as int))] + lines(s.skip(k as int + 1))
        } else {
            seq![s]
        }
    }
}

/// The lines joined back with `'\n'` between them, as `[&str]::join("\n")` does.
pub open spec fn join_lines(ls: Seq<Seq<char>>) -> Seq<char>
    decreases ls.len(),
{
    if ls.len() == 0 {
        seq![]
    } else if ls.len() == 1 {
        ls[0]
    } else {
        join_lines(ls.drop_last()) + seq!['\n'] + ls.last()
    }
}

proof fn lemma_newline_index(s: Seq<char>, k: int)
    requires
        0 <= k <= s.len(),
        forall|j: int| 0 <= j < k ==> s[j] != '\n',
        k < s.len() ==> s[k] == '\n',
    ensures
        newline_index(s) == k,
    decreases k,
{
    if k > 0 {
        lemma_newline_index(s.drop_first(), k - 1);
    }
}

/// The characters of each vector in `v`.
pub open spec fn views(v: Seq<Vec<char>>) -> Seq<Seq<char>> {
    Seq::new(v.len(), |i: int| v[i]@)
}

/// The lines of `s`, each as its own characters.
pub fn split_lines(s: &Vec<char>) -> (out: Vec<Vec<char>>)
    ensures
        views(out@) == lines(s@),
{
    let n = s.len();
    let mut out: Vec<Vec<char>> = Vec::new();
    let mut start: usize = 0;
    assert(s@.skip(0) =~= s@);
    while start < n
        invariant
            n == s@.len(),
            start <= n,
            lines(s@) == views(out@) + lines(s@.skip(start as int)),
        decreases n - start,
    {
        let mut k = start;
        let mut line: Vec<char> = Vec::new();
        while k < n && s[k] != '\n'
            invariant
                start <= k <= n == s@.len(),
                line@ == s@.subrange(start as int, k as int),
                forall|j: int| start <= j < k ==> s@[j] != '\n',
            decreases n - k,
        {
            line.push(s[k]);
            k = k + 1;
        }
        let ghost rest = s@.skip(start as int);
        proof {
            lemma_newline_index(rest, k - start);
            assert(rest.take(k - start) =~= s@.subrange(start as int, k as int));
        }
        if k < n {
            if line.len() > 0 && line[line.len() - 1] == '\r' {
                line.pop();
            }
            proof {
                assert(rest.skip(k - start + 1) =~= s@.skip(k + 1));
            }
            let ghost before = views(out@);
            out.push(line);
            assert(views(out@) =~= before.push(strip_cr(rest.take(k - start))));
            start = k + 1;
        } else {
            let ghost before = views(out@);
            out.push(line);
            assert(views(out@) =~= before.push(rest));
            assert(s@.skip(n as int) =~= Seq::<char>::empty());
            start = n;
        }
    }
    assert(s@.skip(n as int) =~= Seq::<char>::empty());
    assert(views(out@) + lines(s@.skip(n as int)) =~= views(out@));
    out
}

// ---------------------------------------------------------------------------------------------
// Joining, comparing, and making strings
// ---------------------------------------------------------------------------------------------

/// The lines `ls[start..]` joined with `'\n'`.
pub fn join_from(ls: &Vec<Vec<char>>, start: usize) -> (out: Vec<char>)
    requires
        start <= ls@.len(),
    ensures
        out@ == join_lines(views(ls@).skip(start as int)),
{
    let n = ls.len();
    let mut out: Vec<char> = Vec::new();
    let mut k = start;
    let ghost all = views(ls@);
    assert(all.subrange(start as int, start as int) =~= Seq::<Seq<char>>::empty());
    while k < n
        invariant
            start <= k <= n == ls@.len(),
            all == views(ls@),
            out@ == join_lines(all.subrange(start as int, k as int)),
        decreases n - k,
    {
        let ghost before = out@;
        if k > start {
            out.push('\n');
        }
        let line = &ls[k];
        let mut j: usize = 0;
        let ghost mid = out@;
        while j < line.len()
            invariant
                j <= line@.len(),
                out@ == mid + line@.subrange(0, j as int),
            decreases line@.len() - j,
        {
            out.push(line[j]);
            j = j + 1;
        }
        proof {
            let next = all.subrange(start as int, k + 1);
            assert(line@.subrange(0, line@.len() as int) =~= line@);
            assert(next.last() == line@);
            if k > start {
                assert(next.drop_last() =~= all.subrange(start as int, k as int));
                assert(out@ =~= before + seq!['\n'] + line@);
            } else {
                assert(out@ =~= line@);
            }
        }
        k = k + 1;
    }
    assert(all.subrange(start as int, n as int) =~= all.skip(start as int));
    out
}

/// Whether `a[from..to]` holds exactly the characters of `b`.
pub fn same_chars(a: &Vec<char>, from: usize, to: usize, b: &Vec<char>) -> (r: bool)
    requires
        from <= to <= a@.len(),
    ensures
        r == (a@.subrange(from as int, to as int) == b@),
{
    if to - from != b.len() {
        return false;
    }
    let mut i: usize = 0;
    while i < b.len()
        invariant
            to - from == b@.len(),
            from <= to <= a@.len(),
            i <= b@.len(),
            forall|j: int| 0 <= j < i ==> a@[from + j] == b@[j],
        decreases b@.len() - i,
    {
        if a[from + i] != b[i] {
            assert(a@.subrange(from as int, to as int)[i as int] != b@[i as int]);
            return false;
        }
        i = i + 1;
    }
    assert(a@.subrange(from as int, to as int) =~= b@);
    true
}

/// A copy of `v[from..to]`.
pub fn copy_range(v: &Vec<char>, from: usize, to: usize) -> (out: Vec<char>)
    requires
        from <= to <= v@.len(),
    ensures
        out@ == v@.subrange(from as int, to as int),
{
    let mut out: Vec<char> = Vec::new();
    let mut i = from;
    while i < to
        invariant
            from <= i <= to <= v@.len(),
            out@ == v@.subrange(from as int, i as int),
        decreases to - i,
    {
        out.push(v[i]);
        i = i + 1;
    }
    out
}

/// `String::push`: append one character.
#[verifier::external_body]
pub(crate) fn push_char(s: &mut String, c: char)
    ensures
        final(s)@ == old(s)@.push(c),
{
    s.push(c);
}

/// A `String` holding `v[from..to]`.
pub fn string_of(v: &Vec<char>, from: usize, to: usize) -> (s: String)
    requires
        from <= to <= v@.len(),
    ensures
        s@ == v@.subrange(from as int, to as int),
{
    let mut s = String::new();
    let mut i = from;
    while i < to
        invariant
            from <= i <= to <= v@.len(),
            s@ == v@.subrange(from as int, i as int),
        decreases to - i,
    {
        push_char(&mut s, v[i]);
        i = i + 1;
    }
    s
}

/// The characters of `s`, in order.
pub fn chars_of(s: &str) -> (v: Vec<char>)
    ensures
        v@ == s@,
{
    let mut v: Vec<char> = Vec::new();
    for c in it: s.chars()
        invariant
            v@ == it.seq().take(it.index()),
            it.seq() == s@,
    {
        v.push(c);
    }
    v
}

/// Append the characters of `t` to `s`.
pub fn push_all(s: &mut String, t: &str)
    ensures
        final(s)@ == old(s)@ + t@,
{
    let v = chars_of(t);
    let mut i: usize = 0;
    while i < v.len()
        invariant
            i <= v@.len(),
            v@ == t@,
            s@ == old(s)@ + v@.subrange(0, i as int),
        decreases v@.len() - i,
    {
        push_char(s, v[i]);
        i = i + 1;
    }
    assert(v@.subrange(0, v@.len() as int) =~= v@);
}

// ---------------------------------------------------------------------------------------------
// Lemmas: splitting what was joined
// ---------------------------------------------------------------------------------------------

/// `s` holds no `'\n'`.
pub open spec fn one_line(s: Seq<char>) -> bool {
    forall|i: int| 0 <= i < s.len() ==> #[trigger] s[i] != '\n'
}

proof fn lemma_newline_index_bound(s: Seq<char>)
    ensures
        newline_index(s) <= s.len(),
        forall|j: int| 0 <= j < newline_index(s) ==> #[trigger] s[j] != '\n',
        newline_index(s) < s.len() ==> s[newline_index(s) as int] == '\n',
    decreases s.len(),
{
    if s.len() > 0 && s[0] != '\n' {
        lemma_newline_index_bound(s.drop_first());
        assert forall|j: int| 0 <= j < newline_index(s) implies #[trigger] s[j] != '\n' by {
            if j > 0 {
                assert(s[j] == s.drop_first()[j - 1]);
            }
        }
    }
}

/// No line that `lines` yields holds a `'\n'`.
pub proof fn lemma_lines_are_one_line(s: Seq<char>)
    ensures
        forall|i: int| 0 <= i < lines(s).len() ==> one_line(#[trigger] lines(s)[i]),
    decreases s.len(),
{
    if s.len() > 0 {
        lemma_newline_index_bound(s);
        let k = newline_index(s);
        if k < s.len() {
            lemma_lines_are_one_line(s.skip(k as int + 1));
            let first = strip_cr(s.take(k as int));
            assert(one_line(first)) by {
                assert forall|i: int| 0 <= i < first.len() implies #[trigger] first[i] != '\n' by {
                    assert(first[i] == s[i]);
                }
            }
            let rest = lines(s.skip(k as int + 1));
            assert forall|i: int| 0 <= i < lines(s).len() implies one_line(#[trigger] lines(s)[i]) by {
                if i > 0 {
                    assert(lines(s)[i] == rest[i - 1]);
                }
            }
        }
    }
}

/// Joining two or more lines puts the first, a `'\n'`, and the rest joined.
proof fn lemma_join_front(ls: Seq<Seq<char>>)
    requires
        ls.len() >= 2,
    ensures
        join_lines(ls) == ls[0] + seq!['\n'] + join_lines(ls.drop_first()),
    decreases ls.len(),
{
    if ls.len() > 2 {
        lemma_join_front(ls.drop_last());
        assert(ls.drop_last().drop_first() =~= ls.drop_first().drop_last());
        assert(ls.drop_first().last() == ls.last());
        assert(ls.drop_last()[0] == ls[0]);
        let a = join_lines(ls.drop_first().drop_last());
        assert(join_lines(ls.drop_first()) == a + seq!['\n'] + ls.last());
        assert(join_lines(ls) == ls[0] + seq!['\n'] + a + seq!['\n'] + ls.last());
        assert(ls[0] + seq!['\n'] + a + seq!['\n'] + ls.last() =~= ls[0] + seq!['\n'] + (a
            + seq!['\n'] + ls.last()));
    } else {
        assert(ls.drop_last() =~= seq![ls[0]]);
        assert(ls.drop_first() =~= seq![ls[1]]);
        assert(join_lines(ls.drop_last()) == ls[0]);
        assert(join_lines(ls.drop_first()) == ls[1]);
        assert(ls.last() == ls[1]);
    }
}

/// Splitting lines that were joined gives them back, each but the last without a `'\r'` it
/// ended with.
pub proof fn lemma_lines_of_joined(ls: Seq<Seq<char>>)
    requires
        ls.len() >= 1,
        forall|i: int| 0 <= i < ls.len() ==> one_line(#[trigger] ls[i]),
        ls.last().len() > 0,
    ensures
        lines(join_lines(ls)).len() == ls.len(),
        forall|i: int|
            0 <= i < ls.len() ==> #[trigger] lines(join_lines(ls))[i] == if i < ls.len() - 1 {
                strip_cr(ls[i])
            } else {
                ls[i]
            },
    decreases ls.len(),
{
    let l0 = ls[0];
    if ls.len() == 1 {
        lemma_newline_index(l0, l0.len() as int);
        assert(join_lines(ls) == l0);
    } else {
        lemma_join_front(ls);
        let rest = ls.drop_first();
        assert(rest.last() == ls.last());
        lemma_lines_of_joined(rest);
        let j = join_lines(ls);
        let rj = join_lines(rest);
        assert(j == l0 + seq!['\n'] + rj);
        lemma_newline_index(j, l0.len() as int);
        assert(j.take(l0.len() as int) =~= l0);
        assert(j.skip(l0.len() as int + 1) =~= rj);
        assert(lines(j) == seq![strip_cr(l0)] + lines(rj));
        assert forall|i: int| 0 <= i < ls.len() implies #[trigger] lines(join_lines(ls))[i] == if i
            < ls.len() - 1 {
            strip_cr(ls[i])
        } else {
            ls[i]
        } by {
            if i > 0 {
                assert(lines(j)[i] == lines(rj)[i - 1]);
                assert(rest[i - 1] == ls[i]);
            }
        }
    }
}

/// Dropping a final whitespace character does not change the trimmed text.
pub proof fn lemma_trim_drop_white(s: Seq<char>)
    requires
        s.len() > 0,
        is_white(s.last()),
    ensures
        trim(s.drop_last()) == trim(s),
    decreases s.len(),
{
    if s.len() == 1 {
        assert(s.drop_first() =~= Seq::<char>::empty());
        assert(s.drop_last() =~= Seq::<char>::empty());
    } else if is_white(s[0]) {
        lemma_trim_drop_white(s.drop_first());
        assert(s.drop_last().drop_first() =~= s.drop_first().drop_last());
    } else {
        assert(s.drop_last()[0] == s[0]);
    }
}

/// Trimming ignores a `'\r'` that `lines` strips.
pub proof fn lemma_trim_strip_cr(l: Seq<char>)
    ensures
        trim(strip_cr(l)) == trim(l),
{
    if l.len() > 0 && l.last() == '\r' {
        lemma_trim_drop_white(l);
    }
}


// ---------------------------------------------------------------------------------------------
// Lemmas: trimming what was joined
// ---------------------------------------------------------------------------------------------

proof fn lemma_trim_start_suffix(s: Seq<char>)
    ensures
        trim_start(s).len() <= s.len(),
        trim_start(s) == s.skip(s.len() - trim_start(s).len()),
    decreases s.len(),
{
    if s.len() > 0 && is_white(s[0]) {
        lemma_trim_start_suffix(s.drop_first());
        assert(s.drop_first().skip(s.len() - 1 - trim_start(s).len()) =~= s.skip(
            s.len() - trim_start(s).len(),
        ));
    } else {
        assert(s.skip(0) =~= s);
    }
}

proof fn lemma_trim_end_prefix(s: Seq<char>)
    ensures
        trim_end(s).len() <= s.len(),
        trim_end(s) == s.take(trim_end(s).len() as int),
        forall|j: int| 0 <= j < s.len() && !is_white(#[trigger] s[j]) ==> j < trim_end(s).len(),
    decreases s.len(),
{
    if s.len() > 0 && is_white(s.last()) {
        lemma_trim_end_prefix(s.drop_last());
        assert(s.drop_last().take(trim_end(s).len() as int) =~= s.take(trim_end(s).len() as int));
        assert forall|j: int| 0 <= j < s.len() && !is_white(#[trigger] s[j]) implies j < trim_end(
            s,
        ).len() by {
            assert(j < s.len() - 1);
            assert(s.drop_last()[j] == s[j]);
        }
    } else {
        assert(s.take(s.len() as int) =~= s);
    }
}

proof fn lemma_trim_start_twice(s: Seq<char>)
    ensures
        trim_start(trim_start(s)) == trim_start(s),
    decreases s.len(),
{
    if s.len() > 0 && is_white(s[0]) {
        lemma_trim_start_twice(s.drop_first());
    }
}

proof fn lemma_trim_end_twice(s: Seq<char>)
    ensures
        trim_end(trim_end(s)) == trim_end(s),
    decreases s.len(),
{
    if s.len() > 0 && is_white(s.last()) {
        lemma_trim_end_twice(s.drop_last());
    }
}

proof fn lemma_trim_end_drop_first(s: Seq<char>)
    requires
        s.len() > 0,
        trim_end(s).len() > 0,
    ensures
        trim_end(s).drop_first() == trim_end(s.drop_first()),
    decreases s.len(),
{
    if is_white(s.last()) {
        let t = s.drop_last();
        assert(trim_end(s) == trim_end(t));
        if t.len() == 0 {
            assert(trim_end(t) == t);
        }
        lemma_trim_end_drop_first(t);
        assert(s.drop_first().last() == s.last());
        assert(s.drop_first().drop_last() =~= t.drop_first());
    } else if s.len() > 1 {
        assert(s.drop_first().last() == s.last());
    } else {
        assert(s.drop_first() =~= Seq::<char>::empty());
    }
}

proof fn lemma_trim_commute(s: Seq<char>)
    ensures
        trim_start(trim_end(s)) == trim_end(trim_start(s)),
    decreases s.len(),
{
    lemma_trim_end_prefix(s);
    if s.len() == 0 {
    } else if !is_white(s[0]) {
        assert(trim_end(s)[0] == s[0]);
    } else {
        let s1 = s.drop_first();
        lemma_trim_commute(s1);
        if trim_end(s).len() == 0 {
            lemma_trim_end_prefix(s1);
            assert forall|j: int| 0 <= j < s1.len() implies is_white(#[trigger] s1[j]) by {
                assert(s1[j] == s[j + 1]);
            }
            assert(trim_end(s1).len() == 0) by {
                if trim_end(s1).len() > 0 {
                    lemma_trim_end_nonblank(s1);
                }
            }
        } else {
            assert(trim_end(s)[0] == s[0]);
            lemma_trim_end_drop_first(s);
        }
    }
}

proof fn lemma_trim_end_nonblank(s: Seq<char>)
    requires
        trim_end(s).len() > 0,
    ensures
        !is_white(s[trim_end(s).len() - 1]),
    decreases s.len(),
{
    if s.len() > 0 && is_white(s.last()) {
        lemma_trim_end_nonblank(s.drop_last());
        lemma_trim_end_prefix(s.drop_last());
    }
}

/// Trimming what was already trimmed at either end, or both, gives the same as trimming once.
pub proof fn lemma_trim_of_trims(s: Seq<char>)
    ensures
        trim(trim_start(s)) == trim(s),
        trim(trim_end(s)) == trim(s),
        trim(trim(s)) == trim(s),
{
    lemma_trim_start_twice(s);
    lemma_trim_commute(s);
    lemma_trim_end_twice(trim_start(s));
    lemma_trim_commute(trim_start(s));
}

proof fn lemma_trim_start_concat(x: Seq<char>, y: Seq<char>)
    ensures
        trim_start(x + y) == if trim_start(x).len() == 0 {
            trim_start(y)
        } else {
            trim_start(x) + y
        },
    decreases x.len(),
{
    if x.len() == 0 {
        assert(x + y =~= y);
    } else if is_white(x[0]) {
        lemma_trim_start_concat(x.drop_first(), y);
        assert((x + y).drop_first() =~= x.drop_first() + y);
    }
}

proof fn lemma_trim_end_concat(x: Seq<char>, y: Seq<char>)
    ensures
        trim_end(x + y) == if trim_end(y).len() == 0 {
            trim_end(x)
        } else {
            x + trim_end(y)
        },
    decreases y.len(),
{
    if y.len() == 0 {
        assert(x + y =~= x);
    } else if is_white(y.last()) {
        lemma_trim_end_concat(x, y.drop_last());
        assert((x + y).drop_last() =~= x + y.drop_last());
    }
}

proof fn lemma_trim_start_join(ls: Seq<Seq<char>>) -> (i0: int)
    requires
        ls.len() >= 1,
        trim_start(join_lines(ls)).len() > 0,
    ensures
        0 <= i0 < ls.len(),
        trim_start(ls[i0]).len() > 0,
        trim_start(join_lines(ls)) == join_lines(seq![trim_start(ls[i0])] + ls.skip(i0 + 1)),
    decreases ls.len(),
{
    if ls.len() == 1 {
        assert(seq![trim_start(ls[0])] + ls.skip(1) =~= seq![trim_start(ls[0])]);
        0
    } else {
        lemma_join_front(ls);
        let rest = ls.drop_first();
        let nl = seq!['\n'];
        lemma_trim_start_concat(ls[0] + nl, join_lines(rest));
        lemma_trim_start_concat(ls[0], nl);
        assert(trim_start(nl.drop_first()) == nl.drop_first());
        if trim_start(ls[0]).len() > 0 {
            let ms = seq![trim_start(ls[0])] + ls.skip(1);
            assert(ms.drop_first() =~= rest);
            lemma_join_front(ms);
            assert(ls.skip(1) =~= rest);
            0
        } else {
            let j = lemma_trim_start_join(rest);
            assert(rest.skip(j + 1) =~= ls.skip(j + 2));
            j + 1
        }
    }
}

proof fn lemma_trim_end_join(ms: Seq<Seq<char>>) -> (i1: int)
    requires
        ms.len() >= 1,
        trim_end(join_lines(ms)).len() > 0,
    ensures
        0 <= i1 < ms.len(),
        trim_end(ms[i1]).len() > 0,
        trim_end(join_lines(ms)) == join_lines(ms.take(i1) + seq![trim_end(ms[i1])]),
    decreases ms.len(),
{
    if ms.len() == 1 {
        assert(ms.take(0) + seq![trim_end(ms[0])] =~= seq![trim_end(ms[0])]);
        0
    } else {
        let init = ms.drop_last();
        let last = ms.last();
        let nl = seq!['\n'];
        assert(join_lines(ms) == join_lines(init) + nl + last);
        assert(join_lines(init) + nl + last =~= join_lines(init) + (nl + last));
        lemma_trim_end_concat(join_lines(init), nl + last);
        lemma_trim_end_concat(nl, last);
        assert(trim_end(nl.drop_last()) == nl.drop_last());
        if trim_end(last).len() > 0 {
            let i1 = ms.len() - 1;
            let ns = ms.take(i1) + seq![trim_end(ms[i1])];
            assert(ns.drop_last() =~= init);
            assert(join_lines(init) + (nl + trim_end(last)) =~= join_lines(init) + nl + trim_end(
                last,
            ));
            i1
        } else {
            let j = lemma_trim_end_join(init);
            assert(init.take(j) =~= ms.take(j));
            j
        }
    }
}

/// Trimming lines joined together keeps a run of them: the lines of the trimmed text are, up to
/// the whitespace around each, the lines from the first that is not blank to the last.
pub proof fn lemma_lines_of_trimmed_join(ls: Seq<Seq<char>>) -> (i0: int)
    requires
        ls.len() >= 1,
        forall|i: int| 0 <= i < ls.len() ==> one_line(#[trigger] ls[i]),
        trim(join_lines(ls)).len() > 0,
    ensures
        0 <= i0,
        i0 + lines(trim(join_lines(ls))).len() <= ls.len(),
        forall|k: int|
            0 <= k < lines(trim(join_lines(ls))).len() ==> #[trigger] trim(
                lines(trim(join_lines(ls)))[k],
            ) == trim(ls[i0 + k]),
{
    let j = join_lines(ls);
    assert(trim_start(j).len() > 0);
    let i0 = lemma_trim_start_join(ls);
    let ts = trim_start(ls[i0]);
    let ms = seq![ts] + ls.skip(i0 + 1);
    let i1 = lemma_trim_end_join(ms);
    let ns = ms.take(i1) + seq![trim_end(ms[i1])];
    let t = trim(j);
    assert(t == join_lines(ns));
    lemma_trim_start_suffix(ls[i0]);
    assert forall|k: int| 0 <= k < ms.len() implies one_line(#[trigger] ms[k]) by {
        if k == 0 {
            assert forall|c: int| 0 <= c < ts.len() implies #[trigger] ts[c] != '\n' by {
                assert(ts[c] == ls[i0][ls[i0].len() - ts.len() + c]);
            }
        } else {
            assert(ms[k] == ls[i0 + k]);
        }
    }
    lemma_trim_end_prefix(ms[i1]);
    assert forall|k: int| 0 <= k < ns.len() implies one_line(#[trigger] ns[k]) by {
        if k < i1 {
            assert(ns[k] == ms[k]);
        } else {
            let te = trim_end(ms[i1]);
            assert forall|c: int| 0 <= c < te.len() implies #[trigger] te[c] != '\n' by {
                assert(te[c] == ms[i1][c]);
            }
        }
    }
    lemma_lines_of_joined(ns);
    assert forall|k: int| 0 <= k < lines(t).len() implies #[trigger] trim(lines(t)[k]) == trim(
        ls[i0 + k],
    ) by {
        lemma_trim_strip_cr(ns[k]);
        let base = if k == 0 {
            ts
        } else {
            ms[k]
        };
        assert(ms[k] == base);
        if k > 0 {
            assert(ms[k] == ls[i0 + k]);
        }
        lemma_trim_of_trims(ls[i0 + k]);
        lemma_trim_of_trims(ms[k]);
        if k < i1 {
            assert(ns[k] == ms[k]);
        } else {
            assert(ns[k] == trim_end(ms[k]));
        }
    }
    i0
}

} // verus!
