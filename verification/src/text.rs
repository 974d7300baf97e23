//! Character-level helpers shared by the readers: whitespace, line and
//! word boundaries, substring search, trimming and building strings.

use vstd::prelude::*;

verus! {

/// The views of a list of strings.
pub open spec fn views(v: Seq<String>) -> Seq<Seq<char>> {
    v.map_values(|w: String| w@)
}

/// The characters with the Unicode `White_Space` property, which is what
/// `char::is_whitespace` tests.
pub open spec fn is_ws(c: char) -> bool {
    ||| '\u{9}' <= c && c <= '\u{d}'
    ||| c == ' '
    ||| c == '\u{85}'
    ||| c == '\u{a0}'
    ||| c == '\u{1680}'
    ||| '\u{2000}' <= c && c <= '\u{200a}'
    ||| c == '\u{2028}'
    ||| c == '\u{2029}'
    ||| c == '\u{202f}'
    ||| c == '\u{205f}'
    ||| c == '\u{3000}'
}

/// Whether `c` is a whitespace character.
pub fn is_whitespace(c: char) -> (res: bool)
    ensures
        res == is_ws(c),
{
    ('\u{9}' <= c && c <= '\u{d}') || c == ' ' || c == '\u{85}' || c == '\u{a0}' || c == '\u{1680}'
        || ('\u{2000}' <= c && c <= '\u{200a}') || c == '\u{2028}' || c == '\u{2029}' || c
        == '\u{202f}' || c == '\u{205f}' || c == '\u{3000}'
}

/// The characters of `s`, in order.
pub fn chars_of(s: &str) -> (res: Vec<char>)
    ensures
        res@ == s@,
{
    let mut res: Vec<char> = Vec::new();
    for c in it: s.chars()
        invariant
            res@ == it.seq().take(it.index() as int),
    {
        res.push(c);
    }
    res
}

/// Calls `String::from_iter` (`String: FromIterator<&char>`), which std
/// documents as building the string of the iterated characters; the
/// contract claims that the result holds exactly the characters of `v`, in
/// order.
#[verifier::external_body]
pub(crate) fn string_from_chars(v: &Vec<char>) -> (res: String)
    ensures
        res@ == v@,
{
    String::from_iter(v)
}

/// The string made of the characters `v[from..to]`.
pub fn string_of_range(v: &Vec<char>, from: usize, to: usize) -> (res: String)
    requires
        from <= to <= v@.len(),
    ensures
        res@ == v@.subrange(from as int, to as int),
{
    let mut part: Vec<char> = Vec::new();
    let mut i = from;
    while i < to
        invariant
            from <= i <= to <= v@.len(),
            part@ == v@.subrange(from as int, i as int),
        decreases to - i,
    {
        part.push(v[i]);
        i += 1;
    }
    string_from_chars(&part)
}

/// Whether `s` equals the string `lit`.
pub fn str_is(s: &String, lit: &str) -> (res: bool)
    ensures
        res == (s@ == lit@),
{
    let other = String::from_str(lit);
    *s == other
}

/// The first index at or after `i` where `pat` occurs in `s`.
pub open spec fn find_from(s: Seq<char>, pat: Seq<char>, i: int) -> Option<int>
    decreases s.len() + 1 - i,
{
    if i < 0 || i + pat.len() > s.len() {
        None
    } else if s.subrange(i, i + pat.len()) == pat {
        Some(i)
    } else {
        find_from(s, pat, i + 1)
    }
}

/// The first index where `pat` occurs in `s` (what `str::find` gives, counted
/// in characters).
pub open spec fn find(s: Seq<char>, pat: Seq<char>) -> Option<int> {
    find_from(s, pat, 0)
}

/// Whether `pat` occurs in `s` at index `i`.
pub fn occurs_at(s: &Vec<char>, pat: &Vec<char>, i: usize) -> (res: bool)
    requires
        i + pat@.len() <= s@.len(),
    ensures
        res == (s@.subrange(i as int, i + pat@.len()) == pat@),
{
    let slen = s.len();
    let mut k: usize = 0;
    while k < pat.len()
        invariant
            slen == s@.len(),
            i + pat@.len() <= s@.len(),
            k <= pat@.len(),
            forall|j: int| 0 <= j < k ==> s@[i + j] == pat@[j],
        decreases pat@.len() - k,
    {
        if s[i + k] != pat[k] {
            assert(s@.subrange(i as int, i + pat@.len())[k as int] != pat@[k as int]);
            return false;
        }
        k += 1;
    }
    assert(s@.subrange(i as int, i + pat@.len()) =~= pat@);
    true
}

/// The first index where `pat` occurs in the part `s[from..to]`, counted
/// from `from`.
pub fn find_in(s: &Vec<char>, from: usize, to: usize, pat: &Vec<char>) -> (res: Option<usize>)
    requires
        from <= to <= s@.len(),
    ensures
        match res {
            Some(i) => find(s@.subrange(from as int, to as int), pat@) == Some(i as int),
            None => find(s@.subrange(from as int, to as int), pat@) is None,
        },
        res matches Some(i) ==> from + i + pat@.len() <= to,
{
    let ghost line = s@.subrange(from as int, to as int);
    if pat.len() > to - from {
        return None;
    }
    let last = to - from - pat.len();
    let mut i: usize = 0;
    while i <= last
        invariant
            from <= to <= s@.len(),
            last + pat@.len() == to - from,
            line == s@.subrange(from as int, to as int),
            find(line, pat@) == find_from(line, pat@, i as int),
        decreases last + 1 - i,
    {
        assert(line.subrange(i as int, i + pat@.len()) =~= s@.subrange(
            from + i,
            from + i + pat@.len(),
        ));
        if occurs_at(s, pat, from + i) {
            return Some(i);
        }
        if i == last {
            assert(find_from(line, pat@, i + 1) is None);
            return None;
        }
        i += 1;
    }
    None
}

/// The number of whitespace characters that start at index `i` of `s`.
pub open spec fn ws_run(s: Seq<char>, i: int) -> nat
    decreases s.len() - i,
{
    if 0 <= i < s.len() && is_ws(s[i]) {
        1 + ws_run(s, i + 1)
    } else {
        0
    }
}

/// The number of whitespace characters that end just before index `j` of `s`.
pub open spec fn ws_run_back(s: Seq<char>, j: int) -> nat
    decreases j,
{
    if 0 < j <= s.len() && is_ws(s[j - 1]) {
        1 + ws_run_back(s, j - 1)
    } else {
        0
    }
}

/// `s` without its leading whitespace.
pub open spec fn trim_start(s: Seq<char>) -> Seq<char> {
    s.skip(ws_run(s, 0) as int)
}

/// `s` without its trailing whitespace.
pub open spec fn trim_end(s: Seq<char>) -> Seq<char> {
    s.take(s.len() - ws_run_back(s, s.len() as int))
}

/// `s` without leading and trailing whitespace (what `str::trim` gives).
pub open spec fn trim(s: Seq<char>) -> Seq<char> {
    trim_end(trim_start(s))
}

proof fn lemma_ws_run_bound(s: Seq<char>, i: int)
    requires
        0 <= i <= s.len(),
    ensures
        i + ws_run(s, i) <= s.len(),
        forall|k: int| i <= k < i + ws_run(s, i) ==> is_ws(#[trigger] s[k]),
        i + ws_run(s, i) < s.len() ==> !is_ws(s[i + ws_run(s, i)]),
    decreases s.len() - i,
{
    if i < s.len() && is_ws(s[i]) {
        lemma_ws_run_bound(s, i + 1);
    }
}

proof fn lemma_ws_run_back_bound(s: Seq<char>, j: int)
    requires
        0 <= j <= s.len(),
    ensures
        ws_run_back(s, j) <= j,
        forall|k: int| j - ws_run_back(s, j) <= k < j ==> is_ws(#[trigger] s[k]),
        ws_run_back(s, j) < j ==> !is_ws(s[j - ws_run_back(s, j) - 1]),
    decreases j,
{
    if 0 < j && is_ws(s[j - 1]) {
        lemma_ws_run_back_bound(s, j - 1);
    }
}

/// A text that neither starts nor ends with whitespace is its own trim.
pub proof fn lemma_trim_plain(s: Seq<char>)
    requires
        s.len() == 0 || (!is_ws(s[0]) && !is_ws(s.last())),
    ensures
        trim(s) == s,
{
    if s.len() > 0 {
        assert(ws_run(s, 0) == 0);
        assert(s.skip(0) =~= s);
        assert(ws_run_back(s, s.len() as int) == 0);
        assert(s.take(s.len() as int) =~= s);
    } else {
        assert(ws_run(s, 0) == 0);
        assert(s.skip(0) =~= s);
        assert(ws_run_back(s, 0) == 0);
        assert(s.take(0) =~= s);
    }
}

/// A trimmed text neither starts nor ends with whitespace, so trimming it
/// again changes nothing.
pub proof fn lemma_trim_idempotent(s: Seq<char>)
    ensures
        trim(s).len() == 0 || (!is_ws(trim(s)[0]) && !is_ws(trim(s).last())),
        trim(trim(s)) == trim(s),
{
    let a = ws_run(s, 0);
    lemma_ws_run_bound(s, 0);
    let u = s.skip(a as int);
    let b = ws_run_back(u, u.len() as int);
    lemma_ws_run_back_bound(u, u.len() as int);
    let t = u.take(u.len() - b);
    assert(trim(s) == t);
    if t.len() > 0 {
        assert(t[0] == u[0]);
        assert(u[0] == s[a as int]);
        assert(t.last() == u[u.len() - b - 1]);
    }
    lemma_trim_plain(t);
}

/// The range `[start, end)` of `v[from..to]` that remains once leading and
/// trailing whitespace are removed.
pub fn trim_range(v: &Vec<char>, from: usize, to: usize) -> (res: (usize, usize))
    requires
        from <= to <= v@.len(),
    ensures
        from <= res.0 <= res.1 <= to,
        v@.subrange(res.0 as int, res.1 as int) == trim(v@.subrange(from as int, to as int)),
{
    let ghost s = v@.subrange(from as int, to as int);
    let mut a = from;
    while a < to && is_whitespace(v[a])
        invariant
            from <= a <= to <= v@.len(),
            s == v@.subrange(from as int, to as int),
            ws_run(s, 0) == (a - from) + ws_run(s, a - from),
        decreases to - a,
    {
        a += 1;
    }
    let ghost t = s.skip(a - from);
    assert(t =~= v@.subrange(a as int, to as int));
    assert(trim_start(s) == t);
    let mut b = to;
    while b > a && is_whitespace(v[b - 1])
        invariant
            from <= a <= b <= to <= v@.len(),
            t == v@.subrange(a as int, to as int),
            ws_run_back(t, t.len() as int) == (to - b) + ws_run_back(t, b - a),
        decreases b,
    {
        b -= 1;
    }
    assert(trim_end(t) =~= v@.subrange(a as int, b as int));
    (a, b)
}

/// The index just after the end of the line that starts at `start`: after
/// its `'\n'`, or the end of `s` when the line has none.
pub open spec fn line_end(s: Seq<char>, start: int) -> int
    decreases s.len() - start,
{
    if start < 0 || start >= s.len() {
        s.len() as int
    } else if s[start] == '\n' {
        start + 1
    } else {
        line_end(s, start + 1)
    }
}

pub proof fn lemma_line_end_bounds(s: Seq<char>, start: int)
    requires
        0 <= start < s.len(),
    ensures
        start < line_end(s, start) <= s.len(),
        forall|k: int| start <= k < line_end(s, start) - 1 ==> s[k] != '\n',
        line_end(s, start) < s.len() ==> s[line_end(s, start) - 1] == '\n',
    decreases s.len() - start,
{
    if s[start] != '\n' {
        if start + 1 < s.len() {
            lemma_line_end_bounds(s, start + 1);
        } else {
            assert(line_end(s, start + 1) == s.len());
        }
    }
}

/// The end of the line of `v` that starts at `start` (see [`line_end`]).
pub fn find_line_end(v: &Vec<char>, start: usize) -> (res: usize)
    requires
        start < v@.len(),
    ensures
        res == line_end(v@, start as int),
        start < res <= v@.len(),
{
    proof {
        lemma_line_end_bounds(v@, start as int);
    }
    let mut i = start;
    while i < v.len() && v[i] != '\n'
        invariant
            start <= i <= v@.len(),
            line_end(v@, start as int) == line_end(v@, i as int),
        decreases v@.len() - i,
    {
        i += 1;
    }
    if i < v.len() {
        i + 1
    } else {
        i
    }
}

/// Whether `v[from..to]` is the string `lit`.
pub fn range_is(v: &Vec<char>, from: usize, to: usize, lit: &str) -> (res: bool)
    requires
        from <= to <= v@.len(),
    ensures
        res == (v@.subrange(from as int, to as int) == lit@),
{
    let l = chars_of(lit);
    if l.len() != to - from {
        return false;
    }
    let mut k: usize = 0;
    while k < l.len()
        invariant
            from <= to <= v@.len(),
            l@ == lit@,
            l@.len() == to - from,
            k <= l@.len(),
            forall|j: int| 0 <= j < k ==> v@[from + j] == l@[j],
        decreases l@.len() - k,
    {
        if v[from + k] != l[k] {
            assert(v@.subrange(from as int, to as int)[k as int] != l@[k as int]);
            return false;
        }
        k += 1;
    }
    assert(v@.subrange(from as int, to as int) =~= l@);
    true
}

/// `s` from index `i` on, with each occurrence of `pat` (nonempty), taken
/// from left to right without overlap, replaced by `rep`.
pub open spec fn replace_from(s: Seq<char>, pat: Seq<char>, rep: Seq<char>, i: int) -> Seq<char>
    decreases s.len() - i,
{
    if i < 0 || i >= s.len() {
        seq![]
    } else if pat.len() > 0 && i + pat.len() <= s.len() && s.subrange(i, i + pat.len()) == pat {
        rep + replace_from(s, pat, rep, i + pat.len())
    } else {
        seq![s[i]] + replace_from(s, pat, rep, i + 1)
    }
}

/// `s` with each occurrence of `pat` replaced by `rep` (what `str::replace`
/// gives for a nonempty pattern).
pub open spec fn replace_all(s: Seq<char>, pat: Seq<char>, rep: Seq<char>) -> Seq<char> {
    replace_from(s, pat, rep, 0)
}

/// The characters of `s` with each occurrence of `pat` (when nonempty)
/// replaced by `rep`.
pub fn replace_chars(s: &Vec<char>, pat: &str, rep: &str) -> (res: Vec<char>)
    ensures
        res@ == replace_all(s@, pat@, rep@),
{
    let p = chars_of(pat);
    let r = chars_of(rep);
    let mut out: Vec<char> = Vec::new();
    let mut i: usize = 0;
    while i < s.len()
        invariant
            p@ == pat@,
            r@ == rep@,
            i <= s@.len(),
            out@ + replace_from(s@, p@, r@, i as int) == replace_all(s@, p@, r@),
        decreases s@.len() - i,
    {
        let ghost before = out@;
        if p.len() > 0 && p.len() <= s.len() - i && occurs_at(s, &p, i) {
            let mut k: usize = 0;
            while k < r.len()
                invariant
                    k <= r@.len(),
                    out@ == before + r@.take(k as int),
                decreases r@.len() - k,
            {
                out.push(r[k]);
                assert(r@.take(k + 1) =~= r@.take(k as int).push(r@[k as int]));
                k += 1;
            }
            assert(r@.take(r@.len() as int) =~= r@);
            assert(out@ + replace_from(s@, p@, r@, i + p@.len()) =~= before + replace_from(
                s@,
                p@,
                r@,
                i as int,
            ));
            i = i + p.len();
        } else {
            out.push(s[i]);
            assert(out@ + replace_from(s@, p@, r@, i + 1) =~= before + replace_from(
                s@,
                p@,
                r@,
                i as int,
            ));
            i = i + 1;
        }
    }
    assert(replace_from(s@, p@, r@, i as int) =~= Seq::<char>::empty());
    assert(out@ =~= out@ + Seq::<char>::empty());
    out
}

/// `c` in lower case when it is an ASCII capital letter, else `c`.
pub open spec fn ascii_lower(c: char) -> char {
    if 'A' <= c && c <= 'Z' {
        ((c as u32) + 32) as char
    } else {
        c
    }
}

/// `s` with its ASCII capital letters in lower case (what
/// `str::to_ascii_lowercase` gives).
pub open spec fn to_ascii_lower(s: Seq<char>) -> Seq<char> {
    s.map_values(|c: char| ascii_lower(c))
}

/// The number of times `c` repeats at the start of `s`.
pub open spec fn run_of(s: Seq<char>, c: char, i: int) -> nat
    decreases s.len() - i,
{
    if 0 <= i < s.len() && s[i] == c {
        1 + run_of(s, c, i + 1)
    } else {
        0
    }
}

/// `s` without the copies of `c` it starts with (what
/// `str::trim_start_matches(c)` gives).
pub open spec fn trim_start_char(s: Seq<char>, c: char) -> Seq<char> {
    s.skip(run_of(s, c, 0) as int)
}

} // verus!
