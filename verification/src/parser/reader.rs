//! The word reader that the DRF and layer-map parsers read from: it splits
//! the text into lines, cuts each line at its comment sign, splits what is
//! left into words, and keeps a stack of the brackets it has read.

use vstd::prelude::*;
use vstd::seq_lib::lemma_flatten_concat;
use crate::text::{
    chars_of, find, find_in, find_line_end, is_whitespace, is_ws, lemma_line_end_bounds, line_end,
    string_from_chars, views,
};

verus! {

/// Whether `c` is a round bracket, which always forms a word of its own.
pub open spec fn is_paren(c: char) -> bool {
    c == '(' || c == ')'
}

/// The word being built, as a list of zero or one words.
pub open spec fn flush(cur: Seq<char>) -> Seq<Seq<char>> {
    if cur.len() == 0 {
        seq![]
    } else {
        seq![cur]
    }
}

/// The words of `line` from index `i` on, when `cur` holds the characters of
/// the word being built: whitespace ends a word, and each round bracket is a
/// word of its own.
pub open spec fn line_words_from(line: Seq<char>, i: int, cur: Seq<char>) -> Seq<Seq<char>>
    decreases line.len() - i,
{
    if i < 0 || i >= line.len() {
        flush(cur)
    } else if is_ws(line[i]) {
        flush(cur) + line_words_from(line, i + 1, seq![])
    } else if is_paren(line[i]) {
        flush(cur) + seq![seq![line[i]]] + line_words_from(line, i + 1, seq![])
    } else {
        line_words_from(line, i + 1, cur.push(line[i]))
    }
}

/// The words of one line.
pub open spec fn line_words(line: Seq<char>) -> Seq<Seq<char>> {
    line_words_from(line, 0, seq![])
}

/// `line` cut just before the first occurrence of the comment sign, if any.
pub open spec fn strip_comment(line: Seq<char>, sign: Option<Seq<char>>) -> Seq<char> {
    match sign {
        Some(p) => match find(line, p) {
            Some(i) => line.take(i),
            None => line,
        },
        None => line,
    }
}

/// The words of the lines of `s` that start at or after `start`.
pub open spec fn words_from(s: Seq<char>, start: int, sign: Option<Seq<char>>) -> Seq<Seq<char>>
    decreases s.len() - start,
{
    if start < 0 || start >= s.len() {
        seq![]
    } else {
        proof {
            lemma_line_end_bounds(s, start);
        }
        line_words(strip_comment(s.subrange(start, line_end(s, start)), sign)) + words_from(
            s,
            line_end(s, start),
            sign,
        )
    }
}

/// The words of a whole text, line after line.
pub open spec fn content_words(s: Seq<char>, sign: Option<Seq<char>>) -> Seq<Seq<char>> {
    words_from(s, 0, sign)
}

/// Whether `w` is a word: a single round bracket, or a nonempty run of
/// characters that are neither whitespace nor round brackets.
pub open spec fn is_token(w: Seq<char>) -> bool {
    ||| w == seq!['(']
    ||| w == seq![')']
    ||| w.len() > 0 && forall|i: int| 0 <= i < w.len() ==> !is_ws(#[trigger] w[i]) && !is_paren(w[i])
}

/// Whether every word of `ws` is a word in the sense of [`is_token`].
pub open spec fn all_tokens(ws: Seq<Seq<char>>) -> bool {
    forall|i: int| 0 <= i < ws.len() ==> is_token(#[trigger] ws[i])
}

proof fn lemma_line_words_tokens(line: Seq<char>, i: int, cur: Seq<char>)
    requires
        forall|k: int| 0 <= k < cur.len() ==> !is_ws(#[trigger] cur[k]) && !is_paren(cur[k]),
    ensures
        all_tokens(line_words_from(line, i, cur)),
    decreases line.len() - i,
{
    if i < 0 || i >= line.len() {
    } else if is_ws(line[i]) {
        lemma_line_words_tokens(line, i + 1, seq![]);
        let a = flush(cur);
        let b = line_words_from(line, i + 1, seq![]);
        assert forall|k: int| 0 <= k < (a + b).len() implies is_token(#[trigger] (a + b)[k]) by {
            if k >= a.len() {
                assert((a + b)[k] == b[k - a.len()]);
            }
        }
    } else if is_paren(line[i]) {
        lemma_line_words_tokens(line, i + 1, seq![]);
        let a = flush(cur) + seq![seq![line[i]]];
        let b = line_words_from(line, i + 1, seq![]);
        assert forall|k: int| 0 <= k < (a + b).len() implies is_token(#[trigger] (a + b)[k]) by {
            if k >= a.len() {
                assert((a + b)[k] == b[k - a.len()]);
            } else if k == a.len() - 1 {
                assert(a[k] == seq![line[i]]);
            }
        }
    } else {
        let c2 = cur.push(line[i]);
        assert forall|k: int| 0 <= k < c2.len() implies !is_ws(#[trigger] c2[k]) && !is_paren(c2[k]) by {
            if k < cur.len() {
                assert(c2[k] == cur[k]);
            }
        }
        lemma_line_words_tokens(line, i + 1, c2);
    }
}

proof fn lemma_words_from_tokens(s: Seq<char>, start: int, sign: Option<Seq<char>>)
    ensures
        all_tokens(words_from(s, start, sign)),
    decreases s.len() - start,
{
    if 0 <= start < s.len() {
        lemma_line_end_bounds(s, start);
        let e = line_end(s, start);
        lemma_words_from_tokens(s, e, sign);
        lemma_line_words_tokens(strip_comment(s.subrange(start, e), sign), 0, seq![]);
        let a = line_words(strip_comment(s.subrange(start, e), sign));
        let b = words_from(s, e, sign);
        assert forall|k: int| 0 <= k < (a + b).len() implies is_token(#[trigger] (a + b)[k]) by {
            if k >= a.len() {
                assert((a + b)[k] == b[k - a.len()]);
            }
        }
    }
}

/// Every word of a text is a single round bracket or a nonempty run of
/// characters that are neither whitespace nor round brackets.
pub proof fn lemma_content_words_are_tokens(s: Seq<char>, sign: Option<Seq<char>>)
    ensures
        all_tokens(content_words(s, sign)),
{
    lemma_words_from_tokens(s, 0, sign);
}

/// The characters of `s` that are not whitespace, in order.
pub open spec fn non_ws(s: Seq<char>) -> Seq<char>
    decreases s.len(),
{
    if s.len() == 0 {
        seq![]
    } else if is_ws(s[0]) {
        non_ws(s.drop_first())
    } else {
        seq![s[0]] + non_ws(s.drop_first())
    }
}

/// The lines of `s` from index `start` on, each cut just before its first
/// comment sign, joined again.
pub open spec fn uncommented_from(s: Seq<char>, start: int, sign: Option<Seq<char>>) -> Seq<char>
    decreases s.len() - start,
{
    if start < 0 || start >= s.len() {
        seq![]
    } else {
        proof {
            lemma_line_end_bounds(s, start);
        }
        strip_comment(s.subrange(start, line_end(s, start)), sign) + uncommented_from(
            s,
            line_end(s, start),
            sign,
        )
    }
}

/// The text `s` without its comments.
pub open spec fn uncommented(s: Seq<char>, sign: Option<Seq<char>>) -> Seq<char> {
    uncommented_from(s, 0, sign)
}

proof fn lemma_non_ws_add(a: Seq<char>, b: Seq<char>)
    ensures
        non_ws(a + b) == non_ws(a) + non_ws(b),
    decreases a.len(),
{
    if a.len() == 0 {
        assert(a + b =~= b);
        assert(non_ws(a) + non_ws(b) =~= non_ws(b));
    } else {
        assert((a + b)[0] == a[0]);
        assert((a + b).drop_first() =~= a.drop_first() + b);
        lemma_non_ws_add(a.drop_first(), b);
        if !is_ws(a[0]) {
            assert(seq![a[0]] + (non_ws(a.drop_first()) + non_ws(b)) =~= (seq![a[0]] + non_ws(
                a.drop_first(),
            )) + non_ws(b));
        }
    }
}

proof fn lemma_flush_flatten(cur: Seq<char>)
    ensures
        flush(cur).flatten() == cur,
{
    assert(Seq::<Seq<char>>::empty().flatten() =~= Seq::<char>::empty());
    if cur.len() > 0 {
        assert(seq![cur].drop_first() =~= Seq::<Seq<char>>::empty());
        assert(seq![cur].flatten() =~= cur);
    }
}

proof fn lemma_line_words_flatten(line: Seq<char>, i: int, cur: Seq<char>)
    requires
        0 <= i <= line.len(),
    ensures
        line_words_from(line, i, cur).flatten() == cur + non_ws(line.skip(i)),
    decreases line.len() - i,
{
    lemma_flush_flatten(cur);
    if i == line.len() {
        assert(line.skip(i) =~= Seq::<char>::empty());
        assert(cur + non_ws(line.skip(i)) =~= cur);
    } else {
        let t = line.skip(i);
        let c = line[i];
        assert(t[0] == c);
        assert(t.drop_first() =~= line.skip(i + 1));
        if is_ws(c) {
            lemma_line_words_flatten(line, i + 1, seq![]);
            lemma_flatten_concat(flush(cur), line_words_from(line, i + 1, seq![]));
            assert(Seq::<char>::empty() + non_ws(line.skip(i + 1)) =~= non_ws(line.skip(i + 1)));
        } else if is_paren(c) {
            lemma_line_words_flatten(line, i + 1, seq![]);
            let rest = line_words_from(line, i + 1, seq![]);
            lemma_flatten_concat(flush(cur) + seq![seq![c]], rest);
            lemma_flatten_concat(flush(cur), seq![seq![c]]);
            lemma_flush_flatten(seq![c]);
            assert(flush(seq![c]) =~= seq![seq![c]]);
            assert(Seq::<char>::empty() + non_ws(line.skip(i + 1)) =~= non_ws(line.skip(i + 1)));
            assert(cur + seq![c] + non_ws(line.skip(i + 1)) =~= cur + (seq![c] + non_ws(
                line.skip(i + 1),
            )));
        } else {
            lemma_line_words_flatten(line, i + 1, cur.push(c));
            assert(cur.push(c) + non_ws(line.skip(i + 1)) =~= cur + (seq![c] + non_ws(
                line.skip(i + 1),
            )));
        }
    }
}

proof fn lemma_words_from_flatten(s: Seq<char>, start: int, sign: Option<Seq<char>>)
    ensures
        words_from(s, start, sign).flatten() == non_ws(uncommented_from(s, start, sign)),
    decreases s.len() - start,
{
    if 0 <= start < s.len() {
        lemma_line_end_bounds(s, start);
        let e = line_end(s, start);
        let line = strip_comment(s.subrange(start, e), sign);
        lemma_words_from_flatten(s, e, sign);
        lemma_line_words_flatten(line, 0, seq![]);
        assert(line.skip(0) =~= line);
        assert(Seq::<char>::empty() + non_ws(line) =~= non_ws(line));
        lemma_flatten_concat(line_words(line), words_from(s, e, sign));
        lemma_non_ws_add(line, uncommented_from(s, e, sign));
    } else {
        assert(Seq::<Seq<char>>::empty().flatten() =~= Seq::<char>::empty());
        assert(non_ws(Seq::<char>::empty()) == Seq::<char>::empty());
    }
}

/// Joined together, the words of a text give back the text without its
/// comments and without any whitespace.
pub proof fn lemma_words_rebuild_text(s: Seq<char>, sign: Option<Seq<char>>)
    ensures
        content_words(s, sign).flatten() == non_ws(uncommented(s, sign)),
{
    lemma_words_from_flatten(s, 0, sign);
}

/// Whether no comment sign can start anywhere in `s`: there is no sign, or
/// its first character never occurs in `s`.
pub open spec fn sign_absent(s: Seq<char>, sign: Option<Seq<char>>) -> bool {
    match sign {
        None => true,
        Some(p) => p.len() > 0 && forall|j: int| 0 <= j < s.len() ==> #[trigger] s[j] != p[0],
    }
}

proof fn lemma_find_from_absent(line: Seq<char>, p: Seq<char>, i: int)
    requires
        p.len() > 0,
        forall|j: int| 0 <= j < line.len() ==> #[trigger] line[j] != p[0],
    ensures
        crate::text::find_from(line, p, i) is None,
    decreases line.len() + 1 - i,
{
    if 0 <= i && i + p.len() <= line.len() {
        assert(line.subrange(i, i + p.len())[0] == line[i]);
        lemma_find_from_absent(line, p, i + 1);
    }
}

proof fn lemma_line_segment_words(s: Seq<char>, a: int, e: int, k: int, cur: Seq<char>)
    requires
        0 <= a <= a + k <= e <= s.len(),
        e == s.len() || (a < e && is_ws(s[e - 1])),
        k == e - a && e < s.len() ==> cur.len() == 0,
    ensures
        line_words_from(s.subrange(a, e), k, cur) + line_words_from(s, e, seq![])
            == line_words_from(s, a + k, cur),
    decreases e - a - k,
{
    let seg = s.subrange(a, e);
    if k == e - a {
        if e == s.len() {
            assert(line_words_from(s, e, seq![]) =~= Seq::<Seq<char>>::empty());
            assert(flush(cur) + Seq::<Seq<char>>::empty() =~= flush(cur));
        } else {
            assert(cur =~= Seq::<char>::empty());
            assert(flush(cur) =~= Seq::<Seq<char>>::empty());
            assert(flush(cur) + line_words_from(s, e, seq![]) =~= line_words_from(s, e, seq![]));
        }
    } else {
        let c = s[a + k];
        assert(seg[k] == c);
        if is_ws(c) {
            lemma_line_segment_words(s, a, e, k + 1, seq![]);
            assert(flush(cur) + line_words_from(seg, k + 1, seq![]) + line_words_from(s, e, seq![])
                =~= flush(cur) + (line_words_from(seg, k + 1, seq![]) + line_words_from(
                s,
                e,
                seq![],
            )));
        } else if is_paren(c) {
            lemma_line_segment_words(s, a, e, k + 1, seq![]);
            assert(flush(cur) + seq![seq![c]] + line_words_from(seg, k + 1, seq![])
                + line_words_from(s, e, seq![]) =~= flush(cur) + seq![seq![c]] + (line_words_from(
                seg,
                k + 1,
                seq![],
            ) + line_words_from(s, e, seq![])));
        } else {
            lemma_line_segment_words(s, a, e, k + 1, cur.push(c));
        }
    }
}

proof fn lemma_words_from_one_line(s: Seq<char>, start: int, sign: Option<Seq<char>>)
    requires
        0 <= start <= s.len(),
        sign_absent(s, sign),
    ensures
        words_from(s, start, sign) == line_words_from(s, start, seq![]),
    decreases s.len() - start,
{
    if start < s.len() {
        lemma_line_end_bounds(s, start);
        let e = line_end(s, start);
        let seg = s.subrange(start, e);
        if let Some(p) = sign {
            assert forall|j: int| 0 <= j < seg.len() implies #[trigger] seg[j] != p[0] by {
                assert(seg[j] == s[start + j]);
            }
            lemma_find_from_absent(seg, p, 0);
        }
        assert(strip_comment(seg, sign) == seg);
        lemma_words_from_one_line(s, e, sign);
        lemma_line_segment_words(s, start, e, 0, seq![]);
    } else {
        assert(line_words_from(s, start, seq![]) =~= Seq::<Seq<char>>::empty());
    }
}

proof fn lemma_line_words_same_layout(s1: Seq<char>, s2: Seq<char>, i: int, cur: Seq<char>)
    requires
        s1.len() == s2.len(),
        forall|j: int| 0 <= j < s1.len() ==> s1[j] == s2[j] || (is_ws(s1[j]) && is_ws(s2[j])),
    ensures
        line_words_from(s1, i, cur) == line_words_from(s2, i, cur),
    decreases s1.len() - i,
{
    if 0 <= i < s1.len() {
        if is_ws(s1[i]) {
            lemma_line_words_same_layout(s1, s2, i + 1, seq![]);
        } else if is_paren(s1[i]) {
            lemma_line_words_same_layout(s1, s2, i + 1, seq![]);
        } else {
            lemma_line_words_same_layout(s1, s2, i + 1, cur.push(s1[i]));
        }
    }
}

/// Where no comment sign occurs, line breaks are whitespace like any other:
/// two texts that differ only in which whitespace characters they hold (a
/// space where the other breaks the line, say) have the same words.
pub proof fn lemma_words_ignore_line_layout(s1: Seq<char>, s2: Seq<char>, sign: Option<Seq<char>>)
    requires
        s1.len() == s2.len(),
        forall|j: int| 0 <= j < s1.len() ==> s1[j] == s2[j] || (is_ws(s1[j]) && is_ws(s2[j])),
        sign_absent(s1, sign),
        sign_absent(s2, sign),
    ensures
        content_words(s1, sign) == content_words(s2, sign),
{
    lemma_words_from_one_line(s1, 0, sign);
    lemma_words_from_one_line(s2, 0, sign);
    lemma_line_words_same_layout(s1, s2, 0, seq![]);
}

/// Whether `p` occurs in `s` at index `z`.
pub open spec fn occurs_at_index(s: Seq<char>, p: Seq<char>, z: int) -> bool {
    0 <= z && z + p.len() <= s.len() && s.subrange(z, z + p.len()) == p
}

/// Whether `p` occurs anywhere in `s`.
pub open spec fn occurs_in(s: Seq<char>, p: Seq<char>) -> bool {
    exists|z: int| occurs_at_index(s, p, z)
}

proof fn lemma_find_from_first(s: Seq<char>, p: Seq<char>, x: int)
    requires
        0 <= x,
    ensures
        match crate::text::find_from(s, p, x) {
            Some(y) => x <= y && occurs_at_index(s, p, y) && forall|z: int|
                x <= z < y ==> !#[trigger] occurs_at_index(s, p, z),
            None => forall|z: int| x <= z ==> !#[trigger] occurs_at_index(s, p, z),
        },
    decreases s.len() + 1 - x,
{
    if x + p.len() <= s.len() {
        lemma_find_from_first(s, p, x + 1);
    }
}

proof fn lemma_occurs_in_part(x: Seq<char>, a: int, b: int, p: Seq<char>)
    requires
        0 <= a <= b <= x.len(),
        occurs_in(x.subrange(a, b), p),
    ensures
        occurs_in(x, p),
{
    let z = choose|z: int| occurs_at_index(x.subrange(a, b), p, z);
    assert(x.subrange(a + z, a + z + p.len()) =~= x.subrange(a, b).subrange(z, z + p.len()));
    assert(occurs_at_index(x, p, a + z));
}

proof fn lemma_stripped_line_lacks_sign(line: Seq<char>, p: Seq<char>)
    requires
        p.len() > 0,
    ensures
        !occurs_in(strip_comment(line, Some(p)), p),
{
    lemma_find_from_first(line, p, 0);
    match find(line, p) {
        None => {
            if occurs_in(line, p) {
                let z = choose|z: int| occurs_at_index(line, p, z);
                assert(!occurs_at_index(line, p, z));
            }
        },
        Some(i) => {
            let t = line.take(i);
            if occurs_in(t, p) {
                let z = choose|z: int| occurs_at_index(t, p, z);
                assert(line.subrange(z, z + p.len()) =~= t.subrange(z, z + p.len()));
                assert(occurs_at_index(line, p, z));
                assert(!occurs_at_index(line, p, z));
            }
        },
    }
}

proof fn lemma_line_words_lack_sign(line: Seq<char>, i: int, cur: Seq<char>, p: Seq<char>)
    requires
        0 <= i <= line.len(),
        !occurs_in(cur + line.skip(i), p),
    ensures
        forall|k: int|
            0 <= k < line_words_from(line, i, cur).len() ==> !occurs_in(
                #[trigger] line_words_from(line, i, cur)[k],
                p,
            ),
    decreases line.len() - i,
{
    let all = cur + line.skip(i);
    let f = flush(cur);
    assert(all.subrange(0, cur.len() as int) =~= cur);
    if occurs_in(cur, p) {
        lemma_occurs_in_part(all, 0, cur.len() as int, p);
    }
    assert forall|k: int| 0 <= k < f.len() implies !occurs_in(#[trigger] f[k], p) by {
        assert(f[k] == cur);
    }
    if i < line.len() {
        let c = line[i];
        assert(all[cur.len() as int] == c);
        assert(all.subrange(cur.len() as int + 1, all.len() as int) =~= line.skip(i + 1));
        assert(Seq::<char>::empty() + line.skip(i + 1) =~= line.skip(i + 1));
        if is_ws(c) || is_paren(c) {
            if occurs_in(line.skip(i + 1), p) {
                lemma_occurs_in_part(all, cur.len() as int + 1, all.len() as int, p);
            }
            lemma_line_words_lack_sign(line, i + 1, seq![], p);
            let rest = line_words_from(line, i + 1, seq![]);
            let mid: Seq<Seq<char>> = if is_paren(c) {
                seq![seq![c]]
            } else {
                seq![]
            };
            if is_paren(c) {
                assert(all.subrange(cur.len() as int, cur.len() as int + 1) =~= seq![c]);
                if occurs_in(seq![c], p) {
                    lemma_occurs_in_part(all, cur.len() as int, cur.len() as int + 1, p);
                }
            }
            assert(line_words_from(line, i, cur) =~= f + mid + rest);
            let w = f + mid + rest;
            assert forall|k: int| 0 <= k < w.len() implies !occurs_in(#[trigger] w[k], p) by {
                if k < f.len() {
                    assert(w[k] == f[k]);
                } else if k < f.len() + mid.len() {
                    assert(w[k] == mid[k - f.len()]);
                    assert(mid[k - f.len()] == seq![c]);
                } else {
                    assert(w[k] == rest[k - f.len() - mid.len()]);
                }
            }
        } else {
            assert(cur.push(c) + line.skip(i + 1) =~= all);
            lemma_line_words_lack_sign(line, i + 1, cur.push(c), p);
            assert(line_words_from(line, i, cur) == line_words_from(line, i + 1, cur.push(c)));
        }
    } else {
        assert(line_words_from(line, i, cur) == f);
    }
}

proof fn lemma_words_from_lack_sign(s: Seq<char>, start: int, p: Seq<char>)
    requires
        p.len() > 0,
    ensures
        forall|k: int|
            0 <= k < words_from(s, start, Some(p)).len() ==> !occurs_in(
                #[trigger] words_from(s, start, Some(p))[k],
                p,
            ),
    decreases s.len() - start,
{
    if 0 <= start < s.len() {
        lemma_line_end_bounds(s, start);
        let e = line_end(s, start);
        let line = strip_comment(s.subrange(start, e), Some(p));
        lemma_stripped_line_lacks_sign(s.subrange(start, e), p);
        assert(Seq::<char>::empty() + line.skip(0) =~= line);
        lemma_line_words_lack_sign(line, 0, seq![], p);
        lemma_words_from_lack_sign(s, e, p);
        let a = line_words(line);
        let b = words_from(s, e, Some(p));
        assert forall|k: int| 0 <= k < (a + b).len() implies !occurs_in(#[trigger] (a + b)[k], p) by {
            if k >= a.len() {
                assert((a + b)[k] == b[k - a.len()]);
            } else {
                assert((a + b)[k] == a[k]);
            }
        }
    }
}

/// No word of a text holds its comment sign: each line is cut at the first
/// occurrence of the sign, and the words come from what is left of it.
pub proof fn lemma_words_lack_comment_sign(s: Seq<char>, p: Seq<char>)
    requires
        p.len() > 0,
    ensures
        forall|k: int|
            0 <= k < content_words(s, Some(p)).len() ==> !occurs_in(
                #[trigger] content_words(s, Some(p))[k],
                p,
            ),
{
    lemma_words_from_lack_sign(s, 0, p);
}

/// The bracket stack after one more character: an opening bracket is pushed,
/// and a closing bracket pops the top only when the top is its partner.
pub open spec fn stack_step(st: Seq<char>, c: char) -> Seq<char> {
    if c == '(' || c == '{' || c == '[' {
        st.push(c)
    } else if c == ')' {
        if st.len() > 0 && st.last() == '(' {
            st.drop_last()
        } else {
            st
        }
    } else if c == '}' {
        if st.len() > 0 && st.last() == '{' {
            st.drop_last()
        } else {
            st
        }
    } else if c == ']' {
        if st.len() > 0 && st.last() == '[' {
            st.drop_last()
        } else {
            st
        }
    } else {
        st
    }
}

/// The bracket stack after all the characters of `w`.
pub open spec fn stack_after(st: Seq<char>, w: Seq<char>) -> Seq<char>
    decreases w.len(),
{
    if w.len() == 0 {
        st
    } else {
        stack_step(stack_after(st, w.drop_last()), w.last())
    }
}

/// The stack after the one-character word `c` is one step of the stack.
pub(crate) proof fn lemma_stack_after_one(st: Seq<char>, c: char)
    ensures
        stack_after(st, seq![c]) == stack_step(st, c),
{
    assert(seq![c].drop_last() =~= Seq::<char>::empty());
    assert(stack_after(st, Seq::<char>::empty()) == st);
}

/// An opening bracket followed by its closing partner leaves the stack as it
/// was.
pub proof fn lemma_bracket_pair_restores(st: Seq<char>, open: char, close: char)
    requires
        (open == '(' && close == ')') || (open == '{' && close == '}') || (open == '['
            && close == ']'),
    ensures
        stack_after(stack_after(st, seq![open]), seq![close]) == st,
{
    lemma_stack_after_one(st, open);
    lemma_stack_after_one(st.push(open), close);
    assert(st.push(open).drop_last() =~= st);
}

/// The view of an optional comment sign.
pub open spec fn sign_view(sign: Option<&str>) -> Option<Seq<char>> {
    match sign {
        Some(p) => Some(p@),
        None => None,
    }
}

/// The string made of the single character `c`.
fn one_char_string(c: char) -> (res: String)
    ensures
        res@ == seq![c],
{
    let mut v: Vec<char> = Vec::new();
    v.push(c);
    proof {
        assert(v@ =~= seq![c]);
    }
    string_from_chars(&v)
}

/// Appends the word being built, if it is not empty, to `words`.
fn flush_word(words: &mut Vec<String>, cur: &Vec<char>)
    ensures
        views(final(words)@) == views(old(words)@) + flush(cur@),
{
    if cur.len() > 0 {
        let w = string_from_chars(cur);
        words.push(w);
    }
    assert(views(words@) =~= views(old(words)@) + flush(cur@));
}

/// Appends the words of `chars[from..to]` to `words`.
fn push_line_words(chars: &Vec<char>, from: usize, to: usize, words: &mut Vec<String>)
    requires
        from <= to <= chars@.len(),
    ensures
        views(final(words)@) == views(old(words)@) + line_words(
            chars@.subrange(from as int, to as int),
        ),
{
    let ghost line = chars@.subrange(from as int, to as int);
    let mut cur: Vec<char> = Vec::new();
    let mut i = from;
    while i < to
        invariant
            from <= i <= to <= chars@.len(),
            line == chars@.subrange(from as int, to as int),
            views(words@) + line_words_from(line, i - from, cur@) == views(old(words)@)
                + line_words(line),
        decreases to - i,
    {
        let c = chars[i];
        let ghost before = views(words@);
        let ghost cur0 = cur@;
        let ghost k = i - from;
        assert(line[k] == c);
        if is_whitespace(c) {
            flush_word(words, &cur);
            cur = Vec::new();
            assert(line_words_from(line, k, cur0) == flush(cur0) + line_words_from(
                line,
                k + 1,
                seq![],
            ));
            assert(views(words@) + line_words_from(line, k + 1, cur@) =~= before
                + line_words_from(line, k, cur0));
        } else if c == '(' || c == ')' {
            flush_word(words, &cur);
            cur = Vec::new();
            let ghost mid = views(words@);
            let w = one_char_string(c);
            words.push(w);
            assert(views(words@) =~= mid.push(seq![c]));
            assert(line_words_from(line, k, cur0) == flush(cur0) + seq![seq![c]]
                + line_words_from(line, k + 1, seq![]));
            assert(views(words@) + line_words_from(line, k + 1, cur@) =~= before
                + line_words_from(line, k, cur0));
        } else {
            cur.push(c);
            assert(line_words_from(line, k, cur0) == line_words_from(line, k + 1, cur@));
        }
        i += 1;
    }
    flush_word(words, &cur);
}

/// The words of `content`: its lines, each cut at the first occurrence of the
/// comment sign, split into words.
pub fn tokenize(content: &str, comment_sign: Option<&str>) -> (res: Vec<String>)
    ensures
        views(res@) == content_words(content@, sign_view(comment_sign)),
{
    let chars = chars_of(content);
    let ghost s = chars@;
    let ghost sign = sign_view(comment_sign);
    let pat: Option<Vec<char>> = match comment_sign {
        Some(p) => Some(chars_of(p)),
        None => None,
    };
    let mut words: Vec<String> = Vec::new();
    let mut start: usize = 0;
    while start < chars.len()
        invariant
            s == chars@,
            s == content@,
            start <= s.len(),
            sign == sign_view(comment_sign),
            match pat {
                Some(p) => sign == Some(p@),
                None => sign is None,
            },
            views(words@) + words_from(s, start as int, sign) == content_words(s, sign),
        decreases s.len() - start,
    {
        let end = find_line_end(&chars, start);
        let ghost line = s.subrange(start as int, end as int);
        let cut = match &pat {
            Some(p) => match find_in(&chars, start, end, p) {
                Some(i) => {
                    assert(find(line, p@) == Some(i as int));
                    assert(line.take(i as int) =~= s.subrange(start as int, start + i));
                    start + i
                },
                None => {
                    assert(find(line, p@) is None);
                    end
                },
            },
            None => end,
        };
        assert(strip_comment(line, sign) == s.subrange(start as int, cut as int));
        let ghost before = views(words@);
        push_line_words(&chars, start, cut, &mut words);
        assert(views(words@) + words_from(s, end as int, sign) =~= before + words_from(
            s,
            start as int,
            sign,
        ));
        start = end;
    }
    assert(words_from(s, start as int, sign) =~= Seq::<Seq<char>>::empty());
    assert(views(words@) =~= content_words(s, sign));
    words
}

/// Reads a text word by word, keeping a stack of the brackets read so far.
pub struct FileStreamReader {
    words: Vec<String>,
    pos: usize,
    /// The brackets opened and not yet closed, innermost last.
    pub stack: Vec<char>,
}

impl FileStreamReader {
    /// The reader's position lies within its words.
    pub closed spec fn wf(&self) -> bool {
        &&& self.pos <= self.words@.len()
        &&& all_tokens(self.remaining())
    }

    /// The bracket stack, innermost last.
    pub closed spec fn stack_seq(&self) -> Seq<char> {
        self.stack@
    }

    /// The words not yet read are words in the sense of [`is_token`].
    pub proof fn lemma_remaining_tokens(&self)
        requires
            self.wf(),
        ensures
            all_tokens(self.remaining()),
    {
    }

    /// The words not yet read, in order.
    pub closed spec fn remaining(&self) -> Seq<Seq<char>> {
        views(self.words@).subrange(self.pos as int, self.words@.len() as int)
    }

    /// A reader over the words of `content`, lines cut at `comment_sign`.
    pub fn new(content: &str, comment_sign: Option<&str>) -> (res: Self)
        ensures
            res.wf(),
            res.remaining() == content_words(content@, sign_view(comment_sign)),
            res.stack_seq() == Seq::<char>::empty(),
    {
        let words = tokenize(content, comment_sign);
        let res = FileStreamReader { words, pos: 0, stack: Vec::new() };
        assert(res.remaining() =~= views(res.words@));
        proof {
            lemma_content_words_are_tokens(content@, sign_view(comment_sign));
        }
        res
    }

    /// A reader over the words of the text `content`.
    pub fn from_string(content: &str, comment_sign: Option<&str>) -> (res: Self)
        ensures
            res.wf(),
            res.remaining() == content_words(content@, sign_view(comment_sign)),
            res.stack_seq() == Seq::<char>::empty(),
    {
        Self::new(content, comment_sign)
    }

    /// Reads the next word, and applies its brackets to the stack; `None` at
    /// the end of the text.
    pub fn next_word(&mut self) -> (res: Option<String>)
        requires
            old(self).wf(),
        ensures
            final(self).wf(),
            old(self).remaining().len() == 0 ==> {
                &&& res is None
                &&& final(self).remaining() == old(self).remaining()
                &&& final(self).stack_seq() == old(self).stack_seq()
            },
            old(self).remaining().len() > 0 ==> {
                &&& res matches Some(w)
                &&& w@ == old(self).remaining()[0]
                &&& final(self).remaining() == old(self).remaining().drop_first()
                &&& final(self).stack_seq() == stack_after(old(self).stack_seq(), w@)
            },
    {
        if self.pos >= self.words.len() {
            return None;
        }
        let word = self.words[self.pos].clone();
        self.pos = self.pos + 1;
        self.handle_stack(&word);
        assert(self.remaining() =~= old(self).remaining().drop_first());
        Some(word)
    }

    /// The next word, without reading it; `None` at the end of the text.
    pub fn peek_word(&self) -> (res: Option<&String>)
        requires
            self.wf(),
        ensures
            self.remaining().len() == 0 ==> res is None,
            self.remaining().len() > 0 ==> (res matches Some(w) && w@ == self.remaining()[0]),
    {
        if self.pos >= self.words.len() {
            None
        } else {
            Some(&self.words[self.pos])
        }
    }

    /// Applies the brackets of `word` to the stack.
    fn handle_stack(&mut self, word: &String)
        ensures
            final(self).stack_seq() == stack_after(old(self).stack_seq(), word@),
            final(self).words == old(self).words,
            final(self).pos == old(self).pos,
    {
        let cs = chars_of(word.as_str());
        let mut i: usize = 0;
        while i < cs.len()
            invariant
                i <= cs@.len(),
                cs@ == word@,
                self.stack@ == stack_after(old(self).stack_seq(), cs@.take(i as int)),
                self.words == old(self).words,
                self.pos == old(self).pos,
            decreases cs@.len() - i,
        {
            let ch = cs[i];
            assert(cs@.take(i + 1).drop_last() =~= cs@.take(i as int));
            let n = self.stack.len();
            if ch == '(' || ch == '{' || ch == '[' {
                self.stack.push(ch);
            } else if ch == ')' {
                if n > 0 && self.stack[n - 1] == '(' {
                    self.stack.pop();
                }
            } else if ch == '}' {
                if n > 0 && self.stack[n - 1] == '{' {
                    self.stack.pop();
                }
            } else if ch == ']' {
                if n > 0 && self.stack[n - 1] == '[' {
                    self.stack.pop();
                }
            }
            assert(self.stack@ =~= stack_after(old(self).stack_seq(), cs@.take(i + 1)));
            i += 1;
        }
        assert(cs@.take(cs@.len() as int) =~= cs@);
    }

    /// Whether every bracket read so far has been closed.
    pub fn is_stack_empty(&self) -> (res: bool)
        ensures
            res == (self.stack_seq().len() == 0),
    {
        self.stack.len() == 0
    }

    /// The number of brackets opened and not yet closed.
    pub fn depth(&self) -> (res: usize)
        ensures
            res == self.stack_seq().len(),
    {
        self.stack.len()
    }
}

} // verus!
