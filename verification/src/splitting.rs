//! What texts are made of: words and lines.

use vstd::prelude::*;

use crate::text::{
    back_space, is_space, lemma_skip_space, lemma_token_end, line_end, lines, lines_from,
    skip_space, token_end, trim, trim_end, trim_start, words, words_from,
};

verus! {

// ---------------------------------------------------------------------------------------------
// Words
// ---------------------------------------------------------------------------------------------

proof fn lemma_skip_shift(p: Seq<char>, t: Seq<char>, i: int)
    requires
        0 <= i <= t.len(),
    ensures
        skip_space(p + t, p.len() + i) == p.len() + skip_space(t, i),
    decreases t.len() - i,
{
    if i < t.len() {
        assert((p + t)[p.len() + i] == t[i]);
        lemma_skip_shift(p, t, i + 1);
    }
}

proof fn lemma_token_shift(p: Seq<char>, t: Seq<char>, i: int)
    requires
        0 <= i <= t.len(),
    ensures
        token_end(p + t, p.len() + i) == p.len() + token_end(t, i),
    decreases t.len() - i,
{
    if i < t.len() {
        assert((p + t)[p.len() + i] == t[i]);
        lemma_token_shift(p, t, i + 1);
    }
}

proof fn lemma_words_shift(p: Seq<char>, t: Seq<char>, i: int)
    requires
        0 <= i <= t.len(),
    ensures
        words_from(p + t, p.len() + i) == words_from(t, i),
    decreases t.len() - i,
{
    let a = skip_space(t, i);
    let b = token_end(t, a);
    lemma_skip_space(t, i);
    lemma_token_end(t, a);
    lemma_skip_shift(p, t, i);
    lemma_token_shift(p, t, a);
    if a < b {
        lemma_words_shift(p, t, b);
        assert((p + t).subrange(p.len() + a, p.len() + b) =~= t.subrange(a, b));
    }
}

proof fn lemma_skip_before(s: Seq<char>, c: char, t: Seq<char>, i: int)
    requires
        0 <= i <= s.len(),
        is_space(c),
    ensures
        skip_space(s.push(c) + t, i) == if skip_space(s, i) < s.len() {
            skip_space(s, i)
        } else {
            skip_space(s.push(c) + t, s.len() as int + 1)
        },
    decreases s.len() - i,
{
    let u = s.push(c) + t;
    if i < s.len() {
        assert(u[i] == s[i]);
        lemma_skip_before(s, c, t, i + 1);
    } else {
        assert(u[i] == c);
    }
}

proof fn lemma_token_before(s: Seq<char>, c: char, t: Seq<char>, i: int)
    requires
        0 <= i <= s.len(),
        is_space(c),
    ensures
        token_end(s.push(c) + t, i) == token_end(s, i),
    decreases s.len() - i,
{
    let u = s.push(c) + t;
    if i < s.len() {
        assert(u[i] == s[i]);
        lemma_token_before(s, c, t, i + 1);
    } else {
        assert(u[i] == c);
    }
}

proof fn lemma_words_before(s: Seq<char>, c: char, t: Seq<char>, i: int)
    requires
        0 <= i <= s.len(),
        is_space(c),
    ensures
        words_from(s.push(c) + t, i) == words_from(s, i) + words(t),
    decreases s.len() - i,
{
    let u = s.push(c) + t;
    let a = skip_space(s, i);
    let b = token_end(s, a);
    let next = s.len() as int + 1;
    lemma_skip_space(s, i);
    lemma_token_end(s, a);
    lemma_skip_before(s, c, t, i);
    lemma_skip_space(u, next);
    lemma_token_end(u, skip_space(u, next));
    if a < s.len() {
        assert(token_end(s, a) == token_end(s, a + 1));
        lemma_token_end(s, a + 1);
        lemma_token_before(s, c, t, a);
        assert(u.subrange(a, b) =~= s.subrange(a, b));
        lemma_words_before(s, c, t, b);
        assert(seq![s.subrange(a, b)] + (words_from(s, b) + words(t)) =~= (seq![s.subrange(a, b)]
            + words_from(s, b)) + words(t));
    } else {
        lemma_words_shift(s.push(c), t, 0);
        assert(words_from(u, i) == words_from(u, next));
        assert(words_from(s, i) =~= seq![]);
        assert(Seq::<Seq<char>>::empty() + words(t) =~= words(t));
    }
}

/// Whitespace separates words, however much of it there is: the words before it and the words behind
/// it are the words of the whole. A text without whitespace is one word, and an empty one is none.
pub proof fn words_are_separated_by_whitespace(s: Seq<char>, c: char, t: Seq<char>)
    ensures
        is_space(c) ==> words(s + seq![c] + t) == words(s) + words(t),
        s.len() > 0 && (forall|i: int| 0 <= i < s.len() ==> !is_space(#[trigger] s[i])) ==> words(
            s,
        ) == seq![s],
        words(seq![]) == Seq::<Seq<char>>::empty(),
{
    assert(s + seq![c] + t =~= s.push(c) + t);
    if is_space(c) {
        lemma_words_before(s, c, t, 0);
    }
    if s.len() > 0 && (forall|i: int| 0 <= i < s.len() ==> !is_space(#[trigger] s[i])) {
        let n = s.len() as int;
        lemma_unbroken(s, 0);
        assert(skip_space(s, 0) == 0);
        assert(s.subrange(0, n) =~= s);
        assert(skip_space(s, n) == n && token_end(s, n) == n);
        assert(words_from(s, n) =~= seq![]);
        assert(seq![s] + Seq::<Seq<char>>::empty() =~= seq![s]);
    }
}

proof fn lemma_unbroken(s: Seq<char>, i: int)
    requires
        0 <= i <= s.len(),
        forall|i: int| 0 <= i < s.len() ==> !is_space(#[trigger] s[i]),
    ensures
        token_end(s, i) == s.len(),
    decreases s.len() - i,
{
    if i < s.len() {
        assert(!is_space(s[i]));
        lemma_unbroken(s, i + 1);
    }
}

proof fn lemma_skip_blank(a: Seq<char>, t: Seq<char>, i: int)
    requires
        0 <= i <= a.len(),
        forall|k: int| 0 <= k < a.len() ==> is_space(#[trigger] a[k]),
        t.len() > 0,
        !is_space(t[0]),
    ensures
        skip_space(a + t, i) == a.len(),
    decreases a.len() - i,
{
    let u = a + t;
    if i < a.len() {
        assert(u[i] == a[i]);
        lemma_skip_blank(a, t, i + 1);
    } else {
        assert(u[i] == t[0]);
    }
}

proof fn lemma_back_blank(s: Seq<char>, b: Seq<char>, j: int)
    requires
        0 <= j <= b.len(),
        forall|k: int| 0 <= k < b.len() ==> is_space(#[trigger] b[k]),
        s.len() > 0,
        !is_space(s.last()),
    ensures
        back_space(s + b, s.len() + j) == s.len(),
    decreases j,
{
    let u = s + b;
    if j > 0 {
        assert(u[s.len() + j - 1] == b[j - 1]);
        lemma_back_blank(s, b, j - 1);
    } else {
        assert(u[s.len() - 1] == s.last());
    }
}

/// Trimming takes the whitespace at both ends away, and nothing else.
pub proof fn trimming_takes_whitespace_at_the_ends(a: Seq<char>, s: Seq<char>, b: Seq<char>)
    requires
        forall|k: int| 0 <= k < a.len() ==> is_space(#[trigger] a[k]),
        forall|k: int| 0 <= k < b.len() ==> is_space(#[trigger] b[k]),
        s.len() > 0,
        !is_space(s[0]),
        !is_space(s.last()),
    ensures
        trim(a + s + b) == s,
        trim_start(a + s + b) == s + b,
        trim_end(a + s + b) == a + s,
{
    let t = s + b;
    let u = a + t;
    assert(a + s + b =~= u);
    assert(t[0] == s[0]);
    lemma_skip_blank(a, t, 0);
    assert(u.subrange(a.len() as int, u.len() as int) =~= t);
    lemma_back_blank(s, b, b.len() as int);
    assert(t.subrange(0, s.len() as int) =~= s);
    let v = a + s;
    assert(a + s + b =~= v + b);
    assert(v.last() == s.last());
    lemma_back_blank(v, b, b.len() as int);
    assert((v + b).subrange(0, v.len() as int) =~= v);
}

// ---------------------------------------------------------------------------------------------
// Lines
// ---------------------------------------------------------------------------------------------

proof fn lemma_line_end_shift(p: Seq<char>, t: Seq<char>, i: int)
    requires
        0 <= i <= t.len(),
    ensures
        line_end(p + t, p.len() + i) == p.len() + line_end(t, i),
        i <= line_end(t, i) <= t.len(),
    decreases t.len() - i,
{
    if i < t.len() {
        assert((p + t)[p.len() + i] == t[i]);
        lemma_line_end_shift(p, t, i + 1);
    }
}

proof fn lemma_lines_shift(p: Seq<char>, t: Seq<char>, i: int)
    requires
        0 <= i <= t.len(),
    ensures
        lines_from(p + t, p.len() + i) == lines_from(t, i),
    decreases t.len() - i,
{
    let e = line_end(t, i);
    lemma_line_end_shift(p, t, i);
    if i < t.len() {
        assert((p + t).subrange(p.len() + i, p.len() + e) =~= t.subrange(i, e));
        if e < t.len() {
            lemma_lines_shift(p, t, e + 1);
        }
    }
}

proof fn lemma_unended(s: Seq<char>, t: Seq<char>, i: int)
    requires
        0 <= i <= s.len(),
        forall|k: int| 0 <= k < s.len() ==> (#[trigger] s[k]) != '\n',
        t.len() > 0 ==> t[0] == '\n',
    ensures
        line_end(s + t, i) == s.len(),
    decreases s.len() - i,
{
    let u = s + t;
    if i < s.len() {
        assert(u[i] == s[i]);
        assert(s[i] != '\n');
        lemma_unended(s, t, i + 1);
    } else if t.len() > 0 {
        assert(u[i] == t[0]);
    }
}

/// A line ends with a line feed, before which a carriage return may stand, or with the text.
pub proof fn lines_end_with_a_line_feed(l: Seq<char>, t: Seq<char>)
    requires
        forall|k: int| 0 <= k < l.len() ==> (#[trigger] l[k]) != '\n',
        l.len() > 0 ==> l.last() != '\r',
    ensures
        lines(l + "\n"@ + t) == seq![l] + lines(t),
        lines(l + "\r\n"@ + t) == seq![l] + lines(t),
        l.len() > 0 ==> lines(l) == seq![l],
        lines(seq![]) == Seq::<Seq<char>>::empty(),
{
    reveal_strlit("\n");
    reveal_strlit("\r\n");
    let feed = seq!['\n'];
    let n = l.len() as int;
    assert(l + "\n"@ + t =~= l + (feed + t));
    lemma_unended(l, feed + t, 0);
    let u = l + (feed + t);
    assert(u.subrange(0, n) =~= l);
    assert(u =~= (l + feed) + t);
    lemma_lines_shift(l + feed, t, 0);
    let r = l.push('\r');
    assert(l + "\r\n"@ + t =~= r + (feed + t));
    assert forall|k: int| 0 <= k < r.len() implies (#[trigger] r[k]) != '\n' by {
        if k < n {
            assert(r[k] == l[k]);
        }
    }
    lemma_unended(r, feed + t, 0);
    let v = r + (feed + t);
    assert(v.subrange(0, n + 1) =~= r);
    assert(r.drop_last() =~= l);
    assert(v =~= (r + feed) + t);
    lemma_lines_shift(r + feed, t, 0);
    if n > 0 {
        assert(l + Seq::<char>::empty() =~= l);
        lemma_unended(l, seq![], 0);
        assert(l.subrange(0, n) =~= l);
    }
}

} // verus!
