//! How pattern files are laid out: lines, comments, and statements over several lines.

use vstd::prelude::*;

use crate::banks::CatalogView;
use crate::dsl::lines::{
    balance, comment_start, complete, extended, merge_line, merge_upto, statements,
    without_comment, Merge,
};
use crate::dsl::program::{blank, drafted, program_of, statement_step, DraftView};
use crate::dsl::statements::lemma_trimmed;
use crate::dsl::writing::stands;
use crate::dsl::{ErrorView, ProgramView};
use crate::text::{is_space, line_end, lines, lines_from, trim, without_cr};

verus! {

// ---------------------------------------------------------------------------------------------
// Lines
// ---------------------------------------------------------------------------------------------

/// The lines from `m` on, each with the end of a line behind it.
pub open spec fn page(ls: Seq<Seq<char>>, m: nat) -> Seq<char>
    decreases ls.len() - m,
{
    if m >= ls.len() {
        seq![]
    } else {
        ls[m as int] + "\n"@ + page(ls, m + 1)
    }
}

/// One line of a file: no end of a line within it, or before its end.
pub open spec fn is_line(l: Seq<char>) -> bool {
    &&& forall|i: int| 0 <= i < l.len() ==> (#[trigger] l[i]) != '\n'
    &&& l.len() > 0 ==> l.last() != '\r'
}

proof fn lemma_line_end(s: Seq<char>, i: int, e: int)
    requires
        0 <= i <= e < s.len(),
        forall|k: int| i <= k < e ==> (#[trigger] s[k]) != '\n',
        s[e] == '\n',
    ensures
        line_end(s, i) == e,
    decreases e - i,
{
    if i < e {
        assert(s[i] != '\n');
        lemma_line_end(s, i + 1, e);
    }
}

proof fn lemma_page(s: Seq<char>, i: int, ls: Seq<Seq<char>>, m: nat)
    requires
        forall|k: int| 0 <= k < ls.len() ==> is_line(#[trigger] ls[k]),
        m <= ls.len(),
        stands(s, i, page(ls, m)),
        i + page(ls, m).len() == s.len(),
    ensures
        lines_from(s, i) == ls.skip(m as int),
    decreases ls.len() - m,
{
    reveal_strlit("\n");
    if m < ls.len() {
        let l = ls[m as int];
        assert(is_line(l));
        let e = i + l.len();
        crate::dsl::writing::lemma_stands_add(s, i, l + "\n"@, page(ls, m + 1));
        crate::dsl::writing::lemma_stands_add(s, i, l, "\n"@);
        assert(s[e + 0] == "\n"@[0]);
        assert forall|k: int| i <= k < e implies (#[trigger] s[k]) != '\n' by {
            assert(s[i + (k - i)] == l[k - i]);
        }
        lemma_line_end(s, i, e);
        assert(s.subrange(i, e) =~= l);
        lemma_page(s, e + 1, ls, m + 1);
        assert(seq![l] + ls.skip(m as int + 1) =~= ls.skip(m as int));
    } else {
        assert(ls.skip(m as int) =~= seq![]);
    }
}

/// A file is read line by line.
pub proof fn files_are_read_line_by_line(ls: Seq<Seq<char>>)
    requires
        forall|k: int| 0 <= k < ls.len() ==> is_line(#[trigger] ls[k]),
    ensures
        lines(page(ls, 0)) == ls,
{
    let s = page(ls, 0);
    assert(stands(s, 0, s)) by {
        assert forall|k: int| 0 <= k < s.len() implies s[0 + k] == #[trigger] s[k] by {}
    }
    lemma_page(s, 0, ls, 0);
    assert(ls.skip(0) =~= ls);
}

// ---------------------------------------------------------------------------------------------
// Statements
// ---------------------------------------------------------------------------------------------

/// How many double quotes the text holds.
pub open spec fn quotes(s: Seq<char>) -> nat
    decreases s.len(),
{
    if s.len() == 0 {
        0
    } else {
        quotes(s.drop_last()) + if s.last() == '"' {
            1nat
        } else {
            0nat
        }
    }
}

/// A line that is a statement, or a part of one: no square brackets and no dashes in it, and no
/// whitespace at its ends.
pub open spec fn is_piece(l: Seq<char>) -> bool {
    &&& l.len() > 0
    &&& !is_space(l[0])
    &&& !is_space(l.last())
    &&& forall|i: int|
        0 <= i < l.len() ==> (#[trigger] l[i]) != '[' && l[i] != ']' && l[i] != '-' && l[i] != '\n'
}

proof fn lemma_balance(s: Seq<char>)
    requires
        forall|i: int| 0 <= i < s.len() ==> (#[trigger] s[i]) != '[' && s[i] != ']',
    ensures
        balance(s) == (0int, quotes(s) % 2 == 1),
    decreases s.len(),
{
    if s.len() > 0 {
        let d = s.drop_last();
        assert forall|i: int| 0 <= i < d.len() implies (#[trigger] d[i]) != '[' && d[i] != ']' by {
            assert(d[i] == s[i]);
        }
        lemma_balance(d);
        assert(s[s.len() - 1] != '[');
    }
}

pub proof fn lemma_no_comment(s: Seq<char>, i: int, quoted: bool)
    requires
        0 <= i <= s.len(),
        forall|k: int| 0 <= k < s.len() ==> (#[trigger] s[k]) != '-',
    ensures
        comment_start(s, i, quoted) == s.len(),
    decreases s.len() - i,
{
    if i < s.len() {
        assert(s[i] != '-');
        lemma_no_comment(s, i + 1, !quoted);
        lemma_no_comment(s, i + 1, quoted);
    }
}

proof fn lemma_piece(l: Seq<char>, quoted: bool)
    requires
        is_piece(l),
    ensures
        trim(without_comment(l, quoted)) == l,
        balance(l) == (0int, quotes(l) % 2 == 1),
{
    lemma_no_comment(l, 0, quoted);
    assert(l.take(l.len() as int) =~= l);
    lemma_trimmed(l);
    assert forall|i: int| 0 <= i < l.len() implies (#[trigger] l[i]) != '[' && l[i] != ']' by {}
    lemma_balance(l);
}

proof fn lemma_merge_whole(ls: Seq<Seq<char>>, k: nat)
    requires
        k <= ls.len(),
        forall|i: int|
            0 <= i < ls.len() ==> is_piece(#[trigger] ls[i]) && quotes(ls[i]) % 2 == 0,
    ensures
        merge_upto(ls, k).done == Seq::new(k, |i: int| (i + 1, ls[i])),
        merge_upto(ls, k).open.len() == 0,
    decreases k,
{
    if k > 0 {
        lemma_merge_whole(ls, (k - 1) as nat);
        let m = merge_upto(ls, (k - 1) as nat);
        assert(is_piece(ls[k - 1]));
        assert(m.open =~= seq![]);
        lemma_piece(ls[k - 1], false);
        assert(m.done.push((k as int, ls[k - 1])) =~= Seq::new(k, |i: int| (i + 1, ls[i])));
    } else {
        assert(merge_upto(ls, 0).done =~= Seq::new(0, |i: int| (i + 1, ls[i])));
    }
}

/// Every line that closes its quotes is a statement of its own, under the number of the line.
pub proof fn lines_are_statements(ls: Seq<Seq<char>>)
    requires
        forall|i: int|
            0 <= i < ls.len() ==> is_line(#[trigger] ls[i]) && is_piece(ls[i]) && quotes(ls[i]) % 2
                == 0,
    ensures
        statements(page(ls, 0)) == Seq::new(ls.len(), |i: int| (i + 1, ls[i])),
{
    assert forall|i: int| 0 <= i < ls.len() implies is_line(#[trigger] ls[i]) by {}
    assert forall|i: int| 0 <= i < ls.len() implies is_piece(#[trigger] ls[i]) && quotes(ls[i]) % 2
        == 0 by {
        assert(is_line(ls[i]));
    }
    files_are_read_line_by_line(ls);
    lemma_merge_whole(ls, ls.len());
}

/// A program is what its statements make of a program without any, one after the other.
pub proof fn programs_are_made_by_their_statements(
    ls: Seq<Seq<char>>,
    ds: Seq<DraftView>,
    bpm: u32,
    c: CatalogView,
)
    requires
        forall|i: int|
            0 <= i < ls.len() ==> is_line(#[trigger] ls[i]) && is_piece(ls[i]) && quotes(ls[i]) % 2
                == 0,
        ds.len() == ls.len() + 1,
        ds[0].lets == Map::<Seq<char>, Seq<char>>::empty(),
        ds[0].program == (ProgramView {
            bpm,
            master_gain: 1real,
            swing: None,
            humanize_ms: None,
            reload_quantum_cycles: None,
            mute_all: false,
            tracks: Seq::empty(),
            aliases: Map::empty(),
            silenced: Set::empty(),
            soloed: Set::empty(),
        }),
        forall|i: int|
            0 <= i < ls.len() ==> statement_step(ds[i], i + 1, #[trigger] ls[i], c) == Ok::<
                DraftView,
                Seq<char>,
            >(ds[i + 1]),
    ensures
        program_of(page(ls, 0), bpm, c) == Ok::<ProgramView, ErrorView>(ds.last().program),
{
    assert forall|i: int|
        0 <= i < ls.len() implies is_line(#[trigger] ls[i]) && is_piece(ls[i]) && quotes(ls[i]) % 2
        == 0 by {
        assert(statement_step(ds[i], i + 1, ls[i], c) is Ok);
    }
    lines_are_statements(ls);
    lemma_drafted(ls, ds, bpm, c, ls.len());
}

proof fn lemma_drafted(
    ls: Seq<Seq<char>>,
    ds: Seq<DraftView>,
    bpm: u32,
    c: CatalogView,
    k: nat,
)
    requires
        k <= ls.len(),
        ds.len() == ls.len() + 1,
        ds[0] == blank(bpm),
        forall|i: int|
            0 <= i < ls.len() ==> statement_step(ds[i], i + 1, #[trigger] ls[i], c) == Ok::<
                DraftView,
                Seq<char>,
            >(ds[i + 1]),
    ensures
        drafted(blank(bpm), Seq::new(ls.len(), |i: int| (i + 1, ls[i])), k, c) == Ok::<
            DraftView,
            ErrorView,
        >(ds[k as int]),
    decreases k,
{
    if k > 0 {
        lemma_drafted(ls, ds, bpm, c, (k - 1) as nat);
        assert(statement_step(ds[k - 1], k as int, ls[k - 1], c) == Ok::<DraftView, Seq<char>>(
            ds[k as int],
        ));
    }
}

/// A line that leaves quotes open goes on in the next one: they make one statement, with a space
/// between them, under the number of the first.
pub proof fn open_quotes_join_lines(a: Seq<char>, b: Seq<char>)
    requires
        is_line(a),
        is_line(b),
        is_piece(a),
        is_piece(b),
        quotes(a) % 2 == 1,
        quotes(b) % 2 == 1,
    ensures
        statements(page(seq![a, b], 0)) == seq![(1int, a + " "@ + b)],
{
    reveal_strlit(" ");
    let ls = seq![a, b];
    files_are_read_line_by_line(ls);
    lemma_piece(a, false);
    lemma_piece(b, true);
    reveal_with_fuel(merge_upto, 3);
    let m0 = merge_upto(ls, 0);
    assert(extended(m0.open, a) == a);
    let m1 = merge_upto(ls, 1);
    assert(m1 == merge_line(m0, 1, a));
    assert(m1.open == a && m1.start == 1 && m1.done.len() == 0);
    let t = a.push(' ') + b;
    assert(t =~= a + " "@ + b);
    lemma_quotes_add(a.push(' '), b);
    assert(a.push(' ').drop_last() =~= a);
    assert(quotes(a.push(' ')) == quotes(a));
    assert forall|i: int| 0 <= i < t.len() implies (#[trigger] t[i]) != '[' && t[i] != ']' by {
        if i < a.len() {
            assert(t[i] == a[i]);
        } else if i > a.len() {
            assert(t[i] == b[i - a.len() - 1]);
        }
    }
    lemma_balance(t);
    assert(complete(t));
    let m2 = merge_upto(ls, 2);
    assert(m2 == merge_line(m1, 2, b));
    assert(m2.done =~= seq![(1int, t)]);
}

proof fn lemma_quotes_add(a: Seq<char>, b: Seq<char>)
    ensures
        quotes(a + b) == quotes(a) + quotes(b),
    decreases b.len(),
{
    if b.len() > 0 {
        assert((a + b).drop_last() =~= a + b.drop_last());
        lemma_quotes_add(a, b.drop_last());
    } else {
        assert(a + b =~= a);
    }
}

proof fn lemma_comment_here(s: Seq<char>, t: Seq<char>, i: int, quoted: bool)
    requires
        0 <= i <= s.len(),
        forall|k: int| 0 <= k < s.len() ==> (#[trigger] s[k]) != '-',
        t.len() >= 2,
        t[0] == '-',
        t[1] == '-',
        quoted == (quotes(s.take(i)) % 2 == 1),
        quotes(s) % 2 == 0,
    ensures
        comment_start(s + t, i, quoted) == s.len(),
    decreases s.len() - i,
{
    let u = s + t;
    if i < s.len() {
        assert(u[i] == s[i]);
        assert(s.take(i + 1).drop_last() =~= s.take(i));
        assert(s.take(i + 1).last() == s[i]);
        lemma_comment_here(
            s,
            t,
            i + 1,
            if s[i] == '"' {
                !quoted
            } else {
                quoted
            },
        );
    } else {
        assert(s.take(i) =~= s);
        assert(u[i] == t[0] && u[i + 1] == t[1]);
    }
}

/// `--` outside quotes begins a comment: what follows on the line says nothing.
pub proof fn comments_say_nothing(s: Seq<char>, t: Seq<char>)
    requires
        forall|k: int| 0 <= k < s.len() ==> (#[trigger] s[k]) != '-',
        quotes(s) % 2 == 0,
    ensures
        without_comment(s + "--"@ + t, false) == s,
{
    reveal_strlit("--");
    let u = "--"@ + t;
    assert(s + "--"@ + t =~= s + u);
    assert(s.take(0) =~= seq![]);
    lemma_comment_here(s, u, 0, false);
    assert((s + u).take(s.len() as int) =~= s);
}

} // verus!
