//! What names and files bring into a pattern file.

use vstd::prelude::*;

use crate::banks::{joined, CatalogView};
use crate::dsl::inclusion::{
    expand_lines, expand_text, line_view, parent, ExpandedView, FactsView, LineView,
};
use crate::dsl::layout::lemma_no_comment;
use crate::dsl::lines::{is_directive, normalized, orbit_prefix, without_comment};
use crate::dsl::program::{statement_step, DraftView};
use crate::dsl::sound::{binding, expanded, expanded_from, ident_end, is_identifier};
use crate::dsl::statements::{is_plain, lemma_trimmed, lemma_two_words, lemma_words_step};
use crate::dsl::writing::{
    lemma_quoted, lemma_stands_add, lemma_word, quoted_text, stands, unbroken, unquoted,
};
use crate::pat::notation::lemma_last_of;
use crate::pat::parse::last_of;
use crate::text::{
    is_ident, is_ident_start, is_space, is_ws, lines, same_word, skip_ws, trim, words,
};

verus! {

// ---------------------------------------------------------------------------------------------
// Names
// ---------------------------------------------------------------------------------------------

proof fn lemma_let()
    ensures
        "let"@ =~= seq!['l', 'e', 't'],
        unbroken("let"@),
        is_plain("let"@),
        same_word("let"@, "let"@),
        !same_word("let"@, "track"@),
        is_directive("let"@),
{
    reveal_strlit("let");
    reveal_strlit("track");
    let w = "let"@;
    assert forall|i: int| 0 <= i < w.len() implies !is_ws(#[trigger] w[i]) && !is_space(w[i]) by {
        assert(i == 0 || i == 1 || i == 2);
    }
}

proof fn lemma_binding(s: Seq<char>, name: Seq<char>, body: Seq<char>)
    requires
        s == "let"@ + " "@ + name + quoted_text(body),
        is_identifier(name),
        unquoted(body),
    ensures
        binding(s) == Ok::<(Seq<char>, Seq<char>), Seq<char>>((name, body)),
        s[0] == 'l',
        s.last() == '"',
        words(s).len() > 0,
        words(s)[0] == "let"@,
{
    reveal_strlit(" ");
    lemma_let();
    assert(stands(s, 0, s)) by {
        assert forall|k: int| 0 <= k < s.len() implies s[0 + k] == #[trigger] s[k] by {}
    }
    lemma_stands_add(s, 0, "let"@ + " "@ + name, quoted_text(body));
    lemma_stands_add(s, 0, "let"@ + " "@, name);
    lemma_stands_add(s, 0, "let"@, " "@);
    assert(s[3int + 0] == " "@[0]);
    assert(s[0int + 0] == "let"@[0]);
    assert forall|i: int| 0 <= i < name.len() implies !is_ws(#[trigger] name[i]) by {
        assert(is_ident(name[i]));
    }
    let j = 4 + name.len() as int;
    lemma_quoted(s, j, body, "let binding"@);
    lemma_word(s, 0, "let"@);
    lemma_word(s, 4, name);
    let e = j + quoted_text(body).len() as int;
    assert(e == s.len());
    assert(skip_ws(s, e) == e);
    lemma_words_step(s, 0, "let"@);
    reveal_strlit("\"");
    assert(s.last() == quoted_text(body).last());
}

/// `let name "text"` binds the text to the name: the text itself, of which nothing is replaced yet. An
/// earlier text that was bound to the name is forgotten, and nothing else is.
pub proof fn texts_are_bound(
    d: DraftView,
    n: int,
    name: Seq<char>,
    body: Seq<char>,
    c: CatalogView,
)
    requires
        is_identifier(name),
        unquoted(body),
    ensures
        statement_step(d, n, "let"@ + " "@ + name + quoted_text(body), c) == Ok::<
            DraftView,
            Seq<char>,
        >(DraftView { lets: d.lets.insert(name, body), ..d }),
{
    let s = "let"@ + " "@ + name + quoted_text(body);
    lemma_binding(s, name, body);
    lemma_let();
    lemma_trimmed(s);
    reveal(statement_step);
    assert(orbit_prefix(s) == (None::<Seq<char>>, s));
    assert(normalized(s) == s);
}

proof fn lemma_ident_end_shift(p: Seq<char>, t: Seq<char>, i: int)
    requires
        0 <= i <= t.len(),
    ensures
        ident_end(p + t, p.len() + i) == p.len() + ident_end(t, i),
        i <= ident_end(t, i) <= t.len(),
    decreases t.len() - i,
{
    if i < t.len() {
        assert((p + t)[p.len() + i] == t[i]);
        lemma_ident_end_shift(p, t, i + 1);
    }
}

proof fn lemma_expanded_shift(
    p: Seq<char>,
    t: Seq<char>,
    i: int,
    lets: Map<Seq<char>, Seq<char>>,
)
    requires
        0 <= i <= t.len(),
    ensures
        expanded_from(p + t, p.len() + i, lets) == expanded_from(t, i, lets),
    decreases t.len() - i,
{
    let s = p + t;
    let k = p.len() + i;
    if i < t.len() {
        assert(s[k] == t[i]);
        lemma_ident_end_shift(p, t, i + 1);
        let j = ident_end(t, i + 1);
        assert(ident_end(s, k + 1) == p.len() + j);
        assert(s.subrange(k, p.len() + j) =~= t.subrange(i, j));
        lemma_expanded_shift(p, t, j, lets);
        lemma_expanded_shift(p, t, i + 1, lets);
        assert(p.len() + (i + 1) == k + 1);
    }
}

proof fn lemma_ident_end_before(s: Seq<char>, c: char, t: Seq<char>, i: int)
    requires
        0 <= i <= s.len(),
        !is_ident(c),
    ensures
        ident_end(s.push(c) + t, i) == ident_end(s, i),
        i <= ident_end(s, i) <= s.len(),
    decreases s.len() - i,
{
    let u = s.push(c) + t;
    if i < s.len() {
        assert(u[i] == s[i]);
        lemma_ident_end_before(s, c, t, i + 1);
    } else {
        assert(u[i] == c);
    }
}

proof fn lemma_expanded_before(
    s: Seq<char>,
    c: char,
    t: Seq<char>,
    i: int,
    lets: Map<Seq<char>, Seq<char>>,
)
    requires
        0 <= i <= s.len(),
        !is_ident(c),
    ensures
        expanded_from(s.push(c) + t, i, lets) == expanded_from(s, i, lets).push(c) + expanded(
            t,
            lets,
        ),
    decreases s.len() - i,
{
    let u = s.push(c) + t;
    let rest = expanded(t, lets);
    if i < s.len() {
        assert(u[i] == s[i]);
        lemma_ident_end_before(s, c, t, i + 1);
        let j = ident_end(s, i + 1);
        assert(u.subrange(i, j) =~= s.subrange(i, j));
        lemma_expanded_before(s, c, t, j, lets);
        lemma_expanded_before(s, c, t, i + 1, lets);
        let name = s.subrange(i, j);
        let text = if lets.contains_key(name) {
            lets[name]
        } else {
            name
        };
        assert(text + (expanded_from(s, j, lets).push(c) + rest) =~= (text + expanded_from(
            s,
            j,
            lets,
        )).push(c) + rest);
        assert(seq![s[i]] + (expanded_from(s, i + 1, lets).push(c) + rest) =~= (seq![s[i]]
            + expanded_from(s, i + 1, lets)).push(c) + rest);
    } else {
        assert(u[i] == c);
        assert(!is_ident_start(c));
        lemma_expanded_shift(s.push(c), t, 0, lets);
        assert(expanded_from(s, i, lets) =~= seq![]);
        assert(seq![c] + rest =~= Seq::<char>::empty().push(c) + rest);
    }
}

/// What separates words is kept, and what stands before and behind it is replaced on its own. A
/// character that begins no name, at the start of a text, is kept, and the rest is replaced on its
/// own.
pub proof fn words_are_replaced_one_by_one(
    s: Seq<char>,
    c: char,
    t: Seq<char>,
    lets: Map<Seq<char>, Seq<char>>,
)
    ensures
        !is_ident(c) ==> expanded(s + seq![c] + t, lets) == expanded(s, lets) + seq![c] + expanded(
            t,
            lets,
        ),
        !is_ident_start(c) ==> expanded(seq![c] + t, lets) == seq![c] + expanded(t, lets),
        expanded(seq![], lets) == Seq::<char>::empty(),
{
    if !is_ident(c) {
        lemma_expanded_before(s, c, t, 0, lets);
        assert(s + seq![c] + t =~= s.push(c) + t);
        assert(expanded(s, lets) + seq![c] + expanded(t, lets) =~= expanded(s, lets).push(c)
            + expanded(t, lets));
    }
    let u = seq![c] + t;
    if !is_ident_start(c) {
        assert(u[0] == c);
        lemma_expanded_shift(seq![c], t, 0, lets);
    }
}

// ---------------------------------------------------------------------------------------------
// Files
// ---------------------------------------------------------------------------------------------

proof fn lemma_include()
    ensures
        is_plain("include"@),
        same_word("include"@, "include"@),
        forall|i: int| 0 <= i < "include"@.len() ==> #[trigger] "include"@[i] != '-',
        "include"@.len() == 7,
{
    reveal_strlit("include");
    let w = "include"@;
    assert forall|i: int| 0 <= i < w.len() implies !is_space(#[trigger] w[i]) && w[i] != '-' by {
        assert(i == 0 || i == 1 || i == 2 || i == 3 || i == 4 || i == 5 || i == 6);
    }
}

/// A line `include kit.seq`, or `include "kit.seq"`, takes in the file that is called so next to the
/// one that it stands in.
pub proof fn lines_take_in_files(name: Seq<char>, base: Seq<char>, quoted: bool)
    requires
        is_plain(name),
        unquoted(name),
        forall|i: int| 0 <= i < name.len() ==> (#[trigger] name[i]) != '-',
    ensures
        line_view("include"@ + " "@ + name, base, quoted) == LineView::Take(joined(base, name)),
        line_view("include"@ + " "@ + ("\""@ + name + "\""@), base, quoted) == LineView::Take(
            joined(base, name),
        ),
{
    reveal_strlit(" ");
    reveal_strlit("\"");
    lemma_include();
    let q = "\""@ + name + "\""@;
    assert(q.len() == name.len() + 2);
    assert(q[0] == '"' && q.last() == '"');
    assert forall|i: int| 0 <= i < q.len() implies !is_space(#[trigger] q[i]) && q[i] != '-' by {
        if 0 < i < q.len() - 1 {
            assert(q[i] == name[i - 1]);
        }
    }
    assert(q.subrange(1, q.len() - 1) =~= name);
    lemma_not_in(name, '"');
    assert(name[0] != '"');
    lemma_include_line(name);
    lemma_include_line(q);
}

proof fn lemma_not_in(s: Seq<char>, c: char)
    requires
        forall|i: int| 0 <= i < s.len() ==> (#[trigger] s[i]) != c,
    ensures
        last_of(s, c) == -1,
    decreases s.len(),
{
    if s.len() > 0 {
        let d = s.drop_last();
        assert forall|i: int| 0 <= i < d.len() implies (#[trigger] d[i]) != c by {
            assert(d[i] == s[i]);
        }
        assert(s[s.len() - 1] != c);
        lemma_not_in(d, c);
    }
}

proof fn lemma_include_line(w: Seq<char>)
    requires
        is_plain(w),
        forall|i: int| 0 <= i < w.len() ==> (#[trigger] w[i]) != '-',
    ensures
        words(trim(without_comment("include"@ + " "@ + w, false))) == seq!["include"@, w],
{
    reveal_strlit(" ");
    lemma_include();
    let s = "include"@ + " "@ + w;
    assert forall|i: int| 0 <= i < s.len() implies (#[trigger] s[i]) != '-' by {
        if i < 7 {
            assert(s[i] == "include"@[i]);
        } else if i > 7 {
            assert(s[i] == w[i - 8]);
        }
    }
    lemma_no_comment(s, 0, false);
    assert(s.take(s.len() as int) =~= s);
    lemma_two_words("include"@, w);
}

/// The lines of a file that is taken in stand in place of the line that takes it in, and the files
/// that it takes in itself are looked for in its folder.
pub proof fn files_stand_in_place_of_their_line(
    ls: Seq<Seq<char>>,
    k: nat,
    base: Seq<char>,
    stack: Seq<Seq<char>>,
    known: Map<Seq<char>, FactsView>,
    out: Seq<char>,
    name: Seq<char>,
    dir: Seq<char>,
    file: Seq<char>,
    text: Seq<char>,
    inner: Seq<char>,
)
    requires
        k < ls.len(),
        expand_lines(ls, k, base, stack, known) == ExpandedView::Done(out),
        is_plain(name),
        unquoted(name),
        forall|i: int| 0 <= i < name.len() ==> (#[trigger] name[i]) != '-',
        ls[k as int] == "include"@ + " "@ + name,
        known.contains_key(joined(base, name)),
        known[joined(base, name)].canonical == Ok::<Seq<char>, Seq<char>>(dir + "/"@ + file),
        known[joined(base, name)].content == Ok::<Seq<char>, Seq<char>>(text),
        dir.len() > 0,
        forall|i: int| 0 <= i < file.len() ==> (#[trigger] file[i]) != '/',
        !stack.contains(dir + "/"@ + file),
        stack.len() <= 31,
        expand_text(text, dir, stack.push(dir + "/"@ + file), known) == ExpandedView::Done(inner),
    ensures
        inner.len() > 0 && inner.last() == '\n' ==> expand_lines(
            ls,
            k + 1,
            base,
            stack,
            known,
        ) == ExpandedView::Done(out + inner),
        inner.len() > 0 && inner.last() != '\n' ==> expand_lines(
            ls,
            k + 1,
            base,
            stack,
            known,
        ) == ExpandedView::Done((out + inner).push('\n')),
{
    reveal_strlit("/");
    let path = dir + "/"@ + file;
    lines_take_in_files(name, base, crate::dsl::lines::open_quotes(ls, k));
    assert(path =~= dir.push('/') + file);
    lemma_last_of(dir, '/', file);
    assert(path.subrange(0, dir.len() as int) =~= dir);
    assert(parent(path, base) == dir);
}

/// Files take in files up to 32 levels deep, and no deeper.
pub proof fn files_nest_only_so_deep(
    text: Seq<char>,
    base: Seq<char>,
    stack: Seq<Seq<char>>,
    known: Map<Seq<char>, FactsView>,
)
    ensures
        stack.len() > 32 ==> expand_text(text, base, stack, known) is Failed,
        stack.len() <= 32 && lines(text).len() == 0 ==> expand_text(text, base, stack, known)
            == ExpandedView::Done(seq![]),
{
}

} // verus!
