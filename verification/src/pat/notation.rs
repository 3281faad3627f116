//! What the mini-notation says: how patterns are written.

use vstd::prelude::*;

use crate::number::{digits_value, signed};
use crate::pat::eval::{hits, slots, SlotView};
use crate::pat::meaning::sequences_share_out_their_time;
use crate::pat::parse::{
    atom_end, atom_item, close_bracket, euclid_item, euclid_number, item, items, keyword, last_of,
    layers, pattern, piece, pieces, stack_item, starred,
};
use crate::pat::PatView;
use crate::text::{
    all_digits, back_space, decimal, digits_end, is_digit, is_ident, is_space, is_ws, lower,
    lowercase, same_word, skip_space, skip_ws, trim_end, trim_start,
};

verus! {

// ---------------------------------------------------------------------------------------------
// Numbers
// ---------------------------------------------------------------------------------------------

/// The digits of a number stand for it.
pub proof fn decimals_stand_for_their_number(n: nat)
    ensures
        digits_value(decimal(n)) == n,
        decimal(n).len() > 0,
        forall|i: int| 0 <= i < decimal(n).len() ==> '0' <= (#[trigger] decimal(n)[i]) <= '9',
        n > 0 ==> decimal(n)[0] != '0',
    decreases n,
{
    let c = ('0' as u8 + n % 10) as char;
    assert('0' <= c <= '9' && c as int - '0' as int == n % 10);
    reveal_with_fuel(digits_value, 2);
    if n < 10 {
        assert(decimal(n) =~= seq![c]);
        assert(decimal(n).drop_last() =~= seq![]);
    } else {
        decimals_stand_for_their_number(n / 10);
        let d = decimal(n / 10);
        assert(decimal(n) == d.push(c));
        assert(d.push(c).drop_last() =~= d);
        assert(d.push(c).last() == c);
        assert forall|i: int| 0 <= i < d.push(c).len() implies '0' <= (#[trigger] d.push(c)[i])
            <= '9' by {
            if i < d.len() {
                assert(d.push(c)[i] == d[i]);
            }
        }
    }
}

// ---------------------------------------------------------------------------------------------
// Repeats
// ---------------------------------------------------------------------------------------------

pub proof fn lemma_last_of(t: Seq<char>, c: char, tail: Seq<char>)
    requires
        forall|i: int| 0 <= i < tail.len() ==> (#[trigger] tail[i]) != c,
    ensures
        last_of(t.push(c) + tail, c) == t.len(),
    decreases tail.len(),
{
    let s = t.push(c) + tail;
    if tail.len() > 0 {
        let d = tail.drop_last();
        assert(s.drop_last() =~= t.push(c) + d);
        assert(s.last() == tail[tail.len() - 1]);
        lemma_last_of(t, c, d);
    } else {
        assert(s =~= t.push(c));
        assert(s.last() == c);
    }
}

/// A token, `*` and a count from 1 to 256 read as that many steps of the token; any other count is
/// refused.
pub proof fn repeats_are_steps(t: Seq<char>, n: nat)
    requires
        t.len() > 0,
    ensures
        1 <= n <= 256 ==> {
            &&& starred(t + "*"@ + decimal(n)) is Ok
            &&& starred(t + "*"@ + decimal(n))->Ok_0 is Sequence
            &&& starred(t + "*"@ + decimal(n))->Ok_0->Sequence_0.len() == n
            &&& forall|i: int|
                0 <= i < n ==> #[trigger] starred(t + "*"@ + decimal(n))->Ok_0->Sequence_0[i]
                    == PatView::Atom(t)
        },
        n < 1 || n > 256 ==> starred(t + "*"@ + decimal(n)) is Err,
{
    reveal_strlit("*");
    decimals_stand_for_their_number(n);
    let d = decimal(n);
    let s = t + "*"@ + d;
    assert(s =~= t.push('*') + d);
    lemma_last_of(t, '*', d);
    assert(s.take(t.len() as int) =~= t);
    assert(s.skip(t.len() as int + 1) =~= d);
    assert(all_digits(d)) by {
        assert forall|i: int| 0 <= i < d.len() implies is_digit(#[trigger] d[i]) by {
            assert('0' <= d[i] <= '9');
        }
    }
}

/// A token without `*` stands for itself.
pub proof fn tokens_stand_for_themselves(t: Seq<char>)
    requires
        forall|i: int| 0 <= i < t.len() ==> (#[trigger] t[i]) != '*',
    ensures
        starred(t) == Ok::<_, Seq<char>>(PatView::Atom(t)),
{
    lemma_no_last(t, '*');
}

proof fn lemma_no_last(t: Seq<char>, c: char)
    requires
        forall|i: int| 0 <= i < t.len() ==> (#[trigger] t[i]) != c,
    ensures
        last_of(t, c) == -1,
    decreases t.len(),
{
    if t.len() > 0 {
        lemma_no_last(t.drop_last(), c);
        assert(t.last() == t[t.len() - 1]);
    }
}

/// The hits of `n` steps of a token: at `k / n` of the way, for every `k` below `n`.
proof fn lemma_repeat_hits(t: Seq<char>, n: nat, cycle: nat, t0: real, t1: real)
    ensures
        hits(
            PatView::Sequence(Seq::new(n, |i: int| PatView::Atom(t))),
            cycle,
            t0,
            t1,
        ) == Seq::new(n, |k: int| (t0 + (t1 - t0) * (k as real / n as real), t)),
{
    let cs = Seq::new(n, |i: int| PatView::Atom(t));
    sequences_share_out_their_time(cs, false, cycle, t0, t1);
    let parts = Seq::new(
        cs.len(),
        |j: int|
            slots(
                cs[j],
                false,
                cycle,
                t0 + (t1 - t0) * (j as real / cs.len() as real),
                t0 + (t1 - t0) * ((j + 1) as real / cs.len() as real),
            ),
    );
    let ones = Seq::new(
        n,
        |k: int|
            SlotView { at: t0 + (t1 - t0) * (k as real / n as real), token: Some(t) },
    );
    assert(parts =~= Seq::new(n, |k: int| seq![ones[k]]));
    lemma_flatten_ones(ones);
    lemma_sounding_ones(ones, t);
    assert(crate::pat::eval::sounding(ones) =~= Seq::new(
        n,
        |k: int| (t0 + (t1 - t0) * (k as real / n as real), t),
    ));
}

proof fn lemma_flatten_ones<A>(s: Seq<A>)
    ensures
        Seq::new(s.len(), |k: int| seq![s[k]]).flatten() == s,
    decreases s.len(),
{
    let f = Seq::new(s.len(), |k: int| seq![s[k]]);
    if s.len() > 0 {
        let d = s.drop_last();
        let g = Seq::new(d.len(), |k: int| seq![d[k]]);
        lemma_flatten_ones(d);
        assert(f =~= g.push(seq![s.last()]));
        g.lemma_flatten_push(seq![s.last()]);
        assert(d + seq![s.last()] =~= s);
    } else {
        assert(f.flatten() =~= s);
    }
}

proof fn lemma_sounding_ones(s: Seq<SlotView>, t: Seq<char>)
    requires
        forall|i: int| 0 <= i < s.len() ==> (#[trigger] s[i]).token == Some(t),
    ensures
        crate::pat::eval::sounding(s) == Seq::new(s.len(), |k: int| (s[k].at, t)),
    decreases s.len(),
{
    if s.len() > 0 {
        let d = s.drop_last();
        assert forall|i: int| 0 <= i < d.len() implies (#[trigger] d[i]).token == Some(t) by {
            assert(d[i] == s[i]);
        }
        lemma_sounding_ones(d, t);
        assert(s[s.len() - 1].token == Some(t));
        assert(crate::pat::eval::sounding(s) =~= Seq::new(s.len(), |k: int| (s[k].at, t)));
    } else {
        assert(crate::pat::eval::sounding(s) =~= Seq::new(s.len(), |k: int| (s[k].at, t)));
    }
}

/// A token repeated `n` times has `n` hits, at `k / n` of its time for every `k` below `n`.
pub proof fn repeats_sound_evenly(t: Seq<char>, n: nat, cycle: nat, t0: real, t1: real)
    requires
        t.len() > 0,
        1 <= n <= 256,
    ensures
        starred(t + "*"@ + decimal(n)) is Ok,
        ({
            let h = hits(starred(t + "*"@ + decimal(n))->Ok_0, cycle, t0, t1);
            &&& h.len() == n
            &&& forall|k: int|
                0 <= k < n ==> #[trigger] h[k] == (t0 + (t1 - t0) * (k as real / n as real), t)
        }),
{
    repeats_are_steps(t, n);
    let cs = starred(t + "*"@ + decimal(n))->Ok_0->Sequence_0;
    assert(cs =~= Seq::new(n, |i: int| PatView::Atom(t)));
    lemma_repeat_hits(t, n, cycle, t0, t1);
}

// ---------------------------------------------------------------------------------------------
// Writing
// ---------------------------------------------------------------------------------------------

/// Neither whitespace nor a bracket.
pub open spec fn token_char(c: char) -> bool {
    &&& c != ' ' && c != '\t' && c != '\n' && c != '\u{c}' && c != '\r'
    &&& c != '[' && c != ']' && c != '<' && c != '>'
}

/// The word stands at the start of the token, in any case, and no letter, digit or underscore goes on
/// with it.
pub open spec fn begins_with_word(t: Seq<char>, w: Seq<char>) -> bool {
    &&& t.len() >= w.len()
    &&& same_word(t.take(w.len() as int), w)
    &&& t.len() > w.len() ==> !is_ident(t[w.len() as int])
}

/// A token that is read as one: it is no rest, no keyword and no transform.
pub open spec fn is_token(t: Seq<char>) -> bool {
    &&& t.len() > 0
    &&& forall|i: int| 0 <= i < t.len() ==> token_char(#[trigger] t[i])
    &&& t[0] != '~'
    &&& !begins_with_word(t, "stack"@)
    &&& !begins_with_word(t, "euclid"@)
    &&& !same_word(t, "rev"@) && !same_word(t, "pal"@) && !same_word(t, "rot"@)
    &&& !same_word(t, "every"@) && !same_word(t, "fast"@) && !same_word(t, "slow"@)
}

/// The pattern can be written within another one.
pub open spec fn writable(p: PatView) -> bool
    decreases p,
{
    match p {
        PatView::Atom(t) => is_token(t) && forall|i: int|
            0 <= i < t.len() ==> (#[trigger] t[i]) != '*',
        PatView::Rest => true,
        PatView::Stack(cs) => cs.len() > 0 && forall|i: int|
            0 <= i < cs.len() ==> writable(#[trigger] cs[i]),
        PatView::Alt(cs) => cs.len() > 0 && forall|i: int|
            0 <= i < cs.len() ==> writable(#[trigger] cs[i]),
        PatView::Sequence(cs) => {
            &&& 1 <= cs.len() <= 256
            &&& cs[0] is Atom
            &&& is_token(cs[0]->Atom_0 + "*"@ + decimal(cs.len()))
            &&& cs[0]->Atom_0.len() > 0
            &&& forall|i: int| 0 <= i < cs.len() ==> (#[trigger] cs[i]) == cs[0]
        },
        PatView::Euclid(k, n, r, t) => {
            &&& 1 <= n <= 0x7fff_ffff
            &&& k <= n
            &&& r <= 0x7fff_ffff
            &&& t.len() > 0
            &&& forall|i: int|
                0 <= i < t.len() ==> token_char(#[trigger] t[i]) && !('A' <= t[i] <= 'Z')
        },
        _ => false,
    }
}

/// How a pattern is written within another one.
pub open spec fn text_of(p: PatView) -> Seq<char>
    decreases p, 0nat,
{
    match p {
        PatView::Atom(t) => t,
        PatView::Rest => "~"@,
        PatView::Stack(cs) => "["@ + texts_of(cs, 0) + "]"@,
        PatView::Alt(cs) => "<"@ + texts_of(cs, 0) + ">"@,
        PatView::Sequence(cs) => cs[0]->Atom_0 + "*"@ + decimal(cs.len()),
        PatView::Euclid(k, n, r, t) => "euclid("@ + decimal(k as nat) + ","@ + decimal(n as nat)
            + ","@ + decimal(r as nat) + ") "@ + t,
        _ => seq![],
    }
}

/// The patterns from `m` on, with spaces between them.
pub open spec fn texts_of(cs: Seq<PatView>, m: nat) -> Seq<char>
    decreases cs, cs.len() - m,
{
    if m >= cs.len() {
        seq![]
    } else if m + 1 == cs.len() {
        text_of(cs[m as int])
    } else {
        text_of(cs[m as int]) + " "@ + texts_of(cs, m + 1)
    }
}

/// The text stands in `s` at `i`.
spec fn stands(s: Seq<char>, i: int, t: Seq<char>) -> bool {
    &&& 0 <= i
    &&& i + t.len() <= s.len()
    &&& forall|k: int| 0 <= k < t.len() ==> s[i + k] == #[trigger] t[k]
}

proof fn lemma_stands_add(s: Seq<char>, i: int, a: Seq<char>, b: Seq<char>)
    requires
        stands(s, i, a + b),
    ensures
        stands(s, i, a),
        stands(s, i + a.len(), b),
        (a + b).len() == a.len() + b.len(),
{
    assert forall|k: int| 0 <= k < a.len() implies s[i + k] == #[trigger] a[k] by {
        assert((a + b)[k] == a[k]);
    }
    assert forall|k: int| 0 <= k < b.len() implies s[i + a.len() + k] == #[trigger] b[k] by {
        assert((a + b)[a.len() + k] == b[k]);
    }
}

proof fn lemma_stands_sub(s: Seq<char>, i: int, t: Seq<char>)
    requires
        stands(s, i, t),
    ensures
        s.subrange(i, i + t.len()) == t,
{
    assert(s.subrange(i, i + t.len()) =~= t);
}

/// Something that ends a token follows, or nothing.
spec fn ends(s: Seq<char>, j: int) -> bool {
    j == s.len() || (0 <= j < s.len() && (s[j] == ' ' || s[j] == ']' || s[j] == '>'))
}

proof fn lemma_atom_end(s: Seq<char>, i: int, j: int)
    requires
        0 <= i <= j <= s.len(),
        forall|k: int| i <= k < j ==> token_char(#[trigger] s[k]),
        ends(s, j),
    ensures
        atom_end(s, i) == j,
    decreases j - i,
{
    if i < j {
        assert(token_char(s[i]));
        lemma_atom_end(s, i + 1, j);
    }
}

/// A word of letters does not stand where it would have to hold something that is none of its
/// letters.
proof fn lemma_not_keyword(s: Seq<char>, i: int, kw: Seq<char>, k: int)
    requires
        0 <= i,
        0 <= k < kw.len(),
        i + k < s.len(),
        lower(s[i + k]) != lower(kw[k]),
    ensures
        !keyword(s, i, kw),
{
    let j = i + kw.len();
    if j <= s.len() && same_word(s.subrange(i, j), kw) {
        assert(s.subrange(i, j)[k] == s[i + k]);
        assert(lower(s.subrange(i, j)[k]) == lower(kw[k]));
    }
}

proof fn lemma_token_no_keyword(s: Seq<char>, i: int, t: Seq<char>, kw: Seq<char>)
    requires
        stands(s, i, t),
        t.len() > 0,
        ends(s, i + t.len()),
        !begins_with_word(t, kw),
        kw.len() > 0,
        forall|k: int| 0 <= k < kw.len() ==> 'a' <= (#[trigger] kw[k]) <= 'z',
    ensures
        !keyword(s, i, kw),
{
    let n = kw.len() as int;
    let j = i + n;
    if keyword(s, i, kw) {
        if t.len() < n {
            let k = t.len() as int;
            let sub = s.subrange(i, j);
            assert(sub[k] == s[i + k]);
            assert(lower(sub[k]) == lower(kw[k]));
            assert('a' <= kw[k] <= 'z');
        } else {
            assert(t.take(n) =~= s.subrange(i, j)) by {
                assert forall|k: int| 0 <= k < n implies t.take(n)[k] == s.subrange(i, j)[k] by {
                    assert(s[i + k] == t[k]);
                }
            }
            if t.len() > n {
                assert(s[i + n] == t[n]);
            }
        }
    }
}

proof fn lemma_letters()
    ensures
        "stack"@ == seq!['s', 't', 'a', 'c', 'k'],
        "euclid"@ == seq!['e', 'u', 'c', 'l', 'i', 'd'],
{
    reveal_strlit("stack");
    reveal_strlit("euclid");
    assert("stack"@ =~= seq!['s', 't', 'a', 'c', 'k']);
    assert("euclid"@ =~= seq!['e', 'u', 'c', 'l', 'i', 'd']);
}

/// The item at `i`.
#[verifier::opaque]
spec fn item_at(s: Seq<char>, i: int) -> Result<(PatView, int), Seq<char>> {
    item(s, i)
}

/// The items from `i` on.
#[verifier::opaque]
spec fn items_at(s: Seq<char>, i: int, close: Option<char>) -> Result<
    (Seq<PatView>, int),
    Seq<char>,
> {
    items(s, i, close)
}

proof fn lemma_items_end(s: Seq<char>, i: int, close: Option<char>)
    requires
        0 <= i <= s.len(),
        skip_ws(s, i) == i,
        i == s.len() || close == Some(s[i]),
    ensures
        items_at(s, i, close) == Ok::<(Seq<PatView>, int), Seq<char>>((seq![], i)),
{
    reveal(items_at);
}

proof fn lemma_items_next(
    s: Seq<char>,
    i: int,
    close: Option<char>,
    p: PatView,
    k: int,
    rest: Seq<PatView>,
    m: int,
)
    requires
        0 <= i < s.len(),
        skip_ws(s, i) == i,
        close != Some(s[i]),
        item_at(s, i) == Ok::<(PatView, int), Seq<char>>((p, k)),
        i < k <= s.len(),
        items_at(s, k, close) == Ok::<(Seq<PatView>, int), Seq<char>>((rest, m)),
    ensures
        items_at(s, i, close) == Ok::<(Seq<PatView>, int), Seq<char>>((seq![p] + rest, m)),
{
    reveal(items_at);
    reveal(item_at);
}

proof fn lemma_items_skip(s: Seq<char>, i: int, close: Option<char>)
    requires
        0 <= i < s.len(),
        skip_ws(s, i) == i + 1,
        skip_ws(s, i + 1) == i + 1,
    ensures
        items_at(s, i, close) == items_at(s, i + 1, close),
{
    reveal(items_at);
}

proof fn lemma_item_rest(s: Seq<char>, i: int)
    requires
        0 <= i < s.len(),
        s[i] == '~',
    ensures
        item_at(s, i) == Ok::<(PatView, int), Seq<char>>((PatView::Rest, i + 1)),
{
    reveal(item_at);
    lemma_letters();
    lemma_not_keyword(s, i, "stack"@, 0);
    lemma_not_keyword(s, i, "euclid"@, 0);
}

proof fn lemma_item_stack(s: Seq<char>, i: int, cs: Seq<PatView>, j: int)
    requires
        0 <= i < j < s.len(),
        s[i] == '[',
        items_at(s, i + 1, Some(']')) == Ok::<(Seq<PatView>, int), Seq<char>>((cs, j)),
        cs.len() > 0,
    ensures
        item_at(s, i) == Ok::<(PatView, int), Seq<char>>((PatView::Stack(cs), j + 1)),
{
    reveal(item_at);
    reveal(items_at);
    lemma_letters();
    lemma_not_keyword(s, i, "stack"@, 0);
    lemma_not_keyword(s, i, "euclid"@, 0);
}

proof fn lemma_item_alt(s: Seq<char>, i: int, cs: Seq<PatView>, j: int)
    requires
        0 <= i < j < s.len(),
        s[i] == '<',
        items_at(s, i + 1, Some('>')) == Ok::<(Seq<PatView>, int), Seq<char>>((cs, j)),
        cs.len() > 0,
    ensures
        item_at(s, i) == Ok::<(PatView, int), Seq<char>>((PatView::Alt(cs), j + 1)),
{
    reveal(item_at);
    reveal(items_at);
    lemma_letters();
    lemma_not_keyword(s, i, "stack"@, 0);
    lemma_not_keyword(s, i, "euclid"@, 0);
}

/// A bracket that nothing closes is refused.
proof fn lemma_item_unclosed(s: Seq<char>, cs: Seq<PatView>)
    requires
        s.len() > 0,
    ensures
        s[0] == '[' && items_at(s, 1, Some(']')) == Ok::<(Seq<PatView>, int), Seq<char>>(
            (cs, s.len() as int),
        ) ==> pattern(s) == Err::<PatView, _>("unclosed '['"@),
        s[0] == '<' && items_at(s, 1, Some('>')) == Ok::<(Seq<PatView>, int), Seq<char>>(
            (cs, s.len() as int),
        ) ==> pattern(s) == Err::<PatView, _>("unclosed '<'"@),
{
    reveal(items_at);
    lemma_letters();
    if s[0] == '[' || s[0] == '<' {
        lemma_not_keyword(s, 0, "stack"@, 0);
        lemma_not_keyword(s, 0, "euclid"@, 0);
        assert(skip_ws(s, 0) == 0);
    }
}

/// An empty bracket is refused.
proof fn lemma_item_empty(s: Seq<char>)
    requires
        s.len() == 2,
    ensures
        s[0] == '[' && s[1] == ']' ==> pattern(s) == Err::<PatView, _>("empty stack '[]'"@),
        s[0] == '<' && s[1] == '>' ==> pattern(s) == Err::<PatView, _>("empty alternate '<>'"@),
{
    lemma_letters();
    if (s[0] == '[' && s[1] == ']') || (s[0] == '<' && s[1] == '>') {
        lemma_not_keyword(s, 0, "stack"@, 0);
        lemma_not_keyword(s, 0, "euclid"@, 0);
        assert(skip_ws(s, 0) == 0);
        assert(skip_ws(s, 1) == 1);
        assert(items(s, 1, Some(s[1])) == Ok::<(Seq<PatView>, int), Seq<char>>((seq![], 1)));
    }
}

proof fn lemma_whole_pattern(s: Seq<char>, ps: Seq<PatView>, j: int)
    requires
        items_at(s, 0, None) == Ok::<(Seq<PatView>, int), Seq<char>>((ps, j)),
    ensures
        pattern(s) == Ok::<PatView, Seq<char>>(
            if ps.len() == 1 {
                ps[0]
            } else {
                PatView::Sequence(ps)
            },
        ),
{
    reveal(items_at);
}

/// A token is read up to its end.
#[verifier::rlimit(30)]
proof fn lemma_token(s: Seq<char>, i: int, t: Seq<char>)
    requires
        stands(s, i, t),
        is_token(t),
        ends(s, i + t.len()),
    ensures
        item_at(s, i) == match starred(t) {
            Ok(p) => Ok::<(PatView, int), Seq<char>>((p, i + t.len())),
            Err(e) => Err(e),
        },
{
    lemma_letters();
    let j = i + t.len();
    assert forall|k: int| i <= k < j implies token_char(#[trigger] s[k]) by {
        assert(s[k] == t[k - i]);
    }
    lemma_atom_end(s, i, j);
    lemma_stands_sub(s, i, t);
    lemma_token_no_keyword(s, i, t, "stack"@);
    lemma_token_no_keyword(s, i, t, "euclid"@);
    assert(s[i + 0] == t[0]);
    assert(token_char(t[0]));
    reveal(item_at);
    assert(item(s, i) == atom_item(s, i));
}

proof fn lemma_digits(s: Seq<char>, i: int, d: Seq<char>)
    requires
        stands(s, i, d),
        forall|k: int| 0 <= k < d.len() ==> '0' <= (#[trigger] d[k]) <= '9',
        i + d.len() < s.len(),
        !is_digit(s[i + d.len()]),
    ensures
        digits_end(s, i) == i + d.len(),
    decreases d.len(),
{
    if d.len() > 0 {
        assert(s[i + 0] == d[0]);
        let e = d.skip(1);
        assert forall|k: int| 0 <= k < e.len() implies s[i + 1 + k] == #[trigger] e[k] by {
            assert(e[k] == d[k + 1]);
            assert(s[i + (k + 1)] == d[k + 1]);
        }
        assert forall|k: int| 0 <= k < e.len() implies '0' <= (#[trigger] e[k]) <= '9' by {
            assert(e[k] == d[k + 1]);
        }
        lemma_digits(s, i + 1, e);
    }
}

proof fn lemma_euclid_number(s: Seq<char>, i: int, n: nat)
    requires
        stands(s, i, decimal(n)),
        n <= 0x7fff_ffff,
        i + decimal(n).len() < s.len(),
        s[i + decimal(n).len()] == ',' || s[i + decimal(n).len()] == ')',
    ensures
        euclid_number(s, i) == Ok::<(int, int), Seq<char>>((n as int, i + decimal(n).len())),
        skip_ws(s, i + decimal(n).len()) == i + decimal(n).len(),
{
    let d = decimal(n);
    decimals_stand_for_their_number(n);
    assert(s[i + 0] == d[0]);
    assert('0' <= d[0] <= '9');
    assert(skip_ws(s, i) == i);
    lemma_digits(s, i, d);
    lemma_stands_sub(s, i, d);
    assert(all_digits(d)) by {
        assert forall|k: int| 0 <= k < d.len() implies is_digit(#[trigger] d[k]) by {
            assert('0' <= d[k] <= '9');
        }
    }
    assert(signed(d) == Some(n as int));
}

#[verifier::rlimit(30)]
proof fn lemma_euclid(s: Seq<char>, i: int, k: u32, n: u32, r: u32, t: Seq<char>)
    requires
        writable(PatView::Euclid(k, n, r, t)),
        stands(s, i, text_of(PatView::Euclid(k, n, r, t))),
        ends(s, i + text_of(PatView::Euclid(k, n, r, t)).len()),
    ensures
        item_at(s, i) == Ok::<(PatView, int), Seq<char>>(
            (
                PatView::Euclid(k, n, r, t),
                i + text_of(PatView::Euclid(k, n, r, t)).len(),
            ),
        ),
{
    let dk = decimal(k as nat);
    let dn = decimal(n as nat);
    let dr = decimal(r as nat);
    reveal_strlit("euclid(");
    reveal_strlit(",");
    reveal_strlit(") ");
    lemma_letters();
    decimals_stand_for_their_number(k as nat);
    decimals_stand_for_their_number(n as nat);
    decimals_stand_for_their_number(r as nat);
    let a0 = "euclid("@;
    let a1 = a0 + dk;
    let a2 = a1 + ","@;
    let a3 = a2 + dn;
    let a4 = a3 + ","@;
    let a5 = a4 + dr;
    let a6 = a5 + ") "@;
    lemma_stands_add(s, i, a6, t);
    lemma_stands_add(s, i, a5, ") "@);
    lemma_stands_add(s, i, a4, dr);
    lemma_stands_add(s, i, a3, ","@);
    lemma_stands_add(s, i, a2, dn);
    lemma_stands_add(s, i, a1, ","@);
    lemma_stands_add(s, i, a0, dk);
    let p1 = i + 7;
    let p2 = p1 + dk.len();
    let p3 = p2 + 1 + dn.len();
    let p4 = p3 + 1 + dr.len();
    let p5 = p4 + 2;
    let end = p5 + t.len();
    assert(a0.len() == 7);
    assert(s[i + 0] == a0[0] && s[i + 6] == a0[6]);
    lemma_not_keyword(s, i, "stack"@, 0);
    assert(keyword(s, i, "euclid"@)) by {
        let sub = s.subrange(i, i + 6);
        assert forall|m: int| 0 <= m < 6 implies lower(#[trigger] sub[m]) == lower(
            "euclid"@[m],
        ) by {
            assert(s[i + m] == a0[m]);
        }
    }
    assert(skip_ws(s, i + 6) == i + 6);
    assert(s[p2 + 0] == ","@[0]);
    assert(s[p3 + 0] == ","@[0]);
    assert(s[p4 + 0] == ") "@[0] && s[p4 + 1] == ") "@[1]);
    lemma_euclid_number(s, p1, k as nat);
    lemma_euclid_number(s, p2 + 1, n as nat);
    lemma_euclid_number(s, p3 + 1, r as nat);
    assert forall|m: int| p5 <= m < end implies token_char(#[trigger] s[m]) by {
        assert(s[p5 + (m - p5)] == t[m - p5]);
    }
    assert(s[p5 + 0] == t[0]);
    assert(token_char(t[0]));
    assert(skip_ws(s, p5) == p5);
    assert(skip_ws(s, p4 + 1) == p5);
    lemma_atom_end(s, p5, end);
    lemma_stands_sub(s, p5, t);
    assert(lowercase(t) =~= t);
    reveal(item_at);
    assert(item(s, i) == euclid_item(s, i));
}

proof fn lemma_item_is_euclid(s: Seq<char>, i: int)
    requires
        0 <= i,
        stands(s, i, "euclid("@),
    ensures
        item(s, i) == euclid_item(s, i),
        skip_ws(s, i + 6) == i + 6,
        s[i + 6] == '(',
{
    reveal_strlit("euclid(");
    lemma_letters();
    let a0 = "euclid("@;
    assert(s[i + 0] == a0[0] && s[i + 6] == a0[6]);
    lemma_not_keyword(s, i, "stack"@, 0);
    assert(keyword(s, i, "euclid"@)) by {
        let sub = s.subrange(i, i + 6);
        assert forall|m: int| 0 <= m < 6 implies lower(#[trigger] sub[m]) == lower(
            "euclid"@[m],
        ) by {
            assert(s[i + m] == a0[m]);
        }
    }
}

proof fn lemma_euclid_tail(s: Seq<char>, e: int, t: Seq<char>)
    requires
        stands(s, e, ") "@ + t),
        e + 2 + t.len() == s.len(),
        t.len() > 0,
        forall|i: int| 0 <= i < t.len() ==> token_char(#[trigger] t[i]),
    ensures
        s[e] == ')',
        skip_ws(s, e) == e,
        skip_ws(s, e + 1) == e + 2,
        atom_end(s, e + 2) == s.len(),
        s.subrange(e + 2, s.len() as int) == t,
{
    reveal_strlit(") ");
    lemma_stands_add(s, e, ") "@, t);
    assert(s[e + 0] == ") "@[0] && s[e + 1] == ") "@[1]);
    let p = e + 2;
    assert forall|m: int| p <= m < s.len() implies token_char(#[trigger] s[m]) by {
        assert(s[p + (m - p)] == t[m - p]);
    }
    assert(s[p + 0] == t[0]);
    assert(token_char(t[0]));
    assert(skip_ws(s, p) == p);
    lemma_atom_end(s, p, s.len() as int);
    lemma_stands_sub(s, p, t);
}

/// `euclid(k,n) t` stands for no rotation: it is `euclid(k,n,0) t`. The token is put in lower case.
/// There must be a step, and no more pulses than steps.
pub proof fn euclid_needs_no_rotation(k: u32, n: u32, t: Seq<char>)
    requires
        k <= 0x7fff_ffff,
        n <= 0x7fff_ffff,
        t.len() > 0,
        forall|i: int| 0 <= i < t.len() ==> token_char(#[trigger] t[i]),
    ensures
        ({
            let s = "euclid("@ + decimal(k as nat) + ","@ + decimal(n as nat) + (") "@ + t);
            &&& 1 <= n && k <= n ==> item(s, 0) == Ok::<(PatView, int), Seq<char>>(
                (PatView::Euclid(k, n, 0, lowercase(t)), s.len() as int),
            )
            &&& n == 0 || k > n ==> item(s, 0) is Err
        }),
{
    let dk = decimal(k as nat);
    let dn = decimal(n as nat);
    let a1 = "euclid("@ + dk;
    let a2 = a1 + ","@;
    let a3 = a2 + dn;
    let s = a3 + (") "@ + t);
    assert(stands(s, 0, s)) by {
        assert forall|m: int| 0 <= m < s.len() implies s[0 + m] == #[trigger] s[m] by {}
    }
    lemma_stands_add(s, 0, a3, ") "@ + t);
    lemma_stands_add(s, 0, a2, dn);
    lemma_stands_add(s, 0, a1, ","@);
    lemma_stands_add(s, 0, "euclid("@, dk);
    assert("euclid("@.len() == 7 && ","@.len() == 1 && ") "@.len() == 2) by {
        reveal_strlit("euclid(");
        reveal_strlit(",");
        reveal_strlit(") ");
    }
    lemma_item_is_euclid(s, 0);
    lemma_euclid_two(s, k, n, t);
}

proof fn lemma_euclid_two(s: Seq<char>, k: u32, n: u32, t: Seq<char>)
    requires
        k <= 0x7fff_ffff,
        n <= 0x7fff_ffff,
        t.len() > 0,
        forall|i: int| 0 <= i < t.len() ==> token_char(#[trigger] t[i]),
        skip_ws(s, 6) == 6,
        s[6] == '(',
        stands(s, 7, decimal(k as nat)),
        stands(s, 7int + decimal(k as nat).len(), ","@),
        stands(s, 8int + decimal(k as nat).len(), decimal(n as nat)),
        stands(s, 8int + decimal(k as nat).len() + decimal(n as nat).len(), ") "@ + t),
        s.len() == 10 + decimal(k as nat).len() + decimal(n as nat).len() + t.len(),
    ensures
        1 <= n && k <= n ==> euclid_item(s, 0) == Ok::<(PatView, int), Seq<char>>(
            (PatView::Euclid(k, n, 0, lowercase(t)), s.len() as int),
        ),
        n == 0 || k > n ==> euclid_item(s, 0) is Err,
{
    reveal_strlit(",");
    let b = 7 + decimal(k as nat).len() as int;
    let c = b + 1 + decimal(n as nat).len() as int;
    assert(s[b + 0] == ","@[0]);
    lemma_euclid_tail(s, c, t);
    lemma_euclid_number(s, 7, k as nat);
    lemma_euclid_number(s, b + 1, n as nat);
}

/// What is written is read back, within a longer text.
#[verifier::rlimit(30)]
proof fn lemma_item(s: Seq<char>, i: int, p: PatView)
    requires
        writable(p),
        stands(s, i, text_of(p)),
        ends(s, i + text_of(p).len()),
    ensures
        item_at(s, i) == Ok::<(PatView, int), Seq<char>>((p, i + text_of(p).len())),
        text_of(p).len() > 0,
        !is_ws(s[i]) && s[i] != ']' && s[i] != '>',
    decreases p, 0nat,
{
    lemma_letters();
    reveal_strlit("~");
    reveal_strlit("[");
    reveal_strlit("]");
    reveal_strlit("<");
    reveal_strlit(">");
    reveal_strlit("*");
    match p {
        PatView::Atom(t) => {
            tokens_stand_for_themselves(t);
            lemma_token(s, i, t);
            assert(s[i + 0] == t[0]);
            assert(token_char(t[0]));
        },
        PatView::Rest => {
            assert(s[i + 0] == "~"@[0]);
            lemma_item_rest(s, i);
        },
        PatView::Stack(cs) => {
            let inner = texts_of(cs, 0);
            lemma_stands_add(s, i, "["@ + inner, "]"@);
            lemma_stands_add(s, i, "["@, inner);
            let j = i + 1 + inner.len();
            assert(s[i + 0] == "["@[0]);
            assert(s[j + 0] == "]"@[0]);
            lemma_items(s, i + 1, cs, 0, Some(']'), j);
            assert(cs.skip(0) =~= cs);
            lemma_item_stack(s, i, cs, j);
        },
        PatView::Alt(cs) => {
            let inner = texts_of(cs, 0);
            lemma_stands_add(s, i, "<"@ + inner, ">"@);
            lemma_stands_add(s, i, "<"@, inner);
            let j = i + 1 + inner.len();
            assert(s[i + 0] == "<"@[0]);
            assert(s[j + 0] == ">"@[0]);
            lemma_items(s, i + 1, cs, 0, Some('>'), j);
            assert(cs.skip(0) =~= cs);
            lemma_item_alt(s, i, cs, j);
        },
        PatView::Sequence(cs) => {
            let t = cs[0]->Atom_0;
            let n = cs.len();
            let text = t + "*"@ + decimal(n);
            repeats_are_steps(t, n);
            let q = starred(text)->Ok_0->Sequence_0;
            assert(q =~= cs) by {
                assert forall|k: int| 0 <= k < n implies q[k] == cs[k] by {
                    assert(cs[k] == cs[0]);
                }
            }
            lemma_token(s, i, text);
            assert(s[i + 0] == text[0]);
            assert(token_char(text[0]));
        },
        PatView::Euclid(k, n, r, t) => {
            lemma_euclid(s, i, k, n, r, t);
            reveal_strlit("euclid(");
            let text = text_of(p);
            assert(text[0] == 'e');
            assert(s[i + 0] == text[0]);
        },
        _ => {},
    }
}

#[verifier::rlimit(30)]
proof fn lemma_items(
    s: Seq<char>,
    i: int,
    cs: Seq<PatView>,
    m: nat,
    close: Option<char>,
    j: int,
)
    requires
        m < cs.len(),
        forall|k: int| 0 <= k < cs.len() ==> writable(#[trigger] cs[k]),
        stands(s, i, texts_of(cs, m)),
        j == i + texts_of(cs, m).len(),
        close == Some(']') || close == Some('>') || close is None,
        j == s.len() || close == Some(s[j]),
    ensures
        items_at(s, i, close) == Ok::<(Seq<PatView>, int), Seq<char>>((cs.skip(m as int), j)),
    decreases cs, cs.len() - m,
{
    let p = cs[m as int];
    assert(writable(p));
    reveal_strlit(" ");
    if m + 1 == cs.len() {
        lemma_item(s, i, p);
        assert(skip_ws(s, i) == i);
        assert(skip_ws(s, j) == j);
        lemma_items_end(s, j, close);
        lemma_items_next(s, i, close, p, j, seq![], j);
        assert(seq![p] + Seq::<PatView>::empty() =~= cs.skip(m as int));
    } else {
        let t = text_of(p);
        let rest = texts_of(cs, m + 1);
        lemma_stands_add(s, i, t + " "@, rest);
        lemma_stands_add(s, i, t, " "@);
        let k = i + t.len();
        assert(s[k + 0] == " "@[0]);
        lemma_item(s, i, p);
        lemma_items(s, k + 1, cs, m + 1, close, j);
        assert(skip_ws(s, i) == i);
        lemma_first(s, k + 1, cs, m + 1, j, close);
        assert(skip_ws(s, k + 1) == k + 1);
        assert(skip_ws(s, k) == k + 1);
        lemma_items_skip(s, k, close);
        lemma_items_next(s, i, close, p, k, cs.skip(m as int + 1), j);
        assert(seq![p] + cs.skip(m as int + 1) =~= cs.skip(m as int));
    }
}

/// The text of patterns does not begin with whitespace.
proof fn lemma_first(
    s: Seq<char>,
    i: int,
    cs: Seq<PatView>,
    m: nat,
    j: int,
    close: Option<char>,
)
    requires
        m < cs.len(),
        forall|k: int| 0 <= k < cs.len() ==> writable(#[trigger] cs[k]),
        stands(s, i, texts_of(cs, m)),
        j == i + texts_of(cs, m).len(),
        close == Some(']') || close == Some('>') || close is None,
        j == s.len() || close == Some(s[j]),
    ensures
        i < s.len(),
        !is_ws(s[i]),
    decreases cs, cs.len() - m,
{
    let p = cs[m as int];
    assert(writable(p));
    reveal_strlit(" ");
    if m + 1 == cs.len() {
        lemma_item(s, i, p);
    } else {
        let t = text_of(p);
        let rest = texts_of(cs, m + 1);
        lemma_stands_add(s, i, t + " "@, rest);
        lemma_stands_add(s, i, t, " "@);
        assert(s[i + t.len() + 0] == " "@[0]);
        lemma_item(s, i, p);
    }
}

/// A pattern is read as it is written: a token stands for itself, `~` for a rest, `[a b]` for a stack,
/// `<a b>` for an alternation, `bd*3` for three steps, `euclid(k,n,r) bd` for a rhythm, and spaces make
/// a sequence. A single item is the whole pattern.
pub proof fn patterns_are_read_as_they_are_written(ps: Seq<PatView>)
    requires
        ps.len() > 0,
        forall|i: int| 0 <= i < ps.len() ==> writable(#[trigger] ps[i]),
    ensures
        pattern(texts_of(ps, 0)) == Ok::<PatView, Seq<char>>(
            if ps.len() == 1 {
                ps[0]
            } else {
                PatView::Sequence(ps)
            },
        ),
{
    let s = texts_of(ps, 0);
    lemma_items(s, 0, ps, 0, None, s.len() as int);
    assert(ps.skip(0) =~= ps);
    lemma_whole_pattern(s, ps, s.len() as int);
}

/// A bracket that is not closed, or holds nothing, is refused.
pub proof fn brackets_hold_something_and_are_closed(ps: Seq<PatView>)
    requires
        forall|i: int| 0 <= i < ps.len() ==> writable(#[trigger] ps[i]),
    ensures
        pattern("["@ + texts_of(ps, 0)) == Err::<PatView, _>("unclosed '['"@),
        pattern("<"@ + texts_of(ps, 0)) == Err::<PatView, _>("unclosed '<'"@),
        pattern("[]"@) == Err::<PatView, _>("empty stack '[]'"@),
        pattern("<>"@) == Err::<PatView, _>("empty alternate '<>'"@),
{
    reveal_strlit("[");
    reveal_strlit("<");
    reveal_strlit("[]");
    reveal_strlit("<>");
    let t = texts_of(ps, 0);
    let a = "["@ + t;
    let b = "<"@ + t;
    lemma_stands_add(a, 0, "["@, t);
    lemma_stands_add(b, 0, "<"@, t);
    let n = a.len() as int;
    if ps.len() > 0 {
        lemma_items(a, 1, ps, 0, Some(']'), n);
        lemma_items(b, 1, ps, 0, Some('>'), n);
        lemma_item_unclosed(a, ps.skip(0));
        lemma_item_unclosed(b, ps.skip(0));
    } else {
        assert(skip_ws(a, 1) == 1 && skip_ws(b, 1) == 1);
        lemma_items_end(a, 1, Some(']'));
        lemma_items_end(b, 1, Some('>'));
        lemma_item_unclosed(a, seq![]);
        lemma_item_unclosed(b, seq![]);
    }
    lemma_item_empty("[]"@);
    lemma_item_empty("<>"@);
}

// ---------------------------------------------------------------------------------------------
// Layers
// ---------------------------------------------------------------------------------------------

/// The text holds neither brackets, nor quotes, nor commas, and has no whitespace at its ends.
pub open spec fn is_layer_text(t: Seq<char>) -> bool {
    &&& t.len() > 0
    &&& '!' <= t[0] <= '~'
    &&& '!' <= t.last() <= '~'
    &&& forall|i: int|
        0 <= i < t.len() ==> (#[trigger] t[i]) != '[' && t[i] != ']' && t[i] != '<' && t[i] != '>'
            && t[i] != '"' && t[i] != ','
}

/// The texts from `m` on, with commas between them.
pub open spec fn listed(ts: Seq<Seq<char>>, m: nat) -> Seq<char>
    decreases ts.len() - m,
{
    if m >= ts.len() {
        seq![]
    } else if m + 1 == ts.len() {
        ts[m as int]
    } else {
        ts[m as int] + ", "@ + listed(ts, m + 1)
    }
}

/// Neither brackets nor quotes.
spec fn flat(s: Seq<char>, i: int, j: int) -> bool {
    forall|k: int|
        i <= k < j ==> (#[trigger] s[k]) != '[' && s[k] != ']' && s[k] != '<' && s[k] != '>'
            && s[k] != '"'
}

proof fn lemma_listed_flat(ts: Seq<Seq<char>>, m: nat)
    requires
        forall|i: int| 0 <= i < ts.len() ==> is_layer_text(#[trigger] ts[i]),
    ensures
        flat(listed(ts, m), 0, listed(ts, m).len() as int),
        m < ts.len() ==> listed(ts, m).len() >= ts[m as int].len(),
        forall|i: int|
            m <= i < ts.len() ==> (#[trigger] ts[i]).len() <= listed(ts, m).len(),
    decreases ts.len() - m,
{
    reveal_strlit(", ");
    if m < ts.len() {
        let t = ts[m as int];
        assert(is_layer_text(t));
        if m + 1 < ts.len() {
            lemma_listed_flat(ts, m + 1);
            let rest = listed(ts, m + 1);
            let all = t + ", "@ + rest;
            assert forall|k: int| 0 <= k < all.len() implies (#[trigger] all[k]) != '[' && all[k]
                != ']' && all[k] != '<' && all[k] != '>' && all[k] != '"' by {
                if k < t.len() {
                    assert(all[k] == t[k]);
                } else if k >= t.len() + 2 {
                    assert(all[k] == rest[k - t.len() - 2]);
                }
            }
        }
    }
}

proof fn lemma_close(s: Seq<char>, i: int, e: int)
    requires
        0 <= i <= e < s.len(),
        flat(s, i, e),
        s[e] == ']',
    ensures
        close_bracket(s, i, 1, false) == Some(e),
    decreases e - i,
{
    if i < e {
        assert(s[i] != '[');
        lemma_close(s, i + 1, e);
    }
}

proof fn lemma_piece(s: Seq<char>, t: Seq<char>)
    requires
        is_layer_text(t),
        s == t || s == " "@ + t,
    ensures
        piece(s) == seq![t],
{
    reveal_strlit(" ");
    assert(is_layer_text(t));
    let n = s.len() as int;
    let a = if s == t {
        0int
    } else {
        1int
    };
    assert(s[a] == t[0]);
    assert(s[n - 1] == t.last());
    assert(!is_space(s[a]));
    assert(!is_space(s[n - 1]));
    if a == 1 {
        assert(is_space(s[0]));
    }
    assert(skip_space(s, a) == a);
    assert(skip_space(s, 0) == a);
    let u = s.subrange(a, n);
    assert(u =~= t);
    assert(trim_start(s) == t);
    assert(back_space(t, t.len() as int) == t.len());
    assert(trim_end(t) =~= t);
}

/// Up to the next comma, nothing is cut.
proof fn lemma_pieces_walk(s: Seq<char>, start: int, i: int, e: int)
    requires
        0 <= start <= i <= e <= s.len(),
        flat(s, i, e),
        forall|k: int| i <= k < e ==> (#[trigger] s[k]) != ',',
    ensures
        pieces(s, start, i, 0, false) == pieces(s, start, e, 0, false),
    decreases e - i,
{
    if i < e {
        assert(s[i] != ',' && s[i] != '[');
        lemma_pieces_walk(s, start, i + 1, e);
    }
}

/// The pieces of the text from `i` on.
#[verifier::opaque]
spec fn pieces_from(s: Seq<char>, i: int) -> Seq<Seq<char>> {
    pieces(s, i, i, 0, false)
}

/// A text that stands at `i`, or after a space there, is the first piece.
#[verifier::rlimit(30)]
proof fn lemma_first_piece(s: Seq<char>, from: int, i: int, t: Seq<char>)
    requires
        is_layer_text(t),
        stands(s, i, t),
        0 <= from,
        from == i || from + 1 == i && s[from] == ' ',
    ensures
        i + t.len() == s.len() ==> pieces_from(s, from) == seq![t],
        i + t.len() < s.len() && s[i + t.len()] == ',' ==> pieces_from(s, from) == seq![t]
            + pieces_from(s, i + t.len() + 1),
{
    reveal(pieces_from);
    reveal_strlit(" ");
    let e = i + t.len();
    assert forall|k: int| from <= k < e implies (#[trigger] s[k]) != '[' && s[k] != ']' && s[k]
        != '<' && s[k] != '>' && s[k] != '"' && s[k] != ',' by {
        if k >= i {
            assert(s[i + (k - i)] == t[k - i]);
        }
    }
    lemma_pieces_walk(s, from, from, e);
    let sub = s.subrange(from, e);
    if from == i {
        assert(sub =~= t);
    } else {
        assert(sub =~= " "@ + t);
    }
    lemma_piece(sub, t);
}

/// The text that is listed from `m` on begins at `i`, or after a space there.
proof fn lemma_pieces(s: Seq<char>, from: int, i: int, ts: Seq<Seq<char>>, m: nat)
    requires
        forall|k: int| 0 <= k < ts.len() ==> is_layer_text(#[trigger] ts[k]),
        m < ts.len(),
        stands(s, i, listed(ts, m)),
        i + listed(ts, m).len() == s.len(),
        0 <= from,
        from == i || from + 1 == i && s[from] == ' ',
    ensures
        pieces_from(s, from) == ts.skip(m as int),
    decreases ts.len() - m,
{
    let t = ts[m as int];
    let e = i + t.len();
    if m + 1 < ts.len() {
        reveal_strlit(", ");
        lemma_stands_add(s, i, t + ", "@, listed(ts, m + 1));
        lemma_stands_add(s, i, t, ", "@);
        assert(s[e + 0] == ", "@[0]);
        assert(s[e + 1] == ", "@[1]);
        lemma_first_piece(s, from, i, t);
        lemma_pieces(s, e + 1, e + 2, ts, m + 1);
        assert(seq![t] + ts.skip(m as int + 1) =~= ts.skip(m as int));
    } else {
        lemma_first_piece(s, from, i, t);
        assert(ts.skip(m as int) =~= seq![t]);
    }
}

/// The text is read as the pattern.
#[verifier::opaque]
spec fn is_read_as(t: Seq<char>, p: PatView) -> bool {
    pattern(t) == Ok::<PatView, Seq<char>>(p)
}

/// The texts as whole patterns.
#[verifier::opaque]
spec fn layers_read(ts: Seq<Seq<char>>, bound: nat) -> Result<Seq<PatView>, Seq<char>> {
    layers(ts, bound)
}

proof fn lemma_layers_step(ts: Seq<Seq<char>>, p: PatView, qs: Seq<PatView>, bound: nat)
    requires
        ts.len() > 0,
        is_read_as(ts[0], p),
        ts[0].len() <= bound,
        layers_read(ts.skip(1), bound) == Ok::<Seq<PatView>, Seq<char>>(qs),
    ensures
        layers_read(ts, bound) == Ok::<Seq<PatView>, Seq<char>>(seq![p] + qs),
{
    reveal(is_read_as);
    reveal(layers_read);
}

proof fn lemma_layers(ts: Seq<Seq<char>>, ps: Seq<PatView>, bound: nat)
    requires
        ts.len() == ps.len(),
        forall|i: int|
            0 <= i < ts.len() ==> is_read_as(#[trigger] ts[i], ps[i]) && ts[i].len() <= bound,
    ensures
        layers_read(ts, bound) == Ok::<Seq<PatView>, Seq<char>>(ps),
    decreases ts.len(),
{
    if ts.len() > 0 {
        let us = ts.skip(1);
        let qs = ps.skip(1);
        assert forall|i: int| 0 <= i < us.len() implies is_read_as(#[trigger] us[i], qs[i])
            && us[i].len() <= bound by {
            assert(us[i] == ts[i + 1]);
        }
        lemma_layers(us, qs, bound);
        assert(is_read_as(ts[0], ps[0]));
        lemma_layers_step(ts, ps[0], qs, bound);
        assert(seq![ps[0]] + qs =~= ps);
    } else {
        assert(ps =~= seq![]);
        reveal(layers_read);
    }
}

proof fn lemma_stack_item(
    s: Seq<char>,
    e: int,
    inner: Seq<char>,
    ts: Seq<Seq<char>>,
    ps: Seq<PatView>,
)
    requires
        s.len() > 7,
        keyword(s, 0, "stack"@),
        skip_ws(s, 5) == 6,
        s[6] == '[',
        close_bracket(s, 7, 1, false) == Some(e),
        s.subrange(7, e) == inner,
        pieces_from(inner, 0) == ts,
        ts.len() > 0,
        layers_read(ts, (s.len() - 1) as nat) == Ok::<Seq<PatView>, Seq<char>>(ps),
    ensures
        item_at(s, 0) == Ok::<(PatView, int), Seq<char>>((PatView::Layer(ps), e + 1)),
{
    reveal(pieces_from);
    reveal(layers_read);
    reveal(item_at);
}

/// `stack [p, q]` lays whole patterns on top of each other: each is what its text alone would be.
#[verifier::rlimit(30)]
pub proof fn layers_are_whole_patterns(ts: Seq<Seq<char>>, ps: Seq<PatView>)
    requires
        ts.len() == ps.len(),
        ts.len() > 0,
        forall|i: int|
            0 <= i < ts.len() ==> is_layer_text(#[trigger] ts[i]) && pattern(ts[i]) == Ok::<
                PatView,
                Seq<char>,
            >(ps[i]),
    ensures
        pattern("stack ["@ + listed(ts, 0) + "]"@) == Ok::<PatView, Seq<char>>(PatView::Layer(ps)),
{
    reveal_strlit("stack [");
    reveal_strlit("]");
    lemma_letters();
    let inner = listed(ts, 0);
    let s = "stack ["@ + inner + "]"@;
    let e = s.len() - 1;
    lemma_stands_add(s, 0, "stack ["@ + inner, "]"@);
    lemma_stands_add(s, 0, "stack ["@, inner);
    assert(s[e] == ']') by {
        assert(s[7int + inner.len() + 0] == "]"@[0]);
    }
    assert(keyword(s, 0, "stack"@)) by {
        let sub = s.subrange(0, 5);
        assert forall|m: int| 0 <= m < 5 implies lower(#[trigger] sub[m]) == lower(
            "stack"@[m],
        ) by {
            assert(s[0 + m] == "stack ["@[m]);
        }
        assert(s[0int + 5] == "stack ["@[5]);
    }
    assert(s[0int + 0] == "stack ["@[0] && s[0int + 5] == "stack ["@[5] && s[0int + 6] == "stack ["@[6]);
    assert(skip_ws(s, 6) == 6);
    assert(skip_ws(s, 5) == 6);
    assert(skip_ws(s, 0) == 0);
    lemma_listed_flat(ts, 0);
    assert(flat(s, 7, e)) by {
        assert forall|k: int| 7 <= k < e implies (#[trigger] s[k]) != '[' && s[k] != ']' && s[k]
            != '<' && s[k] != '>' && s[k] != '"' by {
            assert(s[7 + (k - 7)] == inner[k - 7]);
        }
    }
    lemma_close(s, 7, e);
    assert(s.subrange(7, e) =~= inner);
    lemma_pieces(inner, 0, 0, ts, 0);
    assert(ts.skip(0) =~= ts);
    assert forall|i: int| 0 <= i < ts.len() implies is_read_as(#[trigger] ts[i], ps[i]) by {
        reveal(is_read_as);
    }
    lemma_layers(ts, ps, (s.len() - 1) as nat);
    lemma_stack_item(s, e, inner, ts, ps);
    let n = s.len() as int;
    assert(skip_ws(s, n) == n);
    lemma_items_end(s, n, None);
    lemma_items_next(s, 0, None, PatView::Layer(ps), n, seq![], n);
    lemma_whole_pattern(s, seq![PatView::Layer(ps)] + Seq::<PatView>::empty(), n);
}

} // verus!
