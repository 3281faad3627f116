//! What pattern files say: how sounds, tracks and directives are written.

use vstd::prelude::*;

use crate::dsl::sound::{
    dollar, expanded, lane_at, lanes_from, link, no_lanes, quote_end, quoted, rot_amount, s_clause,
    sound_clause, tempo_factor, word_at, Link, PrefixTransform, SoundView,
};
use crate::dsl::TempoWrap;
use crate::number::{signed, unsigned};
use crate::pat::lanes::LanesView;
use crate::pat::notation::decimals_stand_for_their_number;
use crate::pat::parse::pattern;
use crate::pat::PatView;
use crate::text::{all_digits, decimal, is_digit, is_ws, lower, same_word, skip_ws, word_end};

verus! {

// ---------------------------------------------------------------------------------------------
// Words
// ---------------------------------------------------------------------------------------------

/// The text stands in `s` at `i`.
pub open spec fn stands(s: Seq<char>, i: int, t: Seq<char>) -> bool {
    &&& 0 <= i
    &&& i + t.len() <= s.len()
    &&& forall|k: int| 0 <= k < t.len() ==> s[i + k] == #[trigger] t[k]
}

pub proof fn lemma_stands_add(s: Seq<char>, i: int, a: Seq<char>, b: Seq<char>)
    requires
        stands(s, i, a + b),
    ensures
        stands(s, i, a),
        stands(s, i + a.len(), b),
        (a + b).len() == a.len() + b.len(),
{
    assert forall|k: int| 0 <= k < a.len() implies s[i + k] == #[trigger] a[k] by {
        assert((a + b)[k] == a[k]);
    }
    assert forall|k: int| 0 <= k < b.len() implies s[i + a.len() + k] == #[trigger] b[k] by {
        assert((a + b)[a.len() + k] == b[k]);
    }
}

/// No character is ASCII whitespace.
pub open spec fn unbroken(w: Seq<char>) -> bool {
    w.len() > 0 && forall|i: int| 0 <= i < w.len() ==> !is_ws(#[trigger] w[i])
}

proof fn lemma_word_end(s: Seq<char>, i: int, j: int)
    requires
        0 <= i <= j <= s.len(),
        forall|k: int| i <= k < j ==> !is_ws(#[trigger] s[k]),
        j == s.len() || is_ws(s[j]),
    ensures
        word_end(s, i) == j,
    decreases j - i,
{
    if i < j {
        assert(!is_ws(s[i]));
        lemma_word_end(s, i + 1, j);
    }
}

/// A word that stands at `i`, or after a space there, is read.
pub proof fn lemma_word(s: Seq<char>, i: int, w: Seq<char>)
    requires
        stands(s, i, w),
        unbroken(w),
        i + w.len() == s.len() || is_ws(s[i + w.len()]),
    ensures
        word_at(s, i) == Some((w, i + w.len())),
        i > 0 && is_ws(s[i - 1]) ==> word_at(s, i - 1) == Some((w, i + w.len())),
{
    let j = i + w.len();
    assert(s[i + 0] == w[0]);
    assert(!is_ws(w[0]));
    assert(skip_ws(s, i) == i);
    assert forall|k: int| i <= k < j implies !is_ws(#[trigger] s[k]) by {
        assert(s[i + (k - i)] == w[k - i]);
    }
    lemma_word_end(s, i, j);
    assert(s.subrange(i, j) =~= w);
    if i > 0 && is_ws(s[i - 1]) {
        assert(skip_ws(s, i - 1) == i);
    }
}

pub proof fn lemma_decimal_word(n: nat)
    ensures
        unbroken(decimal(n)),
        all_digits(decimal(n)),
        n <= u32::MAX ==> unsigned(decimal(n), u32::MAX as nat) == Some(n),
        n <= u64::MAX ==> unsigned(decimal(n), u64::MAX as nat) == Some(n),
{
    decimals_stand_for_their_number(n);
    let d = decimal(n);
    assert forall|i: int| 0 <= i < d.len() implies !is_ws(#[trigger] d[i]) && is_digit(d[i]) by {
        assert('0' <= d[i] <= '9');
    }
    assert('0' <= d[0] <= '9');
}

/// An integer as it is written.
pub open spec fn integer_text(n: int) -> Seq<char> {
    if n < 0 {
        "-"@ + decimal((-n) as nat)
    } else {
        decimal(n as nat)
    }
}

proof fn lemma_integer(n: int)
    requires
        i32::MIN <= n <= i32::MAX,
    ensures
        unbroken(integer_text(n)),
        signed(integer_text(n)) == Some(n),
{
    reveal_strlit("-");
    let m = if n < 0 {
        (-n) as nat
    } else {
        n as nat
    };
    lemma_decimal_word(m);
    decimals_stand_for_their_number(m);
    let d = decimal(m);
    let t = integer_text(n);
    if n < 0 {
        assert(t.subrange(1, t.len() as int) =~= d);
        assert forall|i: int| 0 <= i < t.len() implies !is_ws(#[trigger] t[i]) by {
            if i > 0 {
                assert(t[i] == d[i - 1]);
            }
        }
    } else {
        assert('0' <= d[0] <= '9');
    }
}

// ---------------------------------------------------------------------------------------------
// Chains
// ---------------------------------------------------------------------------------------------

/// How a link of the chain before a sound is written.
pub open spec fn link_text(l: Link) -> Seq<char> {
    match l {
        Link::Tempo(TempoWrap::Slow(n)) => "slow "@ + decimal(n as nat) + " $"@,
        Link::Tempo(TempoWrap::Fast(n)) => "fast "@ + decimal(n as nat) + " $"@,
        Link::Transform(PrefixTransform::Rev) => "rev $"@,
        Link::Transform(PrefixTransform::Pal) => "pal $"@,
        Link::Transform(PrefixTransform::Rot(r)) => "rot "@ + integer_text(r as int) + " $"@,
        Link::Transform(PrefixTransform::EveryRev(n)) => "every "@ + decimal(n as nat) + " rev $"@,
        Link::Transform(PrefixTransform::EveryPal(n)) => "every "@ + decimal(n as nat) + " pal $"@,
        Link::Transform(PrefixTransform::EveryRot(n, r)) => "every "@ + decimal(n as nat) + " rot "@
            + integer_text(r as int) + " $"@,
        Link::Sound => seq![],
    }
}

/// The link can be written: its numbers are not too small.
pub open spec fn link_valid(l: Link) -> bool {
    match l {
        Link::Tempo(TempoWrap::Slow(n)) => n >= 1,
        Link::Tempo(TempoWrap::Fast(n)) => n >= 1,
        Link::Transform(PrefixTransform::EveryRev(n)) => n >= 1,
        Link::Transform(PrefixTransform::EveryPal(n)) => n >= 1,
        Link::Transform(PrefixTransform::EveryRot(n, _)) => n >= 1,
        Link::Transform(_) => true,
        Link::Sound => false,
    }
}

proof fn lemma_dollar(s: Seq<char>, i: int, after: Seq<char>)
    requires
        stands(s, i, " $"@),
    ensures
        dollar(s, i, after) == Ok::<int, Seq<char>>(i + 2),
        skip_ws(s, i) == i + 1,
        s[i + 1] == '$',
        is_ws(s[i]),
{
    reveal_strlit(" $");
    assert(s[i + 0] == " $"@[0]);
    assert(s[i + 1] == " $"@[1]);
    assert(skip_ws(s, i + 1) == i + 1);
}

/// The first word of what stands at `i` is this one.
proof fn lemma_head(s: Seq<char>, i: int, w: Seq<char>, t: Seq<char>)
    requires
        stands(s, i, t),
        t.len() > w.len(),
        t.take(w.len() as int) == w,
        is_ws(t[w.len() as int]),
        unbroken(w),
    ensures
        word_at(s, i) == Some((w, i + w.len())),
        i > 0 && is_ws(s[i - 1]) ==> word_at(s, i - 1) == Some((w, i + w.len())),
        stands(s, i, w),
{
    assert forall|k: int| 0 <= k < w.len() implies s[i + k] == #[trigger] w[k] by {
        assert(t.take(w.len() as int)[k] == t[k]);
    }
    assert(s[i + w.len()] == t[w.len() as int]);
    lemma_word(s, i, w);
}

proof fn lemma_rot(s: Seq<char>, i: int, r: i32, missing: Seq<char>)
    requires
        stands(s, i, integer_text(r as int) + " $"@),
        i > 0,
        is_ws(s[i - 1]),
    ensures
        rot_amount(s, i - 1, missing) == Ok::<(i32, int), Seq<char>>(
            (r, i + integer_text(r as int).len()),
        ),
        stands(s, i + integer_text(r as int).len(), " $"@),
{
    let d = integer_text(r as int);
    lemma_integer(r as int);
    lemma_stands_add(s, i, d, " $"@);
    lemma_dollar(s, i + d.len(), seq![]);
    lemma_word(s, i, d);
}

proof fn lemma_link_words()
    ensures
        "slow"@ == seq!['s', 'l', 'o', 'w'],
        "fast"@ == seq!['f', 'a', 's', 't'],
        "rev"@ == seq!['r', 'e', 'v'],
        "pal"@ == seq!['p', 'a', 'l'],
        "rot"@ == seq!['r', 'o', 't'],
        "every"@ == seq!['e', 'v', 'e', 'r', 'y'],
        "s"@ == seq!['s'],
        "gain"@ == seq!['g', 'a', 'i', 'n'],
        unbroken("slow"@),
        unbroken("fast"@),
        unbroken("rev"@),
        unbroken("pal"@),
        unbroken("rot"@),
        unbroken("every"@),
        unbroken("s"@),
{
    reveal_strlit("slow");
    reveal_strlit("fast");
    reveal_strlit("rev");
    reveal_strlit("pal");
    reveal_strlit("rot");
    reveal_strlit("every");
    reveal_strlit("s");
    reveal_strlit("gain");
    assert("slow"@ =~= seq!['s', 'l', 'o', 'w']);
    assert("fast"@ =~= seq!['f', 'a', 's', 't']);
    assert("rev"@ =~= seq!['r', 'e', 'v']);
    assert("pal"@ =~= seq!['p', 'a', 'l']);
    assert("rot"@ =~= seq!['r', 'o', 't']);
    assert("every"@ =~= seq!['e', 'v', 'e', 'r', 'y']);
    assert("s"@ =~= seq!['s']);
    assert("gain"@ =~= seq!['g', 'a', 'i', 'n']);
}

proof fn lemma_tempo_link(s: Seq<char>, i: int, w: Seq<char>, n: u32)
    requires
        w.len() == 4,
        unbroken(w),
        stands(s, i, w.push(' ') + decimal(n as nat) + " $"@),
        n >= 1,
    ensures
        word_at(s, i) == Some((w, i + 4)),
        i > 0 && is_ws(s[i - 1]) ==> word_at(s, i - 1) == Some((w, i + 4)),
        tempo_factor(s, i + 4) == Ok::<(u32, int), Seq<char>>(
            (n, i + (w.push(' ') + decimal(n as nat) + " $"@).len()),
        ),
{
    let d = decimal(n as nat);
    let t = w.push(' ') + d + " $"@;
    lemma_decimal_word(n as nat);
    assert(t.take(4) =~= w);
    assert(t[4] == ' ');
    lemma_head(s, i, w, t);
    lemma_stands_add(s, i, w.push(' ') + d, " $"@);
    lemma_stands_add(s, i, w.push(' '), d);
    let e = i + 5 + d.len();
    lemma_dollar(s, e, seq![]);
    assert(s[i + 4] == w.push(' ')[4]);
    lemma_word(s, i + 5, d);
    reveal_strlit(" $");
}

/// The link is read, from where it stands and from a space before it.
spec fn link_read(s: Seq<char>, i: int, l: Link) -> bool {
    let r = Ok::<(Link, int), Seq<char>>((l, i + link_text(l).len()));
    &&& link(s, i) == r
    &&& i > 0 && is_ws(s[i - 1]) ==> link(s, i - 1) == r
    &&& link_text(l).len() > 0
}

proof fn lemma_link_slow(s: Seq<char>, i: int, n: u32)
    requires
        stands(s, i, link_text(Link::Tempo(TempoWrap::Slow(n)))),
        link_valid(Link::Tempo(TempoWrap::Slow(n))),
    ensures
        link_read(s, i, Link::Tempo(TempoWrap::Slow(n))),
{
    lemma_link_words();
    reveal_strlit("slow ");
    reveal_strlit(" $");
    let t = link_text(Link::Tempo(TempoWrap::Slow(n)));
    assert("slow"@.push(' ') =~= "slow "@);
    lemma_tempo_link(s, i, "slow"@, n);
}

proof fn lemma_link_fast(s: Seq<char>, i: int, n: u32)
    requires
        stands(s, i, link_text(Link::Tempo(TempoWrap::Fast(n)))),
        link_valid(Link::Tempo(TempoWrap::Fast(n))),
    ensures
        link_read(s, i, Link::Tempo(TempoWrap::Fast(n))),
{
    lemma_link_words();
    reveal_strlit("fast ");
    reveal_strlit(" $");
    let t = link_text(Link::Tempo(TempoWrap::Fast(n)));
    assert("fast"@.push(' ') =~= "fast "@);
    lemma_tempo_link(s, i, "fast"@, n);
    assert("fast"@[0] == 'f');
}

proof fn lemma_link_rev(s: Seq<char>, i: int)
    requires
        stands(s, i, link_text(Link::Transform(PrefixTransform::Rev))),
        link_valid(Link::Transform(PrefixTransform::Rev)),
    ensures
        link_read(s, i, Link::Transform(PrefixTransform::Rev)),
{
    lemma_link_words();
    reveal_strlit("rev $");
    reveal_strlit(" $");
    let t = link_text(Link::Transform(PrefixTransform::Rev));
    assert(t.take(3) =~= "rev"@);
    lemma_head(s, i, "rev"@, t);
    assert(t =~= "rev"@ + " $"@);
    lemma_stands_add(s, i, "rev"@, " $"@);
    lemma_dollar(s, i + 3, "rev"@);
}

proof fn lemma_link_pal(s: Seq<char>, i: int)
    requires
        stands(s, i, link_text(Link::Transform(PrefixTransform::Pal))),
        link_valid(Link::Transform(PrefixTransform::Pal)),
    ensures
        link_read(s, i, Link::Transform(PrefixTransform::Pal)),
{
    lemma_link_words();
    reveal_strlit("pal $");
    reveal_strlit(" $");
    let t = link_text(Link::Transform(PrefixTransform::Pal));
    assert(t.take(3) =~= "pal"@);
    lemma_head(s, i, "pal"@, t);
    assert(t =~= "pal"@ + " $"@);
    lemma_stands_add(s, i, "pal"@, " $"@);
    lemma_dollar(s, i + 3, "pal"@);
    assert("pal"@[0] == 'p');
}

proof fn lemma_rot_is_rot()
    ensures
        same_word("rot"@, "rot"@),
        !same_word("rot"@, "s"@),
        !same_word("rot"@, "slow"@),
        !same_word("rot"@, "fast"@),
        !same_word("rot"@, "rev"@),
        !same_word("rot"@, "pal"@),
{
    lemma_link_words();
    let w = "rot"@;
    assert(w[0] == 'r' && w[1] == 'o');
    assert("rev"@[1] == 'e');
    assert("pal"@[0] == 'p');
    assert(lower(w[1]) != lower("rev"@[1]));
    assert(lower(w[0]) != lower("pal"@[0]));
}

proof fn lemma_link_rot(s: Seq<char>, i: int, r: i32)
    requires
        stands(s, i, link_text(Link::Transform(PrefixTransform::Rot(r)))),
        link_valid(Link::Transform(PrefixTransform::Rot(r))),
    ensures
        link_read(s, i, Link::Transform(PrefixTransform::Rot(r))),
{
    lemma_link_words();
    reveal_strlit("rot ");
    reveal_strlit(" $");
    let t = link_text(Link::Transform(PrefixTransform::Rot(r)));
    let d = integer_text(r as int);
    assert(t.take(3) =~= "rot"@);
    lemma_head(s, i, "rot"@, t);
    assert(t =~= "rot "@ + (d + " $"@));
    lemma_stands_add(s, i, "rot "@, d + " $"@);
    assert(s[i + 3] == "rot "@[3]);
    lemma_rot(s, i + 4, r, "`rot` requires an integer amount"@);
    lemma_dollar(s, i + 4 + d.len(), "rot"@);
    lemma_rot_is_rot();
    let at = i + t.len();
    assert(crate::dsl::sound::with_dollar(s, i + 4 + d.len(), "rot"@, PrefixTransform::Rot(r))
        == Ok::<(Link, int), Seq<char>>((Link::Transform(PrefixTransform::Rot(r)), at)));
}

proof fn lemma_link_every_rev(s: Seq<char>, i: int, n: u32)
    requires
        stands(s, i, link_text(Link::Transform(PrefixTransform::EveryRev(n)))),
        link_valid(Link::Transform(PrefixTransform::EveryRev(n))),
    ensures
        link_read(s, i, Link::Transform(PrefixTransform::EveryRev(n))),
{
    lemma_link_words();
    reveal_strlit(" rev $");
    reveal_strlit("rev $");
    reveal_strlit(" $");
    reveal_strlit("every ");
    let t = link_text(Link::Transform(PrefixTransform::EveryRev(n)));
    let d = decimal(n as nat);
    lemma_every(s, i, n, " rev $"@);
    let j = i + 6 + d.len();
    assert(" rev $"@ =~= seq![' '] + "rev $"@);
    lemma_stands_add(s, j, seq![' '], "rev $"@);
    assert(s[j + 0] == seq![' '][0]);
    assert("rev $"@.take(3) =~= "rev"@);
    lemma_head(s, j + 1, "rev"@, "rev $"@);
    assert("rev $"@ =~= "rev"@ + " $"@);
    lemma_stands_add(s, j + 1, "rev"@, " $"@);
    lemma_dollar(s, j + 4, "every"@);
}

proof fn lemma_link_every_pal(s: Seq<char>, i: int, n: u32)
    requires
        stands(s, i, link_text(Link::Transform(PrefixTransform::EveryPal(n)))),
        link_valid(Link::Transform(PrefixTransform::EveryPal(n))),
    ensures
        link_read(s, i, Link::Transform(PrefixTransform::EveryPal(n))),
{
    lemma_link_words();
    reveal_strlit(" pal $");
    reveal_strlit("pal $");
    reveal_strlit(" $");
    reveal_strlit("every ");
    let t = link_text(Link::Transform(PrefixTransform::EveryPal(n)));
    let d = decimal(n as nat);
    lemma_every(s, i, n, " pal $"@);
    let j = i + 6 + d.len();
    assert(" pal $"@ =~= seq![' '] + "pal $"@);
    lemma_stands_add(s, j, seq![' '], "pal $"@);
    assert(s[j + 0] == seq![' '][0]);
    assert("pal $"@.take(3) =~= "pal"@);
    lemma_head(s, j + 1, "pal"@, "pal $"@);
    assert("pal $"@ =~= "pal"@ + " $"@);
    lemma_stands_add(s, j + 1, "pal"@, " $"@);
    lemma_dollar(s, j + 4, "every"@);
    assert("pal"@[0] == 'p');
}

proof fn lemma_link_every_rot(s: Seq<char>, i: int, n: u32, r: i32)
    requires
        stands(s, i, link_text(Link::Transform(PrefixTransform::EveryRot(n, r)))),
        link_valid(Link::Transform(PrefixTransform::EveryRot(n, r))),
    ensures
        link_read(s, i, Link::Transform(PrefixTransform::EveryRot(n, r))),
{
    lemma_link_words();
    reveal_strlit(" rot ");
    reveal_strlit("rot ");
    reveal_strlit(" $");
    reveal_strlit("every ");
    let t = link_text(Link::Transform(PrefixTransform::EveryRot(n, r)));
    let d = decimal(n as nat);
    let e = integer_text(r as int);
    let tail = " rot "@ + e + " $"@;
    assert(t =~= "every "@ + d + tail);
    lemma_every(s, i, n, tail);
    let j = i + 6 + d.len();
    assert(tail =~= seq![' '] + ("rot "@ + (e + " $"@)));
    lemma_stands_add(s, j, seq![' '], "rot "@ + (e + " $"@));
    assert(s[j + 0] == seq![' '][0]);
    let u = "rot "@ + (e + " $"@);
    assert(u.take(3) =~= "rot"@);
    lemma_head(s, j + 1, "rot"@, u);
    lemma_stands_add(s, j + 1, "rot "@, e + " $"@);
    assert(s[j + 1 + 3] == "rot "@[3]);
    lemma_rot(s, j + 5, r, "`every ... rot` requires an integer amount"@);
    lemma_dollar(s, j + 5 + e.len(), "every"@);
    assert("rot"@[1] == 'o' && "rot"@[0] == 'r');
}

/// A link is read as it is written.
proof fn lemma_link(s: Seq<char>, i: int, l: Link)
    requires
        stands(s, i, link_text(l)),
        link_valid(l),
    ensures
        link_read(s, i, l),
{
    match l {
        Link::Tempo(TempoWrap::Slow(n)) => {
            lemma_link_slow(s, i, n);
        },
        Link::Tempo(TempoWrap::Fast(n)) => {
            lemma_link_fast(s, i, n);
        },
        Link::Transform(PrefixTransform::Rev) => {
            lemma_link_rev(s, i);
        },
        Link::Transform(PrefixTransform::Pal) => {
            lemma_link_pal(s, i);
        },
        Link::Transform(PrefixTransform::Rot(r)) => {
            lemma_link_rot(s, i, r);
        },
        Link::Transform(PrefixTransform::EveryRev(n)) => {
            lemma_link_every_rev(s, i, n);
        },
        Link::Transform(PrefixTransform::EveryPal(n)) => {
            lemma_link_every_pal(s, i, n);
        },
        Link::Transform(PrefixTransform::EveryRot(n, r)) => {
            lemma_link_every_rot(s, i, n, r);
        },
        Link::Sound => {},
    }
}

proof fn lemma_every(s: Seq<char>, i: int, n: u32, tail: Seq<char>)
    requires
        stands(s, i, "every "@ + decimal(n as nat) + tail),
        tail.len() > 0,
        tail[0] == ' ',
    ensures
        word_at(s, i) == Some(("every"@, i + 5)),
        i > 0 && is_ws(s[i - 1]) ==> word_at(s, i - 1) == Some(("every"@, i + 5)),
        word_at(s, i + 5) == Some((decimal(n as nat), i + 6 + decimal(n as nat).len())),
        unsigned(decimal(n as nat), u32::MAX as nat) == Some(n as nat),
        stands(s, i + 6 + decimal(n as nat).len(), tail),
{
    lemma_link_words();
    reveal_strlit("every ");
    let d = decimal(n as nat);
    let t = "every "@ + d + tail;
    lemma_decimal_word(n as nat);
    assert(t.take(5) =~= "every"@);
    lemma_head(s, i, "every"@, t);
    lemma_stands_add(s, i, "every "@ + d, tail);
    lemma_stands_add(s, i, "every "@, d);
    assert(s[i + 5] == "every "@[5]);
    assert(s[i + 6 + d.len() + 0] == tail[0]);
    lemma_word(s, i + 6, d);
}

/// What a link does to the sound behind it: a transform is the last to be applied, a tempo must be
/// the only one.
pub open spec fn with_link(l: Link, r: Result<SoundView, Seq<char>>) -> Result<
    SoundView,
    Seq<char>,
> {
    match r {
        Err(e) => Err(e),
        Ok(v) => match l {
            Link::Tempo(t) => if v.tempo is Some {
                Err("only one `slow`/`fast` per `$` chain"@)
            } else {
                Ok(SoundView { tempo: Some(t), ..v })
            },
            Link::Transform(t) => Ok(SoundView { transforms: v.transforms.push(t), ..v }),
            Link::Sound => Ok(v),
        },
    }
}

/// A chain is read link by link: `rev $`, `pal $`, `rot 2 $`, `every 4 rev $`, `slow 2 $` and the like
/// each go before a sound and say something of it.
#[verifier::rlimit(30)]
pub proof fn links_are_read_as_they_are_written(
    s: Seq<char>,
    i: int,
    l: Link,
    lets: Map<Seq<char>, Seq<char>>,
)
    requires
        stands(s, i, link_text(l)),
        link_valid(l),
    ensures
        sound_clause(s, i, lets) == with_link(
            l,
            sound_clause(s, i + link_text(l).len(), lets),
        ),
        i > 0 && is_ws(s[i - 1]) ==> sound_clause(s, i - 1, lets) == with_link(
            l,
            sound_clause(s, i + link_text(l).len(), lets),
        ),
{
    lemma_link(s, i, l);
}

/// No link is ever read that cannot be written: `slow 0 $`, `fast 0 $` and `every 0 rev $` are
/// refused.
pub proof fn links_are_never_zero(s: Seq<char>, i: int)
    ensures
        link(s, i) is Ok && !(link(s, i)->Ok_0.0 is Sound) ==> link_valid(link(s, i)->Ok_0.0),
{
}

// ---------------------------------------------------------------------------------------------
// Sounds and lanes
// ---------------------------------------------------------------------------------------------

/// A text in double quotes, after a space.
pub open spec fn quoted_text(body: Seq<char>) -> Seq<char> {
    " \""@ + body + "\""@
}

/// The text holds no double quote.
pub open spec fn unquoted(body: Seq<char>) -> bool {
    forall|i: int| 0 <= i < body.len() ==> (#[trigger] body[i]) != '"'
}

proof fn lemma_quote_end(s: Seq<char>, i: int, e: int)
    requires
        0 <= i <= e < s.len(),
        forall|k: int| i <= k < e ==> (#[trigger] s[k]) != '"',
        s[e] == '"',
    ensures
        quote_end(s, i) == e,
    decreases e - i,
{
    if i < e {
        assert(s[i] != '"');
        lemma_quote_end(s, i + 1, e);
    }
}

pub proof fn lemma_quoted(s: Seq<char>, i: int, body: Seq<char>, what: Seq<char>)
    requires
        stands(s, i, quoted_text(body)),
        unquoted(body),
    ensures
        quoted(s, i, what) == Ok::<(Seq<char>, int), Seq<char>>(
            (body, i + quoted_text(body).len()),
        ),
        skip_ws(s, i) == i + 1,
        s[i + 1] == '"',
        is_ws(s[i]),
        quoted_text(body).len() == body.len() + 3,
{
    reveal_strlit(" \"");
    reveal_strlit("\"");
    lemma_stands_add(s, i, " \""@ + body, "\""@);
    lemma_stands_add(s, i, " \""@, body);
    assert(s[i + 0] == " \""@[0]);
    assert(s[i + 1] == " \""@[1]);
    let e = i + 2 + body.len();
    assert(s[e + 0] == "\""@[0]);
    assert forall|k: int| i + 2 <= k < e implies (#[trigger] s[k]) != '"' by {
        assert(s[i + 2 + (k - i - 2)] == body[k - i - 2]);
    }
    lemma_quote_end(s, i + 2, e);
    assert(skip_ws(s, i + 1) == i + 1);
    assert(s.subrange(i + 2, e) =~= body);
}

/// The lanes of a sound.
pub enum LaneName {
    Gain,
    Pan,
    Prob,
    Dur,
    Duration,
    Legato,
    Cut,
    Cutoff,
}

pub open spec fn lane_word(n: LaneName) -> Seq<char> {
    match n {
        LaneName::Gain => "gain"@,
        LaneName::Pan => "pan"@,
        LaneName::Prob => "prob"@,
        LaneName::Dur => "dur"@,
        LaneName::Duration => "duration"@,
        LaneName::Legato => "legato"@,
        LaneName::Cut => "cut"@,
        LaneName::Cutoff => "cutoff"@,
    }
}

/// How a lane is written.
pub open spec fn lane_text(n: LaneName, body: Seq<char>) -> Seq<char> {
    " # "@ + lane_word(n) + quoted_text(body)
}

/// What a lane already holds.
pub open spec fn lane_of(l: LanesView, n: LaneName) -> Option<PatView> {
    match n {
        LaneName::Gain => l.gain,
        LaneName::Pan => l.pan,
        LaneName::Prob => l.prob,
        LaneName::Dur => l.dur,
        LaneName::Duration => l.dur,
        LaneName::Legato => l.legato,
        LaneName::Cut => l.cut_group,
        LaneName::Cutoff => l.cutoff,
    }
}

/// The lanes with one more.
pub open spec fn lane_set(l: LanesView, n: LaneName, p: PatView) -> LanesView {
    match n {
        LaneName::Gain => LanesView { gain: Some(p), ..l },
        LaneName::Pan => LanesView { pan: Some(p), ..l },
        LaneName::Prob => LanesView { prob: Some(p), ..l },
        LaneName::Dur => LanesView { dur: Some(p), ..l },
        LaneName::Duration => LanesView { dur: Some(p), ..l },
        LaneName::Legato => LanesView { legato: Some(p), ..l },
        LaneName::Cut => LanesView { cut_group: Some(p), ..l },
        LaneName::Cutoff => LanesView { cutoff: Some(p), ..l },
    }
}

proof fn lemma_lane_word(n: LaneName)
    ensures
        unbroken(lane_word(n)),
        lane_word(n).len() > 0,
{
    reveal_strlit("gain");
    reveal_strlit("pan");
    reveal_strlit("prob");
    reveal_strlit("dur");
    reveal_strlit("duration");
    reveal_strlit("legato");
    reveal_strlit("cut");
    reveal_strlit("cutoff");
    let w = lane_word(n);
    assert forall|i: int| 0 <= i < w.len() implies !is_ws(#[trigger] w[i]) by {}
}

proof fn lemma_lane_words()
    ensures
        "gain"@.len() == 4 && "gain"@[0] == 'g',
        "pan"@.len() == 3 && "pan"@[0] == 'p',
        "prob"@.len() == 4 && "prob"@[0] == 'p',
        "dur"@.len() == 3 && "dur"@[0] == 'd',
        "duration"@.len() == 8,
        "legato"@.len() == 6 && "legato"@[0] == 'l',
        "cut"@.len() == 3 && "cut"@[0] == 'c',
        "cutoff"@.len() == 6 && "cutoff"@[0] == 'c',
{
    reveal_strlit("gain");
    reveal_strlit("pan");
    reveal_strlit("prob");
    reveal_strlit("dur");
    reveal_strlit("duration");
    reveal_strlit("legato");
    reveal_strlit("cut");
    reveal_strlit("cutoff");
}

/// The end of the text follows, or another lane.
pub open spec fn lane_ends(s: Seq<char>, j: int) -> bool {
    j == s.len() || stands(s, j, " #"@)
}

proof fn lemma_lane_pattern(
    s: Seq<char>,
    i: int,
    body: Seq<char>,
    name: Seq<char>,
    lets: Map<Seq<char>, Seq<char>>,
)
    requires
        stands(s, i, quoted_text(body)),
        unquoted(body),
    ensures
        crate::dsl::sound::lane_pattern(s, i, name, lets) == match pattern(expanded(body, lets)) {
            Err(e) => Err::<(PatView, int), Seq<char>>(e),
            Ok(p) => Ok((p, i + quoted_text(body).len())),
        },
{
    reveal(crate::dsl::sound::lane_pattern);
    lemma_quoted(s, i, body, "pattern"@);
}

proof fn lemma_lane_words_differ(n: LaneName)
    ensures
        same_word(lane_word(n), "gain"@) == (n is Gain),
        same_word(lane_word(n), "pan"@) == (n is Pan),
        same_word(lane_word(n), "prob"@) == (n is Prob),
        same_word(lane_word(n), "dur"@) == (n is Dur),
        same_word(lane_word(n), "duration"@) == (n is Duration),
        same_word(lane_word(n), "legato"@) == (n is Legato),
        same_word(lane_word(n), "cut"@) == (n is Cut),
        same_word(lane_word(n), "cutoff"@) == (n is Cutoff),
{
    lemma_lane_words();
    let w = lane_word(n);
    assert(w.len() > 0 && lower(w[0]) == lower(lane_word(n)[0]));
}

#[verifier::opaque]
spec fn lane_read(
    s: Seq<char>,
    b: int,
    w: Seq<char>,
    l: LanesView,
    lets: Map<Seq<char>, Seq<char>>,
) -> Result<(LanesView, int), Seq<char>> {
    lane_at(s, b, w, l, lets)
}

proof fn lemma_lanes_step(
    s: Seq<char>,
    i: int,
    a: int,
    w: Seq<char>,
    b: int,
    l: LanesView,
    lets: Map<Seq<char>, Seq<char>>,
)
    requires
        skip_ws(s, i) == a,
        a < s.len(),
        s[a] == '#',
        word_at(s, a + 1) == Some((w, b)),
    ensures
        match lane_read(s, b, w, l, lets) {
            Err(e) => lanes_from(s, i, l, lets) == Err::<LanesView, _>(e),
            Ok((m, c)) => i < c <= s.len() ==> lanes_from(s, i, l, lets) == lanes_from(
                s,
                c,
                m,
                lets,
            ),
        },
{
    reveal(lane_read);
}

proof fn lemma_lane_ends(s: Seq<char>, c: int)
    requires
        lane_ends(s, c),
    ensures
        skip_ws(s, c) < s.len() ==> s[skip_ws(s, c)] == '#',
        c <= skip_ws(s, c) <= s.len(),
{
    if c < s.len() {
        reveal_strlit(" #");
        assert(s[c + 0] == " #"@[0]);
        assert(s[c + 1] == " #"@[1]);
        assert(skip_ws(s, c + 1) == c + 1);
        assert(skip_ws(s, c) == c + 1);
    } else {
        assert(skip_ws(s, c) == c);
    }
}

#[verifier::spinoff_prover]
#[verifier::rlimit(50)]
proof fn lemma_lane_at(
    s: Seq<char>,
    b: int,
    n: LaneName,
    body: Seq<char>,
    l: LanesView,
    lets: Map<Seq<char>, Seq<char>>,
)
    requires
        stands(s, b, quoted_text(body)),
        unquoted(body),
        lane_ends(s, b + quoted_text(body).len()),
    ensures
        match pattern(expanded(body, lets)) {
            Err(e) => lane_read(s, b, lane_word(n), l, lets) == Err::<(LanesView, int), _>(e),
            Ok(p) => if lane_of(l, n) is Some {
                lane_read(s, b, lane_word(n), l, lets) is Err
            } else {
                lane_read(s, b, lane_word(n), l, lets) == Ok::<(LanesView, int), Seq<char>>(
                    (lane_set(l, n, p), b + quoted_text(body).len()),
                )
            },
        },
{
    reveal(lane_read);
    lemma_lane_words_differ(n);
    let c = b + quoted_text(body).len();
    lemma_lane_pattern(s, b, body, lane_label(n), lets);
    lemma_lane_ends(s, c);
}

/// What a lane is called in complaints.
spec fn lane_label(n: LaneName) -> Seq<char> {
    match n {
        LaneName::Duration => "dur"@,
        _ => lane_word(n),
    }
}

/// A lane is read as it is written: `# gain "0.5 1"` gives the track that lane, with the pattern that
/// its text says. A lane may be given only once.
#[verifier::rlimit(30)]
pub proof fn lanes_are_read_as_they_are_written(
    s: Seq<char>,
    i: int,
    n: LaneName,
    body: Seq<char>,
    l: LanesView,
    lets: Map<Seq<char>, Seq<char>>,
)
    requires
        stands(s, i, lane_text(n, body)),
        unquoted(body),
        lane_ends(s, i + lane_text(n, body).len()),
    ensures
        match pattern(expanded(body, lets)) {
            Err(e) => lanes_from(s, i, l, lets) == Err::<LanesView, _>(e),
            Ok(p) => if lane_of(l, n) is Some {
                lanes_from(s, i, l, lets) is Err
            } else {
                lanes_from(s, i, l, lets) == lanes_from(
                    s,
                    i + lane_text(n, body).len(),
                    lane_set(l, n, p),
                    lets,
                )
            },
        },
        lanes_from(s, s.len() as int, l, lets) == Ok::<LanesView, Seq<char>>(l),
{
    reveal_strlit(" # ");
    let w = lane_word(n);
    lemma_lane_word(n);
    lemma_stands_add(s, i, " # "@ + w, quoted_text(body));
    lemma_stands_add(s, i, " # "@, w);
    assert(s[i + 0] == " # "@[0]);
    assert(s[i + 1] == " # "@[1]);
    assert(s[i + 2] == " # "@[2]);
    assert(skip_ws(s, i + 1) == i + 1);
    assert(skip_ws(s, i) == i + 1);
    let b = i + 3 + w.len();
    lemma_quoted(s, b, body, seq![]);
    lemma_word(s, i + 3, w);
    lemma_lane_at(s, b, n, body, l, lets);
    lemma_lanes_step(s, i, i + 1, w, b, l, lets);
    lemma_no_more_lanes(s, l, lets);
}

proof fn lemma_no_more_lanes(s: Seq<char>, l: LanesView, lets: Map<Seq<char>, Seq<char>>)
    ensures
        lanes_from(s, s.len() as int, l, lets) == Ok::<LanesView, Seq<char>>(l),
{
    assert(skip_ws(s, s.len() as int) == s.len());
}

#[verifier::rlimit(30)]
proof fn lemma_cut_at(
    s: Seq<char>,
    b: int,
    body: Seq<char>,
    voices: Seq<char>,
    l: LanesView,
    lets: Map<Seq<char>, Seq<char>>,
)
    requires
        stands(s, b, quoted_text(body)),
        stands(s, b + quoted_text(body).len(), quoted_text(voices)),
        unquoted(body),
        unquoted(voices),
        l.cut_group is None,
        pattern(expanded(body, lets)) is Ok,
        pattern(expanded(voices, lets)) is Ok,
    ensures
        lane_read(s, b, "cut"@, l, lets) == Ok::<(LanesView, int), Seq<char>>(
            (
                LanesView {
                    cut_group: Some(pattern(expanded(body, lets))->Ok_0),
                    cut_voices: Some(pattern(expanded(voices, lets))->Ok_0),
                    ..l
                },
                b + quoted_text(body).len() + quoted_text(voices).len(),
            ),
        ),
{
    reveal(lane_read);
    lemma_lane_words_differ(LaneName::Cut);
    let c = b + quoted_text(body).len();
    lemma_lane_pattern(s, b, body, "cut"@, lets);
    lemma_quoted(s, c, voices, seq![]);
    lemma_lane_pattern(s, c, voices, "cut voices"@, lets);
}

/// `# cut "1" "2"` gives the groups and how many voices they may hold.
pub proof fn cut_lanes_may_say_their_voices(
    s: Seq<char>,
    i: int,
    body: Seq<char>,
    voices: Seq<char>,
    l: LanesView,
    lets: Map<Seq<char>, Seq<char>>,
)
    requires
        stands(s, i, " # cut"@ + quoted_text(body) + quoted_text(voices)),
        unquoted(body),
        unquoted(voices),
        l.cut_group is None,
        pattern(expanded(body, lets)) is Ok,
        pattern(expanded(voices, lets)) is Ok,
    ensures
        lanes_from(s, i, l, lets) == lanes_from(
            s,
            i + (" # cut"@ + quoted_text(body) + quoted_text(voices)).len(),
            LanesView {
                cut_group: Some(pattern(expanded(body, lets))->Ok_0),
                cut_voices: Some(pattern(expanded(voices, lets))->Ok_0),
                ..l
            },
            lets,
        ),
{
    lemma_cut_stands(s, i, body, voices);
    let b = i + 6;
    lemma_cut_at(s, b, body, voices, l, lets);
    lemma_lanes_step(s, i, i + 1, "cut"@, b, l, lets);
}

proof fn lemma_cut_stands(s: Seq<char>, i: int, body: Seq<char>, voices: Seq<char>)
    requires
        stands(s, i, " # cut"@ + quoted_text(body) + quoted_text(voices)),
        unquoted(body),
        unquoted(voices),
    ensures
        i >= 0,
        skip_ws(s, i) == i + 1,
        i + 1 < s.len(),
        s[i + 1] == '#',
        word_at(s, i + 2) == Some(("cut"@, i + 6)),
        stands(s, i + 6, quoted_text(body)),
        stands(s, i + 6 + quoted_text(body).len(), quoted_text(voices)),
        (" # cut"@ + quoted_text(body) + quoted_text(voices)).len() == 6 + quoted_text(body).len()
            + quoted_text(voices).len(),
{
    reveal_strlit(" # cut");
    lemma_lane_words();
    lemma_lane_word(LaneName::Cut);
    reveal_strlit("cut");
    let w = "cut"@;
    lemma_stands_add(s, i, " # cut"@ + quoted_text(body), quoted_text(voices));
    lemma_stands_add(s, i, " # cut"@, quoted_text(body));
    assert(s[i + 0] == " # cut"@[0]);
    assert(s[i + 1] == " # cut"@[1]);
    assert(s[i + 2] == " # cut"@[2]);
    assert(skip_ws(s, i + 1) == i + 1);
    assert(skip_ws(s, i) == i + 1);
    assert(stands(s, i + 3, w)) by {
        assert forall|k: int| 0 <= k < w.len() implies s[i + 3 + k] == #[trigger] w[k] by {
            assert(s[i + (3 + k)] == " # cut"@[3 + k]);
        }
    }
    let b = i + 6;
    lemma_quoted(s, b, body, seq![]);
    lemma_word(s, i + 3, w);
}

/// A sound is read as it is written: `s "bd sn"` is the pattern in quotes, with what is bound to its
/// names in place of them, and the lanes that follow it.
pub proof fn sounds_are_read_as_they_are_written(
    s: Seq<char>,
    i: int,
    body: Seq<char>,
    lets: Map<Seq<char>, Seq<char>>,
)
    requires
        stands(s, i, "s"@ + quoted_text(body)),
        unquoted(body),
    ensures
        ({
            let j = i + 1 + quoted_text(body).len();
            let r = match lanes_from(s, j, no_lanes(), lets) {
                Err(e) => Err(e),
                Ok(lanes) => Ok(
                    SoundView {
                        tempo: None,
                        transforms: seq![],
                        inner: expanded(body, lets),
                        lanes,
                    },
                ),
            };
            &&& sound_clause(s, i, lets) == r
            &&& i > 0 && is_ws(s[i - 1]) ==> sound_clause(s, i - 1, lets) == r
        }),
        no_lanes() == (LanesView {
            gain: None,
            pan: None,
            prob: None,
            dur: None,
            legato: None,
            cut_group: None,
            cut_voices: None,
            cutoff: None,
        }),
{
    lemma_link_words();
    lemma_stands_add(s, i, "s"@, quoted_text(body));
    lemma_quoted(s, i + 1, body, "pattern"@);
    lemma_word(s, i, "s"@);
}

} // verus!
