//! How tracks are written: an orbit, a gain, and a sound.

use vstd::prelude::*;

use crate::banks::CatalogView;
use crate::dsl::lines::{begins_sound, is_directive, needs_track, normalized, orbit_prefix};
use crate::dsl::program::{line_step, placed, statement_step, DraftView};
use crate::dsl::sound::{sound_clause, word_at, Link, PrefixTransform};
use crate::dsl::statements::{is_plain, lemma_trimmed, lemma_words_step};
use crate::dsl::track::{gain_clause, track_line, wrapped};
use crate::dsl::writing::{
    integer_text, lemma_decimal_word, lemma_stands_add, lemma_word, link_text, link_valid,
    quoted_text, stands, unbroken,
};
use crate::dsl::{ProgramView, TempoWrap, TrackView};
use crate::number::{reading, unsigned, Precision, ReadingView};
use crate::pat::notation::decimals_stand_for_their_number;
use crate::pat::parse::pattern;
use crate::text::{
    all_digits, decimal, digits_end, is_digit, is_space, is_ws, lower, same_word, skip_space,
    skip_ws, trim, trim_start, words, words_from,
};

verus! {

/// How a sound begins: with a link of its chain, or with `s` itself.
pub enum Opening {
    Chain(Link),
    Sound(Seq<char>),
}

/// The text that opens a sound.
#[verifier::opaque]
pub open spec fn opening_text(o: Opening) -> Seq<char> {
    match o {
        Opening::Chain(l) => link_text(l) + " "@,
        Opening::Sound(body) => "s"@ + quoted_text(body),
    }
}

pub open spec fn opening_valid(o: Opening) -> bool {
    match o {
        Opening::Chain(l) => link_valid(l),
        Opening::Sound(_) => true,
    }
}

/// The first word of the text that opens a sound.
spec fn opening_word(o: Opening) -> Seq<char> {
    match o {
        Opening::Chain(Link::Tempo(TempoWrap::Slow(_))) => "slow"@,
        Opening::Chain(Link::Tempo(TempoWrap::Fast(_))) => "fast"@,
        Opening::Chain(Link::Transform(PrefixTransform::Rev)) => "rev"@,
        Opening::Chain(Link::Transform(PrefixTransform::Pal)) => "pal"@,
        Opening::Chain(Link::Transform(PrefixTransform::Rot(_))) => "rot"@,
        Opening::Chain(Link::Transform(_)) => "every"@,
        _ => "s"@,
    }
}

proof fn lemma_sound_words()
    ensures
        "slow"@ == seq!['s', 'l', 'o', 'w'],
        "fast"@ == seq!['f', 'a', 's', 't'],
        "rev"@ == seq!['r', 'e', 'v'],
        "pal"@ == seq!['p', 'a', 'l'],
        "rot"@ == seq!['r', 'o', 't'],
        "every"@ == seq!['e', 'v', 'e', 'r', 'y'],
        "s"@ == seq!['s'],
        "gain"@ == seq!['g', 'a', 'i', 'n'],
        "track"@ == seq!['t', 'r', 'a', 'c', 'k'],
{
    reveal_strlit("slow");
    reveal_strlit("fast");
    reveal_strlit("rev");
    reveal_strlit("pal");
    reveal_strlit("rot");
    reveal_strlit("every");
    reveal_strlit("s");
    reveal_strlit("gain");
    reveal_strlit("track");
    assert("slow"@ =~= seq!['s', 'l', 'o', 'w']);
    assert("fast"@ =~= seq!['f', 'a', 's', 't']);
    assert("rev"@ =~= seq!['r', 'e', 'v']);
    assert("pal"@ =~= seq!['p', 'a', 'l']);
    assert("rot"@ =~= seq!['r', 'o', 't']);
    assert("every"@ =~= seq!['e', 'v', 'e', 'r', 'y']);
    assert("s"@ =~= seq!['s']);
    assert("gain"@ =~= seq!['g', 'a', 'i', 'n']);
    assert("track"@ =~= seq!['t', 'r', 'a', 'c', 'k']);
}

proof fn lemma_opening_word(o: Opening)
    requires
        opening_valid(o),
    ensures
        is_plain(opening_word(o)),
        unbroken(opening_word(o)),
        opening_text(o).len() > opening_word(o).len(),
        opening_text(o).take(opening_word(o).len() as int) == opening_word(o),
        opening_text(o)[opening_word(o).len() as int] == ' ',
        opening_word(o)[0] != 'd',
        opening_word(o)[0] != 'D',
{
    reveal(opening_text);
    lemma_sound_words();
    reveal_strlit("slow ");
    reveal_strlit("fast ");
    reveal_strlit("rev $");
    reveal_strlit("pal $");
    reveal_strlit("rot ");
    reveal_strlit("every ");
    reveal_strlit(" \"");
    let t = opening_text(o);
    let w = opening_word(o);
    assert forall|i: int| 0 <= i < w.len() implies !is_space(#[trigger] w[i]) && !is_ws(w[i]) by {}
    assert(t.take(w.len() as int) =~= w);
}

/// The words that open a track are none of a directive's.
proof fn lemma_no_directive(w: Seq<char>)
    requires
        w == "slow"@ || w == "fast"@ || w == "rev"@ || w == "pal"@ || w == "rot"@ || w == "every"@
            || w == "s"@ || w == "gain"@,
    ensures
        !is_directive(w),
        !same_word(w, "track"@),
        w != "gain"@ ==> !same_word(w, "gain"@),
{
    lemma_sound_words();
    reveal_strlit("let");
    reveal_strlit("bpm");
    reveal_strlit("master");
    reveal_strlit("swing");
    reveal_strlit("humanize_ms");
    reveal_strlit("humanize");
    reveal_strlit("reload_quantum_cycles");
    reveal_strlit("quantum");
    reveal_strlit("include");
    reveal_strlit("alias");
    reveal_strlit("silence");
    reveal_strlit("unsilence");
    reveal_strlit("mute");
    reveal_strlit("solo");
    assert(lower(w[0]) == w[0]);
    if w.len() > 1 {
        assert(lower(w[1]) == w[1]);
    }
    assert("solo"@[1] == 'o');
}

proof fn lemma_first_word(s: Seq<char>, i: int, o: Opening)
    requires
        stands(s, i, opening_text(o)),
        opening_valid(o),
    ensures
        words_from(s, i) == seq![opening_word(o)] + words_from(s, i + opening_word(o).len()),
        i > 0 && is_space(s[i - 1]) ==> words_from(s, i - 1) == words_from(s, i),
        word_at(s, i) == Some((opening_word(o), i + opening_word(o).len())),
        i > 0 && is_ws(s[i - 1]) ==> word_at(s, i - 1) == word_at(s, i),
{
    lemma_opening_word(o);
    let w = opening_word(o);
    let t = opening_text(o);
    assert(stands(s, i, w)) by {
        assert forall|k: int| 0 <= k < w.len() implies s[i + k] == #[trigger] w[k] by {
            assert(t.take(w.len() as int)[k] == t[k]);
        }
    }
    assert(s[i + w.len()] == t[w.len() as int]);
    lemma_words_step(s, i, w);
    lemma_word(s, i, w);
}

/// `slow 2 $` are three words.
proof fn lemma_tempo_words(s: Seq<char>, i: int, w: Seq<char>, n: u32)
    requires
        w == "slow"@ || w == "fast"@,
        stands(s, i, w + " "@ + decimal(n as nat) + " $"@ + " "@),
    ensures
        words_from(s, i).len() > 2,
        words_from(s, i)[0] == w,
        words_from(s, i)[1] == decimal(n as nat),
        words_from(s, i)[2] == seq!['$'],
{
    lemma_sound_words();
    reveal_strlit(" ");
    reveal_strlit(" $");
    let d = decimal(n as nat);
    decimals_stand_for_their_number(n as nat);
    assert(is_plain(d)) by {
        assert forall|k: int| 0 <= k < d.len() implies !is_space(#[trigger] d[k]) by {
            assert('0' <= d[k] <= '9');
        }
    }
    assert(is_plain(w)) by {
        assert forall|k: int| 0 <= k < w.len() implies !is_space(#[trigger] w[k]) by {}
    }
    lemma_stands_add(s, i, w + " "@ + d + " $"@, " "@);
    lemma_stands_add(s, i, w + " "@ + d, " $"@);
    lemma_stands_add(s, i, w + " "@, d);
    lemma_stands_add(s, i, w, " "@);
    let a = i + 5;
    let b = a + d.len();
    assert(s[i + 4 + 0] == " "@[0]);
    assert(s[b + 0] == " $"@[0]);
    assert(s[b + 1] == " $"@[1]);
    assert(s[b + 2 + 0] == " "@[0]);
    lemma_words_step(s, i, w);
    lemma_words_step(s, a, d);
    let e = seq!['$'];
    assert(stands(s, b + 1, e));
    assert(is_plain(e)) by {
        assert forall|k: int| 0 <= k < e.len() implies !is_space(#[trigger] e[k]) by {}
    }
    lemma_words_step(s, b + 1, e);
}

/// A text that opens a sound is one, from whatever word on.
proof fn lemma_begins_sound(s: Seq<char>, i: int, o: Opening)
    requires
        stands(s, i, opening_text(o)),
        opening_valid(o),
    ensures
        begins_sound(words_from(s, i), 0),
        words_from(s, i).len() > 0,
        words_from(s, i)[0] == opening_word(o),
        words_from(s, i)[0].len() > 0,
        is_tempo_opening(o) ==> words_from(s, i).len() > 2 && all_digits(words_from(s, i)[1])
            && unsigned(words_from(s, i)[1], u32::MAX as nat) is Some && words_from(s, i)[2]
            == seq!['$'],
{
    lemma_first_word(s, i, o);
    lemma_opening_word(o);
    lemma_sound_words();
    reveal(opening_text);
    match o {
        Opening::Chain(Link::Tempo(TempoWrap::Slow(n))) => {
            reveal_strlit("slow ");
            reveal_strlit(" ");
            assert("slow "@ =~= "slow"@ + " "@);
            lemma_tempo_words(s, i, "slow"@, n);
            lemma_decimal_word(n as nat);
        },
        Opening::Chain(Link::Tempo(TempoWrap::Fast(n))) => {
            reveal_strlit("fast ");
            reveal_strlit(" ");
            assert("fast "@ =~= "fast"@ + " "@);
            lemma_tempo_words(s, i, "fast"@, n);
            lemma_decimal_word(n as nat);
        },
        _ => {},
    }
}

spec fn is_tempo_opening(o: Opening) -> bool {
    o matches Opening::Chain(l) && l is Tempo
}

/// A sound, behind a gain if there is one.
pub open spec fn gained_text(gain: Option<Seq<char>>, sound: Seq<char>) -> Seq<char> {
    match gain {
        Some(w) => "gain "@ + w + " "@ + sound,
        None => sound,
    }
}

/// The text opens a sound, and does not end in whitespace.
pub open spec fn is_sound_text(t: Seq<char>, o: Opening) -> bool {
    &&& opening_valid(o)
    &&& stands(t, 0, opening_text(o))
    &&& !is_space(t.last())
}

/// The gain is a number.
pub open spec fn is_gain_text(gain: Option<Seq<char>>) -> bool {
    match gain {
        Some(w) => is_plain(w) && reading(w, Precision::Single) !is Malformed,
        None => true,
    }
}

proof fn lemma_shift(s: Seq<char>, i: int, t: Seq<char>, u: Seq<char>)
    requires
        stands(s, i, t),
        stands(t, 0, u),
    ensures
        stands(s, i, u),
{
    assert forall|k: int| 0 <= k < u.len() implies s[i + k] == #[trigger] u[k] by {
        assert(t[0 + k] == u[k]);
        assert(s[i + k] == t[k]);
    }
}

proof fn lemma_needs_track(gain: Option<Seq<char>>, sound: Seq<char>, o: Opening)
    requires
        is_sound_text(sound, o),
        is_gain_text(gain),
    ensures
        ({
            let rest = gained_text(gain, sound);
            &&& needs_track(words(rest))
            &&& words(rest).len() > 0
            &&& !is_directive(words(rest)[0])
            &&& rest.len() > 0
            &&& !is_space(rest[0])
            &&& !is_space(rest.last())
            &&& rest[0] != 'd'
            &&& rest[0] != 'D'
            &&& trim_start(rest) == rest
            &&& trim(rest) == rest
            &&& !same_word(words(rest)[0], "track"@)
        }),
{
    lemma_sound_words();
    lemma_opening_word(o);
    reveal_strlit("gain ");
    reveal_strlit(" ");
    let rest = gained_text(gain, sound);
    assert(sound[0int + 0] == opening_text(o)[0]);
    assert(opening_text(o).take(opening_word(o).len() as int)[0] == opening_text(o)[0]);
    match gain {
        None => {
            lemma_begins_sound(rest, 0, o);
            lemma_no_directive(opening_word(o));
            lemma_trimmed(rest);
        },
        Some(w) => {
            let g = "gain"@;
            let j = 6 + w.len();
            assert(stands(rest, 0, g)) by {
                assert forall|k: int| 0 <= k < g.len() implies rest[0 + k] == #[trigger] g[k] by {}
            }
            assert(stands(rest, 5, w)) by {
                assert forall|k: int| 0 <= k < w.len() implies rest[5 + k] == #[trigger] w[k] by {}
            }
            assert(stands(rest, j as int, sound)) by {
                assert forall|k: int| 0 <= k < sound.len() implies rest[j as int + k]
                    == #[trigger] sound[k] by {}
            }
            assert(rest[4] == ' ' && rest[j as int - 1] == ' ');
            assert(is_plain(g)) by {
                assert forall|k: int| 0 <= k < g.len() implies !is_space(#[trigger] g[k]) by {}
            }
            lemma_words_step(rest, 0, g);
            lemma_words_step(rest, 5, w);
            lemma_shift(rest, j as int, sound, opening_text(o));
            lemma_begins_sound(rest, j as int, o);
            lemma_first_word(rest, j as int, o);
            lemma_no_directive(g);
            let ws = words_from(rest, 0);
            let us = words_from(rest, j as int);
            assert(ws =~= seq![g, w] + us);
            assert(ws[2] == us[0]);
            if is_tempo_opening(o) {
                assert(ws[3] == us[1] && ws[4] == us[2]);
            }
            assert(begins_sound(ws, 2));
            assert(rest.last() == sound.last());
            lemma_trimmed(rest);
        },
    }
}

/// The name of an orbit.
pub open spec fn orbit_name(k: nat) -> Seq<char> {
    "d"@ + decimal(k)
}

proof fn lemma_digits_end(s: Seq<char>, i: int, d: Seq<char>)
    requires
        stands(s, i, d),
        all_digits(d),
        i + d.len() < s.len(),
        !is_digit(s[i + d.len()]),
    ensures
        digits_end(s, i) == i + d.len(),
    decreases d.len(),
{
    if d.len() > 0 {
        assert(s[i + 0] == d[0]);
        let e = d.skip(1);
        assert(stands(s, i + 1, e)) by {
            assert forall|k: int| 0 <= k < e.len() implies s[i + 1 + k] == #[trigger] e[k] by {
                assert(s[i + (k + 1)] == d[k + 1]);
            }
        }
        assert(all_digits(e)) by {
            assert forall|k: int| 0 <= k < e.len() implies is_digit(#[trigger] e[k]) by {
                assert(is_digit(d[k + 1]));
            }
        }
        lemma_digits_end(s, i + 1, e);
    }
}

/// `d3 $` before a sound names its orbit; a sound without it is on `d1`.
proof fn lemma_normalized(k: nat, rest: Seq<char>)
    requires
        needs_track(words(rest)),
        words(rest).len() > 0,
        !is_directive(words(rest)[0]),
        rest.len() > 0,
        !is_space(rest[0]),
        rest[0] != 'd',
        rest[0] != 'D',
        trim_start(rest) == rest,
    ensures
        normalized("d"@ + decimal(k) + " $ "@ + rest) == "track "@ + orbit_name(k) + " "@ + rest,
        normalized(rest) == "track "@ + "d1"@ + " "@ + rest,
{
    reveal_strlit("d");
    reveal_strlit(" $ ");
    let dec = decimal(k);
    decimals_stand_for_their_number(k);
    lemma_decimal_word(k);
    let text = "d"@ + dec + " $ "@ + rest;
    assert(!is_space(text[0]));
    assert(skip_space(text, 0) == 0);
    assert(trim_start(text) =~= text);
    assert(stands(text, 1, dec)) by {
        assert forall|i: int| 0 <= i < dec.len() implies text[1 + i] == #[trigger] dec[i] by {}
    }
    let i = 1 + dec.len();
    assert(text[i as int] == ' ');
    lemma_digits_end(text, 1, dec);
    let after = text.subrange(i as int, text.len() as int);
    assert(after =~= " $ "@ + rest);
    assert(after[0] == ' ' && after[1] == '$');
    assert(skip_space(after, 1) == 1);
    assert(skip_space(after, 0) == 1);
    let b = trim_start(after);
    assert(b =~= after.subrange(1, after.len() as int));
    assert(b[0] == '$');
    let e = b.subrange(1, b.len() as int);
    assert(e[0] == ' ' && e[1] == rest[0]);
    assert(skip_space(e, 1) == 1);
    assert(skip_space(e, 0) == 1);
    assert(trim_start(e) =~= rest);
    assert(seq!['d'] + text.subrange(1, i as int) =~= orbit_name(k));
    assert(orbit_prefix(text) == (Some(orbit_name(k)), rest));
    assert(orbit_prefix(rest) == (None::<Seq<char>>, rest));
}

proof fn lemma_track_head(name: Seq<char>, rest: Seq<char>)
    requires
        unbroken(name),
    ensures
        ({
            let s = "track "@ + name + " "@ + rest;
            let j = 6int + name.len();
            &&& word_at(s, 0) == Some(("track"@, 5int))
            &&& word_at(s, 5) == Some((name, j))
            &&& s.len() == j + 1 + rest.len()
            &&& is_ws(s[j])
            &&& stands(s, j + 1, rest)
        }),
{
    lemma_sound_words();
    reveal_strlit("track ");
    reveal_strlit(" ");
    let s = "track "@ + name + " "@ + rest;
    let t = "track"@;
    assert(stands(s, 0, t)) by {
        assert forall|k: int| 0 <= k < t.len() implies s[0 + k] == #[trigger] t[k] by {}
    }
    assert(stands(s, 6, name)) by {
        assert forall|k: int| 0 <= k < name.len() implies s[6 + k] == #[trigger] name[k] by {}
    }
    let j = 6int + name.len();
    assert(s[5] == ' ' && s[j] == ' ');
    assert(unbroken(t)) by {
        assert forall|k: int| 0 <= k < t.len() implies !is_ws(#[trigger] t[k]) by {}
    }
    lemma_word(s, 0, t);
    lemma_word(s, 6, name);
    assert(stands(s, j + 1, rest)) by {
        assert forall|k: int| 0 <= k < rest.len() implies s[j + 1 + k] == #[trigger] rest[k] by {}
    }
}

#[verifier::opaque]
spec fn gain_at(s: Seq<char>, i: int) -> Result<(real, int), Seq<char>> {
    gain_clause(s, i)
}

/// The gain that a text says, if it says one.
#[verifier::opaque]
spec fn gain_said(w: Seq<char>) -> Option<real> {
    match reading(w, Precision::Single) {
        ReadingView::Finite(x) => if x >= 0real {
            Some(x)
        } else {
            None
        },
        _ => None,
    }
}

proof fn lemma_no_gain(s: Seq<char>, a: int, o: Opening)
    requires
        a > 0,
        is_ws(s[a - 1]),
        stands(s, a, opening_text(o)),
        opening_valid(o),
    ensures
        gain_at(s, a - 1) == Ok::<(real, int), Seq<char>>((1real, a - 1)),
{
    reveal(gain_at);
    lemma_first_word(s, a, o);
    lemma_no_directive(opening_word(o));
    lemma_sound_words();
    assert(opening_word(o) != "gain"@) by {
        if opening_word(o).len() == 4 {
            assert(opening_word(o)[0] != 'g');
        }
    }
}

proof fn lemma_some_gain(s: Seq<char>, a: int, w: Seq<char>)
    requires
        a > 0,
        is_ws(s[a - 1]),
        stands(s, a, "gain "@ + w + " "@),
        is_plain(w),
    ensures
        match gain_said(w) {
            Some(x) => gain_at(s, a - 1) == Ok::<(real, int), Seq<char>>((x, a + 5 + w.len())),
            None => gain_at(s, a - 1) is Err,
        },
{
    reveal(gain_at);
    reveal(gain_said);
    lemma_sound_words();
    reveal_strlit("gain ");
    reveal_strlit(" ");
    let g = "gain"@;
    lemma_stands_add(s, a, "gain "@ + w, " "@);
    lemma_stands_add(s, a, "gain "@, w);
    assert("gain "@ =~= g + " "@);
    lemma_stands_add(s, a, g, " "@);
    assert(s[a + 4 + 0] == " "@[0]);
    assert(s[a + 5 + w.len() + 0] == " "@[0]);
    assert(unbroken(g)) by {
        assert forall|k: int| 0 <= k < g.len() implies !is_ws(#[trigger] g[k]) by {}
    }
    assert(unbroken(w)) by {
        assert forall|k: int| 0 <= k < w.len() implies !is_ws(#[trigger] w[k]) by {
            assert(!is_space(w[k]));
        }
    }
    lemma_word(s, a, g);
    lemma_word(s, a + 5, w);
}

/// The words before the sound in a line that defines a track.
proof fn lemma_track_words(name: Seq<char>, gain: Option<Seq<char>>, sound: Seq<char>, o: Opening)
    requires
        is_sound_text(sound, o),
        gain is Some ==> is_plain(gain->0),
        unbroken(name),
    ensures
        ({
            let s = "track "@ + name + " "@ + gained_text(gain, sound);
            let g = gain_at(s, (6 + name.len()) as int);
            &&& word_at(s, 0) == Some(("track"@, 5int))
            &&& word_at(s, 5) == Some((name, (6 + name.len()) as int))
            &&& match gain {
                None => g == Ok::<(real, int), Seq<char>>((1real, s.len() - sound.len() - 1)),
                Some(w) => match gain_said(w) {
                    Some(x) => g == Ok::<(real, int), Seq<char>>((x, s.len() - sound.len() - 1)),
                    None => g is Err,
                },
            }
        }),
{
    let rest = gained_text(gain, sound);
    lemma_track_head(name, rest);
    let s = "track "@ + name + " "@ + rest;
    let a = 7int + name.len();
    match gain {
        None => {
            lemma_shift(s, a, sound, opening_text(o));
            lemma_no_gain(s, a, o);
        },
        Some(w) => {
            lemma_stands_add(s, a, "gain "@ + w + " "@, sound);
            lemma_some_gain(s, a, w);
            reveal_strlit("gain ");
            reveal_strlit(" ");
        },
    }
}

/// What a line that defines a track says, given where its sound is.
proof fn lemma_track_line(
    name: Seq<char>,
    gain: Option<Seq<char>>,
    sound: Seq<char>,
    o: Opening,
    line: int,
    lets: Map<Seq<char>, Seq<char>>,
)
    requires
        is_sound_text(sound, o),
        is_gain_text(gain),
        unbroken(name),
    ensures
        ({
            let s = "track "@ + name + " "@ + gained_text(gain, sound);
            let j = s.len() - sound.len() - 1;
            let x = match gain {
                None => Some(1real),
                Some(w) => match reading(w, Precision::Single) {
                    ReadingView::Finite(x) => if x >= 0real {
                        Some(x)
                    } else {
                        None
                    },
                    _ => None,
                },
            };
            match x {
                None => track_line(s, line, lets) is Err,
                Some(x) => track_line(s, line, lets) == match sound_clause(s, j, lets) {
                    Err(e) => Err(e),
                    Ok(v) => match pattern(v.inner) {
                        Err(e) => Err(e),
                        Ok(p) => Ok(
                            TrackView {
                                name,
                                gain: x,
                                ast: wrapped(p, v.transforms),
                                lanes: v.lanes,
                                tempo: v.tempo,
                                line,
                            },
                        ),
                    },
                },
            }
        }),
{
    lemma_track_words(name, gain, sound, o);
    lemma_track_word();
    reveal(gain_at);
    reveal(gain_said);
}

/// A track is written as an orbit, `d3 $`, an optional gain, `gain 0.5`, and a sound. A track without
/// an orbit is `d1`. Its pattern is what the sound's text says, behind the transforms of its chain. It
/// takes the place of a track of its name, or comes last.
#[verifier::rlimit(30)]
pub proof fn tracks_are_read_as_they_are_written(
    d: DraftView,
    n: int,
    k: nat,
    gain: Option<Seq<char>>,
    sound: Seq<char>,
    o: Opening,
    c: CatalogView,
)
    requires
        is_sound_text(sound, o),
        is_gain_text(gain),
    ensures
        ({
            let rest = gained_text(gain, sound);
            let read = |name: Seq<char>, text: Seq<char>|
                {
                    let s = "track "@ + name + " "@ + rest;
                    let x = match gain {
                        None => Some(1real),
                        Some(w) => match reading(w, Precision::Single) {
                            ReadingView::Finite(x) => if x >= 0real {
                                Some(x)
                            } else {
                                None
                            },
                            _ => None,
                        },
                    };
                    match x {
                        None => statement_step(d, n, text, c) is Err,
                        Some(x) => statement_step(d, n, text, c) == match sound_clause(
                            s,
                            s.len() - sound.len() - 1,
                            d.lets,
                        ) {
                            Err(e) => Err(e),
                            Ok(v) => match pattern(v.inner) {
                                Err(e) => Err(e),
                                Ok(p) => Ok(
                                    DraftView {
                                        program: ProgramView {
                                            tracks: placed(
                                                d.program.tracks,
                                                TrackView {
                                                    name,
                                                    gain: x,
                                                    ast: wrapped(p, v.transforms),
                                                    lanes: v.lanes,
                                                    tempo: v.tempo,
                                                    line: n,
                                                },
                                            ),
                                            ..d.program
                                        },
                                        ..d
                                    },
                                ),
                            },
                        },
                    }
                };
            &&& read("d"@ + decimal(k), "d"@ + decimal(k) + " $ "@ + rest)
            &&& read("d1"@, rest)
        }),
{
    let rest = gained_text(gain, sound);
    lemma_needs_track(gain, sound, o);
    lemma_normalized(k, rest);
    lemma_orbit_unbroken(k);
    lemma_track_line(orbit_name(k), gain, sound, o, n, d.lets);
    lemma_track_line("d1"@, gain, sound, o, n, d.lets);
    let text = "d"@ + decimal(k) + " $ "@ + rest;
    lemma_orbit_text(k, rest);
    lemma_track_step(d, n, text, orbit_name(k), rest, c);
    lemma_track_step(d, n, rest, "d1"@, rest, c);
}

proof fn lemma_orbit_unbroken(k: nat)
    ensures
        unbroken(orbit_name(k)),
        unbroken("d1"@),
{
    reveal_strlit("d");
    reveal_strlit("d1");
    decimals_stand_for_their_number(k);
    let dec = decimal(k);
    let t = orbit_name(k);
    assert forall|i: int| 0 <= i < t.len() implies !is_ws(#[trigger] t[i]) by {
        if i > 0 {
            assert(t[i] == dec[i - 1]);
        }
    }
    assert forall|i: int| 0 <= i < "d1"@.len() implies !is_ws(#[trigger] "d1"@[i]) by {}
}

proof fn lemma_orbit_text(k: nat, rest: Seq<char>)
    requires
        rest.len() > 0,
        !is_space(rest.last()),
    ensures
        ({
            let text = "d"@ + decimal(k) + " $ "@ + rest;
            &&& trim(text) == text
            &&& text.len() > 0
            &&& words(text).len() > 0
            &&& !same_word(words(text)[0], "track"@)
        }),
{
    reveal_strlit("d");
    reveal_strlit(" $ ");
    lemma_sound_words();
    let dec = decimal(k);
    decimals_stand_for_their_number(k);
    let text = "d"@ + dec + " $ "@ + rest;
    assert(text.last() == rest.last());
    lemma_trimmed(text);
    let w = orbit_name(k);
    assert(is_plain(w)) by {
        assert forall|i: int| 0 <= i < w.len() implies !is_space(#[trigger] w[i]) by {
            if i > 0 {
                assert(w[i] == dec[i - 1]);
            }
        }
    }
    assert(stands(text, 0, w)) by {
        assert forall|i: int| 0 <= i < w.len() implies text[0 + i] == #[trigger] w[i] by {}
    }
    assert(text[w.len() as int] == ' ');
    lemma_words_step(text, 0, w);
    assert(words(text)[0] == w);
    assert(w[0] == 'd');
}

/// A statement that is normalized to a track defines it.
proof fn lemma_track_step(
    d: DraftView,
    n: int,
    text: Seq<char>,
    name: Seq<char>,
    rest: Seq<char>,
    c: CatalogView,
)
    requires
        trim(text) == text,
        text.len() > 0,
        words(text).len() > 0 ==> !same_word(words(text)[0], "track"@),
        normalized(text) == "track "@ + name + " "@ + rest,
    ensures
        statement_step(d, n, text, c) == match track_line(normalized(text), n, d.lets) {
            Err(e) => Err::<DraftView, Seq<char>>(e),
            Ok(t) => Ok(
                DraftView {
                    program: ProgramView { tracks: placed(d.program.tracks, t), ..d.program },
                    ..d
                },
            ),
        },
{
    reveal(statement_step);
    lemma_track_first(name, rest);
    lemma_track_word();
}

proof fn lemma_track_first(name: Seq<char>, rest: Seq<char>)
    ensures
        ({
            let ws = words("track "@ + name + " "@ + rest);
            ws.len() > 0 && ws[0] == "track"@
        }),
{
    lemma_sound_words();
    reveal_strlit("track ");
    let s = "track "@ + name + " "@ + rest;
    let t = "track"@;
    assert(stands(s, 0, t)) by {
        assert forall|k: int| 0 <= k < t.len() implies s[0 + k] == #[trigger] t[k] by {}
    }
    assert(s[5] == ' ');
    assert(is_plain(t)) by {
        assert forall|k: int| 0 <= k < t.len() implies !is_space(#[trigger] t[k]) by {}
    }
    lemma_words_step(s, 0, t);
}

proof fn lemma_track_word()
    ensures
        ({
            let t = "track"@;
            &&& same_word(t, "track"@)
            &&& !same_word(t, "let"@)
            &&& !same_word(t, "bpm"@)
            &&& !same_word(t, "master"@)
            &&& !same_word(t, "swing"@)
            &&& !same_word(t, "humanize_ms"@)
            &&& !same_word(t, "humanize"@)
            &&& !same_word(t, "reload_quantum_cycles"@)
            &&& !same_word(t, "quantum"@)
            &&& !same_word(t, "alias"@)
            &&& !same_word(t, "silence"@)
            &&& !same_word(t, "mute"@)
            &&& !same_word(t, "unsilence"@)
            &&& !same_word(t, "solo"@)
        }),
{
    lemma_sound_words();
    reveal_strlit("let");
    reveal_strlit("bpm");
    reveal_strlit("master");
    reveal_strlit("swing");
    reveal_strlit("humanize_ms");
    reveal_strlit("humanize");
    reveal_strlit("reload_quantum_cycles");
    reveal_strlit("quantum");
    reveal_strlit("alias");
    reveal_strlit("silence");
    reveal_strlit("mute");
    reveal_strlit("unsilence");
    reveal_strlit("solo");
    let t = "track"@;
    assert(lower(t[0]) == 't');
}

} // verus!
