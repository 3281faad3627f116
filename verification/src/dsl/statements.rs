//! What the statements of a pattern file do.

use vstd::prelude::*;

use crate::banks::CatalogView;
use crate::dsl::lines::{is_directive, normalized, orbit_prefix};
use crate::dsl::program::{line_step, names_step, settings_step, statement_step, DraftView};
use crate::dsl::sample::raw_sample;
use crate::dsl::writing::{lemma_decimal_word, lemma_stands_add, stands};
use crate::dsl::ProgramView;
use crate::number::{reading, unsigned, Precision, ReadingView};
use crate::pat::notation::decimals_stand_for_their_number;
use crate::text::{
    back_space, decimal, is_space, lower, same_word, skip_space, token_end, trim, trim_end,
    trim_start, words, words_from,
};

verus! {

// ---------------------------------------------------------------------------------------------
// Words
// ---------------------------------------------------------------------------------------------

/// A word: no whitespace in it.
pub open spec fn is_plain(w: Seq<char>) -> bool {
    w.len() > 0 && forall|i: int| 0 <= i < w.len() ==> !is_space(#[trigger] w[i])
}

proof fn lemma_token_end(s: Seq<char>, i: int, j: int)
    requires
        0 <= i <= j <= s.len(),
        forall|k: int| i <= k < j ==> !is_space(#[trigger] s[k]),
        j == s.len() || is_space(s[j]),
    ensures
        token_end(s, i) == j,
    decreases j - i,
{
    if i < j {
        assert(!is_space(s[i]));
        lemma_token_end(s, i + 1, j);
    }
}

pub proof fn lemma_words_step(s: Seq<char>, i: int, w: Seq<char>)
    requires
        stands(s, i, w),
        is_plain(w),
        i + w.len() == s.len() || is_space(s[i + w.len()]),
    ensures
        words_from(s, i) == seq![w] + words_from(s, i + w.len()),
        i > 0 && is_space(s[i - 1]) ==> words_from(s, i - 1) == seq![w] + words_from(
            s,
            i + w.len(),
        ),
{
    let j = i + w.len();
    assert(s[i + 0] == w[0]);
    assert(!is_space(w[0]));
    assert(skip_space(s, i) == i);
    assert forall|k: int| i <= k < j implies !is_space(#[trigger] s[k]) by {
        assert(s[i + (k - i)] == w[k - i]);
    }
    lemma_token_end(s, i, j);
    assert(s.subrange(i, j) =~= w);
    if i > 0 && is_space(s[i - 1]) {
        assert(skip_space(s, i - 1) == i);
    }
}

/// Two words and a space between them are two words.
pub proof fn lemma_two_words(a: Seq<char>, b: Seq<char>)
    requires
        is_plain(a),
        is_plain(b),
    ensures
        words(a + " "@ + b) == seq![a, b],
        trim(a + " "@ + b) == a + " "@ + b,
        trim_start(a + " "@ + b) == a + " "@ + b,
{
    reveal_strlit(" ");
    let s = a + " "@ + b;
    assert(stands(s, 0, a)) by {
        assert forall|k: int| 0 <= k < a.len() implies s[0 + k] == #[trigger] a[k] by {}
    }
    assert(stands(s, a.len() as int + 1, b)) by {
        assert forall|k: int| 0 <= k < b.len() implies s[a.len() as int + 1 + k]
            == #[trigger] b[k] by {}
    }
    assert(s[a.len() as int] == ' ');
    lemma_words_step(s, 0, a);
    lemma_words_step(s, a.len() as int + 1, b);
    assert(words_from(s, s.len() as int) =~= seq![]) by {
        assert(skip_space(s, s.len() as int) == s.len());
        assert(token_end(s, s.len() as int) == s.len());
    }
    assert(seq![a] + (seq![b] + Seq::<Seq<char>>::empty()) =~= seq![a, b]);
    lemma_trimmed(s);
}

/// Three words and spaces between them are three words.
pub proof fn lemma_three_words(a: Seq<char>, b: Seq<char>, c: Seq<char>)
    requires
        is_plain(a),
        is_plain(b),
        is_plain(c),
    ensures
        words(a + " "@ + b + " "@ + c) == seq![a, b, c],
        trim(a + " "@ + b + " "@ + c) == a + " "@ + b + " "@ + c,
        trim_start(a + " "@ + b + " "@ + c) == a + " "@ + b + " "@ + c,
{
    reveal_strlit(" ");
    let s = a + " "@ + b + " "@ + c;
    let i = a.len() as int + 1;
    let j = i + b.len() + 1;
    assert(stands(s, 0, a)) by {
        assert forall|k: int| 0 <= k < a.len() implies s[0 + k] == #[trigger] a[k] by {}
    }
    assert(stands(s, i, b)) by {
        assert forall|k: int| 0 <= k < b.len() implies s[i + k] == #[trigger] b[k] by {}
    }
    assert(stands(s, j, c)) by {
        assert forall|k: int| 0 <= k < c.len() implies s[j + k] == #[trigger] c[k] by {}
    }
    assert(s[i - 1] == ' ');
    assert(s[j - 1] == ' ');
    lemma_words_step(s, 0, a);
    lemma_words_step(s, i, b);
    lemma_words_step(s, j, c);
    assert(words_from(s, s.len() as int) =~= seq![]) by {
        assert(skip_space(s, s.len() as int) == s.len());
        assert(token_end(s, s.len() as int) == s.len());
    }
    assert(seq![a] + (seq![b] + (seq![c] + Seq::<Seq<char>>::empty())) =~= seq![a, b, c]);
    lemma_trimmed(s);
}

/// A text with no whitespace at its ends is trimmed.
pub proof fn lemma_trimmed(s: Seq<char>)
    requires
        s.len() > 0,
        !is_space(s[0]),
        !is_space(s.last()),
    ensures
        trim(s) == s,
        trim_start(s) == s,
{
    assert(skip_space(s, 0) == 0);
    assert(s.subrange(0, s.len() as int) =~= s);
    assert(back_space(s, s.len() as int) == s.len());
    assert(trim_end(s) =~= s);
}

// ---------------------------------------------------------------------------------------------
// Directives
// ---------------------------------------------------------------------------------------------

proof fn lemma_directive_words()
    ensures
        "let"@.len() == 3 && "let"@[0] == 'l',
        "bpm"@.len() == 3 && "bpm"@[0] == 'b',
        "master"@.len() == 6 && "master"@[0] == 'm',
        "swing"@.len() == 5 && "swing"@[0] == 's',
        "humanize_ms"@.len() == 11 && "humanize_ms"@[0] == 'h',
        "humanize"@.len() == 8 && "humanize"@[0] == 'h',
        "reload_quantum_cycles"@.len() == 21 && "reload_quantum_cycles"@[0] == 'r',
        "quantum"@.len() == 7 && "quantum"@[0] == 'q',
        "alias"@.len() == 5 && "alias"@[0] == 'a',
        "silence"@.len() == 7 && "silence"@[0] == 's',
        "mute"@.len() == 4 && "mute"@[0] == 'm',
        "unsilence"@.len() == 9 && "unsilence"@[0] == 'u',
        "solo"@.len() == 4 && "solo"@[0] == 's',
        "track"@.len() == 5 && "track"@[0] == 't',
{
    reveal_strlit("let");
    reveal_strlit("bpm");
    reveal_strlit("master");
    reveal_strlit("swing");
    reveal_strlit("humanize_ms");
    reveal_strlit("humanize");
    reveal_strlit("reload_quantum_cycles");
    reveal_strlit("quantum");
    reveal_strlit("alias");
    reveal_strlit("silence");
    reveal_strlit("mute");
    reveal_strlit("unsilence");
    reveal_strlit("solo");
    reveal_strlit("track");
}

/// The word of a directive.
pub enum Directive {
    Bpm,
    Master,
    Swing,
    HumanizeMs,
    Humanize,
    ReloadQuantumCycles,
    Quantum,
    Alias,
    Silence,
    Mute,
    Unsilence,
    Solo,
}

pub open spec fn directive_word(w: Directive) -> Seq<char> {
    match w {
        Directive::Bpm => "bpm"@,
        Directive::Master => "master"@,
        Directive::Swing => "swing"@,
        Directive::HumanizeMs => "humanize_ms"@,
        Directive::Humanize => "humanize"@,
        Directive::ReloadQuantumCycles => "reload_quantum_cycles"@,
        Directive::Quantum => "quantum"@,
        Directive::Alias => "alias"@,
        Directive::Silence => "silence"@,
        Directive::Mute => "mute"@,
        Directive::Unsilence => "unsilence"@,
        Directive::Solo => "solo"@,
    }
}

proof fn lemma_directive_plain(w: Directive)
    ensures
        is_plain(directive_word(w)),
        directive_word(w)[0] != 'd',
        directive_word(w)[0] != 'D',
{
    reveal_strlit("bpm");
    reveal_strlit("master");
    reveal_strlit("swing");
    reveal_strlit("humanize_ms");
    reveal_strlit("humanize");
    reveal_strlit("reload_quantum_cycles");
    reveal_strlit("quantum");
    reveal_strlit("alias");
    reveal_strlit("silence");
    reveal_strlit("mute");
    reveal_strlit("unsilence");
    reveal_strlit("solo");
    let t = directive_word(w);
    assert forall|i: int| 0 <= i < t.len() implies !is_space(#[trigger] t[i]) by {}
}

proof fn lemma_which_directive(w: Directive)
    ensures
        ({
            let t = directive_word(w);
            &&& same_word(t, "bpm"@) == (w is Bpm)
            &&& same_word(t, "master"@) == (w is Master)
            &&& same_word(t, "swing"@) == (w is Swing)
            &&& same_word(t, "humanize_ms"@) == (w is HumanizeMs)
            &&& same_word(t, "humanize"@) == (w is Humanize)
            &&& same_word(t, "reload_quantum_cycles"@) == (w is ReloadQuantumCycles)
            &&& same_word(t, "quantum"@) == (w is Quantum)
            &&& same_word(t, "alias"@) == (w is Alias)
            &&& same_word(t, "silence"@) == (w is Silence)
            &&& same_word(t, "mute"@) == (w is Mute)
            &&& same_word(t, "unsilence"@) == (w is Unsilence)
            &&& same_word(t, "solo"@) == (w is Solo)
            &&& !same_word(t, "let"@)
            &&& !same_word(t, "track"@)
        }),
{
    lemma_directive_words();
    let t = directive_word(w);
    assert(t.len() > 0 && lower(t[0]) == lower(directive_word(w)[0]));
}

/// A statement that begins with the word of a directive is that directive.
proof fn lemma_directive(d: DraftView, n: int, text: Seq<char>, w: Directive, c: CatalogView)
    requires
        text.len() > 0,
        trim(text) == text,
        trim_start(text) == text,
        words(text).len() > 0,
        words(text)[0] == directive_word(w),
        text[0] == directive_word(w)[0],
    ensures
        statement_step(d, n, text, c) == match settings_step(d, words(text)) {
            Some(r) => r,
            None => match names_step(d, words(text), c) {
                Some(r) => r,
                None => arbitrary(),
            },
        },
{
    reveal(statement_step);
    lemma_which_directive(w);
    lemma_directive_plain(w);
    assert(orbit_prefix(text) == (None::<Seq<char>>, text));
    assert(is_directive(words(text)[0]));
    assert(normalized(text) == text);
}

/// `bpm 120` sets the beats per minute, from 1 to 400.
pub proof fn bpm_is_set(d: DraftView, n: int, k: nat, c: CatalogView)
    requires
        k <= u32::MAX,
    ensures
        1 <= k <= 400 ==> statement_step(d, n, "bpm"@ + " "@ + decimal(k), c) == Ok::<
            DraftView,
            Seq<char>,
        >(DraftView { program: ProgramView { bpm: k as u32, ..d.program }, ..d }),
        k < 1 || k > 400 ==> statement_step(d, n, "bpm"@ + " "@ + decimal(k), c) is Err,
{
    lemma_directive_plain(Directive::Bpm);
    lemma_decimal_plain(k);
    lemma_decimal_word(k);
    lemma_two_words("bpm"@, decimal(k));
    let text = "bpm"@ + " "@ + decimal(k);
    assert(text[0] == "bpm"@[0]);
    lemma_directive(d, n, text, Directive::Bpm, c);
    lemma_which_directive(Directive::Bpm);
}

proof fn lemma_decimal_plain(k: nat)
    ensures
        is_plain(decimal(k)),
{
    decimals_stand_for_their_number(k);
    let t = decimal(k);
    assert forall|i: int| 0 <= i < t.len() implies !is_space(#[trigger] t[i]) by {
        assert('0' <= t[i] <= '9');
    }
}

/// `quantum 4` and `reload_quantum_cycles 4` say on which cycles a reload takes effect.
pub proof fn quantum_is_set(d: DraftView, n: int, k: nat, c: CatalogView)
    requires
        k <= u64::MAX,
    ensures
        k >= 1 ==> {
            let r = Ok::<DraftView, Seq<char>>(
                DraftView {
                    program: ProgramView { reload_quantum_cycles: Some(k as u64), ..d.program },
                    ..d
                },
            );
            &&& statement_step(d, n, "quantum"@ + " "@ + decimal(k), c) == r
            &&& statement_step(d, n, "reload_quantum_cycles"@ + " "@ + decimal(k), c) == r
        },
        k < 1 ==> statement_step(d, n, "quantum"@ + " "@ + decimal(k), c) is Err && statement_step(
            d,
            n,
            "reload_quantum_cycles"@ + " "@ + decimal(k),
            c,
        ) is Err,
{
    lemma_decimal_plain(k);
    lemma_decimal_word(k);
    lemma_directive_plain(Directive::Quantum);
    lemma_two_words("quantum"@, decimal(k));
    let a = "quantum"@ + " "@ + decimal(k);
    assert(a[0] == "quantum"@[0]);
    lemma_directive(d, n, a, Directive::Quantum, c);
    lemma_which_directive(Directive::Quantum);
    lemma_directive_plain(Directive::ReloadQuantumCycles);
    lemma_two_words("reload_quantum_cycles"@, decimal(k));
    let b = "reload_quantum_cycles"@ + " "@ + decimal(k);
    assert(b[0] == "reload_quantum_cycles"@[0]);
    lemma_directive(d, n, b, Directive::ReloadQuantumCycles, c);
    lemma_which_directive(Directive::ReloadQuantumCycles);
}

proof fn lemma_word_directive(d: DraftView, n: int, w: Directive, a: Seq<char>, c: CatalogView)
    requires
        is_plain(a),
    ensures
        ({
            let text = directive_word(w) + " "@ + a;
            let ws = seq![directive_word(w), a];
            &&& words(text) == ws
            &&& statement_step(d, n, text, c) == match settings_step(d, ws) {
                Some(r) => r,
                None => match names_step(d, ws, c) {
                    Some(r) => r,
                    None => arbitrary(),
                },
            }
        }),
{
    lemma_directive_plain(w);
    lemma_two_words(directive_word(w), a);
    let text = directive_word(w) + " "@ + a;
    assert(text[0] == directive_word(w)[0]);
    lemma_directive(d, n, text, w, c);
}

/// `silence d1` and `mute d1` silence a track, `unsilence d1` takes that back, `mute all` silences
/// everything, and `solo d1` lets only soloed tracks sound.
pub proof fn names_are_silenced_and_soloed(d: DraftView, n: int, name: Seq<char>, c: CatalogView)
    requires
        is_plain(name),
    ensures
        ({
            let p = d.program;
            let with = |q: ProgramView| Ok::<DraftView, Seq<char>>(DraftView { program: q, ..d });
            &&& statement_step(d, n, "silence"@ + " "@ + name, c) == with(
                ProgramView { silenced: p.silenced.insert(name), ..p },
            )
            &&& statement_step(d, n, "unsilence"@ + " "@ + name, c) == with(
                ProgramView { silenced: p.silenced.remove(name), ..p },
            )
            &&& statement_step(d, n, "solo"@ + " "@ + name, c) == with(
                ProgramView { soloed: p.soloed.insert(name), ..p },
            )
            &&& !same_word(name, "all"@) ==> statement_step(d, n, "mute"@ + " "@ + name, c) == with(
                ProgramView { silenced: p.silenced.insert(name), ..p },
            )
            &&& same_word(name, "all"@) ==> statement_step(d, n, "mute"@ + " "@ + name, c) == with(
                ProgramView { mute_all: true, ..p },
            )
        }),
{
    lemma_word_directive(d, n, Directive::Silence, name, c);
    lemma_word_directive(d, n, Directive::Unsilence, name, c);
    lemma_word_directive(d, n, Directive::Solo, name, c);
    lemma_word_directive(d, n, Directive::Mute, name, c);
    lemma_which_directive(Directive::Silence);
    lemma_which_directive(Directive::Unsilence);
    lemma_which_directive(Directive::Solo);
    lemma_which_directive(Directive::Mute);
}

/// `master`, `swing`, `humanize` and `humanize_ms` take a number that is not negative; swing goes up
/// to one. Gains are read at single precision, the others at double.
pub proof fn numbers_are_set(d: DraftView, n: int, w: Seq<char>, c: CatalogView)
    requires
        is_plain(w),
    ensures
        ({
            let p = d.program;
            let with = |q: ProgramView| Ok::<DraftView, Seq<char>>(DraftView { program: q, ..d });
            let single = reading(w, Precision::Single);
            let double = reading(w, Precision::Double);
            let master = statement_step(d, n, "master"@ + " "@ + w, c);
            let swing = statement_step(d, n, "swing"@ + " "@ + w, c);
            let humanize = statement_step(d, n, "humanize"@ + " "@ + w, c);
            let humanize_ms = statement_step(d, n, "humanize_ms"@ + " "@ + w, c);
            &&& match single {
                ReadingView::Finite(x) => if x >= 0real {
                    master == with(ProgramView { master_gain: x, ..p })
                } else {
                    master is Err
                },
                _ => master is Err,
            }
            &&& match double {
                ReadingView::Finite(x) => {
                    &&& if 0real <= x <= 1real {
                        swing == with(ProgramView { swing: Some(x), ..p })
                    } else {
                        swing is Err
                    }
                    &&& if x >= 0real {
                        humanize == with(ProgramView { humanize_ms: Some(x), ..p }) && humanize_ms
                            == humanize
                    } else {
                        humanize is Err && humanize_ms is Err
                    }
                },
                _ => swing is Err && humanize is Err && humanize_ms is Err,
            }
        }),
{
    lemma_word_directive(d, n, Directive::Master, w, c);
    lemma_word_directive(d, n, Directive::Swing, w, c);
    lemma_word_directive(d, n, Directive::Humanize, w, c);
    lemma_word_directive(d, n, Directive::HumanizeMs, w, c);
    lemma_which_directive(Directive::Master);
    lemma_which_directive(Directive::Swing);
    lemma_which_directive(Directive::Humanize);
    lemma_which_directive(Directive::HumanizeMs);
}

/// `alias kick bd:1` lets a name stand for a sample.
pub proof fn aliases_are_set(
    d: DraftView,
    n: int,
    name: Seq<char>,
    token: Seq<char>,
    c: CatalogView,
)
    requires
        is_plain(name),
        is_plain(token),
    ensures
        statement_step(d, n, "alias"@ + " "@ + name + " "@ + token, c) == Ok::<
            DraftView,
            Seq<char>,
        >(
            DraftView {
                program: ProgramView {
                    aliases: d.program.aliases.insert(name, raw_sample(token, c)),
                    ..d.program
                },
                ..d
            },
        ),
{
    lemma_directive_plain(Directive::Alias);
    lemma_three_words("alias"@, name, token);
    let text = "alias"@ + " "@ + name + " "@ + token;
    assert(text[0] == "alias"@[0]);
    lemma_directive(d, n, text, Directive::Alias, c);
    lemma_which_directive(Directive::Alias);
}

} // verus!
