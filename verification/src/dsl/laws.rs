//! What holds of every pattern file.

use vstd::prelude::*;

use crate::audio::voice_fault;
use crate::banks::{known_dir, CatalogView};
use crate::binary::{overflow, Precision};
use crate::dsl::events::{
    audible, duration, events_upto, packed, slice, squeezed, track_events, track_hits, EventView,
};
use crate::dsl::inclusion::{expand_lines, line_view, ExpandedView, FactsView, LineView};
use crate::dsl::lines::{
    balance, comment_start, complete, merge_upto, normalized, open_quotes, statements,
    without_comment,
};
use crate::dsl::program::{
    blank, drafted, line_step, names_step, placed, program_of, settings_step, statement_step,
    track_from, DraftView,
};
use crate::dsl::sample::{may_be_folder, occurs, raw_sample};
use crate::dsl::sound::{
    expanded, expanded_from, ident_end, is_identifier, lane_at, lanes_from, no_lanes, quoted,
    s_clause, word_at,
};
use crate::dsl::track::{gain_clause, lemma_sound_tempo, track_line};
use crate::dsl::{valid_tempo, ErrorView, ProgramView, SpecView, TempoWrap, TrackView};
use crate::number::digits_value;
use crate::pat::eval::{hits, inner_cycle, slots, SlotView};
use crate::pat::lanes::{
    controlled, controlled_hit, lane_table, lane_takes, lane_values, tables, ControlHitView,
    CutGroups, CutVoices, Lane, LanesView,
};
use crate::pat::laws::{hits_lie_within_the_window, lemma_share};
use crate::pat::parse::last_of;
use crate::pat::PatView;
use crate::ratio::lemma_div;
use crate::text::{is_ident, lines, lower, same_word, skip_ws, trim, words};

verus! {

// ---------------------------------------------------------------------------------------------
// Comments
// ---------------------------------------------------------------------------------------------

/// Whether quotes are open after the first `i` characters of a line that begins with them open or
/// not.
pub open spec fn quoted_after(s: Seq<char>, i: int, quoted: bool) -> bool
    decreases i,
{
    if i <= 0 || i > s.len() {
        quoted
    } else if s[i - 1] == '"' {
        !quoted_after(s, i - 1, quoted)
    } else {
        quoted_after(s, i - 1, quoted)
    }
}

proof fn lemma_comment_start(s: Seq<char>, i: int, quoted: bool, first: bool)
    requires
        0 <= i <= s.len(),
        quoted == quoted_after(s, i, first),
    ensures
        ({
            let k = comment_start(s, i, quoted);
            &&& i <= k <= s.len()
            &&& k < s.len() ==> !quoted_after(s, k, first) && k + 1 < s.len() && s[k] == '-' && s[k
                + 1] == '-'
        }),
    decreases s.len() - i,
{
    if i < s.len() {
        if s[i] == '"' {
            lemma_comment_start(s, i + 1, !quoted, first);
        } else if s[i] == '-' && !quoted && i + 1 < s.len() && s[i + 1] == '-' {
        } else {
            lemma_comment_start(s, i + 1, quoted, first);
        }
    }
}

/// A comment is two dashes outside quotes; what stands before it is kept, to the character.
pub proof fn comments_begin_outside_quotes(s: Seq<char>, quoted: bool)
    ensures
        ({
            let k = comment_start(s, 0, quoted);
            &&& 0 <= k <= s.len()
            &&& without_comment(s, quoted) == s.take(k)
            &&& k < s.len() ==> !quoted_after(s, k, quoted) && s[k] == '-' && s[k + 1] == '-'
        }),
{
    lemma_comment_start(s, 0, quoted, quoted);
}

proof fn lemma_comment_cut(s: Seq<char>, i: int, quoted: bool)
    requires
        0 <= i <= comment_start(s, i, quoted) <= s.len(),
    ensures
        comment_start(s.take(comment_start(s, i, quoted)), i, quoted) == comment_start(
            s,
            i,
            quoted,
        ),
    decreases s.len() - i,
{
    let k = comment_start(s, i, quoted);
    let t = s.take(k);
    if i < k {
        assert(t[i] == s[i]);
        if i + 1 < k {
            assert(t[i + 1] == s[i + 1]);
        }
        if s[i] == '"' {
            lemma_comment_bounds(s, i + 1, !quoted);
            lemma_comment_cut(s, i + 1, !quoted);
        } else {
            lemma_comment_bounds(s, i + 1, quoted);
            lemma_comment_cut(s, i + 1, quoted);
        }
    }
}

proof fn lemma_comment_bounds(s: Seq<char>, i: int, quoted: bool)
    requires
        0 <= i <= s.len(),
    ensures
        i <= comment_start(s, i, quoted) <= s.len(),
    decreases s.len() - i,
{
    if i < s.len() {
        if s[i] == '"' {
            lemma_comment_bounds(s, i + 1, !quoted);
        } else {
            lemma_comment_bounds(s, i + 1, quoted);
        }
    }
}

/// A line without its comment has no further comment.
pub proof fn comments_are_cut_once(s: Seq<char>, quoted: bool)
    ensures
        without_comment(without_comment(s, quoted), quoted) == without_comment(s, quoted),
{
    lemma_comment_bounds(s, 0, quoted);
    lemma_comment_cut(s, 0, quoted);
    let t = without_comment(s, quoted);
    assert(t.take(t.len() as int) =~= t);
}

// ---------------------------------------------------------------------------------------------
// Statements
// ---------------------------------------------------------------------------------------------

/// Each of the statements leaves no bracket and no quote open, and says something.
pub open spec fn all_complete(sts: Seq<(int, Seq<char>)>) -> bool {
    forall|i: int|
        0 <= i < sts.len() ==> complete((#[trigger] sts[i]).1) && sts[i].1.len() > 0
}

proof fn lemma_merge_complete(ls: Seq<Seq<char>>, k: nat)
    ensures
        all_complete(merge_upto(ls, k).done),
        merge_upto(ls, k).open.len() > 0 ==> !complete(merge_upto(ls, k).open),
    decreases k,
{
    if k > 0 && k <= ls.len() {
        lemma_merge_complete(ls, (k - 1) as nat);
    }
}

/// Lines are merged until brackets and quotes balance: every statement is balanced, save for the
/// last one where the text ends before it is.
pub proof fn statements_are_balanced(source: Seq<char>)
    ensures
        forall|i: int|
            0 <= i < statements(source).len() - 1 ==> complete((#[trigger] statements(source)[i]).1),
        forall|i: int|
            0 <= i < statements(source).len() ==> (#[trigger] statements(source)[i]).1.len() > 0,
{
    lemma_merge_complete(lines(source), lines(source).len());
}

// ---------------------------------------------------------------------------------------------
// Bindings
// ---------------------------------------------------------------------------------------------

proof fn lemma_ident_end(s: Seq<char>, i: int)
    requires
        0 <= i <= s.len(),
    ensures
        i <= ident_end(s, i) <= s.len(),
    decreases s.len() - i,
{
    if i < s.len() && is_ident(s[i]) {
        lemma_ident_end(s, i + 1);
    }
}

proof fn lemma_expanded_nothing(s: Seq<char>, i: int)
    requires
        0 <= i <= s.len(),
    ensures
        expanded_from(s, i, Map::empty()) == s.subrange(i, s.len() as int),
    decreases s.len() - i,
{
    if i < s.len() {
        lemma_ident_end(s, i + 1);
        let j = ident_end(s, i + 1);
        lemma_expanded_nothing(s, i + 1);
        lemma_expanded_nothing(s, j);
        assert(s.subrange(i, j) + s.subrange(j, s.len() as int) =~= s.subrange(i, s.len() as int));
        assert(seq![s[i]] + s.subrange(i + 1, s.len() as int) =~= s.subrange(i, s.len() as int));
    } else {
        assert(s.subrange(i, s.len() as int) =~= seq![]);
    }
}

/// Without bindings, a text stands for itself.
pub proof fn nothing_bound_changes_nothing(s: Seq<char>)
    ensures
        expanded(s, Map::empty()) == s,
{
    lemma_expanded_nothing(s, 0);
    assert(s.subrange(0, s.len() as int) =~= s);
}

proof fn lemma_name_end(s: Seq<char>, i: int)
    requires
        is_identifier(s),
        0 < i <= s.len(),
    ensures
        ident_end(s, i) == s.len(),
    decreases s.len() - i,
{
    if i < s.len() {
        lemma_name_end(s, i + 1);
    }
}

/// An identifier stands for the text that is bound to it as a whole; one to which nothing is bound
/// stands for itself, whatever is bound to parts of it.
pub proof fn names_stand_for_what_is_bound(name: Seq<char>, lets: Map<Seq<char>, Seq<char>>)
    requires
        is_identifier(name),
    ensures
        lets.contains_key(name) ==> expanded(name, lets) == lets[name],
        !lets.contains_key(name) ==> expanded(name, lets) == name,
{
    lemma_name_end(name, 1);
    let n = name.len() as int;
    assert(name.subrange(0, n) =~= name);
    assert(expanded_from(name, n, lets) =~= seq![]);
    if lets.contains_key(name) {
        assert(lets[name] + expanded_from(name, n, lets) =~= lets[name]);
    } else {
        assert(name + expanded_from(name, n, lets) =~= name);
    }
}

// ---------------------------------------------------------------------------------------------
// Settings
// ---------------------------------------------------------------------------------------------

/// A later line of a directive overrides an earlier one: the earlier one leaves no trace.
pub proof fn later_settings_override(d: DraftView, first: Seq<Seq<char>>, second: Seq<Seq<char>>)
    requires
        same_word(first[0], second[0]),
        settings_step(d, first) is Some && settings_step(d, first)->0 is Ok,
    ensures
        settings_step(settings_step(d, first)->0->Ok_0, second) == settings_step(d, second),
{
    lemma_same_directive(first[0], second[0], "bpm"@);
    lemma_same_directive(first[0], second[0], "master"@);
    lemma_same_directive(first[0], second[0], "swing"@);
    lemma_same_directive(first[0], second[0], "humanize_ms"@);
    lemma_same_directive(first[0], second[0], "humanize"@);
    lemma_same_directive(first[0], second[0], "reload_quantum_cycles"@);
    lemma_same_directive(first[0], second[0], "quantum"@);
}

proof fn lemma_same_directive(a: Seq<char>, b: Seq<char>, word: Seq<char>)
    requires
        same_word(a, b),
    ensures
        same_word(a, word) == same_word(b, word),
{
    if same_word(a, word) {
        assert forall|i: int| 0 <= i < b.len() implies lower(#[trigger] b[i]) == lower(word[i]) by {
            assert(lower(a[i]) == lower(b[i]));
            assert(lower(a[i]) == lower(word[i]));
        }
    }
    if same_word(b, word) {
        assert forall|i: int| 0 <= i < a.len() implies lower(#[trigger] a[i]) == lower(word[i]) by {
            assert(lower(a[i]) == lower(b[i]));
            assert(lower(b[i]) == lower(word[i]));
        }
    }
}

// ---------------------------------------------------------------------------------------------
// Samples
// ---------------------------------------------------------------------------------------------

proof fn lemma_last_colon(token: Seq<char>)
    requires
        !occurs(token, ':'),
    ensures
        last_of(token, ':') == -1,
    decreases token.len(),
{
    if token.len() > 0 {
        let d = token.drop_last();
        assert(!occurs(d, ':')) by {
            if occurs(d, ':') {
                let i = choose|i: int| 0 <= i < d.len() && d[i] == ':';
                assert(token[i] == ':');
            }
        }
        assert(token[token.len() - 1] != ':');
        lemma_last_colon(d);
    }
}

/// The name of a folder stands for the first file in it, as does the name with the index 1.
pub proof fn folders_stand_for_their_first_file(token: Seq<char>, c: CatalogView)
    requires
        may_be_folder(token),
        known_dir(c, token),
    ensures
        raw_sample(token, c) == (SpecView::Bank { bank: token, index: 1 }),
        raw_sample(token + ":1"@, c) == (SpecView::Bank { bank: token, index: 1 }),
{
    reveal_strlit(":1");
    lemma_last_colon(token);
    let long = token + ":1"@;
    let n = token.len() as int;
    assert(long.last() == '1');
    assert(long.drop_last().last() == ':');
    assert(last_of(long, ':') == last_of(long.drop_last(), ':'));
    assert(long.drop_last().len() - 1 == n);
    let right = long.subrange(n + 1, long.len() as int);
    assert(right =~= seq!['1']);
    assert(right.drop_last() =~= seq![]);
    assert(digits_value(right.drop_last()) == 0);
    assert(digits_value(right) == 1);
    assert(long.subrange(0, n) =~= token);
}

// ---------------------------------------------------------------------------------------------
// Names
// ---------------------------------------------------------------------------------------------

/// To silence a track again changes nothing; to unsilence it lets it sound again, whatever was
/// said before. Other tracks stay as they are.
pub proof fn later_lines_win(d: DraftView, name: Seq<char>, c: CatalogView)
    ensures
        ({
            let silence = seq!["silence"@, name];
            let unsilence = seq!["unsilence"@, name];
            let once = names_step(d, silence, c)->0->Ok_0;
            let back = names_step(once, unsilence, c)->0->Ok_0;
            &&& names_step(d, silence, c) is Some && names_step(d, silence, c)->0 is Ok
            &&& once.program.silenced.contains(name)
            &&& names_step(once, silence, c) == Some(Ok::<DraftView, Seq<char>>(once))
            &&& names_step(once, unsilence, c) is Some && names_step(once, unsilence, c)->0 is Ok
            &&& !back.program.silenced.contains(name)
            &&& forall|other: Seq<char>|
                other != name ==> back.program.silenced.contains(other)
                    == d.program.silenced.contains(other)
        }),
{
    reveal_strlit("silence");
    reveal_strlit("unsilence");
    reveal_strlit("alias");
    reveal_strlit("mute");
    let silence = seq!["silence"@, name];
    let unsilence = seq!["unsilence"@, name];
    assert(silence[0] == "silence"@ && silence[1] == name);
    assert(unsilence[0] == "unsilence"@ && unsilence[1] == name);
    let once = names_step(d, silence, c)->0->Ok_0;
    assert(once.program.silenced == d.program.silenced.insert(name));
    let again = names_step(once, silence, c)->0->Ok_0;
    assert(once.program.silenced.insert(name) =~= once.program.silenced);
    assert(again.program =~= once.program);
    assert(again =~= once);
}

/// What a statement says of the name: that it is silenced, that it no longer is, or nothing.
pub open spec fn says_of(text: Seq<char>, name: Seq<char>) -> Option<bool> {
    let ws = words(normalized(trim(text)));
    if trim(text).len() == 0 || ws.len() != 2 || ws[1] != name {
        None
    } else if same_word(ws[0], "silence"@) || same_word(ws[0], "mute"@) {
        Some(true)
    } else if same_word(ws[0], "unsilence"@) {
        Some(false)
    } else {
        None
    }
}

/// What each statement says of the name.
pub open spec fn said_of(sts: Seq<(int, Seq<char>)>, name: Seq<char>) -> Seq<Option<bool>> {
    Seq::new(sts.len(), |i: int| says_of(sts[i].1, name))
}

/// Of the first `k` statements, one silences the name and none after it takes that back.
pub open spec fn silenced_in_the_end(said: Seq<Option<bool>>, k: int) -> bool {
    exists|i: int|
        0 <= i < k && #[trigger] said[i] == Some(true) && (forall|j: int|
            i < j < k ==> #[trigger] said[j] != Some(false))
}

proof fn lemma_statement_silences(
    d: DraftView,
    line_no: int,
    text: Seq<char>,
    c: CatalogView,
    name: Seq<char>,
)
    requires
        statement_step(d, line_no, text, c) is Ok,
        !same_word(name, "all"@),
    ensures
        statement_step(d, line_no, text, c)->Ok_0.program.silenced.contains(name) == match says_of(
            text,
            name,
        ) {
            Some(b) => b,
            None => d.program.silenced.contains(name),
        },
{
    reveal(statement_step);
    reveal_strlit("let");
    reveal_strlit("bpm");
    reveal_strlit("master");
    reveal_strlit("swing");
    reveal_strlit("humanize_ms");
    reveal_strlit("humanize");
    reveal_strlit("reload_quantum_cycles");
    reveal_strlit("quantum");
    reveal_strlit("alias");
    reveal_strlit("silence");
    reveal_strlit("mute");
    reveal_strlit("unsilence");
    reveal_strlit("solo");
    let line = normalized(trim(text));
    let ws = words(line);
    if same_word(ws[0], "silence"@) && same_word(ws[0], "quantum"@) {
        assert(lower(ws[0][0]) == lower("silence"@[0]));
        assert(lower(ws[0][0]) == lower("quantum"@[0]));
    }
}

proof fn lemma_silenced_next(said: Seq<Option<bool>>, k: int)
    requires
        0 <= k < said.len(),
    ensures
        silenced_in_the_end(said, k + 1) == match said[k] {
            Some(b) => b,
            None => silenced_in_the_end(said, k),
        },
{
    if said[k] == Some(true) {
        assert(0 <= k < k + 1 && said[k] == Some(true));
    } else {
        if silenced_in_the_end(said, k + 1) {
            let i = choose|i: int|
                0 <= i < k + 1 && #[trigger] said[i] == Some(true) && (forall|j: int|
                    i < j < k + 1 ==> #[trigger] said[j] != Some(false));
            assert(i < k && said[i] == Some(true));
            assert(said[k] != Some(false));
        }
        if silenced_in_the_end(said, k) && said[k] is None {
            let i = choose|i: int|
                0 <= i < k && #[trigger] said[i] == Some(true) && (forall|j: int|
                    i < j < k ==> #[trigger] said[j] != Some(false));
            assert(0 <= i < k + 1 && said[i] == Some(true));
        }
    }
}

proof fn lemma_drafted_silences(
    d: DraftView,
    sts: Seq<(int, Seq<char>)>,
    k: nat,
    c: CatalogView,
    name: Seq<char>,
)
    requires
        k <= sts.len(),
        drafted(d, sts, k, c) is Ok,
        !d.program.silenced.contains(name),
        !same_word(name, "all"@),
    ensures
        drafted(d, sts, k, c)->Ok_0.program.silenced.contains(name) == silenced_in_the_end(
            said_of(sts, name),
            k as int,
        ),
    decreases k,
{
    if k > 0 {
        lemma_drafted_silences(d, sts, (k - 1) as nat, c, name);
        let m = drafted(d, sts, (k - 1) as nat, c)->Ok_0;
        lemma_statement_silences(m, sts[k - 1].0, sts[k - 1].1, c, name);
        lemma_silenced_next(said_of(sts, name), k - 1);
    }
}

/// A name is silenced in a whole file exactly if the last statement that speaks of it, by `silence`,
/// `mute` or `unsilence`, is not `unsilence`. Where its track is defined, and how often it is
/// silenced, makes no difference.
pub proof fn the_last_word_on_a_name_counts(
    source: Seq<char>,
    bpm: u32,
    c: CatalogView,
    name: Seq<char>,
)
    requires
        program_of(source, bpm, c) is Ok,
        !same_word(name, "all"@),
    ensures
        program_of(source, bpm, c)->Ok_0.silenced.contains(name) <==> silenced_in_the_end(
            said_of(statements(source), name),
            statements(source).len() as int,
        ),
{
    let sts = statements(source);
    lemma_drafted_silences(blank(bpm), sts, sts.len(), c, name);
}

// ---------------------------------------------------------------------------------------------
// Faults
// ---------------------------------------------------------------------------------------------

/// The statement `k` is the first with which something is wrong, and this is it.
pub open spec fn first_fault(
    sts: Seq<(int, Seq<char>)>,
    k: nat,
    bpm: u32,
    c: CatalogView,
    e: ErrorView,
) -> bool {
    &&& k < sts.len()
    &&& e.line == sts[k as int].0
    &&& match drafted(blank(bpm), sts, k, c) {
        Ok(d) => statement_step(d, sts[k as int].0, sts[k as int].1, c) == Err::<
            DraftView,
            Seq<char>,
        >(e.message),
        Err(_) => false,
    }
}

proof fn lemma_first_fault(sts: Seq<(int, Seq<char>)>, n: nat, bpm: u32, c: CatalogView)
    requires
        n <= sts.len(),
        drafted(blank(bpm), sts, n, c) is Err,
    ensures
        exists|k: nat|
            #[trigger] first_fault(sts, k, bpm, c, drafted(blank(bpm), sts, n, c)->Err_0),
    decreases n,
{
    if drafted(blank(bpm), sts, (n - 1) as nat, c) is Err {
        lemma_first_fault(sts, (n - 1) as nat, bpm, c);
    } else {
        assert(first_fault(
            sts,
            (n - 1) as nat,
            bpm,
            c,
            drafted(blank(bpm), sts, n, c)->Err_0,
        ));
    }
}

/// A file that is turned down is turned down for the first statement with which something is wrong,
/// under the line on which that statement begins.
pub proof fn faults_name_their_statement(source: Seq<char>, bpm: u32, c: CatalogView)
    requires
        program_of(source, bpm, c) is Err,
    ensures
        exists|k: nat|
            #[trigger] first_fault(
                statements(source),
                k,
                bpm,
                c,
                program_of(source, bpm, c)->Err_0,
            ),
{
    let sts = statements(source);
    let e = drafted(blank(bpm), sts, sts.len(), c)->Err_0;
    assert(program_of(source, bpm, c)->Err_0 == e);
    lemma_first_fault(sts, sts.len(), bpm, c);
    let k = choose|k: nat| #[trigger] first_fault(sts, k, bpm, c, e);
    assert(first_fault(sts, k, bpm, c, e));
}

// ---------------------------------------------------------------------------------------------
// Tracks
// ---------------------------------------------------------------------------------------------

/// No two tracks have one name.
pub open spec fn distinct_names(ts: Seq<TrackView>) -> bool {
    forall|i: int, j: int|
        0 <= i < j < ts.len() ==> (#[trigger] ts[i]).name != (#[trigger] ts[j]).name
}

proof fn lemma_track_from(ts: Seq<TrackView>, name: Seq<char>, i: int)
    requires
        0 <= i <= ts.len(),
    ensures
        ({
            let k = track_from(ts, name, i);
            &&& i <= k <= ts.len()
            &&& k < ts.len() ==> ts[k].name == name
            &&& forall|j: int| i <= j < k ==> (#[trigger] ts[j]).name != name
        }),
    decreases ts.len() - i,
{
    if i < ts.len() && ts[i].name != name {
        lemma_track_from(ts, name, i + 1);
    }
}

/// A later track takes the place of an earlier one of its name, and leaves the others alone.
pub proof fn the_last_definition_wins(ts: Seq<TrackView>, t: TrackView)
    requires
        distinct_names(ts),
    ensures
        distinct_names(placed(ts, t)),
        exists|k: int|
            0 <= k < placed(ts, t).len() && placed(ts, t)[k] == t && (forall|j: int|
                0 <= j < ts.len() && j != k ==> #[trigger] placed(ts, t)[j] == ts[j]),
        placed(ts, t).len() <= ts.len() + 1,
{
    lemma_track_from(ts, t.name, 0);
    let k = track_from(ts, t.name, 0);
    let r = placed(ts, t);
    assert forall|i: int, j: int| 0 <= i < j < r.len() implies (#[trigger] r[i]).name != (
    #[trigger] r[j]).name by {
        if k < ts.len() {
            if i != k {
                assert(r[i] == ts[i]);
            }
            if j != k {
                assert(r[j] == ts[j]);
            }
            assert(ts[i].name != ts[j].name);
        }
    }
    assert(r[k] == t);
}

/// What a program's numbers keep to.
pub open spec fn in_range(p: ProgramView, default_bpm: u32) -> bool {
    &&& p.bpm == default_bpm || 1 <= p.bpm <= 400
    &&& 0real <= p.master_gain
    &&& p.swing is Some ==> 0real <= p.swing->0 <= 1real
    &&& p.humanize_ms is Some ==> 0real <= p.humanize_ms->0
    &&& p.reload_quantum_cycles is Some ==> 1 <= p.reload_quantum_cycles->0
    &&& distinct_names(p.tracks)
    &&& forall|i: int| 0 <= i < p.tracks.len() ==> track_in_range(#[trigger] p.tracks[i])
}

pub open spec fn track_in_range(t: TrackView) -> bool {
    0real <= t.gain && valid_tempo(t.tempo)
}

proof fn lemma_track_line_in_range(s: Seq<char>, line: int, lets: Map<Seq<char>, Seq<char>>)
    requires
        track_line(s, line, lets) is Ok,
    ensures
        track_in_range(track_line(s, line, lets)->Ok_0),
{
    let (head, i) = crate::dsl::sound::word_at(s, 0)->0;
    let (name, j) = crate::dsl::sound::word_at(s, i)->0;
    let (gain, k) = gain_clause(s, j)->Ok_0;
    lemma_sound_tempo(s, k, lets);
}

proof fn lemma_statement_in_range(
    d: DraftView,
    line_no: int,
    text: Seq<char>,
    c: CatalogView,
    bpm: u32,
)
    requires
        in_range(d.program, bpm),
        statement_step(d, line_no, text, c) is Ok,
    ensures
        in_range(statement_step(d, line_no, text, c)->Ok_0.program, bpm),
{
    reveal(statement_step);
    let line = normalized(trim(text));
    let ws = words(line);
    if ws.len() > 0 && line_step(d, line_no, line, c) is Ok {
        let r = line_step(d, line_no, line, c)->Ok_0;
        if settings_step(d, ws) is None && names_step(d, ws, c) is None && same_word(
            ws[0],
            "track"@,
        ) && !same_word(ws[0], "let"@) {
            let t = track_line(line, line_no, d.lets)->Ok_0;
            lemma_track_line_in_range(line, line_no, d.lets);
            the_last_definition_wins(d.program.tracks, t);
            lemma_track_from(d.program.tracks, t.name, 0);
            let ts = d.program.tracks;
            let us = placed(ts, t);
            assert forall|i: int| 0 <= i < us.len() implies track_in_range(#[trigger] us[i]) by {
                if us[i] != t {
                    assert(us[i] == ts[i]);
                }
            }
        } else {
            assert(r.program.tracks == d.program.tracks);
        }
    }
}

proof fn lemma_drafted_in_range(
    d: DraftView,
    sts: Seq<(int, Seq<char>)>,
    k: nat,
    c: CatalogView,
    bpm: u32,
)
    requires
        in_range(d.program, bpm),
        drafted(d, sts, k, c) is Ok,
    ensures
        in_range(drafted(d, sts, k, c)->Ok_0.program, bpm),
    decreases k,
{
    if k > 0 && k <= sts.len() {
        lemma_drafted_in_range(d, sts, (k - 1) as nat, c, bpm);
        let m = drafted(d, sts, (k - 1) as nat, c)->Ok_0;
        lemma_statement_in_range(m, sts[k - 1].0, sts[k - 1].1, c, bpm);
    }
}

/// Whatever a text says, its numbers are in range and its tracks have different names.
pub proof fn programs_are_in_range(source: Seq<char>, bpm: u32, c: CatalogView)
    requires
        program_of(source, bpm, c) is Ok,
    ensures
        in_range(program_of(source, bpm, c)->Ok_0, bpm),
{
    let sts = statements(source);
    lemma_drafted_in_range(blank(bpm), sts, sts.len(), c, bpm);
}

// ---------------------------------------------------------------------------------------------
// Lanes
// ---------------------------------------------------------------------------------------------

/// The lanes from `i` on, one by one, each as if it were the only one.
pub open spec fn clauses_from(s: Seq<char>, i: int, lets: Map<Seq<char>, Seq<char>>) -> Result<
    Seq<LanesView>,
    Seq<char>,
>
    decreases s.len() - i,
{
    let a = skip_ws(s, i);
    if a >= s.len() {
        Ok(seq![])
    } else if s[a] != '#' || word_at(s, a + 1) is None {
        Err(seq![])
    } else {
        let (w, b) = word_at(s, a + 1)->0;
        match lane_at(s, b, w, no_lanes(), lets) {
            Err(e) => Err(e),
            Ok((l, c)) => if i < c <= s.len() {
                match clauses_from(s, c, lets) {
                    Err(e) => Err(e),
                    Ok(rest) => Ok(seq![l] + rest),
                }
            } else {
                Err(seq![])
            },
        }
    }
}

/// A lane is given in both.
pub open spec fn share_a_lane(l: LanesView, m: LanesView) -> bool {
    ||| l.gain is Some && m.gain is Some
    ||| l.pan is Some && m.pan is Some
    ||| l.prob is Some && m.prob is Some
    ||| l.dur is Some && m.dur is Some
    ||| l.legato is Some && m.legato is Some
    ||| l.cut_group is Some && m.cut_group is Some
    ||| l.cut_voices is Some && m.cut_voices is Some
    ||| l.cutoff is Some && m.cutoff is Some
}

pub open spec fn either(a: Option<PatView>, b: Option<PatView>) -> Option<PatView> {
    if b is Some {
        b
    } else {
        a
    }
}

/// The lanes of both.
pub open spec fn both_lanes(l: LanesView, m: LanesView) -> LanesView {
    LanesView {
        gain: either(l.gain, m.gain),
        pan: either(l.pan, m.pan),
        prob: either(l.prob, m.prob),
        dur: either(l.dur, m.dur),
        legato: either(l.legato, m.legato),
        cut_group: either(l.cut_group, m.cut_group),
        cut_voices: either(l.cut_voices, m.cut_voices),
        cutoff: either(l.cutoff, m.cutoff),
    }
}

/// The lanes of both, if there are any and none is given twice.
pub open spec fn with_lane(l: Option<LanesView>, m: LanesView) -> Option<LanesView> {
    match l {
        Some(l) => if share_a_lane(l, m) {
            None
        } else {
            Some(both_lanes(l, m))
        },
        None => None,
    }
}

/// All lanes together, if none is given twice.
pub open spec fn all_lanes(l: Option<LanesView>, cs: Seq<LanesView>) -> Option<LanesView> {
    cs.fold_left(l, |l: Option<LanesView>, m: LanesView| with_lane(l, m))
}

proof fn lemma_lane_added(
    s: Seq<char>,
    b: int,
    w: Seq<char>,
    l: LanesView,
    lets: Map<Seq<char>, Seq<char>>,
)
    requires
        lane_at(s, b, w, no_lanes(), lets) is Ok,
        l.cut_voices is Some ==> l.cut_group is Some,
    ensures
        ({
            let (m, c) = lane_at(s, b, w, no_lanes(), lets)->Ok_0;
            match with_lane(Some(l), m) {
                Some(r) => lane_at(s, b, w, l, lets) == Ok::<(LanesView, int), Seq<char>>((r, c))
                    && (r.cut_voices is Some ==> r.cut_group is Some),
                None => lane_at(s, b, w, l, lets) is Err,
            }
        }),
{
}

proof fn lemma_all_lanes_head(l: Option<LanesView>, m: LanesView, rest: Seq<LanesView>)
    ensures
        all_lanes(l, seq![m] + rest) == all_lanes(with_lane(l, m), rest),
{
    let f = |l: Option<LanesView>, m: LanesView| with_lane(l, m);
    let cs = seq![m] + rest;
    cs.lemma_fold_left_split(l, f, 1);
    assert(cs.subrange(1, cs.len() as int) =~= rest);
    let one = cs.subrange(0, 1);
    assert(one =~= seq![m]);
    assert(one.drop_last() =~= seq![]);
    assert(one.drop_last().fold_left(l, f) == l);
    assert(one.fold_left(l, f) == f(l, m));
}

proof fn lemma_no_lanes_left(cs: Seq<LanesView>)
    ensures
        all_lanes(None, cs) is None,
    decreases cs.len(),
{
    if cs.len() > 0 {
        lemma_no_lanes_left(cs.drop_last());
    }
}

proof fn lemma_lanes_from(
    s: Seq<char>,
    i: int,
    l: LanesView,
    lets: Map<Seq<char>, Seq<char>>,
)
    requires
        clauses_from(s, i, lets) is Ok,
        l.cut_voices is Some ==> l.cut_group is Some,
    ensures
        match all_lanes(Some(l), clauses_from(s, i, lets)->Ok_0) {
            Some(r) => lanes_from(s, i, l, lets) == Ok::<LanesView, Seq<char>>(r),
            None => lanes_from(s, i, l, lets) is Err,
        },
    decreases s.len() - i,
{
    let a = skip_ws(s, i);
    let cs = clauses_from(s, i, lets)->Ok_0;
    if a >= s.len() {
        assert(cs =~= seq![]);
        assert(all_lanes(Some(l), cs) == Some(l));
    } else {
        let (w, b) = word_at(s, a + 1)->0;
        let (m, c) = lane_at(s, b, w, no_lanes(), lets)->Ok_0;
        let rest = clauses_from(s, c, lets)->Ok_0;
        lemma_lane_added(s, b, w, l, lets);
        lemma_all_lanes_head(Some(l), m, rest);
        match with_lane(Some(l), m) {
            Some(r) => {
                lemma_lanes_from(s, c, r, lets);
            },
            None => {
                lemma_no_lanes_left(rest);
            },
        }
    }
}

/// Lanes may be given in any order: two lines with the same lanes, each read on its own, are both
/// accepted with the same result, or both turned down. They are accepted exactly if no lane is given
/// twice.
pub proof fn lanes_come_in_any_order(
    s: Seq<char>,
    i: int,
    t: Seq<char>,
    j: int,
    lets: Map<Seq<char>, Seq<char>>,
)
    requires
        clauses_from(s, i, lets) is Ok,
        clauses_from(t, j, lets) is Ok,
        clauses_from(s, i, lets)->Ok_0.to_multiset() == clauses_from(t, j, lets)->Ok_0.to_multiset(),
    ensures
        match all_lanes(Some(no_lanes()), clauses_from(s, i, lets)->Ok_0) {
            Some(r) => {
                &&& lanes_from(s, i, no_lanes(), lets) == Ok::<LanesView, Seq<char>>(r)
                &&& lanes_from(t, j, no_lanes(), lets) == Ok::<LanesView, Seq<char>>(r)
            },
            None => {
                &&& lanes_from(s, i, no_lanes(), lets) is Err
                &&& lanes_from(t, j, no_lanes(), lets) is Err
            },
        },
{
    let f = |l: Option<LanesView>, m: LanesView| with_lane(l, m);
    assert forall|x: LanesView, y: LanesView, v: Option<LanesView>| #[trigger]
        f(f(v, x), y) == f(f(v, y), x) by {
        if let Some(l) = v {
            assert(both_lanes(both_lanes(l, x), y) == both_lanes(both_lanes(l, y), x)
                || share_a_lane(x, y));
        }
    }
    vstd::seq_lib::lemma_fold_left_permutation(
        clauses_from(s, i, lets)->Ok_0,
        clauses_from(t, j, lets)->Ok_0,
        f,
        Some(no_lanes()),
    );
    lemma_lanes_from(s, i, no_lanes(), lets);
    lemma_lanes_from(t, j, no_lanes(), lets);
}

/// All lanes together are there exactly if no two share one; each lane is as it was given, and one
/// that is not given is not there.
pub proof fn lanes_are_given_once(cs: Seq<LanesView>)
    ensures
        all_lanes(Some(no_lanes()), cs) is Some <==> (forall|i: int, j: int|
            0 <= i < j < cs.len() ==> !share_a_lane(#[trigger] cs[i], #[trigger] cs[j])),
        all_lanes(Some(no_lanes()), cs) is Some ==> ({
            let r = all_lanes(Some(no_lanes()), cs)->0;
            &&& forall|i: int| 0 <= i < cs.len() ==> both_lanes(r, #[trigger] cs[i]) == r
            &&& forall|m: LanesView| #[trigger]
                share_a_lane(r, m) ==> exists|i: int|
                    0 <= i < cs.len() && share_a_lane(#[trigger] cs[i], m)
        }),
    decreases cs.len(),
{
    if cs.len() > 0 {
        let d = cs.drop_last();
        let x = cs.last();
        lanes_are_given_once(d);
        let before = all_lanes(Some(no_lanes()), d);
        assert(all_lanes(Some(no_lanes()), cs) == with_lane(before, x));
        if before is Some {
            let q = before->0;
            if share_a_lane(q, x) {
                let i = choose|i: int| 0 <= i < d.len() && share_a_lane(#[trigger] d[i], x);
                assert(share_a_lane(cs[i], cs[cs.len() - 1]));
            } else {
                let r = both_lanes(q, x);
                assert forall|i: int, j: int| 0 <= i < j < cs.len() implies !share_a_lane(
                    #[trigger] cs[i],
                    #[trigger] cs[j],
                ) by {
                    assert(cs[i] == d[i]);
                    assert(both_lanes(q, d[i]) == q);
                    if j < d.len() {
                        assert(cs[j] == d[j]);
                    }
                }
                assert forall|i: int| 0 <= i < cs.len() implies both_lanes(r, #[trigger] cs[i])
                    == r by {
                    if i < d.len() {
                        assert(cs[i] == d[i]);
                        assert(both_lanes(q, d[i]) == q);
                    }
                }
                assert forall|m: LanesView| #[trigger] share_a_lane(r, m) implies exists|i: int|
                    0 <= i < cs.len() && share_a_lane(#[trigger] cs[i], m) by {
                    if share_a_lane(q, m) {
                        let i = choose|i: int| 0 <= i < d.len() && share_a_lane(#[trigger] d[i], m);
                        assert(share_a_lane(cs[i], m));
                    } else {
                        assert(share_a_lane(cs[cs.len() - 1], m));
                    }
                }
            }
        } else {
            let (i, j) = choose|i: int, j: int|
                0 <= i < j < d.len() && share_a_lane(#[trigger] d[i], #[trigger] d[j]);
            assert(share_a_lane(cs[i], cs[j]));
        }
    }
}

/// What a sound is made of: its pattern, and its lanes, each on its own.
pub struct SoundParts {
    pub raw: Seq<char>,
    pub lanes: Seq<LanesView>,
}

/// The pattern of a sound and its lanes, each read on its own. None if they cannot be read.
pub open spec fn sound_parts(s: Seq<char>, i: int, lets: Map<Seq<char>, Seq<char>>) -> Option<
    SoundParts,
> {
    match word_at(s, i) {
        None => None,
        Some((w, a)) => if !same_word(w, "s"@) {
            None
        } else {
            match quoted(s, a, "pattern"@) {
                Err(_) => None,
                Ok((raw, b)) => match clauses_from(s, b, lets) {
                    Err(_) => None,
                    Ok(lanes) => Some(SoundParts { raw, lanes }),
                },
            }
        },
    }
}

/// A sound whose pattern and lanes can be read is accepted exactly if no lane is given twice. What it
/// is does not depend on the order of its lanes: it has each lane as it was given, and no other.
pub proof fn sounds_take_lanes_in_any_order(
    s: Seq<char>,
    i: int,
    t: Seq<char>,
    j: int,
    lets: Map<Seq<char>, Seq<char>>,
)
    requires
        sound_parts(s, i, lets) is Some,
        sound_parts(t, j, lets) is Some,
        sound_parts(s, i, lets)->0.raw == sound_parts(t, j, lets)->0.raw,
        sound_parts(s, i, lets)->0.lanes.to_multiset() == sound_parts(
            t,
            j,
            lets,
        )->0.lanes.to_multiset(),
    ensures
        ({
            let SoundParts { raw, lanes: cs } = sound_parts(s, i, lets)->0;
            &&& s_clause(s, i, lets) is Ok <==> (forall|m: int, n: int|
                0 <= m < n < cs.len() ==> !share_a_lane(#[trigger] cs[m], #[trigger] cs[n]))
            &&& s_clause(t, j, lets) is Ok <==> s_clause(s, i, lets) is Ok
            &&& s_clause(s, i, lets) is Ok ==> {
                let v = s_clause(s, i, lets)->Ok_0;
                &&& s_clause(t, j, lets) == s_clause(s, i, lets)
                &&& v.tempo is None
                &&& v.transforms.len() == 0
                &&& v.inner == expanded(raw, lets)
                &&& forall|m: int|
                    0 <= m < cs.len() ==> both_lanes(v.lanes, #[trigger] cs[m]) == v.lanes
                &&& forall|l: LanesView| #[trigger]
                    share_a_lane(v.lanes, l) ==> exists|m: int|
                        0 <= m < cs.len() && share_a_lane(#[trigger] cs[m], l)
            }
        }),
{
    let (_, a) = word_at(s, i)->0;
    let (_, b) = quoted(s, a, "pattern"@)->Ok_0;
    let (_, c) = word_at(t, j)->0;
    let (_, d) = quoted(t, c, "pattern"@)->Ok_0;
    lanes_come_in_any_order(s, b, t, d, lets);
    lanes_are_given_once(clauses_from(s, b, lets)->Ok_0);
}

// ---------------------------------------------------------------------------------------------
// Files
// ---------------------------------------------------------------------------------------------

/// A file that is under way is not taken in again.
pub proof fn files_are_not_taken_in_twice(
    ls: Seq<Seq<char>>,
    k: nat,
    base: Seq<char>,
    stack: Seq<Seq<char>>,
    known: Map<Seq<char>, FactsView>,
    path: Seq<char>,
    file: Seq<char>,
)
    requires
        0 < k <= ls.len(),
        expand_lines(ls, (k - 1) as nat, base, stack, known) is Done,
        line_view(ls[k - 1], base, open_quotes(ls, (k - 1) as nat)) == LineView::Take(path),
        known.contains_key(path),
        known[path].canonical == Ok::<Seq<char>, Seq<char>>(file),
        stack.contains(file),
    ensures
        expand_lines(ls, k, base, stack, known) == ExpandedView::Failed(
            ErrorView { line: k as int, message: "include cycle: "@ + file },
        ),
{
}

// ---------------------------------------------------------------------------------------------
// Hits and events
// ---------------------------------------------------------------------------------------------

/// A track that is muted, or left out by others that are soloed, plays nothing.
pub proof fn muted_tracks_play_nothing(p: ProgramView, t: TrackView, cycle: nat, c: CatalogView)
    requires
        p.mute_all || p.silenced.contains(t.name) || (exists|other: Seq<char>|
            p.soloed.contains(other)) && !p.soloed.contains(t.name),
    ensures
        track_events(p, t, cycle, c) == Ok::<Seq<EventView>, ErrorView>(seq![]),
{
    if exists|other: Seq<char>| p.soloed.contains(other) {
        let other = choose|other: Seq<char>| p.soloed.contains(other);
        assert(p.soloed.contains(other));
        assert(!Set::<Seq<char>>::empty().contains(other));
    }
}

/// Where a hit has a duration, its legato does not count.
pub proof fn durations_win_over_legato(hs: Seq<ControlHitView>, i: int, bpm: u32)
    requires
        0 <= i < hs.len(),
        hs[i].dur is Some,
    ensures
        duration(hs, i, bpm) == hs[i].dur,
{
}

/// All hits start within the cycle.
pub open spec fn in_cycle(hs: Seq<ControlHitView>) -> bool {
    forall|i: int| 0 <= i < hs.len() ==> 0real <= (#[trigger] hs[i]).at < 1real
}

proof fn lemma_controlled_in_cycle(ast: PatView, lanes: LanesView, cycle: nat)
    requires
        controlled(ast, lanes, cycle, 0real, 1real) is Ok,
    ensures
        in_cycle(controlled(ast, lanes, cycle, 0real, 1real)->Ok_0),
{
    hits_lie_within_the_window(ast, cycle, 0real, 1real);
    let hs = controlled(ast, lanes, cycle, 0real, 1real)->Ok_0;
    let h = hits(ast, cycle, 0real, 1real);
    assert forall|i: int| 0 <= i < hs.len() implies 0real <= (#[trigger] hs[i]).at < 1real by {
        assert(hs[i].at == h[i].0);
    }
}

proof fn lemma_slice_in_cycle(hs: Seq<ControlHitView>, k: nat, slot: nat)
    ensures
        in_cycle(slice(hs, k, slot)),
    decreases hs.len(),
{
    if hs.len() > 0 {
        lemma_slice_in_cycle(hs.drop_last(), k, slot);
    }
}

proof fn lemma_squeezed_in_cycle(hs: Seq<ControlHitView>, j: nat, k: nat)
    requires
        in_cycle(hs),
        j < k,
    ensures
        in_cycle(squeezed(hs, j, k)),
{
    let d = k as real;
    let s = squeezed(hs, j, k);
    let w = 1real / d;
    let a = j as real / d;
    lemma_div(1real, d);
    lemma_div(j as real, d);
    assert(w > 0real) by (nonlinear_arith)
        requires
            w * d == 1real,
            d > 0real,
    ;
    assert(a >= 0real) by (nonlinear_arith)
        requires
            a * d >= 0real,
            d > 0real,
    ;
    assert(a + w <= 1real) by (nonlinear_arith)
        requires
            a * d + 1real <= d,
            w * d == 1real,
            d > 0real,
    ;
    assert forall|i: int| 0 <= i < s.len() implies 0real <= (#[trigger] s[i]).at < 1real by {
        let f = hs[i].at;
        lemma_share(w, f);
        assert(f * w == w * f) by (nonlinear_arith);
        assert(s[i].at == a + f * w);
    }
}

proof fn lemma_packed_in_cycle(ast: PatView, lanes: LanesView, j: nat, k: nat, cycle: nat)
    requires
        j <= k,
        packed(ast, lanes, j, k, cycle) is Ok,
    ensures
        in_cycle(packed(ast, lanes, j, k, cycle)->Ok_0),
    decreases j,
{
    if j > 0 {
        let i = (j - 1) as nat;
        let c = inner_cycle(cycle, k, i);
        lemma_packed_in_cycle(ast, lanes, i, k, cycle);
        lemma_controlled_in_cycle(ast, lanes, c);
        let before = packed(ast, lanes, i, k, cycle)->Ok_0;
        let hs = controlled(ast, lanes, c, 0real, 1real)->Ok_0;
        lemma_squeezed_in_cycle(hs, i, k);
        let s = squeezed(hs, i, k);
        let all = before + s;
        assert forall|m: int| 0 <= m < all.len() implies 0real <= (#[trigger] all[m]).at < 1real by {
            if m < before.len() {
                assert(all[m] == before[m]);
            } else {
                assert(all[m] == s[m - before.len()]);
            }
        }
    }
}

/// Whatever the tempo, every hit of a track starts within its cycle.
pub proof fn hits_start_within_the_cycle(t: TrackView, cycle: nat)
    requires
        track_hits(t, cycle) is Ok,
    ensures
        in_cycle(track_hits(t, cycle)->Ok_0),
{
    match t.tempo {
        None => {
            lemma_controlled_in_cycle(t.ast, t.lanes, cycle);
        },
        Some(TempoWrap::Slow(k)) => {
            let hs = controlled(t.ast, t.lanes, cycle / (k as nat), 0real, 1real)->Ok_0;
            lemma_slice_in_cycle(hs, k as nat, cycle % (k as nat));
        },
        Some(TempoWrap::Fast(k)) => {
            lemma_packed_in_cycle(t.ast, t.lanes, k as nat, k as nat, cycle);
        },
    }
}

/// How many hits fall into the first `m` of `k` cycles.
pub open spec fn sliced_out(hs: Seq<ControlHitView>, k: nat, m: nat) -> nat
    decreases m,
{
    if m == 0 {
        0
    } else {
        sliced_out(hs, k, (m - 1) as nat) + slice(hs, k, (m - 1) as nat).len()
    }
}

proof fn lemma_sliced_out_last(hs: Seq<ControlHitView>, k: nat, m: nat)
    requires
        hs.len() > 0,
        0real <= hs.last().at * (k as real),
    ensures
        sliced_out(hs, k, m) == sliced_out(hs.drop_last(), k, m) + (if hs.last().at * (k as real)
            < m as real {
            1nat
        } else {
            0nat
        }),
    decreases m,
{
    if m > 0 {
        lemma_sliced_out_last(hs, k, (m - 1) as nat);
    }
}

proof fn lemma_sliced_out_none(hs: Seq<ControlHitView>, k: nat, m: nat)
    requires
        hs.len() == 0,
    ensures
        sliced_out(hs, k, m) == 0,
    decreases m,
{
    if m > 0 {
        lemma_sliced_out_none(hs, k, (m - 1) as nat);
    }
}

/// A track slowed down over `k` cycles plays every hit in exactly one of them.
pub proof fn slow_tracks_play_every_hit_once(hs: Seq<ControlHitView>, k: nat)
    requires
        k > 0,
        in_cycle(hs),
    ensures
        sliced_out(hs, k, k) == hs.len(),
    decreases hs.len(),
{
    if hs.len() == 0 {
        lemma_sliced_out_none(hs, k, k);
    } else {
        let d = hs.drop_last();
        assert(in_cycle(d)) by {
            assert forall|i: int| 0 <= i < d.len() implies 0real <= (#[trigger] d[i]).at < 1real by {
                assert(hs[i] == d[i]);
            }
        }
        slow_tracks_play_every_hit_once(d, k);
        let x = hs[hs.len() - 1].at;
        let f = k as real;
        assert(0real <= x * f < f) by (nonlinear_arith)
            requires
                0real <= x < 1real,
                f > 0real,
        ;
        lemma_sliced_out_last(hs, k, k);
    }
}

// ---------------------------------------------------------------------------------------------
// Lanes
// ---------------------------------------------------------------------------------------------

/// What the lane says, it may say.
spec fn table_in_range(lane: Lane, t: Seq<Option<real>>) -> bool {
    forall|i: int|
        0 <= i < t.len() && (#[trigger] t[i]) is Some ==> lane_takes(lane, t[i]->0)
}

proof fn lemma_lane_values_in_range(lane: Lane, s: Seq<SlotView>)
    requires
        lane_values(lane, s) is Ok,
    ensures
        table_in_range(lane, lane_values(lane, s)->Ok_0),
    decreases s.len(),
{
    if s.len() > 0 {
        lemma_lane_values_in_range(lane, s.drop_last());
    }
}

proof fn lemma_lane_table_in_range(lane: Lane, p: Option<PatView>, cycle: nat, t0: real, t1: real)
    requires
        lane_table(lane, p, cycle, t0, t1) is Ok,
    ensures
        table_in_range(lane, lane_table(lane, p, cycle, t0, t1)->Ok_0),
        lane_table(lane, p, cycle, t0, t1)->Ok_0.len() > 0,
{
    if let Some(q) = p {
        lemma_lane_values_in_range(lane, slots(q, true, cycle, t0, t1));
    }
}

spec fn groups_in_range(t: Seq<Option<i32>>) -> bool {
    forall|i: int| 0 <= i < t.len() && (#[trigger] t[i]) is Some ==> t[i]->0 >= 0
}

spec fn voices_in_range(t: Seq<Option<u32>>) -> bool {
    forall|i: int| 0 <= i < t.len() && (#[trigger] t[i]) is Some ==> t[i]->0 >= 1
}

proof fn lemma_groups_in_range(s: Seq<SlotView>)
    requires
        lane_values(CutGroups, s) is Ok,
    ensures
        groups_in_range(lane_values(CutGroups, s)->Ok_0),
    decreases s.len(),
{
    if s.len() > 0 {
        lemma_groups_in_range(s.drop_last());
    }
}

proof fn lemma_voices_in_range(s: Seq<SlotView>)
    requires
        lane_values(CutVoices, s) is Ok,
    ensures
        voices_in_range(lane_values(CutVoices, s)->Ok_0),
    decreases s.len(),
{
    if s.len() > 0 {
        lemma_voices_in_range(s.drop_last());
    }
}

pub open spec fn not_negative(x: Option<real>) -> bool {
    x is Some ==> x->0 >= 0real
}

/// What the lanes say of a hit is in range.
pub open spec fn hit_in_range(h: ControlHitView) -> bool {
    &&& 0real <= h.gain
    &&& -1real <= h.pan <= 1real
    &&& h.prob is Some ==> 0real <= h.prob->0 <= 1real
    &&& not_negative(h.dur)
    &&& not_negative(h.legato)
    &&& not_negative(h.cutoff)
    &&& h.cut_group is Some ==> h.cut_group->0 >= 0
    &&& h.cut_voices is Some ==> h.cut_voices->0 >= 1
}

proof fn lemma_entry(len: nat, i: int)
    requires
        len > 0,
    ensures
        0 <= i % (len as int) < len,
{
    vstd::arithmetic::div_mod::lemma_mod_bound(i, len as int);
}

proof fn lemma_controlled_in_range(
    sound: PatView,
    l: LanesView,
    cycle: nat,
    t0: real,
    t1: real,
)
    requires
        controlled(sound, l, cycle, t0, t1) is Ok,
    ensures
        forall|i: int|
            0 <= i < controlled(sound, l, cycle, t0, t1)->Ok_0.len() ==> hit_in_range(
                #[trigger] controlled(sound, l, cycle, t0, t1)->Ok_0[i],
            ),
{
    let t = tables(l, cycle, t0, t1)->Ok_0;
    let hs = hits(sound, cycle, t0, t1);
    let c = controlled(sound, l, cycle, t0, t1)->Ok_0;
    lemma_lane_table_in_range(Lane::Gain, l.gain, cycle, t0, t1);
    lemma_lane_table_in_range(Lane::Pan, l.pan, cycle, t0, t1);
    lemma_lane_table_in_range(Lane::Prob, l.prob, cycle, t0, t1);
    lemma_lane_table_in_range(Lane::Dur, l.dur, cycle, t0, t1);
    lemma_lane_table_in_range(Lane::Legato, l.legato, cycle, t0, t1);
    lemma_lane_table_in_range(Lane::Cutoff, l.cutoff, cycle, t0, t1);
    if let Some(q) = l.cut_group {
        lemma_groups_in_range(slots(q, true, cycle, t0, t1));
    }
    if let Some(q) = l.cut_voices {
        lemma_voices_in_range(slots(q, true, cycle, t0, t1));
    }
    assert(groups_in_range(t.cut_group) && t.cut_group.len() > 0);
    assert(voices_in_range(t.cut_voices) && t.cut_voices.len() > 0);
    assert(table_in_range(Lane::Prob, t.prob) && t.prob.len() > 0);
    assert forall|i: int| 0 <= i < c.len() implies hit_in_range(#[trigger] c[i]) by {
        lemma_entry(t.gain.len(), i);
        lemma_entry(t.pan.len(), i);
        lemma_entry(t.prob.len(), i);
        lemma_entry(t.dur.len(), i);
        lemma_entry(t.legato.len(), i);
        lemma_entry(t.cut_group.len(), i);
        lemma_entry(t.cut_voices.len(), i);
        lemma_entry(t.cutoff.len(), i);
        let h = controlled_hit(hs[i], t, i);
        assert(c[i] == h);
        assert(t.gain[i % (t.gain.len() as int)] is Some ==> 0real <= h.gain);
        assert(t.pan[i % (t.pan.len() as int)] is Some ==> -1real <= h.pan <= 1real);
    }
}

spec fn hits_in_range(hs: Seq<ControlHitView>) -> bool {
    forall|i: int| 0 <= i < hs.len() ==> hit_in_range(#[trigger] hs[i])
}

proof fn lemma_slice_in_range(hs: Seq<ControlHitView>, k: nat, slot: nat)
    requires
        hits_in_range(hs),
    ensures
        hits_in_range(slice(hs, k, slot)),
    decreases hs.len(),
{
    if hs.len() > 0 {
        let d = hs.drop_last();
        assert(hits_in_range(d)) by {
            assert forall|i: int| 0 <= i < d.len() implies hit_in_range(#[trigger] d[i]) by {
                assert(hs[i] == d[i]);
            }
        }
        lemma_slice_in_range(d, k, slot);
        assert(hit_in_range(hs[hs.len() - 1]));
    }
}

proof fn lemma_packed_in_range(ast: PatView, lanes: LanesView, j: nat, k: nat, cycle: nat)
    requires
        packed(ast, lanes, j, k, cycle) is Ok,
    ensures
        hits_in_range(packed(ast, lanes, j, k, cycle)->Ok_0),
    decreases j,
{
    if j > 0 {
        let i = (j - 1) as nat;
        let c = inner_cycle(cycle, k, i);
        lemma_packed_in_range(ast, lanes, i, k, cycle);
        lemma_controlled_in_range(ast, lanes, c, 0real, 1real);
        let before = packed(ast, lanes, i, k, cycle)->Ok_0;
        let hs = controlled(ast, lanes, c, 0real, 1real)->Ok_0;
        let s = squeezed(hs, i, k);
        let all = before + s;
        assert forall|m: int| 0 <= m < all.len() implies hit_in_range(#[trigger] all[m]) by {
            if m < before.len() {
                assert(all[m] == before[m]);
            } else {
                assert(all[m] == s[m - before.len()]);
                assert(hit_in_range(hs[m - before.len()]));
            }
        }
    }
}

/// What the lanes of a track say of its hits is in range, whatever the tempo.
pub proof fn hits_are_in_range(t: TrackView, cycle: nat)
    requires
        track_hits(t, cycle) is Ok,
    ensures
        forall|i: int|
            0 <= i < track_hits(t, cycle)->Ok_0.len() ==> hit_in_range(
                #[trigger] track_hits(t, cycle)->Ok_0[i],
            ),
{
    match t.tempo {
        None => {
            lemma_controlled_in_range(t.ast, t.lanes, cycle, 0real, 1real);
        },
        Some(TempoWrap::Slow(k)) => {
            let hs = controlled(t.ast, t.lanes, cycle / (k as nat), 0real, 1real)->Ok_0;
            lemma_controlled_in_range(t.ast, t.lanes, cycle / (k as nat), 0real, 1real);
            lemma_slice_in_range(hs, k as nat, cycle % (k as nat));
        },
        Some(TempoWrap::Fast(k)) => {
            lemma_packed_in_range(t.ast, t.lanes, k as nat, k as nat, cycle);
        },
    }
}

/// The numbers of an event are finite at the precision at which it is mixed.
pub open spec fn event_finite(e: EventView) -> bool {
    let most = overflow(Precision::Single) as real;
    &&& e.gain < most
    &&& e.dur_ms is Some ==> e.dur_ms->0 < most
    &&& e.cutoff_ms is Some ==> e.cutoff_ms->0 < most
}

/// Nothing is wrong with an event, as far as the output is concerned, unless its numbers have grown
/// too large to be mixed.
pub open spec fn event_playable(e: EventView) -> bool {
    &&& event_finite(e) ==> voice_fault(
        e.gain,
        e.pan,
        e.dur_ms,
        e.cut_group,
        e.cut_voices,
        e.cutoff_ms,
    ) is None
    &&& 0real <= e.frac < 1real
}

proof fn lemma_events_playable(
    p: ProgramView,
    t: TrackView,
    hs: Seq<ControlHitView>,
    k: nat,
    c: CatalogView,
)
    requires
        hits_in_range(hs),
        in_cycle(hs),
        0real <= p.master_gain,
        0real <= t.gain,
        events_upto(p, t, hs, k, c) is Ok,
    ensures
        forall|i: int|
            0 <= i < events_upto(p, t, hs, k, c)->Ok_0.len() ==> event_playable(
                #[trigger] events_upto(p, t, hs, k, c)->Ok_0[i],
            ),
    decreases k,
{
    if k > 0 && k <= hs.len() {
        lemma_events_playable(p, t, hs, (k - 1) as nat, c);
        let h = hs[k - 1];
        assert(hit_in_range(h));
        assert(0real <= h.at < 1real);
        let g = t.gain * h.gain;
        assert(g >= 0real) by (nonlinear_arith)
            requires
                g == t.gain * h.gain,
                t.gain >= 0real,
                h.gain >= 0real,
        ;
        assert(g * p.master_gain >= 0real) by (nonlinear_arith)
            requires
                g >= 0real,
                p.master_gain >= 0real,
        ;
    }
}

/// What a program that was read plays can be played: every event is within the cycle, and the
/// output finds no fault with it, but for gains and times that are no longer finite.
pub proof fn events_can_be_played(
    source: Seq<char>,
    bpm: u32,
    c: CatalogView,
    k: int,
    cycle: nat,
    d: CatalogView,
)
    requires
        program_of(source, bpm, c) is Ok,
        0 <= k < program_of(source, bpm, c)->Ok_0.tracks.len(),
        track_events(
            program_of(source, bpm, c)->Ok_0,
            program_of(source, bpm, c)->Ok_0.tracks[k],
            cycle,
            d,
        ) is Ok,
    ensures
        ({
            let p = program_of(source, bpm, c)->Ok_0;
            let es = track_events(p, p.tracks[k], cycle, d)->Ok_0;
            forall|i: int| 0 <= i < es.len() ==> event_playable(#[trigger] es[i])
        }),
{
    programs_are_in_range(source, bpm, c);
    let p = program_of(source, bpm, c)->Ok_0;
    let t = p.tracks[k];
    assert(track_in_range(t));
    if audible(p, t.name) {
        hits_are_in_range(t, cycle);
        hits_start_within_the_cycle(t, cycle);
        let hs = track_hits(t, cycle)->Ok_0;
        lemma_events_playable(p, t, hs, hs.len(), d);
    }
}

} // verus!
