//! Which folders under the sample root a program asks about.
//!
//! A pattern file can be read, and its tracks played, once these folders are known.

use vstd::prelude::*;
use vstd::string::StringExecFns;

use crate::banks::{known_dir, Catalog, CatalogView};
use crate::dsl::events::{events_upto, packed, slice, squeezed, track_events, track_hits};
use crate::dsl::lines::{
    merge_statement_lines, normalize_seq_line, normalized, statement_view, statement_views,
    statements,
};
use crate::dsl::program::{
    blank, drafted, line_step, names_step, program_of, statement_step, DraftView,
};
use crate::dsl::sample::{
    bank_ref, could_be_folder, may_be_folder, parse_bank_ref, raw_sample, token_path,
};
use crate::dsl::{Program, ProgramView, SampleSpec, SpecView, TempoWrap, TrackKind, TrackView};
use crate::pat::eval::{hits, inner_cycle};
use crate::pat::lanes::{controlled, ControlHitView, LanesView};
use crate::pat::tokens::{has_token, hits_play_tokens_of_the_pattern};
use crate::pat::PatView;
use crate::table::Table;
use crate::text::{
    chars_of, is_word, lemma_push_contains, lemma_views_push, same_word, text_of, trim, trimmed,
    views, words, words_of,
};

verus! {

/// The folder that a token asks about, if it asks about one.
pub open spec fn asked_folder(token: Seq<char>, aliases: Map<Seq<char>, SpecView>) -> Option<
    Seq<char>,
> {
    if aliases.contains_key(token) {
        match aliases[token] {
            SpecView::Bank { bank, index } => Some(bank),
            SpecView::Path(_) => None,
        }
    } else {
        match bank_ref(token) {
            Some((bank, index)) => Some(bank),
            None => if may_be_folder(token) {
                Some(token)
            } else {
                None
            },
        }
    }
}

/// A token of a track asks about a folder that has not been read.
pub open spec fn wants_folder(p: ProgramView, c: CatalogView, name: Seq<char>) -> bool {
    &&& !c.folders.contains_key(name)
    &&& exists|i: int, token: Seq<char>|
        0 <= i < p.tracks.len() && #[trigger] has_token(p.tracks[i].ast, token) && asked_folder(
            token,
            p.aliases,
        ) == Some(name)
}

fn folder_of(token: &str, aliases: &Table<SampleSpec>) -> (r: Option<String>)
    ensures
        match r {
            Some(name) => asked_folder(token@, aliases@) == Some(name@),
            None => asked_folder(token@, aliases@) is None,
        },
{
    match aliases.get(token) {
        Some(spec) => match spec {
            SampleSpec::Bank { bank, index } => Some(String::from_str(bank.as_str())),
            SampleSpec::Path(_) => None,
        },
        None => match parse_bank_ref(token) {
            Some((bank, _)) => Some(bank),
            None => if could_be_folder(token) {
                Some(String::from_str(token))
            } else {
                None
            },
        },
    }
}

/// One of the first `k` tokens asks about the folder, which has not been read.
spec fn token_wants(
    ts: Seq<Seq<char>>,
    k: int,
    aliases: Map<Seq<char>, SpecView>,
    c: CatalogView,
    name: Seq<char>,
) -> bool {
    &&& !c.folders.contains_key(name)
    &&& exists|i: int| 0 <= i < k && asked_folder(#[trigger] ts[i], aliases) == Some(name)
}

fn push_unread(
    tokens: &Vec<String>,
    aliases: &Table<SampleSpec>,
    samples: &Catalog,
    out: &mut Vec<String>,
)
    ensures
        forall|n: Seq<char>| #[trigger]
            views(final(out)@).contains(n) <==> views(old(out)@).contains(n) || token_wants(
                views(tokens@),
                tokens@.len() as int,
                aliases@,
                samples@,
                n,
            ),
{
    let ghost before = views(out@);
    let ghost ts = views(tokens@);
    let mut k: usize = 0;
    while k < tokens.len()
        invariant
            k <= tokens@.len(),
            ts == views(tokens@),
            forall|n: Seq<char>| #[trigger]
                views(out@).contains(n) <==> before.contains(n) || token_wants(
                    ts,
                    k as int,
                    aliases@,
                    samples@,
                    n,
                ),
        decreases tokens@.len() - k,
    {
        let ghost middle = views(out@);
        assert(ts[k as int] == tokens@[k as int]@);
        let ghost mut added: Option<Seq<char>> = None;
        if let Some(name) = folder_of(tokens[k].as_str(), aliases) {
            if !samples.knows(name.as_str()) {
                proof {
                    lemma_views_push(out@, name);
                    lemma_push_contains(middle, name@);
                    added = Some(name@);
                }
                out.push(name);
            }
        }
        proof {
            let after = views(out@);
            assert forall|n: Seq<char>| #[trigger]
                after.contains(n) <==> before.contains(n) || token_wants(
                    ts,
                    k + 1,
                    aliases@,
                    samples@,
                    n,
                ) by {
                assert(after.contains(n) <==> middle.contains(n) || added == Some(n));
                if token_wants(ts, k as int, aliases@, samples@, n) {
                    let i = choose|i: int|
                        0 <= i < k && asked_folder(#[trigger] ts[i], aliases@) == Some(n);
                    assert(asked_folder(ts[i], aliases@) == Some(n));
                }
                if added == Some(n) {
                    assert(asked_folder(ts[k as int], aliases@) == Some(n));
                }
                if token_wants(ts, k + 1, aliases@, samples@, n) {
                    let i = choose|i: int|
                        0 <= i < k + 1 && asked_folder(#[trigger] ts[i], aliases@) == Some(n);
                    if i < k {
                        assert(token_wants(ts, k as int, aliases@, samples@, n));
                    }
                }
            }
        }
        k += 1;
    }
}

impl Program {
    /// The folders that the tracks ask about and that have not been read.
    pub fn unread_folders(&self, samples: &Catalog) -> (r: Vec<String>)
        ensures
            forall|n: Seq<char>| #[trigger]
                views(r@).contains(n) <==> wants_folder(self@, samples@, n),
    {
        let mut out: Vec<String> = Vec::new();
        let mut k: usize = 0;
        while k < self.tracks.len()
            invariant
                k <= self.tracks@.len(),
                forall|n: Seq<char>| #[trigger]
                    views(out@).contains(n) <==> !samples@.folders.contains_key(n) && exists|
                        i: int,
                        token: Seq<char>,
                    |
                        0 <= i < k && #[trigger] has_token(self@.tracks[i].ast, token)
                            && asked_folder(token, self@.aliases) == Some(n),
            decreases self.tracks@.len() - k,
        {
            let ghost before = views(out@);
            assert(self@.tracks[k as int] == self.tracks@[k as int]@);
            let tokens = match &self.tracks[k].kind {
                TrackKind::Pattern { ast, .. } => ast.tokens(),
            };
            let ghost ts = views(tokens@);
            push_unread(&tokens, &self.aliases, samples, &mut out);
            proof {
                let after = views(out@);
                let p = self@;
                let ast = p.tracks[k as int].ast;
                assert forall|n: Seq<char>| #[trigger]
                    after.contains(n) <==> !samples@.folders.contains_key(n) && exists|
                        i: int,
                        token: Seq<char>,
                    |
                        0 <= i < k + 1 && #[trigger] has_token(p.tracks[i].ast, token)
                            && asked_folder(token, p.aliases) == Some(n) by {
                    assert(after.contains(n) <==> before.contains(n) || token_wants(
                        ts,
                        ts.len() as int,
                        p.aliases,
                        samples@,
                        n,
                    ));
                    if token_wants(ts, ts.len() as int, p.aliases, samples@, n) {
                        let j = choose|j: int|
                            0 <= j < ts.len() && asked_folder(#[trigger] ts[j], p.aliases) == Some(
                                n,
                            );
                        assert(ts.contains(ts[j]));
                        assert(has_token(p.tracks[k as int].ast, ts[j]));
                    }
                    if exists|i: int, token: Seq<char>|
                        0 <= i < k + 1 && #[trigger] has_token(p.tracks[i].ast, token)
                            && asked_folder(token, p.aliases) == Some(n) {
                        let (i, token) = choose|i: int, token: Seq<char>|
                            0 <= i < k + 1 && #[trigger] has_token(p.tracks[i].ast, token)
                                && asked_folder(token, p.aliases) == Some(n);
                        if i == k {
                            assert(ts.contains(token));
                            let j = choose|j: int| 0 <= j < ts.len() && ts[j] == token;
                            assert(asked_folder(ts[j], p.aliases) == Some(n));
                        } else {
                            assert(has_token(p.tracks[i].ast, token));
                        }
                    }
                }
            }
            k += 1;
        }
        out
    }
}

/// The token that an alias in the statement stands for.
pub open spec fn alias_target(text: Seq<char>) -> Option<Seq<char>> {
    let ws = words(normalized(trim(text)));
    if ws.len() == 3 && same_word(ws[0], "alias"@) {
        Some(ws[2])
    } else {
        None
    }
}

/// An alias in the text stands for the token.
pub open spec fn aliased(source: Seq<char>, token: Seq<char>) -> bool {
    exists|i: int|
        0 <= i < statements(source).len() && alias_target((#[trigger] statements(source)[i]).1)
            == Some(token)
}

fn read_alias(text: &str) -> (r: Option<String>)
    ensures
        match r {
            Some(t) => alias_target(text@) == Some(t@),
            None => alias_target(text@) is None,
        },
{
    let chars = chars_of(text);
    let line = trimmed(chars.as_slice());
    let norm = normalize_seq_line(line.as_slice());
    let ws = words_of(norm.as_slice());
    if ws.len() != 3 {
        return None;
    }
    assert(views(ws@)[0] == ws@[0]@);
    assert(views(ws@)[2] == ws@[2]@);
    if is_word(ws[0].as_slice(), "alias") {
        Some(text_of(ws[2].as_slice()))
    } else {
        None
    }
}

/// An alias in the first `k` statements stands for the token.
spec fn aliased_upto(all: Seq<(int, Seq<char>)>, k: int, token: Seq<char>) -> bool {
    exists|i: int| 0 <= i < k && alias_target((#[trigger] all[i]).1) == Some(token)
}

proof fn lemma_aliased_next(all: Seq<(int, Seq<char>)>, k: int, token: Seq<char>)
    requires
        0 <= k < all.len(),
    ensures
        aliased_upto(all, k + 1, token) <==> aliased_upto(all, k, token) || alias_target(all[k].1)
            == Some(token),
{
    if aliased_upto(all, k, token) {
        let i = choose|i: int| 0 <= i < k && alias_target((#[trigger] all[i]).1) == Some(token);
        assert(0 <= i < k + 1 && alias_target(all[i].1) == Some(token));
    }
    if alias_target(all[k].1) == Some(token) {
        assert(0 <= k < k + 1 && alias_target(all[k].1) == Some(token));
    }
    if aliased_upto(all, k + 1, token) {
        let i = choose|i: int|
            0 <= i < k + 1 && alias_target((#[trigger] all[i]).1) == Some(token);
        if i < k {
            assert(0 <= i < k && alias_target(all[i].1) == Some(token));
        }
    }
}

/// The tokens that the aliases in a text stand for.
pub fn alias_targets(source: &str) -> (r: Vec<String>)
    ensures
        forall|t: Seq<char>| #[trigger] views(r@).contains(t) <==> aliased(source@, t),
{
    let sts = merge_statement_lines(source);
    let ghost all = statement_views(sts@);
    let mut out: Vec<String> = Vec::new();
    let mut k: usize = 0;
    while k < sts.len()
        invariant
            k <= sts@.len(),
            all == statement_views(sts@),
            forall|t: Seq<char>| #[trigger]
                views(out@).contains(t) <==> aliased_upto(all, k as int, t),
        decreases sts@.len() - k,
    {
        let ghost before = views(out@);
        assert(all[k as int] == statement_view(sts@[k as int]));
        let found = read_alias(sts[k].1.as_str());
        proof {
            assert forall|t: Seq<char>| aliased_upto(all, k + 1, t) <==> #[trigger] before.contains(
                t,
            ) || alias_target(all[k as int].1) == Some(t) by {
                lemma_aliased_next(all, k as int, t);
            }
        }
        if let Some(t) = found {
            proof {
                lemma_views_push(out@, t);
                lemma_push_contains(before, t@);
            }
            out.push(t);
        }
        k += 1;
    }
    out
}

// ---------------------------------------------------------------------------------------------
// Laws
// ---------------------------------------------------------------------------------------------

/// Of the folder, both catalogs say the same.
pub open spec fn agree(c: CatalogView, d: CatalogView, name: Seq<char>) -> bool {
    &&& c.folders.contains_key(name) == d.folders.contains_key(name)
    &&& c.folders.contains_key(name) ==> c.folders[name] == d.folders[name]
}

/// What a token stands for depends on the folder that it asks about, and on no other.
pub proof fn tokens_depend_on_the_asked_folder(
    p: ProgramView,
    token: Seq<char>,
    c: CatalogView,
    d: CatalogView,
)
    requires
        c.root == d.root,
        asked_folder(token, p.aliases) is Some ==> agree(
            c,
            d,
            asked_folder(token, p.aliases)->0,
        ),
    ensures
        token_path(p, token, c) == token_path(p, token, d),
{
}

/// Every hit plays a token of the pattern.
spec fn hits_from(hs: Seq<ControlHitView>, ast: PatView) -> bool {
    forall|i: int| 0 <= i < hs.len() ==> has_token(ast, (#[trigger] hs[i]).token)
}

proof fn lemma_controlled_from(ast: PatView, lanes: LanesView, cycle: nat)
    ensures
        controlled(ast, lanes, cycle, 0real, 1real) is Ok ==> hits_from(
            controlled(ast, lanes, cycle, 0real, 1real)->Ok_0,
            ast,
        ),
{
    hits_play_tokens_of_the_pattern(ast, cycle, 0real, 1real);
    if let Ok(hs) = controlled(ast, lanes, cycle, 0real, 1real) {
        let h = hits(ast, cycle, 0real, 1real);
        assert forall|i: int| 0 <= i < hs.len() implies has_token(ast, (#[trigger] hs[i]).token) by {
            assert(hs[i].token == h[i].1);
        }
    }
}

proof fn lemma_slice_from(hs: Seq<ControlHitView>, k: nat, slot: nat, ast: PatView)
    requires
        hits_from(hs, ast),
    ensures
        hits_from(slice(hs, k, slot), ast),
    decreases hs.len(),
{
    if hs.len() > 0 {
        let d = hs.drop_last();
        assert(hits_from(d, ast)) by {
            assert forall|i: int| 0 <= i < d.len() implies has_token(ast, (#[trigger] d[i]).token) by {
                assert(hs[i] == d[i]);
            }
        }
        lemma_slice_from(d, k, slot, ast);
        assert(has_token(ast, hs[hs.len() - 1].token));
    }
}

proof fn lemma_packed_from(ast: PatView, lanes: LanesView, j: nat, k: nat, cycle: nat)
    ensures
        packed(ast, lanes, j, k, cycle) is Ok ==> hits_from(
            packed(ast, lanes, j, k, cycle)->Ok_0,
            ast,
        ),
    decreases j,
{
    if j > 0 {
        let i = (j - 1) as nat;
        lemma_packed_from(ast, lanes, i, k, cycle);
        let c = inner_cycle(cycle, k, i);
        lemma_controlled_from(ast, lanes, c);
        if packed(ast, lanes, j, k, cycle) is Ok {
            let before = packed(ast, lanes, i, k, cycle)->Ok_0;
            let hs = controlled(ast, lanes, c, 0real, 1real)->Ok_0;
            let sq = squeezed(hs, i, k);
            let all = before + sq;
            assert forall|m: int| 0 <= m < all.len() implies has_token(
                ast,
                (#[trigger] all[m]).token,
            ) by {
                if m < before.len() {
                    assert(all[m] == before[m]);
                } else {
                    assert(all[m] == sq[m - before.len()]);
                    assert(sq[m - before.len()].token == hs[m - before.len()].token);
                }
            }
        }
    }
}

proof fn lemma_track_hits_from(t: TrackView, cycle: nat)
    ensures
        track_hits(t, cycle) is Ok ==> hits_from(track_hits(t, cycle)->Ok_0, t.ast),
{
    match t.tempo {
        None => {
            lemma_controlled_from(t.ast, t.lanes, cycle);
        },
        Some(TempoWrap::Slow(k)) => {
            lemma_controlled_from(t.ast, t.lanes, cycle / (k as nat));
            if let Ok(hs) = controlled(t.ast, t.lanes, cycle / (k as nat), 0real, 1real) {
                lemma_slice_from(hs, k as nat, cycle % (k as nat), t.ast);
            }
        },
        Some(TempoWrap::Fast(k)) => {
            lemma_packed_from(t.ast, t.lanes, k as nat, k as nat, cycle);
        },
    }
}

proof fn lemma_events_agree(
    p: ProgramView,
    t: TrackView,
    hs: Seq<ControlHitView>,
    k: nat,
    c: CatalogView,
    d: CatalogView,
)
    requires
        c.root == d.root,
        hits_from(hs, t.ast),
        forall|token: Seq<char>| #[trigger]
            has_token(t.ast, token) && asked_folder(token, p.aliases) is Some ==> agree(
                c,
                d,
                asked_folder(token, p.aliases)->0,
            ),
    ensures
        events_upto(p, t, hs, k, c) == events_upto(p, t, hs, k, d),
    decreases k,
{
    if k > 0 && k <= hs.len() {
        lemma_events_agree(p, t, hs, (k - 1) as nat, c, d);
        assert(has_token(t.ast, hs[k - 1].token));
        tokens_depend_on_the_asked_folder(p, hs[k - 1].token, c, d);
    }
}

/// What a track plays depends on the folders that its tokens ask about, and on no others.
pub proof fn tracks_depend_on_the_asked_folders(
    p: ProgramView,
    t: TrackView,
    cycle: nat,
    c: CatalogView,
    d: CatalogView,
)
    requires
        c.root == d.root,
        forall|token: Seq<char>| #[trigger]
            has_token(t.ast, token) && asked_folder(token, p.aliases) is Some ==> agree(
                c,
                d,
                asked_folder(token, p.aliases)->0,
            ),
    ensures
        track_events(p, t, cycle, c) == track_events(p, t, cycle, d),
{
    lemma_track_hits_from(t, cycle);
    if let Ok(hs) = track_hits(t, cycle) {
        lemma_events_agree(p, t, hs, hs.len(), c, d);
    }
}

proof fn lemma_statement_agrees(
    s: DraftView,
    line_no: int,
    text: Seq<char>,
    c: CatalogView,
    d: CatalogView,
)
    requires
        alias_target(text) is Some ==> known_dir(c, alias_target(text)->0) == known_dir(
            d,
            alias_target(text)->0,
        ),
    ensures
        statement_step(s, line_no, text, c) == statement_step(s, line_no, text, d),
{
    reveal(statement_step);
    let line = normalized(trim(text));
    let ws = words(line);
    if ws.len() > 0 {
        if same_word(ws[0], "alias"@) && ws.len() == 3 {
            assert(alias_target(text) == Some(ws[2]));
            assert(raw_sample(ws[2], c) == raw_sample(ws[2], d));
        }
        assert(names_step(s, ws, c) == names_step(s, ws, d));
        assert(line_step(s, line_no, line, c) == line_step(s, line_no, line, d));
    }
}

proof fn lemma_drafted_agrees(
    s: DraftView,
    sts: Seq<(int, Seq<char>)>,
    k: nat,
    c: CatalogView,
    d: CatalogView,
)
    requires
        forall|i: int|
            0 <= i < sts.len() && alias_target((#[trigger] sts[i]).1) is Some ==> known_dir(
                c,
                alias_target(sts[i].1)->0,
            ) == known_dir(d, alias_target(sts[i].1)->0),
    ensures
        drafted(s, sts, k, c) == drafted(s, sts, k, d),
    decreases k,
{
    if k > 0 && k <= sts.len() {
        lemma_drafted_agrees(s, sts, (k - 1) as nat, c, d);
        if let Ok(m) = drafted(s, sts, (k - 1) as nat, c) {
            lemma_statement_agrees(m, sts[k - 1].0, sts[k - 1].1, c, d);
        }
    }
}

/// What a text says depends on which of the tokens that its aliases stand for are folders, and on
/// nothing else under the sample root.
pub proof fn programs_depend_on_alias_targets(
    source: Seq<char>,
    bpm: u32,
    c: CatalogView,
    d: CatalogView,
)
    requires
        forall|token: Seq<char>| #[trigger]
            aliased(source, token) ==> known_dir(c, token) == known_dir(d, token),
    ensures
        program_of(source, bpm, c) == program_of(source, bpm, d),
{
    let sts = statements(source);
    assert forall|i: int| 0 <= i < sts.len() && alias_target((#[trigger] sts[i]).1) is Some implies known_dir(
        c,
        alias_target(sts[i].1)->0,
    ) == known_dir(d, alias_target(sts[i].1)->0) by {
        let token = alias_target(sts[i].1)->0;
        assert(alias_target(statements(source)[i].1) == Some(token));
        assert(aliased(source, token));
    }
    lemma_drafted_agrees(blank(bpm), sts, sts.len(), c, d);
}

} // verus!
