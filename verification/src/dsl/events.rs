//! What a track plays in a cycle.

use vstd::prelude::*;

use crate::banks::{Catalog, CatalogView};
use crate::dsl::sample::token_path;
use crate::dsl::{
    valid_tempo, ErrorView, ParseError, Program, ProgramView, TempoWrap, Track, TrackKind,
    TrackView,
};
use crate::pat::eval::{cycle_within, inner_cycle};
use crate::pat::lanes::{
    controlled, eval_with_control_lanes, value_view, ControlHit, ControlHitView, LanesView,
};
use crate::pat::PatView;
use crate::ratio::Ratio;
use crate::text::{lemma_views_push, views};

verus! {

/// A hit to be scheduled.
#[derive(Debug)]
pub struct Event {
    /// Where in the cycle it starts.
    pub frac: Ratio,
    /// The sample that sounds.
    pub path: String,
    pub gain: Ratio,
    pub pan: Ratio,
    /// How likely it is to sound.
    pub prob: Option<Ratio>,
    /// How long it sounds, in milliseconds.
    pub dur_ms: Option<Ratio>,
    pub cut_group: Option<i32>,
    pub cut_voices: Option<u32>,
    pub cutoff_ms: Option<Ratio>,
}

#[verifier::ext_equal]
pub struct EventView {
    pub frac: real,
    pub path: Seq<char>,
    pub gain: real,
    pub pan: real,
    pub prob: Option<real>,
    pub dur_ms: Option<real>,
    pub cut_group: Option<i32>,
    pub cut_voices: Option<u32>,
    pub cutoff_ms: Option<real>,
}

impl View for Event {
    type V = EventView;

    open spec fn view(&self) -> EventView {
        EventView {
            frac: self.frac@,
            path: self.path@,
            gain: self.gain@,
            pan: self.pan@,
            prob: value_view(self.prob),
            dur_ms: value_view(self.dur_ms),
            cut_group: self.cut_group,
            cut_voices: self.cut_voices,
            cutoff_ms: value_view(self.cutoff_ms),
        }
    }
}

// ---------------------------------------------------------------------------------------------
// Tempo
// ---------------------------------------------------------------------------------------------

/// The part of the hits, stretched over `k` cycles, that falls into the one numbered `slot`.
pub open spec fn slice(hs: Seq<ControlHitView>, k: nat, slot: nat) -> Seq<ControlHitView>
    decreases hs.len(),
{
    if hs.len() == 0 {
        hs
    } else {
        let before = slice(hs.drop_last(), k, slot);
        let x = hs.last().at * (k as real);
        if slot as real <= x < slot as real + 1real {
            before.push(ControlHitView { at: x - slot as real, ..hs.last() })
        } else {
            before
        }
    }
}

/// The hits squeezed into the share numbered `j` of `k` in the cycle.
pub open spec fn squeezed(hs: Seq<ControlHitView>, j: nat, k: nat) -> Seq<ControlHitView> {
    Seq::new(
        hs.len(),
        |i: int|
            ControlHitView {
                at: j as real / k as real + hs[i].at * (1real / k as real),
                ..hs[i]
            },
    )
}

/// The hits of the first `j` of `k` inner cycles.
pub open spec fn packed(
    ast: PatView,
    lanes: LanesView,
    j: nat,
    k: nat,
    cycle: nat,
) -> Result<Seq<ControlHitView>, Seq<char>>
    decreases j,
{
    if j == 0 {
        Ok(seq![])
    } else {
        let i = (j - 1) as nat;
        match packed(ast, lanes, i, k, cycle) {
            Err(e) => Err(e),
            Ok(before) => match controlled(ast, lanes, inner_cycle(cycle, k, i), 0real, 1real) {
                Err(e) => Err(e),
                Ok(hs) => Ok(before + squeezed(hs, i, k)),
            },
        }
    }
}

/// The hits of a track in a cycle.
pub open spec fn track_hits(t: TrackView, cycle: nat) -> Result<Seq<ControlHitView>, Seq<char>> {
    match t.tempo {
        None => controlled(t.ast, t.lanes, cycle, 0real, 1real),
        Some(TempoWrap::Slow(k)) => match controlled(
            t.ast,
            t.lanes,
            cycle / (k as nat),
            0real,
            1real,
        ) {
            Err(e) => Err(e),
            Ok(hs) => Ok(slice(hs, k as nat, cycle % (k as nat))),
        },
        Some(TempoWrap::Fast(k)) => packed(t.ast, t.lanes, k as nat, k as nat, cycle),
    }
}

// ---------------------------------------------------------------------------------------------
// Events
// ---------------------------------------------------------------------------------------------

pub open spec fn positive(x: real) -> real {
    if x <= 0real {
        0real
    } else {
        x
    }
}

/// The length of a cycle in milliseconds.
pub open spec fn cycle_ms(bpm: u32) -> real {
    60000real / (if bpm == 0 {
        1real
    } else {
        bpm as real
    })
}

/// How long the hit numbered `i` lasts until the next one, as a part of the cycle; the first hit
/// follows on the last, a cycle later.
pub open spec fn gap(hs: Seq<ControlHitView>, i: int) -> real {
    let next = if i + 1 < hs.len() {
        hs[i + 1].at
    } else {
        hs[0].at + 1real
    };
    positive(next - hs[i].at)
}

/// How long the hit numbered `i` sounds: as its duration says, else as its legato says.
pub open spec fn duration(hs: Seq<ControlHitView>, i: int, bpm: u32) -> Option<real> {
    match hs[i].dur {
        Some(d) => Some(d),
        None => match hs[i].legato {
            Some(l) => Some(positive(gap(hs, i) * cycle_ms(bpm) * l)),
            None => None,
        },
    }
}

/// The hit numbered `i` as an event.
pub open spec fn event_of(
    p: ProgramView,
    t: TrackView,
    hs: Seq<ControlHitView>,
    i: int,
    path: Seq<char>,
) -> EventView {
    EventView {
        frac: hs[i].at,
        path,
        gain: t.gain * hs[i].gain * p.master_gain,
        pan: hs[i].pan,
        prob: hs[i].prob,
        dur_ms: duration(hs, i, p.bpm),
        cut_group: hs[i].cut_group,
        cut_voices: hs[i].cut_voices,
        cutoff_ms: hs[i].cutoff,
    }
}

/// The first `k` hits as events, or the first complaint about a token.
pub open spec fn events_upto(
    p: ProgramView,
    t: TrackView,
    hs: Seq<ControlHitView>,
    k: nat,
    c: CatalogView,
) -> Result<Seq<EventView>, Seq<char>>
    decreases k,
{
    if k == 0 || k > hs.len() {
        Ok(seq![])
    } else {
        match events_upto(p, t, hs, (k - 1) as nat, c) {
            Err(e) => Err(e),
            Ok(evs) => match token_path(p, hs[k - 1].token, c) {
                Err(e) => Err(e),
                Ok(path) => Ok(evs.push(event_of(p, t, hs, k - 1, path))),
            },
        }
    }
}

/// The track of that name sounds.
pub open spec fn audible(p: ProgramView, name: Seq<char>) -> bool {
    &&& !p.mute_all
    &&& !p.silenced.contains(name)
    &&& p.soloed == Set::<Seq<char>>::empty() || p.soloed.contains(name)
}

/// The events of a track in a cycle.
pub open spec fn track_events(p: ProgramView, t: TrackView, cycle: nat, c: CatalogView) -> Result<
    Seq<EventView>,
    ErrorView,
> {
    if !audible(p, t.name) {
        Ok(seq![])
    } else {
        match track_hits(t, cycle) {
            Err(message) => Err(ErrorView { line: t.line, message }),
            Ok(hs) => match events_upto(p, t, hs, hs.len(), c) {
                Err(message) => Err(ErrorView { line: t.line, message }),
                Ok(evs) => Ok(evs),
            },
        }
    }
}

fn slice_hits(hs: Vec<ControlHit>, k: u32, slot: u64) -> (r: Vec<ControlHit>)
    ensures
        views(r@) == slice(views(hs@), k as nat, slot as nat),
{
    let ghost all = views(hs@);
    let factor = Ratio::from_u64(k as u64);
    let from = Ratio::from_u64(slot);
    let to = from.plus(&Ratio::one());
    let mut out: Vec<ControlHit> = Vec::new();
    assert(views(out@) =~= slice(all.take(0), k as nat, slot as nat));
    for hit in it: hs
        invariant
            it.seq() == hs@,
            all == views(hs@),
            factor@ == k as real,
            from@ == slot as real,
            to@ == slot as real + 1real,
            views(out@) == slice(all.take(it.index()), k as nat, slot as nat),
    {
        proof {
            let i = it.index();
            assert(all.take(i + 1).drop_last() =~= all.take(i));
            assert(all.take(i + 1).last() == hit@);
        }
        let x = hit.at.times(&factor);
        if from.at_most(&x) && x.below(&to) {
            let moved = ControlHit { at: x.minus(&from), ..hit };
            proof {
                lemma_views_push(out@, moved);
            }
            out.push(moved);
        }
    }
    assert(all.take(all.len() as int) =~= all);
    out
}

fn push_squeezed(out: &mut Vec<ControlHit>, hs: Vec<ControlHit>, j: u32, k: u32)
    requires
        k > 0,
    ensures
        views(final(out)@) == views(old(out)@) + squeezed(views(hs@), j as nat, k as nat),
{
    let ghost all = views(hs@);
    let ghost before = views(out@);
    let ghost goal = squeezed(all, j as nat, k as nat);
    let start = Ratio::fraction(j as u64, k as u64);
    let width = Ratio::fraction(1, k as u64);
    assert(before + goal.take(0) =~= before);
    for hit in it: hs
        invariant
            it.seq() == hs@,
            all == views(hs@),
            goal == squeezed(all, j as nat, k as nat),
            start@ == j as real / k as real,
            width@ == 1real / k as real,
            views(out@) == before + goal.take(it.index()),
    {
        let ghost i = it.index();
        let moved = ControlHit { at: start.plus(&hit.at.times(&width)), ..hit };
        proof {
            lemma_views_push(out@, moved);
            assert(all[i] == hs@[i]@);
            assert(goal[i] == moved@);
            assert(goal.take(i + 1) =~= goal.take(i).push(moved@));
            assert((before + goal.take(i)).push(moved@) =~= before + goal.take(i).push(moved@));
        }
        out.push(moved);
    }
    assert(goal.take(all.len() as int) =~= goal);
}

/// What is wrong with one inner cycle is wrong with all.
proof fn lemma_packed_error(
    ast: PatView,
    lanes: LanesView,
    j: nat,
    n: nat,
    k: nat,
    cycle: nat,
    e: Seq<char>,
)
    requires
        j <= n,
        packed(ast, lanes, j, k, cycle) == Err::<Seq<ControlHitView>, Seq<char>>(e),
    ensures
        packed(ast, lanes, n, k, cycle) == Err::<Seq<ControlHitView>, Seq<char>>(e),
    decreases n - j,
{
    if j < n {
        lemma_packed_error(ast, lanes, j + 1, n, k, cycle, e);
    }
}

pub open spec fn hits_view(r: Result<Vec<ControlHit>, String>) -> Result<
    Seq<ControlHitView>,
    Seq<char>,
> {
    match r {
        Ok(v) => Ok(views(v@)),
        Err(e) => Err(e@),
    }
}

/// The hits of a track in a cycle.
pub fn eval_pattern_tempo(track: &Track, cycle: u64) -> (r: Result<Vec<ControlHit>, String>)
    requires
        valid_tempo(track@.tempo),
    ensures
        hits_view(r) == track_hits(track@, cycle as nat),
{
    let TrackKind::Pattern {
        ast,
        gain_lane,
        pan_lane,
        prob_lane,
        dur_lane,
        legato_lane,
        cut_group_lane,
        cut_voices_lane,
        cutoff_lane,
        tempo,
        line,
    } = &track.kind;
    let ghost lanes = track@.lanes;
    let zero = Ratio::zero();
    let one = Ratio::one();
    match tempo {
        None => eval_with_control_lanes(
            ast,
            gain_lane.as_ref(),
            pan_lane.as_ref(),
            prob_lane.as_ref(),
            dur_lane.as_ref(),
            legato_lane.as_ref(),
            cut_group_lane.as_ref(),
            cut_voices_lane.as_ref(),
            cutoff_lane.as_ref(),
            cycle,
            &zero,
            &one,
        ),
        Some(TempoWrap::Slow(k)) => {
            match eval_with_control_lanes(
                ast,
                gain_lane.as_ref(),
                pan_lane.as_ref(),
                prob_lane.as_ref(),
                dur_lane.as_ref(),
                legato_lane.as_ref(),
                cut_group_lane.as_ref(),
                cut_voices_lane.as_ref(),
                cutoff_lane.as_ref(),
                cycle / (*k as u64),
                &zero,
                &one,
            ) {
                Ok(hs) => Ok(slice_hits(hs, *k, cycle % (*k as u64))),
                Err(e) => Err(e),
            }
        },
        Some(TempoWrap::Fast(k)) => {
            let mut out: Vec<ControlHit> = Vec::new();
            let mut j: u32 = 0;
            assert(views(out@) =~= seq![]);
            while j < *k
                invariant
                    j <= *k,
                    zero@ == 0real,
                    one@ == 1real,
                    track@.tempo == Some(TempoWrap::Fast(*k)),
                    track@.ast == ast@,
                    lanes == track@.lanes,
                    lanes == (LanesView {
                        gain: crate::dsl::sound::owned_view(*gain_lane),
                        pan: crate::dsl::sound::owned_view(*pan_lane),
                        prob: crate::dsl::sound::owned_view(*prob_lane),
                        dur: crate::dsl::sound::owned_view(*dur_lane),
                        legato: crate::dsl::sound::owned_view(*legato_lane),
                        cut_group: crate::dsl::sound::owned_view(*cut_group_lane),
                        cut_voices: crate::dsl::sound::owned_view(*cut_voices_lane),
                        cutoff: crate::dsl::sound::owned_view(*cutoff_lane),
                    }),
                    packed(ast@, lanes, j as nat, *k as nat, cycle as nat) == Ok::<
                        Seq<ControlHitView>,
                        Seq<char>,
                    >(views(out@)),
                decreases *k - j,
            {
                match eval_with_control_lanes(
                    ast,
                    gain_lane.as_ref(),
                    pan_lane.as_ref(),
                    prob_lane.as_ref(),
                    dur_lane.as_ref(),
                    legato_lane.as_ref(),
                    cut_group_lane.as_ref(),
                    cut_voices_lane.as_ref(),
                    cutoff_lane.as_ref(),
                    cycle_within(cycle, *k, j),
                    &zero,
                    &one,
                ) {
                    Ok(hs) => {
                        push_squeezed(&mut out, hs, j, *k);
                    },
                    Err(e) => {
                        proof {
                            lemma_packed_error(
                                ast@,
                                lanes,
                                (j + 1) as nat,
                                *k as nat,
                                *k as nat,
                                cycle as nat,
                                e@,
                            );
                        }
                        return Err(e);
                    },
                }
                j += 1;
            }
            Ok(out)
        },
    }
}

fn floor_zero(x: Ratio) -> (r: Ratio)
    ensures
        r@ == positive(x@),
{
    if x.at_most(&Ratio::zero()) {
        Ratio::zero()
    } else {
        x
    }
}

fn copy_ratio(x: &Option<Ratio>) -> (r: Option<Ratio>)
    ensures
        value_view(r) == value_view(*x),
{
    match x {
        Some(x) => Some(x.duplicate()),
        None => None,
    }
}

fn hit_duration(hs: &Vec<ControlHit>, i: usize, bpm: u32) -> (r: Option<Ratio>)
    requires
        i < hs@.len(),
    ensures
        value_view(r) == duration(views(hs@), i as int, bpm),
{
    let ghost v = views(hs@);
    assert(v[i as int] == hs@[i as int]@);
    if let Some(d) = &hs[i].dur {
        return Some(d.duplicate());
    }
    match &hs[i].legato {
        None => None,
        Some(l) => {
            let beats: u64 = if bpm == 0 {
                1
            } else {
                bpm as u64
            };
            let ms = Ratio::fraction(60000, beats);
            let n: usize = hs.len();
            let next = if i + 1 < n {
                assert(v[i + 1] == hs@[i + 1]@);
                hs[i + 1].at.duplicate()
            } else {
                assert(v[0] == hs@[0]@);
                hs[0].at.plus(&Ratio::one())
            };
            let span = floor_zero(next.minus(&hs[i].at));
            Some(floor_zero(span.times(&ms).times(l)))
        },
    }
}

proof fn lemma_events_error(
    p: ProgramView,
    t: TrackView,
    hs: Seq<ControlHitView>,
    k: nat,
    c: CatalogView,
    e: Seq<char>,
)
    requires
        k <= hs.len(),
        events_upto(p, t, hs, k, c) == Err::<Seq<EventView>, Seq<char>>(e),
    ensures
        events_upto(p, t, hs, hs.len(), c) == Err::<Seq<EventView>, Seq<char>>(e),
    decreases hs.len() - k,
{
    if k < hs.len() {
        lemma_events_error(p, t, hs, k + 1, c, e);
    }
}

pub open spec fn events_view(r: Result<Vec<Event>, ParseError>) -> Result<
    Seq<EventView>,
    ErrorView,
> {
    match r {
        Ok(v) => Ok(views(v@)),
        Err(e) => Err(e@),
    }
}

impl Program {
    /// What a track plays in a cycle.
    pub fn events_for_track(&self, track: &Track, cycle_index: u64, samples: &Catalog) -> (r:
        Result<Vec<Event>, ParseError>)
        requires
            valid_tempo(track@.tempo),
        ensures
            events_view(r) == track_events(self@, track@, cycle_index as nat, samples@),
    {
        let mut out: Vec<Event> = Vec::new();
        assert(views(out@) =~= seq![]);
        if self.mute_all || self.silenced.contains(track.name.as_str()) {
            return Ok(out);
        }
        if !self.soloed.is_empty() && !self.soloed.contains(track.name.as_str()) {
            return Ok(out);
        }
        let line = match &track.kind {
            TrackKind::Pattern { line, .. } => *line,
        };
        let hs = match eval_pattern_tempo(track, cycle_index) {
            Ok(hs) => hs,
            Err(message) => {
                return Err(ParseError { line, message });
            },
        };
        let ghost v = views(hs@);
        let mut i: usize = 0;
        while i < hs.len()
            invariant
                i <= hs@.len(),
                v == views(hs@),
                audible(self@, track@.name),
                line == track@.line,
                track_hits(track@, cycle_index as nat) == Ok::<Seq<ControlHitView>, Seq<char>>(v),
                events_upto(self@, track@, v, i as nat, samples@) == Ok::<
                    Seq<EventView>,
                    Seq<char>,
                >(views(out@)),
            decreases hs@.len() - i,
        {
            assert(v[i as int] == hs@[i as int]@);
            let path = match self.resolve_token_path(line, hs[i].token.as_str(), samples) {
                Ok(path) => path,
                Err(e) => {
                    proof {
                        lemma_events_error(
                            self@,
                            track@,
                            v,
                            (i + 1) as nat,
                            samples@,
                            e.message@,
                        );
                    }
                    return Err(e);
                },
            };
            let event = Event {
                frac: hs[i].at.duplicate(),
                path,
                gain: track.gain.times(&hs[i].gain).times(&self.master_gain),
                pan: hs[i].pan.duplicate(),
                prob: copy_ratio(&hs[i].prob),
                dur_ms: hit_duration(&hs, i, self.bpm),
                cut_group: hs[i].cut_group,
                cut_voices: hs[i].cut_voices,
                cutoff_ms: copy_ratio(&hs[i].cutoff),
            };
            proof {
                lemma_views_push(out@, event);
            }
            out.push(event);
            i += 1;
        }
        Ok(out)
    }
}

} // verus!
