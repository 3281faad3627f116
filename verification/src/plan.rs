//! The hits of a cycle: gathered from all tracks, drawn by chance, swung and shifted, and put on
//! the frames of the output.
//!
//! Chance is deterministic: the numbers of a hit are hashed from its cycle, its track, its sample and
//! the bits of its place. The rest of the plan takes them as numbers from the whole range of `u64`.

use std::collections::hash_map::DefaultHasher;
use std::hash::Hasher;

use vstd::bytes::{spec_u64_to_le_bytes, u64_to_le_bytes};
use vstd::prelude::*;
use vstd::std_specs::hash::DefaultHasherAdditionalSpecFns;
use vstd::string::StringExecFns;
use vstd::utf8::encode_utf8;

use crate::audio::{clip_len, hit_offset_frames, offset_frames, voice_fault, Audio, PreparedVoice};
use crate::banks::{Catalog, CatalogView};
use crate::binary::{double_bits, double_bits_of};
use crate::dsl::events::{events_upto, track_events, track_hits, Event, EventView};
use crate::dsl::program::tempos_valid;
use crate::dsl::{ErrorView, ParseError, Program, ProgramView, TrackView};
use crate::order::{
    in_order, sort, sorted, sorting_is_stable, sorting_keeps_and_orders, Ranked,
};
use crate::pat::lanes::{or_value, value_view, ControlHitView};
use crate::ratio::{lemma_div, rounded, Ratio};
use crate::text::{lemma_views_push, views};

verus! {

// ---------------------------------------------------------------------------------------------
// Gathering
// ---------------------------------------------------------------------------------------------

/// An event with the name of its track.
#[derive(Debug)]
pub struct CycleEvent {
    pub track: String,
    pub event: Event,
}

#[verifier::ext_equal]
pub struct CycleEventView {
    pub track: Seq<char>,
    pub event: EventView,
}

impl View for CycleEvent {
    type V = CycleEventView;

    open spec fn view(&self) -> CycleEventView {
        CycleEventView { track: self.track@, event: self.event@ }
    }
}

impl Ranked for CycleEvent {
    open spec fn ordered(a: CycleEventView, b: CycleEventView) -> bool {
        a.event.frac <= b.event.frac
    }

    fn not_after(&self, other: &Self) -> (r: bool) {
        self.event.frac.at_most(&other.event.frac)
    }
}

/// A track that cannot be played.
#[derive(Debug)]
pub struct TrackFault {
    pub track: String,
    pub error: ParseError,
}

#[verifier::ext_equal]
pub struct TrackFaultView {
    pub track: Seq<char>,
    pub error: ErrorView,
}

impl View for TrackFault {
    type V = TrackFaultView;

    open spec fn view(&self) -> TrackFaultView {
        TrackFaultView { track: self.track@, error: self.error@ }
    }
}

/// Events under the name of their track.
pub open spec fn of_track(name: Seq<char>, es: Seq<EventView>) -> Seq<CycleEventView> {
    Seq::new(es.len(), |i: int| CycleEventView { track: name, event: es[i] })
}

/// The events of the first `k` tracks, without those that cannot be played.
pub open spec fn gathered(p: ProgramView, cycle: nat, c: CatalogView, k: nat) -> Seq<
    CycleEventView,
>
    decreases k,
{
    if k == 0 || k > p.tracks.len() {
        seq![]
    } else {
        let before = gathered(p, cycle, c, (k - 1) as nat);
        match track_events(p, p.tracks[k - 1], cycle, c) {
            Ok(es) => before + of_track(p.tracks[k - 1].name, es),
            Err(_) => before,
        }
    }
}

/// Those of the first `k` tracks that cannot be played.
pub open spec fn gathered_faults(p: ProgramView, cycle: nat, c: CatalogView, k: nat) -> Seq<
    TrackFaultView,
>
    decreases k,
{
    if k == 0 || k > p.tracks.len() {
        seq![]
    } else {
        let before = gathered_faults(p, cycle, c, (k - 1) as nat);
        match track_events(p, p.tracks[k - 1], cycle, c) {
            Ok(_) => before,
            Err(error) => before.push(TrackFaultView { track: p.tracks[k - 1].name, error }),
        }
    }
}

/// The events of a cycle, in order.
pub open spec fn cycle_events(p: ProgramView, cycle: nat, c: CatalogView) -> Seq<CycleEventView> {
    sorted::<CycleEvent>(gathered(p, cycle, c, p.tracks.len()))
}

fn push_events(out: &mut Vec<CycleEvent>, name: &str, es: Vec<Event>)
    ensures
        views(final(out)@) == views(old(out)@) + of_track(name@, views(es@)),
{
    let ghost before = views(out@);
    let ghost goal = of_track(name@, views(es@));
    assert(before + goal.take(0) =~= before);
    for event in it: es
        invariant
            it.seq() == es@,
            goal == of_track(name@, views(es@)),
            views(out@) == before + goal.take(it.index()),
    {
        let ghost i = it.index();
        let e = CycleEvent { track: String::from_str(name), event };
        proof {
            lemma_views_push(out@, e);
            assert(goal[i] == e@);
            assert(goal.take(i + 1) =~= goal.take(i).push(e@));
            assert((before + goal.take(i)).push(e@) =~= before + goal.take(i).push(e@));
        }
        out.push(e);
    }
    assert(goal.take(es@.len() as int) =~= goal);
}

/// The events of a cycle, in order, and the tracks that cannot be played.
pub fn collect_cycle_events(program: &Program, cycle_index: u64, samples: &Catalog) -> (r: (
    Vec<CycleEvent>,
    Vec<TrackFault>,
))
    requires
        tempos_valid(program.tracks@),
    ensures
        views(r.0@) == cycle_events(program@, cycle_index as nat, samples@),
        views(r.1@) == gathered_faults(
            program@,
            cycle_index as nat,
            samples@,
            program@.tracks.len(),
        ),
{
    let mut out: Vec<CycleEvent> = Vec::new();
    let mut faults: Vec<TrackFault> = Vec::new();
    let mut k: usize = 0;
    assert(views(out@) =~= seq![]);
    assert(views(faults@) =~= seq![]);
    while k < program.tracks.len()
        invariant
            k <= program.tracks@.len(),
            tempos_valid(program.tracks@),
            views(out@) == gathered(program@, cycle_index as nat, samples@, k as nat),
            views(faults@) == gathered_faults(
                program@,
                cycle_index as nat,
                samples@,
                k as nat,
            ),
        decreases program.tracks@.len() - k,
    {
        assert(program@.tracks[k as int] == program.tracks@[k as int]@);
        let t = &program.tracks[k];
        match program.events_for_track(t, cycle_index, samples) {
            Ok(es) => {
                push_events(&mut out, t.name.as_str(), es);
            },
            Err(error) => {
                let f = TrackFault { track: t.name.clone(), error };
                proof {
                    lemma_views_push(faults@, f);
                }
                faults.push(f);
            },
        }
        k += 1;
    }
    (sort(out), faults)
}

// ---------------------------------------------------------------------------------------------
// Chance and time
// ---------------------------------------------------------------------------------------------

/// A hit of probability `p` sounds, given the number drawn.
pub open spec fn passes(p: real, draw: u64) -> bool {
    if p <= 0real {
        false
    } else if p >= 1real {
        true
    } else {
        draw as real / 0xffff_ffff_ffff_ffffu64 as real <= p
    }
}

/// Whether a hit of probability `prob` sounds, given the number drawn.
pub fn probability_gate(prob: &Ratio, draw: u64) -> (r: bool)
    ensures
        r == passes(prob@, draw),
{
    if prob.at_most(&Ratio::zero()) {
        return false;
    }
    if Ratio::one().at_most(prob) {
        return true;
    }
    Ratio::fraction(draw, 0xffff_ffff_ffff_ffff).at_most(prob)
}

/// The latest place in a cycle that a hit is moved to.
pub open spec fn latest() -> real {
    999999real / 1000000real
}

/// The whole eighths of a cycle before `frac`.
pub open spec fn eighths(frac: real) -> nat {
    rounded(frac * 8real - 1real / 2real, u64::MAX as nat)
}

/// `frac`, later by up to a sixteenth if it lies in an odd eighth.
pub open spec fn swung(frac: real, swing: real) -> real {
    if swing <= 0real {
        frac
    } else {
        let s = if swing <= 1real {
            swing
        } else {
            1real
        };
        if eighths(frac) % 2 == 1 {
            let x = frac + s * (1real / 16real);
            if x <= latest() {
                x
            } else {
                latest()
            }
        } else {
            frac
        }
    }
}

/// Delay what lies in odd eighths of a cycle.
pub fn apply_swing(frac: &Ratio, swing: &Ratio) -> (r: Ratio)
    ensures
        r@ == swung(frac@, swing@),
{
    if swing.at_most(&Ratio::zero()) {
        return frac.duplicate();
    }
    let s = swing.least(&Ratio::one());
    let slot = frac.times(&Ratio::from_u64(8)).minus(&Ratio::fraction(1, 2)).round_capped(u64::MAX);
    if slot % 2 == 1 {
        let x = frac.plus(&s.times(&Ratio::fraction(1, 16)));
        x.least(&Ratio::fraction(999_999, 1_000_000))
    } else {
        frac.duplicate()
    }
}

/// The length of a cycle in milliseconds, at least one.
pub open spec fn whole_cycle_ms(bpm: u32) -> real {
    let ms = 60000real / (if bpm == 0 {
        1real
    } else {
        bpm as real
    });
    if ms <= 1real {
        1real
    } else {
        ms
    }
}

/// `x` held between 0 and the latest place.
pub open spec fn held(x: real) -> real {
    if x <= 0real {
        0real
    } else if x <= latest() {
        x
    } else {
        latest()
    }
}

/// `frac`, moved by up to `humanize_ms` either way, as the number drawn says.
pub open spec fn humanized(frac: real, humanize_ms: real, bpm: u32, draw: u64) -> real {
    if humanize_ms <= 0real {
        frac
    } else {
        let u = draw as real / 0xffff_ffff_ffff_ffffu64 as real;
        held(frac + (u * 2real - 1real) * humanize_ms / whole_cycle_ms(bpm))
    }
}

/// Move a hit a little, as the number drawn says.
pub fn apply_humanize(frac: &Ratio, humanize_ms: &Ratio, bpm: u32, draw: u64) -> (r: Ratio)
    ensures
        r@ == humanized(frac@, humanize_ms@, bpm, draw),
{
    if humanize_ms.at_most(&Ratio::zero()) {
        return frac.duplicate();
    }
    let u = Ratio::fraction(draw, 0xffff_ffff_ffff_ffff);
    let one = Ratio::one();
    let jitter = u.times(&Ratio::from_u64(2)).minus(&one).times(humanize_ms);
    let beats: u64 = if bpm == 0 {
        1
    } else {
        bpm as u64
    };
    let ms = Ratio::fraction(60000, beats);
    let cycle = ms.greatest(&one);
    let x = frac.plus(&jitter.over(&cycle));
    if x.at_most(&Ratio::zero()) {
        return Ratio::zero();
    }
    x.least(&Ratio::fraction(999_999, 1_000_000))
}

// ---------------------------------------------------------------------------------------------
// The plan
// ---------------------------------------------------------------------------------------------

/// The numbers drawn for an event: whether it sounds, and where.
#[derive(Debug, Clone, Copy, PartialEq, Eq, Structural)]
pub struct Draw {
    pub gate: u64,
    pub jitter: u64,
}

/// A text as a hasher takes it in: its bytes, and one that no text has.
pub open spec fn hashed_text(so_far: Seq<Seq<u8>>, text: Seq<char>) -> Seq<Seq<u8>> {
    so_far.push(encode_utf8(text)).push(seq![0xffu8])
}

/// A number as a hasher takes it in: its bytes, the least first.
pub open spec fn hashed_number(so_far: Seq<Seq<u8>>, n: u64) -> Seq<Seq<u8>> {
    so_far.push(spec_u64_to_le_bytes(n))
}

/// The cycle, the track and the place of a hit as a hasher takes them in.
pub open spec fn hashed_hit(cycle_index: u64, track: Seq<char>, place: u64) -> Seq<Seq<u8>> {
    hashed_number(hashed_text(hashed_number(seq![], cycle_index), track), place)
}

/// The numbers drawn for a hit. They depend on the cycle, the track, the sample, and the bits of
/// where the hit starts before and after swing, and on nothing else.
pub open spec fn drawn(
    cycle_index: u64,
    track: Seq<char>,
    path: Seq<char>,
    onset_bits: u64,
    swung_bits: u64,
) -> Draw {
    Draw {
        gate: DefaultHasher::spec_finish(
            hashed_text(hashed_hit(cycle_index, track, onset_bits), path),
        ),
        jitter: DefaultHasher::spec_finish(hashed_hit(cycle_index, track, swung_bits)),
    }
}

fn hash_text(h: &mut DefaultHasher, text: &str)
    ensures
        final(h)@ == hashed_text(old(h)@, text@),
{
    h.write(text.as_bytes());
    let end: [u8; 1] = [0xff];
    assert(end@ =~= seq![0xffu8]);
    h.write(end.as_slice());
}

fn hash_number(h: &mut DefaultHasher, n: u64)
    ensures
        final(h)@ == hashed_number(old(h)@, n),
{
    let bytes = u64_to_le_bytes(n);
    h.write(bytes.as_slice());
}

/// Draw the numbers for a hit.
pub fn draw(cycle_index: u64, track: &str, path: &str, onset_bits: u64, swung_bits: u64) -> (r: Draw)
    ensures
        r == drawn(cycle_index, track@, path@, onset_bits, swung_bits),
{
    let mut gate = DefaultHasher::new();
    hash_number(&mut gate, cycle_index);
    hash_text(&mut gate, track);
    hash_number(&mut gate, onset_bits);
    hash_text(&mut gate, path);
    let mut jitter = DefaultHasher::new();
    hash_number(&mut jitter, cycle_index);
    hash_text(&mut jitter, track);
    hash_number(&mut jitter, swung_bits);
    Draw { gate: gate.finish(), jitter: jitter.finish() }
}

/// The bits of where an event starts, before and after swing.
pub open spec fn event_bits(e: CycleEventView, swing: real) -> (u64, u64) {
    (double_bits(e.event.frac), double_bits(swung(e.event.frac, swing)))
}

/// The bits of where each event starts, before and after swing.
pub fn place_bits(events: &Vec<CycleEvent>, swing: &Ratio) -> (r: Vec<(u64, u64)>)
    ensures
        r@.len() == events@.len(),
        forall|i: int|
            0 <= i < r@.len() ==> #[trigger] r@[i] == event_bits(events@[i]@, swing@),
{
    let mut out: Vec<(u64, u64)> = Vec::new();
    let mut i: usize = 0;
    while i < events.len()
        invariant
            i <= events@.len(),
            out@.len() == i,
            forall|j: int|
                0 <= j < i ==> #[trigger] out@[j] == event_bits(events@[j]@, swing@),
        decreases events@.len() - i,
    {
        let frac = &events[i].event.frac;
        out.push((double_bits_of(frac), double_bits_of(&apply_swing(frac, swing))));
        i += 1;
    }
    out
}

/// Draw the numbers for each event of a cycle, given the bits of where it starts before and after
/// swing.
pub fn draw_events(events: &Vec<CycleEvent>, cycle_index: u64, bits: &Vec<(u64, u64)>) -> (r: Vec<
    Draw,
>)
    requires
        bits@.len() == events@.len(),
    ensures
        r@.len() == events@.len(),
        forall|i: int|
            0 <= i < r@.len() ==> #[trigger] r@[i] == drawn(
                cycle_index,
                events@[i]@.track,
                events@[i]@.event.path,
                bits@[i].0,
                bits@[i].1,
            ),
{
    let mut out: Vec<Draw> = Vec::new();
    let mut i: usize = 0;
    while i < events.len()
        invariant
            i <= events@.len(),
            bits@.len() == events@.len(),
            out@.len() == i,
            forall|j: int|
                0 <= j < i ==> #[trigger] out@[j] == drawn(
                    cycle_index,
                    events@[j]@.track,
                    events@[j]@.event.path,
                    bits@[j].0,
                    bits@[j].1,
                ),
        decreases events@.len() - i,
    {
        let e = &events[i];
        let (onset, swung) = bits[i];
        out.push(draw(cycle_index, e.track.as_str(), e.event.path.as_str(), onset, swung));
        i += 1;
    }
    out
}

/// A hit that sounds, on its frame.
#[derive(Debug)]
pub struct PlannedHit {
    pub track: String,
    pub event: Event,
    /// Where it starts after swing.
    pub swung: Ratio,
    /// Where it starts in the end.
    pub frac: Ratio,
    pub offset_frames: u64,
}

#[verifier::ext_equal]
pub struct PlannedView {
    pub track: Seq<char>,
    pub event: EventView,
    pub swung: real,
    pub frac: real,
    pub offset_frames: nat,
}

impl View for PlannedHit {
    type V = PlannedView;

    open spec fn view(&self) -> PlannedView {
        PlannedView {
            track: self.track@,
            event: self.event@,
            swung: self.swung@,
            frac: self.frac@,
            offset_frames: self.offset_frames as nat,
        }
    }
}

/// An event that sounds, on its frame.
pub open spec fn planned_hit(
    e: CycleEventView,
    draw: Draw,
    swing: real,
    humanize_ms: real,
    bpm: u32,
    cycle_len: u64,
) -> PlannedView {
    let s = swung(e.event.frac, swing);
    let f = humanized(s, humanize_ms, bpm, draw.jitter);
    PlannedView {
        track: e.track,
        event: e.event,
        swung: s,
        frac: f,
        offset_frames: offset_frames(f, cycle_len as nat),
    }
}

/// The event sounds, given the number drawn.
pub open spec fn sounds(e: CycleEventView, draw: Draw) -> bool {
    match e.event.prob {
        Some(p) => passes(p, draw.gate),
        None => true,
    }
}

/// Those of the first `k` events that sound, on their frames.
pub open spec fn planned(
    es: Seq<CycleEventView>,
    draws: Seq<Draw>,
    swing: real,
    humanize_ms: real,
    bpm: u32,
    cycle_len: u64,
    k: nat,
) -> Seq<PlannedView>
    decreases k,
{
    if k == 0 || k > es.len() {
        seq![]
    } else {
        let before = planned(es, draws, swing, humanize_ms, bpm, cycle_len, (k - 1) as nat);
        if sounds(es[k - 1], draws[k - 1]) {
            before.push(
                planned_hit(es[k - 1], draws[k - 1], swing, humanize_ms, bpm, cycle_len),
            )
        } else {
            before
        }
    }
}

fn chosen(own: &Option<Ratio>, default: &Ratio) -> (r: Ratio)
    ensures
        r@ == or_value(value_view(*own), default@),
{
    match own {
        Some(x) => x.duplicate(),
        None => default.duplicate(),
    }
}

/// The hits of a cycle, on their frames. `swing` and `humanize_ms` are for programs that set none
/// of their own.
pub fn build_cycle_plan(
    program: &Program,
    events: Vec<CycleEvent>,
    draws: &Vec<Draw>,
    swing: &Ratio,
    humanize_ms: &Ratio,
    cycle_len: u64,
) -> (r: Vec<PlannedHit>)
    requires
        draws@.len() == events@.len(),
    ensures
        views(r@) == planned(
            views(events@),
            draws@,
            or_value(program@.swing, swing@),
            or_value(program@.humanize_ms, humanize_ms@),
            program@.bpm,
            cycle_len,
            events@.len(),
        ),
{
    let s = chosen(&program.swing, swing);
    let h = chosen(&program.humanize_ms, humanize_ms);
    let ghost es = views(events@);
    let n: usize = events.len();
    let mut out: Vec<PlannedHit> = Vec::new();
    let mut i: usize = 0;
    assert(views(out@) =~= seq![]);
    for e in it: events
        invariant
            it.seq() == events@,
            es == views(events@),
            n == events@.len(),
            draws@.len() == n,
            i == it.index(),
            views(out@) == planned(
                es,
                draws@,
                s@,
                h@,
                program@.bpm,
                cycle_len,
                it.index() as nat,
            ),
    {
        assert(es[i as int] == e@);
        let draw = draws[i];
        let goes: bool = match &e.event.prob {
            Some(p) => probability_gate(p, draw.gate),
            None => true,
        };
        if goes {
            let swung = apply_swing(&e.event.frac, &s);
            let frac = apply_humanize(&swung, &h, program.bpm, draw.jitter);
            let offset_frames = hit_offset_frames(&frac, cycle_len);
            let hit = PlannedHit { track: e.track, event: e.event, swung, frac, offset_frames };
            proof {
                lemma_views_push(out@, hit);
            }
            out.push(hit);
        }
        i += 1;
    }
    out
}

/// The numbers drawn for the events of a cycle: each event's own.
pub open spec fn cycle_draws(es: Seq<CycleEventView>, cycle_index: u64, swing: real) -> Seq<Draw> {
    Seq::new(
        es.len(),
        |i: int|
            {
                let bits = event_bits(es[i], swing);
                drawn(cycle_index, es[i].track, es[i].event.path, bits.0, bits.1)
            },
    )
}

/// The hits of a cycle of a program, on their frames. `swing` and `humanize_ms` are for programs
/// that set none of their own.
pub open spec fn cycle_hits(
    p: ProgramView,
    cycle_index: u64,
    c: CatalogView,
    swing: real,
    humanize_ms: real,
    cycle_len: u64,
) -> Seq<PlannedView> {
    let es = cycle_events(p, cycle_index as nat, c);
    let s = or_value(p.swing, swing);
    planned(
        es,
        cycle_draws(es, cycle_index, s),
        s,
        or_value(p.humanize_ms, humanize_ms),
        p.bpm,
        cycle_len,
        es.len(),
    )
}

/// The hits of a cycle of a program, on their frames, and the tracks that cannot be played.
pub fn plan_cycle(
    program: &Program,
    cycle_index: u64,
    samples: &Catalog,
    swing: &Ratio,
    humanize_ms: &Ratio,
    cycle_len: u64,
) -> (r: (Vec<PlannedHit>, Vec<TrackFault>))
    requires
        tempos_valid(program.tracks@),
    ensures
        views(r.0@) == cycle_hits(
            program@,
            cycle_index,
            samples@,
            swing@,
            humanize_ms@,
            cycle_len,
        ),
        views(r.1@) == gathered_faults(
            program@,
            cycle_index as nat,
            samples@,
            program@.tracks.len(),
        ),
{
    let (events, faults) = collect_cycle_events(program, cycle_index, samples);
    let bits = place_bits(&events, &chosen(&program.swing, swing));
    let draws = draw_events(&events, cycle_index, &bits);
    assert(draws@ =~= cycle_draws(
        views(events@),
        cycle_index,
        or_value(program@.swing, swing@),
    ));
    let hits = build_cycle_plan(program, events, &draws, swing, humanize_ms, cycle_len);
    (hits, faults)
}

// ---------------------------------------------------------------------------------------------
// Voices
// ---------------------------------------------------------------------------------------------

/// What a prepared voice is, apart from how its numbers are written.
#[verifier::ext_equal]
pub struct PreparedView<D> {
    pub offset_frames: nat,
    pub frame_count: nat,
    pub gain: real,
    pub pan: real,
    pub cut_group: Option<i32>,
    pub cut_voices: Option<u32>,
    pub cutoff_ms: Option<real>,
    pub data: D,
}

impl<D> View for PreparedVoice<D> {
    type V = PreparedView<D>;

    open spec fn view(&self) -> PreparedView<D> {
        PreparedView {
            offset_frames: self.offset_frames as nat,
            frame_count: self.frame_count as nat,
            gain: self.gain@,
            pan: self.pan@,
            cut_group: self.cut_group,
            cut_voices: self.cut_voices,
            cutoff_ms: value_view(self.cutoff_ms),
            data: self.data,
        }
    }
}

/// A clip of this many frames, to be heard for a hit.
#[derive(Debug)]
pub struct Clip<D> {
    pub frames: u64,
    pub data: D,
}

/// The voice that plays a hit: none without a clip, if the hit cannot be played, or if there is
/// nothing to hear.
pub open spec fn voice_of<D>(
    sample_rate: u32,
    hit: PlannedView,
    clip: Option<Clip<D>>,
) -> Option<PreparedView<D>> {
    let e = hit.event;
    match clip {
        None => None,
        Some(c) => if voice_fault(
            e.gain,
            e.pan,
            e.dur_ms,
            e.cut_group,
            e.cut_voices,
            e.cutoff_ms,
        ) is Some || clip_len(c.frames, e.dur_ms, sample_rate) == 0 {
            None
        } else {
            Some(
                PreparedView {
                    offset_frames: hit.offset_frames,
                    frame_count: clip_len(c.frames, e.dur_ms, sample_rate),
                    gain: e.gain,
                    pan: e.pan,
                    cut_group: e.cut_group,
                    cut_voices: e.cut_voices,
                    cutoff_ms: e.cutoff_ms,
                    data: c.data,
                },
            )
        },
    }
}

/// The voices that play the first `k` hits.
pub open spec fn voices_of<D>(
    sample_rate: u32,
    hits: Seq<PlannedView>,
    clips: Seq<Option<Clip<D>>>,
    k: nat,
) -> Seq<PreparedView<D>>
    decreases k,
{
    if k == 0 || k > hits.len() {
        seq![]
    } else {
        let before = voices_of(sample_rate, hits, clips, (k - 1) as nat);
        match voice_of(sample_rate, hits[k - 1], clips[k - 1]) {
            Some(v) => before.push(v),
            None => before,
        }
    }
}

/// A cycle made ready to be played.
#[derive(Debug)]
pub struct CyclePlan<D> {
    pub prepared: Vec<PreparedVoice<D>>,
    /// For each hit, whether a voice plays it.
    pub ready: Vec<bool>,
    /// How many hits a trace tells of.
    pub traced: usize,
    /// How many hits are counted.
    pub events_count: usize,
}

fn prepare_hit<D>(audio: &Audio<D>, hit: &PlannedHit, clip: Option<Clip<D>>) -> (r: Option<
    PreparedVoice<D>,
>)
    ensures
        match r {
            Some(v) => voice_of(audio.sample_rate, hit@, clip) == Some(v@),
            None => voice_of(audio.sample_rate, hit@, clip) is None,
        },
{
    let c = match clip {
        None => {
            return None;
        },
        Some(c) => c,
    };
    let e = &hit.event;
    match audio.prepare_voice_for_commit(
        c.frames,
        &e.gain,
        &e.pan,
        &e.dur_ms,
        e.cut_group,
        e.cut_voices,
        &e.cutoff_ms,
    ) {
        Ok(Some(frame_count)) => {
            let cutoff_ms = match &e.cutoff_ms {
                Some(ms) => Some(ms.duplicate()),
                None => None,
            };
            Some(
                PreparedVoice {
                    offset_frames: hit.offset_frames,
                    frame_count,
                    gain: e.gain.duplicate(),
                    pan: e.pan.duplicate(),
                    cut_group: e.cut_group,
                    cut_voices: e.cut_voices,
                    cutoff_ms,
                    data: c.data,
                },
            )
        },
        _ => None,
    }
}

/// Make a cycle ready: the voices that play its hits, each with the clip that was found for it.
/// A trace tells of `trace_limit` hits at most.
pub fn prepare_cycle<D>(
    audio: &Audio<D>,
    hits: &Vec<PlannedHit>,
    clips: Vec<Option<Clip<D>>>,
    trace: bool,
    trace_limit: usize,
) -> (r: CyclePlan<D>)
    requires
        clips@.len() == hits@.len(),
    ensures
        views(r.prepared@) == voices_of(audio.sample_rate, views(hits@), clips@, hits@.len()),
        r.ready@ == Seq::new(
            hits@.len(),
            |i: int| voice_of(audio.sample_rate, hits@[i]@, clips@[i]) is Some,
        ),
        r.traced == if !trace {
            0
        } else if hits@.len() < trace_limit {
            hits@.len()
        } else {
            trace_limit as nat
        },
        r.events_count == if r.prepared@.len() < r.traced {
            r.traced as nat
        } else {
            r.prepared@.len()
        },
{
    let ghost hs = views(hits@);
    let ghost cs = clips@;
    let n: usize = hits.len();
    let mut prepared: Vec<PreparedVoice<D>> = Vec::new();
    let mut ready: Vec<bool> = Vec::new();
    let mut i: usize = 0;
    assert(views(prepared@) =~= seq![]);
    for clip in it: clips
        invariant
            it.seq() == clips@,
            cs == clips@,
            hs == views(hits@),
            n == hits@.len(),
            cs.len() == n,
            i == it.index(),
            views(prepared@) == voices_of(audio.sample_rate, hs, cs, it.index() as nat),
            ready@.len() == i,
            forall|j: int|
                0 <= j < i ==> #[trigger] ready@[j] == (voice_of(
                    audio.sample_rate,
                    hits@[j]@,
                    cs[j],
                ) is Some),
    {
        assert(hs[i as int] == hits@[i as int]@);
        match prepare_hit(audio, &hits[i], clip) {
            Some(v) => {
                proof {
                    lemma_views_push(prepared@, v);
                }
                prepared.push(v);
                ready.push(true);
            },
            None => {
                ready.push(false);
            },
        }
        i += 1;
    }
    let traced: usize = if !trace {
        0
    } else if n < trace_limit {
        n
    } else {
        trace_limit
    };
    let count: usize = prepared.len();
    let events_count: usize = if count < traced {
        traced
    } else {
        count
    };
    CyclePlan { prepared, ready, traced, events_count }
}

// ---------------------------------------------------------------------------------------------
// Laws
// ---------------------------------------------------------------------------------------------

/// Swing and jitter leave a hit within its cycle.
pub proof fn hits_stay_within_the_cycle(
    frac: real,
    swing: real,
    humanize_ms: real,
    bpm: u32,
    draw: u64,
)
    requires
        0real <= frac < 1real,
    ensures
        0real <= swung(frac, swing) < 1real,
        0real <= humanized(swung(frac, swing), humanize_ms, bpm, draw) < 1real,
{
}

/// Every planned hit starts on a frame of its cycle.
pub proof fn offsets_lie_within_the_cycle(
    es: Seq<CycleEventView>,
    draws: Seq<Draw>,
    swing: real,
    humanize_ms: real,
    bpm: u32,
    cycle_len: u64,
    k: nat,
)
    requires
        cycle_len > 0,
    ensures
        forall|i: int|
            0 <= i < planned(es, draws, swing, humanize_ms, bpm, cycle_len, k).len()
                ==> (#[trigger] planned(
                es,
                draws,
                swing,
                humanize_ms,
                bpm,
                cycle_len,
                k,
            )[i]).offset_frames < cycle_len,
    decreases k,
{
    if k > 0 && k <= es.len() {
        offsets_lie_within_the_cycle(
            es,
            draws,
            swing,
            humanize_ms,
            bpm,
            cycle_len,
            (k - 1) as nat,
        );
    }
}

/// The events of a cycle come in the order in which they start, and none is lost or added.
pub proof fn cycle_events_are_in_order(p: ProgramView, cycle: nat, c: CatalogView)
    ensures
        in_order::<CycleEvent>(cycle_events(p, cycle, c)),
        cycle_events(p, cycle, c).to_multiset() == gathered(
            p,
            cycle,
            c,
            p.tracks.len(),
        ).to_multiset(),
{
    sorting_keeps_and_orders::<CycleEvent>(gathered(p, cycle, c, p.tracks.len()));
}

/// A hit that is certain always sounds, one that is impossible never does, whatever is drawn.
pub proof fn certainty_needs_no_chance(p: real, draw: u64)
    ensures
        p >= 1real ==> passes(p, draw),
        p <= 0real ==> !passes(p, draw),
{
}

/// A hit that sounds at one probability sounds at any greater one.
pub proof fn likelier_hits_sound_no_less(p: real, q: real, draw: u64)
    requires
        p <= q,
        passes(p, draw),
    ensures
        passes(q, draw),
{
}

/// Swing delays what lies in the odd eighths of a cycle, by a sixteenth of the cycle at full swing and
/// by that much less at less, but never to the very end of the cycle. What lies in the even eighths
/// stays where it is. There is no swing below none, and none above full swing.
pub proof fn swing_delays_odd_eighths(x: real, s: real, m: int)
    requires
        0 <= m <= 3,
    ensures
        s <= 0real ==> swung(x, s) == x,
        s >= 1real ==> swung(x, s) == swung(x, 1real),
        m as real / 4real <= x < m as real / 4real + 1real / 8real ==> swung(x, s) == x,
        0real < s <= 1real && m as real / 4real + 1real / 8real <= x < m as real / 4real + 1real
            / 4real ==> {
            &&& x + s / 16real <= 999999real / 1000000real ==> swung(x, s) == x + s / 16real
            &&& x + s / 16real > 999999real / 1000000real ==> swung(x, s) == 999999real
                / 1000000real
        },
{
    let y = x * 8real;
    assert(rounded(y - 1real / 2real, u64::MAX as nat) == eighths(x));
    if m as real / 4real <= x < m as real / 4real + 1real / 8real {
        assert(y.floor() == 2 * m);
        assert(eighths(x) == 2 * m);
    }
    if m as real / 4real + 1real / 8real <= x < m as real / 4real + 1real / 4real {
        assert(y.floor() == 2 * m + 1);
        assert(eighths(x) == 2 * m + 1);
    }
}

/// Of all the numbers that can be drawn, those that let a hit of probability `p` sound are the ones
/// up to that part of the greatest.
pub proof fn hits_sound_as_often_as_they_are_likely(p: real, draw: u64)
    requires
        0real < p < 1real,
    ensures
        passes(p, draw) <==> draw as real <= p * 18446744073709551615real,
{
    let d = 18446744073709551615real;
    let x = draw as real / d;
    lemma_div(draw as real, d);
    assert(x <= p <==> x * d <= p * d) by (nonlinear_arith)
        requires
            d > 0real,
    ;
}

/// Jitter moves a hit evenly between `h` milliseconds earlier, for the least number that can be
/// drawn, and `h` milliseconds later, for the greatest; a hit that would leave the cycle stops at its
/// edge.
pub proof fn jitter_is_even_between_its_ends(frac: real, h: real, bpm: u32, draw: u64)
    requires
        1 <= bpm <= 60000,
        h > 0real,
    ensures
        ({
            let r = humanized(frac, h, bpm, draw);
            let most = 18446744073709551615real;
            let moved = h * bpm as real * (2real * draw as real - most);
            let target = frac * 60000real * most + moved;
            &&& 0real <= target <= (5999994real / 100real * most) ==> r * 60000real * most == target
            &&& target < 0real ==> r == 0real
            &&& target > (5999994real / 100real * most) ==> r == 999999real / 1000000real
        }),
{
    let most = 18446744073709551615real;
    let b = bpm as real;
    let ms = 60000real / b;
    let u = draw as real / most;
    let e = (u * 2real - 1real) * h;
    let w = e / ms;
    let z = frac + w;
    let scale = 60000real * most;
    lemma_div(60000real, b);
    lemma_div(draw as real, most);
    assert(ms >= 1real) by (nonlinear_arith)
        requires
            ms * b == 60000real,
            0real < b <= 60000real,
    ;
    lemma_div(e, ms);
    assert(w * 60000real == e * b) by (nonlinear_arith)
        requires
            w * ms == e,
            ms * b == 60000real,
    ;
    assert(e * b * most == h * b * (2real * draw as real - most)) by (nonlinear_arith)
        requires
            e == (u * 2real - 1real) * h,
            u * most == draw as real,
    ;
    assert(w * 60000real * most == e * b * most);
    assert(z * scale == frac * 60000real * most + w * 60000real * most) by (nonlinear_arith)
        requires
            z == frac + w,
            scale == 60000real * most,
    ;
    assert(z * scale == z * 60000real * most) by (nonlinear_arith)
        requires
            scale == 60000real * most,
    ;
    let edge = 999999real / 1000000real;
    assert(z <= 0real <==> z * scale <= 0real) by (nonlinear_arith)
        requires
            scale > 0real,
    ;
    assert(z <= edge <==> z * scale <= edge * scale) by (nonlinear_arith)
        requires
            scale > 0real,
    ;
}

/// Those events of a cycle sound that have no probability or for which the number drawn is small
/// enough, in the order of the events; each keeps its track and what it is.
pub proof fn plans_hold_the_events_that_sound(
    es: Seq<CycleEventView>,
    draws: Seq<Draw>,
    swing: real,
    humanize_ms: real,
    bpm: u32,
    cycle_len: u64,
)
    requires
        draws.len() == es.len(),
    ensures
        planned(es, draws, swing, humanize_ms, bpm, cycle_len, es.len()) == es.zip_with(
            draws,
        ).filter_map(
            |p: (CycleEventView, Draw)|
                if p.0.event.prob is None || passes(p.0.event.prob->0, p.1.gate) {
                    let late = swung(p.0.event.frac, swing);
                    let at = humanized(late, humanize_ms, bpm, p.1.jitter);
                    Some(
                        PlannedView {
                            track: p.0.track,
                            event: p.0.event,
                            swung: late,
                            frac: at,
                            offset_frames: offset_frames(at, cycle_len as nat),
                        },
                    )
                } else {
                    None
                },
        ),
{
    let f = |p: (CycleEventView, Draw)|
        if p.0.event.prob is None || passes(p.0.event.prob->0, p.1.gate) {
            let late = swung(p.0.event.frac, swing);
            let at = humanized(late, humanize_ms, bpm, p.1.jitter);
            Some(
                PlannedView {
                    track: p.0.track,
                    event: p.0.event,
                    swung: late,
                    frac: at,
                    offset_frames: offset_frames(at, cycle_len as nat),
                },
            )
        } else {
            None
        };
    let g = |p: (CycleEventView, Draw)| plan_of(p, swing, humanize_ms, bpm, cycle_len);
    assert(f =~= g);
    lemma_planned(es, draws, swing, humanize_ms, bpm, cycle_len, es.len());
    assert(es.zip_with(draws).take(es.len() as int) =~= es.zip_with(draws));
}

spec fn plan_of(
    p: (CycleEventView, Draw),
    swing: real,
    humanize_ms: real,
    bpm: u32,
    cycle_len: u64,
) -> Option<PlannedView> {
    if p.0.event.prob is None || passes(p.0.event.prob->0, p.1.gate) {
        let late = swung(p.0.event.frac, swing);
        let at = humanized(late, humanize_ms, bpm, p.1.jitter);
        Some(
            PlannedView {
                track: p.0.track,
                event: p.0.event,
                swung: late,
                frac: at,
                offset_frames: offset_frames(at, cycle_len as nat),
            },
        )
    } else {
        None
    }
}

proof fn lemma_planned(
    es: Seq<CycleEventView>,
    draws: Seq<Draw>,
    swing: real,
    humanize_ms: real,
    bpm: u32,
    cycle_len: u64,
    k: nat,
)
    requires
        draws.len() == es.len(),
        k <= es.len(),
    ensures
        planned(es, draws, swing, humanize_ms, bpm, cycle_len, k) == es.zip_with(draws).take(
            k as int,
        ).filter_map(
            |p: (CycleEventView, Draw)| plan_of(p, swing, humanize_ms, bpm, cycle_len),
        ),
    decreases k,
{
    if k > 0 {
        let z = es.zip_with(draws).take(k as int);
        lemma_planned(es, draws, swing, humanize_ms, bpm, cycle_len, (k - 1) as nat);
        assert(z.drop_last() =~= es.zip_with(draws).take(k - 1));
        assert(z.last() == (es[k - 1], draws[k - 1]));
    }
}

/// The events of a cycle are those of all tracks that can be played, each under the name of its
/// track, in the order in which they start; events that start together come in the order of the
/// tracks, and within a track in its own.
pub proof fn cycles_gather_all_tracks(p: ProgramView, cycle: nat, c: CatalogView, at: real)
    ensures
        ({
            let all = Seq::new(
                p.tracks.len(),
                |k: int|
                    match track_events(p, p.tracks[k], cycle, c) {
                        Ok(es) => es.map_values(
                            |e: EventView| CycleEventView { track: p.tracks[k].name, event: e },
                        ),
                        Err(_) => seq![],
                    },
            ).flatten();
            let es = cycle_events(p, cycle, c);
            let here = |e: CycleEventView| at <= e.event.frac && e.event.frac <= at;
            &&& es.to_multiset() == all.to_multiset()
            &&& forall|i: int, j: int|
                0 <= i < j < es.len() ==> (#[trigger] es[i]).event.frac <= (
                #[trigger] es[j]).event.frac
            &&& es.filter(here) == all.filter(here)
        }),
{
    lemma_gathered(p, cycle, c, p.tracks.len());
    let all = gathered(p, cycle, c, p.tracks.len());
    sorting_keeps_and_orders::<CycleEvent>(all);
    let es = cycle_events(p, cycle, c);
    assert(in_order::<CycleEvent>(es));
    assert forall|i: int, j: int| 0 <= i < j < es.len() implies (#[trigger] es[i]).event.frac <= (
    #[trigger] es[j]).event.frac by {
        assert(CycleEvent::ordered(es[i], es[j]));
    }
    let y = CycleEventView {
        track: seq![],
        event: EventView {
            frac: at,
            path: seq![],
            gain: 0real,
            pan: 0real,
            prob: None,
            dur_ms: None,
            cut_group: None,
            cut_voices: None,
            cutoff_ms: None,
        },
    };
    sorting_is_stable::<CycleEvent>(all, y);
    let here = |e: CycleEventView| at <= e.event.frac && e.event.frac <= at;
    let same = |z: CycleEventView| CycleEvent::ordered(y, z) && CycleEvent::ordered(z, y);
    assert(here =~= same);
    assert(Seq::new(
        p.tracks.len(),
        |k: int|
            match track_events(p, p.tracks[k], cycle, c) {
                Ok(es) => es.map_values(
                    |e: EventView| CycleEventView { track: p.tracks[k].name, event: e },
                ),
                Err(_) => seq![],
            },
    ) =~= Seq::new(p.tracks.len(), |k: int| events_under(p, k, cycle, c)));
}

spec fn events_under(p: ProgramView, k: int, cycle: nat, c: CatalogView) -> Seq<CycleEventView> {
    match track_events(p, p.tracks[k], cycle, c) {
        Ok(es) => es.map_values(
            |e: EventView| CycleEventView { track: p.tracks[k].name, event: e },
        ),
        Err(_) => seq![],
    }
}

proof fn lemma_gathered(p: ProgramView, cycle: nat, c: CatalogView, k: nat)
    requires
        k <= p.tracks.len(),
    ensures
        gathered(p, cycle, c, k) == Seq::new(
            k,
            |j: int| events_under(p, j, cycle, c),
        ).flatten(),
    decreases k,
{
    let all = Seq::new(k, |j: int| events_under(p, j, cycle, c));
    if k > 0 {
        lemma_gathered(p, cycle, c, (k - 1) as nat);
        let before = Seq::new((k - 1) as nat, |j: int| events_under(p, j, cycle, c));
        assert(all =~= before.push(events_under(p, k - 1, cycle, c)));
        before.lemma_flatten_push(events_under(p, k - 1, cycle, c));
        if let Ok(es) = track_events(p, p.tracks[k - 1], cycle, c) {
            assert(events_under(p, k - 1, cycle, c) =~= of_track(p.tracks[k - 1].name, es));
        } else {
            assert(before.flatten() + seq![] =~= before.flatten());
        }
    }
}

proof fn lemma_gathered_alike(p: ProgramView, q: ProgramView, cycle: nat, c: CatalogView, k: nat)
    requires
        q == (ProgramView { swing: q.swing, humanize_ms: q.humanize_ms, ..p }),
    ensures
        gathered(p, cycle, c, k) == gathered(q, cycle, c, k),
    decreases k,
{
    if k > 0 && k <= p.tracks.len() {
        lemma_gathered_alike(p, q, cycle, c, (k - 1) as nat);
        let t = p.tracks[k - 1];
        if let Ok(hs) = track_hits(t, cycle) {
            lemma_events_alike(p, q, t, hs, hs.len(), c);
        }
    }
}

proof fn lemma_events_alike(
    p: ProgramView,
    q: ProgramView,
    t: TrackView,
    hs: Seq<ControlHitView>,
    k: nat,
    c: CatalogView,
)
    requires
        q == (ProgramView { swing: q.swing, humanize_ms: q.humanize_ms, ..p }),
    ensures
        events_upto(p, t, hs, k, c) == events_upto(q, t, hs, k, c),
    decreases k,
{
    if k > 0 && k <= hs.len() {
        lemma_events_alike(p, q, t, hs, (k - 1) as nat, c);
    }
}

/// A program that sets its own swing, or its own jitter, is played with it, whatever the default is;
/// one that sets none is played as one that sets the default.
pub proof fn programs_set_their_own_feel(
    p: ProgramView,
    cycle_index: u64,
    c: CatalogView,
    swing: real,
    humanize_ms: real,
    other_swing: real,
    other_ms: real,
    cycle_len: u64,
)
    ensures
        p.swing is Some ==> cycle_hits(p, cycle_index, c, swing, humanize_ms, cycle_len)
            == cycle_hits(p, cycle_index, c, other_swing, humanize_ms, cycle_len),
        p.humanize_ms is Some ==> cycle_hits(p, cycle_index, c, swing, humanize_ms, cycle_len)
            == cycle_hits(p, cycle_index, c, swing, other_ms, cycle_len),
        p.swing is None ==> cycle_hits(p, cycle_index, c, swing, humanize_ms, cycle_len)
            == cycle_hits(
            ProgramView { swing: Some(swing), ..p },
            cycle_index,
            c,
            other_swing,
            humanize_ms,
            cycle_len,
        ),
        p.humanize_ms is None ==> cycle_hits(p, cycle_index, c, swing, humanize_ms, cycle_len)
            == cycle_hits(
            ProgramView { humanize_ms: Some(humanize_ms), ..p },
            cycle_index,
            c,
            swing,
            other_ms,
            cycle_len,
        ),
{
    let n = p.tracks.len();
    let q = ProgramView { swing: Some(swing), ..p };
    let r = ProgramView { humanize_ms: Some(humanize_ms), ..p };
    lemma_gathered_alike(p, q, cycle_index as nat, c, n);
    lemma_gathered_alike(p, r, cycle_index as nat, c, n);
}

/// Whether a hit sounds does not depend on the swing, and how it is jittered does not depend on its
/// sample.
pub proof fn draws_depend_on_their_own(
    cycle_index: u64,
    track: Seq<char>,
    path: Seq<char>,
    other: Seq<char>,
    onset: u64,
    swung: u64,
    later: u64,
)
    ensures
        drawn(cycle_index, track, path, onset, swung).gate == drawn(
            cycle_index,
            track,
            path,
            onset,
            later,
        ).gate,
        drawn(cycle_index, track, path, onset, swung).jitter == drawn(
            cycle_index,
            track,
            other,
            later,
            swung,
        ).jitter,
{
}

/// What is hashed for two hits is different if their cycles, their tracks, their samples or their
/// places are.
pub proof fn hits_are_hashed_apart(
    cycle: u64,
    track: Seq<char>,
    place: u64,
    path: Seq<char>,
    other_cycle: u64,
    other_track: Seq<char>,
    other_place: u64,
    other_path: Seq<char>,
)
    requires
        (cycle, track, place) != (other_cycle, other_track, other_place) || path != other_path,
    ensures
        hashed_text(hashed_hit(cycle, track, place), path) != hashed_text(
            hashed_hit(other_cycle, other_track, other_place),
            other_path,
        ),
        (cycle, track, place) != (other_cycle, other_track, other_place) ==> hashed_hit(
            cycle,
            track,
            place,
        ) != hashed_hit(other_cycle, other_track, other_place),
{
    vstd::bytes::lemma_auto_spec_u64_to_from_le_bytes();
    vstd::utf8::encode_utf8_decode_utf8(track);
    vstd::utf8::encode_utf8_decode_utf8(other_track);
    vstd::utf8::encode_utf8_decode_utf8(path);
    vstd::utf8::encode_utf8_decode_utf8(other_path);
    let a = hashed_hit(cycle, track, place);
    let b = hashed_hit(other_cycle, other_track, other_place);
    let u = hashed_text(a, path);
    let v = hashed_text(b, other_path);
    assert(a.len() == 4 && b.len() == 4);
    assert(a[0] == spec_u64_to_le_bytes(cycle) && b[0] == spec_u64_to_le_bytes(other_cycle));
    assert(a[1] == encode_utf8(track) && b[1] == encode_utf8(other_track));
    assert(a[3] == spec_u64_to_le_bytes(place) && b[3] == spec_u64_to_le_bytes(other_place));
    assert(u[4] == encode_utf8(path) && v[4] == encode_utf8(other_path));
    if u == v {
        assert(a =~= b) by {
            assert forall|i: int| 0 <= i < 4 implies a[i] == b[i] by {
                assert(u[i] == a[i] && v[i] == b[i]);
            }
        }
    }
}

proof fn lemma_voices<D>(
    sample_rate: u32,
    hits: Seq<PlannedView>,
    clips: Seq<Option<Clip<D>>>,
    k: nat,
)
    requires
        k <= hits.len(),
        clips.len() == hits.len(),
    ensures
        voices_of(sample_rate, hits, clips, k) == hits.zip_with(clips).take(k as int).filter_map(
            |h: (PlannedView, Option<Clip<D>>)| voice_of(sample_rate, h.0, h.1),
        ),
    decreases k,
{
    let f = |h: (PlannedView, Option<Clip<D>>)| voice_of(sample_rate, h.0, h.1);
    let z = hits.zip_with(clips).take(k as int);
    if k > 0 {
        lemma_voices(sample_rate, hits, clips, (k - 1) as nat);
        assert(z.drop_last() =~= hits.zip_with(clips).take(k - 1));
        assert(z.last() == (hits[k - 1], clips[k - 1]));
    } else {
        assert(z =~= seq![]);
    }
}

/// A hit for which a clip was found is played by a voice on its frame, with its gain, pan, group and
/// cutoff, for as long as the clip and its duration last; unless something is wrong with it or there
/// is nothing to hear. A hit without a clip is not played. The voices come in the order of the hits.
pub proof fn hits_with_clips_are_played<D>(
    sample_rate: u32,
    hits: Seq<PlannedView>,
    clips: Seq<Option<Clip<D>>>,
    i: int,
)
    requires
        clips.len() == hits.len(),
        0 <= i < hits.len(),
    ensures
        voices_of(sample_rate, hits, clips, hits.len()) == hits.zip_with(clips).filter_map(
            |h: (PlannedView, Option<Clip<D>>)| voice_of(sample_rate, h.0, h.1),
        ),
        clips[i] is None ==> voice_of(sample_rate, hits[i], clips[i]) is None,
        clips[i] is Some ==> {
            let e = hits[i].event;
            let count = clip_len(clips[i]->0.frames, e.dur_ms, sample_rate);
            let v = voice_of(sample_rate, hits[i], clips[i]);
            &&& v is None <==> count == 0 || voice_fault(
                e.gain,
                e.pan,
                e.dur_ms,
                e.cut_group,
                e.cut_voices,
                e.cutoff_ms,
            ) is Some
            &&& v is Some ==> {
                &&& v->0.offset_frames == hits[i].offset_frames
                &&& v->0.frame_count == count
                &&& v->0.gain == e.gain
                &&& v->0.pan == e.pan
                &&& v->0.cut_group == e.cut_group
                &&& v->0.cut_voices == e.cut_voices
                &&& v->0.cutoff_ms == e.cutoff_ms
                &&& v->0.data == clips[i]->0.data
            }
        },
{
    lemma_voices(sample_rate, hits, clips, hits.len());
    assert(hits.zip_with(clips).take(hits.len() as int) =~= hits.zip_with(clips));
}

} // verus!
