//! Voices on the clock of the output: when hits start, how long they sound, and which voices of a
//! group give way to a new one.
//!
//! Time is counted in output frames. The samples of a voice are its own affair: it carries them as
//! a value of any type.

use vstd::prelude::*;

use crate::binary::{overflow, overflow_of, whole, Precision};
use crate::pat::lanes::value_view;
use crate::ratio::{rounded, Ratio};
use crate::text::{decimal, decimal_of, join3};

verus! {

/// What is done to a mix that is too loud.
#[derive(Debug, Clone, Copy, PartialEq, Eq, Structural)]
pub enum LimiterMode {
    /// Nothing.
    Off,
    /// It is bent smoothly into range.
    Soft,
}

// ---------------------------------------------------------------------------------------------
// Frames
// ---------------------------------------------------------------------------------------------

/// The number of frames that a number of milliseconds takes.
pub open spec fn ms_frames(ms: real, sample_rate: u32) -> nat {
    rounded(ms / 1000real * (sample_rate as real), u64::MAX as nat)
}

/// The number of frames of a cycle, at least one.
pub open spec fn cycle_frames(sample_rate: u32, bpm: u32) -> nat {
    let beats = if bpm == 0 {
        1
    } else {
        bpm as int
    };
    let n = sample_rate as int * 60 / beats;
    if n < 1 {
        1
    } else {
        n as nat
    }
}

/// The frame of a cycle of `cycle_len` frames at which a hit starts.
pub open spec fn offset_frames(frac: real, cycle_len: nat) -> nat {
    if cycle_len <= 1 {
        0
    } else {
        rounded(frac * (cycle_len as real), (cycle_len - 1) as nat)
    }
}

/// Where a hit starts, in frames from the start of its cycle.
pub fn hit_offset_frames(frac: &Ratio, cycle_len: u64) -> (r: u64)
    ensures
        r == offset_frames(frac@, cycle_len as nat),
        cycle_len > 0 ==> r < cycle_len,
{
    if cycle_len <= 1 {
        return 0;
    }
    frac.times(&Ratio::from_u64(cycle_len)).round_capped(cycle_len - 1)
}

fn frames_of(ms: &Ratio, sample_rate: u32) -> (r: u64)
    ensures
        r == ms_frames(ms@, sample_rate),
{
    let seconds = ms.over(&Ratio::from_u64(1000));
    seconds.times(&Ratio::from_u64(sample_rate as u64)).round_capped(u64::MAX)
}

/// How many frames of a clip of `len` frames sound: all, or no more than the duration says.
pub open spec fn clip_len(len: u64, max_duration_ms: Option<real>, sample_rate: u32) -> nat {
    match max_duration_ms {
        Some(ms) => if ms_frames(ms, sample_rate) < len {
            ms_frames(ms, sample_rate)
        } else {
            len as nat
        },
        None => len as nat,
    }
}

/// How many frames of a clip sound; none if there is nothing to hear.
pub fn load_clip_frames(len: u64, max_duration_ms: Option<&Ratio>, sample_rate: u32) -> (r: Option<
    u64,
>)
    ensures
        ({
            let ms = match max_duration_ms {
                Some(ms) => Some(ms@),
                None => None,
            };
            match r {
                Some(n) => n == clip_len(len, ms, sample_rate) && n > 0,
                None => clip_len(len, ms, sample_rate) == 0,
            }
        }),
{
    let n = match max_duration_ms {
        Some(ms) => {
            let d = frames_of(ms, sample_rate);
            if d < len {
                d
            } else {
                len
            }
        },
        None => len,
    };
    if n == 0 {
        None
    } else {
        Some(n)
    }
}

/// The first multiple of `cycle_len` that is not before `played`.
pub open spec fn next_base(played: nat, cycle_len: nat) -> nat {
    if cycle_len <= 1 {
        played
    } else {
        (played + cycle_len - 1) as nat / cycle_len * cycle_len
    }
}

/// The boundary is the first multiple of the cycle's length at or after the frames played.
pub proof fn bases_are_next_multiples(played: nat, cycle_len: nat)
    requires
        cycle_len >= 1,
    ensures
        next_base(played, cycle_len) % cycle_len == 0,
        played <= next_base(played, cycle_len) < played + cycle_len,
{
    if cycle_len > 1 {
        let n = (played + cycle_len - 1) as nat;
        let q = n / cycle_len;
        vstd::arithmetic::div_mod::lemma_fundamental_div_mod(n as int, cycle_len as int);
        vstd::arithmetic::div_mod::lemma_mod_bound(n as int, cycle_len as int);
        assert(cycle_len * q == q * cycle_len) by (nonlinear_arith);
        vstd::arithmetic::div_mod::lemma_mod_multiples_basic(q as int, cycle_len as int);
    }
}

/// What to do while waiting for a frame.
#[derive(Debug, Clone, Copy, PartialEq, Eq, Structural)]
pub enum Wait {
    Done,
    /// Sleep for this many milliseconds.
    Sleep(u64),
    /// Look again at once.
    Spin,
}

/// The frame has come; or more than two milliseconds are left, and all but one of them can be
/// slept away; or it is near.
pub open spec fn wait_for(now: u64, target: u64, sample_rate: u32) -> Wait {
    let left = (target - now) * 1000;
    let ms = left / (sample_rate as int);
    if now >= target {
        Wait::Done
    } else if left > 2 * sample_rate {
        Wait::Sleep(
            if ms > u64::MAX {
                (u64::MAX - 1) as u64
            } else {
                (ms - 1) as u64
            },
        )
    } else {
        Wait::Spin
    }
}

/// What to do until the frame `target` has come.
pub fn wait_step(now: u64, target: u64, sample_rate: u32) -> (r: Wait)
    requires
        sample_rate > 0,
    ensures
        r == wait_for(now, target, sample_rate),
{
    if now >= target {
        return Wait::Done;
    }
    let left: u128 = (target - now) as u128 * 1000;
    let rate: u128 = sample_rate as u128;
    if left > 2 * rate {
        let ms: u128 = left / rate;
        proof {
            assert(ms >= 2) by (nonlinear_arith)
                requires
                    left > 2 * rate,
                    rate > 0,
                    ms == left / rate,
            ;
        }
        if ms > u64::MAX as u128 {
            Wait::Sleep(u64::MAX - 1)
        } else {
            Wait::Sleep((ms - 1) as u64)
        }
    } else {
        Wait::Spin
    }
}

// ---------------------------------------------------------------------------------------------
// Voices
// ---------------------------------------------------------------------------------------------

/// A clip that sounds from the frame `start` on.
#[derive(Debug)]
pub struct Voice<D> {
    pub start: u64,
    pub gain: Ratio,
    /// From -1, left, to 1, right.
    pub pan: Ratio,
    pub cut_group: Option<i32>,
    /// How many frames at its end fade out.
    pub fade_out_frames: u64,
    pub frame_count: u64,
    pub data: D,
}

/// A voice whose place is known relative to the start of its cycle.
#[derive(Debug)]
pub struct PreparedVoice<D> {
    pub offset_frames: u64,
    pub frame_count: u64,
    pub gain: Ratio,
    pub pan: Ratio,
    pub cut_group: Option<i32>,
    pub cut_voices: Option<u32>,
    pub cutoff_ms: Option<Ratio>,
    pub data: D,
}

/// Why a hit cannot be played.
#[derive(Debug, Clone, Copy, PartialEq, Eq, Structural)]
pub enum VoiceFault {
    /// The gain is negative or not finite.
    Gain,
    /// The pan lies outside -1 to 1.
    Pan,
    /// The duration is negative or not finite.
    Duration,
    /// The group is negative.
    CutGroup(i32),
    /// The group may hold no voice.
    CutVoices,
    /// The cutoff time is negative or not finite.
    Cutoff,
}

/// The number is finite at single precision, at which samples are mixed, and not negative.
pub open spec fn can_be_mixed(x: real) -> bool {
    0real <= x < overflow(Precision::Single) as real
}

/// The first thing that is wrong with a hit.
pub open spec fn voice_fault(
    gain: real,
    pan: real,
    max_duration_ms: Option<real>,
    cut_group: Option<i32>,
    cut_voices: Option<u32>,
    cutoff_ms: Option<real>,
) -> Option<VoiceFault> {
    if !can_be_mixed(gain) {
        Some(VoiceFault::Gain)
    } else if pan < -1real || pan > 1real {
        Some(VoiceFault::Pan)
    } else if max_duration_ms is Some && !can_be_mixed(max_duration_ms->0) {
        Some(VoiceFault::Duration)
    } else if cut_group is Some && cut_group->0 < 0 {
        Some(VoiceFault::CutGroup(cut_group->0))
    } else if cut_voices == Some(0u32) {
        Some(VoiceFault::CutVoices)
    } else if cutoff_ms is Some && !can_be_mixed(cutoff_ms->0) {
        Some(VoiceFault::Cutoff)
    } else {
        None
    }
}

fn mixable(x: &Ratio) -> (r: bool)
    ensures
        r == can_be_mixed(x@),
{
    Ratio::zero().at_most(x) && x.below(&whole(overflow_of(Precision::Single)))
}

/// Whether a hit can be played; if not, the first thing that is wrong with it.
pub fn validate_voice_schedule(
    gain: &Ratio,
    pan: &Ratio,
    max_duration_ms: &Option<Ratio>,
    cut_group: Option<i32>,
    cut_voices: Option<u32>,
    cutoff_ms: &Option<Ratio>,
) -> (r: Result<(), VoiceFault>)
    ensures
        match r {
            Ok(()) => voice_fault(
                gain@,
                pan@,
                value_view(*max_duration_ms),
                cut_group,
                cut_voices,
                value_view(*cutoff_ms),
            ) is None,
            Err(f) => voice_fault(
                gain@,
                pan@,
                value_view(*max_duration_ms),
                cut_group,
                cut_voices,
                value_view(*cutoff_ms),
            ) == Some(f),
        },
{
    if !mixable(gain) {
        return Err(VoiceFault::Gain);
    }
    let one = Ratio::one();
    if pan.below(&one.negated()) || one.below(pan) {
        return Err(VoiceFault::Pan);
    }
    if let Some(ms) = max_duration_ms {
        if !mixable(ms) {
            return Err(VoiceFault::Duration);
        }
    }
    if let Some(g) = cut_group {
        if g < 0 {
            return Err(VoiceFault::CutGroup(g));
        }
    }
    if let Some(v) = cut_voices {
        if v < 1 {
            return Err(VoiceFault::CutVoices);
        }
    }
    if let Some(ms) = cutoff_ms {
        if !mixable(ms) {
            return Err(VoiceFault::Cutoff);
        }
    }
    Ok(())
}

/// How many of the first `k` voices are in the group.
pub open spec fn group_size<D>(vs: Seq<Voice<D>>, group: i32, k: nat) -> nat
    decreases k,
{
    if k == 0 || k > vs.len() {
        0
    } else {
        group_size(vs, group, (k - 1) as nat) + if vs[k - 1].cut_group == Some(group) {
            1nat
        } else {
            0nat
        }
    }
}

/// The voice numbered `j` started before the one numbered `i`, or with it and was put in first.
pub open spec fn older<D>(vs: Seq<Voice<D>>, j: int, i: int) -> bool {
    vs[j].start < vs[i].start || (vs[j].start == vs[i].start && j < i)
}

/// How many of the first `k` voices are in the group and older than the one numbered `i`.
pub open spec fn group_rank<D>(vs: Seq<Voice<D>>, group: i32, i: int, k: nat) -> nat
    decreases k,
{
    if k == 0 || k > vs.len() {
        0
    } else {
        group_rank(vs, group, i, (k - 1) as nat) + if vs[k - 1].cut_group == Some(group) && older(
            vs,
            k - 1,
            i,
        ) {
            1nat
        } else {
            0nat
        }
    }
}

/// The voice numbered `i` gives way to a new voice of the group, which may hold `max` of them: it
/// is among the oldest that are too many.
pub open spec fn gives_way<D>(vs: Seq<Voice<D>>, group: i32, max: nat, i: int) -> bool {
    &&& vs[i].cut_group == Some(group)
    &&& group_rank(vs, group, i, vs.len()) + max < group_size(vs, group, vs.len()) + 1
}

/// The voice, made to end at the frame `end` at the latest, but with a frame left.
pub open spec fn shortened<D>(v: Voice<D>, end: nat, cutoff: nat) -> Voice<D> {
    let keep = if end > v.start {
        end - v.start
    } else {
        0
    };
    if keep >= v.frame_count {
        v
    } else {
        let count = if keep < 1 {
            1
        } else {
            keep
        };
        let fade = if cutoff < 1 {
            1
        } else {
            cutoff as int
        };
        Voice {
            frame_count: count as u64,
            fade_out_frames: (if fade < count {
                fade
            } else {
                count
            }) as u64,
            ..v
        }
    }
}

/// `a + b`, as far as frames can be counted.
pub open spec fn frame_sum(a: nat, b: nat) -> nat {
    if a + b > u64::MAX {
        u64::MAX as nat
    } else {
        a + b
    }
}

/// How many voices a group may hold.
pub open spec fn voices_max(cut_voices: Option<u32>) -> nat {
    match cut_voices {
        Some(n) => if n < 1 {
            1
        } else {
            n as nat
        },
        None => 1,
    }
}

/// How long voices that give way go on.
pub open spec fn cutoff_frames(cutoff_ms: Option<real>, sample_rate: u32) -> nat {
    match cutoff_ms {
        Some(ms) => ms_frames(ms, sample_rate),
        None => 0,
    }
}

/// The voices with those of the group shortened that give way to one that starts at `start`.
pub open spec fn thinned_group<D>(
    vs: Seq<Voice<D>>,
    start: u64,
    cut_group: Option<i32>,
    max: nat,
    cutoff: nat,
) -> Seq<Voice<D>> {
    match cut_group {
        None => vs,
        Some(group) => Seq::new(
            vs.len(),
            |i: int|
                if gives_way(vs, group, max, i) {
                    shortened(vs[i], frame_sum(start as nat, cutoff), cutoff)
                } else {
                    vs[i]
                },
        ),
    }
}

/// How many frames at its end a voice of `count` frames fades out: four milliseconds.
pub open spec fn tail_frames(sample_rate: u32, count: u64) -> nat {
    let n = rounded(sample_rate as real * (4real / 1000real), u64::MAX as nat);
    if n < count {
        n
    } else {
        count as nat
    }
}

/// The voices after a new one has come in.
pub open spec fn joined_by<D>(
    vs: Seq<Voice<D>>,
    sample_rate: u32,
    cycle_base: u64,
    p: PreparedVoice<D>,
) -> Seq<Voice<D>> {
    let start = frame_sum(cycle_base as nat, p.offset_frames as nat) as u64;
    thinned_group(
        vs,
        start,
        p.cut_group,
        voices_max(p.cut_voices),
        cutoff_frames(value_view(p.cutoff_ms), sample_rate),
    ).push(
        Voice {
            start,
            gain: p.gain,
            pan: p.pan,
            cut_group: p.cut_group,
            fade_out_frames: tail_frames(sample_rate, p.frame_count) as u64,
            frame_count: p.frame_count,
            data: p.data,
        },
    )
}

/// The voices after the first `k` new ones have come in.
pub open spec fn joined_by_all<D>(
    vs: Seq<Voice<D>>,
    sample_rate: u32,
    cycle_base: u64,
    ps: Seq<PreparedVoice<D>>,
    k: nat,
) -> Seq<Voice<D>>
    decreases k,
{
    if k == 0 || k > ps.len() {
        vs
    } else {
        joined_by(
            joined_by_all(vs, sample_rate, cycle_base, ps, (k - 1) as nat),
            sample_rate,
            cycle_base,
            ps[k - 1],
        )
    }
}

/// `a + b`, as far as frames can be counted.
pub fn frames_plus(a: u64, b: u64) -> (r: u64)
    ensures
        r == frame_sum(a as nat, b as nat),
{
    if a > u64::MAX - b {
        u64::MAX
    } else {
        a + b
    }
}

fn count_group<D>(vs: &Vec<Voice<D>>, group: i32) -> (r: usize)
    ensures
        r == group_size(vs@, group, vs@.len()),
        r <= vs@.len(),
{
    let mut n: usize = 0;
    let mut i: usize = 0;
    while i < vs.len()
        invariant
            i <= vs@.len(),
            n <= i,
            n == group_size(vs@, group, i as nat),
        decreases vs@.len() - i,
    {
        if in_group(vs[i].cut_group, group) {
            n += 1;
        }
        i += 1;
    }
    n
}

fn in_group(g: Option<i32>, group: i32) -> (r: bool)
    ensures
        r == (g == Some(group)),
{
    match g {
        Some(g) => g == group,
        None => false,
    }
}

fn rank_in_group<D>(vs: &Vec<Voice<D>>, group: i32, i: usize) -> (r: usize)
    requires
        i < vs@.len(),
    ensures
        r == group_rank(vs@, group, i as int, vs@.len()),
        r <= vs@.len(),
{
    let mut n: usize = 0;
    let mut j: usize = 0;
    while j < vs.len()
        invariant
            i < vs@.len(),
            j <= vs@.len(),
            n <= j,
            n == group_rank(vs@, group, i as int, j as nat),
        decreases vs@.len() - j,
    {
        let before: bool = vs[j].start < vs[i].start || (vs[j].start == vs[i].start && j < i);
        if in_group(vs[j].cut_group, group) && before {
            n += 1;
        }
        j += 1;
    }
    n
}

/// Shorten the voices of the group that give way to a new one.
fn thin_group<D>(vs: &mut Vec<Voice<D>>, start: u64, group: i32, max: u32, cutoff: u64)
    requires
        max >= 1,
    ensures
        final(vs)@ == thinned_group(old(vs)@, start, Some(group), max as nat, cutoff as nat),
{
    let ghost all = vs@;
    let n: usize = vs.len();
    let size = count_group(vs, group);
    let mut victims: Vec<bool> = Vec::new();
    let mut i: usize = 0;
    while i < n
        invariant
            vs@ == all,
            n == all.len(),
            i <= n,
            size == group_size(all, group, all.len()),
            victims@.len() == i,
            forall|k: int|
                0 <= k < i ==> #[trigger] victims@[k] == gives_way(all, group, max as nat, k),
        decreases n - i,
    {
        let rank = rank_in_group(vs, group, i);
        let v: bool = in_group(vs[i].cut_group, group) && (rank as u128) + (max as u128) < (
        size as u128) + 1;
        victims.push(v);
        i += 1;
    }
    let end = frames_plus(start, cutoff);
    let ghost goal = thinned_group(all, start, Some(group), max as nat, cutoff as nat);
    let mut k: usize = 0;
    while k < n
        invariant
            n == all.len(),
            vs@.len() == n,
            k <= n,
            victims@.len() == n,
            end == frame_sum(start as nat, cutoff as nat),
            goal == thinned_group(all, start, Some(group), max as nat, cutoff as nat),
            forall|j: int|
                0 <= j < n ==> #[trigger] victims@[j] == gives_way(all, group, max as nat, j),
            forall|j: int| 0 <= j < k ==> #[trigger] vs@[j] == goal[j],
            forall|j: int| k <= j < n ==> #[trigger] vs@[j] == all[j],
        decreases n - k,
    {
        if victims[k] {
            let keep: u64 = if end > vs[k].start {
                end - vs[k].start
            } else {
                0
            };
            if keep < vs[k].frame_count {
                let count: u64 = if keep < 1 {
                    1
                } else {
                    keep
                };
                let fade: u64 = if cutoff < 1 {
                    1
                } else {
                    cutoff
                };
                let least: u64 = if fade < count {
                    fade
                } else {
                    count
                };
                vs[k].frame_count = count;
                vs[k].fade_out_frames = least;
            }
        }
        k += 1;
    }
    assert(vs@ =~= goal);
}

/// Let a new voice come in.
pub fn push_prepared_voice<D>(
    vs: &mut Vec<Voice<D>>,
    sample_rate: u32,
    cycle_base: u64,
    p: PreparedVoice<D>,
)
    ensures
        final(vs)@ == joined_by(old(vs)@, sample_rate, cycle_base, p),
{
    let start = frames_plus(cycle_base, p.offset_frames);
    if let Some(group) = p.cut_group {
        let max: u32 = match p.cut_voices {
            Some(n) => if n < 1 {
                1
            } else {
                n
            },
            None => 1,
        };
        let cutoff: u64 = match &p.cutoff_ms {
            Some(ms) => frames_of(ms, sample_rate),
            None => 0,
        };
        thin_group(vs, start, group, max, cutoff);
    }
    let tail = Ratio::from_u64(sample_rate as u64).times(&Ratio::fraction(4, 1000)).round_capped(
        u64::MAX,
    );
    let fade_out_frames: u64 = if tail < p.frame_count {
        tail
    } else {
        p.frame_count
    };
    vs.push(
        Voice {
            start,
            gain: p.gain,
            pan: p.pan,
            cut_group: p.cut_group,
            fade_out_frames,
            frame_count: p.frame_count,
            data: p.data,
        },
    );
}

/// What of a voice sounds in a frame: a frame of its clip, and how far it has faded, as a part of
/// a whole.
#[derive(Debug, Clone, Copy, PartialEq, Eq)]
pub struct Part {
    pub frame: u64,
    pub fade: Option<(u64, u64)>,
}

/// What of the voice sounds in the frame `g`.
pub open spec fn part<D>(v: Voice<D>, g: u64) -> Option<Part> {
    let rel = g - v.start;
    if rel < 0 || rel >= v.frame_count {
        None
    } else {
        Some(
            Part {
                frame: rel as u64,
                fade: if v.fade_out_frames > 0 && rel + v.fade_out_frames >= v.frame_count {
                    Some(((v.frame_count - rel) as u64, v.fade_out_frames))
                } else {
                    None
                },
            },
        )
    }
}

/// A voice sounds from its start for as many frames as it has; what fades out fades to no more
/// than the whole and to no less than nothing.
pub proof fn voices_sound_for_their_frames<D>(v: Voice<D>, g: u64)
    ensures
        part(v, g) is Some <==> v.start <= g < v.start + v.frame_count,
        part(v, g) is Some && part(v, g)->0.fade is Some ==> {
            let (left, whole) = part(v, g)->0.fade->0;
            0 < left <= whole
        },
{
}

/// The voices that go on after the frame `g_end`.
pub open spec fn going_on<D>(vs: Seq<Voice<D>>, g_end: u64) -> Seq<Voice<D>>
    decreases vs.len(),
{
    if vs.len() == 0 {
        vs
    } else if vs.last().start + vs.last().frame_count > g_end {
        going_on(vs.drop_last(), g_end).push(vs.last())
    } else {
        going_on(vs.drop_last(), g_end)
    }
}

impl<D> Voice<D> {
    /// What of the voice sounds in the frame `g`.
    pub fn part_at(&self, g: u64) -> (r: Option<Part>)
        ensures
            r == part(*self, g),
    {
        if g < self.start {
            return None;
        }
        let rel: u64 = g - self.start;
        if rel >= self.frame_count {
            return None;
        }
        let left: u64 = self.frame_count - rel;
        let fade = if self.fade_out_frames > 0 && self.fade_out_frames >= left {
            Some((left, self.fade_out_frames))
        } else {
            None
        };
        Some(Part { frame: rel, fade })
    }
}

fn keep_going<D>(vs: Vec<Voice<D>>, g_end: u64) -> (r: Vec<Voice<D>>)
    ensures
        r@ == going_on(vs@, g_end),
{
    let ghost all = vs@;
    let mut out: Vec<Voice<D>> = Vec::new();
    assert(out@ =~= going_on(all.take(0), g_end));
    for v in it: vs
        invariant
            it.seq() == vs@,
            all == vs@,
            out@ == going_on(all.take(it.index()), g_end),
    {
        proof {
            let i = it.index();
            assert(all.take(i + 1).drop_last() =~= all.take(i));
            assert(all.take(i + 1).last() == v);
        }
        if v.start as u128 + v.frame_count as u128 > g_end as u128 {
            out.push(v);
        }
    }
    assert(all.take(all.len() as int) =~= all);
    out
}

// ---------------------------------------------------------------------------------------------
// The output
// ---------------------------------------------------------------------------------------------

/// A hit to be put in at the frame `start_frame`, with a clip of `clip_frames` frames.
#[derive(Debug)]
pub struct ScheduledVoice<D> {
    pub start_frame: u64,
    pub clip_frames: u64,
    pub gain: Ratio,
    pub pan: Ratio,
    pub max_duration_ms: Option<Ratio>,
    pub cut_group: Option<i32>,
    pub cut_voices: Option<u32>,
    pub cutoff_ms: Option<Ratio>,
    pub data: D,
}

/// The output and the voices on it.
#[derive(Debug)]
pub struct Audio<D> {
    pub sample_rate: u32,
    pub out_channels: usize,
    pub limiter_mode: LimiterMode,
    pub voices: Vec<Voice<D>>,
}

/// What becomes of a hit: nothing if it cannot be played or has no frames, else a voice.
pub open spec fn scheduled<D>(s: ScheduledVoice<D>, sample_rate: u32) -> Result<
    Option<PreparedVoice<D>>,
    VoiceFault,
> {
    let ms = value_view(s.max_duration_ms);
    match voice_fault(s.gain@, s.pan@, ms, s.cut_group, s.cut_voices, value_view(s.cutoff_ms)) {
        Some(f) => Err(f),
        None => if clip_len(s.clip_frames, ms, sample_rate) == 0 {
            Ok(None)
        } else {
            Ok(
                Some(
                    PreparedVoice {
                        offset_frames: 0,
                        frame_count: clip_len(s.clip_frames, ms, sample_rate) as u64,
                        gain: s.gain,
                        pan: s.pan,
                        cut_group: s.cut_group,
                        cut_voices: s.cut_voices,
                        cutoff_ms: s.cutoff_ms,
                        data: s.data,
                    },
                ),
            )
        },
    }
}

/// The voices after a hit has been put in, if it can be played.
pub open spec fn after_hit<D>(
    vs: Seq<Voice<D>>,
    sample_rate: u32,
    s: ScheduledVoice<D>,
) -> Seq<Voice<D>> {
    match scheduled(s, sample_rate) {
        Ok(Some(p)) => joined_by(vs, sample_rate, s.start_frame, p),
        _ => vs,
    }
}

/// The voices after the first `k` hits have been put in, as far as they can be played.
pub open spec fn after_hits<D>(
    vs: Seq<Voice<D>>,
    sample_rate: u32,
    ss: Seq<ScheduledVoice<D>>,
    k: nat,
) -> Seq<Voice<D>>
    decreases k,
{
    if k == 0 || k > ss.len() {
        vs
    } else {
        after_hit(after_hits(vs, sample_rate, ss, (k - 1) as nat), sample_rate, ss[k - 1])
    }
}

/// What was wrong with the first `k` hits.
pub open spec fn hit_faults<D>(ss: Seq<ScheduledVoice<D>>, sample_rate: u32, k: nat) -> Seq<
    (int, VoiceFault),
>
    decreases k,
{
    if k == 0 || k > ss.len() {
        seq![]
    } else {
        let before = hit_faults(ss, sample_rate, (k - 1) as nat);
        match scheduled(ss[k - 1], sample_rate) {
            Err(f) => before.push((k - 1, f)),
            Ok(_) => before,
        }
    }
}

pub open spec fn fault_views(v: Seq<(usize, VoiceFault)>) -> Seq<(int, VoiceFault)> {
    Seq::new(v.len(), |i: int| (v[i].0 as int, v[i].1))
}

impl<D> Audio<D> {
    /// An output as the device offers it: its samples must be `f32`, its channels one or two.
    /// `format` names the format of its samples.
    pub fn try_new_with_limiter(
        limiter_mode: LimiterMode,
        f32_samples: bool,
        format: &str,
        sample_rate: u32,
        out_channels: usize,
    ) -> (r: Result<Audio<D>, String>)
        ensures
            match r {
                Ok(a) => {
                    &&& f32_samples && 1 <= out_channels <= 2
                    &&& a.sample_rate == sample_rate
                    &&& a.out_channels == out_channels
                    &&& a.limiter_mode == limiter_mode
                    &&& a.voices@ == Seq::<Voice<D>>::empty()
                },
                Err(e) => if !f32_samples {
                    e@ == "need f32 output (got "@ + format@
                        + "); pick a device that supports f32"@
                } else {
                    &&& out_channels == 0 || out_channels > 2
                    &&& e@ == "need 1 or 2 output channels (got "@ + decimal(out_channels as nat)
                        + ")"@
                },
            },
    {
        if !f32_samples {
            return Err(
                join3("need f32 output (got ", format, "); pick a device that supports f32"),
            );
        }
        if out_channels == 0 || out_channels > 2 {
            return Err(
                join3(
                    "need 1 or 2 output channels (got ",
                    decimal_of(out_channels as u64).as_str(),
                    ")",
                ),
            );
        }
        Ok(Audio { sample_rate, out_channels, limiter_mode, voices: Vec::new() })
    }

    pub fn sample_rate(&self) -> (r: u32)
        ensures
            r == self.sample_rate,
    {
        self.sample_rate
    }

    pub fn out_channels(&self) -> (r: usize)
        ensures
            r == self.out_channels,
    {
        self.out_channels
    }

    pub fn limiter_mode(&self) -> (r: LimiterMode)
        ensures
            r == self.limiter_mode,
    {
        self.limiter_mode
    }

    /// The number of frames of a cycle.
    pub fn cycle_len_frames(&self, bpm: u32) -> (r: u64)
        ensures
            r == cycle_frames(self.sample_rate, bpm),
            r >= 1,
    {
        let beats: u64 = if bpm == 0 {
            1
        } else {
            bpm as u64
        };
        let n: u64 = self.sample_rate as u64 * 60 / beats;
        if n < 1 {
            1
        } else {
            n
        }
    }

    /// The next boundary of a cycle, once `played` frames have been played.
    pub fn align_next_cycle_base(&self, played: u64, cycle_len: u64) -> (r: u64)
        requires
            played + cycle_len <= u64::MAX,
        ensures
            r == next_base(played as nat, cycle_len as nat),
    {
        if cycle_len <= 1 {
            return played;
        }
        proof {
            bases_are_next_multiples(played as nat, cycle_len as nat);
        }
        (played + (cycle_len - 1)) / cycle_len * cycle_len
    }

    /// Drop all voices.
    pub fn stop_playback(&mut self)
        ensures
            final(self).voices@ == Seq::<Voice<D>>::empty(),
            final(self).sample_rate == old(self).sample_rate,
            final(self).out_channels == old(self).out_channels,
            final(self).limiter_mode == old(self).limiter_mode,
    {
        self.voices = Vec::new();
    }

    /// Drop the voices that have ended once `g_end` frames have been played.
    pub fn retire(&mut self, g_end: u64)
        ensures
            final(self).voices@ == going_on(old(self).voices@, g_end),
            final(self).sample_rate == old(self).sample_rate,
            final(self).out_channels == old(self).out_channels,
            final(self).limiter_mode == old(self).limiter_mode,
    {
        let mut vs: Vec<Voice<D>> = Vec::new();
        std::mem::swap(&mut vs, &mut self.voices);
        self.voices = keep_going(vs, g_end);
    }

    /// Check a hit before its cycle; how many frames it sounds, none if there is nothing to hear.
    pub fn prepare_voice_for_commit(
        &self,
        clip_frames: u64,
        gain: &Ratio,
        pan: &Ratio,
        max_duration_ms: &Option<Ratio>,
        cut_group: Option<i32>,
        cut_voices: Option<u32>,
        cutoff_ms: &Option<Ratio>,
    ) -> (r: Result<Option<u64>, VoiceFault>)
        ensures
            ({
                let ms = value_view(*max_duration_ms);
                let fault = voice_fault(
                    gain@,
                    pan@,
                    ms,
                    cut_group,
                    cut_voices,
                    value_view(*cutoff_ms),
                );
                match r {
                    Err(f) => fault == Some(f),
                    Ok(Some(n)) => fault is None && n == clip_len(
                        clip_frames,
                        ms,
                        self.sample_rate,
                    ) && n > 0,
                    Ok(None) => fault is None && clip_len(clip_frames, ms, self.sample_rate) == 0,
                }
            }),
    {
        match validate_voice_schedule(
            gain,
            pan,
            max_duration_ms,
            cut_group,
            cut_voices,
            cutoff_ms,
        ) {
            Err(f) => {
                return Err(f);
            },
            Ok(()) => {},
        }
        Ok(load_clip_frames(clip_frames, max_duration_ms.as_ref(), self.sample_rate))
    }

    /// Let new voices come in, relative to the start of a cycle.
    pub fn commit_prepared_voices_at(&mut self, cycle_base: u64, items: Vec<PreparedVoice<D>>)
        ensures
            final(self).voices@ == joined_by_all(
                old(self).voices@,
                old(self).sample_rate,
                cycle_base,
                items@,
                items@.len(),
            ),
            final(self).sample_rate == old(self).sample_rate,
            final(self).out_channels == old(self).out_channels,
            final(self).limiter_mode == old(self).limiter_mode,
    {
        let ghost before = self.voices@;
        let rate = self.sample_rate;
        let mut vs: Vec<Voice<D>> = Vec::new();
        std::mem::swap(&mut vs, &mut self.voices);
        for p in it: items
            invariant
                it.seq() == items@,
                vs@ == joined_by_all(before, rate, cycle_base, items@, it.index() as nat),
        {
            push_prepared_voice(&mut vs, rate, cycle_base, p);
        }
        self.voices = vs;
    }

    /// Put in a hit.
    pub fn schedule_voice(&mut self, spec: ScheduledVoice<D>) -> (r: Result<(), VoiceFault>)
        ensures
            final(self).voices@ == after_hit(old(self).voices@, old(self).sample_rate, spec),
            match r {
                Ok(()) => scheduled(spec, old(self).sample_rate) is Ok,
                Err(f) => scheduled(spec, old(self).sample_rate) == Err::<
                    Option<PreparedVoice<D>>,
                    VoiceFault,
                >(f),
            },
            final(self).sample_rate == old(self).sample_rate,
            final(self).out_channels == old(self).out_channels,
            final(self).limiter_mode == old(self).limiter_mode,
    {
        let frames = match self.prepare_voice_for_commit(
            spec.clip_frames,
            &spec.gain,
            &spec.pan,
            &spec.max_duration_ms,
            spec.cut_group,
            spec.cut_voices,
            &spec.cutoff_ms,
        ) {
            Err(f) => {
                return Err(f);
            },
            Ok(frames) => frames,
        };
        if let Some(frame_count) = frames {
            let p = PreparedVoice {
                offset_frames: 0,
                frame_count,
                gain: spec.gain,
                pan: spec.pan,
                cut_group: spec.cut_group,
                cut_voices: spec.cut_voices,
                cutoff_ms: spec.cutoff_ms,
                data: spec.data,
            };
            push_prepared_voice(&mut self.voices, self.sample_rate, spec.start_frame, p);
        }
        Ok(())
    }

    /// Put in hits, in their order; what was wrong with which of them.
    pub fn schedule_voices(&mut self, items: Vec<ScheduledVoice<D>>) -> (r: Vec<
        (usize, VoiceFault),
    >)
        ensures
            final(self).voices@ == after_hits(
                old(self).voices@,
                old(self).sample_rate,
                items@,
                items@.len(),
            ),
            fault_views(r@) == hit_faults(items@, old(self).sample_rate, items@.len()),
            final(self).sample_rate == old(self).sample_rate,
            final(self).out_channels == old(self).out_channels,
            final(self).limiter_mode == old(self).limiter_mode,
    {
        let ghost before = *self;
        let mut faults: Vec<(usize, VoiceFault)> = Vec::new();
        let n: usize = items.len();
        let mut i: usize = 0;
        assert(fault_views(faults@) =~= seq![]);
        for spec in it: items
            invariant
                it.seq() == items@,
                n == items@.len(),
                i == it.index(),
                self.voices@ == after_hits(
                    before.voices@,
                    before.sample_rate,
                    items@,
                    it.index() as nat,
                ),
                fault_views(faults@) == hit_faults(
                    items@,
                    before.sample_rate,
                    it.index() as nat,
                ),
                self.sample_rate == before.sample_rate,
                self.out_channels == before.out_channels,
                self.limiter_mode == before.limiter_mode,
        {
            match self.schedule_voice(spec) {
                Ok(()) => {},
                Err(f) => {
                    assert(fault_views(faults@.push((i, f))) =~= fault_views(faults@).push(
                        (i as int, f),
                    ));
                    faults.push((i, f));
                },
            }
            i += 1;
        }
        faults
    }
}

// ---------------------------------------------------------------------------------------------
// Laws
// ---------------------------------------------------------------------------------------------

/// How many of the first `k` voices are in the group and do not give way.
pub open spec fn staying<D>(vs: Seq<Voice<D>>, group: i32, max: nat, k: nat) -> nat
    decreases k,
{
    if k == 0 || k > vs.len() {
        0
    } else {
        staying(vs, group, max, (k - 1) as nat) + if vs[k - 1].cut_group == Some(group)
            && !gives_way(vs, group, max, k - 1) {
            1nat
        } else {
            0nat
        }
    }
}

/// Of the first `k` voices, `i` is the oldest of the group that stays.
spec fn oldest_staying<D>(vs: Seq<Voice<D>>, group: i32, max: nat, k: nat, i: int) -> bool {
    &&& 0 <= i < k
    &&& vs[i].cut_group == Some(group) && !gives_way(vs, group, max, i)
    &&& forall|j: int|
        0 <= j < k && vs[j].cut_group == Some(group) && #[trigger] older(vs, j, i) ==> gives_way(
            vs,
            group,
            max,
            j,
        )
}

proof fn lemma_oldest_staying<D>(vs: Seq<Voice<D>>, group: i32, max: nat, k: nat) -> (i: int)
    requires
        k <= vs.len(),
        staying(vs, group, max, k) > 0,
    ensures
        oldest_staying(vs, group, max, k, i),
    decreases k,
{
    let m = k - 1;
    let here = vs[m].cut_group == Some(group) && !gives_way(vs, group, max, m);
    if staying(vs, group, max, m as nat) == 0 {
        lemma_none_staying(vs, group, max, m as nat);
        assert(here);
        assert forall|j: int|
            0 <= j < k && vs[j].cut_group == Some(group) && #[trigger] older(vs, j, m) implies gives_way(
            vs,
            group,
            max,
            j,
        ) by {}
        m
    } else {
        let i = lemma_oldest_staying(vs, group, max, m as nat);
        if here && older(vs, m, i) {
            assert forall|j: int|
                0 <= j < k && vs[j].cut_group == Some(group) && #[trigger] older(
                    vs,
                    j,
                    m,
                ) implies gives_way(vs, group, max, j) by {
                assert(older(vs, j, i));
            }
            m
        } else {
            assert forall|j: int|
                0 <= j < k && vs[j].cut_group == Some(group) && #[trigger] older(
                    vs,
                    j,
                    i,
                ) implies gives_way(vs, group, max, j) by {}
            i
        }
    }
}

proof fn lemma_none_staying<D>(vs: Seq<Voice<D>>, group: i32, max: nat, k: nat)
    requires
        k <= vs.len(),
        staying(vs, group, max, k) == 0,
    ensures
        forall|j: int|
            0 <= j < k && (#[trigger] vs[j]).cut_group == Some(group) ==> gives_way(
                vs,
                group,
                max,
                j,
            ),
    decreases k,
{
    if k > 0 {
        lemma_none_staying(vs, group, max, (k - 1) as nat);
    }
}

/// Where all older ones give way, no more stay than the group holds besides them.
proof fn lemma_staying_besides<D>(vs: Seq<Voice<D>>, group: i32, max: nat, i: int, k: nat)
    requires
        k <= vs.len(),
        forall|j: int|
            0 <= j < vs.len() && vs[j].cut_group == Some(group) && #[trigger] older(vs, j, i)
                ==> gives_way(vs, group, max, j),
    ensures
        staying(vs, group, max, k) + group_rank(vs, group, i, k) <= group_size(vs, group, k),
    decreases k,
{
    if k > 0 {
        lemma_staying_besides(vs, group, max, i, (k - 1) as nat);
    }
}

/// A group that may hold `max` voices holds no more of them once a new one has come in, but for
/// those that give way.
pub proof fn groups_hold_no_more_than_they_may<D>(vs: Seq<Voice<D>>, group: i32, max: nat)
    requires
        max >= 1,
    ensures
        staying(vs, group, max, vs.len()) + 1 <= max,
{
    if staying(vs, group, max, vs.len()) > 0 {
        let i = lemma_oldest_staying(vs, group, max, vs.len());
        lemma_staying_besides(vs, group, max, i, vs.len());
    }
}

/// A voice that gives way ends when the cutoff time after the new voice's start is over, or has
/// one frame left; it never gets longer, and the voices of other groups are left alone.
pub proof fn voices_that_give_way_end_in_time<D>(
    vs: Seq<Voice<D>>,
    start: u64,
    group: i32,
    max: nat,
    cutoff: nat,
    i: int,
)
    requires
        0 <= i < vs.len(),
    ensures
        ({
            let after = thinned_group(vs, start, Some(group), max, cutoff)[i];
            let end = frame_sum(start as nat, cutoff);
            &&& gives_way(vs, group, max, i) ==> after.start + after.frame_count <= end
                || after.frame_count <= 1
            &&& after.frame_count <= vs[i].frame_count
            &&& after.start == vs[i].start
            &&& vs[i].cut_group != Some(group) ==> after == vs[i]
        }),
{
}

/// The voices that go on are those that have frames left, in their order.
pub proof fn voices_go_on_while_they_have_frames<D>(vs: Seq<Voice<D>>, g_end: u64)
    ensures
        going_on(vs, g_end) == vs.filter(|v: Voice<D>| v.start + v.frame_count > g_end),
    decreases vs.len(),
{
    reveal(Seq::filter);
    let f = |v: Voice<D>| v.start + v.frame_count > g_end;
    if vs.len() > 0 {
        voices_go_on_while_they_have_frames(vs.drop_last(), g_end);
        assert(vs.filter(f) == if f(vs.last()) {
            vs.drop_last().filter(f).push(vs.last())
        } else {
            vs.drop_last().filter(f)
        });
    } else {
        assert(vs.filter(f) =~= vs);
    }
}

} // verus!
