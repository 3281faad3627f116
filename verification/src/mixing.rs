//! What holds of the voices on the output: the frames of times, who gives way to whom, and what
//! sounds in a frame.

use vstd::prelude::*;

use crate::audio::{
    after_hit, after_hits, clip_len, cutoff_frames, cycle_frames, gives_way, group_rank,
    group_size, hit_faults, joined_by, joined_by_all, ms_frames, offset_frames, older, part,
    scheduled, shortened, staying, thinned_group, voice_fault, voices_max, wait_for,
    PreparedVoice, ScheduledVoice, Voice, VoiceFault,
};
use crate::binary::{overflow, Precision};
use crate::pat::lanes::value_view;

verus! {

// ---------------------------------------------------------------------------------------------
// Frames
// ---------------------------------------------------------------------------------------------

/// No whole number is nearer to `x` than `n`, and of two that are as near it is the larger.
pub open spec fn is_nearest(x: real, n: nat) -> bool {
    n as real - 1real / 2real <= x < n as real + 1real / 2real
}

/// A time takes the whole number of frames that is nearest to it: `ms` milliseconds are
/// `ms * sample_rate / 1000` frames.
pub proof fn times_take_the_nearest_number_of_frames(ms: real, sample_rate: u32)
    requires
        ms >= 0real,
        ms * (sample_rate as real) <= 18_000_000_000_000_000_000_000real,
    ensures
        is_nearest(ms * (sample_rate as real) / 1000real, ms_frames(ms, sample_rate)),
{
    let x = ms / 1000real * (sample_rate as real);
    assert(x == ms * (sample_rate as real) / 1000real) by (nonlinear_arith)
        requires
            x == ms / 1000real * (sample_rate as real),
    ;
    assert(ms * (sample_rate as real) >= 0real) by (nonlinear_arith)
        requires
            ms >= 0real,
            sample_rate as real >= 0real,
    ;
}

/// A hit starts in the frame of its cycle that is nearest to its time, and in the last frame at the
/// latest.
pub proof fn hits_start_in_the_nearest_frame(frac: real, cycle_len: nat)
    requires
        cycle_len >= 1,
        frac >= 0real,
    ensures
        offset_frames(frac, cycle_len) < cycle_len,
        frac * (cycle_len as real) < cycle_len as real - 1real / 2real ==> is_nearest(
            frac * (cycle_len as real),
            offset_frames(frac, cycle_len),
        ),
        frac * (cycle_len as real) >= cycle_len as real - 1real / 2real ==> offset_frames(
            frac,
            cycle_len,
        ) == cycle_len - 1,
{
    let x = frac * (cycle_len as real);
    assert(x >= 0real) by (nonlinear_arith)
        requires
            frac >= 0real,
            cycle_len as real >= 1real,
            x == frac * (cycle_len as real),
    ;
}

/// At `bpm` beats a minute, a cycle has as many whole frames as fit into a beat, and at least one.
pub proof fn cycles_last_a_beat(sample_rate: u32, bpm: u32)
    ensures
        cycle_frames(sample_rate, bpm) >= 1,
        bpm >= 1 ==> {
            let n = cycle_frames(sample_rate, bpm);
            &&& sample_rate * 60 < (n + 1) * bpm
            &&& sample_rate * 60 >= bpm ==> n * bpm <= sample_rate * 60
            &&& sample_rate * 60 < bpm ==> n == 1
        },
        cycle_frames(sample_rate, 0) == cycle_frames(sample_rate, 1),
{
    if bpm >= 1 {
        let t = sample_rate as int * 60;
        let q = t / (bpm as int);
        let n = cycle_frames(sample_rate, bpm);
        vstd::arithmetic::div_mod::lemma_fundamental_div_mod(t, bpm as int);
        vstd::arithmetic::div_mod::lemma_mod_bound(t, bpm as int);
        assert(bpm as int * q == q * bpm as int) by (nonlinear_arith);
        assert((q + 1) * bpm == q * bpm + bpm) by (nonlinear_arith);
        if t >= bpm {
            assert(q >= 1) by (nonlinear_arith)
                requires
                    (q + 1) * bpm > t,
                    t >= bpm,
                    bpm >= 1,
            ;
            assert(n == q);
        } else {
            assert(q <= 0) by (nonlinear_arith)
                requires
                    q * bpm <= t,
                    t < bpm,
                    bpm >= 1,
            ;
            assert(n == 1);
            assert((n + 1) * bpm == 2 * bpm) by (nonlinear_arith)
                requires
                    n == 1,
            ;
        }
    }
}

/// A clip sounds whole, or for as long as its duration says if that is less.
pub proof fn clips_sound_no_longer_than_they_may(len: u64, ms: real, sample_rate: u32)
    ensures
        clip_len(len, None, sample_rate) == len,
        clip_len(len, Some(ms), sample_rate) <= len,
        clip_len(len, Some(ms), sample_rate) <= ms_frames(ms, sample_rate),
        clip_len(len, Some(ms), sample_rate) == len || clip_len(len, Some(ms), sample_rate)
            == ms_frames(ms, sample_rate),
{
}

/// Who waits for a frame and sleeps wakes up a millisecond before it, or less than two; nobody
/// sleeps for a frame that is no more than two milliseconds away.
pub proof fn sleepers_wake_up_in_time(now: u64, target: u64, sample_rate: u32)
    requires
        sample_rate > 0,
    ensures
        ({
            let w = wait_for(now, target, sample_rate);
            let left = (target - now) * 1000;
            &&& w is Done <==> now >= target
            &&& w is Spin <==> 0 < left <= 2 * sample_rate
            &&& w is Sleep ==> {
                let ms = w->Sleep_0 as int;
                &&& ms >= 1
                &&& (ms + 1) * sample_rate <= left
                &&& ms + 1 < u64::MAX ==> left < (ms + 2) * sample_rate
            }
        }),
{
    let left = (target - now) * 1000;
    let r = sample_rate as int;
    let q = left / r;
    vstd::arithmetic::div_mod::lemma_fundamental_div_mod(left, r);
    vstd::arithmetic::div_mod::lemma_mod_bound(left, r);
    assert(r * q == q * r) by (nonlinear_arith);
    assert((q + 1) * r == q * r + r) by (nonlinear_arith);
    if left > 2 * r {
        assert(q >= 2) by (nonlinear_arith)
            requires
                (q + 1) * r > left,
                left > 2 * r,
                r > 0,
        ;
        if q > u64::MAX {
            let ms = u64::MAX - 1;
            assert((ms + 1) * r <= q * r) by (nonlinear_arith)
                requires
                    ms + 1 <= q,
                    r > 0,
            ;
        }
    }
}

// ---------------------------------------------------------------------------------------------
// Who gives way
// ---------------------------------------------------------------------------------------------

proof fn lemma_rank_below<D>(vs: Seq<Voice<D>>, group: i32, j: int, i: int, k: nat)
    requires
        0 <= j < vs.len(),
        0 <= i < vs.len(),
        older(vs, j, i),
        vs[j].cut_group == Some(group),
        k <= vs.len(),
    ensures
        group_rank(vs, group, j, k) + (if j < k {
            1int
        } else {
            0int
        }) <= group_rank(vs, group, i, k),
    decreases k,
{
    if k > 0 {
        lemma_rank_below(vs, group, j, i, (k - 1) as nat);
    }
}

/// The older voices of a group give way before the younger ones; a voice of no group, or of
/// another, never gives way.
pub proof fn the_oldest_give_way_first<D>(
    vs: Seq<Voice<D>>,
    group: i32,
    max: nat,
    j: int,
    i: int,
)
    requires
        0 <= j < vs.len(),
        0 <= i < vs.len(),
        gives_way(vs, group, max, i),
    ensures
        vs[i].cut_group == Some(group),
        vs[j].cut_group == Some(group) && (vs[j].start < vs[i].start || vs[j].start == vs[i].start
            && j < i) ==> gives_way(vs, group, max, j),
{
    if vs[j].cut_group == Some(group) && older(vs, j, i) {
        lemma_rank_below(vs, group, j, i, vs.len());
    }
}

/// The youngest of the first `k` voices that gives way.
proof fn lemma_youngest_leaving<D>(vs: Seq<Voice<D>>, group: i32, max: nat, k: nat) -> (i: int)
    requires
        k <= vs.len(),
        exists|j: int| 0 <= j < k && #[trigger] gives_way(vs, group, max, j),
    ensures
        0 <= i < k,
        gives_way(vs, group, max, i),
        forall|j: int|
            0 <= j < k && j != i && #[trigger] gives_way(vs, group, max, j) ==> older(vs, j, i),
    decreases k,
{
    let l = k - 1;
    if exists|j: int| 0 <= j < l && #[trigger] gives_way(vs, group, max, j) {
        let i = lemma_youngest_leaving(vs, group, max, l as nat);
        if gives_way(vs, group, max, l) && older(vs, i, l) {
            l
        } else {
            i
        }
    } else {
        l
    }
}

proof fn lemma_besides_the_youngest<D>(vs: Seq<Voice<D>>, group: i32, max: nat, i: int, k: nat)
    requires
        k <= vs.len(),
        0 <= i < vs.len(),
        forall|j: int|
            0 <= j < vs.len() && j != i && #[trigger] gives_way(vs, group, max, j) ==> older(
                vs,
                j,
                i,
            ),
    ensures
        group_size(vs, group, k) <= group_rank(vs, group, i, k) + staying(vs, group, max, k) + (
        if i < k {
            1int
        } else {
            0int
        }),
    decreases k,
{
    if k > 0 {
        lemma_besides_the_youngest(vs, group, max, i, (k - 1) as nat);
    }
}

proof fn lemma_all_stay<D>(vs: Seq<Voice<D>>, group: i32, max: nat, k: nat)
    requires
        k <= vs.len(),
        forall|j: int| 0 <= j < k ==> !#[trigger] gives_way(vs, group, max, j),
    ensures
        staying(vs, group, max, k) == group_size(vs, group, k),
    decreases k,
{
    if k > 0 {
        lemma_all_stay(vs, group, max, (k - 1) as nat);
    }
}

/// No more voices give way than have to: either the whole group stays, or as many of it as leave
/// one place for the new voice. The whole group stays if there is a place left.
pub proof fn no_more_give_way_than_have_to<D>(vs: Seq<Voice<D>>, group: i32, max: nat)
    requires
        max >= 1,
    ensures
        group_size(vs, group, vs.len()) < max ==> staying(vs, group, max, vs.len()) == group_size(
            vs,
            group,
            vs.len(),
        ),
        group_size(vs, group, vs.len()) >= max ==> staying(vs, group, max, vs.len()) == max - 1,
{
    let n = vs.len();
    crate::audio::groups_hold_no_more_than_they_may(vs, group, max);
    if exists|j: int| 0 <= j < n && #[trigger] gives_way(vs, group, max, j) {
        let i = lemma_youngest_leaving(vs, group, max, n);
        lemma_besides_the_youngest(vs, group, max, i, n);
    } else {
        lemma_all_stay(vs, group, max, n);
    }
}

/// How many voices of the group there are.
pub proof fn groups_are_counted<D>(vs: Seq<Voice<D>>, group: i32, k: nat)
    requires
        k <= vs.len(),
    ensures
        group_size(vs, group, k) == vs.take(k as int).filter(
            |v: Voice<D>| v.cut_group == Some(group),
        ).len(),
    decreases k,
{
    let f = |v: Voice<D>| v.cut_group == Some(group);
    reveal(Seq::filter);
    let t = vs.take(k as int);
    if k > 0 {
        groups_are_counted(vs, group, (k - 1) as nat);
        assert(t.drop_last() =~= vs.take(k - 1));
        assert(t.last() == vs[k - 1]);
    } else {
        assert(t =~= seq![]);
    }
}

// ---------------------------------------------------------------------------------------------
// What becomes of the voices
// ---------------------------------------------------------------------------------------------

/// A voice that gives way goes on until the cutoff time after the start of the new one is over, and
/// for one frame at least; if that is before its own end, it fades out over the cutoff time, over
/// one frame at least and over all that is left of it at most. Nothing else of it changes.
pub proof fn voices_fade_out_over_the_cutoff<D>(v: Voice<D>, start: u64, cutoff: nat)
    requires
        v.frame_count >= 1,
        start + cutoff <= u64::MAX,
    ensures
        ({
            let end = start + cutoff;
            let old_end = v.start + v.frame_count;
            let w = shortened(v, end as nat, cutoff);
            &&& end >= old_end ==> w == v
            &&& v.start < end < old_end ==> w.start + w.frame_count == end
            &&& end <= v.start ==> w.frame_count == 1
            &&& end < old_end && v.frame_count > 1 ==> {
                &&& w.fade_out_frames == cutoff || w.fade_out_frames == 1 && cutoff == 0
                    || w.fade_out_frames == w.frame_count && w.frame_count < cutoff
                &&& 1 <= w.fade_out_frames <= w.frame_count
            }
            &&& w == (Voice {
                frame_count: w.frame_count,
                fade_out_frames: w.fade_out_frames,
                ..v
            })
        }),
{
}

/// A new voice comes after the others, starts in its frame and has the frames, the gain, the pan and
/// the group that it came with. Of the others, those of its group that are too many give way, and
/// all others are left as they are.
pub proof fn new_voices_join_the_others<D>(
    vs: Seq<Voice<D>>,
    sample_rate: u32,
    cycle_base: u64,
    p: PreparedVoice<D>,
    i: int,
)
    requires
        0 <= i < vs.len(),
        cycle_base + p.offset_frames <= u64::MAX,
    ensures
        ({
            let after = joined_by(vs, sample_rate, cycle_base, p);
            let new = after.last();
            let start = cycle_base + p.offset_frames;
            &&& after.len() == vs.len() + 1
            &&& new.start == start
            &&& new.frame_count == p.frame_count
            &&& new.gain == p.gain
            &&& new.pan == p.pan
            &&& new.data == p.data
            &&& new.cut_group == p.cut_group
            &&& p.cut_group is None ==> after[i] == vs[i]
            &&& p.cut_group is Some && !gives_way(
                vs,
                p.cut_group->0,
                voices_max(p.cut_voices),
                i,
            ) ==> after[i] == vs[i]
            &&& p.cut_group is Some && p.cutoff_ms is None && gives_way(
                vs,
                p.cut_group->0,
                voices_max(p.cut_voices),
                i,
            ) ==> after[i] == shortened(vs[i], start as nat, 0)
            &&& p.cut_group is Some && p.cutoff_ms is Some && start + ms_frames(
                p.cutoff_ms->0@,
                sample_rate,
            ) <= u64::MAX && gives_way(vs, p.cut_group->0, voices_max(p.cut_voices), i)
                ==> after[i] == shortened(
                vs[i],
                (start + ms_frames(p.cutoff_ms->0@, sample_rate)) as nat,
                ms_frames(p.cutoff_ms->0@, sample_rate),
            )
        }),
        voices_max(None) == 1,
        p.cut_voices is Some && p.cut_voices->0 >= 1 ==> voices_max(p.cut_voices)
            == p.cut_voices->0,
{
}

/// A voice fades out over its last four milliseconds, to the nearest frame, or over all of it if it
/// is shorter.
pub proof fn voices_fade_out_at_their_end<D>(
    vs: Seq<Voice<D>>,
    sample_rate: u32,
    cycle_base: u64,
    p: PreparedVoice<D>,
    n: nat,
)
    requires
        is_nearest(sample_rate as real / 250real, n),
    ensures
        ({
            let new = joined_by(vs, sample_rate, cycle_base, p).last();
            &&& n <= p.frame_count ==> new.fade_out_frames == n
            &&& n > p.frame_count ==> new.fade_out_frames == p.frame_count
        }),
{
    assert(sample_rate as real * (4real / 1000real) == sample_rate as real / 250real);
}

/// New voices come in one after the other: what the first of them leave is what the next one finds.
pub proof fn new_voices_come_in_one_by_one<D>(
    vs: Seq<Voice<D>>,
    sample_rate: u32,
    cycle_base: u64,
    ps: Seq<PreparedVoice<D>>,
    k: nat,
)
    requires
        k <= ps.len(),
    ensures
        joined_by_all(vs, sample_rate, cycle_base, ps, k) == ps.take(k as int).fold_left(
            vs,
            |b: Seq<Voice<D>>, p: PreparedVoice<D>| joined_by(b, sample_rate, cycle_base, p),
        ),
    decreases k,
{
    let f = |b: Seq<Voice<D>>, p: PreparedVoice<D>| joined_by(b, sample_rate, cycle_base, p);
    let t = ps.take(k as int);
    reveal_with_fuel(Seq::fold_left, 2);
    if k > 0 {
        new_voices_come_in_one_by_one(vs, sample_rate, cycle_base, ps, (k - 1) as nat);
        assert(t.drop_last() =~= ps.take(k - 1));
        assert(t.last() == ps[k - 1]);
    }
}

/// In the frame `g` a voice is as far into its clip as frames have passed since its start. It fades
/// while no more frames are left of it than it fades out over, by the part of them that is left.
pub proof fn voices_play_their_clips_from_the_start<D>(v: Voice<D>, g: u64)
    requires
        v.start <= g < v.start + v.frame_count,
    ensures
        ({
            let left = v.start + v.frame_count - g;
            &&& part(v, g) is Some
            &&& part(v, g)->0.frame == g - v.start
            &&& left > v.fade_out_frames ==> part(v, g)->0.fade is None
            &&& left <= v.fade_out_frames ==> part(v, g)->0.fade is Some && {
                let (a, b) = part(v, g)->0.fade->0;
                a == left && b == v.fade_out_frames
            }
        }),
{
}

// ---------------------------------------------------------------------------------------------
// Hits
// ---------------------------------------------------------------------------------------------

/// The number is one that samples can be mixed with: not negative, and below the largest that single
/// precision can tell from infinity.
pub open spec fn in_bounds(x: Option<real>) -> bool {
    x is Some ==> 0real <= x->0 && x->0 < overflow(Precision::Single) as real
}

/// A hit can be played exactly if its gain, its duration and its cutoff time are not negative and
/// finite, its pan lies between -1 and 1, its group is not negative and may hold a voice. What is
/// said to be wrong with it is wrong with it.
pub proof fn hits_are_refused_for_what_is_wrong(
    gain: real,
    pan: real,
    ms: Option<real>,
    group: Option<i32>,
    voices: Option<u32>,
    cutoff: Option<real>,
)
    ensures
        ({
            let f = voice_fault(gain, pan, ms, group, voices, cutoff);
            &&& f is None <==> {
                &&& in_bounds(Some(gain))
                &&& -1real <= pan <= 1real
                &&& in_bounds(ms)
                &&& group is Some ==> group->0 >= 0
                &&& voices is Some ==> voices->0 >= 1
                &&& in_bounds(cutoff)
            }
            &&& match f {
                None => true,
                Some(VoiceFault::Gain) => !in_bounds(Some(gain)),
                Some(VoiceFault::Pan) => !(-1real <= pan <= 1real),
                Some(VoiceFault::Duration) => !in_bounds(ms),
                Some(VoiceFault::CutGroup(g)) => group == Some(g) && g < 0,
                Some(VoiceFault::CutVoices) => voices == Some(0u32),
                Some(VoiceFault::Cutoff) => !in_bounds(cutoff),
            }
        }),
{
}

/// A hit that can be played becomes a voice that starts in its frame, with its gain, pan, group and
/// clip; one that cannot, or of which no frame would sound, changes nothing.
pub proof fn hits_become_voices<D>(vs: Seq<Voice<D>>, sample_rate: u32, s: ScheduledVoice<D>)
    ensures
        ({
            let after = after_hit(vs, sample_rate, s);
            let ms = value_view(s.max_duration_ms);
            let fault = voice_fault(
                s.gain@,
                s.pan@,
                ms,
                s.cut_group,
                s.cut_voices,
                value_view(s.cutoff_ms),
            );
            let count = clip_len(s.clip_frames, ms, sample_rate);
            &&& fault is Some || count == 0 ==> after == vs
            &&& fault is None && count > 0 ==> {
                &&& after.len() == vs.len() + 1
                &&& after.last().start == s.start_frame
                &&& after.last().frame_count == count
                &&& after.last().gain == s.gain
                &&& after.last().pan == s.pan
                &&& after.last().cut_group == s.cut_group
                &&& after.last().data == s.data
                &&& after.drop_last() == thinned_group(
                    vs,
                    s.start_frame,
                    s.cut_group,
                    voices_max(s.cut_voices),
                    cutoff_frames(value_view(s.cutoff_ms), sample_rate),
                )
            }
            &&& scheduled(s, sample_rate) is Err <==> fault is Some
            &&& fault is Some ==> scheduled(s, sample_rate) == Err::<Option<PreparedVoice<D>>, _>(
                fault->0,
            )
        }),
{
    let ms = value_view(s.max_duration_ms);
    if let Ok(Some(p)) = scheduled(s, sample_rate) {
        assert(after_hit(vs, sample_rate, s).drop_last() =~= thinned_group(
            vs,
            s.start_frame,
            s.cut_group,
            voices_max(s.cut_voices),
            cutoff_frames(value_view(s.cutoff_ms), sample_rate),
        ));
    }
}

/// Each hit that cannot be played is told, with what is wrong with it, and no other; the others are
/// put in one after the other.
pub proof fn refused_hits_are_told<D>(
    vs: Seq<Voice<D>>,
    sample_rate: u32,
    ss: Seq<ScheduledVoice<D>>,
    k: nat,
)
    requires
        k <= ss.len(),
    ensures
        after_hits(vs, sample_rate, ss, k) == ss.take(k as int).fold_left(
            vs,
            |b: Seq<Voice<D>>, s: ScheduledVoice<D>| after_hit(b, sample_rate, s),
        ),
        forall|i: int, f: VoiceFault|
            0 <= i < k ==> (#[trigger] hit_faults(ss, sample_rate, k).contains((i, f))
                <==> scheduled(ss[i], sample_rate) == Err::<Option<PreparedVoice<D>>, _>(f)),
        forall|i: int, f: VoiceFault| #[trigger]
            hit_faults(ss, sample_rate, k).contains((i, f)) ==> 0 <= i < k,
    decreases k,
{
    let g = |b: Seq<Voice<D>>, s: ScheduledVoice<D>| after_hit(b, sample_rate, s);
    let t = ss.take(k as int);
    reveal_with_fuel(Seq::fold_left, 2);
    let all = hit_faults(ss, sample_rate, k);
    if k > 0 {
        refused_hits_are_told(vs, sample_rate, ss, (k - 1) as nat);
        assert(t.drop_last() =~= ss.take(k - 1));
        assert(t.last() == ss[k - 1]);
        let before = hit_faults(ss, sample_rate, (k - 1) as nat);
        assert forall|i: int, f: VoiceFault| #[trigger] all.contains((i, f)) <==> before.contains(
            (i, f),
        ) || i == k - 1 && scheduled(ss[k - 1], sample_rate) == Err::<Option<PreparedVoice<D>>, _>(
            f,
        ) by {
            if let Err(e) = scheduled(ss[k - 1], sample_rate) {
                assert(all == before.push((k - 1, e)));
                assert(all.contains((i, f)) <==> before.contains((i, f)) || (i, f) == (k - 1, e))
                    by {
                    if before.contains((i, f)) {
                        let m = choose|m: int| 0 <= m < before.len() && before[m] == (i, f);
                        assert(all[m] == (i, f));
                    }
                    if (i, f) == (k - 1, e) {
                        assert(all[before.len() as int] == (i, f));
                    }
                }
            }
        }
    }
}

} // verus!
