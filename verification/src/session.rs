//! Playing on from cycle to cycle: scenes, reloads, and when voices are put in.
//!
//! The session decides; whoever runs it reads files, waits for frames, and puts in voices.

use vstd::prelude::*;
use vstd::string::StringExecFns;

use crate::audio::{cycle_frames, frame_sum, frames_plus, next_base, Audio};
use crate::dsl::program::tempos_valid;
use crate::dsl::{Program, ProgramView};
use crate::text::same_text;

verus! {

/// How to play.
#[derive(Debug, Clone, Copy, PartialEq, Eq, Structural)]
pub struct Settings {
    /// How many scenes there are.
    pub scenes: usize,
    /// After how many cycles the next scene comes; never if 0.
    pub scene_switch_cycles: u64,
    /// Whether a single scene is loaded only once.
    pub no_watch: bool,
    /// On which cycles reloads take effect, for programs that do not say.
    pub reload_quantum_cycles: u64,
    /// How many frames before a cycle its voices are put in.
    pub schedule_lookahead_frames: u64,
    /// After how many cycles to stop; never if 0.
    pub trace_cycles: u64,
}

/// What is playing.
#[derive(Debug)]
pub struct Session {
    pub program: Program,
    /// What will play once it is its turn.
    pub pending: Option<Program>,
    /// The text that was read last.
    pub last_source: String,
    pub scene: usize,
    pub cycle_index: u64,
    /// The frame at which the cycle starts.
    pub base: u64,
    /// The frames of the cycle.
    pub cycle_len: u64,
}

#[verifier::ext_equal]
pub struct SessionView {
    pub program: ProgramView,
    pub pending: Option<ProgramView>,
    pub last_source: Seq<char>,
    pub scene: int,
    pub cycle_index: u64,
    pub base: u64,
    pub cycle_len: u64,
}

pub open spec fn program_of(p: Option<Program>) -> Option<ProgramView> {
    match p {
        Some(p) => Some(p@),
        None => None,
    }
}

impl View for Session {
    type V = SessionView;

    open spec fn view(&self) -> SessionView {
        SessionView {
            program: self.program@,
            pending: program_of(self.pending),
            last_source: self.last_source@,
            scene: self.scene as int,
            cycle_index: self.cycle_index,
            base: self.base,
            cycle_len: self.cycle_len,
        }
    }
}

/// The programs can be played.
pub open spec fn playable(s: Session) -> bool {
    &&& tempos_valid(s.program.tracks@)
    &&& s.pending is Some ==> tempos_valid(s.pending->0.tracks@)
}

/// It is the turn of the next scene.
pub open spec fn scene_due(s: SessionView, set: Settings) -> bool {
    &&& set.scenes > 1
    &&& set.scene_switch_cycles > 0
    &&& s.cycle_index > 0
    &&& s.cycle_index % set.scene_switch_cycles == 0
}

/// The session at the start of a cycle: the next scene, of which nothing has been read, if it is
/// its turn.
pub open spec fn scene_switched(s: SessionView, set: Settings) -> SessionView {
    if scene_due(s, set) {
        SessionView {
            scene: (s.scene + 1) % (set.scenes as int),
            last_source: seq![],
            ..s
        }
    } else {
        s
    }
}

/// The file is read again in every cycle, unless a single scene is to be loaded only once.
pub open spec fn rereads(set: Settings) -> bool {
    !set.no_watch || set.scenes > 1
}

/// On which cycles a program takes effect: on every multiple of this.
pub open spec fn quantum(p: ProgramView, set: Settings) -> nat {
    let q = match p.reload_quantum_cycles {
        Some(q) => q,
        None => set.reload_quantum_cycles,
    };
    if q < 1 {
        1
    } else {
        q as nat
    }
}

/// A program is waiting, and this is one of its cycles.
pub open spec fn reload_due(s: SessionView, set: Settings) -> bool {
    s.pending is Some && s.cycle_index as nat % quantum(s.pending->0, set) == 0
}

/// The session with the program that waits, if this is one of its cycles.
pub open spec fn reloaded(s: SessionView, set: Settings, sample_rate: u32) -> SessionView {
    if reload_due(s, set) {
        SessionView {
            program: s.pending->0,
            pending: None,
            cycle_len: cycle_frames(sample_rate, s.pending->0.bpm) as u64,
            ..s
        }
    } else {
        s
    }
}

/// The frame at which the cycle ends.
pub open spec fn end_of(s: SessionView) -> nat {
    frame_sum(s.base as nat, s.cycle_len as nat)
}

/// The frame at which voices for a cycle that starts at `base` are put in.
pub open spec fn ahead_of(base: nat, set: Settings) -> nat {
    if base > set.schedule_lookahead_frames {
        (base - set.schedule_lookahead_frames) as nat
    } else {
        0
    }
}

/// The number of the next cycle.
pub open spec fn next_cycle(cycle: u64) -> u64 {
    if cycle == u64::MAX {
        0
    } else {
        (cycle + 1) as u64
    }
}

/// The session one cycle later.
pub open spec fn advanced(s: SessionView, sample_rate: u32) -> SessionView {
    SessionView {
        cycle_index: next_cycle(s.cycle_index),
        base: end_of(s) as u64,
        cycle_len: cycle_frames(sample_rate, s.program.bpm) as u64,
        ..s
    }
}

/// All cycles that were asked for have been played.
pub open spec fn all_traced(s: SessionView, set: Settings) -> bool {
    set.trace_cycles > 0 && s.cycle_index + 1 >= set.trace_cycles
}

proof fn lemma_cycle_frames_fit(sample_rate: u32, bpm: u32)
    ensures
        1 <= cycle_frames(sample_rate, bpm) <= u64::MAX,
{
    let b = if bpm == 0 {
        1
    } else {
        bpm as int
    };
    vstd::arithmetic::div_mod::lemma_div_is_ordered_by_denominator(sample_rate as int * 60, 1, b);
}

impl Session {
    /// Start with a program, on the next boundary of its cycles.
    pub fn new<D>(program: Program, source: String, audio: &Audio<D>, played: u64) -> (r: Session)
        requires
            tempos_valid(program.tracks@),
            played + cycle_frames(audio.sample_rate, program.bpm) <= u64::MAX,
        ensures
            playable(r),
            r@ == (SessionView {
                program: program@,
                pending: None,
                last_source: source@,
                scene: 0,
                cycle_index: 0,
                base: next_base(
                    played as nat,
                    cycle_frames(audio.sample_rate, program.bpm),
                ) as u64,
                cycle_len: cycle_frames(audio.sample_rate, program.bpm) as u64,
            }),
    {
        let cycle_len = audio.cycle_len_frames(program.bpm);
        let base = audio.align_next_cycle_base(played, cycle_len);
        Session {
            program,
            pending: None,
            last_source: source,
            scene: 0,
            cycle_index: 0,
            base,
            cycle_len,
        }
    }

    /// Go to the next scene if it is its turn; whether it was.
    pub fn switch_scene(&mut self, set: &Settings) -> (r: bool)
        requires
            playable(*old(self)),
            old(self).scene < set.scenes,
        ensures
            playable(*final(self)),
            r == scene_due(old(self)@, *set),
            final(self)@ == scene_switched(old(self)@, *set),
            final(self).scene < set.scenes,
    {
        if set.scenes > 1 && set.scene_switch_cycles > 0 && self.cycle_index > 0 && self.cycle_index
            % set.scene_switch_cycles == 0 {
            let next: usize = self.scene + 1;
            self.scene = if next == set.scenes {
                0
            } else {
                next
            };
            self.last_source = String::new();
            proof {
                assert(self.last_source@ =~= seq![]);
                if next < set.scenes {
                    vstd::arithmetic::div_mod::lemma_small_mod(next as nat, set.scenes as nat);
                } else {
                    vstd::arithmetic::div_mod::lemma_mod_self_0(set.scenes as int);
                }
            }
            true
        } else {
            false
        }
    }

    /// Whether the file is read again in this cycle.
    pub fn reads_again(set: &Settings) -> (r: bool)
        ensures
            r == rereads(*set),
    {
        !set.no_watch || set.scenes > 1
    }

    /// Take down what was read; whether it differs from what was read before.
    pub fn take_source(&mut self, text: &str) -> (r: bool)
        requires
            playable(*old(self)),
        ensures
            playable(*final(self)),
            r == (text@ != old(self)@.last_source),
            final(self)@ == (SessionView { last_source: text@, ..old(self)@ }),
    {
        if same_text(self.last_source.as_str(), text) {
            return false;
        }
        self.last_source = String::from_str(text);
        true
    }

    /// Let a program wait for its turn, in place of one that waits already.
    pub fn offer(&mut self, program: Program)
        requires
            playable(*old(self)),
            tempos_valid(program.tracks@),
        ensures
            playable(*final(self)),
            final(self)@ == (SessionView { pending: Some(program@), ..old(self)@ }),
    {
        self.pending = Some(program);
    }

    /// Whether the program that waits takes effect in this cycle.
    pub fn reload_is_due(&self, set: &Settings) -> (r: bool)
        ensures
            r == reload_due(self@, *set),
    {
        match &self.pending {
            None => false,
            Some(p) => {
                let q: u64 = match p.reload_quantum_cycles {
                    Some(q) => q,
                    None => set.reload_quantum_cycles,
                };
                let q: u64 = if q < 1 {
                    1
                } else {
                    q
                };
                self.cycle_index % q == 0
            },
        }
    }

    /// Let the program that waits take effect if this is one of its cycles; whether it did.
    pub fn reload<D>(&mut self, set: &Settings, audio: &Audio<D>) -> (r: bool)
        requires
            playable(*old(self)),
        ensures
            playable(*final(self)),
            r == reload_due(old(self)@, *set),
            final(self)@ == reloaded(old(self)@, *set, audio.sample_rate),
    {
        if !self.reload_is_due(set) {
            return false;
        }
        let mut waiting: Option<Program> = None;
        std::mem::swap(&mut waiting, &mut self.pending);
        match waiting {
            Some(p) => {
                self.cycle_len = audio.cycle_len_frames(p.bpm);
                self.program = p;
                true
            },
            None => false,
        }
    }

    /// The frame at which the cycle ends.
    pub fn cycle_end(&self) -> (r: u64)
        ensures
            r == end_of(self@),
    {
        frames_plus(self.base, self.cycle_len)
    }

    /// The frame at which voices for a cycle that starts at `base` are put in.
    pub fn commit_target(base: u64, set: &Settings) -> (r: u64)
        ensures
            r == ahead_of(base as nat, *set),
    {
        if base > set.schedule_lookahead_frames {
            base - set.schedule_lookahead_frames
        } else {
            0
        }
    }

    /// The number of the cycle after this one.
    pub fn next_cycle_index(&self) -> (r: u64)
        ensures
            r == next_cycle(self@.cycle_index),
    {
        if self.cycle_index == u64::MAX {
            0
        } else {
            self.cycle_index + 1
        }
    }

    /// Go on to the next cycle.
    pub fn advance<D>(&mut self, audio: &Audio<D>)
        requires
            playable(*old(self)),
        ensures
            playable(*final(self)),
            final(self)@ == advanced(old(self)@, audio.sample_rate),
    {
        let end = self.cycle_end();
        let next = self.next_cycle_index();
        self.cycle_len = audio.cycle_len_frames(self.program.bpm);
        self.base = end;
        self.cycle_index = next;
    }

    /// Whether all cycles that were asked for have been played.
    pub fn finished(&self, set: &Settings) -> (r: bool)
        ensures
            r == all_traced(self@, *set),
    {
        set.trace_cycles > 0 && self.cycle_index >= set.trace_cycles - 1
    }
}

/// How far the output is ahead of the end of a cycle.
pub fn drift_frames(played: u64, cycle_end: u64) -> (r: i128)
    ensures
        r == played - cycle_end,
        cycle_end + r == played,
{
    played as i128 - cycle_end as i128
}

/// By how many frames voices were put in too late.
pub fn late_frames(played: u64, base: u64) -> (r: u64)
    ensures
        r == if played > base {
            played - base
        } else {
            0
        },
        played >= base ==> base + r == played,
        played < base ==> r == 0,
{
    if played > base {
        played - base
    } else {
        0
    }
}

// ---------------------------------------------------------------------------------------------
// Laws
// ---------------------------------------------------------------------------------------------

/// Cycles follow on each other without a gap, as long as frames can be counted.
pub proof fn cycles_follow_without_gap(s: SessionView, sample_rate: u32)
    requires
        s.base + s.cycle_len <= u64::MAX,
    ensures
        advanced(s, sample_rate).base == s.base + s.cycle_len,
        advanced(s, sample_rate).program == s.program,
        advanced(s, sample_rate).cycle_len >= 1,
{
    lemma_cycle_frames_fit(sample_rate, s.program.bpm);
}

/// Unless a program waits, the one that plays goes on playing.
pub proof fn the_last_good_program_plays_on(s: SessionView, set: Settings, sample_rate: u32)
    requires
        s.pending is None,
    ensures
        reloaded(s, set, sample_rate) == s,
        advanced(s, sample_rate).program == s.program,
        scene_switched(s, set).program == s.program,
{
}

/// A program that waits takes effect on a cycle exactly if its quantum divides the cycle's number;
/// until then nothing changes.
pub proof fn reloads_keep_to_their_quantum(s: SessionView, set: Settings, sample_rate: u32)
    requires
        s.pending is Some,
    ensures
        s.cycle_index as nat % quantum(s.pending->0, set) == 0 ==> reloaded(
            s,
            set,
            sample_rate,
        ).program == s.pending->0,
        s.cycle_index as nat % quantum(s.pending->0, set) != 0 ==> reloaded(s, set, sample_rate)
            == s,
{
}

/// A single scene never switches, and scenes go round.
pub proof fn scenes_go_round(s: SessionView, set: Settings)
    requires
        0 <= s.scene < set.scenes,
    ensures
        set.scenes == 1 ==> scene_switched(s, set) == s,
        0 <= scene_switched(s, set).scene < set.scenes,
        scene_due(s, set) && s.scene + 1 < set.scenes ==> scene_switched(s, set).scene == s.scene
            + 1,
        scene_due(s, set) && s.scene + 1 == set.scenes ==> scene_switched(s, set).scene == 0,
{
    if s.scene + 1 < set.scenes {
        vstd::arithmetic::div_mod::lemma_small_mod((s.scene + 1) as nat, set.scenes as nat);
    } else {
        vstd::arithmetic::div_mod::lemma_mod_self_0(set.scenes as int);
    }
}

/// A program that says on which cycles it takes effect is heeded; of one that does not, the settings
/// say it. It takes effect with its own tempo, at the frame at which the cycle starts anyway.
pub proof fn programs_say_when_they_take_effect(
    s: SessionView,
    set: Settings,
    sample_rate: u32,
    q: u64,
)
    requires
        s.pending is Some,
        q >= 1,
        s.pending->0.reload_quantum_cycles == Some(q) || s.pending->0.reload_quantum_cycles is None
            && set.reload_quantum_cycles == q,
    ensures
        ({
            let r = reloaded(s, set, sample_rate);
            &&& s.cycle_index % q == 0 ==> r == (SessionView {
                program: s.pending->0,
                pending: None,
                cycle_len: r.cycle_len,
                ..s
            }) && r.cycle_len == cycle_frames(sample_rate, s.pending->0.bpm)
            &&& s.cycle_index % q != 0 ==> r == s
        }),
{
    lemma_cycle_frames_fit(sample_rate, s.pending->0.bpm);
}

/// The scene of a cycle goes by its number: each scene plays for as many cycles as are asked for, one
/// after the other, and after the last one comes the first.
pub proof fn scenes_play_for_their_cycles(s: SessionView, set: Settings)
    requires
        set.scenes > 1,
        set.scene_switch_cycles > 0,
        s.cycle_index == 0 ==> s.scene == 0,
        s.cycle_index > 0 ==> s.scene == (s.cycle_index - 1) / (set.scene_switch_cycles as int)
            % (set.scenes as int),
    ensures
        scene_switched(s, set).scene == s.cycle_index as int / (set.scene_switch_cycles as int) % (
        set.scenes as int),
        scene_switched(s, set).scene != s.scene ==> scene_switched(s, set).last_source.len() == 0,
        scene_switched(s, set).scene == s.scene ==> scene_switched(s, set) == s,
{
    let n = set.scene_switch_cycles as int;
    let m = set.scenes as int;
    let c = s.cycle_index as int;
    if c > 0 {
        let q = (c - 1) / n;
        let r = (c - 1) % n;
        vstd::arithmetic::div_mod::lemma_fundamental_div_mod(c - 1, n);
        vstd::arithmetic::div_mod::lemma_mod_bound(c - 1, n);
        assert(n * q == q * n) by (nonlinear_arith);
        assert((q + 1) * n == q * n + n) by (nonlinear_arith);
        vstd::arithmetic::div_mod::lemma_mod_bound(q, m);
        if r + 1 == n {
            vstd::arithmetic::div_mod::lemma_fundamental_div_mod_converse(c, n, q + 1, 0);
            vstd::arithmetic::div_mod::lemma_add_mod_noop(q, 1, m);
            vstd::arithmetic::div_mod::lemma_small_mod(1, m as nat);
            let x = q % m;
            if x + 1 < m {
                vstd::arithmetic::div_mod::lemma_small_mod((x + 1) as nat, m as nat);
            } else {
                vstd::arithmetic::div_mod::lemma_mod_self_0(m);
            }
        } else {
            vstd::arithmetic::div_mod::lemma_fundamental_div_mod_converse(c, n, q, r + 1);
        }
    } else {
        vstd::arithmetic::div_mod::lemma_div_basics(n);
        vstd::arithmetic::div_mod::lemma_small_mod(0, m as nat);
    }
}

/// A cycle later, only the number of the cycle, its start and its length are others: the next number,
/// and a beat of the program that plays.
pub proof fn cycles_are_counted(s: SessionView, sample_rate: u32)
    requires
        s.cycle_index < u64::MAX,
    ensures
        ({
            let a = advanced(s, sample_rate);
            &&& a.cycle_index == s.cycle_index + 1
            &&& a.cycle_len == cycle_frames(sample_rate, s.program.bpm)
            &&& a == (SessionView {
                cycle_index: a.cycle_index,
                base: a.base,
                cycle_len: a.cycle_len,
                ..s
            })
        }),
{
    lemma_cycle_frames_fit(sample_rate, s.program.bpm);
}

/// The voices of a cycle are put in as many frames before it as are asked for, if there are as many.
pub proof fn voices_are_put_in_ahead(base: nat, set: Settings)
    ensures
        base >= set.schedule_lookahead_frames ==> ahead_of(base, set)
            + set.schedule_lookahead_frames == base,
        base < set.schedule_lookahead_frames ==> ahead_of(base, set) == 0,
{
}

/// Playing stops with the last of the cycles that were asked for: with the first if it was one, and
/// never if it was none.
pub proof fn cycles_asked_for_are_played(s: SessionView, set: Settings)
    ensures
        set.trace_cycles == 0 ==> !all_traced(s, set),
        set.trace_cycles > 0 && s.cycle_index == set.trace_cycles - 1 ==> all_traced(s, set),
        set.trace_cycles > 0 && s.cycle_index < set.trace_cycles - 1 ==> !all_traced(s, set),
{
}

} // verus!
