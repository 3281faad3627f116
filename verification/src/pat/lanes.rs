//! Control lanes: patterns of numbers that run along with the hits of a sound pattern.
//!
//! A lane is laid out over the cycle as a sound is, rests among it, into a table of values; the
//! table repeats across the hits. A rest stands for the neutral value, so the period still
//! advances.

use vstd::prelude::*;
use vstd::string::StringExecFns;

use crate::number::{
    read_i32, read_number, read_u32, reading, show_number, shown, signed, unsigned, Precision,
    Reading, ReadingView,
};
use crate::pat::eval::{eval, eval_slots, hits, slots, SlotView};
use crate::pat::{Pat, PatView};
use crate::ratio::Ratio;
use crate::text::{chars_of, debug_of, debug_text, decimal, decimal_of, join2, join3, views};

verus! {

/// The lanes that hold numbers.
#[derive(Debug, Clone, Copy, PartialEq, Eq, Structural)]
pub enum Lane {
    Gain,
    Pan,
    Prob,
    Dur,
    Legato,
    Cutoff,
}

/// What a lane complains of when an atom is no number; the atom follows.
pub open spec fn lane_expects(lane: Lane) -> Seq<char> {
    match lane {
        Lane::Gain => "gain lane: expected a non-negative number, got "@,
        Lane::Pan => "pan lane: expected a number in [-1,1], got "@,
        Lane::Prob => "prob lane: expected a number in [0,1], got "@,
        Lane::Dur => "dur lane: expected a non-negative number (ms), got "@,
        Lane::Legato => "legato lane: expected a non-negative number, got "@,
        Lane::Cutoff => "cutoff lane: expected non-negative milliseconds, got "@,
    }
}

/// What a lane complains of when a number is out of range, before and after the number.
pub open spec fn lane_refuses(lane: Lane) -> (Seq<char>, Seq<char>) {
    match lane {
        Lane::Gain => ("gain lane: invalid value "@, ""@),
        Lane::Pan => ("pan lane: invalid value "@, " (expected -1..=1)"@),
        Lane::Prob => ("prob lane: invalid value "@, " (expected 0..=1)"@),
        Lane::Dur => ("dur lane: invalid value "@, ""@),
        Lane::Legato => ("legato lane: invalid value "@, ""@),
        Lane::Cutoff => ("cutoff lane: invalid value "@, ""@),
    }
}

/// The complaint about a number that is out of range.
pub open spec fn refusal(lane: Lane, atom: Seq<char>) -> Seq<char> {
    lane_refuses(lane).0 + shown(atom, Precision::Single) + lane_refuses(lane).1
}

/// The numbers that a lane takes.
pub open spec fn lane_takes(lane: Lane, x: real) -> bool {
    match lane {
        Lane::Pan => -1real <= x <= 1real,
        Lane::Prob => 0real <= x <= 1real,
        _ => 0real <= x,
    }
}

/// An atom of a lane as a number.
pub open spec fn lane_atom(lane: Lane, atom: Seq<char>) -> Result<real, Seq<char>> {
    match reading(atom, Precision::Single) {
        ReadingView::Malformed => Err(lane_expects(lane) + debug_text(atom)),
        ReadingView::NotFinite => Err(refusal(lane, atom)),
        ReadingView::Finite(x) => if lane_takes(lane, x) {
            Ok(x)
        } else {
            Err(refusal(lane, atom))
        },
    }
}

/// An atom of the cut lane as a group.
pub open spec fn cut_group_atom(atom: Seq<char>) -> Result<i32, Seq<char>> {
    match signed(atom) {
        None => Err("cut lane: expected integer group >= 0, got "@ + debug_text(atom)),
        Some(n) => if n < 0 {
            Err("cut lane: invalid group -"@ + decimal((-n) as nat))
        } else {
            Ok(n as i32)
        },
    }
}

/// An atom of the cut lane as a number of voices.
pub open spec fn cut_voices_atom(atom: Seq<char>) -> Result<u32, Seq<char>> {
    match unsigned(atom, u32::MAX as nat) {
        None => Err("cut lane: expected integer voices >= 1, got "@ + debug_text(atom)),
        Some(n) => if n < 1 {
            Err("cut lane: voices must be >= 1"@)
        } else {
            Ok(n as u32)
        },
    }
}

/// The groups of the cut lane.
pub struct CutGroups;

/// The numbers of voices of the cut lane.
pub struct CutVoices;

/// A kind of values that a lane can hold.
pub trait LaneKind: Sized {
    type Value: View;

    /// What an atom says, or the complaint about it.
    spec fn says(self, atom: Seq<char>) -> Result<<Self::Value as View>::V, Seq<char>>;

    fn read_atom(&self, atom: &str) -> (r: Result<Self::Value, String>)
        ensures
            match r {
                Ok(x) => self.says(atom@) == Ok::<<Self::Value as View>::V, Seq<char>>(x@),
                Err(e) => self.says(atom@) == Err::<<Self::Value as View>::V, Seq<char>>(e@),
            },
    ;
}

/// The values of the slots, or the first complaint; a rest has none.
pub open spec fn lane_values<K: LaneKind>(kind: K, s: Seq<SlotView>) -> Result<
    Seq<Option<<K::Value as View>::V>>,
    Seq<char>,
>
    decreases s.len(),
{
    if s.len() == 0 {
        Ok(seq![])
    } else {
        match lane_values(kind, s.drop_last()) {
            Err(e) => Err(e),
            Ok(t) => match s.last().token {
                None => Ok(t.push(None)),
                Some(atom) => match kind.says(atom) {
                    Err(e) => Err(e),
                    Ok(x) => Ok(t.push(Some(x))),
                },
            },
        }
    }
}

/// A table with no entries says nothing about any hit.
pub open spec fn filled<T>(r: Result<Seq<Option<T>>, Seq<char>>) -> Result<
    Seq<Option<T>>,
    Seq<char>,
> {
    match r {
        Ok(t) => Ok(
            if t.len() == 0 {
                seq![None]
            } else {
                t
            },
        ),
        Err(e) => Err(e),
    }
}

/// The table of a lane over a cycle.
pub open spec fn lane_table<K: LaneKind>(
    kind: K,
    p: Option<PatView>,
    cycle: nat,
    t0: real,
    t1: real,
) -> Result<Seq<Option<<K::Value as View>::V>>, Seq<char>> {
    match p {
        None => Ok(seq![None]),
        Some(p) => filled(lane_values(kind, slots(p, true, cycle, t0, t1))),
    }
}

/// The entry of a table for the hit numbered `i`: the table repeats.
pub open spec fn entry<T>(t: Seq<Option<T>>, i: int) -> Option<T> {
    t[i % (t.len() as int)]
}

pub open spec fn or_value(x: Option<real>, neutral: real) -> real {
    match x {
        Some(x) => x,
        None => neutral,
    }
}

/// Hits with their gains.
pub open spec fn gained(
    sound: PatView,
    gain: Option<PatView>,
    cycle: nat,
    t0: real,
    t1: real,
) -> Result<Seq<(real, Seq<char>, real)>, Seq<char>> {
    let hs = hits(sound, cycle, t0, t1);
    match lane_table(Lane::Gain, gain, cycle, t0, t1) {
        Err(e) => Err(e),
        Ok(g) => Ok(
            Seq::new(hs.len(), |i: int| (hs[i].0, hs[i].1, or_value(entry(g, i), 1real))),
        ),
    }
}

/// Hits with their gains and pans.
pub open spec fn panned(
    sound: PatView,
    gain: Option<PatView>,
    pan: Option<PatView>,
    cycle: nat,
    t0: real,
    t1: real,
) -> Result<Seq<(real, Seq<char>, real, real)>, Seq<char>> {
    let hs = hits(sound, cycle, t0, t1);
    match lane_table(Lane::Gain, gain, cycle, t0, t1) {
        Err(e) => Err(e),
        Ok(g) => match lane_table(Lane::Pan, pan, cycle, t0, t1) {
            Err(e) => Err(e),
            Ok(p) => Ok(
                Seq::new(
                    hs.len(),
                    |i: int|
                        (
                            hs[i].0,
                            hs[i].1,
                            or_value(entry(g, i), 1real),
                            or_value(entry(p, i), 0real),
                        ),
                ),
            ),
        },
    }
}

/// A hit with what the lanes say of it.
#[derive(Debug)]
pub struct ControlHit {
    pub at: Ratio,
    pub token: String,
    pub gain: Ratio,
    pub pan: Ratio,
    pub prob: Option<Ratio>,
    pub dur: Option<Ratio>,
    pub legato: Option<Ratio>,
    pub cut_group: Option<i32>,
    pub cut_voices: Option<u32>,
    pub cutoff: Option<Ratio>,
}

#[verifier::ext_equal]
pub struct ControlHitView {
    pub at: real,
    pub token: Seq<char>,
    pub gain: real,
    pub pan: real,
    pub prob: Option<real>,
    pub dur: Option<real>,
    pub legato: Option<real>,
    pub cut_group: Option<i32>,
    pub cut_voices: Option<u32>,
    pub cutoff: Option<real>,
}

/// What a value that may be missing stands for.
pub open spec fn value_view<T: View>(x: Option<T>) -> Option<T::V> {
    match x {
        Some(x) => Some(x@),
        None => None,
    }
}

impl View for ControlHit {
    type V = ControlHitView;

    open spec fn view(&self) -> ControlHitView {
        ControlHitView {
            at: self.at@,
            token: self.token@,
            gain: self.gain@,
            pan: self.pan@,
            prob: value_view(self.prob),
            dur: value_view(self.dur),
            legato: value_view(self.legato),
            cut_group: self.cut_group,
            cut_voices: self.cut_voices,
            cutoff: value_view(self.cutoff),
        }
    }
}

/// The lanes of a sound.
#[verifier::ext_equal]
pub struct LanesView {
    pub gain: Option<PatView>,
    pub pan: Option<PatView>,
    pub prob: Option<PatView>,
    pub dur: Option<PatView>,
    pub legato: Option<PatView>,
    pub cut_group: Option<PatView>,
    pub cut_voices: Option<PatView>,
    pub cutoff: Option<PatView>,
}

/// The tables of the lanes over a cycle.
pub struct TablesView {
    pub gain: Seq<Option<real>>,
    pub pan: Seq<Option<real>>,
    pub prob: Seq<Option<real>>,
    pub dur: Seq<Option<real>>,
    pub legato: Seq<Option<real>>,
    pub cut_group: Seq<Option<i32>>,
    pub cut_voices: Seq<Option<u32>>,
    pub cutoff: Seq<Option<real>>,
}

/// All tables, or the first complaint in the order of the lanes.
pub open spec fn tables(l: LanesView, cycle: nat, t0: real, t1: real) -> Result<
    TablesView,
    Seq<char>,
> {
    match lane_table(Lane::Gain, l.gain, cycle, t0, t1) {
        Err(e) => Err(e),
        Ok(gain) => match lane_table(Lane::Pan, l.pan, cycle, t0, t1) {
            Err(e) => Err(e),
            Ok(pan) => match lane_table(Lane::Prob, l.prob, cycle, t0, t1) {
                Err(e) => Err(e),
                Ok(prob) => match lane_table(Lane::Dur, l.dur, cycle, t0, t1) {
                    Err(e) => Err(e),
                    Ok(dur) => match lane_table(Lane::Legato, l.legato, cycle, t0, t1) {
                        Err(e) => Err(e),
                        Ok(legato) => match lane_table(CutGroups, l.cut_group, cycle, t0, t1) {
                            Err(e) => Err(e),
                            Ok(cut_group) => match lane_table(CutVoices, l.cut_voices, cycle, t0, t1) {
                                Err(e) => Err(e),
                                Ok(cut_voices) => match lane_table(
                                    Lane::Cutoff,
                                    l.cutoff,
                                    cycle,
                                    t0,
                                    t1,
                                ) {
                                    Err(e) => Err(e),
                                    Ok(cutoff) => Ok(
                                        TablesView {
                                            gain,
                                            pan,
                                            prob: if l.prob is None {
                                                seq![Some(1real)]
                                            } else {
                                                prob
                                            },
                                            dur,
                                            legato,
                                            cut_group,
                                            cut_voices,
                                            cutoff,
                                        },
                                    ),
                                },
                            },
                        },
                    },
                },
            },
        },
    }
}

/// What the tables say of the hit numbered `i`.
pub open spec fn controlled_hit(hit: (real, Seq<char>), t: TablesView, i: int) -> ControlHitView {
    ControlHitView {
        at: hit.0,
        token: hit.1,
        gain: or_value(entry(t.gain, i), 1real),
        pan: or_value(entry(t.pan, i), 0real),
        prob: entry(t.prob, i),
        dur: entry(t.dur, i),
        legato: entry(t.legato, i),
        cut_group: entry(t.cut_group, i),
        cut_voices: entry(t.cut_voices, i),
        cutoff: entry(t.cutoff, i),
    }
}

/// Hits with what the lanes say of them.
pub open spec fn controlled(sound: PatView, l: LanesView, cycle: nat, t0: real, t1: real) -> Result<
    Seq<ControlHitView>,
    Seq<char>,
> {
    let hs = hits(sound, cycle, t0, t1);
    match tables(l, cycle, t0, t1) {
        Err(e) => Err(e),
        Ok(t) => Ok(Seq::new(hs.len(), |i: int| controlled_hit(hs[i], t, i))),
    }
}

// ---------------------------------------------------------------------------------------------
// Atoms
// ---------------------------------------------------------------------------------------------

impl LaneKind for Lane {
    type Value = Ratio;

    open spec fn says(self, atom: Seq<char>) -> Result<<Ratio as View>::V, Seq<char>> {
        lane_atom(self, atom)
    }

    fn read_atom(&self, atom: &str) -> (r: Result<Ratio, String>) {
        let (expects, before, after) = match *self {
            Lane::Gain => (
                "gain lane: expected a non-negative number, got ",
                "gain lane: invalid value ",
                "",
            ),
            Lane::Pan => (
                "pan lane: expected a number in [-1,1], got ",
                "pan lane: invalid value ",
                " (expected -1..=1)",
            ),
            Lane::Prob => (
                "prob lane: expected a number in [0,1], got ",
                "prob lane: invalid value ",
                " (expected 0..=1)",
            ),
            Lane::Dur => (
                "dur lane: expected a non-negative number (ms), got ",
                "dur lane: invalid value ",
                "",
            ),
            Lane::Legato => (
                "legato lane: expected a non-negative number, got ",
                "legato lane: invalid value ",
                "",
            ),
            Lane::Cutoff => (
                "cutoff lane: expected non-negative milliseconds, got ",
                "cutoff lane: invalid value ",
                "",
            ),
        };
        let chars = chars_of(atom);
        match read_number(chars.as_slice(), Precision::Single) {
            Reading::Malformed => Err(join2(expects, debug_of(atom).as_str())),
            Reading::NotFinite => {
                let number = show_number(chars.as_slice(), Precision::Single);
                Err(join3(before, number.as_str(), after))
            },
            Reading::Finite(x) => {
                let low = match *self {
                    Lane::Pan => Ratio::one().negated(),
                    _ => Ratio::zero(),
                };
                let bounded: bool = match *self {
                    Lane::Pan | Lane::Prob => true,
                    _ => false,
                };
                if low.at_most(&x) && (!bounded || x.at_most(&Ratio::one())) {
                    Ok(x)
                } else {
                    let number = show_number(chars.as_slice(), Precision::Single);
                    Err(join3(before, number.as_str(), after))
                }
            },
        }
    }
}

impl LaneKind for CutGroups {
    type Value = i32;

    open spec fn says(self, atom: Seq<char>) -> Result<<i32 as View>::V, Seq<char>> {
        cut_group_atom(atom)
    }

    fn read_atom(&self, atom: &str) -> (r: Result<i32, String>) {
        let chars = chars_of(atom);
        match read_i32(chars.as_slice()) {
            None => Err(
                join2("cut lane: expected integer group >= 0, got ", debug_of(atom).as_str()),
            ),
            Some(n) => if n < 0 {
                let m: u64 = (-(n as i64)) as u64;
                Err(join2("cut lane: invalid group -", decimal_of(m).as_str()))
            } else {
                Ok(n)
            },
        }
    }
}

impl LaneKind for CutVoices {
    type Value = u32;

    open spec fn says(self, atom: Seq<char>) -> Result<<u32 as View>::V, Seq<char>> {
        cut_voices_atom(atom)
    }

    fn read_atom(&self, atom: &str) -> (r: Result<u32, String>) {
        let chars = chars_of(atom);
        match read_u32(chars.as_slice()) {
            None => Err(
                join2("cut lane: expected integer voices >= 1, got ", debug_of(atom).as_str()),
            ),
            Some(n) => if n < 1 {
                Err(String::from_str("cut lane: voices must be >= 1"))
            } else {
                Ok(n)
            },
        }
    }
}

// ---------------------------------------------------------------------------------------------
// Tables
// ---------------------------------------------------------------------------------------------

pub open spec fn value_views<T: View>(s: Seq<Option<T>>) -> Seq<Option<T::V>> {
    Seq::new(s.len(), |i: int| value_view(s[i]))
}

pub open spec fn lane_view(p: Option<&Pat>) -> Option<PatView> {
    match p {
        Some(p) => Some(p@),
        None => None,
    }
}

/// The table of a lane.
fn flatten<K: LaneKind>(kind: K, p: Option<&Pat>, cycle: u64, t0: &Ratio, t1: &Ratio) -> (r: Result<
    Vec<Option<K::Value>>,
    String,
>)
    ensures
        match r {
            Ok(t) => lane_table(kind, lane_view(p), cycle as nat, t0@, t1@) == Ok::<
                Seq<Option<<K::Value as View>::V>>,
                Seq<char>,
            >(value_views(t@)) && t@.len() > 0,
            Err(e) => lane_table(kind, lane_view(p), cycle as nat, t0@, t1@) == Err::<
                Seq<Option<<K::Value as View>::V>>,
                Seq<char>,
            >(e@),
        },
{
    let pat = match p {
        Some(pat) => pat,
        None => {
            let t: Vec<Option<K::Value>> = vec![None];
            assert(value_views(t@) =~= seq![None]);
            return Ok(t);
        },
    };
    let all = eval_slots(pat, true, cycle, t0, t1);
    let ghost s = views(all@);
    let mut out: Vec<Option<K::Value>> = Vec::new();
    let mut i: usize = 0;
    assert(value_views(out@) =~= seq![]);
    while i < all.len()
        invariant
            i <= all@.len(),
            s == views(all@),
            lane_view(p) == Some(pat@),
            s == slots(pat@, true, cycle as nat, t0@, t1@),
            out@.len() == i,
            lane_values(kind, s.take(i as int)) == Ok::<
                Seq<Option<<K::Value as View>::V>>,
                Seq<char>,
            >(value_views(out@)),
        decreases all@.len() - i,
    {
        proof {
            assert(s.take(i + 1).drop_last() =~= s.take(i as int));
            assert(s.take(i + 1).last() == all@[i as int]@);
        }
        let x = match &all[i].token {
            None => None,
            Some(atom) => match kind.read_atom(atom.as_str()) {
                Ok(x) => Some(x),
                Err(e) => {
                    proof {
                        lemma_lane_error(kind, s, i as int, e@);
                    }
                    return Err(e);
                },
            },
        };
        assert(value_views(out@.push(x)) =~= value_views(out@).push(value_view(x)));
        out.push(x);
        i += 1;
    }
    assert(s.take(i as int) =~= s);
    if out.len() == 0 {
        out.push(None);
        assert(value_views(out@) =~= seq![None]);
    }
    Ok(out)
}

/// A complaint at one slot is the complaint of all.
proof fn lemma_lane_error<K: LaneKind>(kind: K, s: Seq<SlotView>, i: int, e: Seq<char>)
    requires
        0 <= i < s.len(),
        lane_values(kind, s.take(i + 1)) == Err::<
            Seq<Option<<K::Value as View>::V>>,
            Seq<char>,
        >(e),
    ensures
        lane_values(kind, s) == Err::<Seq<Option<<K::Value as View>::V>>, Seq<char>>(e),
    decreases s.len() - i,
{
    if i + 1 == s.len() {
        assert(s.take(i + 1) =~= s);
    } else {
        assert(s.take(i + 2).drop_last() =~= s.take(i + 1));
        lemma_lane_error(kind, s, i + 1, e);
    }
}

// ---------------------------------------------------------------------------------------------
// Hits
// ---------------------------------------------------------------------------------------------

fn pick(t: &Vec<Option<Ratio>>, i: usize) -> (r: Option<Ratio>)
    requires
        t@.len() > 0,
    ensures
        value_view(r) == entry(value_views(t@), i as int),
{
    let k: usize = i % t.len();
    assert(value_views(t@)[k as int] == value_view(t@[k as int]));
    match &t[k] {
        Some(x) => Some(x.duplicate()),
        None => None,
    }
}

fn pick_or(t: &Vec<Option<Ratio>>, i: usize, neutral: &Ratio) -> (r: Ratio)
    requires
        t@.len() > 0,
    ensures
        r@ == or_value(entry(value_views(t@), i as int), neutral@),
{
    match pick(t, i) {
        Some(x) => x,
        None => neutral.duplicate(),
    }
}

/// Hits with a gain each, before the gain of the track.
pub fn eval_with_gains(
    sound: &Pat,
    gain: Option<&Pat>,
    cycle: u64,
    t0: &Ratio,
    t1: &Ratio,
) -> (r: Result<Vec<(Ratio, String, Ratio)>, String>)
    ensures
        match r {
            Ok(v) => gained(sound@, lane_view(gain), cycle as nat, t0@, t1@) == Ok::<
                Seq<(real, Seq<char>, real)>,
                Seq<char>,
            >(views(v@)),
            Err(e) => gained(sound@, lane_view(gain), cycle as nat, t0@, t1@) == Err::<
                Seq<(real, Seq<char>, real)>,
                Seq<char>,
            >(e@),
        },
{
    let gains = match flatten(Lane::Gain, gain, cycle, t0, t1) {
        Ok(t) => t,
        Err(e) => {
            return Err(e);
        },
    };
    let one = Ratio::one();
    let hs = eval(sound, cycle, t0, t1);
    let ghost h = views(hs@);
    let ghost goal = gained(sound@, lane_view(gain), cycle as nat, t0@, t1@)->Ok_0;
    let mut out: Vec<(Ratio, String, Ratio)> = Vec::new();
    let mut i: usize = 0;
    assert(views(out@) =~= goal.take(0));
    while i < hs.len()
        invariant
            i <= hs@.len(),
            h == views(hs@),
            gains@.len() > 0,
            one@ == 1real,
            goal == Seq::new(
                h.len(),
                |i: int| (h[i].0, h[i].1, or_value(entry(value_views(gains@), i), 1real)),
            ),
            views(out@) == goal.take(i as int),
        decreases hs@.len() - i,
    {
        let hit = (
            hs[i].0.duplicate(),
            String::from_str(hs[i].1.as_str()),
            pick_or(&gains, i, &one),
        );
        proof {
            crate::text::lemma_views_push(out@, hit);
            assert(h[i as int] == hs@[i as int]@);
            assert(goal.take(i + 1) =~= goal.take(i as int).push(hit@));
        }
        out.push(hit);
        i += 1;
    }
    assert(goal.take(i as int) =~= goal);
    Ok(out)
}

/// Hits with a gain and a pan each.
pub fn eval_with_gain_pan(
    sound: &Pat,
    gain: Option<&Pat>,
    pan: Option<&Pat>,
    cycle: u64,
    t0: &Ratio,
    t1: &Ratio,
) -> (r: Result<Vec<(Ratio, String, Ratio, Ratio)>, String>)
    ensures
        match r {
            Ok(v) => panned(
                sound@,
                lane_view(gain),
                lane_view(pan),
                cycle as nat,
                t0@,
                t1@,
            ) == Ok::<Seq<(real, Seq<char>, real, real)>, Seq<char>>(views(v@)),
            Err(e) => panned(
                sound@,
                lane_view(gain),
                lane_view(pan),
                cycle as nat,
                t0@,
                t1@,
            ) == Err::<Seq<(real, Seq<char>, real, real)>, Seq<char>>(e@),
        },
{
    let gains = match flatten(Lane::Gain, gain, cycle, t0, t1) {
        Ok(t) => t,
        Err(e) => {
            return Err(e);
        },
    };
    let pans = match flatten(Lane::Pan, pan, cycle, t0, t1) {
        Ok(t) => t,
        Err(e) => {
            return Err(e);
        },
    };
    let one = Ratio::one();
    let zero = Ratio::zero();
    let hs = eval(sound, cycle, t0, t1);
    let ghost h = views(hs@);
    let ghost goal = panned(
        sound@,
        lane_view(gain),
        lane_view(pan),
        cycle as nat,
        t0@,
        t1@,
    )->Ok_0;
    let mut out: Vec<(Ratio, String, Ratio, Ratio)> = Vec::new();
    let mut i: usize = 0;
    assert(views(out@) =~= goal.take(0));
    while i < hs.len()
        invariant
            i <= hs@.len(),
            h == views(hs@),
            gains@.len() > 0,
            pans@.len() > 0,
            one@ == 1real,
            zero@ == 0real,
            goal == Seq::new(
                h.len(),
                |i: int|
                    (
                        h[i].0,
                        h[i].1,
                        or_value(entry(value_views(gains@), i), 1real),
                        or_value(entry(value_views(pans@), i), 0real),
                    ),
            ),
            views(out@) == goal.take(i as int),
        decreases hs@.len() - i,
    {
        let hit = (
            hs[i].0.duplicate(),
            String::from_str(hs[i].1.as_str()),
            pick_or(&gains, i, &one),
            pick_or(&pans, i, &zero),
        );
        proof {
            crate::text::lemma_views_push(out@, hit);
            assert(h[i as int] == hs@[i as int]@);
            assert(goal.take(i + 1) =~= goal.take(i as int).push(hit@));
        }
        out.push(hit);
        i += 1;
    }
    assert(goal.take(i as int) =~= goal);
    Ok(out)
}

/// Hits with what all the lanes say of them.
pub fn eval_with_control_lanes(
    sound: &Pat,
    gain: Option<&Pat>,
    pan: Option<&Pat>,
    prob: Option<&Pat>,
    dur: Option<&Pat>,
    legato: Option<&Pat>,
    cut_group: Option<&Pat>,
    cut_voices: Option<&Pat>,
    cutoff: Option<&Pat>,
    cycle: u64,
    t0: &Ratio,
    t1: &Ratio,
) -> (r: Result<Vec<ControlHit>, String>)
    ensures
        ({
            let lanes = LanesView {
                gain: lane_view(gain),
                pan: lane_view(pan),
                prob: lane_view(prob),
                dur: lane_view(dur),
                legato: lane_view(legato),
                cut_group: lane_view(cut_group),
                cut_voices: lane_view(cut_voices),
                cutoff: lane_view(cutoff),
            };
            match r {
                Ok(v) => controlled(sound@, lanes, cycle as nat, t0@, t1@) == Ok::<
                    Seq<ControlHitView>,
                    Seq<char>,
                >(views(v@)),
                Err(e) => controlled(sound@, lanes, cycle as nat, t0@, t1@) == Err::<
                    Seq<ControlHitView>,
                    Seq<char>,
                >(e@),
            }
        }),
{
    let ghost lanes = LanesView {
        gain: lane_view(gain),
        pan: lane_view(pan),
        prob: lane_view(prob),
        dur: lane_view(dur),
        legato: lane_view(legato),
        cut_group: lane_view(cut_group),
        cut_voices: lane_view(cut_voices),
        cutoff: lane_view(cutoff),
    };
    let gains = match flatten(Lane::Gain, gain, cycle, t0, t1) {
        Ok(t) => t,
        Err(e) => {
            return Err(e);
        },
    };
    let pans = match flatten(Lane::Pan, pan, cycle, t0, t1) {
        Ok(t) => t,
        Err(e) => {
            return Err(e);
        },
    };
    let mut probs = match flatten(Lane::Prob, prob, cycle, t0, t1) {
        Ok(t) => t,
        Err(e) => {
            return Err(e);
        },
    };
    let durs = match flatten(Lane::Dur, dur, cycle, t0, t1) {
        Ok(t) => t,
        Err(e) => {
            return Err(e);
        },
    };
    let legatos = match flatten(Lane::Legato, legato, cycle, t0, t1) {
        Ok(t) => t,
        Err(e) => {
            return Err(e);
        },
    };
    let groups = match flatten(CutGroups, cut_group, cycle, t0, t1) {
        Ok(t) => t,
        Err(e) => {
            return Err(e);
        },
    };
    let voices = match flatten(CutVoices, cut_voices, cycle, t0, t1) {
        Ok(t) => t,
        Err(e) => {
            return Err(e);
        },
    };
    let cutoffs = match flatten(Lane::Cutoff, cutoff, cycle, t0, t1) {
        Ok(t) => t,
        Err(e) => {
            return Err(e);
        },
    };
    if prob.is_none() {
        probs = vec![Some(Ratio::one())];
        assert(value_views(probs@) =~= seq![Some(1real)]);
    }
    assert(value_views(groups@) =~= groups@);
    assert(value_views(voices@) =~= voices@);
    let one = Ratio::one();
    let zero = Ratio::zero();
    let hs = eval(sound, cycle, t0, t1);
    let ghost h = views(hs@);
    let ghost t = TablesView {
        gain: value_views(gains@),
        pan: value_views(pans@),
        prob: value_views(probs@),
        dur: value_views(durs@),
        legato: value_views(legatos@),
        cut_group: groups@,
        cut_voices: voices@,
        cutoff: value_views(cutoffs@),
    };
    let ghost goal = Seq::new(h.len(), |i: int| controlled_hit(h[i], t, i));
    assert(tables(lanes, cycle as nat, t0@, t1@) == Ok::<TablesView, Seq<char>>(t));
    let mut out: Vec<ControlHit> = Vec::new();
    let mut i: usize = 0;
    assert(views(out@) =~= goal.take(0));
    while i < hs.len()
        invariant
            i <= hs@.len(),
            h == views(hs@),
            gains@.len() > 0,
            pans@.len() > 0,
            probs@.len() > 0,
            durs@.len() > 0,
            legatos@.len() > 0,
            groups@.len() > 0,
            voices@.len() > 0,
            cutoffs@.len() > 0,
            one@ == 1real,
            zero@ == 0real,
            t == (TablesView {
                gain: value_views(gains@),
                pan: value_views(pans@),
                prob: value_views(probs@),
                dur: value_views(durs@),
                legato: value_views(legatos@),
                cut_group: groups@,
                cut_voices: voices@,
                cutoff: value_views(cutoffs@),
            }),
            goal == Seq::new(h.len(), |i: int| controlled_hit(h[i], t, i)),
            views(out@) == goal.take(i as int),
        decreases hs@.len() - i,
    {
        let hit = ControlHit {
            at: hs[i].0.duplicate(),
            token: String::from_str(hs[i].1.as_str()),
            gain: pick_or(&gains, i, &one),
            pan: pick_or(&pans, i, &zero),
            prob: pick(&probs, i),
            dur: pick(&durs, i),
            legato: pick(&legatos, i),
            cut_group: groups[i % groups.len()],
            cut_voices: voices[i % voices.len()],
            cutoff: pick(&cutoffs, i),
        };
        proof {
            crate::text::lemma_views_push(out@, hit);
            assert(h[i as int] == hs@[i as int]@);
            assert(hit@ == controlled_hit(h[i as int], t, i as int));
            assert(goal.take(i + 1) =~= goal.take(i as int).push(hit@));
        }
        out.push(hit);
        i += 1;
    }
    assert(goal.take(i as int) =~= goal);
    Ok(out)
}

} // verus!
