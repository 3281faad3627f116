//! What lanes say of the hits that they run along with.

use vstd::prelude::*;

use crate::number::{reading, signed, unsigned, Precision, ReadingView};
use crate::pat::eval::{hits, slots, SlotView};
use crate::pat::lanes::{
    controlled, controlled_hit, entry, gained, lane_table, lane_values, panned, tables,
    ControlHitView, CutGroups, CutVoices, Lane, LaneKind, LanesView,
};
use crate::pat::PatView;

verus! {

proof fn lemma_lane_values<K: LaneKind>(kind: K, s: Seq<SlotView>)
    ensures
        lane_values(kind, s) is Ok <==> (forall|i: int|
            0 <= i < s.len() && (#[trigger] s[i]).token is Some ==> kind.says(s[i].token->0) is Ok),
        lane_values(kind, s) is Ok ==> {
            let t = lane_values(kind, s)->Ok_0;
            &&& t.len() == s.len()
            &&& forall|i: int|
                0 <= i < s.len() ==> #[trigger] t[i] == match s[i].token {
                    None => None,
                    Some(a) => Some(kind.says(a)->Ok_0),
                }
        },
    decreases s.len(),
{
    if s.len() > 0 {
        let d = s.drop_last();
        lemma_lane_values(kind, d);
        assert(forall|i: int| 0 <= i < d.len() ==> #[trigger] d[i] == s[i]);
        if lane_values(kind, s) is Ok {
            let t = lane_values(kind, s)->Ok_0;
            let u = lane_values(kind, d)->Ok_0;
            assert forall|i: int| 0 <= i < s.len() implies #[trigger] t[i] == match s[i].token {
                None => None,
                Some(a) => Some(kind.says(a)->Ok_0),
            } by {
                if i < d.len() {
                    assert(t[i] == u[i]);
                    assert(d[i] == s[i]);
                }
            }
            assert forall|i: int|
                0 <= i < s.len() && (#[trigger] s[i]).token is Some implies kind.says(
                s[i].token->0,
            ) is Ok by {
                if i < d.len() {
                    assert(d[i] == s[i]);
                }
            }
        } else {
            if lane_values(kind, d) is Err {
                let i = choose|i: int|
                    0 <= i < d.len() && (#[trigger] d[i]).token is Some && kind.says(
                        d[i].token->0,
                    ) is Err;
                assert(s[i] == d[i]);
            } else {
                assert(s[s.len() - 1].token is Some);
            }
        }
    }
}

/// What the lane says of the hit numbered `i`: its slots, rests among them, take turns; a rest, or a
/// lane that is not there, says nothing.
pub open spec fn turn(p: Option<PatView>, i: int, cycle: nat, t0: real, t1: real) -> Option<
    Seq<char>,
> {
    match p {
        None => None,
        Some(p) => {
            let s = slots(p, true, cycle, t0, t1);
            if s.len() == 0 {
                None
            } else {
                s[i % (s.len() as int)].token
            }
        },
    }
}

proof fn lemma_lane_table<K: LaneKind>(
    kind: K,
    p: Option<PatView>,
    i: int,
    cycle: nat,
    t0: real,
    t1: real,
)
    requires
        lane_table(kind, p, cycle, t0, t1) is Ok,
        i >= 0,
    ensures
        lane_table(kind, p, cycle, t0, t1)->Ok_0.len() > 0,
        entry(lane_table(kind, p, cycle, t0, t1)->Ok_0, i) == match turn(p, i, cycle, t0, t1) {
            None => None,
            Some(a) => Some(kind.says(a)->Ok_0),
        },
        turn(p, i, cycle, t0, t1) is Some ==> kind.says(turn(p, i, cycle, t0, t1)->0) is Ok,
{
    if let Some(q) = p {
        let s = slots(q, true, cycle, t0, t1);
        lemma_lane_values(kind, s);
        if s.len() > 0 {
            vstd::arithmetic::div_mod::lemma_mod_bound(i, s.len() as int);
            let k = i % (s.len() as int);
            assert(lane_values(kind, s)->Ok_0[k] == match s[k].token {
                None => None,
                Some(a) => Some(kind.says(a)->Ok_0),
            });
        } else {
            vstd::arithmetic::div_mod::lemma_mod_bound(i, 1);
        }
    }
}

/// The token is a number at single precision, from `lo` on, and up to `hi` if there is such a bound.
pub open spec fn says_number(a: Seq<char>, lo: real, hi: Option<real>, x: real) -> bool {
    &&& reading(a, Precision::Single) == ReadingView::Finite(x)
    &&& lo <= x
    &&& hi is Some ==> x <= hi->0
}

/// The value is what the token says, or nothing where there is no token.
pub open spec fn said(a: Option<Seq<char>>, lo: real, hi: Option<real>, x: Option<real>) -> bool {
    match a {
        None => x is None,
        Some(a) => x is Some && says_number(a, lo, hi, x->0),
    }
}

/// Hit by hit, a lane says what its slot says whose turn it is. A gain is a factor from 0 on, 1 where
/// the lane says nothing; a pan lies between -1 and 1, 0 where the lane says nothing; a probability
/// lies between 0 and 1, and without the lane it is 1; durations, legato and cutoff are from 0 on; a
/// group is an integer from 0 on, and it may hold at least one voice.
pub proof fn lanes_take_turns(
    sound: PatView,
    l: LanesView,
    cycle: nat,
    t0: real,
    t1: real,
    i: int,
)
    requires
        controlled(sound, l, cycle, t0, t1) is Ok,
        0 <= i < hits(sound, cycle, t0, t1).len(),
    ensures
        ({
            let c = controlled(sound, l, cycle, t0, t1)->Ok_0;
            let h = c[i];
            let gain = turn(l.gain, i, cycle, t0, t1);
            let pan = turn(l.pan, i, cycle, t0, t1);
            let group = turn(l.cut_group, i, cycle, t0, t1);
            let voices = turn(l.cut_voices, i, cycle, t0, t1);
            &&& c.len() == hits(sound, cycle, t0, t1).len()
            &&& (h.at, h.token) == hits(sound, cycle, t0, t1)[i]
            &&& match gain {
                None => h.gain == 1real,
                Some(a) => says_number(a, 0real, None, h.gain),
            }
            &&& match pan {
                None => h.pan == 0real,
                Some(a) => says_number(a, -1real, Some(1real), h.pan),
            }
            &&& l.prob is None ==> h.prob == Some(1real)
            &&& l.prob is Some ==> said(
                turn(l.prob, i, cycle, t0, t1),
                0real,
                Some(1real),
                h.prob,
            )
            &&& said(turn(l.dur, i, cycle, t0, t1), 0real, None, h.dur)
            &&& said(turn(l.legato, i, cycle, t0, t1), 0real, None, h.legato)
            &&& said(turn(l.cutoff, i, cycle, t0, t1), 0real, None, h.cutoff)
            &&& match group {
                None => h.cut_group is None,
                Some(a) => h.cut_group is Some && signed(a) == Some(h.cut_group->0 as int)
                    && h.cut_group->0 >= 0,
            }
            &&& match voices {
                None => h.cut_voices is None,
                Some(a) => h.cut_voices is Some && unsigned(a, 0xffff_ffff) == Some(
                    h.cut_voices->0 as nat,
                ) && h.cut_voices->0 >= 1,
            }
        }),
{
    lemma_lane_table(Lane::Gain, l.gain, i, cycle, t0, t1);
    lemma_lane_table(Lane::Pan, l.pan, i, cycle, t0, t1);
    lemma_lane_table(Lane::Prob, l.prob, i, cycle, t0, t1);
    lemma_lane_table(Lane::Dur, l.dur, i, cycle, t0, t1);
    lemma_lane_table(Lane::Legato, l.legato, i, cycle, t0, t1);
    lemma_lane_table(CutGroups, l.cut_group, i, cycle, t0, t1);
    lemma_lane_table(CutVoices, l.cut_voices, i, cycle, t0, t1);
    lemma_lane_table(Lane::Cutoff, l.cutoff, i, cycle, t0, t1);
    let t = tables(l, cycle, t0, t1)->Ok_0;
    let hs = hits(sound, cycle, t0, t1);
    assert(controlled(sound, l, cycle, t0, t1)->Ok_0[i] == controlled_hit(hs[i], t, i));
    lemma_number_atom(Lane::Gain, turn(l.gain, i, cycle, t0, t1));
    lemma_number_atom(Lane::Pan, turn(l.pan, i, cycle, t0, t1));
    lemma_number_atom(Lane::Prob, turn(l.prob, i, cycle, t0, t1));
    lemma_number_atom(Lane::Dur, turn(l.dur, i, cycle, t0, t1));
    lemma_number_atom(Lane::Legato, turn(l.legato, i, cycle, t0, t1));
    lemma_number_atom(Lane::Cutoff, turn(l.cutoff, i, cycle, t0, t1));
    lemma_cut_atoms(turn(l.cut_group, i, cycle, t0, t1), turn(l.cut_voices, i, cycle, t0, t1));
    vstd::arithmetic::div_mod::lemma_mod_bound(i, 1);
}

proof fn lemma_number_atom(lane: Lane, a: Option<Seq<char>>)
    requires
        a is Some ==> lane.says(a->0) is Ok,
    ensures
        a is Some ==> {
            let x = lane.says(a->0)->Ok_0;
            says_number(
                a->0,
                if lane is Pan {
                    -1real
                } else {
                    0real
                },
                if lane is Pan || lane is Prob {
                    Some(1real)
                } else {
                    None
                },
                x,
            )
        },
{
}

proof fn lemma_cut_atoms(g: Option<Seq<char>>, v: Option<Seq<char>>)
    requires
        g is Some ==> CutGroups.says(g->0) is Ok,
        v is Some ==> CutVoices.says(v->0) is Ok,
    ensures
        g is Some ==> signed(g->0) == Some(CutGroups.says(g->0)->Ok_0 as int) && CutGroups.says(
            g->0,
        )->Ok_0 >= 0,
        v is Some ==> unsigned(v->0, 0xffff_ffff) == Some(CutVoices.says(v->0)->Ok_0 as nat)
            && CutVoices.says(v->0)->Ok_0 >= 1,
{
    if let Some(a) = g {
        lemma_signed_fits(a);
    }
}

proof fn lemma_signed_fits(a: Seq<char>)
    ensures
        signed(a) is Some ==> i32::MIN <= signed(a)->0 <= i32::MAX,
{
}

/// The tokens of a lane are all numbers in its range.
pub open spec fn lane_speaks(
    p: Option<PatView>,
    lo: real,
    hi: Option<real>,
    cycle: nat,
    t0: real,
    t1: real,
) -> bool {
    p is Some ==> forall|i: int|
        0 <= i < slots(p->0, true, cycle, t0, t1).len() && (#[trigger] slots(
            p->0,
            true,
            cycle,
            t0,
            t1,
        )[i]).token is Some ==> exists|x: real| #[trigger]
            says_number(slots(p->0, true, cycle, t0, t1)[i].token->0, lo, hi, x)
}

proof fn lemma_lane_speaks(lane: Lane, p: Option<PatView>, cycle: nat, t0: real, t1: real)
    ensures
        lane_table(lane, p, cycle, t0, t1) is Ok <==> lane_speaks(
            p,
            if lane is Pan {
                -1real
            } else {
                0real
            },
            if lane is Pan || lane is Prob {
                Some(1real)
            } else {
                None
            },
            cycle,
            t0,
            t1,
        ),
{
    let lo = if lane is Pan {
        -1real
    } else {
        0real
    };
    let hi = if lane is Pan || lane is Prob {
        Some(1real)
    } else {
        None
    };
    if let Some(q) = p {
        let s = slots(q, true, cycle, t0, t1);
        lemma_lane_values(lane, s);
        assert forall|i: int| 0 <= i < s.len() && (#[trigger] s[i]).token is Some implies (
        lane.says(s[i].token->0) is Ok <==> exists|x: real| #[trigger]
            says_number(s[i].token->0, lo, hi, x)) by {
            let a = s[i].token->0;
            if lane.says(a) is Ok {
                lemma_number_atom(lane, Some(a));
                assert(says_number(a, lo, hi, lane.says(a)->Ok_0));
            }
        }
        if lane_speaks(p, lo, hi, cycle, t0, t1) {
            assert forall|i: int|
                0 <= i < s.len() && (#[trigger] s[i]).token is Some implies lane.says(
                s[i].token->0,
            ) is Ok by {
                assert(exists|x: real| #[trigger] says_number(s[i].token->0, lo, hi, x));
            }
        }
    }
}

/// Hits with gains, and with gains and pans, are those that all lanes would give, without what the
/// others say.
pub proof fn gains_and_pans_are_as_with_all_lanes(
    sound: PatView,
    gain: Option<PatView>,
    pan: Option<PatView>,
    cycle: nat,
    t0: real,
    t1: real,
)
    ensures
        ({
            let l = LanesView {
                gain,
                pan,
                prob: None,
                dur: None,
                legato: None,
                cut_group: None,
                cut_voices: None,
                cutoff: None,
            };
            let alone = LanesView { pan: None, ..l };
            &&& match controlled(sound, alone, cycle, t0, t1) {
                Err(e) => gained(sound, gain, cycle, t0, t1) == Err::<
                    Seq<(real, Seq<char>, real)>,
                    _,
                >(e),
                Ok(c) => gained(sound, gain, cycle, t0, t1) == Ok::<_, Seq<char>>(
                    c.map_values(|h: ControlHitView| (h.at, h.token, h.gain)),
                ),
            }
            &&& match controlled(sound, l, cycle, t0, t1) {
                Err(e) => panned(sound, gain, pan, cycle, t0, t1) == Err::<
                    Seq<(real, Seq<char>, real, real)>,
                    _,
                >(e),
                Ok(c) => panned(sound, gain, pan, cycle, t0, t1) == Ok::<_, Seq<char>>(
                    c.map_values(|h: ControlHitView| (h.at, h.token, h.gain, h.pan)),
                ),
            }
        }),
{
    let l = LanesView {
        gain,
        pan,
        prob: None,
        dur: None,
        legato: None,
        cut_group: None,
        cut_voices: None,
        cutoff: None,
    };
    let alone = LanesView { pan: None, ..l };
    if let Ok(c) = controlled(sound, alone, cycle, t0, t1) {
        assert(gained(sound, gain, cycle, t0, t1)->Ok_0 =~= c.map_values(
            |h: ControlHitView| (h.at, h.token, h.gain),
        ));
    }
    if let Ok(c) = controlled(sound, l, cycle, t0, t1) {
        assert(panned(sound, gain, pan, cycle, t0, t1)->Ok_0 =~= c.map_values(
            |h: ControlHitView| (h.at, h.token, h.gain, h.pan),
        ));
    }
}

/// Lanes are accepted exactly if every one of their tokens is a number in the range of its lane.
pub proof fn lanes_are_numbers_in_range(
    sound: PatView,
    l: LanesView,
    cycle: nat,
    t0: real,
    t1: real,
)
    requires
        l.cut_group is None,
        l.cut_voices is None,
    ensures
        controlled(sound, l, cycle, t0, t1) is Ok <==> {
            &&& lane_speaks(l.gain, 0real, None, cycle, t0, t1)
            &&& lane_speaks(l.pan, -1real, Some(1real), cycle, t0, t1)
            &&& lane_speaks(l.prob, 0real, Some(1real), cycle, t0, t1)
            &&& lane_speaks(l.dur, 0real, None, cycle, t0, t1)
            &&& lane_speaks(l.legato, 0real, None, cycle, t0, t1)
            &&& lane_speaks(l.cutoff, 0real, None, cycle, t0, t1)
        },
{
    lemma_lane_speaks(Lane::Gain, l.gain, cycle, t0, t1);
    lemma_lane_speaks(Lane::Pan, l.pan, cycle, t0, t1);
    lemma_lane_speaks(Lane::Prob, l.prob, cycle, t0, t1);
    lemma_lane_speaks(Lane::Dur, l.dur, cycle, t0, t1);
    lemma_lane_speaks(Lane::Legato, l.legato, cycle, t0, t1);
    lemma_lane_speaks(Lane::Cutoff, l.cutoff, cycle, t0, t1);
}

} // verus!
