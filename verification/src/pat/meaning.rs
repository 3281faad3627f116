//! What patterns play, in terms of what their parts play.

use vstd::prelude::*;

use crate::order::{lemma_sorted_len, sorted, sorting_keeps_and_orders};
use crate::pat::eval::{
    euclid_gate, hits, hurried, inner_cycle, near, onset_group, onset_of, onsets, palindrome_len,
    palindrome_step, palindrome_upto, point, pulses, relative, slots, sounding, steps, stretched,
    thinned, times, together, SlotView,
};
use crate::pat::laws::{
    increasing, lemma_increasing_unique, lemma_onset_members, lemma_onsets_apart, separated,
};
use crate::pat::PatView;
use crate::ratio::{lemma_div, Ratio};

verus! {

// ---------------------------------------------------------------------------------------------
// Sequences and stacks
// ---------------------------------------------------------------------------------------------

/// The slots of step `j` of `n`.
spec fn step_slots(
    cs: Seq<PatView>,
    j: int,
    rests: bool,
    cycle: nat,
    t0: real,
    t1: real,
) -> Seq<SlotView> {
    let n = cs.len() as real;
    slots(
        cs[j],
        rests,
        cycle,
        t0 + (t1 - t0) * (j as real / n),
        t0 + (t1 - t0) * ((j + 1) as real / n),
    )
}

proof fn lemma_steps(cs: Seq<PatView>, k: nat, rests: bool, cycle: nat, t0: real, t1: real)
    requires
        k <= cs.len(),
    ensures
        steps(cs, k, rests, cycle, t0, t1) == Seq::new(
            k,
            |j: int| step_slots(cs, j, rests, cycle, t0, t1),
        ).flatten(),
    decreases k,
{
    let all = Seq::new(k, |j: int| step_slots(cs, j, rests, cycle, t0, t1));
    if k > 0 {
        let j = (k - 1) as nat;
        lemma_steps(cs, j, rests, cycle, t0, t1);
        let before = Seq::new(j, |j: int| step_slots(cs, j, rests, cycle, t0, t1));
        let last = step_slots(cs, j as int, rests, cycle, t0, t1);
        assert(all =~= before.push(last));
        before.lemma_flatten_push(last);
    }
}

/// A sequence of `n` patterns shares its time out evenly: the pattern `j` is played from `j / n` to
/// `(j + 1) / n` of the way.
pub proof fn sequences_share_out_their_time(
    cs: Seq<PatView>,
    rests: bool,
    cycle: nat,
    t0: real,
    t1: real,
)
    ensures
        slots(PatView::Sequence(cs), rests, cycle, t0, t1) == Seq::new(
            cs.len(),
            |j: int|
                slots(
                    cs[j],
                    rests,
                    cycle,
                    t0 + (t1 - t0) * (j as real / cs.len() as real),
                    t0 + (t1 - t0) * ((j + 1) as real / cs.len() as real),
                ),
        ).flatten(),
{
    lemma_steps(cs, cs.len(), rests, cycle, t0, t1);
    assert(Seq::new(cs.len(), |j: int| step_slots(cs, j, rests, cycle, t0, t1)) =~= Seq::new(
        cs.len(),
        |j: int|
            slots(
                cs[j],
                rests,
                cycle,
                t0 + (t1 - t0) * (j as real / cs.len() as real),
                t0 + (t1 - t0) * ((j + 1) as real / cs.len() as real),
            ),
    ));
}

proof fn lemma_together(cs: Seq<PatView>, k: nat, rests: bool, cycle: nat, t0: real, t1: real)
    requires
        k <= cs.len(),
    ensures
        together(cs, k, rests, cycle, t0, t1) == Seq::new(
            k,
            |j: int| slots(cs[j], rests, cycle, t0, t1),
        ).flatten(),
    decreases k,
{
    let all = Seq::new(k, |j: int| slots(cs[j], rests, cycle, t0, t1));
    if k > 0 {
        let j = (k - 1) as nat;
        lemma_together(cs, j, rests, cycle, t0, t1);
        let before = Seq::new(j, |j: int| slots(cs[j], rests, cycle, t0, t1));
        let last = slots(cs[j as int], rests, cycle, t0, t1);
        assert(all =~= before.push(last));
        before.lemma_flatten_push(last);
    }
}

/// The patterns of a stack, and the layers of a pattern, are each played over the whole time.
pub proof fn stacks_play_all_at_once(
    cs: Seq<PatView>,
    rests: bool,
    cycle: nat,
    t0: real,
    t1: real,
)
    ensures
        ({
            let all = Seq::new(cs.len(), |j: int| slots(cs[j], rests, cycle, t0, t1)).flatten();
            &&& slots(PatView::Stack(cs), rests, cycle, t0, t1) == all
            &&& slots(PatView::Layer(cs), rests, cycle, t0, t1) == all
        }),
{
    lemma_together(cs, cs.len(), rests, cycle, t0, t1);
}

/// A token starts where its time starts. A rest takes its time and plays nothing; in a lane it stands
/// for itself.
pub proof fn tokens_start_their_time(token: Seq<char>, cycle: nat, t0: real, t1: real)
    ensures
        hits(PatView::Atom(token), cycle, t0, t1) == seq![(t0, token)],
        hits(PatView::Rest, cycle, t0, t1) == Seq::<(real, Seq<char>)>::empty(),
        slots(PatView::Atom(token), true, cycle, t0, t1) == seq![
            SlotView { at: t0, token: Some(token) },
        ],
        slots(PatView::Rest, true, cycle, t0, t1) == seq![SlotView { at: t0, token: None }],
{
    reveal_with_fuel(sounding, 2);
    let s = seq![SlotView { at: t0, token: Some(token) }];
    assert(s.drop_last() =~= seq![]);
    assert(sounding(s) =~= seq![(t0, token)]);
}

proof fn lemma_sounding(s: Seq<SlotView>)
    ensures
        sounding(s) == s.filter_map(
            |x: SlotView|
                match x.token {
                    Some(token) => Some((x.at, token)),
                    None => None,
                },
        ),
    decreases s.len(),
{
    if s.len() > 0 {
        lemma_sounding(s.drop_last());
    }
}

/// The hits of a pattern are its slots without the rests, in their order.
pub proof fn hits_are_slots_with_tokens(p: PatView, cycle: nat, t0: real, t1: real)
    ensures
        hits(p, cycle, t0, t1) == slots(p, false, cycle, t0, t1).filter_map(
            |x: SlotView|
                match x.token {
                    Some(token) => Some((x.at, token)),
                    None => None,
                },
        ),
{
    lemma_sounding(slots(p, false, cycle, t0, t1));
}

// ---------------------------------------------------------------------------------------------
// Transforms
// ---------------------------------------------------------------------------------------------

/// `on` holds the times at which the slots start, each once and in order; they are at least a
/// billionth apart.
pub open spec fn starts_at(s: Seq<SlotView>, on: Seq<real>) -> bool {
    &&& forall|i: int, j: int|
        0 <= i < j < on.len() ==> (#[trigger] on[i]) + 1real / 1000000000real <= (#[trigger] on[j])
    &&& forall|i: int| 0 <= i < s.len() ==> on.contains((#[trigger] s[i]).at)
    &&& forall|k: int|
        0 <= k < on.len() ==> exists|i: int|
            0 <= i < s.len() && (#[trigger] s[i]).at == #[trigger] on[k]
}

proof fn lemma_starts_at(s: Seq<SlotView>, on: Seq<real>)
    requires
        starts_at(s, on),
    ensures
        separated(s),
        onsets(s) == on,
        forall|k: int| 0 <= k < on.len() ==> onset_of(on, #[trigger] on[k]) == k,
{
    assert forall|i: int, j: int| 0 <= i < s.len() && 0 <= j < s.len() implies (
    #[trigger] s[i]).at == (#[trigger] s[j]).at || !near(s[i].at, s[j].at) by {
        let a = choose|a: int| 0 <= a < on.len() && on[a] == s[i].at;
        let b = choose|b: int| 0 <= b < on.len() && on[b] == s[j].at;
        assert(on.contains(s[i].at) && on.contains(s[j].at));
        if a < b {
            assert(on[a] + 1real / 1000000000real <= on[b]);
        } else if b < a {
            assert(on[b] + 1real / 1000000000real <= on[a]);
        }
    }
    lemma_onsets_apart(s);
    lemma_onset_members(s);
    let un = onsets(s);
    assert(increasing(on));
    assert forall|k: int| 0 <= k < un.len() implies on.contains(#[trigger] un[k]) by {
        let i = choose|i: int| 0 <= i < s.len() && s[i].at == un[k];
        assert(on.contains(s[i].at));
    }
    assert forall|k: int| 0 <= k < on.len() implies un.contains(#[trigger] on[k]) by {
        let i = choose|i: int| 0 <= i < s.len() && (#[trigger] s[i]).at == on[k];
        assert(un[onset_of(un, s[i].at)] == on[k]);
    }
    lemma_increasing_unique(un, on);
}

/// `rev` turns the times round: what starts at the first time starts at the last, and so on. Every
/// token keeps its place in the pattern.
pub proof fn rev_turns_the_times_round(
    q: PatView,
    rests: bool,
    cycle: nat,
    t0: real,
    t1: real,
    on: Seq<real>,
)
    requires
        starts_at(slots(q, rests, cycle, t0, t1), on),
    ensures
        ({
            let s = slots(q, rests, cycle, t0, t1);
            let r = slots(PatView::Rev(Box::new(q)), rests, cycle, t0, t1);
            &&& r.len() == s.len()
            &&& forall|i: int, k: int|
                #![trigger r[i], on[k]]
                0 <= i < s.len() && 0 <= k < on.len() && s[i].at == on[k] ==> r[i].at == on[on.len()
                    - 1 - k] && r[i].token == s[i].token
        }),
{
    lemma_starts_at(slots(q, rests, cycle, t0, t1), on);
}

/// `rot n` moves everything on by `n` of the times, round the cycle: by one, what starts at a time
/// starts at the next one, and what starts at the last one starts at the first.
pub proof fn rot_moves_along_the_times(
    q: PatView,
    n: i32,
    rests: bool,
    cycle: nat,
    t0: real,
    t1: real,
    on: Seq<real>,
)
    requires
        starts_at(slots(q, rests, cycle, t0, t1), on),
    ensures
        ({
            let s = slots(q, rests, cycle, t0, t1);
            let r = slots(PatView::Rot(n, Box::new(q)), rests, cycle, t0, t1);
            &&& r.len() == s.len()
            &&& forall|i: int, k: int|
                #![trigger r[i], on[k]]
                0 <= i < s.len() && 0 <= k < on.len() && s[i].at == on[k] ==> r[i].token
                    == s[i].token && r[i].at == on[(k + n) % (on.len() as int)]
        }),
{
    lemma_starts_at(slots(q, rests, cycle, t0, t1), on);
}

proof fn lemma_thinned_to_one(s: Seq<real>)
    requires
        s.len() > 0,
        forall|i: int, j: int|
            0 <= i < s.len() && 0 <= j < s.len() ==> near(#[trigger] s[i], #[trigger] s[j]),
    ensures
        thinned(s).len() == 1,
        s.contains(thinned(s)[0]),
    decreases s.len(),
{
    let d = s.drop_last();
    if d.len() > 0 {
        assert forall|i: int, j: int| 0 <= i < d.len() && 0 <= j < d.len() implies near(
            #[trigger] d[i],
            #[trigger] d[j],
        ) by {
            assert(near(s[i], s[j]));
        }
        lemma_thinned_to_one(d);
        let m = choose|m: int| 0 <= m < d.len() && d[m] == thinned(d)[0];
        assert(near(s[s.len() - 1], s[m]));
        assert(s[m] == thinned(s)[0]);
    } else {
        assert(thinned(d) =~= seq![]);
        assert(thinned(s)[0] == s[0]);
    }
}

/// What starts less than a billionth apart starts at one time: turned round or moved on, it stays
/// there, all of it.
pub proof fn times_too_near_are_one(
    q: PatView,
    n: i32,
    rests: bool,
    cycle: nat,
    t0: real,
    t1: real,
    i: int,
    j: int,
)
    requires
        forall|i: int, j: int|
            0 <= i < slots(q, rests, cycle, t0, t1).len() && 0 <= j < slots(
                q,
                rests,
                cycle,
                t0,
                t1,
            ).len() ==> (#[trigger] slots(q, rests, cycle, t0, t1)[i]).at - (#[trigger] slots(
                q,
                rests,
                cycle,
                t0,
                t1,
            )[j]).at < 1real / 1000000000real,
        0 <= i < slots(q, rests, cycle, t0, t1).len(),
        0 <= j < slots(q, rests, cycle, t0, t1).len(),
    ensures
        ({
            let s = slots(q, rests, cycle, t0, t1);
            let r = slots(PatView::Rev(Box::new(q)), rests, cycle, t0, t1);
            let m = slots(PatView::Rot(n, Box::new(q)), rests, cycle, t0, t1);
            &&& r[i].at == r[j].at
            &&& m[i].at == r[j].at
            &&& exists|k: int| 0 <= k < s.len() && (#[trigger] s[k]).at == r[i].at
        }),
{
    let s = slots(q, rests, cycle, t0, t1);
    let ts = times(s);
    let st = sorted::<Ratio>(ts);
    sorting_keeps_and_orders::<Ratio>(ts);
    lemma_sorted_len::<Ratio>(ts);
    broadcast use vstd::seq_lib::group_to_multiset_ensures;

    assert forall|a: int, b: int| 0 <= a < st.len() && 0 <= b < st.len() implies near(
        #[trigger] st[a],
        #[trigger] st[b],
    ) by {
        assert(st.to_multiset().contains(st[a]) && st.to_multiset().contains(st[b]));
        assert(ts.contains(st[a]) && ts.contains(st[b]));
        let x = choose|x: int| 0 <= x < ts.len() && ts[x] == st[a];
        let y = choose|y: int| 0 <= y < ts.len() && ts[y] == st[b];
        assert(s[x].at - s[y].at < 1real / 1000000000real);
        assert(s[y].at - s[x].at < 1real / 1000000000real);
    }
    lemma_thinned_to_one(st);
    lemma_onset_members(s);
    let on = onsets(s);
    assert(on.len() == 1);
    vstd::arithmetic::div_mod::lemma_mod_bound(onset_of(on, s[i].at) + n, 1);
    reveal_with_fuel(crate::pat::eval::onset_from, 2);
    assert(onset_of(on, s[i].at) == 0 && onset_of(on, s[j].at) == 0);
    assert(on[0] == onsets(s)[0]);
}

proof fn lemma_onset_group(s: Seq<SlotView>, on: Seq<real>, k: int, at: real)
    requires
        forall|m: int| 0 <= m < on.len() ==> onset_of(on, #[trigger] on[m]) == m,
        forall|i: int| 0 <= i < s.len() ==> on.contains((#[trigger] s[i]).at),
        0 <= k < on.len(),
    ensures
        onset_group(s, on, k, at) == s.filter_map(
            |x: SlotView|
                if x.at == on[k] {
                    Some(SlotView { at, token: x.token })
                } else {
                    None
                },
        ),
    decreases s.len(),
{
    if s.len() > 0 {
        let d = s.drop_last();
        assert forall|i: int| 0 <= i < d.len() implies on.contains((#[trigger] d[i]).at) by {
            assert(d[i] == s[i]);
        }
        lemma_onset_group(d, on, k, at);
        assert(on.contains(s[s.len() - 1].at));
        let m = choose|m: int| 0 <= m < on.len() && on[m] == s.last().at;
        assert(onset_of(on, on[m]) == m);
        assert(onset_of(on, on[k]) == k);
    }
}

/// What step `j` of a palindrome over the times `on` plays.
spec fn palindrome_group(
    s: Seq<SlotView>,
    on: Seq<real>,
    j: int,
    t0: real,
    t1: real,
) -> Seq<SlotView> {
    let n = on.len();
    let len = if n > 1 {
        2 * n - 2
    } else {
        n as int
    };
    let k = if j < n {
        j
    } else {
        2 * n - 2 - j
    };
    s.filter_map(
        |x: SlotView|
            if x.at == on[k] {
                Some(
                    SlotView { at: t0 + (t1 - t0) * (j as real / len as real), token: x.token },
                )
            } else {
                None
            },
    )
}

proof fn lemma_palindrome(s: Seq<SlotView>, on: Seq<real>, j: nat, t0: real, t1: real)
    requires
        forall|m: int| 0 <= m < on.len() ==> onset_of(on, #[trigger] on[m]) == m,
        forall|i: int| 0 <= i < s.len() ==> on.contains((#[trigger] s[i]).at),
        j <= palindrome_len(on.len()),
    ensures
        palindrome_upto(s, on, j, t0, t1) == Seq::new(
            j,
            |i: int| palindrome_group(s, on, i, t0, t1),
        ).flatten(),
    decreases j,
{
    let all = Seq::new(j, |i: int| palindrome_group(s, on, i, t0, t1));
    if j > 0 {
        let k = (j - 1) as nat;
        lemma_palindrome(s, on, k, t0, t1);
        let before = Seq::new(k, |i: int| palindrome_group(s, on, i, t0, t1));
        let last = palindrome_group(s, on, k as int, t0, t1);
        assert(all =~= before.push(last));
        before.lemma_flatten_push(last);
        let len = palindrome_len(on.len());
        let step = palindrome_step(on.len(), k as int);
        lemma_onset_group(s, on, step, point(t0, t1, k, len));
        let f = |x: SlotView|
            if x.at == on[step] {
                Some(SlotView { at: point(t0, t1, k, len), token: x.token })
            } else {
                None
            };
        let n = on.len();
        let m = if n > 1 {
            2 * n - 2
        } else {
            n as int
        };
        let i = if k < n {
            k as int
        } else {
            2 * n - 2 - k
        };
        let g = |x: SlotView|
            if x.at == on[i] {
                Some(
                    SlotView { at: t0 + (t1 - t0) * (k as real / m as real), token: x.token },
                )
            } else {
                None
            };
        assert(f =~= g);
    }
}

/// `pal` plays the times forwards, then backwards without the first and the last, in steps that share
/// the cycle out evenly. Each step plays everything that starts at its time.
pub proof fn pal_goes_forth_and_back(
    q: PatView,
    rests: bool,
    cycle: nat,
    t0: real,
    t1: real,
    on: Seq<real>,
)
    requires
        starts_at(slots(q, rests, cycle, t0, t1), on),
        on.len() > 0,
    ensures
        ({
            let n = on.len();
            let len = if n > 1 {
                2 * n - 2
            } else {
                1
            };
            slots(PatView::Pal(Box::new(q)), rests, cycle, t0, t1) == Seq::new(
                len as nat,
                |j: int|
                    slots(q, rests, cycle, t0, t1).filter_map(
                        |x: SlotView|
                            if x.at == on[if j < n {
                                j
                            } else {
                                2 * n - 2 - j
                            }] {
                                Some(
                                    SlotView {
                                        at: t0 + (t1 - t0) * (j as real / len as real),
                                        token: x.token,
                                    },
                                )
                            } else {
                                None
                            },
                    ),
            ).flatten()
        }),
{
    let s = slots(q, rests, cycle, t0, t1);
    lemma_starts_at(s, on);
    let n = on.len();
    let len = if n > 1 {
        2 * n - 2
    } else {
        1
    };
    lemma_palindrome(s, on, palindrome_len(n), t0, t1);
    let a = Seq::new(palindrome_len(n), |i: int| palindrome_group(s, on, i, t0, t1));
    let b = Seq::new(
        len as nat,
        |j: int|
            s.filter_map(
                |x: SlotView|
                    if x.at == on[if j < n {
                        j
                    } else {
                        2 * n - 2 - j
                    }] {
                        Some(
                            SlotView {
                                at: t0 + (t1 - t0) * (j as real / len as real),
                                token: x.token,
                            },
                        )
                    } else {
                        None
                    },
            ),
    );
    assert forall|j: int| 0 <= j < len implies a[j] == b[j] by {
        let k = if j < n {
            j
        } else {
            2 * n - 2 - j
        };
        let f = |x: SlotView|
            if x.at == on[k] {
                Some(
                    SlotView { at: t0 + (t1 - t0) * (j as real / len as real), token: x.token },
                )
            } else {
                None
            };
        let g = |x: SlotView|
            if x.at == on[if j < n {
                j
            } else {
                2 * n - 2 - j
            }] {
                Some(
                    SlotView { at: t0 + (t1 - t0) * (j as real / len as real), token: x.token },
                )
            } else {
                None
            };
        assert(f =~= g);
        assert(a[j] == s.filter_map(f));
        assert(b[j] == s.filter_map(g));
    }
    assert(a =~= b);
}

// ---------------------------------------------------------------------------------------------
// Tempo within patterns
// ---------------------------------------------------------------------------------------------

/// The slots of the inner cycle `j` of `m`.
spec fn hurried_slots(
    q: PatView,
    m: nat,
    j: int,
    rests: bool,
    cycle: nat,
    t0: real,
    t1: real,
) -> Seq<SlotView> {
    slots(
        q,
        rests,
        (cycle * m + j) as nat,
        t0 + (t1 - t0) * (j as real / m as real),
        t0 + (t1 - t0) * ((j + 1) as real / m as real),
    )
}

proof fn lemma_hurried(q: PatView, k: nat, m: nat, rests: bool, cycle: nat, t0: real, t1: real)
    requires
        k <= m,
        cycle * m + m <= u64::MAX,
    ensures
        hurried(q, k, m, rests, cycle, t0, t1) == Seq::new(
            k,
            |j: int| hurried_slots(q, m, j, rests, cycle, t0, t1),
        ).flatten(),
    decreases k,
{
    let all = Seq::new(k, |j: int| hurried_slots(q, m, j, rests, cycle, t0, t1));
    if k > 0 {
        let j = (k - 1) as nat;
        lemma_hurried(q, j, m, rests, cycle, t0, t1);
        let before = Seq::new(j, |j: int| hurried_slots(q, m, j, rests, cycle, t0, t1));
        let last = hurried_slots(q, m, j as int, rests, cycle, t0, t1);
        assert(all =~= before.push(last));
        before.lemma_flatten_push(last);
        assert(inner_cycle(cycle, m, j) == (cycle * m + j) as nat);
    }
}

/// A pattern hurried `m` times plays the `m` cycles from `m` times the cycle on, one after the other,
/// each in its share of the time.
pub proof fn hurried_patterns_play_cycles_one_after_the_other(
    q: PatView,
    m: u32,
    rests: bool,
    cycle: nat,
    t0: real,
    t1: real,
)
    requires
        m >= 1,
        cycle * m + m <= u64::MAX,
    ensures
        slots(PatView::Fast(m, Box::new(q)), rests, cycle, t0, t1) == Seq::new(
            m as nat,
            |j: int|
                slots(
                    q,
                    rests,
                    (cycle * m + j) as nat,
                    t0 + (t1 - t0) * (j as real / m as real),
                    t0 + (t1 - t0) * ((j + 1) as real / m as real),
                ),
        ).flatten(),
{
    lemma_hurried(q, m as nat, m as nat, rests, cycle, t0, t1);
    assert(Seq::new(
        m as nat,
        |j: int| hurried_slots(q, m as nat, j, rests, cycle, t0, t1),
    ) =~= Seq::new(
        m as nat,
        |j: int|
            slots(
                q,
                rests,
                (cycle * m + j) as nat,
                t0 + (t1 - t0) * (j as real / m as real),
                t0 + (t1 - t0) * ((j + 1) as real / m as real),
            ),
    ));
}

/// How far of the way from `t0` to `t1` a time lies; the last millionth of it does not count.
pub open spec fn part_of_the_way(at: real, t0: real, t1: real) -> real {
    let x = (at - t0) / (t1 - t0);
    if x > 999999real / 1000000real {
        999999real / 1000000real
    } else {
        x
    }
}

proof fn lemma_stretched(s: Seq<SlotView>, k: nat, j: nat, t0: real, t1: real)
    requires
        t1 - t0 > 1real / 4503599627370496real,
        forall|i: int| 0 <= i < s.len() ==> t0 <= (#[trigger] s[i]).at,
    ensures
        stretched(s, k, j, t0, t1) == s.filter_map(
            |x: SlotView|
                if (part_of_the_way(x.at, t0, t1) * k as real).floor() == j {
                    Some(
                        SlotView {
                            at: t0 + (part_of_the_way(x.at, t0, t1) * k as real - j as real) * (t1
                                - t0),
                            token: x.token,
                        },
                    )
                } else {
                    None
                },
        ),
    decreases s.len(),
{
    if s.len() > 0 {
        let d = s.drop_last();
        assert forall|i: int| 0 <= i < d.len() implies t0 <= (#[trigger] d[i]).at by {
            assert(d[i] == s[i]);
        }
        lemma_stretched(d, k, j, t0, t1);
        let x = s[s.len() - 1];
        let span = t1 - t0;
        let r = (x.at - t0) / span;
        lemma_div(x.at - t0, span);
        assert(r >= 0real) by (nonlinear_arith)
            requires
                r * span >= 0real,
                span > 0real,
        ;
        assert(relative(x.at, t0, t1) == part_of_the_way(x.at, t0, t1));
        let y = part_of_the_way(x.at, t0, t1) * k as real;
        assert(y.floor() == j <==> j as real <= y < j as real + 1real);
    }
}

/// A pattern stretched over `k` cycles plays in the `k` cycles from `k * c` on what it would play in
/// cycle `c`: what starts at `x` of the way is played in the cycle `k * c + floor(k * x)`, at the part
/// of it that is left over.
pub proof fn stretched_patterns_share_out_a_cycle(
    q: PatView,
    k: u32,
    rests: bool,
    c: nat,
    j: nat,
    t0: real,
    t1: real,
)
    requires
        k >= 1,
        j < k,
        t1 - t0 > 1real / 4503599627370496real,
        forall|i: int|
            0 <= i < slots(q, rests, c, t0, t1).len() ==> t0 <= (#[trigger] slots(
                q,
                rests,
                c,
                t0,
                t1,
            )[i]).at,
    ensures
        slots(PatView::Slow(k, Box::new(q)), rests, k as nat * c + j, t0, t1) == slots(
            q,
            rests,
            c,
            t0,
            t1,
        ).filter_map(
            |x: SlotView|
                if (part_of_the_way(x.at, t0, t1) * k as real).floor() == j {
                    Some(
                        SlotView {
                            at: t0 + (part_of_the_way(x.at, t0, t1) * k as real - j as real) * (t1
                                - t0),
                            token: x.token,
                        },
                    )
                } else {
                    None
                },
        ),
{
    let n = k as nat * c + j;
    assert(k as nat * c == c * k as nat) by (nonlinear_arith);
    vstd::arithmetic::div_mod::lemma_fundamental_div_mod_converse(
        n as int,
        k as int,
        c as int,
        j as int,
    );
    assert(n / (k as nat) == c && n % (k as nat) == j);
    let s = slots(q, rests, c, t0, t1);
    lemma_stretched(s, k as nat, j, t0, t1);
    let f = |x: SlotView|
        if (part_of_the_way(x.at, t0, t1) * k as real).floor() == j {
            Some(
                SlotView {
                    at: t0 + (part_of_the_way(x.at, t0, t1) * k as real - j as real) * (t1 - t0),
                    token: x.token,
                },
            )
        } else {
            None
        };
    let g = |x: SlotView|
        if (part_of_the_way(x.at, t0, t1) * (k as nat) as real).floor() == j {
            Some(
                SlotView {
                    at: t0 + (part_of_the_way(x.at, t0, t1) * (k as nat) as real - j as real) * (t1
                        - t0),
                    token: x.token,
                },
            )
        } else {
            None
        };
    assert(f =~= g);
}

// ---------------------------------------------------------------------------------------------
// Euclidean rhythms
// ---------------------------------------------------------------------------------------------

/// The first step sounds, and each later one at which `i * k / n` reaches a new whole number.
spec fn step_sounds(k: nat, n: nat, i: int) -> bool {
    i == 0 || i * k / (n as int) > (i - 1) * k / (n as int)
}

proof fn lemma_gate(k: nat, n: nat, i: nat)
    requires
        1 <= k <= n,
        i < n,
    ensures
        euclid_gate(k, n, i) == step_sounds(k, n, i as int),
{
    if i == 0 {
        assert(0 * k == 0) by (nonlinear_arith);
        assert(0nat % n == 0);
    } else {
        let a = ((i - 1) * k) as int;
        let b = (i * k) as int;
        let d = n as int;
        assert(b == a + k) by (nonlinear_arith)
            requires
                a == (i - 1) * k,
                b == i * k,
        ;
        assert(a >= 0) by (nonlinear_arith)
            requires
                a == (i - 1) * k,
                i >= 1,
        ;
        vstd::arithmetic::div_mod::lemma_fundamental_div_mod(a, d);
        vstd::arithmetic::div_mod::lemma_mod_bound(a, d);
        let q = a / d;
        let m = a % d;
        if m + k >= d {
            assert(b == (q + 1) * d + (m + k - d)) by (nonlinear_arith)
                requires
                    a == d * q + m,
                    b == a + k,
            ;
            vstd::arithmetic::div_mod::lemma_fundamental_div_mod_converse(b, d, q + 1, m + k - d);
        } else {
            assert(b == q * d + (m + k)) by (nonlinear_arith)
                requires
                    a == d * q + m,
                    b == a + k,
            ;
            vstd::arithmetic::div_mod::lemma_fundamental_div_mod_converse(b, d, q, m + k);
        }
        assert((i * k) % n == b % d);
    }
}

proof fn lemma_pulses(
    k: nat,
    n: nat,
    r: nat,
    token: Seq<char>,
    m: nat,
    t0: real,
    t1: real,
)
    requires
        1 <= k <= n,
    ensures
        pulses(k, n, r, token, m, t0, t1) == Seq::new(m, |j: int| j).filter_map(
            |j: int|
                if step_sounds(k, n, (j + r) % (n as int)) {
                    Some(
                        SlotView {
                            at: t0 + (t1 - t0) * (j as real / n as real),
                            token: Some(token),
                        },
                    )
                } else {
                    None
                },
        ),
    decreases m,
{
    if m > 0 {
        let j = (m - 1) as nat;
        lemma_pulses(k, n, r, token, j, t0, t1);
        assert(Seq::new(m, |j: int| j).drop_last() =~= Seq::new(j, |j: int| j));
        vstd::arithmetic::div_mod::lemma_mod_bound((j + r) as int, n as int);
        lemma_gate(k, n, (j + r) % n);
        assert((j + r) % n == (j as int + r) % (n as int));
    }
}

/// `euclid(k,n,r)` has `n` even steps. It sounds at those steps that, `r` steps further on, are the
/// first one or one at which `i * k / n` reaches a new whole number.
pub proof fn euclid_sounds_at_new_whole_numbers(
    k: u32,
    n: u32,
    r: u32,
    token: Seq<char>,
    rests: bool,
    cycle: nat,
    t0: real,
    t1: real,
)
    requires
        1 <= k <= n,
    ensures
        slots(PatView::Euclid(k, n, r, token), rests, cycle, t0, t1) == Seq::new(
            n as nat,
            |j: int| j,
        ).filter_map(
            |j: int|
                {
                    let i = (j + r) % (n as int);
                    if i == 0 || i * k / (n as int) > (i - 1) * k / (n as int) {
                        Some(
                            SlotView {
                                at: t0 + (t1 - t0) * (j as real / n as real),
                                token: Some(token),
                            },
                        )
                    } else {
                        None
                    }
                },
        ),
{
    lemma_pulses(k as nat, n as nat, r as nat, token, n as nat, t0, t1);
    let f = |j: int|
        {
            let i = (j + r) % (n as int);
            if i == 0 || i * k / (n as int) > (i - 1) * k / (n as int) {
                Some(
                    SlotView {
                        at: t0 + (t1 - t0) * (j as real / n as real),
                        token: Some(token),
                    },
                )
            } else {
                None
            }
        };
    let g = |j: int|
        if step_sounds(k as nat, n as nat, (j + (r as nat)) % ((n as nat) as int)) {
            Some(
                SlotView {
                    at: t0 + (t1 - t0) * (j as real / (n as nat) as real),
                    token: Some(token),
                },
            )
        } else {
            None
        };
    assert(f =~= g);
}

} // verus!
