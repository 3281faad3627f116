//! What holds of every pattern.

use vstd::prelude::*;

use crate::order::{
    in_order, is_order, lemma_sorted_len, sorted, sorting_keeps_and_orders, Ranked,
};
use crate::pat::eval::{
    at_least_one, euclid_gate, hits, hurried, inner_cycle, near, onset_from, onset_group, onset_of,
    onsets, palindrome, palindrome_len, palindrome_step, palindrome_upto, point, pulses, relative,
    reversed, rotated, slots, sounding, steps, stretched, thinned, times, together, SlotView,
};
use crate::pat::lanes::{controlled, entry, lane_values, Lane, LanesView};
use crate::pat::PatView;
use crate::ratio::{lemma_div, Ratio};

verus! {

// ---------------------------------------------------------------------------------------------
// Fractions
// ---------------------------------------------------------------------------------------------

proof fn lemma_fraction(k: nat, n: nat)
    requires
        n > 0,
        k <= n,
    ensures
        0real <= k as real / n as real <= 1real,
        k < n ==> (k as real / n as real) < 1real,
{
    let x = k as real / n as real;
    let d = n as real;
    lemma_div(k as real, d);
    assert(x >= 0real) by (nonlinear_arith)
        requires
            x * d >= 0real,
            d > 0real,
    ;
    assert(x <= 1real) by (nonlinear_arith)
        requires
            x * d <= d,
            d > 0real,
    ;
    if k < n {
        assert(x < 1real) by (nonlinear_arith)
            requires
                x * d < d,
                d > 0real,
        ;
    }
}

proof fn lemma_fraction_grows(j: nat, k: nat, n: nat)
    requires
        n > 0,
        j < k,
    ensures
        (j as real / n as real) < (k as real / n as real),
{
    let x = j as real / n as real;
    let y = k as real / n as real;
    let d = n as real;
    lemma_div(j as real, d);
    lemma_div(k as real, d);
    assert(x < y) by (nonlinear_arith)
        requires
            x * d < y * d,
            d > 0real,
    ;
}

pub proof fn lemma_share(d: real, f: real)
    requires
        d > 0real,
        0real <= f <= 1real,
    ensures
        0real <= d * f <= d,
        f < 1real ==> d * f < d,
{
    assert(0real <= d * f) by (nonlinear_arith)
        requires
            d > 0real,
            0real <= f,
    ;
    assert(d * f <= d) by (nonlinear_arith)
        requires
            d > 0real,
            f <= 1real,
    ;
    if f < 1real {
        assert(d * f < d) by (nonlinear_arith)
            requires
                d > 0real,
                f < 1real,
        ;
    }
}

proof fn lemma_share_grows(d: real, f: real, g: real)
    requires
        d > 0real,
        f < g,
    ensures
        d * f < d * g,
{
    assert(d * f < d * g) by (nonlinear_arith)
        requires
            d > 0real,
            f < g,
    ;
}

/// Points at fractions below one lie within the window; further ones come later.
proof fn lemma_point(t0: real, t1: real, k: nat, n: nat)
    requires
        t0 < t1,
        n > 0,
        k <= n,
    ensures
        t0 <= point(t0, t1, k, n) <= t1,
        k < n ==> point(t0, t1, k, n) < t1,
        k < n ==> point(t0, t1, k, n) < point(t0, t1, k + 1, n),
{
    lemma_fraction(k, n);
    lemma_share(t1 - t0, k as real / n as real);
    if k < n {
        lemma_fraction_grows(k, k + 1, n);
        lemma_share_grows(t1 - t0, k as real / n as real, (k + 1) as real / n as real);
    }
}

// ---------------------------------------------------------------------------------------------
// Onsets
// ---------------------------------------------------------------------------------------------

proof fn lemma_times_are_ordered()
    ensures
        is_order::<Ratio>(),
{
}

proof fn lemma_thinned_members(s: Seq<real>)
    ensures
        forall|k: int| 0 <= k < thinned(s).len() ==> s.contains(#[trigger] thinned(s)[k]),
        s.len() > 0 ==> thinned(s).len() > 0,
        thinned(s).len() <= s.len(),
    decreases s.len(),
{
    if s.len() > 0 {
        let d = s.drop_last();
        lemma_thinned_members(d);
        let t = thinned(s);
        assert forall|k: int| 0 <= k < t.len() implies s.contains(#[trigger] t[k]) by {
            if k < thinned(d).len() {
                assert(t[k] == thinned(d)[k]);
                let m = choose|m: int| 0 <= m < d.len() && d[m] == t[k];
                assert(s[m] == t[k]);
            } else {
                assert(s[s.len() - 1] == t[k]);
            }
        }
    }
}

/// Every onset is the time of a slot.
pub proof fn lemma_onset_members(s: Seq<SlotView>)
    ensures
        forall|k: int|
            0 <= k < onsets(s).len() ==> exists|i: int|
                0 <= i < s.len() && s[i].at == #[trigger] onsets(s)[k],
        s.len() > 0 ==> onsets(s).len() > 0,
        onsets(s).len() <= s.len(),
{
    broadcast use vstd::seq_lib::group_to_multiset_ensures;

    let ts = times(s);
    let st = sorted::<Ratio>(ts);
    lemma_times_are_ordered();
    sorting_keeps_and_orders::<Ratio>(ts);
    lemma_sorted_len::<Ratio>(ts);
    lemma_thinned_members(st);
    assert forall|k: int| 0 <= k < onsets(s).len() implies exists|i: int|
        0 <= i < s.len() && s[i].at == #[trigger] onsets(s)[k] by {
        let x = onsets(s)[k];
        assert(st.contains(x));
        assert(st.to_multiset().contains(x));
        assert(ts.to_multiset().contains(x));
        assert(ts.contains(x));
        let i = choose|i: int| 0 <= i < ts.len() && ts[i] == x;
        assert(s[i].at == x);
    }
}

proof fn lemma_onset_from(on: Seq<real>, t: real, i: int)
    requires
        0 <= i <= on.len(),
        on.len() > 0,
    ensures
        0 <= onset_from(on, t, i) < on.len(),
    decreases on.len() - i,
{
    if i < on.len() && !near(on[i], t) {
        lemma_onset_from(on, t, i + 1);
    }
}

// ---------------------------------------------------------------------------------------------
// Windows
// ---------------------------------------------------------------------------------------------

/// All slots start in the window from `t0` up to `t1`.
pub open spec fn all_within(s: Seq<SlotView>, t0: real, t1: real) -> bool {
    forall|i: int| 0 <= i < s.len() ==> t0 <= (#[trigger] s[i]).at < t1
}

proof fn lemma_within_sum(a: Seq<SlotView>, b: Seq<SlotView>, t0: real, t1: real)
    requires
        all_within(a, t0, t1),
        all_within(b, t0, t1),
    ensures
        all_within(a + b, t0, t1),
{
    assert forall|i: int| 0 <= i < (a + b).len() implies t0 <= (#[trigger] (a + b)[i]).at < t1 by {
        if i < a.len() {
            assert((a + b)[i] == a[i]);
        } else {
            assert((a + b)[i] == b[i - a.len()]);
        }
    }
}

proof fn lemma_within_wider(s: Seq<SlotView>, a: real, b: real, t0: real, t1: real)
    requires
        all_within(s, a, b),
        t0 <= a,
        b <= t1,
    ensures
        all_within(s, t0, t1),
{
    assert forall|i: int| 0 <= i < s.len() implies t0 <= (#[trigger] s[i]).at < t1 by {}
}

proof fn lemma_onsets_within(s: Seq<SlotView>, t0: real, t1: real)
    requires
        all_within(s, t0, t1),
    ensures
        forall|k: int| 0 <= k < onsets(s).len() ==> t0 <= #[trigger] onsets(s)[k] < t1,
        s.len() > 0 ==> onsets(s).len() > 0,
{
    lemma_onset_members(s);
    assert forall|k: int| 0 <= k < onsets(s).len() implies t0 <= #[trigger] onsets(s)[k] < t1 by {
        let i = choose|i: int| 0 <= i < s.len() && s[i].at == onsets(s)[k];
        assert(t0 <= s[i].at < t1);
    }
}

proof fn lemma_group_within(s: Seq<SlotView>, on: Seq<real>, k: int, at: real, t0: real, t1: real)
    requires
        t0 <= at < t1,
    ensures
        all_within(onset_group(s, on, k, at), t0, t1),
    decreases s.len(),
{
    if s.len() > 0 {
        lemma_group_within(s.drop_last(), on, k, at, t0, t1);
    }
}

proof fn lemma_palindrome_within(s: Seq<SlotView>, on: Seq<real>, j: nat, t0: real, t1: real)
    requires
        t0 < t1,
        j <= palindrome_len(on.len()),
    ensures
        all_within(palindrome_upto(s, on, j, t0, t1), t0, t1),
    decreases j,
{
    if j > 0 {
        let k = (j - 1) as nat;
        let n = palindrome_len(on.len());
        lemma_palindrome_within(s, on, k, t0, t1);
        lemma_point(t0, t1, k, n);
        let at = point(t0, t1, k, n);
        let step = palindrome_step(on.len(), k as int);
        lemma_group_within(s, on, step, at, t0, t1);
        lemma_within_sum(
            palindrome_upto(s, on, k, t0, t1),
            onset_group(s, on, step, at),
            t0,
            t1,
        );
    }
}

proof fn lemma_stretched_within(s: Seq<SlotView>, k: nat, slot: nat, t0: real, t1: real)
    requires
        t0 < t1,
    ensures
        all_within(stretched(s, k, slot, t0, t1), t0, t1),
    decreases s.len(),
{
    if s.len() > 0 {
        lemma_stretched_within(s.drop_last(), k, slot, t0, t1);
        let x = relative(s.last().at, t0, t1) * (k as real);
        if slot as real <= x < slot as real + 1real {
            let f = x - slot as real;
            lemma_share(t1 - t0, f);
            assert(f * (t1 - t0) == (t1 - t0) * f) by (nonlinear_arith);
        }
    }
}

proof fn lemma_pulses_within(
    k: nat,
    n: nat,
    r: nat,
    token: Seq<char>,
    step: nat,
    t0: real,
    t1: real,
)
    requires
        t0 < t1,
        step <= n,
    ensures
        all_within(pulses(k, n, r, token, step, t0, t1), t0, t1),
    decreases step,
{
    if step > 0 {
        let j = (step - 1) as nat;
        lemma_pulses_within(k, n, r, token, j, t0, t1);
        lemma_point(t0, t1, j, n);
    }
}

/// Every slot of a pattern starts within the window that the pattern is played in.
pub proof fn slots_lie_within_the_window(
    p: PatView,
    rests: bool,
    cycle: nat,
    t0: real,
    t1: real,
)
    requires
        t0 < t1,
    ensures
        all_within(slots(p, rests, cycle, t0, t1), t0, t1),
    decreases p, 0nat,
{
    match p {
        PatView::Sequence(cs) => {
            lemma_steps_within(cs, cs.len(), rests, cycle, t0, t1);
        },
        PatView::Stack(cs) => {
            lemma_together_within(cs, cs.len(), rests, cycle, t0, t1);
        },
        PatView::Layer(cs) => {
            lemma_together_within(cs, cs.len(), rests, cycle, t0, t1);
        },
        PatView::Alt(cs) => {
            if cs.len() > 0 {
                slots_lie_within_the_window(cs[(cycle % cs.len()) as int], rests, cycle, t0, t1);
            }
        },
        PatView::Rev(q) => {
            let s = slots(*q, rests, cycle, t0, t1);
            slots_lie_within_the_window(*q, rests, cycle, t0, t1);
            lemma_onsets_within(s, t0, t1);
            let on = onsets(s);
            assert forall|i: int| 0 <= i < reversed(s).len() implies t0 <= (#[trigger] reversed(
                s,
            )[i]).at < t1 by {
                lemma_onset_from(on, s[i].at, 0);
                assert(t0 <= on[on.len() - 1 - onset_of(on, s[i].at)] < t1);
            }
        },
        PatView::Rot(n, q) => {
            let s = slots(*q, rests, cycle, t0, t1);
            slots_lie_within_the_window(*q, rests, cycle, t0, t1);
            lemma_onsets_within(s, t0, t1);
            let on = onsets(s);
            assert forall|i: int| 0 <= i < rotated(s, n as int).len() implies t0 <= (
            #[trigger] rotated(s, n as int)[i]).at < t1 by {
                let k = (onset_of(on, s[i].at) + n) % (on.len() as int);
                vstd::arithmetic::div_mod::lemma_mod_bound(
                    onset_of(on, s[i].at) + n,
                    on.len() as int,
                );
                assert(t0 <= on[k] < t1);
            }
        },
        PatView::Pal(q) => {
            let s = slots(*q, rests, cycle, t0, t1);
            lemma_palindrome_within(s, onsets(s), palindrome_len(onsets(s).len()), t0, t1);
        },
        PatView::Every(n, q, base) => {
            slots_lie_within_the_window(*q, rests, cycle, t0, t1);
            slots_lie_within_the_window(*base, rests, cycle, t0, t1);
        },
        PatView::Fast(n, q) => {
            lemma_hurried_within(*q, at_least_one(n), at_least_one(n), rests, cycle, t0, t1);
        },
        PatView::Slow(n, q) => {
            lemma_stretched_within(
                slots(*q, rests, cycle / at_least_one(n), t0, t1),
                at_least_one(n),
                cycle % at_least_one(n),
                t0,
                t1,
            );
        },
        PatView::Euclid(k, n, r, token) => {
            lemma_pulses_within(k as nat, n as nat, r as nat, token, n as nat, t0, t1);
        },
        PatView::Atom(token) => {},
        PatView::Rest => {},
    }
}

proof fn lemma_steps_within(
    cs: Seq<PatView>,
    k: nat,
    rests: bool,
    cycle: nat,
    t0: real,
    t1: real,
)
    requires
        t0 < t1,
    ensures
        all_within(steps(cs, k, rests, cycle, t0, t1), t0, t1),
    decreases cs, k,
{
    if k > 0 && k <= cs.len() {
        let j = (k - 1) as nat;
        lemma_steps_within(cs, j, rests, cycle, t0, t1);
        lemma_point(t0, t1, j, cs.len());
        lemma_point(t0, t1, k, cs.len());
        let a = point(t0, t1, j, cs.len());
        let b = point(t0, t1, k, cs.len());
        slots_lie_within_the_window(cs[j as int], rests, cycle, a, b);
        let s = slots(cs[j as int], rests, cycle, a, b);
        lemma_within_wider(s, a, b, t0, t1);
        lemma_within_sum(steps(cs, j, rests, cycle, t0, t1), s, t0, t1);
    }
}

proof fn lemma_together_within(
    cs: Seq<PatView>,
    k: nat,
    rests: bool,
    cycle: nat,
    t0: real,
    t1: real,
)
    requires
        t0 < t1,
    ensures
        all_within(together(cs, k, rests, cycle, t0, t1), t0, t1),
    decreases cs, k,
{
    if k > 0 && k <= cs.len() {
        let j = (k - 1) as nat;
        lemma_together_within(cs, j, rests, cycle, t0, t1);
        slots_lie_within_the_window(cs[j as int], rests, cycle, t0, t1);
        lemma_within_sum(
            together(cs, j, rests, cycle, t0, t1),
            slots(cs[j as int], rests, cycle, t0, t1),
            t0,
            t1,
        );
    }
}

proof fn lemma_hurried_within(
    p: PatView,
    k: nat,
    m: nat,
    rests: bool,
    cycle: nat,
    t0: real,
    t1: real,
)
    requires
        t0 < t1,
        k <= m,
    ensures
        all_within(hurried(p, k, m, rests, cycle, t0, t1), t0, t1),
    decreases p, k,
{
    if k > 0 {
        let j = (k - 1) as nat;
        lemma_hurried_within(p, j, m, rests, cycle, t0, t1);
        lemma_point(t0, t1, j, m);
        lemma_point(t0, t1, k, m);
        let a = point(t0, t1, j, m);
        let b = point(t0, t1, k, m);
        let c = inner_cycle(cycle, m, j);
        slots_lie_within_the_window(p, rests, c, a, b);
        let s = slots(p, rests, c, a, b);
        lemma_within_wider(s, a, b, t0, t1);
        lemma_within_sum(hurried(p, j, m, rests, cycle, t0, t1), s, t0, t1);
    }
}

proof fn lemma_sounding_within(s: Seq<SlotView>, t0: real, t1: real)
    requires
        all_within(s, t0, t1),
    ensures
        forall|i: int| 0 <= i < sounding(s).len() ==> t0 <= (#[trigger] sounding(s)[i]).0 < t1,
    decreases s.len(),
{
    if s.len() > 0 {
        let d = s.drop_last();
        assert(all_within(d, t0, t1)) by {
            assert forall|i: int| 0 <= i < d.len() implies t0 <= (#[trigger] d[i]).at < t1 by {
                assert(d[i] == s[i]);
            }
        }
        lemma_sounding_within(d, t0, t1);
        assert(t0 <= s[s.len() - 1].at < t1);
        assert forall|i: int| 0 <= i < sounding(s).len() implies t0 <= (#[trigger] sounding(s)[i]).0
            < t1 by {
            if i < sounding(d).len() {
                assert(sounding(s)[i] == sounding(d)[i]);
            }
        }
    }
}

/// Every hit of a pattern starts within the window that the pattern is played in.
pub proof fn hits_lie_within_the_window(p: PatView, cycle: nat, t0: real, t1: real)
    requires
        t0 < t1,
    ensures
        forall|i: int|
            0 <= i < hits(p, cycle, t0, t1).len() ==> t0 <= (#[trigger] hits(
                p,
                cycle,
                t0,
                t1,
            )[i]).0 < t1,
{
    slots_lie_within_the_window(p, false, cycle, t0, t1);
    lemma_sounding_within(slots(p, false, cycle, t0, t1), t0, t1);
}

// ---------------------------------------------------------------------------------------------
// Transforms
// ---------------------------------------------------------------------------------------------

/// Slots that do not start together start apart.
pub open spec fn separated(s: Seq<SlotView>) -> bool {
    forall|i: int, j: int|
        0 <= i < s.len() && 0 <= j < s.len() ==> (#[trigger] s[i]).at == (#[trigger] s[j]).at
            || !near(s[i].at, s[j].at)
}

/// Each number is less than the next.
pub open spec fn increasing(s: Seq<real>) -> bool {
    forall|i: int, j: int| 0 <= i < j < s.len() ==> (#[trigger] s[i]) < (#[trigger] s[j])
}

spec fn apart(s: Seq<real>) -> bool {
    forall|i: int, j: int|
        0 <= i < s.len() && 0 <= j < s.len() ==> (#[trigger] s[i]) == (#[trigger] s[j]) || !near(
            s[i],
            s[j],
        )
}

/// Times in order are thinned to strictly later ones; if they are apart, none is lost.
proof fn lemma_thinned_increasing(s: Seq<real>)
    requires
        in_order::<Ratio>(s),
    ensures
        increasing(thinned(s)),
        apart(s) ==> forall|k: int| 0 <= k < s.len() ==> thinned(s).contains(#[trigger] s[k]),
    decreases s.len(),
{
    if s.len() > 0 {
        let d = s.drop_last();
        assert(in_order::<Ratio>(d)) by {
            assert forall|i: int, j: int| 0 <= i < j < d.len() implies <Ratio as Ranked>::ordered(
                #[trigger] d[i],
                #[trigger] d[j],
            ) by {
                assert(<Ratio as Ranked>::ordered(s[i], s[j]));
            }
        }
        lemma_thinned_increasing(d);
        lemma_thinned_members(d);
        let t = thinned(d);
        let r = thinned(s);
        let x = s.last();
        assert forall|k: int| 0 <= k < t.len() implies #[trigger] t[k] <= x by {
            let m = choose|m: int| 0 <= m < d.len() && d[m] == t[k];
            assert(<Ratio as Ranked>::ordered(s[m], s[s.len() - 1]));
        }
        if t.len() > 0 && near(x, t.last()) {
            if apart(s) {
                let m = choose|m: int| 0 <= m < d.len() && d[m] == t[t.len() - 1];
                assert(s[m] == t.last());
                assert(s[s.len() - 1] == s[m]);
                assert(apart(d)) by {
                    assert forall|i: int, j: int| 0 <= i < d.len() && 0 <= j < d.len() implies (
                    #[trigger] d[i]) == (#[trigger] d[j]) || !near(d[i], d[j]) by {
                        assert(s[i] == d[i] && s[j] == d[j]);
                    }
                }
                assert forall|k: int| 0 <= k < s.len() implies r.contains(#[trigger] s[k]) by {
                    if k < d.len() {
                        assert(d[k] == s[k]);
                        assert(t.contains(d[k]));
                    } else {
                        assert(t[t.len() - 1] == s[k]);
                    }
                }
            }
        } else {
            assert(r == t.push(x));
            assert(increasing(r)) by {
                assert forall|i: int, j: int| 0 <= i < j < r.len() implies (#[trigger] r[i]) < (
                #[trigger] r[j]) by {
                    if j == t.len() {
                        assert(t[i] <= x);
                        if i < t.len() - 1 {
                            assert(t[i] < t[t.len() - 1]);
                        }
                        assert(t[t.len() - 1] <= x);
                        assert(!near(x, t.last()));
                    } else {
                        assert(t[i] < t[j]);
                    }
                }
            }
            if apart(s) {
                assert(apart(d)) by {
                    assert forall|i: int, j: int| 0 <= i < d.len() && 0 <= j < d.len() implies (
                    #[trigger] d[i]) == (#[trigger] d[j]) || !near(d[i], d[j]) by {
                        assert(s[i] == d[i] && s[j] == d[j]);
                    }
                }
                assert forall|k: int| 0 <= k < s.len() implies r.contains(#[trigger] s[k]) by {
                    if k < d.len() {
                        assert(d[k] == s[k]);
                        let m = choose|m: int| 0 <= m < t.len() && t[m] == d[k];
                        assert(r[m] == s[k]);
                    } else {
                        assert(r[t.len() as int] == s[k]);
                    }
                }
            }
        }
    }
}

/// The onset found for a time that is an onset is that onset.
proof fn lemma_onset_exact(on: Seq<real>, t: real, i: int, m: int)
    requires
        0 <= i <= m < on.len(),
        on[m] == t,
        forall|k: int| 0 <= k < on.len() ==> (#[trigger] on[k]) == t || !near(on[k], t),
        increasing(on),
    ensures
        onset_from(on, t, i) == m,
    decreases on.len() - i,
{
    if i < m {
        assert(on[i] < on[m]);
        assert(!near(on[i], t));
        lemma_onset_exact(on, t, i + 1, m);
    }
}

/// The onsets of slots that are apart: strictly later ones, the times of all slots and of no
/// others.
pub proof fn lemma_onsets_apart(s: Seq<SlotView>)
    requires
        separated(s),
    ensures
        increasing(onsets(s)),
        forall|i: int|
            0 <= i < s.len() ==> {
                let k = onset_of(onsets(s), (#[trigger] s[i]).at);
                0 <= k < onsets(s).len() && onsets(s)[k] == s[i].at
            },
        forall|k: int|
            0 <= k < onsets(s).len() ==> onset_of(onsets(s), #[trigger] onsets(s)[k]) == k,
{
    broadcast use vstd::seq_lib::group_to_multiset_ensures;

    let ts = times(s);
    let st = sorted::<Ratio>(ts);
    let on = onsets(s);
    lemma_times_are_ordered();
    sorting_keeps_and_orders::<Ratio>(ts);
    lemma_onset_members(s);
    assert(apart(st)) by {
        assert forall|i: int, j: int| 0 <= i < st.len() && 0 <= j < st.len() implies (
        #[trigger] st[i]) == (#[trigger] st[j]) || !near(st[i], st[j]) by {
            assert(st.to_multiset().contains(st[i]));
            assert(st.to_multiset().contains(st[j]));
            assert(ts.contains(st[i]) && ts.contains(st[j]));
            let a = choose|a: int| 0 <= a < ts.len() && ts[a] == st[i];
            let b = choose|b: int| 0 <= b < ts.len() && ts[b] == st[j];
            assert(s[a].at == st[i] && s[b].at == st[j]);
        }
    }
    lemma_thinned_increasing(st);
    assert forall|i: int| 0 <= i < s.len() implies {
        let k = onset_of(on, (#[trigger] s[i]).at);
        0 <= k < on.len() && on[k] == s[i].at
    } by {
        let t = s[i].at;
        assert(ts[i] == t);
        assert(ts.contains(t));
        assert(ts.to_multiset().contains(t));
        assert(st.contains(t));
        let k = choose|k: int| 0 <= k < st.len() && st[k] == t;
        assert(on.contains(st[k]));
        let m = choose|m: int| 0 <= m < on.len() && on[m] == t;
        assert forall|k: int| 0 <= k < on.len() implies (#[trigger] on[k]) == t || !near(on[k], t) by {
            let a = choose|a: int| 0 <= a < s.len() && s[a].at == on[k];
            assert(s[a].at == s[i].at || !near(s[a].at, s[i].at));
        }
        lemma_onset_exact(on, t, 0, m);
    }
    assert forall|k: int| 0 <= k < on.len() implies onset_of(on, #[trigger] on[k]) == k by {
        let a = choose|a: int| 0 <= a < s.len() && s[a].at == on[k];
        let m = onset_of(on, s[a].at);
        assert(on[m] == on[k]);
        if m < k {
            assert(on[m] < on[k]);
        } else if k < m {
            assert(on[k] < on[m]);
        }
    }
}

/// Two strictly growing lists of the same times are one.
pub proof fn lemma_increasing_unique(a: Seq<real>, b: Seq<real>)
    requires
        increasing(a),
        increasing(b),
        forall|i: int| 0 <= i < a.len() ==> b.contains(#[trigger] a[i]),
        forall|i: int| 0 <= i < b.len() ==> a.contains(#[trigger] b[i]),
    ensures
        a == b,
    decreases a.len(),
{
    if a.len() == 0 {
        if b.len() > 0 {
            assert(a.contains(b[0]));
        }
        assert(a =~= b);
    } else {
        assert(b.contains(a[0]));
        let x = a[a.len() - 1];
        let y = b[b.len() - 1];
        let i = choose|i: int| 0 <= i < b.len() && b[i] == x;
        let j = choose|j: int| 0 <= j < a.len() && a[j] == y;
        assert(a.contains(y) && b.contains(x));
        if i < b.len() - 1 {
            assert(b[i] < b[b.len() - 1]);
        }
        if j < a.len() - 1 {
            assert(a[j] < a[a.len() - 1]);
        }
        assert(x == y);
        let c = a.drop_last();
        let d = b.drop_last();
        assert forall|k: int| 0 <= k < c.len() implies d.contains(#[trigger] c[k]) by {
            assert(c[k] == a[k]);
            assert(a[k] < a[a.len() - 1]);
            let m = choose|m: int| 0 <= m < b.len() && b[m] == a[k];
            assert(m < b.len() - 1);
            assert(d[m] == c[k]);
        }
        assert forall|k: int| 0 <= k < d.len() implies c.contains(#[trigger] d[k]) by {
            assert(d[k] == b[k]);
            assert(b[k] < b[b.len() - 1]);
            let m = choose|m: int| 0 <= m < a.len() && a[m] == b[k];
            assert(m < a.len() - 1);
            assert(c[m] == d[k]);
        }
        assert(increasing(c)) by {
            assert forall|i: int, j: int| 0 <= i < j < c.len() implies (#[trigger] c[i]) < (
            #[trigger] c[j]) by {
                assert(a[i] < a[j]);
            }
        }
        assert(increasing(d)) by {
            assert forall|i: int, j: int| 0 <= i < j < d.len() implies (#[trigger] d[i]) < (
            #[trigger] d[j]) by {
                assert(b[i] < b[j]);
            }
        }
        lemma_increasing_unique(c, d);
        assert(a =~= c.push(x));
        assert(b =~= d.push(y));
    }
}

/// Slots that take on the onsets of others, and leave none out, have the same onsets.
proof fn lemma_same_onsets(s: Seq<SlotView>, u: Seq<SlotView>)
    requires
        separated(s),
        forall|i: int| 0 <= i < u.len() ==> onsets(s).contains((#[trigger] u[i]).at),
        forall|k: int|
            0 <= k < onsets(s).len() ==> exists|i: int|
                0 <= i < u.len() && (#[trigger] u[i]).at == #[trigger] onsets(s)[k],
    ensures
        separated(u),
        onsets(u) == onsets(s),
{
    let on = onsets(s);
    lemma_onset_members(s);
    assert(separated(u)) by {
        assert forall|i: int, j: int| 0 <= i < u.len() && 0 <= j < u.len() implies (
        #[trigger] u[i]).at == (#[trigger] u[j]).at || !near(u[i].at, u[j].at) by {
            let a = choose|a: int| 0 <= a < on.len() && on[a] == u[i].at;
            let b = choose|b: int| 0 <= b < on.len() && on[b] == u[j].at;
            let c = choose|c: int| 0 <= c < s.len() && s[c].at == on[a];
            let d = choose|d: int| 0 <= d < s.len() && s[d].at == on[b];
            assert(s[c].at == s[d].at || !near(s[c].at, s[d].at));
        }
    }
    lemma_onsets_apart(s);
    lemma_onsets_apart(u);
    lemma_onset_members(u);
    let un = onsets(u);
    assert forall|k: int| 0 <= k < un.len() implies on.contains(#[trigger] un[k]) by {
        let i = choose|i: int| 0 <= i < u.len() && u[i].at == un[k];
        assert(on.contains(u[i].at));
    }
    assert forall|k: int| 0 <= k < on.len() implies un.contains(#[trigger] on[k]) by {
        let i = choose|i: int| 0 <= i < u.len() && u[i].at == on[k];
        let m = onset_of(un, u[i].at);
        assert(un[m] == on[k]);
    }
    lemma_increasing_unique(un, on);
}

/// `rev` keeps every token and its place in the pattern; slots that start together go on doing so,
/// and of two others the later one comes first.
pub proof fn rev_turns_the_order_round(s: Seq<SlotView>)
    requires
        separated(s),
    ensures
        reversed(s).len() == s.len(),
        forall|i: int| 0 <= i < s.len() ==> (#[trigger] reversed(s)[i]).token == s[i].token,
        forall|i: int, j: int|
            0 <= i < s.len() && 0 <= j < s.len() ==> (s[i].at < s[j].at <==> (#[trigger] reversed(
                s,
            )[i]).at > (#[trigger] reversed(s)[j]).at),
{
    lemma_onsets_apart(s);
    let on = onsets(s);
    assert forall|i: int, j: int| 0 <= i < s.len() && 0 <= j < s.len() implies (s[i].at < s[j].at
        <==> (#[trigger] reversed(s)[i]).at > (#[trigger] reversed(s)[j]).at) by {
        let a = onset_of(on, s[i].at);
        let b = onset_of(on, s[j].at);
        assert(on[a] == s[i].at && on[b] == s[j].at);
        let n = on.len() as int;
        if a < b {
            assert(on[a] < on[b]);
            assert(on[n - 1 - b] < on[n - 1 - a]);
        } else if b < a {
            assert(on[b] < on[a]);
            assert(on[n - 1 - a] < on[n - 1 - b]);
        }
    }
}

/// `rev` twice gives back what it was given.
pub proof fn rev_undoes_rev(s: Seq<SlotView>)
    requires
        separated(s),
    ensures
        reversed(reversed(s)) == s,
{
    lemma_onsets_apart(s);
    lemma_onset_members(s);
    let on = onsets(s);
    let n = on.len() as int;
    let u = reversed(s);
    assert forall|i: int| 0 <= i < u.len() implies on.contains((#[trigger] u[i]).at) by {
        let a = onset_of(on, s[i].at);
        assert(on[n - 1 - a] == u[i].at);
    }
    assert forall|k: int| 0 <= k < on.len() implies exists|i: int|
        0 <= i < u.len() && (#[trigger] u[i]).at == #[trigger] on[k] by {
        let i = choose|i: int| 0 <= i < s.len() && s[i].at == on[n - 1 - k];
        assert(onset_of(on, on[n - 1 - k]) == n - 1 - k);
        assert(u[i].at == on[k]);
    }
    lemma_same_onsets(s, u);
    assert forall|i: int| 0 <= i < s.len() implies reversed(u)[i] == s[i] by {
        let a = onset_of(on, s[i].at);
        assert(u[i].at == on[n - 1 - a]);
        assert(onset_of(on, on[n - 1 - a]) == n - 1 - a);
        assert(on[a] == s[i].at);
    }
    assert(reversed(u) =~= s);
}

/// Rotations add up, and rotating by nothing changes nothing.
pub proof fn rotations_add_up(s: Seq<SlotView>, a: int, b: int)
    requires
        separated(s),
    ensures
        rotated(rotated(s, a), b) == rotated(s, a + b),
        rotated(s, 0) == s,
{
    lemma_onsets_apart(s);
    lemma_onset_members(s);
    let on = onsets(s);
    let n = on.len() as int;
    let u = rotated(s, a);
    assert forall|i: int| 0 <= i < u.len() implies on.contains((#[trigger] u[i]).at) by {
        let k = (onset_of(on, s[i].at) + a) % n;
        vstd::arithmetic::div_mod::lemma_mod_bound(onset_of(on, s[i].at) + a, n);
        assert(on[k] == u[i].at);
    }
    assert forall|k: int| 0 <= k < on.len() implies exists|i: int|
        0 <= i < u.len() && (#[trigger] u[i]).at == #[trigger] on[k] by {
        let m = (k - a) % n;
        vstd::arithmetic::div_mod::lemma_mod_bound(k - a, n);
        let i = choose|i: int| 0 <= i < s.len() && s[i].at == on[m];
        assert(onset_of(on, on[m]) == m);
        vstd::arithmetic::div_mod::lemma_add_mod_noop_right(a, k - a, n);
        vstd::arithmetic::div_mod::lemma_small_mod(k as nat, n as nat);
        assert((m + a) % n == k);
        assert(u[i].at == on[k]);
    }
    lemma_same_onsets(s, u);
    assert forall|i: int| 0 <= i < s.len() implies rotated(u, b)[i] == rotated(s, a + b)[i] by {
        let x = onset_of(on, s[i].at);
        let k = (x + a) % n;
        assert(on[x] == s[i].at);
        vstd::arithmetic::div_mod::lemma_mod_bound(x + a, n);
        assert(u[i].at == on[k]);
        assert(onset_of(on, on[k]) == k);
        vstd::arithmetic::div_mod::lemma_add_mod_noop_right(b, x + a, n);
    }
    assert(rotated(u, b) =~= rotated(s, a + b));
    assert forall|i: int| 0 <= i < s.len() implies rotated(s, 0)[i] == s[i] by {
        let x = onset_of(on, s[i].at);
        assert(on[x] == s[i].at);
        vstd::arithmetic::div_mod::lemma_small_mod(x as nat, n as nat);
    }
    assert(rotated(s, 0) =~= s);
}

/// A palindrome plays its steps the same backwards as forwards, after the first.
pub proof fn palindromes_mirror(n: nat, j: int)
    requires
        n > 1,
        0 < j < palindrome_len(n),
    ensures
        palindrome_step(n, j) == palindrome_step(n, palindrome_len(n) - j),
        0 <= palindrome_step(n, j) < n,
{
}

// ---------------------------------------------------------------------------------------------
// Slow
// ---------------------------------------------------------------------------------------------

/// How many slots fall into the first `m` of `k` cycles.
pub open spec fn shared_out(s: Seq<SlotView>, k: nat, m: nat, t0: real, t1: real) -> nat
    decreases m,
{
    if m == 0 {
        0
    } else {
        shared_out(s, k, (m - 1) as nat, t0, t1) + stretched(
            s,
            k,
            (m - 1) as nat,
            t0,
            t1,
        ).len()
    }
}

proof fn lemma_shared_out_last(s: Seq<SlotView>, k: nat, m: nat, t0: real, t1: real)
    requires
        s.len() > 0,
        k > 0,
    ensures
        shared_out(s, k, m, t0, t1) == shared_out(s.drop_last(), k, m, t0, t1) + (if relative(
            s.last().at,
            t0,
            t1,
        ) * (k as real) < m as real {
            1nat
        } else {
            0nat
        }),
    decreases m,
{
    let r = relative(s.last().at, t0, t1);
    let x = r * (k as real);
    assert(x >= 0real) by (nonlinear_arith)
        requires
            r >= 0real,
            k > 0,
            x == r * (k as real),
    ;
    if m > 0 {
        lemma_shared_out_last(s, k, (m - 1) as nat, t0, t1);
    }
}

/// Stretched over `k` cycles, every slot is played in exactly one of them.
pub proof fn slow_shares_out_every_slot(s: Seq<SlotView>, k: nat, t0: real, t1: real)
    requires
        k > 0,
    ensures
        shared_out(s, k, k, t0, t1) == s.len(),
    decreases s.len(),
{
    if s.len() == 0 {
        lemma_shared_out_none(s, k, k, t0, t1);
    } else {
        slow_shares_out_every_slot(s.drop_last(), k, t0, t1);
        lemma_shared_out_last(s, k, k, t0, t1);
        let r = relative(s.last().at, t0, t1);
        assert(r * (k as real) < k as real) by (nonlinear_arith)
            requires
                r < 1real,
                k > 0,
        ;
    }
}

proof fn lemma_shared_out_none(s: Seq<SlotView>, k: nat, m: nat, t0: real, t1: real)
    requires
        s.len() == 0,
    ensures
        shared_out(s, k, m, t0, t1) == 0,
    decreases m,
{
    if m > 0 {
        lemma_shared_out_none(s, k, (m - 1) as nat, t0, t1);
    }
}

// ---------------------------------------------------------------------------------------------
// One branch of several
// ---------------------------------------------------------------------------------------------

/// `<a b>` plays one of its patterns whole, chosen by the number of the cycle: each in its turn.
pub proof fn alternation_plays_one_pattern(
    cs: Seq<PatView>,
    rests: bool,
    cycle: nat,
    t0: real,
    t1: real,
)
    requires
        cs.len() > 0,
    ensures
        ({
            let q = cs[(cycle % cs.len()) as int];
            &&& slots(PatView::Alt(cs), rests, cycle, t0, t1) == slots(q, rests, cycle, t0, t1)
            &&& hits(PatView::Alt(cs), cycle, t0, t1) == hits(q, cycle, t0, t1)
        }),
        (cycle + cs.len()) as nat % cs.len() == cycle % cs.len(),
{
    vstd::arithmetic::div_mod::lemma_mod_add_multiples_vanish(cycle as int, cs.len() as int);
}

/// `every n` plays its first pattern whole on the cycles whose number `n` divides, and its second
/// one whole on all others.
pub proof fn every_plays_one_pattern(
    n: u32,
    first: PatView,
    second: PatView,
    rests: bool,
    cycle: nat,
    t0: real,
    t1: real,
)
    ensures
        ({
            let p = PatView::Every(n, Box::new(first), Box::new(second));
            let q = if n > 0 && cycle % (n as nat) == 0 {
                first
            } else {
                second
            };
            &&& slots(p, rests, cycle, t0, t1) == slots(q, rests, cycle, t0, t1)
            &&& hits(p, cycle, t0, t1) == hits(q, cycle, t0, t1)
        }),
{
}

// ---------------------------------------------------------------------------------------------
// Euclidean rhythms
// ---------------------------------------------------------------------------------------------

/// How many of the steps `from`, `from + 1`, ... carry a pulse, `count` of them.
pub open spec fn gates(k: nat, n: nat, from: nat, count: nat) -> nat
    decreases count,
{
    if count == 0 {
        0
    } else {
        gates(k, n, from, (count - 1) as nat) + (if euclid_gate(
            k,
            n,
            (from + count - 1) as nat % n,
        ) {
            1nat
        } else {
            0nat
        })
    }
}

proof fn lemma_pulses_len(
    k: nat,
    n: nat,
    r: nat,
    token: Seq<char>,
    step: nat,
    t0: real,
    t1: real,
)
    ensures
        pulses(k, n, r, token, step, t0, t1).len() == gates(k, n, r, step),
    decreases step,
{
    if step > 0 {
        lemma_pulses_len(k, n, r, token, (step - 1) as nat, t0, t1);
        assert((step - 1) + r == r + step - 1);
    }
}

/// From step 0 on, the pulses keep up with the line of slope `k/n`.
proof fn lemma_gates_from_zero(k: nat, n: nat, m: nat)
    requires
        1 <= k <= n,
        1 <= m <= n,
    ensures
        gates(k, n, 0, m) == (((m - 1) * k) as nat / n) + 1,
    decreases m,
{
    let i = (m - 1) as nat;
    vstd::arithmetic::div_mod::lemma_small_mod(i, n);
    if m == 1 {
        assert((0 * k) as nat == 0) by (nonlinear_arith);
        assert(gates(k, n, 0, 0) == 0);
        assert(0nat % n == 0);
        assert(0nat / n == 0) by (nonlinear_arith)
            requires
                n > 0,
        ;
        assert(euclid_gate(k, n, 0));
    } else {
        lemma_gates_from_zero(k, n, i);
        let a = ((i - 1) * k) as nat;
        let b = (i * k) as nat;
        assert(i * k == (i - 1) * k + k) by (nonlinear_arith);
        assert((i - 1) * k >= 0) by (nonlinear_arith)
            requires
                i >= 1,
                k >= 1,
        ;
        let q = a as int / n as int;
        let c = a as int % n as int;
        vstd::arithmetic::div_mod::lemma_fundamental_div_mod(a as int, n as int);
        vstd::arithmetic::div_mod::lemma_mod_bound(a as int, n as int);
        if c + k < n {
            assert(b as int == q * n as int + (c + k)) by (nonlinear_arith)
                requires
                    a as int == n as int * q + c,
                    b == a + k,
            ;
            vstd::arithmetic::div_mod::lemma_fundamental_div_mod_converse(
                b as int,
                n as int,
                q,
                c + k,
            );
            assert(!euclid_gate(k, n, i));
        } else {
            assert(b as int == (q + 1) * n as int + (c + k - n)) by (nonlinear_arith)
                requires
                    a as int == n as int * q + c,
                    b == a + k,
            ;
            vstd::arithmetic::div_mod::lemma_fundamental_div_mod_converse(
                b as int,
                n as int,
                q + 1,
                c + k - n,
            );
            assert(euclid_gate(k, n, i));
        }
    }
}

/// Going round once, it does not matter where one begins.
proof fn lemma_gates_shift(k: nat, n: nat, from: nat, count: nat)
    requires
        n > 0,
    ensures
        gates(k, n, from + 1, count) + (if euclid_gate(k, n, from % n) {
            1nat
        } else {
            0nat
        }) == gates(k, n, from, count + 1),
    decreases count,
{
    if count > 0 {
        lemma_gates_shift(k, n, from, (count - 1) as nat);
        assert((from + 1 + count - 1) as nat == (from + (count + 1) - 1) as nat);
    } else {
        assert(gates(k, n, from, 1) == gates(k, n, from, 0) + (if euclid_gate(k, n, from % n) {
            1nat
        } else {
            0nat
        }));
    }
}

proof fn lemma_gates_round(k: nat, n: nat, r: nat)
    requires
        n > 0,
    ensures
        gates(k, n, r, n) == gates(k, n, 0, n),
    decreases r,
{
    if r > 0 {
        let f = (r - 1) as nat;
        lemma_gates_round(k, n, f);
        lemma_gates_shift(k, n, f, n);
        assert(gates(k, n, f, (n + 1) as nat) == gates(k, n, f, n) + (if euclid_gate(
            k,
            n,
            (f + n) as nat % n,
        ) {
            1nat
        } else {
            0nat
        }));
        vstd::arithmetic::div_mod::lemma_mod_add_multiples_vanish(f as int, n as int);
        assert((f + n) as nat % n == f % n);
    }
}

/// A Euclidean rhythm of `k` pulses in `n` steps has exactly `k` hits, however it is rotated.
pub proof fn euclid_has_exactly_its_pulses(
    k: nat,
    n: nat,
    r: nat,
    token: Seq<char>,
    t0: real,
    t1: real,
)
    requires
        k <= n,
    ensures
        pulses(k, n, r, token, n, t0, t1).len() == k,
{
    lemma_pulses_len(k, n, r, token, n, t0, t1);
    if n > 0 {
        lemma_gates_round(k, n, r);
        if k == 0 {
            lemma_no_gates(n, n);
        } else {
            lemma_gates_from_zero(k, n, n);
            assert(((n - 1) * k) as nat / n == k - 1) by {
                assert((n - 1) * k == (k - 1) * n + (n - k)) by (nonlinear_arith);
                vstd::arithmetic::div_mod::lemma_fundamental_div_mod_converse(
                    (n - 1) * k,
                    n as int,
                    k - 1,
                    n - k,
                );
            }
        }
    }
}

/// Where step `a` leaves `r` over, the step `e` later leaves the rest of `r + e * k` over.
proof fn lemma_step_on(k: nat, n: nat, a: nat, e: nat)
    requires
        n > 0,
    ensures
        (((a + e) as nat % n) * k) % n == ((a * k) % n + e * k) as nat % n,
{
    let b = (a + e) as nat;
    vstd::arithmetic::div_mod::lemma_mul_mod_noop_left(b as int, k as int, n as int);
    assert((((b as int) % (n as int)) * k as int) % (n as int) == (b * k) as int % (n as int));
    assert(b * k == a * k + e * k) by (nonlinear_arith)
        requires
            b == a + e,
    ;
    vstd::arithmetic::div_mod::lemma_add_mod_noop_right((e * k) as int, (a * k) as int, n as int);
}

/// The first step carries a pulse, `k` of the `n` steps do, and the way from each pulse to the next,
/// round the cycle, is `n / k` steps, rounded down or up.
pub proof fn euclid_pulses_are_evenly_spaced(k: nat, n: nat, a: nat)
    requires
        1 <= k <= n,
        a < n,
        euclid_gate(k, n, a),
    ensures
        euclid_gate(k, n, 0),
        gates(k, n, 0, n) == k,
        exists|d: nat|
            #![trigger euclid_gate(k, n, (a + d) as nat % n)]
            {
                &&& d == n / k || d == (n + k - 1) as nat / k
                &&& d >= 1
                &&& euclid_gate(k, n, (a + d) as nat % n)
                &&& forall|e: nat|
                    0 < e < d ==> !#[trigger] euclid_gate(k, n, (a + e) as nat % n)
            },
{
    assert((0 * k) as nat == 0) by (nonlinear_arith);
    assert(0nat % n == 0);
    lemma_gates_from_zero(k, n, n);
    assert(((n - 1) * k) as nat / n == k - 1) by {
        assert((n - 1) * k == (k - 1) * n + (n - k)) by (nonlinear_arith);
        vstd::arithmetic::div_mod::lemma_fundamental_div_mod_converse(
            (n - 1) * k,
            n as int,
            k - 1,
            n - k,
        );
    }
    let r = (a * k) % n;
    let m = (n - r + k - 1) as nat;
    let d = m / k;
    vstd::arithmetic::div_mod::lemma_fundamental_div_mod(m as int, k as int);
    vstd::arithmetic::div_mod::lemma_mod_bound(m as int, k as int);
    assert(k * d == d * k) by (nonlinear_arith);
    assert(n <= r + d * k < n + k);
    // The distance.
    let lo = n / k;
    let hi = (n + k - 1) as nat / k;
    vstd::arithmetic::div_mod::lemma_div_is_ordered(n as int, m as int, k as int);
    vstd::arithmetic::div_mod::lemma_div_is_ordered(m as int, n + k - 1, k as int);
    vstd::arithmetic::div_mod::lemma_fundamental_div_mod(n as int, k as int);
    vstd::arithmetic::div_mod::lemma_mod_bound(n as int, k as int);
    vstd::arithmetic::div_mod::lemma_fundamental_div_mod(n + k - 1, k as int);
    vstd::arithmetic::div_mod::lemma_mod_bound(n + k - 1, k as int);
    assert(lo <= d <= hi);
    assert(hi <= lo + 1) by (nonlinear_arith)
        requires
            k * hi <= n + k - 1,
            n < k * lo + k,
            k >= 1,
    ;
    assert(d >= 1) by (nonlinear_arith)
        requires
            n <= r + d * k,
            r < k,
            k <= n,
    ;
    // Nothing on the way.
    assert forall|e: nat| 0 < e < d implies !#[trigger] euclid_gate(k, n, (a + e) as nat % n) by {
        lemma_step_on(k, n, a, e);
        assert(k <= r + e * k < n) by (nonlinear_arith)
            requires
                1 <= e <= d - 1,
                r + d * k < n + k,
                r >= 0,
                k >= 1,
        ;
        vstd::arithmetic::div_mod::lemma_small_mod((r + e * k) as nat, n);
    }
    // The next one.
    lemma_step_on(k, n, a, d);
    let over = (r + d * k - n) as nat;
    vstd::arithmetic::div_mod::lemma_small_mod(over, n);
    vstd::arithmetic::div_mod::lemma_mod_add_multiples_vanish(over as int, n as int);
    assert(euclid_gate(k, n, (a + d) as nat % n));
}

proof fn lemma_no_gates(n: nat, m: nat)
    ensures
        gates(0, n, 0, m) == 0,
    decreases m,
{
    if m > 0 {
        lemma_no_gates(n, (m - 1) as nat);
    }
}

// ---------------------------------------------------------------------------------------------
// Lanes
// ---------------------------------------------------------------------------------------------

/// Lanes say how hits sound, not which there are: their number, places and tokens are those of
/// the sound alone.
pub proof fn lanes_leave_hits_in_place(
    sound: PatView,
    l: LanesView,
    cycle: nat,
    t0: real,
    t1: real,
)
    requires
        controlled(sound, l, cycle, t0, t1) is Ok,
    ensures
        ({
            let c = controlled(sound, l, cycle, t0, t1)->Ok_0;
            let h = hits(sound, cycle, t0, t1);
            &&& c.len() == h.len()
            &&& forall|i: int|
                0 <= i < h.len() ==> (#[trigger] c[i]).at == h[i].0 && c[i].token == h[i].1
        }),
{
}

/// Every slot of a lane has an entry in its table, so that a rest takes its turn; the rests are the
/// entries that say nothing.
pub proof fn rests_in_lanes_take_their_turn(lane: Lane, s: Seq<SlotView>)
    requires
        lane_values(lane, s) is Ok,
    ensures
        lane_values(lane, s)->Ok_0.len() == s.len(),
        forall|i: int|
            0 <= i < s.len() ==> ((#[trigger] lane_values(lane, s)->Ok_0[i]) is None
                <==> s[i].token is None),
    decreases s.len(),
{
    if s.len() > 0 {
        let d = s.drop_last();
        rests_in_lanes_take_their_turn(lane, d);
        let t = lane_values(lane, s)->Ok_0;
        assert forall|i: int| 0 <= i < s.len() implies ((#[trigger] t[i]) is None
            <==> s[i].token is None) by {
            if i < d.len() {
                assert(d[i] == s[i]);
                assert(t[i] == lane_values(lane, d)->Ok_0[i]);
            }
        }
    }
}

/// A lane repeats across the hits with the length of its table; a lane of one value gives it to
/// every hit.
pub proof fn lanes_repeat<T>(t: Seq<Option<T>>, i: int)
    requires
        t.len() > 0,
        i >= 0,
    ensures
        entry(t, i + t.len()) == entry(t, i),
        t.len() == 1 ==> entry(t, i) == t[0],
{
    vstd::arithmetic::div_mod::lemma_mod_add_multiples_vanish(i, t.len() as int);
    vstd::arithmetic::div_mod::lemma_mod_bound(i, t.len() as int);
}

} // verus!
