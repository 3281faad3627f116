//! Playing patterns: which tokens start when within a cycle.

use vstd::prelude::*;
use vstd::string::StringExecFns;

use crate::order::{lemma_sorted_len, sort, sorted};
use crate::pat::{lemma_list_views, Pat, PatView};
use crate::ratio::Ratio;
use crate::text::{lemma_views_push, views};

verus! {

/// A point in time with the token that starts there, or a rest.
#[derive(Debug)]
pub struct Slot {
    pub at: Ratio,
    pub token: Option<String>,
}

#[verifier::ext_equal]
pub struct SlotView {
    pub at: real,
    pub token: Option<Seq<char>>,
}

pub open spec fn token_view(t: Option<String>) -> Option<Seq<char>> {
    match t {
        Some(s) => Some(s@),
        None => None,
    }
}

impl View for Slot {
    type V = SlotView;

    open spec fn view(&self) -> SlotView {
        SlotView { at: self.at@, token: token_view(self.token) }
    }
}

/// The point `k/n` of the way from `t0` to `t1`.
pub open spec fn point(t0: real, t1: real, k: nat, n: nat) -> real {
    t0 + (t1 - t0) * (k as real / n as real)
}

/// Onsets closer than this count as one.
pub open spec fn near(a: real, b: real) -> bool {
    &&& a - b < 1real / 1000000000real
    &&& b - a < 1real / 1000000000real
}

/// Sorted times without those that are near the one kept before them.
pub open spec fn thinned(s: Seq<real>) -> Seq<real>
    decreases s.len(),
{
    if s.len() == 0 {
        s
    } else {
        let d = thinned(s.drop_last());
        if d.len() > 0 && near(s.last(), d.last()) {
            d
        } else {
            d.push(s.last())
        }
    }
}

pub open spec fn times(s: Seq<SlotView>) -> Seq<real> {
    Seq::new(s.len(), |i: int| s[i].at)
}

/// The different onsets, in order.
pub open spec fn onsets(s: Seq<SlotView>) -> Seq<real> {
    thinned(sorted::<Ratio>(times(s)))
}

/// The first onset at or after position `i` that is near `t`; the first of all if there is none.
pub open spec fn onset_from(on: Seq<real>, t: real, i: int) -> int
    decreases on.len() - i,
{
    if i >= on.len() {
        0
    } else if near(on[i], t) {
        i
    } else {
        onset_from(on, t, i + 1)
    }
}

/// The onset that the time `t` belongs to.
pub open spec fn onset_of(on: Seq<real>, t: real) -> int {
    onset_from(on, t, 0)
}

/// Each slot at the onset as far from the end as its own is from the start.
pub open spec fn reversed(s: Seq<SlotView>) -> Seq<SlotView> {
    let on = onsets(s);
    Seq::new(
        s.len(),
        |i: int| SlotView { at: on[on.len() - 1 - onset_of(on, s[i].at)], token: s[i].token },
    )
}

/// Each slot `steps` onsets further on, round the cycle.
pub open spec fn rotated(s: Seq<SlotView>, steps: int) -> Seq<SlotView> {
    let on = onsets(s);
    Seq::new(
        s.len(),
        |i: int|
            SlotView {
                at: on[(onset_of(on, s[i].at) + steps) % (on.len() as int)],
                token: s[i].token,
            },
    )
}

/// The slots of onset `k`, put at `at`.
pub open spec fn onset_group(s: Seq<SlotView>, on: Seq<real>, k: int, at: real) -> Seq<SlotView>
    decreases s.len(),
{
    if s.len() == 0 {
        s
    } else {
        let before = onset_group(s.drop_last(), on, k, at);
        if onset_of(on, s.last().at) == k {
            before.push(SlotView { at, token: s.last().token })
        } else {
            before
        }
    }
}

/// The number of steps of a palindrome over `n` onsets.
pub open spec fn palindrome_len(n: nat) -> nat {
    if n > 1 {
        (2 * n - 2) as nat
    } else {
        n
    }
}

/// The onset that step `j` of the palindrome plays.
pub open spec fn palindrome_step(n: nat, j: int) -> int {
    if j < n {
        j
    } else {
        2 * n - 2 - j
    }
}

/// The first `j` steps of the palindrome.
pub open spec fn palindrome_upto(
    s: Seq<SlotView>,
    on: Seq<real>,
    j: nat,
    t0: real,
    t1: real,
) -> Seq<SlotView>
    decreases j,
{
    if j == 0 {
        seq![]
    } else {
        let k = (j - 1) as nat;
        palindrome_upto(s, on, k, t0, t1) + onset_group(
            s,
            on,
            palindrome_step(on.len(), k as int),
            point(t0, t1, k, palindrome_len(on.len())),
        )
    }
}

/// The onsets forwards, then backwards without the two ends, shared out evenly.
pub open spec fn palindrome(s: Seq<SlotView>, t0: real, t1: real) -> Seq<SlotView> {
    let on = onsets(s);
    palindrome_upto(s, on, palindrome_len(on.len()), t0, t1)
}

/// Where `at` lies between `t0` and `t1`, as a fraction below one.
pub open spec fn relative(at: real, t0: real, t1: real) -> real {
    let least = 1real / 4503599627370496real;
    let span = if t1 - t0 <= least {
        least
    } else {
        t1 - t0
    };
    let x = (at - t0) / span;
    if x <= 0real {
        0real
    } else if x <= 999999real / 1000000real {
        x
    } else {
        999999real / 1000000real
    }
}

/// The part of a cycle stretched over `k` cycles that falls into the one numbered `slot`.
pub open spec fn stretched(s: Seq<SlotView>, k: nat, slot: nat, t0: real, t1: real) -> Seq<SlotView>
    decreases s.len(),
{
    if s.len() == 0 {
        s
    } else {
        let before = stretched(s.drop_last(), k, slot, t0, t1);
        let x = relative(s.last().at, t0, t1) * (k as real);
        if slot as real <= x < slot as real + 1real {
            before.push(
                SlotView { at: t0 + (x - slot as real) * (t1 - t0), token: s.last().token },
            )
        } else {
            before
        }
    }
}

/// Whether step `idx` of `n` carries one of `k` pulses.
pub open spec fn euclid_gate(k: nat, n: nat, idx: nat) -> bool {
    n > 0 && k > 0 && (idx * k) % n < k
}

/// The pulses of the first `step` steps.
pub open spec fn pulses(
    k: nat,
    n: nat,
    r: nat,
    token: Seq<char>,
    step: nat,
    t0: real,
    t1: real,
) -> Seq<SlotView>
    decreases step,
{
    if step == 0 {
        seq![]
    } else {
        let j = (step - 1) as nat;
        let before = pulses(k, n, r, token, j, t0, t1);
        if euclid_gate(k, n, (j + r) % n) {
            before.push(SlotView { at: point(t0, t1, j, n), token: Some(token) })
        } else {
            before
        }
    }
}

pub open spec fn at_least_one(n: u32) -> nat {
    if n == 0 {
        1
    } else {
        n as nat
    }
}

/// The inner cycle `j` of `m` within `cycle`, as far as cycles can be counted.
pub open spec fn inner_cycle(cycle: nat, m: nat, j: nat) -> nat {
    if cycle * m + j > u64::MAX {
        u64::MAX as nat
    } else {
        cycle * m + j
    }
}

/// The slots of a pattern in a cycle, in the order of the pattern, between `t0` and `t1`. Rests
/// take a slot of their own only where they are asked for.
pub open spec fn slots(p: PatView, rests: bool, cycle: nat, t0: real, t1: real) -> Seq<SlotView>
    decreases p, 0nat,
{
    match p {
        PatView::Sequence(cs) => steps(cs, cs.len(), rests, cycle, t0, t1),
        PatView::Stack(cs) => together(cs, cs.len(), rests, cycle, t0, t1),
        PatView::Layer(cs) => together(cs, cs.len(), rests, cycle, t0, t1),
        PatView::Alt(cs) => if cs.len() == 0 {
            seq![]
        } else {
            slots(cs[(cycle % cs.len()) as int], rests, cycle, t0, t1)
        },
        PatView::Rev(q) => reversed(slots(*q, rests, cycle, t0, t1)),
        PatView::Rot(n, q) => rotated(slots(*q, rests, cycle, t0, t1), n as int),
        PatView::Pal(q) => palindrome(slots(*q, rests, cycle, t0, t1), t0, t1),
        PatView::Every(n, q, base) => if n > 0 && cycle % (n as nat) == 0 {
            slots(*q, rests, cycle, t0, t1)
        } else {
            slots(*base, rests, cycle, t0, t1)
        },
        PatView::Fast(n, q) => hurried(*q, at_least_one(n), at_least_one(n), rests, cycle, t0, t1),
        PatView::Slow(n, q) => stretched(
            slots(*q, rests, cycle / at_least_one(n), t0, t1),
            at_least_one(n),
            cycle % at_least_one(n),
            t0,
            t1,
        ),
        PatView::Euclid(k, n, r, token) => pulses(
            k as nat,
            n as nat,
            r as nat,
            token,
            n as nat,
            t0,
            t1,
        ),
        PatView::Atom(token) => seq![SlotView { at: t0, token: Some(token) }],
        PatView::Rest => if rests {
            seq![SlotView { at: t0, token: None }]
        } else {
            seq![]
        },
    }
}

/// The first `k` of the patterns, each in its share of the time.
pub open spec fn steps(
    cs: Seq<PatView>,
    k: nat,
    rests: bool,
    cycle: nat,
    t0: real,
    t1: real,
) -> Seq<SlotView>
    decreases cs, k,
{
    if k == 0 || k > cs.len() {
        seq![]
    } else {
        let j = (k - 1) as nat;
        steps(cs, j, rests, cycle, t0, t1) + slots(
            cs[j as int],
            rests,
            cycle,
            point(t0, t1, j, cs.len()),
            point(t0, t1, k, cs.len()),
        )
    }
}

/// The first `k` of the patterns, each over the whole time.
pub open spec fn together(
    cs: Seq<PatView>,
    k: nat,
    rests: bool,
    cycle: nat,
    t0: real,
    t1: real,
) -> Seq<SlotView>
    decreases cs, k,
{
    if k == 0 || k > cs.len() {
        seq![]
    } else {
        let j = (k - 1) as nat;
        together(cs, j, rests, cycle, t0, t1) + slots(cs[j as int], rests, cycle, t0, t1)
    }
}

/// The first `k` of `m` inner cycles, each in its share of the time.
pub open spec fn hurried(
    p: PatView,
    k: nat,
    m: nat,
    rests: bool,
    cycle: nat,
    t0: real,
    t1: real,
) -> Seq<SlotView>
    decreases p, k,
{
    if k == 0 {
        seq![]
    } else {
        let j = (k - 1) as nat;
        hurried(p, j, m, rests, cycle, t0, t1) + slots(
            p,
            rests,
            inner_cycle(cycle, m, j),
            point(t0, t1, j, m),
            point(t0, t1, k, m),
        )
    }
}

/// The slots that sound, with their tokens.
pub open spec fn sounding(s: Seq<SlotView>) -> Seq<(real, Seq<char>)>
    decreases s.len(),
{
    if s.len() == 0 {
        seq![]
    } else {
        match s.last().token {
            Some(token) => sounding(s.drop_last()).push((s.last().at, token)),
            None => sounding(s.drop_last()),
        }
    }
}

/// The hits of a pattern in a cycle, in the order of the pattern.
pub open spec fn hits(p: PatView, cycle: nat, t0: real, t1: real) -> Seq<(real, Seq<char>)> {
    sounding(slots(p, false, cycle, t0, t1))
}

// ---------------------------------------------------------------------------------------------
// Onsets
// ---------------------------------------------------------------------------------------------

fn is_near(a: &Ratio, b: &Ratio) -> (r: bool)
    ensures
        r == near(a@, b@),
{
    let tolerance = Ratio::fraction(1, 1_000_000_000);
    a.minus(b).below(&tolerance) && b.minus(a).below(&tolerance)
}

fn sorted_unique_onsets(s: &Vec<Slot>) -> (r: Vec<Ratio>)
    ensures
        views(r@) == onsets(views(s@)),
        r@.len() <= s@.len(),
        s@.len() > 0 ==> r@.len() > 0,
{
    let ghost all = views(s@);
    let mut ts: Vec<Ratio> = Vec::new();
    let mut i: usize = 0;
    assert(views(ts@) =~= times(all).take(0));
    while i < s.len()
        invariant
            i <= s@.len(),
            all == views(s@),
            views(ts@) == times(all).take(i as int),
        decreases s@.len() - i,
    {
        let t = s[i].at.duplicate();
        proof {
            lemma_views_push(ts@, t);
            assert(times(all).take(i + 1) =~= times(all).take(i as int).push(t@));
        }
        ts.push(t);
        i += 1;
    }
    assert(times(all).take(i as int) =~= times(all));
    let ts = sort(ts);
    let ghost st = views(ts@);
    proof {
        lemma_sorted_len::<Ratio>(times(all));
    }
    let mut out: Vec<Ratio> = Vec::new();
    let mut k: usize = 0;
    assert(views(out@) =~= thinned(st.take(0)));
    while k < ts.len()
        invariant
            k <= ts@.len(),
            st == views(ts@),
            out@.len() <= k,
            k > 0 ==> out@.len() > 0,
            views(out@) == thinned(st.take(k as int)),
        decreases ts@.len() - k,
    {
        proof {
            assert(st.take(k + 1).drop_last() =~= st.take(k as int));
            assert(st.take(k + 1).last() == ts@[k as int]@);
            if out@.len() > 0 {
                assert(views(out@).last() == out@[out@.len() - 1]@);
            }
        }
        if out.len() == 0 || !is_near(&ts[k], &out[out.len() - 1]) {
            let t = ts[k].duplicate();
            proof {
                lemma_views_push(out@, t);
            }
            out.push(t);
        }
        k += 1;
    }
    assert(st.take(k as int) =~= st);
    out
}

fn onset_index(on: &Vec<Ratio>, t: &Ratio) -> (r: usize)
    ensures
        r == onset_of(views(on@), t@),
        on@.len() > 0 ==> r < on@.len(),
{
    let ghost s = views(on@);
    let mut i: usize = 0;
    while i < on.len()
        invariant
            i <= on@.len(),
            s == views(on@),
            onset_of(s, t@) == onset_from(s, t@, i as int),
        decreases on@.len() - i,
    {
        assert(s[i as int] == on@[i as int]@);
        if is_near(&on[i], t) {
            return i;
        }
        i += 1;
    }
    0
}

fn copy_token(t: &Option<String>) -> (r: Option<String>)
    ensures
        token_view(r) == token_view(*t),
{
    match t {
        Some(s) => Some(String::from_str(s.as_str())),
        None => None,
    }
}

// ---------------------------------------------------------------------------------------------
// Transforms
// ---------------------------------------------------------------------------------------------

fn reverse(s: &Vec<Slot>) -> (r: Vec<Slot>)
    ensures
        views(r@) == reversed(views(s@)),
{
    let ghost all = views(s@);
    let on = sorted_unique_onsets(s);
    let ghost ons = views(on@);
    let mut out: Vec<Slot> = Vec::new();
    let mut i: usize = 0;
    assert(views(out@) =~= reversed(all).take(0));
    while i < s.len()
        invariant
            i <= s@.len(),
            all == views(s@),
            ons == views(on@),
            ons == onsets(all),
            s@.len() > 0 ==> on@.len() > 0,
            views(out@) == reversed(all).take(i as int),
        decreases s@.len() - i,
    {
        let k = onset_index(&on, &s[i].at);
        let slot = Slot { at: on[on.len() - 1 - k].duplicate(), token: copy_token(&s[i].token) };
        proof {
            lemma_views_push(out@, slot);
            assert(all[i as int] == s@[i as int]@);
            assert(ons[ons.len() - 1 - k] == on@[on@.len() - 1 - k]@);
            assert(reversed(all).take(i + 1) =~= reversed(all).take(i as int).push(slot@));
        }
        out.push(slot);
        i += 1;
    }
    assert(reversed(all).take(i as int) =~= reversed(all));
    out
}

/// `steps` reduced to the range from 0 up to `n`.
fn steps_within(steps: i32, n: usize) -> (r: usize)
    requires
        n > 0,
    ensures
        r == steps as int % n as int,
        r < n,
{
    if steps >= 0 {
        let x: u64 = steps as u64;
        proof {
            vstd::arithmetic::div_mod::lemma_mod_bound(steps as int, n as int);
        }
        (x % (n as u64)) as usize
    } else {
        let x: u64 = (-(steps as i64)) as u64;
        let m: usize = (x % (n as u64)) as usize;
        proof {
            let q = x as int / n as int;
            vstd::arithmetic::div_mod::lemma_fundamental_div_mod(x as int, n as int);
            if m == 0 {
                assert(steps as int == n as int * (-q)) by (nonlinear_arith)
                    requires
                        -(steps as int) == n as int * q,
                ;
                vstd::arithmetic::div_mod::lemma_fundamental_div_mod_converse(
                    steps as int,
                    n as int,
                    -q,
                    0,
                );
            } else {
                assert(steps as int == n as int * (-q - 1) + (n - m)) by (nonlinear_arith)
                    requires
                        -(steps as int) == n as int * q + m,
                ;
                vstd::arithmetic::div_mod::lemma_fundamental_div_mod_converse(
                    steps as int,
                    n as int,
                    -q - 1,
                    n - m,
                );
            }
        }
        if m == 0 {
            0
        } else {
            n - m
        }
    }
}

fn rotate(s: &Vec<Slot>, steps: i32) -> (r: Vec<Slot>)
    ensures
        views(r@) == rotated(views(s@), steps as int),
{
    let ghost all = views(s@);
    let ghost goal = rotated(all, steps as int);
    let on = sorted_unique_onsets(s);
    let ghost ons = views(on@);
    let mut out: Vec<Slot> = Vec::new();
    assert(views(out@) =~= goal.take(0));
    if s.len() == 0 {
        assert(goal.take(0) =~= goal);
        return out;
    }
    let n: usize = on.len();
    let shift = steps_within(steps, n);
    let mut i: usize = 0;
    while i < s.len()
        invariant
            i <= s@.len(),
            all == views(s@),
            ons == views(on@),
            ons == onsets(all),
            n == on@.len(),
            n > 0,
            shift < n,
            shift == steps as int % n as int,
            goal == rotated(all, steps as int),
            views(out@) == goal.take(i as int),
        decreases s@.len() - i,
    {
        let k = onset_index(&on, &s[i].at);
        let j: usize = if k < n - shift {
            k + shift
        } else {
            k - (n - shift)
        };
        let slot = Slot { at: on[j].duplicate(), token: copy_token(&s[i].token) };
        proof {
            lemma_views_push(out@, slot);
            assert(all[i as int] == s@[i as int]@);
            assert(ons[j as int] == on@[j as int]@);
            vstd::arithmetic::div_mod::lemma_add_mod_noop_right(k as int, steps as int, n as int);
            assert(j == (k + shift) % n as int) by {
                if k + shift < n {
                    vstd::arithmetic::div_mod::lemma_small_mod((k + shift) as nat, n as nat);
                } else {
                    vstd::arithmetic::div_mod::lemma_small_mod((k + shift - n) as nat, n as nat);
                    vstd::arithmetic::div_mod::lemma_mod_sub_multiples_vanish(
                        k + shift,
                        n as int,
                    );
                }
            }
            assert(goal.take(i + 1) =~= goal.take(i as int).push(slot@));
        }
        out.push(slot);
        i += 1;
    }
    assert(goal.take(i as int) =~= goal);
    out
}

fn push_group(out: &mut Vec<Slot>, s: &Vec<Slot>, on: &Vec<Ratio>, k: usize, at: &Ratio)
    ensures
        views(final(out)@) == views(old(out)@) + onset_group(
            views(s@),
            views(on@),
            k as int,
            at@,
        ),
{
    let ghost all = views(s@);
    let ghost ons = views(on@);
    let ghost before = views(out@);
    let mut i: usize = 0;
    assert(before + onset_group(all.take(0), ons, k as int, at@) =~= before);
    while i < s.len()
        invariant
            i <= s@.len(),
            all == views(s@),
            ons == views(on@),
            views(out@) == before + onset_group(all.take(i as int), ons, k as int, at@),
        decreases s@.len() - i,
    {
        proof {
            assert(all.take(i + 1).drop_last() =~= all.take(i as int));
            assert(all.take(i + 1).last() == s@[i as int]@);
        }
        if onset_index(on, &s[i].at) == k {
            let slot = Slot { at: at.duplicate(), token: copy_token(&s[i].token) };
            proof {
                lemma_views_push(out@, slot);
                let g = onset_group(all.take(i as int), ons, k as int, at@);
                assert((before + g).push(slot@) =~= before + g.push(slot@));
            }
            out.push(slot);
        }
        i += 1;
    }
    assert(all.take(i as int) =~= all);
}

fn mirror(s: &Vec<Slot>, t0: &Ratio, t1: &Ratio) -> (r: Vec<Slot>)
    ensures
        views(r@) == palindrome(views(s@), t0@, t1@),
{
    let ghost all = views(s@);
    let on = sorted_unique_onsets(s);
    let ghost ons = views(on@);
    let n: usize = on.len();
    let len: u128 = if n > 1 {
        2 * (n as u128) - 2
    } else {
        n as u128
    };
    let mut out: Vec<Slot> = Vec::new();
    let mut j: u128 = 0;
    assert(views(out@) =~= palindrome_upto(all, ons, 0, t0@, t1@));
    while j < len
        invariant
            j <= len,
            n == on@.len(),
            len == palindrome_len(n as nat),
            all == views(s@),
            ons == views(on@),
            views(out@) == palindrome_upto(all, ons, j as nat, t0@, t1@),
        decreases len - j,
    {
        let k: usize = if j < n as u128 {
            j as usize
        } else {
            (len - j) as usize
        };
        let at = Ratio::between(t0, t1, j, len);
        push_group(&mut out, s, &on, k, &at);
        j += 1;
    }
    out
}

fn relative_to(at: &Ratio, t0: &Ratio, t1: &Ratio) -> (r: Ratio)
    ensures
        r@ == relative(at@, t0@, t1@),
{
    let least = Ratio::fraction(1, 4503599627370496);
    let d = t1.minus(t0);
    let span = if d.at_most(&least) {
        least
    } else {
        d
    };
    let x = at.minus(t0).over(&span);
    if x.at_most(&Ratio::zero()) {
        return Ratio::zero();
    }
    let top = Ratio::fraction(999_999, 1_000_000);
    if x.at_most(&top) {
        x
    } else {
        top
    }
}

fn push_stretched(out: &mut Vec<Slot>, s: &Vec<Slot>, k: u32, slot: u64, t0: &Ratio, t1: &Ratio)
    ensures
        views(final(out)@) == views(old(out)@) + stretched(
            views(s@),
            k as nat,
            slot as nat,
            t0@,
            t1@,
        ),
{
    let ghost all = views(s@);
    let ghost before = views(out@);
    let from = Ratio::from_u64(slot);
    let to = from.plus(&Ratio::one());
    let span = t1.minus(t0);
    let factor = Ratio::from_u64(k as u64);
    let mut i: usize = 0;
    assert(before + stretched(all.take(0), k as nat, slot as nat, t0@, t1@) =~= before);
    while i < s.len()
        invariant
            i <= s@.len(),
            all == views(s@),
            from@ == slot as real,
            to@ == slot as real + 1real,
            span@ == t1@ - t0@,
            factor@ == k as real,
            views(out@) == before + stretched(
                all.take(i as int),
                k as nat,
                slot as nat,
                t0@,
                t1@,
            ),
        decreases s@.len() - i,
    {
        proof {
            assert(all.take(i + 1).drop_last() =~= all.take(i as int));
            assert(all.take(i + 1).last() == s@[i as int]@);
        }
        let x = relative_to(&s[i].at, t0, t1).times(&factor);
        if from.at_most(&x) && x.below(&to) {
            let hit = Slot {
                at: t0.plus(&x.minus(&from).times(&span)),
                token: copy_token(&s[i].token),
            };
            proof {
                lemma_views_push(out@, hit);
                let g = stretched(all.take(i as int), k as nat, slot as nat, t0@, t1@);
                assert((before + g).push(hit@) =~= before + g.push(hit@));
            }
            out.push(hit);
        }
        i += 1;
    }
    assert(all.take(i as int) =~= all);
}

fn gate(k: u32, n: u32, idx: u32) -> (r: bool)
    ensures
        r == euclid_gate(k as nat, n as nat, idx as nat),
{
    if n == 0 || k == 0 {
        return false;
    }
    assert(idx as u64 * k as u64 <= 0xffff_ffff * 0xffff_ffff) by (nonlinear_arith)
        requires
            idx <= 0xffff_ffff,
            k <= 0xffff_ffff,
    ;
    (idx as u64 * k as u64) % (n as u64) < k as u64
}

fn push_pulses(out: &mut Vec<Slot>, k: u32, n: u32, r: u32, token: &String, t0: &Ratio, t1: &Ratio)
    ensures
        views(final(out)@) == views(old(out)@) + pulses(
            k as nat,
            n as nat,
            r as nat,
            token@,
            n as nat,
            t0@,
            t1@,
        ),
{
    let ghost before = views(out@);
    let mut step: u32 = 0;
    assert(before + pulses(k as nat, n as nat, r as nat, token@, 0, t0@, t1@) =~= before);
    while step < n
        invariant
            step <= n,
            views(out@) == before + pulses(
                k as nat,
                n as nat,
                r as nat,
                token@,
                step as nat,
                t0@,
                t1@,
            ),
        decreases n - step,
    {
        let idx: u32 = ((step as u64 + r as u64) % (n as u64)) as u32;
        if gate(k, n, idx) {
            let hit = Slot {
                at: Ratio::between(t0, t1, step as u128, n as u128),
                token: Some(String::from_str(token.as_str())),
            };
            proof {
                lemma_views_push(out@, hit);
                let g = pulses(k as nat, n as nat, r as nat, token@, step as nat, t0@, t1@);
                assert((before + g).push(hit@) =~= before + g.push(hit@));
            }
            out.push(hit);
        }
        step += 1;
    }
}

fn push_all(out: &mut Vec<Slot>, more: Vec<Slot>)
    ensures
        views(final(out)@) == views(old(out)@) + views(more@),
{
    let ghost before = out@;
    let mut more = more;
    let ghost added = more@;
    out.append(&mut more);
    assert(views(before + added) =~= views(before) + views(added));
}

// ---------------------------------------------------------------------------------------------
// Patterns
// ---------------------------------------------------------------------------------------------

fn push_steps(out: &mut Vec<Slot>, cs: &Vec<Pat>, rests: bool, cycle: u64, t0: &Ratio, t1: &Ratio)
    ensures
        views(final(out)@) == views(old(out)@) + steps(
            views(cs@),
            cs@.len(),
            rests,
            cycle as nat,
            t0@,
            t1@,
        ),
    decreases cs, 0nat,
{
    let ghost before = views(out@);
    let ghost all = views(cs@);
    let n: usize = cs.len();
    let mut k: usize = 0;
    assert(before + steps(all, 0, rests, cycle as nat, t0@, t1@) =~= before);
    while k < n
        invariant
            k <= n,
            n == cs@.len(),
            all == views(cs@),
            views(out@) == before + steps(all, k as nat, rests, cycle as nat, t0@, t1@),
        decreases n - k,
    {
        let a = Ratio::between(t0, t1, k as u128, n as u128);
        let b = Ratio::between(t0, t1, (k + 1) as u128, n as u128);
        eval_inner(&cs[k], rests, cycle, &a, &b, out);
        proof {
            let s = steps(all, k as nat, rests, cycle as nat, t0@, t1@);
            let x = slots(all[k as int], rests, cycle as nat, a@, b@);
            assert((before + s) + x =~= before + (s + x));
        }
        k += 1;
    }
}

fn push_together(out: &mut Vec<Slot>, cs: &Vec<Pat>, rests: bool, cycle: u64, t0: &Ratio, t1: &Ratio)
    ensures
        views(final(out)@) == views(old(out)@) + together(
            views(cs@),
            cs@.len(),
            rests,
            cycle as nat,
            t0@,
            t1@,
        ),
    decreases cs, 0nat,
{
    let ghost before = views(out@);
    let ghost all = views(cs@);
    let n: usize = cs.len();
    let mut k: usize = 0;
    assert(before + together(all, 0, rests, cycle as nat, t0@, t1@) =~= before);
    while k < n
        invariant
            k <= n,
            n == cs@.len(),
            all == views(cs@),
            views(out@) == before + together(all, k as nat, rests, cycle as nat, t0@, t1@),
        decreases n - k,
    {
        eval_inner(&cs[k], rests, cycle, t0, t1, out);
        proof {
            let s = together(all, k as nat, rests, cycle as nat, t0@, t1@);
            let x = slots(all[k as int], rests, cycle as nat, t0@, t1@);
            assert((before + s) + x =~= before + (s + x));
        }
        k += 1;
    }
}

/// The number of an inner cycle, as far as cycles can be counted.
pub fn cycle_within(cycle: u64, m: u32, j: u32) -> (r: u64)
    ensures
        r == inner_cycle(cycle as nat, m as nat, j as nat),
{
    assert(cycle as u128 * m as u128 <= 0xffff_ffff_ffff_ffff * 0xffff_ffff) by (nonlinear_arith)
        requires
            cycle <= 0xffff_ffff_ffff_ffff,
            m <= 0xffff_ffff,
    ;
    let x: u128 = cycle as u128 * m as u128 + j as u128;
    if x > u64::MAX as u128 {
        u64::MAX
    } else {
        x as u64
    }
}

fn push_hurried(out: &mut Vec<Slot>, p: &Pat, m: u32, rests: bool, cycle: u64, t0: &Ratio, t1: &Ratio)
    requires
        m > 0,
    ensures
        views(final(out)@) == views(old(out)@) + hurried(
            p@,
            m as nat,
            m as nat,
            rests,
            cycle as nat,
            t0@,
            t1@,
        ),
    decreases p, 1nat,
{
    let ghost before = views(out@);
    let mut j: u32 = 0;
    assert(before + hurried(p@, 0, m as nat, rests, cycle as nat, t0@, t1@) =~= before);
    while j < m
        invariant
            j <= m,
            views(out@) == before + hurried(
                p@,
                j as nat,
                m as nat,
                rests,
                cycle as nat,
                t0@,
                t1@,
            ),
        decreases m - j,
    {
        let a = Ratio::between(t0, t1, j as u128, m as u128);
        let b = Ratio::between(t0, t1, j as u128 + 1, m as u128);
        let c = cycle_within(cycle, m, j);
        eval_inner(p, rests, c, &a, &b, out);
        proof {
            let s = hurried(p@, j as nat, m as nat, rests, cycle as nat, t0@, t1@);
            let x = slots(p@, rests, c as nat, a@, b@);
            assert((before + s) + x =~= before + (s + x));
        }
        j += 1;
    }
}

/// Add the slots of a pattern to `out`.
pub fn eval_inner(p: &Pat, rests: bool, cycle: u64, t0: &Ratio, t1: &Ratio, out: &mut Vec<Slot>)
    ensures
        views(final(out)@) == views(old(out)@) + slots(p@, rests, cycle as nat, t0@, t1@),
    decreases p, 0nat,
{
    match p {
        Pat::Sequence(cs) => {
            proof {
                lemma_list_views(*cs);
            }
            push_steps(out, cs, rests, cycle, t0, t1);
        },
        Pat::Stack(cs) => {
            proof {
                lemma_list_views(*cs);
            }
            push_together(out, cs, rests, cycle, t0, t1);
        },
        Pat::Layer(cs) => {
            proof {
                lemma_list_views(*cs);
            }
            push_together(out, cs, rests, cycle, t0, t1);
        },
        Pat::Alt(cs) => {
            proof {
                lemma_list_views(*cs);
            }
            if cs.len() > 0 {
                let k: usize = (cycle % (cs.len() as u64)) as usize;
                assert(views(cs@)[k as int] == cs@[k as int]@);
                eval_inner(&cs[k], rests, cycle, t0, t1, out);
            } else {
                assert(views(out@) + seq![] =~= views(out@));
            }
        },
        Pat::Rev(q) => {
            let mut inner: Vec<Slot> = Vec::new();
            eval_inner(q, rests, cycle, t0, t1, &mut inner);
            push_all(out, reverse(&inner));
        },
        Pat::Rot(n, q) => {
            let mut inner: Vec<Slot> = Vec::new();
            eval_inner(q, rests, cycle, t0, t1, &mut inner);
            push_all(out, rotate(&inner, *n));
        },
        Pat::Pal(q) => {
            let mut inner: Vec<Slot> = Vec::new();
            eval_inner(q, rests, cycle, t0, t1, &mut inner);
            push_all(out, mirror(&inner, t0, t1));
        },
        Pat::Every(n, q, base) => {
            if *n > 0 && cycle % (*n as u64) == 0 {
                eval_inner(q, rests, cycle, t0, t1, out);
            } else {
                eval_inner(base, rests, cycle, t0, t1, out);
            }
        },
        Pat::Fast(n, q) => {
            let m: u32 = if *n == 0 {
                1
            } else {
                *n
            };
            push_hurried(out, q, m, rests, cycle, t0, t1);
        },
        Pat::Slow(n, q) => {
            let m: u32 = if *n == 0 {
                1
            } else {
                *n
            };
            let mut inner: Vec<Slot> = Vec::new();
            eval_inner(q, rests, cycle / (m as u64), t0, t1, &mut inner);
            push_stretched(out, &inner, m, cycle % (m as u64), t0, t1);
        },
        Pat::Euclid(k, n, r, token) => {
            push_pulses(out, *k, *n, *r, token, t0, t1);
        },
        Pat::Atom(token) => {
            let slot = Slot { at: t0.duplicate(), token: Some(String::from_str(token.as_str())) };
            proof {
                lemma_views_push(out@, slot);
                assert(views(out@).push(slot@) =~= views(out@) + seq![slot@]);
            }
            out.push(slot);
        },
        Pat::Rest => {
            if rests {
                let slot = Slot { at: t0.duplicate(), token: None };
                proof {
                    lemma_views_push(out@, slot);
                    assert(views(out@).push(slot@) =~= views(out@) + seq![slot@]);
                }
                out.push(slot);
            } else {
                assert(views(out@) + seq![] =~= views(out@));
            }
        },
    }
}

/// The slots of a pattern in a cycle, rests among them if they are asked for.
pub fn eval_slots(p: &Pat, rests: bool, cycle: u64, t0: &Ratio, t1: &Ratio) -> (r: Vec<Slot>)
    ensures
        views(r@) == slots(p@, rests, cycle as nat, t0@, t1@),
{
    let mut out: Vec<Slot> = Vec::new();
    assert(views(out@) + slots(p@, rests, cycle as nat, t0@, t1@) =~= slots(
        p@,
        rests,
        cycle as nat,
        t0@,
        t1@,
    ));
    eval_inner(p, rests, cycle, t0, t1, &mut out);
    out
}

/// The hits of a pattern in a cycle: where each starts, between `t0` and `t1`, and its token.
pub fn eval(pat: &Pat, cycle: u64, t0: &Ratio, t1: &Ratio) -> (r: Vec<(Ratio, String)>)
    ensures
        views(r@) == hits(pat@, cycle as nat, t0@, t1@),
{
    let all = eval_slots(pat, false, cycle, t0, t1);
    let ghost s = views(all@);
    let mut out: Vec<(Ratio, String)> = Vec::new();
    assert(views(out@) =~= sounding(s.take(0)));
    for slot in it: all
        invariant
            it.seq() == all@,
            s == views(all@),
            views(out@) == sounding(s.take(it.index())),
    {
        proof {
            let k = it.index();
            assert(s.take(k + 1).drop_last() =~= s.take(k));
            assert(s.take(k + 1).last() == slot@);
        }
        if let Some(token) = slot.token {
            let hit = (slot.at, token);
            proof {
                lemma_views_push(out@, hit);
            }
            out.push(hit);
        }
    }
    assert(s.take(s.len() as int) =~= s);
    out
}

} // verus!
