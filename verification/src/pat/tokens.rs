//! The tokens that a pattern can play.

use vstd::prelude::*;
use vstd::string::StringExecFns;

use crate::pat::eval::{
    at_least_one, hits, hurried, inner_cycle, onset_group, onsets, palindrome, palindrome_len,
    palindrome_step, palindrome_upto, point, pulses, reversed, rotated, slots, sounding, steps,
    stretched, together, SlotView,
};
use crate::pat::{lemma_list_views, Pat, PatView};
use crate::text::{lemma_push_contains, lemma_views_push, views};

verus! {

/// The token occurs in the pattern.
pub open spec fn has_token(p: PatView, token: Seq<char>) -> bool
    decreases p,
{
    match p {
        PatView::Sequence(cs) => exists|i: int| 0 <= i < cs.len() && has_token(#[trigger] cs[i], token),
        PatView::Stack(cs) => exists|i: int| 0 <= i < cs.len() && has_token(#[trigger] cs[i], token),
        PatView::Layer(cs) => exists|i: int| 0 <= i < cs.len() && has_token(#[trigger] cs[i], token),
        PatView::Alt(cs) => exists|i: int| 0 <= i < cs.len() && has_token(#[trigger] cs[i], token),
        PatView::Rev(q) => has_token(*q, token),
        PatView::Rot(n, q) => has_token(*q, token),
        PatView::Pal(q) => has_token(*q, token),
        PatView::Every(n, q, base) => has_token(*q, token) || has_token(*base, token),
        PatView::Fast(n, q) => has_token(*q, token),
        PatView::Slow(n, q) => has_token(*q, token),
        PatView::Euclid(k, n, r, t) => t == token,
        PatView::Atom(t) => t == token,
        PatView::Rest => false,
    }
}

/// The list holds its tokens and those of the pattern.
spec fn grown(before: Seq<Seq<char>>, after: Seq<Seq<char>>, p: PatView) -> bool {
    forall|t: Seq<char>| #[trigger] after.contains(t) <==> before.contains(t) || has_token(p, t)
}

/// The list holds its tokens and those of the first `k` patterns.
spec fn grown_by(before: Seq<Seq<char>>, after: Seq<Seq<char>>, cs: Seq<PatView>, k: int) -> bool {
    forall|t: Seq<char>| #[trigger]
        after.contains(t) <==> before.contains(t) || exists|i: int|
            0 <= i < k && has_token(#[trigger] cs[i], t)
}

fn push_all_tokens(cs: &Vec<Pat>, out: &mut Vec<String>)
    ensures
        grown_by(views(old(out)@), views(final(out)@), views(cs@), cs@.len() as int),
    decreases cs,
{
    let ghost before = views(out@);
    let ghost all = views(cs@);
    let mut k: usize = 0;
    while k < cs.len()
        invariant
            k <= cs@.len(),
            all == views(cs@),
            grown_by(before, views(out@), all, k as int),
        decreases cs@.len() - k,
    {
        let ghost middle = views(out@);
        push_tokens(&cs[k], out);
        proof {
            let after = views(out@);
            assert(all[k as int] == cs@[k as int]@);
            assert forall|t: Seq<char>| #[trigger]
                after.contains(t) <==> before.contains(t) || exists|i: int|
                    0 <= i < k + 1 && has_token(#[trigger] all[i], t) by {
                assert(after.contains(t) <==> middle.contains(t) || has_token(all[k as int], t));
                if exists|i: int| 0 <= i < k && has_token(#[trigger] all[i], t) {
                    let i = choose|i: int| 0 <= i < k && has_token(#[trigger] all[i], t);
                    assert(has_token(all[i], t));
                }
            }
        }
        k += 1;
    }
}

fn push_token(token: &String, out: &mut Vec<String>)
    ensures
        forall|t: Seq<char>| #[trigger]
            views(final(out)@).contains(t) <==> views(old(out)@).contains(t) || t == token@,
{
    let ghost before = views(out@);
    let copy = String::from_str(token.as_str());
    proof {
        lemma_views_push(out@, copy);
        assert forall|t: Seq<char>| #[trigger]
            before.push(copy@).contains(t) <==> before.contains(t) || t == token@ by {
            lemma_push_contains(before, copy@);
        }
    }
    out.push(copy);
}

proof fn lemma_grown_list(
    before: Seq<Seq<char>>,
    after: Seq<Seq<char>>,
    cs: Seq<PatView>,
    p: PatView,
)
    requires
        grown_by(before, after, cs, cs.len() as int),
        p == PatView::Sequence(cs) || p == PatView::Stack(cs) || p == PatView::Layer(cs) || p
            == PatView::Alt(cs),
    ensures
        grown(before, after, p),
{
    assert forall|t: Seq<char>| #[trigger]
        after.contains(t) <==> before.contains(t) || has_token(p, t) by {
        if has_token(p, t) {
            let i = match p {
                PatView::Sequence(v) => choose|i: int|
                    0 <= i < v.len() && has_token(#[trigger] v[i], t),
                PatView::Stack(v) => choose|i: int|
                    0 <= i < v.len() && has_token(#[trigger] v[i], t),
                PatView::Layer(v) => choose|i: int|
                    0 <= i < v.len() && has_token(#[trigger] v[i], t),
                PatView::Alt(v) => choose|i: int|
                    0 <= i < v.len() && has_token(#[trigger] v[i], t),
                _ => 0,
            };
            assert(has_token(cs[i], t));
        }
        if exists|i: int| 0 <= i < cs.len() && has_token(#[trigger] cs[i], t) {
            let i = choose|i: int| 0 <= i < cs.len() && has_token(#[trigger] cs[i], t);
            match p {
                PatView::Sequence(v) => {
                    assert(has_token(v[i], t));
                },
                PatView::Stack(v) => {
                    assert(has_token(v[i], t));
                },
                PatView::Layer(v) => {
                    assert(has_token(v[i], t));
                },
                PatView::Alt(v) => {
                    assert(has_token(v[i], t));
                },
                _ => {},
            }
        }
    }
}

fn push_tokens(p: &Pat, out: &mut Vec<String>)
    ensures
        grown(views(old(out)@), views(final(out)@), p@),
    decreases p,
{
    let ghost before = views(out@);
    match p {
        Pat::Sequence(cs) => {
            proof {
                lemma_list_views(*cs);
            }
            push_all_tokens(cs, out);
            proof {
                lemma_grown_list(before, views(out@), views(cs@), p@);
            }
        },
        Pat::Stack(cs) => {
            proof {
                lemma_list_views(*cs);
            }
            push_all_tokens(cs, out);
            proof {
                lemma_grown_list(before, views(out@), views(cs@), p@);
            }
        },
        Pat::Layer(cs) => {
            proof {
                lemma_list_views(*cs);
            }
            push_all_tokens(cs, out);
            proof {
                lemma_grown_list(before, views(out@), views(cs@), p@);
            }
        },
        Pat::Alt(cs) => {
            proof {
                lemma_list_views(*cs);
            }
            push_all_tokens(cs, out);
            proof {
                lemma_grown_list(before, views(out@), views(cs@), p@);
            }
        },
        Pat::Rev(q) => {
            push_tokens(q, out);
        },
        Pat::Rot(n, q) => {
            push_tokens(q, out);
        },
        Pat::Pal(q) => {
            push_tokens(q, out);
        },
        Pat::Every(n, q, base) => {
            push_tokens(q, out);
            push_tokens(base, out);
        },
        Pat::Fast(n, q) => {
            push_tokens(q, out);
        },
        Pat::Slow(n, q) => {
            push_tokens(q, out);
        },
        Pat::Euclid(k, n, r, token) => {
            push_token(token, out);
        },
        Pat::Atom(token) => {
            push_token(token, out);
        },
        Pat::Rest => {},
    }
}

impl Pat {
    /// The tokens that occur in the pattern.
    pub fn tokens(&self) -> (r: Vec<String>)
        ensures
            forall|t: Seq<char>| #[trigger] views(r@).contains(t) <==> has_token(self@, t),
    {
        let mut out: Vec<String> = Vec::new();
        push_tokens(self, &mut out);
        out
    }
}

// ---------------------------------------------------------------------------------------------
// Laws
// ---------------------------------------------------------------------------------------------

/// What sounds in the slots occurs in the pattern.
pub open spec fn all_from(s: Seq<SlotView>, p: PatView) -> bool {
    forall|i: int|
        0 <= i < s.len() && (#[trigger] s[i]).token is Some ==> has_token(p, s[i].token->0)
}

proof fn lemma_from_sum(a: Seq<SlotView>, b: Seq<SlotView>, p: PatView)
    requires
        all_from(a, p),
        all_from(b, p),
    ensures
        all_from(a + b, p),
{
    assert forall|i: int| 0 <= i < (a + b).len() && (#[trigger] (a + b)[i]).token is Some implies has_token(
        p,
        (a + b)[i].token->0,
    ) by {
        if i < a.len() {
            assert((a + b)[i] == a[i]);
        } else {
            assert((a + b)[i] == b[i - a.len()]);
        }
    }
}

proof fn lemma_group_from(s: Seq<SlotView>, on: Seq<real>, k: int, at: real, p: PatView)
    requires
        all_from(s, p),
    ensures
        all_from(onset_group(s, on, k, at), p),
    decreases s.len(),
{
    if s.len() > 0 {
        let d = s.drop_last();
        assert(all_from(d, p)) by {
            assert forall|i: int| 0 <= i < d.len() && (#[trigger] d[i]).token is Some implies has_token(
                p,
                d[i].token->0,
            ) by {
                assert(s[i] == d[i]);
            }
        }
        lemma_group_from(d, on, k, at, p);
        assert(s[s.len() - 1].token is Some ==> has_token(p, s[s.len() - 1].token->0));
    }
}

proof fn lemma_palindrome_from(
    s: Seq<SlotView>,
    on: Seq<real>,
    j: nat,
    t0: real,
    t1: real,
    p: PatView,
)
    requires
        all_from(s, p),
    ensures
        all_from(palindrome_upto(s, on, j, t0, t1), p),
    decreases j,
{
    if j > 0 {
        let k = (j - 1) as nat;
        let step = palindrome_step(on.len(), k as int);
        let at = point(t0, t1, k, palindrome_len(on.len()));
        lemma_palindrome_from(s, on, k, t0, t1, p);
        lemma_group_from(s, on, step, at, p);
        lemma_from_sum(
            palindrome_upto(s, on, k, t0, t1),
            onset_group(s, on, step, at),
            p,
        );
    }
}

proof fn lemma_stretched_from(s: Seq<SlotView>, k: nat, slot: nat, t0: real, t1: real, p: PatView)
    requires
        all_from(s, p),
    ensures
        all_from(stretched(s, k, slot, t0, t1), p),
    decreases s.len(),
{
    if s.len() > 0 {
        let d = s.drop_last();
        assert(all_from(d, p)) by {
            assert forall|i: int| 0 <= i < d.len() && (#[trigger] d[i]).token is Some implies has_token(
                p,
                d[i].token->0,
            ) by {
                assert(s[i] == d[i]);
            }
        }
        lemma_stretched_from(d, k, slot, t0, t1, p);
        assert(s[s.len() - 1].token is Some ==> has_token(p, s[s.len() - 1].token->0));
    }
}

proof fn lemma_pulses_from(
    k: nat,
    n: nat,
    r: nat,
    token: Seq<char>,
    step: nat,
    t0: real,
    t1: real,
    p: PatView,
)
    requires
        has_token(p, token),
    ensures
        all_from(pulses(k, n, r, token, step, t0, t1), p),
    decreases step,
{
    if step > 0 {
        lemma_pulses_from(k, n, r, token, (step - 1) as nat, t0, t1, p);
    }
}

proof fn lemma_from_wider(s: Seq<SlotView>, p: PatView, q: PatView)
    requires
        all_from(s, p),
        forall|t: Seq<char>| has_token(p, t) ==> #[trigger] has_token(q, t),
    ensures
        all_from(s, q),
{
    assert forall|i: int| 0 <= i < s.len() && (#[trigger] s[i]).token is Some implies has_token(
        q,
        s[i].token->0,
    ) by {
        assert(has_token(p, s[i].token->0));
    }
}

proof fn lemma_slots_from(p: PatView, rests: bool, cycle: nat, t0: real, t1: real)
    ensures
        all_from(slots(p, rests, cycle, t0, t1), p),
    decreases p, 0nat,
{
    match p {
        PatView::Sequence(cs) => {
            lemma_steps_from(cs, cs.len(), rests, cycle, t0, t1, p);
        },
        PatView::Stack(cs) => {
            lemma_together_from(cs, cs.len(), rests, cycle, t0, t1, p);
        },
        PatView::Layer(cs) => {
            lemma_together_from(cs, cs.len(), rests, cycle, t0, t1, p);
        },
        PatView::Alt(cs) => {
            if cs.len() > 0 {
                let c = cs[(cycle % cs.len()) as int];
                lemma_slots_from(c, rests, cycle, t0, t1);
                assert forall|t: Seq<char>| has_token(c, t) implies #[trigger] has_token(p, t) by {
                    assert(has_token(cs[(cycle % cs.len()) as int], t));
                }
                lemma_from_wider(slots(c, rests, cycle, t0, t1), c, p);
            }
        },
        PatView::Rev(q) => {
            lemma_slots_from(*q, rests, cycle, t0, t1);
            let s = slots(*q, rests, cycle, t0, t1);
            assert forall|i: int| 0 <= i < reversed(s).len() && (#[trigger] reversed(s)[i]).token
                is Some implies has_token(p, reversed(s)[i].token->0) by {
                assert(s[i].token == reversed(s)[i].token);
            }
        },
        PatView::Rot(n, q) => {
            lemma_slots_from(*q, rests, cycle, t0, t1);
            let s = slots(*q, rests, cycle, t0, t1);
            let u = rotated(s, n as int);
            assert forall|i: int| 0 <= i < u.len() && (#[trigger] u[i]).token is Some implies has_token(
                p,
                u[i].token->0,
            ) by {
                assert(s[i].token == u[i].token);
            }
        },
        PatView::Pal(q) => {
            lemma_slots_from(*q, rests, cycle, t0, t1);
            let s = slots(*q, rests, cycle, t0, t1);
            let on = onsets(s);
            lemma_palindrome_from(s, on, palindrome_len(on.len()), t0, t1, *q);
            lemma_from_wider(palindrome(s, t0, t1), *q, p);
        },
        PatView::Every(n, q, base) => {
            lemma_slots_from(*q, rests, cycle, t0, t1);
            lemma_slots_from(*base, rests, cycle, t0, t1);
            lemma_from_wider(slots(*q, rests, cycle, t0, t1), *q, p);
            lemma_from_wider(slots(*base, rests, cycle, t0, t1), *base, p);
        },
        PatView::Fast(n, q) => {
            lemma_hurried_from(*q, at_least_one(n), at_least_one(n), rests, cycle, t0, t1);
            lemma_from_wider(slots(p, rests, cycle, t0, t1), *q, p);
        },
        PatView::Slow(n, q) => {
            let s = slots(*q, rests, cycle / at_least_one(n), t0, t1);
            lemma_slots_from(*q, rests, cycle / at_least_one(n), t0, t1);
            lemma_stretched_from(s, at_least_one(n), cycle % at_least_one(n), t0, t1, *q);
            lemma_from_wider(slots(p, rests, cycle, t0, t1), *q, p);
        },
        PatView::Euclid(k, n, r, token) => {
            lemma_pulses_from(k as nat, n as nat, r as nat, token, n as nat, t0, t1, p);
        },
        PatView::Atom(token) => {},
        PatView::Rest => {},
    }
}

proof fn lemma_steps_from(
    cs: Seq<PatView>,
    k: nat,
    rests: bool,
    cycle: nat,
    t0: real,
    t1: real,
    p: PatView,
)
    requires
        forall|i: int, t: Seq<char>|
            0 <= i < cs.len() && #[trigger] has_token(cs[i], t) ==> has_token(p, t),
    ensures
        all_from(steps(cs, k, rests, cycle, t0, t1), p),
    decreases cs, k,
{
    if k > 0 && k <= cs.len() {
        let j = (k - 1) as nat;
        let c = cs[j as int];
        let a = point(t0, t1, j, cs.len());
        let b = point(t0, t1, k, cs.len());
        lemma_steps_from(cs, j, rests, cycle, t0, t1, p);
        lemma_slots_from(c, rests, cycle, a, b);
        lemma_from_wider(slots(c, rests, cycle, a, b), c, p);
        lemma_from_sum(
            steps(cs, j, rests, cycle, t0, t1),
            slots(c, rests, cycle, a, b),
            p,
        );
    }
}

proof fn lemma_together_from(
    cs: Seq<PatView>,
    k: nat,
    rests: bool,
    cycle: nat,
    t0: real,
    t1: real,
    p: PatView,
)
    requires
        forall|i: int, t: Seq<char>|
            0 <= i < cs.len() && #[trigger] has_token(cs[i], t) ==> has_token(p, t),
    ensures
        all_from(together(cs, k, rests, cycle, t0, t1), p),
    decreases cs, k,
{
    if k > 0 && k <= cs.len() {
        let j = (k - 1) as nat;
        let c = cs[j as int];
        lemma_together_from(cs, j, rests, cycle, t0, t1, p);
        lemma_slots_from(c, rests, cycle, t0, t1);
        lemma_from_wider(slots(c, rests, cycle, t0, t1), c, p);
        lemma_from_sum(
            together(cs, j, rests, cycle, t0, t1),
            slots(c, rests, cycle, t0, t1),
            p,
        );
    }
}

proof fn lemma_hurried_from(
    p: PatView,
    k: nat,
    m: nat,
    rests: bool,
    cycle: nat,
    t0: real,
    t1: real,
)
    ensures
        all_from(hurried(p, k, m, rests, cycle, t0, t1), p),
    decreases p, k,
{
    if k > 0 {
        let j = (k - 1) as nat;
        let a = point(t0, t1, j, m);
        let b = point(t0, t1, k, m);
        let c = inner_cycle(cycle, m, j);
        lemma_hurried_from(p, j, m, rests, cycle, t0, t1);
        lemma_slots_from(p, rests, c, a, b);
        lemma_from_sum(
            hurried(p, j, m, rests, cycle, t0, t1),
            slots(p, rests, c, a, b),
            p,
        );
    }
}

proof fn lemma_sounding_from(s: Seq<SlotView>, p: PatView)
    requires
        all_from(s, p),
    ensures
        forall|i: int| 0 <= i < sounding(s).len() ==> has_token(p, (#[trigger] sounding(s)[i]).1),
    decreases s.len(),
{
    if s.len() > 0 {
        let d = s.drop_last();
        assert(all_from(d, p)) by {
            assert forall|i: int| 0 <= i < d.len() && (#[trigger] d[i]).token is Some implies has_token(
                p,
                d[i].token->0,
            ) by {
                assert(s[i] == d[i]);
            }
        }
        lemma_sounding_from(d, p);
        assert(s[s.len() - 1].token is Some ==> has_token(p, s[s.len() - 1].token->0));
        assert forall|i: int| 0 <= i < sounding(s).len() implies has_token(
            p,
            (#[trigger] sounding(s)[i]).1,
        ) by {
            if i < sounding(d).len() {
                assert(sounding(s)[i] == sounding(d)[i]);
            }
        }
    }
}

/// A pattern plays no tokens but its own.
pub proof fn hits_play_tokens_of_the_pattern(p: PatView, cycle: nat, t0: real, t1: real)
    ensures
        forall|i: int|
            0 <= i < hits(p, cycle, t0, t1).len() ==> has_token(
                p,
                (#[trigger] hits(p, cycle, t0, t1)[i]).1,
            ),
{
    lemma_slots_from(p, false, cycle, t0, t1);
    lemma_sounding_from(slots(p, false, cycle, t0, t1), p);
}

} // verus!
