//! What tracks play: how tempo, transforms and lanes change it, and what becomes of the hits.

use vstd::prelude::*;

use crate::banks::CatalogView;
use crate::dsl::events::{
    audible, cycle_ms, duration, events_upto, gap, packed, slice, squeezed, track_events,
    track_hits, EventView,
};
use crate::dsl::sample::token_path;
use crate::dsl::{ErrorView, ProgramView, TempoWrap, TrackView};
use crate::dsl::sound::PrefixTransform;
use crate::dsl::track::{transformed, wrapped};
use crate::pat::eval::{inner_cycle, slots};
use crate::pat::lanes::{controlled, ControlHitView};
use crate::pat::PatView;
use crate::ratio::lemma_div;

verus! {

// ---------------------------------------------------------------------------------------------
// Tempo
// ---------------------------------------------------------------------------------------------

proof fn lemma_slice(hs: Seq<ControlHitView>, k: nat, j: nat)
    ensures
        slice(hs, k, j) == hs.filter_map(
            |h: ControlHitView|
                if (h.at * k as real).floor() == j {
                    Some(ControlHitView { at: h.at * k as real - j as real, ..h })
                } else {
                    None
                },
        ),
    decreases hs.len(),
{
    if hs.len() > 0 {
        lemma_slice(hs.drop_last(), k, j);
        let x = hs.last().at * k as real;
        assert(x.floor() == j <==> j as real <= x < j as real + 1real);
    }
}

/// Under `slow k`, the `k` cycles from `k * c` on share out what the track without tempo plays in
/// cycle `c`: a hit at `x` is played in the cycle `k * c + floor(k * x)`, at the part of it that is
/// left over, with its token and what the lanes say of it.
#[verifier::rlimit(30)]
pub proof fn slow_tracks_share_out_a_cycle(t: TrackView, k: u32, c: nat, j: nat)
    requires
        k >= 1,
        j < k,
    ensures
        ({
            let plain = TrackView { tempo: None, ..t };
            let slow = TrackView { tempo: Some(TempoWrap::Slow(k)), ..t };
            match track_hits(plain, c) {
                Err(e) => track_hits(slow, k as nat * c + j) == Err::<Seq<ControlHitView>, _>(e),
                Ok(hs) => track_hits(slow, k as nat * c + j) == Ok::<_, Seq<char>>(
                    hs.filter_map(
                        |h: ControlHitView|
                            if (h.at * k as real).floor() == j {
                                Some(ControlHitView { at: h.at * k as real - j as real, ..h })
                            } else {
                                None
                            },
                    ),
                ),
            }
        }),
{
    let n = k as nat * c + j;
    assert(k as nat * c == c * k as nat) by (nonlinear_arith);
    vstd::arithmetic::div_mod::lemma_fundamental_div_mod_converse(
        n as int,
        k as int,
        c as int,
        j as int,
    );
    assert(n / (k as nat) == c && n % (k as nat) == j);
    if let Ok(hs) = controlled(t.ast, t.lanes, c, 0real, 1real) {
        lemma_slice(hs, k as nat, j);
        let f = |h: ControlHitView|
            if (h.at * k as real).floor() == j {
                Some(ControlHitView { at: h.at * k as real - j as real, ..h })
            } else {
                None
            };
        let g = |h: ControlHitView|
            if (h.at * (k as nat) as real).floor() == j {
                Some(ControlHitView { at: h.at * (k as nat) as real - j as real, ..h })
            } else {
                None
            };
        assert(f =~= g);
    }
}

/// What the inner cycle `j` of `k` plays, in its share of the cycle.
spec fn share(t: TrackView, k: u32, c: nat, j: int) -> Seq<ControlHitView> {
    inner(t, k, c, j as nat)->Ok_0.map_values(
        |h: ControlHitView| ControlHitView { at: ((j as nat) as real + h.at) / k as real, ..h },
    )
}

proof fn lemma_share_at(j: real, x: real, k: real)
    requires
        k > 0real,
    ensures
        j / k + x * (1real / k) == (j + x) / k,
{
    let a = j / k;
    let b = 1real / k;
    let z = (j + x) / k;
    lemma_div(j, k);
    lemma_div(1real, k);
    lemma_div(j + x, k);
    assert(a + x * b == z) by (nonlinear_arith)
        requires
            a * k == j,
            b * k == 1real,
            z * k == j + x,
            k > 0real,
    ;
}

proof fn lemma_squeezed(hs: Seq<ControlHitView>, j: nat, k: u32)
    requires
        k >= 1,
    ensures
        squeezed(hs, j, k as nat) == hs.map_values(
            |h: ControlHitView| ControlHitView { at: (j as real + h.at) / k as real, ..h },
        ),
{
    let f = |h: ControlHitView| ControlHitView { at: (j as real + h.at) / k as real, ..h };
    assert forall|n: int| 0 <= n < hs.len() implies squeezed(hs, j, k as nat)[n] == hs.map_values(
        f,
    )[n] by {
        lemma_share_at(j as real, hs[n].at, k as real);
    }
    assert(squeezed(hs, j, k as nat) =~= hs.map_values(f));
}

/// What the track without tempo plays in the cycle `j` of `k`.
#[verifier::opaque]
spec fn inner(t: TrackView, k: u32, c: nat, j: nat) -> Result<Seq<ControlHitView>, Seq<char>> {
    controlled(t.ast, t.lanes, c * k as nat + j, 0real, 1real)
}

/// The hits of the first `m` of `k` inner cycles.
#[verifier::opaque]
spec fn packed_upto(t: TrackView, k: u32, c: nat, m: nat) -> Result<
    Seq<ControlHitView>,
    Seq<char>,
> {
    packed(t.ast, t.lanes, m, k as nat, c)
}

proof fn lemma_packed_next(t: TrackView, k: u32, c: nat, i: nat)
    requires
        i < k,
        c * k + k <= u64::MAX,
        packed_upto(t, k, c, i) is Ok,
    ensures
        match inner(t, k, c, i) {
            Err(e) => packed_upto(t, k, c, i + 1) == Err::<
                Seq<ControlHitView>,
                _,
            >(e),
            Ok(hs) => packed_upto(t, k, c, i + 1) == Ok::<_, Seq<char>>(
                packed_upto(t, k, c, i)->Ok_0 + squeezed(hs, i, k as nat),
            ),
        },
{
    reveal(inner);
    reveal(packed_upto);
    assert(inner_cycle(c, k as nat, i) == c * k as nat + i);
}

#[verifier::rlimit(30)]
proof fn lemma_packed(t: TrackView, k: u32, c: nat, m: nat)
    requires
        k >= 1,
        m <= k,
        c * k + k <= u64::MAX,
        forall|j: nat| j < m ==> (#[trigger] inner(t, k, c, j)) is Ok,
    ensures
        packed_upto(t, k, c, m) == Ok::<_, Seq<char>>(
            Seq::new(m, |j: int| share(t, k, c, j)).flatten(),
        ),
    decreases m,
{
    let all = Seq::new(m, |j: int| share(t, k, c, j));
    if m > 0 {
        let i = (m - 1) as nat;
        lemma_packed(t, k, c, i);
        let before = Seq::new(i, |j: int| share(t, k, c, j));
        assert(all =~= before.push(share(t, k, c, i as int)));
        before.lemma_flatten_push(share(t, k, c, i as int));
        lemma_packed_next(t, k, c, i);
        let hs = inner(t, k, c, i)->Ok_0;
        lemma_squeezed(hs, i, k);
        assert(share(t, k, c, i as int) == squeezed(hs, i, k as nat));
    } else {
        lemma_packed_none(t, k, c);
        assert(all.flatten() =~= seq![]);
    }
}

proof fn lemma_packed_stays(t: TrackView, k: u32, c: nat, i: nat)
    requires
        packed_upto(t, k, c, i) is Err,
    ensures
        packed_upto(t, k, c, i + 1) == packed_upto(t, k, c, i),
{
    reveal(packed_upto);
}

proof fn lemma_packed_none(t: TrackView, k: u32, c: nat)
    ensures
        packed_upto(t, k, c, 0) == Ok::<_, Seq<char>>(Seq::<ControlHitView>::empty()),
{
    reveal(packed_upto);
}

#[verifier::rlimit(30)]
proof fn lemma_packed_fails(t: TrackView, k: u32, c: nat, m: nat, n: nat)
    requires
        n < m <= k,
        c * k + k <= u64::MAX,
        inner(t, k, c, n) is Err,
        forall|j: nat| j < n ==> (#[trigger] inner(t, k, c, j)) is Ok,
    ensures
        packed_upto(t, k, c, m) == inner(t, k, c, n),
    decreases m,
{
    let i = (m - 1) as nat;
    if i > n {
        lemma_packed_fails(t, k, c, i, n);
        lemma_packed_stays(t, k, c, i);
    } else {
        lemma_packed(t, k, c, n);
        lemma_packed_next(t, k, c, n);
    }
}

/// Under `fast k`, cycle `c` plays what the track without tempo plays in the `k` cycles from `k * c`
/// on, one after the other, each in its share of the cycle: a hit at `x` of the cycle `k * c + j` is
/// played at `(j + x) / k`, with its token and what the lanes say of it. If one of those cycles
/// cannot be played, the first complaint is the complaint.
#[verifier::rlimit(30)]
pub proof fn fast_tracks_play_cycles_one_after_the_other(t: TrackView, k: u32, c: nat)
    requires
        k >= 1,
        c * k + k <= u64::MAX,
    ensures
        ({
            let plain = TrackView { tempo: None, ..t };
            let fast = TrackView { tempo: Some(TempoWrap::Fast(k)), ..t };
            &&& (forall|j: nat| j < k ==> (#[trigger] track_hits(plain, c * k as nat + j)) is Ok)
                ==> track_hits(fast, c) == Ok::<_, Seq<char>>(
                Seq::new(
                    k as nat,
                    |j: int|
                        track_hits(plain, (c * k + j) as nat)->Ok_0.map_values(
                            |h: ControlHitView|
                                ControlHitView { at: (j as real + h.at) / k as real, ..h },
                        ),
                ).flatten(),
            )
            &&& forall|n: nat|
                n < k && (#[trigger] track_hits(plain, c * k as nat + n)) is Err && (forall|j: nat|
                    j < n ==> (#[trigger] track_hits(plain, c * k as nat + j)) is Ok)
                    ==> track_hits(fast, c) == track_hits(plain, c * k as nat + n)
        }),
{
    let bare = TrackView { tempo: None, ..t };
    let fast = TrackView { tempo: Some(TempoWrap::Fast(k)), ..t };
    reveal(packed_upto);
    assert forall|j: nat| #[trigger]
        inner(t, k, c, j) == track_hits(bare, c * k as nat + j) by {
        reveal(inner);
    }
    if forall|j: nat| j < k ==> (#[trigger] track_hits(bare, c * k as nat + j)) is Ok {
        assert forall|j: nat| j < k implies (#[trigger] inner(t, k, c, j)) is Ok by {
            assert(track_hits(bare, c * k as nat + j) is Ok);
        }
        lemma_packed(t, k, c, k as nat);
        let shares = Seq::new(k as nat, |j: int| share(t, k, c, j));
        let stated = Seq::new(
            k as nat,
            |j: int|
                track_hits(bare, (c * k + j) as nat)->Ok_0.map_values(
                    |h: ControlHitView| ControlHitView { at: (j as real + h.at) / k as real, ..h },
                ),
        );
        assert forall|j: int| 0 <= j < k implies shares[j] == stated[j] by {
            assert(inner(t, k, c, j as nat) == track_hits(bare, (c * k + j) as nat));
            assert(shares[j] =~= stated[j]);
        }
        assert(shares =~= stated);
    }
    assert forall|n: nat|
        n < k && (#[trigger] track_hits(bare, c * k as nat + n)) is Err && (forall|j: nat|
            j < n ==> (#[trigger] track_hits(bare, c * k as nat + j)) is Ok) implies track_hits(
        fast,
        c,
    ) == track_hits(bare, c * k as nat + n) by {
        assert forall|j: nat| j < n implies (#[trigger] inner(t, k, c, j)) is Ok by {
            assert(track_hits(bare, c * k as nat + j) is Ok);
        }
        assert(inner(t, k, c, n) is Err);
        lemma_packed_fails(t, k, c, k as nat, n);
    }
}

// ---------------------------------------------------------------------------------------------
// Transforms
// ---------------------------------------------------------------------------------------------

proof fn lemma_wrapped(p: PatView, ts: Seq<PrefixTransform>, x: PrefixTransform)
    ensures
        wrapped(p, ts.push(x)) == transformed(wrapped(p, ts), x),
{
    assert(ts.push(x).drop_last() =~= ts);
}

/// A transform changes what stands behind it. `every n` does so in the cycles that `n` divides, and
/// leaves all others as they are.
pub proof fn transforms_change_what_stands_behind_them(
    p: PatView,
    ts: Seq<PrefixTransform>,
    n: u32,
    r: i32,
    rests: bool,
    cycle: nat,
    t0: real,
    t1: real,
)
    requires
        n >= 1,
    ensures
        wrapped(p, Seq::empty()) == p,
        ({
            let q = wrapped(p, ts);
            let plain = slots(q, rests, cycle, t0, t1);
            let rev = slots(PatView::Rev(Box::new(q)), rests, cycle, t0, t1);
            let pal = slots(PatView::Pal(Box::new(q)), rests, cycle, t0, t1);
            let rot = slots(PatView::Rot(r, Box::new(q)), rests, cycle, t0, t1);
            let with = |x: PrefixTransform| slots(wrapped(p, ts.push(x)), rests, cycle, t0, t1);
            &&& with(PrefixTransform::Rev) == rev
            &&& with(PrefixTransform::Pal) == pal
            &&& with(PrefixTransform::Rot(r)) == rot
            &&& cycle % (n as nat) == 0 ==> with(PrefixTransform::EveryRev(n)) == rev
            &&& cycle % (n as nat) == 0 ==> with(PrefixTransform::EveryPal(n)) == pal
            &&& cycle % (n as nat) == 0 ==> with(PrefixTransform::EveryRot(n, r)) == rot
            &&& cycle % (n as nat) != 0 ==> with(PrefixTransform::EveryRev(n)) == plain
            &&& cycle % (n as nat) != 0 ==> with(PrefixTransform::EveryPal(n)) == plain
            &&& cycle % (n as nat) != 0 ==> with(PrefixTransform::EveryRot(n, r)) == plain
        }),
{
    lemma_wrapped(p, ts, PrefixTransform::Rev);
    lemma_wrapped(p, ts, PrefixTransform::Pal);
    lemma_wrapped(p, ts, PrefixTransform::Rot(r));
    lemma_wrapped(p, ts, PrefixTransform::EveryRev(n));
    lemma_wrapped(p, ts, PrefixTransform::EveryPal(n));
    lemma_wrapped(p, ts, PrefixTransform::EveryRot(n, r));
}

/// A track behind `every n rev` has, in a cycle that `n` divides, the hits of the same track behind
/// `rev`, and in any other cycle those of the same track without it. The same holds of `pal` and
/// `rot`.
pub proof fn every_transforms_its_cycles(
    t: TrackView,
    p: PatView,
    ts: Seq<PrefixTransform>,
    n: u32,
    r: i32,
    cycle: nat,
)
    requires
        n >= 1,
        t.tempo is None,
    ensures
        ({
            let behind = |x: PrefixTransform|
                track_hits(TrackView { ast: wrapped(p, ts.push(x)), ..t }, cycle);
            let plain = track_hits(TrackView { ast: wrapped(p, ts), ..t }, cycle);
            let named = cycle % (n as nat) == 0;
            &&& behind(PrefixTransform::EveryRev(n)) == if named {
                behind(PrefixTransform::Rev)
            } else {
                plain
            }
            &&& behind(PrefixTransform::EveryPal(n)) == if named {
                behind(PrefixTransform::Pal)
            } else {
                plain
            }
            &&& behind(PrefixTransform::EveryRot(n, r)) == if named {
                behind(PrefixTransform::Rot(r))
            } else {
                plain
            }
        }),
{
    transforms_change_what_stands_behind_them(p, ts, n, r, false, cycle, 0real, 1real);
    let plain = wrapped(p, ts);
    let x = wrapped(p, ts.push(PrefixTransform::EveryRev(n)));
    let y = wrapped(p, ts.push(PrefixTransform::EveryPal(n)));
    let z = wrapped(p, ts.push(PrefixTransform::EveryRot(n, r)));
    if cycle % (n as nat) == 0 {
        lemma_same_hits(x, wrapped(p, ts.push(PrefixTransform::Rev)), t, cycle);
        lemma_same_hits(y, wrapped(p, ts.push(PrefixTransform::Pal)), t, cycle);
        lemma_same_hits(z, wrapped(p, ts.push(PrefixTransform::Rot(r))), t, cycle);
    } else {
        lemma_same_hits(x, plain, t, cycle);
        lemma_same_hits(y, plain, t, cycle);
        lemma_same_hits(z, plain, t, cycle);
    }
}

proof fn lemma_same_hits(a: PatView, b: PatView, t: TrackView, cycle: nat)
    requires
        t.tempo is None,
        slots(a, false, cycle, 0real, 1real) == slots(b, false, cycle, 0real, 1real),
    ensures
        track_hits(TrackView { ast: a, ..t }, cycle) == track_hits(
            TrackView { ast: b, ..t },
            cycle,
        ),
{
}

// ---------------------------------------------------------------------------------------------
// Events
// ---------------------------------------------------------------------------------------------

proof fn lemma_events(p: ProgramView, t: TrackView, hs: Seq<ControlHitView>, k: nat, c: CatalogView)
    requires
        k <= hs.len(),
        events_upto(p, t, hs, k, c) is Ok,
    ensures
        ({
            let es = events_upto(p, t, hs, k, c)->Ok_0;
            &&& es.len() == k
            &&& forall|i: int| 0 <= i < k ==> event_matches(p, t, hs, i, c, #[trigger] es[i])
        }),
    decreases k,
{
    if k > 0 {
        lemma_events(p, t, hs, (k - 1) as nat, c);
    }
}

spec fn event_matches(
    p: ProgramView,
    t: TrackView,
    hs: Seq<ControlHitView>,
    i: int,
    c: CatalogView,
    e: EventView,
) -> bool {
    let h = hs[i];
    &&& e.frac == h.at
    &&& token_path(p, h.token, c) == Ok::<_, Seq<char>>(e.path)
    &&& e.gain == t.gain * h.gain * p.master_gain
    &&& e.pan == h.pan
    &&& e.prob == h.prob
    &&& e.dur_ms == duration(hs, i, p.bpm)
    &&& e.cut_group == h.cut_group
    &&& e.cut_voices == h.cut_voices
    &&& e.cutoff_ms == h.cutoff
}

/// A track that is silenced, or not among the soloed ones while there are any, plays nothing. Any
/// other plays its hits, in their order: each where it starts, with the sample of its token, with the
/// gains of the track, the lane and the whole program multiplied, and with what the other lanes say.
pub proof fn tracks_play_their_hits(p: ProgramView, t: TrackView, cycle: nat, c: CatalogView)
    ensures
        p.mute_all || p.silenced.contains(t.name) || (p.soloed != Set::<Seq<char>>::empty()
            && !p.soloed.contains(t.name)) ==> track_events(p, t, cycle, c) == Ok::<_, ErrorView>(
            Seq::<EventView>::empty(),
        ),
        !p.mute_all && !p.silenced.contains(t.name) && (p.soloed.contains(t.name) || p.soloed
            == Set::<Seq<char>>::empty()) ==> {
            let r = track_events(p, t, cycle, c);
            match track_hits(t, cycle) {
                Err(e) => r == Err::<Seq<EventView>, _>(ErrorView { line: t.line, message: e }),
                Ok(hs) => r is Ok ==> {
                    let es = r->Ok_0;
                    &&& es.len() == hs.len()
                    &&& forall|i: int|
                        0 <= i < hs.len() ==> {
                            let h = hs[i];
                            let e = #[trigger] es[i];
                            &&& e.frac == h.at
                            &&& token_path(p, h.token, c) == Ok::<_, Seq<char>>(e.path)
                            &&& e.gain == t.gain * h.gain * p.master_gain
                            &&& e.pan == h.pan
                            &&& e.prob == h.prob
                            &&& h.dur is Some ==> e.dur_ms == h.dur
                            &&& h.dur is None && h.legato is None ==> e.dur_ms is None
                            &&& e.cut_group == h.cut_group
                            &&& e.cut_voices == h.cut_voices
                            &&& e.cutoff_ms == h.cutoff
                        }
                },
            }
        },
{
    if let Ok(hs) = track_hits(t, cycle) {
        if track_events(p, t, cycle, c) is Ok && audible(p, t.name) {
            lemma_events(p, t, hs, hs.len(), c);
            let es = track_events(p, t, cycle, c)->Ok_0;
            assert forall|i: int| 0 <= i < hs.len() implies event_matches(
                p,
                t,
                hs,
                i,
                c,
                #[trigger] es[i],
            ) by {}
        }
    }
}

// ---------------------------------------------------------------------------------------------
// Durations
// ---------------------------------------------------------------------------------------------

/// The durations of the first `k` events together.
pub open spec fn durations(es: Seq<EventView>, k: nat) -> real
    decreases k,
{
    if k == 0 || k > es.len() {
        0real
    } else {
        durations(es, (k - 1) as nat) + es[k - 1].dur_ms->0
    }
}

/// The hits come in the order in which they start, within a cycle, and last by their legato alone.
pub open spec fn legato_alone(hs: Seq<ControlHitView>, l: real) -> bool {
    &&& forall|i: int|
        0 <= i < hs.len() ==> (#[trigger] hs[i]).dur is None && hs[i].legato == Some(l)
            && 0real <= hs[i].at < 1real
    &&& forall|i: int, j: int|
        0 <= i < j < hs.len() ==> (#[trigger] hs[i]).at <= (#[trigger] hs[j]).at
}

proof fn lemma_legato(p: ProgramView, hs: Seq<ControlHitView>, i: int, l: real)
    requires
        legato_alone(hs, l),
        l >= 0real,
        p.bpm >= 1,
        0 <= i < hs.len(),
    ensures
        ({
            let next = if i + 1 < hs.len() {
                hs[i + 1].at
            } else {
                hs[0].at + 1real
            };
            &&& duration(hs, i, p.bpm) is Some
            &&& duration(hs, i, p.bpm)->0 * p.bpm as real == (next - hs[i].at) * 60000real * l
        }),
{
    let next = if i + 1 < hs.len() {
        hs[i + 1].at
    } else {
        hs[0].at + 1real
    };
    let g = next - hs[i].at;
    let b = p.bpm as real;
    let ms = 60000real / b;
    assert(hs[i].legato == Some(l));
    assert(g >= 0real) by {
        if i + 1 < hs.len() {
            assert(hs[i].at <= hs[i + 1].at);
        } else {
            assert(hs[i].at < 1real);
            assert(0real <= hs[0].at);
        }
    }
    lemma_div(60000real, b);
    assert(ms > 0real) by (nonlinear_arith)
        requires
            ms * b == 60000real,
            b > 0real,
    ;
    assert(g * ms * l >= 0real) by (nonlinear_arith)
        requires
            g >= 0real,
            ms > 0real,
            l >= 0real,
    ;
    assert(g * ms * l * b == g * 60000real * l) by (nonlinear_arith)
        requires
            ms * b == 60000real,
    ;
    assert(duration(hs, i, p.bpm)->0 == g * ms * l);
}

proof fn lemma_durations(p: ProgramView, hs: Seq<ControlHitView>, es: Seq<EventView>, k: nat)
    requires
        legato_alone(hs, 1real),
        p.bpm >= 1,
        es.len() == hs.len(),
        0 < k <= hs.len(),
        forall|i: int|
            0 <= i < hs.len() ==> (#[trigger] es[i]).dur_ms == duration(hs, i, p.bpm),
    ensures
        durations(es, k) * p.bpm as real == (if k < hs.len() {
            hs[k as int].at - hs[0].at
        } else {
            1real
        }) * 60000real,
    decreases k,
{
    let b = p.bpm as real;
    let d = es[k - 1].dur_ms->0;
    lemma_legato(p, hs, k - 1, 1real);
    if k > 1 {
        lemma_durations(p, hs, es, (k - 1) as nat);
        let before = durations(es, (k - 1) as nat);
        assert((before + d) * b == before * b + d * b) by (nonlinear_arith);
    } else {
        assert(durations(es, 0) == 0real);
        assert((0real + d) * b == d * b);
    }
}

/// A hit whose lanes say only its legato lasts so many times as long as it is until the next hit; the
/// last one is followed by the first, a cycle later. A cycle lasts a minute over the beats per minute.
/// So hits that are fully legato last together exactly one cycle.
pub proof fn legato_fills_the_cycle(
    p: ProgramView,
    t: TrackView,
    cycle: nat,
    c: CatalogView,
    l: real,
)
    requires
        track_hits(t, cycle) is Ok,
        track_hits(t, cycle)->Ok_0.len() > 0,
        legato_alone(track_hits(t, cycle)->Ok_0, l),
        audible(p, t.name),
        track_events(p, t, cycle, c) is Ok,
        p.bpm >= 1,
        l >= 0real,
    ensures
        ({
            let es = track_events(p, t, cycle, c)->Ok_0;
            let ms = 60000real / p.bpm as real;
            &&& forall|i: int|
                0 <= i < es.len() - 1 ==> (#[trigger] es[i]).dur_ms == Some(
                    (es[i + 1].frac - es[i].frac) * l * ms,
                )
            &&& es.last().dur_ms == Some((es[0].frac + 1real - es.last().frac) * l * ms)
            &&& l == 1real ==> durations(es, es.len()) == ms
        }),
{
    let hs = track_hits(t, cycle)->Ok_0;
    let es = track_events(p, t, cycle, c)->Ok_0;
    let b = p.bpm as real;
    let ms = 60000real / b;
    lemma_events(p, t, hs, hs.len(), c);
    lemma_div(60000real, b);
    assert forall|i: int| 0 <= i < es.len() implies ({
        let next = if i + 1 < hs.len() {
            es[i + 1].frac
        } else {
            es[0].frac + 1real
        };
        (#[trigger] es[i]).dur_ms == Some((next - es[i].frac) * l * ms)
    }) by {
        lemma_legato(p, hs, i, l);
        assert(event_matches(p, t, hs, i, c, es[i]));
        assert(event_matches(p, t, hs, 0, c, es[0]));
        if i + 1 < hs.len() {
            assert(event_matches(p, t, hs, i + 1, c, es[i + 1]));
        }
        let g = (if i + 1 < hs.len() {
            hs[i + 1].at
        } else {
            hs[0].at + 1real
        }) - hs[i].at;
        let d = es[i].dur_ms->0;
        assert(d == g * l * ms) by (nonlinear_arith)
            requires
                d * b == g * 60000real * l,
                ms * b == 60000real,
                b > 0real,
        ;
    }
    assert(es[es.len() - 1].dur_ms == Some((es[0].frac + 1real - es.last().frac) * l * ms));
    if l == 1real {
        assert forall|i: int| 0 <= i < hs.len() implies (#[trigger] es[i]).dur_ms == duration(
            hs,
            i,
            p.bpm,
        ) by {
            assert(event_matches(p, t, hs, i, c, es[i]));
        }
        lemma_durations(p, hs, es, hs.len());
        let d = durations(es, es.len());
        assert(d == ms) by (nonlinear_arith)
            requires
                d * b == 1real * 60000real,
                ms * b == 60000real,
                b > 0real,
        ;
    }
}

/// A hit whose legato alone says how long it lasts sounds so many times as long as it is until the
/// hit that follows, whatever the other hits last; the last hit is followed by the first, a cycle
/// later. Where the hit that follows is no later, it sounds for no time at all.
pub proof fn legato_reaches_for_the_next_hit(
    p: ProgramView,
    t: TrackView,
    cycle: nat,
    c: CatalogView,
    i: int,
    l: real,
)
    requires
        track_hits(t, cycle) is Ok,
        audible(p, t.name),
        track_events(p, t, cycle, c) is Ok,
        0 <= i < track_hits(t, cycle)->Ok_0.len(),
        track_hits(t, cycle)->Ok_0[i].dur is None,
        track_hits(t, cycle)->Ok_0[i].legato == Some(l),
        l >= 0real,
    ensures
        ({
            let hs = track_hits(t, cycle)->Ok_0;
            let e = track_events(p, t, cycle, c)->Ok_0[i];
            let ms = 60000real / (if p.bpm == 0 {
                1real
            } else {
                p.bpm as real
            });
            let next = if i + 1 == hs.len() {
                1real + hs[0].at
            } else {
                hs[i + 1].at
            };
            &&& next >= hs[i].at ==> e.dur_ms == Some((next - hs[i].at) * l * ms)
            &&& next < hs[i].at ==> e.dur_ms == Some(0real)
        }),
{
    let hs = track_hits(t, cycle)->Ok_0;
    let es = track_events(p, t, cycle, c)->Ok_0;
    lemma_events(p, t, hs, hs.len(), c);
    assert(event_matches(p, t, hs, i, c, es[i]));
    let g = gap(hs, i);
    let ms = cycle_ms(p.bpm);
    let b = if p.bpm == 0 {
        1real
    } else {
        p.bpm as real
    };
    lemma_div(60000real, b);
    assert(ms > 0real) by (nonlinear_arith)
        requires
            ms * b == 60000real,
            b > 0real,
    ;
    assert(g >= 0real);
    assert(g * ms * l >= 0real && g * ms * l == g * l * ms) by (nonlinear_arith)
        requires
            g >= 0real,
            ms > 0real,
            l >= 0real,
    ;
    if g == 0real {
        assert(g * ms * l == 0real) by (nonlinear_arith)
            requires
                g == 0real,
        ;
    }
}

proof fn lemma_events_resolve(
    p: ProgramView,
    t: TrackView,
    hs: Seq<ControlHitView>,
    k: nat,
    n: nat,
    c: CatalogView,
)
    requires
        k <= hs.len(),
        n <= k,
        forall|i: int| 0 <= i < n ==> token_path(p, (#[trigger] hs[i]).token, c) is Ok,
    ensures
        n == k ==> events_upto(p, t, hs, k, c) is Ok,
        n < k && token_path(p, hs[n as int].token, c) is Err ==> events_upto(p, t, hs, k, c)
            == Err::<Seq<EventView>, _>(token_path(p, hs[n as int].token, c)->Err_0),
    decreases k,
{
    if k > 0 {
        if n == k {
            lemma_events_resolve(p, t, hs, (k - 1) as nat, (k - 1) as nat, c);
            assert(token_path(p, hs[k - 1].token, c) is Ok);
        } else {
            lemma_events_resolve(p, t, hs, (k - 1) as nat, n, c);
        }
    }
}

/// A track that sounds can be played if each of its tokens stands for a sample; if not, the complaint
/// is that about the first hit whose token does not, on the line of the track.
pub proof fn tracks_need_all_their_samples(
    p: ProgramView,
    t: TrackView,
    cycle: nat,
    c: CatalogView,
    n: nat,
)
    requires
        audible(p, t.name),
        track_hits(t, cycle) is Ok,
        n <= track_hits(t, cycle)->Ok_0.len(),
        forall|i: int|
            0 <= i < n ==> token_path(
                p,
                (#[trigger] track_hits(t, cycle)->Ok_0[i]).token,
                c,
            ) is Ok,
    ensures
        ({
            let hs = track_hits(t, cycle)->Ok_0;
            &&& n == hs.len() ==> track_events(p, t, cycle, c) is Ok
            &&& n < hs.len() && token_path(p, hs[n as int].token, c) is Err ==> track_events(
                p,
                t,
                cycle,
                c,
            ) == Err::<Seq<EventView>, _>(
                ErrorView {
                    line: t.line,
                    message: token_path(p, hs[n as int].token, c)->Err_0,
                },
            )
        }),
{
    let hs = track_hits(t, cycle)->Ok_0;
    lemma_events_resolve(p, t, hs, hs.len(), n, c);
}

} // verus!
