//! Tracks: a name, an optional gain, and a sound.

use vstd::prelude::*;
use vstd::string::StringExecFns;

use crate::dsl::sound::{parse_sound_clause, parse_word, sound_clause, word_at, PrefixTransform};
use crate::dsl::{valid_tempo, Track, TrackKind, TrackView};
use crate::number::{
    read_number, reading, show_number, shown, Precision, Reading, ReadingView,
};
use crate::pat::parse::{parse_pattern, pattern, Read};
use crate::pat::{Pat, PatView};
use crate::ratio::Ratio;
use crate::table::Table;
use crate::text::{is_word, join2, same_word, text_of};

verus! {

/// A pattern behind a transform.
pub open spec fn transformed(p: PatView, t: PrefixTransform) -> PatView {
    match t {
        PrefixTransform::Rev => PatView::Rev(Box::new(p)),
        PrefixTransform::Pal => PatView::Pal(Box::new(p)),
        PrefixTransform::Rot(n) => PatView::Rot(n, Box::new(p)),
        PrefixTransform::EveryRev(n) => PatView::Every(
            n,
            Box::new(PatView::Rev(Box::new(p))),
            Box::new(p),
        ),
        PrefixTransform::EveryPal(n) => PatView::Every(
            n,
            Box::new(PatView::Pal(Box::new(p))),
            Box::new(p),
        ),
        PrefixTransform::EveryRot(n, r) => PatView::Every(
            n,
            Box::new(PatView::Rot(r, Box::new(p))),
            Box::new(p),
        ),
    }
}

/// A pattern behind transforms, from the inside out.
pub open spec fn wrapped(p: PatView, ts: Seq<PrefixTransform>) -> PatView
    decreases ts.len(),
{
    if ts.len() == 0 {
        p
    } else {
        transformed(wrapped(p, ts.drop_last()), ts.last())
    }
}

/// The optional gain at `i`.
pub open spec fn gain_clause(s: Seq<char>, i: int) -> Read<real> {
    match word_at(s, i) {
        Some((w, b)) => if same_word(w, "gain"@) {
            match word_at(s, b) {
                None => Err("gain requires a number"@),
                Some((g, c)) => match reading(g, Precision::Single) {
                    ReadingView::Malformed => Err("invalid gain: "@ + g),
                    ReadingView::NotFinite => Err(
                        "gain must be finite and ≥ 0: "@ + shown(g, Precision::Single),
                    ),
                    ReadingView::Finite(x) => if x < 0real {
                        Err("gain must be finite and ≥ 0: "@ + shown(g, Precision::Single))
                    } else {
                        Ok((x, c))
                    },
                },
            }
        } else {
            Ok((1real, i))
        },
        None => Ok((1real, i)),
    }
}

/// The track that a line `track name ...` defines.
pub open spec fn track_line(s: Seq<char>, line: int, lets: Map<Seq<char>, Seq<char>>) -> Result<
    TrackView,
    Seq<char>,
> {
    match word_at(s, 0) {
        None => Err("empty line"@),
        Some((head, i)) => if !same_word(head, "track"@) {
            Err("internal: expected track, got "@ + head)
        } else {
            match word_at(s, i) {
                None => Err("track requires a name"@),
                Some((name, j)) => match gain_clause(s, j) {
                    Err(e) => Err(e),
                    Ok((gain, k)) => match sound_clause(s, k, lets) {
                        Err(e) => Err(e),
                        Ok(v) => match pattern(v.inner) {
                            Err(e) => Err(e),
                            Ok(p) => Ok(
                                TrackView {
                                    name,
                                    gain,
                                    ast: wrapped(p, v.transforms),
                                    lanes: v.lanes,
                                    tempo: v.tempo,
                                    line,
                                },
                            ),
                        },
                    },
                },
            }
        },
    }
}

/// A sound is never stretched over no cycles.
pub proof fn lemma_sound_tempo(s: Seq<char>, i: int, lets: Map<Seq<char>, Seq<char>>)
    requires
        sound_clause(s, i, lets) is Ok,
    ensures
        valid_tempo(sound_clause(s, i, lets)->Ok_0.tempo),
    decreases s.len() - i,
{
    if let Ok((l, c)) = crate::dsl::sound::link(s, i) {
        if i < c <= s.len() && !(l is Sound) {
            lemma_sound_tempo(s, c, lets);
        }
    }
}

fn transform(p: Pat, t: PrefixTransform) -> (r: Pat)
    ensures
        r@ == transformed(p@, t),
{
    proof {
        reveal_with_fuel(Pat::shape, 3);
    }
    match t {
        PrefixTransform::Rev => Pat::Rev(Box::new(p)),
        PrefixTransform::Pal => Pat::Pal(Box::new(p)),
        PrefixTransform::Rot(n) => Pat::Rot(n, Box::new(p)),
        PrefixTransform::EveryRev(n) => {
            let base = p.duplicate();
            Pat::Every(n, Box::new(Pat::Rev(Box::new(p))), Box::new(base))
        },
        PrefixTransform::EveryPal(n) => {
            let base = p.duplicate();
            Pat::Every(n, Box::new(Pat::Pal(Box::new(p))), Box::new(base))
        },
        PrefixTransform::EveryRot(n, r) => {
            let base = p.duplicate();
            Pat::Every(n, Box::new(Pat::Rot(r, Box::new(p))), Box::new(base))
        },
    }
}

fn wrap(p: Pat, ts: &Vec<PrefixTransform>) -> (r: Pat)
    ensures
        r@ == wrapped(p@, ts@),
{
    let ghost p0 = p@;
    let mut out = p;
    let mut i: usize = 0;
    while i < ts.len()
        invariant
            i <= ts@.len(),
            out@ == wrapped(p0, ts@.take(i as int)),
        decreases ts@.len() - i,
    {
        assert(ts@.take(i + 1).drop_last() =~= ts@.take(i as int));
        out = transform(out, ts[i]);
        i += 1;
    }
    assert(ts@.take(i as int) =~= ts@);
    out
}

fn parse_gain(s: &[char], i: usize) -> (r: Result<(Ratio, usize), String>)
    requires
        i <= s@.len(),
    ensures
        match r {
            Ok((g, j)) => gain_clause(s@, i as int) == Ok::<(real, int), Seq<char>>((g@, j as int))
                && i <= j <= s@.len(),
            Err(e) => gain_clause(s@, i as int) == Err::<(real, int), Seq<char>>(e@),
        },
{
    let (w, b) = match parse_word(s, i) {
        Some(x) => x,
        None => {
            return Ok((Ratio::one(), i));
        },
    };
    if !is_word(w.as_slice(), "gain") {
        return Ok((Ratio::one(), i));
    }
    let (g, c) = match parse_word(s, b) {
        Some(x) => x,
        None => {
            return Err(String::from_str("gain requires a number"));
        },
    };
    let text = text_of(g.as_slice());
    match read_number(g.as_slice(), Precision::Single) {
        Reading::Malformed => Err(join2("invalid gain: ", text.as_str())),
        Reading::NotFinite => {
            let number = show_number(g.as_slice(), Precision::Single);
            Err(join2("gain must be finite and ≥ 0: ", number.as_str()))
        },
        Reading::Finite(x) => if x.below(&Ratio::zero()) {
            let number = show_number(g.as_slice(), Precision::Single);
            Err(join2("gain must be finite and ≥ 0: ", number.as_str()))
        } else {
            Ok((x, c))
        },
    }
}

/// Read a line that defines a track.
pub fn parse_track_line(s: &[char], line: usize, lets: &Table<String>) -> (r: Result<Track, String>)
    ensures
        match r {
            Ok(t) => track_line(s@, line as int, lets@) == Ok::<TrackView, Seq<char>>(t@)
                && valid_tempo(t@.tempo),
            Err(e) => track_line(s@, line as int, lets@) == Err::<TrackView, Seq<char>>(e@),
        },
{
    let (head, i) = match parse_word(s, 0) {
        Some(x) => x,
        None => {
            return Err(String::from_str("empty line"));
        },
    };
    if !is_word(head.as_slice(), "track") {
        return Err(
            join2("internal: expected track, got ", text_of(head.as_slice()).as_str()),
        );
    }
    let (name, j) = match parse_word(s, i) {
        Some(x) => x,
        None => {
            return Err(String::from_str("track requires a name"));
        },
    };
    let (gain, k) = match parse_gain(s, j) {
        Ok(x) => x,
        Err(e) => {
            return Err(e);
        },
    };
    let sound = match parse_sound_clause(s, k, lets) {
        Ok(v) => v,
        Err(e) => {
            return Err(e);
        },
    };
    proof {
        lemma_sound_tempo(s@, k as int, lets@);
    }
    let p = match parse_pattern(sound.inner.as_str()) {
        Ok(p) => p,
        Err(e) => {
            return Err(e);
        },
    };
    let ast = wrap(p, &sound.transforms);
    let lanes = sound.lanes;
    Ok(
        Track {
            name: text_of(name.as_slice()),
            gain,
            kind: TrackKind::Pattern {
                ast,
                gain_lane: lanes.gain,
                pan_lane: lanes.pan,
                prob_lane: lanes.prob,
                dur_lane: lanes.dur,
                legato_lane: lanes.legato,
                cut_group_lane: lanes.cut_group,
                cut_voices_lane: lanes.cut_voices,
                cutoff_lane: lanes.cutoff,
                tempo: sound.tempo,
                line,
            },
        },
    )
}

} // verus!
