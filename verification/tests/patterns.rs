//! Patterns of the mini-notation, and the lanes that run along with them.

use sequencer::bignat::Nat;
use sequencer::pat::eval::eval_inner;
use sequencer::pat::{
    eval, eval_with_control_lanes, eval_with_gain_pan, eval_with_gains, parse_pattern, Pat,
};
use sequencer::ratio::Ratio;

fn magnitude(n: &Nat) -> f64 {
    n.limbs.iter().rev().fold(0.0, |acc, d| acc * 4294967296.0 + f64::from(*d))
}

fn value(r: &Ratio) -> f64 {
    let top = magnitude(&r.numerator().magnitude) / magnitude(r.denominator());
    if r.numerator().negative {
        -top
    } else {
        top
    }
}

fn hits(p: &Pat, cycle: u64) -> Vec<(f64, String)> {
    eval(p, cycle, &Ratio::zero(), &Ratio::one())
        .into_iter()
        .map(|(t, s)| (value(&t), s))
        .collect()
}

fn gains(sound: &Pat, gain: &Pat, cycle: u64) -> Vec<(f64, String, f64)> {
    eval_with_gains(sound, Some(gain), cycle, &Ratio::zero(), &Ratio::one())
        .unwrap()
        .into_iter()
        .map(|(t, s, g)| (value(&t), s, value(&g)))
        .collect()
}

fn gain_error(lane: &str) -> String {
    let s = parse_pattern("bd").unwrap();
    let g = parse_pattern(lane).unwrap();
    eval_with_gains(&s, Some(&g), 0, &Ratio::zero(), &Ratio::one()).unwrap_err()
}

#[test]
fn seq_two_atoms() {
    let p = parse_pattern("bd sn").unwrap();
    let e = hits(&p, 0);
    assert_eq!(e.len(), 2);
    assert!((e[0].0 - 0.0).abs() < 1e-9 && e[0].1 == "bd");
    assert!((e[1].0 - 0.5).abs() < 1e-9 && e[1].1 == "sn");
}

#[test]
fn stack_same_onset() {
    let p = parse_pattern("[sn hh]").unwrap();
    let e = hits(&p, 0);
    assert_eq!(e.len(), 2);
    assert!((e[0].0 - 0.0).abs() < 1e-9);
    assert!((e[1].0 - 0.0).abs() < 1e-9);
}

#[test]
fn alternate_cycles() {
    let p = parse_pattern("<bd sn>").unwrap();
    let e0 = hits(&p, 0);
    let e1 = hits(&p, 1);
    assert_eq!(e0.len(), 1);
    assert_eq!(e0[0].1, "bd");
    assert_eq!(e1.len(), 1);
    assert_eq!(e1[0].1, "sn");
}

#[test]
fn hat_bd_sn_bd_thirds() {
    let p = parse_pattern("hat <bd [sn sn]> bd").unwrap();
    let e = hits(&p, 0);
    assert_eq!(e.len(), 3);
    assert!((e[0].0 - 0.0).abs() < 1e-6 && e[0].1 == "hat");
    assert!((e[1].0 - 1.0 / 3.0).abs() < 1e-6 && e[1].1 == "bd");
    assert!((e[2].0 - 2.0 / 3.0).abs() < 1e-6 && e[2].1 == "bd");
    let e_odd = hits(&p, 1);
    assert_eq!(e_odd.len(), 4);
    assert!((e_odd[0].0 - 0.0).abs() < 1e-6 && e_odd[0].1 == "hat");
    assert!((e_odd[1].0 - 1.0 / 3.0).abs() < 1e-6 && e_odd[1].1 == "sn");
    assert!((e_odd[2].0 - 1.0 / 3.0).abs() < 1e-6 && e_odd[2].1 == "sn");
    assert!((e_odd[3].0 - 2.0 / 3.0).abs() < 1e-6 && e_odd[3].1 == "bd");
}

#[test]
fn rest_takes_slice() {
    let p = parse_pattern("bd ~ sn").unwrap();
    let e = hits(&p, 0);
    assert_eq!(e.len(), 2);
    assert!((e[0].0 - 0.0).abs() < 1e-9);
    assert!((e[1].0 - 2.0 / 3.0).abs() < 1e-9);
}

#[test]
fn gain_lane_zips() {
    let s = parse_pattern("bd sn").unwrap();
    let g = parse_pattern("1 0.5").unwrap();
    let e = gains(&s, &g, 0);
    assert_eq!(e.len(), 2);
    assert!((e[0].2 - 1.0).abs() < 1e-6);
    assert!((e[1].2 - 0.5).abs() < 1e-6);
}

#[test]
fn gain_lane_alt_cycles_with_sound() {
    let s = parse_pattern("<bd sn>").unwrap();
    let g = parse_pattern("<1 0.25>").unwrap();
    let e = gains(&s, &g, 1);
    assert_eq!(e.len(), 1);
    assert_eq!(e[0].1, "sn");
    assert!((e[0].2 - 0.25).abs() < 1e-6);
}

#[test]
fn gain_shorter_pattern_repeats_across_hits() {
    let s = parse_pattern("bd sn hh cp").unwrap();
    let g = parse_pattern("1 0").unwrap();
    let e = gains(&s, &g, 0);
    assert_eq!(e.len(), 4);
    assert!((e[0].2 - 1.0).abs() < 1e-6);
    assert!((e[1].2 - 0.0).abs() < 1e-6);
    assert!((e[2].2 - 1.0).abs() < 1e-6);
    assert!((e[3].2 - 0.0).abs() < 1e-6);
}

#[test]
fn gain_single_atom_applies_to_every_sound_hit() {
    let s = parse_pattern("bd ~ sn hh").unwrap();
    let g = parse_pattern("0.4").unwrap();
    let e = gains(&s, &g, 0);
    assert_eq!(e.len(), 3);
    for x in &e {
        assert!((x.2 - 0.4).abs() < 1e-6);
    }
}

#[test]
fn star_repeat_subdivide() {
    let p = parse_pattern("bd*2 sn").unwrap();
    let e = hits(&p, 0);
    assert_eq!(e.len(), 3);
    assert!((e[0].0 - 0.0).abs() < 1e-6 && e[0].1 == "bd");
    assert!((e[1].0 - 0.25).abs() < 1e-6 && e[1].1 == "bd");
    assert!((e[2].0 - 0.5).abs() < 1e-6 && e[2].1 == "sn");
}

#[test]
fn tidal_stack_layers_full_cycle() {
    let p = parse_pattern("stack [ bd sn, hh cp ]").unwrap();
    let e = hits(&p, 0);
    assert_eq!(e.len(), 4);
    let mut fs: Vec<f64> = e.iter().map(|x| x.0).collect();
    fs.sort_by(|a, b| a.partial_cmp(b).unwrap());
    assert!((fs[0] - 0.0).abs() < 1e-6);
    assert!((fs[1] - 0.0).abs() < 1e-6);
    assert!((fs[2] - 0.5).abs() < 1e-6);
    assert!((fs[3] - 0.5).abs() < 1e-6);
}

#[test]
fn rev_transform_reverses_hit_order() {
    let p = Pat::Rev(Box::new(parse_pattern("bd sn hh").unwrap()));
    let mut e = hits(&p, 0);
    e.sort_by(|a, b| a.0.partial_cmp(&b.0).unwrap());
    assert_eq!(e.len(), 3);
    assert_eq!(e[0].1, "hh");
    assert_eq!(e[1].1, "sn");
    assert_eq!(e[2].1, "bd");
}

#[test]
fn rev_preserves_stacked_groups() {
    let p = Pat::Rev(Box::new(parse_pattern("[bd sn] hh").unwrap()));
    let e = hits(&p, 0);
    assert_eq!(e.len(), 3);
    let mut at_zero: Vec<&str> = e
        .iter()
        .filter(|(t, _)| (*t - 0.0).abs() < 1e-9)
        .map(|(_, s)| s.as_str())
        .collect();
    at_zero.sort();
    assert_eq!(at_zero, vec!["hh"]);
    let mut at_half: Vec<&str> = e
        .iter()
        .filter(|(t, _)| (*t - 0.5).abs() < 1e-9)
        .map(|(_, s)| s.as_str())
        .collect();
    at_half.sort();
    assert_eq!(at_half, vec!["bd", "sn"]);
}

#[test]
fn euclid_generates_expected_pulses() {
    let p = parse_pattern("euclid(3,8,0) bd").unwrap();
    let e = hits(&p, 0);
    assert_eq!(e.len(), 3);
    assert!((e[0].0 - 0.0).abs() < 1e-9);
    assert!((e[1].0 - 0.375).abs() < 1e-9);
    assert!((e[2].0 - 0.75).abs() < 1e-9);
}

#[test]
fn every_applies_transform_on_matching_cycles() {
    let base = parse_pattern("bd sn").unwrap();
    let p = Pat::Every(2, Box::new(Pat::Pal(Box::new(base.clone()))), Box::new(base));
    let mut e0 = hits(&p, 0);
    let mut e1 = hits(&p, 1);
    e0.sort_by(|a, b| a.0.partial_cmp(&b.0).unwrap());
    e1.sort_by(|a, b| a.0.partial_cmp(&b.0).unwrap());
    assert_eq!(e0[0].1, "bd");
    assert_eq!(e1[0].1, "bd");
}

#[test]
fn transform_keywords_are_rejected_inside_pattern_string() {
    let err = parse_pattern("pal bd sn").unwrap_err();
    assert!(err.contains("outside quotes"));
}

// What the notation turns down, and how.

#[test]
fn malformed_patterns_are_turned_down() {
    let cases = [
        ("[bd", "unclosed '['"),
        ("[ ]", "empty stack '[]'"),
        ("<bd", "unclosed '<'"),
        ("<>", "empty alternate '<>'"),
        ("bd ]", "expected atom"),
        ("[bd >", "expected atom"),
        ("stack bd", "`stack` must be followed by `[`"),
        ("stack [ bd", "unclosed `[`"),
        ("stack [ , ]", "nothing between commas in stack"),
        ("stack [ [, sn ]", "unclosed `[`"),
        ("stack [ <, sn ]", "unclosed '<'"),
        ("euclid 3", "euclid: expected `(`"),
        ("euclid(x", "euclid: expected integer argument"),
        ("euclid(99999999999,8) bd", "euclid: invalid integer"),
        ("euclid(-1,8) bd", "euclid: expected non-negative integer"),
        ("euclid(3 8) bd", "euclid: expected comma after pulses"),
        ("euclid(3,8 bd", "euclid: expected `)`"),
        ("euclid(0,0) bd", "euclid: steps must be >= 1"),
        ("euclid(9,8) bd", "euclid: pulses must be <= steps"),
        ("euclid(3,8)", "euclid: expected sample token"),
        ("bd*0", "repeat count must be 1–256, got 0"),
        ("bd*0257", "repeat count must be 1–256, got 257"),
        ("bd*99999999999999999999999", "bad * repeat count"),
        (
            "Slow",
            "transform `Slow` must be used outside quotes (e.g. `Slow $ s \"...\"`)",
        ),
    ];
    for (text, message) in cases {
        assert_eq!(parse_pattern(text).unwrap_err(), message, "{text}");
    }
}

#[test]
fn odd_tokens_are_atoms() {
    for text in ["*3", "bd*", "bd*x", "stacked", "euclidean", "a~b", "bd:1", "été"] {
        assert_eq!(parse_pattern(text).unwrap(), Pat::Atom(text.to_string()), "{text}");
    }
    assert_eq!(parse_pattern("").unwrap(), Pat::Sequence(vec![]));
    assert_eq!(parse_pattern(" ~ ").unwrap(), Pat::Rest);
    assert_eq!(
        parse_pattern("a*2*2").unwrap(),
        Pat::Sequence(vec![Pat::Atom("a*2".to_string()), Pat::Atom("a*2".to_string())])
    );
}

#[test]
fn euclid_takes_rotation_and_lower_case() {
    assert_eq!(
        parse_pattern("EUCLID ( 3 , +8 , 2 ) BD").unwrap(),
        Pat::Euclid(3, 8, 2, "bd".to_string())
    );
    let e = hits(&parse_pattern("euclid(3,8,2) bd").unwrap(), 0);
    let ts: Vec<f64> = e.iter().map(|x| x.0).collect();
    assert_eq!(ts, vec![0.125, 0.5, 0.75]);
}

// What holds of every pattern, on some.

#[test]
fn rev_twice_gives_the_pattern_back() {
    let p = parse_pattern("bd [sn hh] ~ <cp lt>").unwrap();
    let twice = Pat::Rev(Box::new(Pat::Rev(Box::new(p.clone()))));
    for cycle in 0..4 {
        assert_eq!(hits(&p, cycle), hits(&twice, cycle));
    }
}

#[test]
fn rotations_add_up() {
    let p = parse_pattern("a b c d e").unwrap();
    let there = Pat::Rot(7, Box::new(p.clone()));
    let back = Pat::Rot(-7, Box::new(there.clone()));
    assert_eq!(hits(&back, 0), hits(&p, 0));
    let at: Vec<f64> = hits(&there, 0).iter().map(|x| x.0).collect();
    assert_eq!(at, vec![0.4, 0.6, 0.8, 0.0, 0.2]);
}

#[test]
fn palindrome_plays_back_without_the_ends() {
    let p = Pat::Pal(Box::new(parse_pattern("a b c").unwrap()));
    let e = hits(&p, 0);
    assert_eq!(
        e,
        vec![
            (0.0, "a".to_string()),
            (0.25, "b".to_string()),
            (0.5, "c".to_string()),
            (0.75, "b".to_string()),
        ]
    );
    let single = Pat::Pal(Box::new(parse_pattern("a").unwrap()));
    assert_eq!(hits(&single, 0), vec![(0.0, "a".to_string())]);
}

#[test]
fn fast_plays_inner_cycles_in_turn() {
    let p = Pat::Fast(2, Box::new(parse_pattern("<a b c> x").unwrap()));
    let e = hits(&p, 1);
    let tokens: Vec<&str> = e.iter().map(|x| x.1.as_str()).collect();
    assert_eq!(tokens, vec!["c", "x", "a", "x"]);
    assert_eq!(e[2].0, 0.5);
    let none = Pat::Fast(0, Box::new(parse_pattern("a").unwrap()));
    assert_eq!(hits(&none, 0).len(), 1);
    assert_eq!(hits(&p, u64::MAX).len(), 4);
}

#[test]
fn slow_plays_every_hit_once() {
    let p = Pat::Slow(3, Box::new(parse_pattern("a b c d").unwrap()));
    let all: Vec<Vec<(f64, String)>> = (0..3).map(|c| hits(&p, c)).collect();
    assert_eq!(all.iter().map(|e| e.len()).sum::<usize>(), 4);
    assert_eq!(all[0], vec![(0.0, "a".to_string()), (0.75, "b".to_string())]);
    assert_eq!(all[1], vec![(0.5, "c".to_string())]);
    assert_eq!(all[2], vec![(0.25, "d".to_string())]);
    assert_eq!(hits(&p, 3), all[0]);
}

#[test]
fn euclid_has_as_many_hits_as_pulses() {
    for n in 1..13u32 {
        for k in 0..n + 1 {
            for r in 0..n {
                let p = Pat::Euclid(k, n, r, "x".to_string());
                assert_eq!(hits(&p, 0).len(), k as usize, "{k} {n} {r}");
            }
        }
    }
}

#[test]
fn hits_stay_within_the_window() {
    let p = parse_pattern("a*3 [b <c d*2>] stack [ e, g f ] euclid(3,8,1) h ~").unwrap();
    let wrapped = Pat::Fast(
        3,
        Box::new(Pat::Rot(2, Box::new(Pat::Slow(2, Box::new(Pat::Pal(Box::new(p))))))),
    );
    for cycle in 0..6 {
        for (t, _) in hits(&wrapped, cycle) {
            assert!((0.0..1.0).contains(&t));
        }
    }
}

#[test]
fn tokens_of_a_pattern() {
    let p = parse_pattern("a [b ~] <c stack [d, e]> f*2 euclid(1,4) g").unwrap();
    let mut tokens = p.tokens();
    tokens.sort();
    tokens.dedup();
    assert_eq!(tokens, vec!["a", "b", "c", "d", "e", "f", "g"]);
}

// Lanes.

#[test]
fn rests_in_a_lane_are_neutral_and_take_their_turn() {
    let s = parse_pattern("a b c d").unwrap();
    let g = parse_pattern("0.5 ~").unwrap();
    let e: Vec<f64> = gains(&s, &g, 0).iter().map(|x| x.2).collect();
    assert_eq!(e, vec![0.5, 1.0, 0.5, 1.0]);
    let pan = parse_pattern("~ -1").unwrap();
    let e = eval_with_gain_pan(&s, None, Some(&pan), 0, &Ratio::zero(), &Ratio::one()).unwrap();
    let pans: Vec<f64> = e.iter().map(|x| value(&x.3)).collect();
    assert_eq!(pans, vec![0.0, -1.0, 0.0, -1.0]);
    assert!(e.iter().all(|x| value(&x.2) == 1.0));
}

#[test]
fn lanes_without_entries_say_nothing() {
    let s = parse_pattern("a b").unwrap();
    let empty = parse_pattern("").unwrap();
    let e = eval_with_gains(&s, Some(&empty), 0, &Ratio::zero(), &Ratio::one()).unwrap();
    assert!(e.iter().all(|x| value(&x.2) == 1.0));
}

#[test]
fn control_lanes_reach_their_hits() {
    let lane = |s: &str| parse_pattern(s).unwrap();
    let sound = lane("a b c");
    let (gain, pan, prob) = (lane("2"), lane("-0.5 0.5"), lane("0.25 ~"));
    let (dur, legato, group) = (lane("~ 120"), lane("0.5"), lane("1 ~ 2"));
    let (voices, cutoff) = (lane("3"), lane("7.5"));
    let e = eval_with_control_lanes(
        &sound,
        Some(&gain),
        Some(&pan),
        Some(&prob),
        Some(&dur),
        Some(&legato),
        Some(&group),
        Some(&voices),
        Some(&cutoff),
        0,
        &Ratio::zero(),
        &Ratio::one(),
    )
    .unwrap();
    assert_eq!(e.len(), 3);
    let probs: Vec<Option<f64>> = e.iter().map(|h| h.prob.as_ref().map(value)).collect();
    assert_eq!(probs, vec![Some(0.25), None, Some(0.25)]);
    let durs: Vec<Option<f64>> = e.iter().map(|h| h.dur.as_ref().map(value)).collect();
    assert_eq!(durs, vec![None, Some(120.0), None]);
    let groups: Vec<Option<i32>> = e.iter().map(|h| h.cut_group).collect();
    assert_eq!(groups, vec![Some(1), None, Some(2)]);
    for h in &e {
        assert_eq!(value(&h.gain), 2.0);
        assert_eq!(h.legato.as_ref().map(value), Some(0.5));
        assert_eq!(h.cut_voices, Some(3));
        assert_eq!(h.cutoff.as_ref().map(value), Some(7.5));
    }
    assert_eq!(value(&e[2].pan), -0.5);
    let bare = eval_with_control_lanes(
        &sound, None, None, None, None, None, None, None, None, 0, &Ratio::zero(), &Ratio::one(),
    )
    .unwrap();
    assert_eq!(bare[0].prob.as_ref().map(value), Some(1.0));
    assert!(bare[0].dur.is_none() && bare[0].cut_group.is_none());
}

#[test]
fn numbers_in_lanes() {
    let s = parse_pattern("x").unwrap();
    let read = |text: &str| gains(&s, &parse_pattern(text).unwrap(), 0)[0].2;
    for (text, x) in [
        ("1", 1.0),
        ("+2.5", 2.5),
        (".5", 0.5),
        ("5.", 5.0),
        ("1e2", 100.0),
        ("25E-2", 0.25),
        ("-0", 0.0),
        ("000.125", 0.125),
        ("1e-60", 0.0),
        ("-1e-60", 0.0),
        ("3e38", f64::from(3e38f32)),
        ("0.1", f64::from(0.1f32)),
        ("0e99999999999999999999999999999999999999", 0.0),
        ("1e-99999999999999999999999999999999999999", 0.0),
    ] {
        assert!((read(text) - x).abs() <= x * 1e-12, "{text}");
    }
}

#[test]
fn lanes_turn_numbers_down() {
    for (text, message) in [
        ("x", "gain lane: expected a non-negative number, got \"x\""),
        ("1e", "gain lane: expected a non-negative number, got \"1e\""),
        ("1e+", "gain lane: expected a non-negative number, got \"1e+\""),
        (".", "gain lane: expected a non-negative number, got \".\""),
        ("1.2.3", "gain lane: expected a non-negative number, got \"1.2.3\""),
        ("a\\b", "gain lane: expected a non-negative number, got \"a\\\\b\""),
        ("-1", "gain lane: invalid value -1"),
        ("inf", "gain lane: invalid value inf"),
        ("-Infinity", "gain lane: invalid value -inf"),
        ("nan", "gain lane: invalid value NaN"),
        ("-NAN", "gain lane: invalid value NaN"),
        ("4e38", "gain lane: invalid value inf"),
        ("-1e99999999999999999999999999999999999999", "gain lane: invalid value -inf"),
        ("-1.50", "gain lane: invalid value -1.5"),
        ("-1e3", "gain lane: invalid value -1000"),
        ("-16777217", "gain lane: invalid value -16777216"),
    ] {
        assert_eq!(gain_error(text), message, "{text}");
    }
}

#[test]
fn every_lane_names_itself() {
    let s = parse_pattern("x").unwrap();
    let run = |which: usize, text: &str| -> String {
        let p = parse_pattern(text).unwrap();
        let pick = |i: usize| if i == which { Some(&p) } else { None };
        eval_with_control_lanes(
            &s,
            pick(0),
            pick(1),
            pick(2),
            pick(3),
            pick(4),
            pick(5),
            pick(6),
            pick(7),
            0,
            &Ratio::zero(),
            &Ratio::one(),
        )
        .unwrap_err()
    };
    for (which, text, message) in [
        (1, "x", "pan lane: expected a number in [-1,1], got \"x\""),
        (1, "1.5", "pan lane: invalid value 1.5 (expected -1..=1)"),
        (2, "x", "prob lane: expected a number in [0,1], got \"x\""),
        (2, "-0.1", "prob lane: invalid value -0.1 (expected 0..=1)"),
        (3, "x", "dur lane: expected a non-negative number (ms), got \"x\""),
        (3, "-1", "dur lane: invalid value -1"),
        (4, "x", "legato lane: expected a non-negative number, got \"x\""),
        (4, "-1", "legato lane: invalid value -1"),
        (5, "x", "cut lane: expected integer group >= 0, got \"x\""),
        (5, "-3", "cut lane: invalid group -3"),
        (6, "-1", "cut lane: expected integer voices >= 1, got \"-1\""),
        (6, "0", "cut lane: voices must be >= 1"),
        (7, "x", "cutoff lane: expected non-negative milliseconds, got \"x\""),
        (7, "-1", "cutoff lane: invalid value -1"),
    ] {
        assert_eq!(run(which, text), message, "{which} {text}");
    }
}

#[test]
fn euclid_pulses_lie_evenly() {
    for n in 1..17u32 {
        for k in 1..n + 1 {
            let p = Pat::Euclid(k, n, 0, "x".to_string());
            let steps: Vec<u32> =
                hits(&p, 0).iter().map(|h| (h.0 * f64::from(n)).round() as u32).collect();
            assert_eq!(steps[0], 0);
            for (i, step) in steps.iter().enumerate() {
                let next = if i + 1 < steps.len() { steps[i + 1] } else { n };
                let gap = next - step;
                assert!(gap == n / k || gap == n.div_ceil(k), "{k} {n}: {steps:?}");
            }
        }
    }
}

#[test]
fn one_branch_of_a_turn_plays_whole() {
    let a = parse_pattern("x [y z]").unwrap();
    let b = parse_pattern("w*3").unwrap();
    let turn = Pat::Alt(vec![a.clone(), b.clone()]);
    let every = Pat::Every(3, Box::new(b.clone()), Box::new(a.clone()));
    for cycle in 0..6u64 {
        let branch = if cycle % 2 == 0 { &a } else { &b };
        assert_eq!(hits(&turn, cycle), hits(branch, cycle));
        let chosen = if cycle % 3 == 0 { &b } else { &a };
        assert_eq!(hits(&every, cycle), hits(chosen, cycle));
    }
}

#[test]
fn slots_are_added_to_what_is_there() {
    let (zero, one) = (Ratio::zero(), Ratio::one());
    let turn = parse_pattern("<a [b ~]>").unwrap();
    let mut out = Vec::new();
    eval_inner(&turn, true, 0, &zero, &one, &mut out);
    eval_inner(&turn, true, 1, &zero, &one, &mut out);
    eval_inner(&turn, false, 1, &zero, &one, &mut out);
    let tokens: Vec<Option<&str>> = out.iter().map(|s| s.token.as_deref()).collect();
    assert_eq!(tokens, vec![Some("a"), Some("b"), None, Some("b")]);
}
