//! Normalized schedules of whole pattern files.

use sequencer::banks::{Catalog, Folder};
use sequencer::dsl::events::Event;
use sequencer::dsl::{parse, TempoWrap, TrackKind};
use sequencer::event_spec::{normalize_schedule, NormalizedHit, Places};
use sequencer::ratio::Ratio;
use sequencer::table::Table;

const ROOT: &str = "/srv/samples";

fn fixture_standard_banks() -> Catalog {
    let mut samples = Catalog::new(ROOT.to_string());
    for bank in ["bd", "sn", "hh", "cp"] {
        let names = ["c.wav", "a.wav", "b.wav"].iter().map(|n| n.to_string()).collect();
        samples.learn(bank.to_string(), Folder { is_dir: true, listing: Ok(names) });
    }
    samples
}

/// The samples are where their paths say.
fn normalize(events: Vec<Event>) -> Vec<NormalizedHit> {
    let mut canonical = Table::new();
    for e in &events {
        canonical.insert(e.path.clone(), e.path.clone());
    }
    normalize_schedule(&Places { root: Some(ROOT.to_string()), canonical }, events)
}

fn exact(x: f64) -> Ratio {
    Ratio::fraction((x * 1048576.0) as u64, 1048576)
}

fn hit(phase: f64, sample: &str, gain: f64) -> NormalizedHit {
    NormalizedHit {
        phase: exact(phase),
        sample_relpath: sample.into(),
        gain: exact(gain),
        pan: Ratio::zero(),
    }
}

#[test]
fn golden_pattern_four_equal_steps() {
    let root = fixture_standard_banks();
    let src = "d1 $ s \"bd:1 bd:1 bd:1 bd:1\"\n";
    let p = parse(src, 100, &root).unwrap();
    let raw = p.events_for_track(&p.tracks[0], 0, &root).unwrap();
    let h = normalize(raw);
    let expected = vec![
        hit(0.0, "bd/a.wav", 1.0),
        hit(0.25, "bd/a.wav", 1.0),
        hit(0.5, "bd/a.wav", 1.0),
        hit(0.75, "bd/a.wav", 1.0),
    ];
    assert_eq!(h, expected);
}

#[test]
fn golden_pat_seq_two_steps_resolves_banks() {
    let root = fixture_standard_banks();
    let src = "d1 $ s \"bd:1 sn:1\"\n";
    let p = parse(src, 100, &root).unwrap();
    let raw = p.events_for_track(&p.tracks[0], 0, &root).unwrap();
    let h = normalize(raw);
    assert_eq!(h, vec![hit(0.0, "bd/a.wav", 1.0), hit(0.5, "sn/a.wav", 1.0)]);
}

#[test]
fn golden_alternate_cycles_0_and_1() {
    let root = fixture_standard_banks();
    let src = "d1 $ s \"<bd:1 sn:1>\"\n";
    let p = parse(src, 100, &root).unwrap();
    let t = &p.tracks[0];
    let h0 = normalize(p.events_for_track(t, 0, &root).unwrap());
    let h1 = normalize(p.events_for_track(t, 1, &root).unwrap());
    assert_eq!(h0, vec![hit(0.0, "bd/a.wav", 1.0)]);
    assert_eq!(h1, vec![hit(0.0, "sn/a.wav", 1.0)]);
}

#[test]
fn golden_stack_same_step_two_samples() {
    let root = fixture_standard_banks();
    let src = "d1 $ s \"[bd:1 sn:1]\"\n";
    let p = parse(src, 100, &root).unwrap();
    let h = normalize(p.events_for_track(&p.tracks[0], 0, &root).unwrap());
    assert_eq!(h, vec![hit(0.0, "bd/a.wav", 1.0), hit(0.0, "sn/a.wav", 1.0)]);
}

#[test]
fn golden_stack_layers_full_cycle() {
    let root = fixture_standard_banks();
    let src = "d1 $ s \"stack [ bd:1 sn:1, hh:1 cp:1 ]\"\n";
    let p = parse(src, 100, &root).unwrap();
    let h = normalize(p.events_for_track(&p.tracks[0], 0, &root).unwrap());
    assert_eq!(h.len(), 4);
    assert_eq!(h[0], hit(0.0, "bd/a.wav", 1.0));
    assert_eq!(h[1], hit(0.0, "hh/a.wav", 1.0));
    assert_eq!(h[2], hit(0.5, "cp/a.wav", 1.0));
    assert_eq!(h[3], hit(0.5, "sn/a.wav", 1.0));
}

#[test]
fn golden_star_repeat_subdivide() {
    let root = fixture_standard_banks();
    let src = "d1 $ s \"bd:1*2 sn:1\"\n";
    let p = parse(src, 100, &root).unwrap();
    let h = normalize(p.events_for_track(&p.tracks[0], 0, &root).unwrap());
    assert_eq!(
        h,
        vec![
            hit(0.0, "bd/a.wav", 1.0),
            hit(0.25, "bd/a.wav", 1.0),
            hit(0.5, "sn/a.wav", 1.0),
        ]
    );
}

#[test]
fn golden_gain_lane_zip() {
    let root = fixture_standard_banks();
    let src = r#"d1 $ s "bd:1 sn:1" # gain "1 0.5""#;
    let p = parse(src, 100, &root).unwrap();
    let h = normalize(p.events_for_track(&p.tracks[0], 0, &root).unwrap());
    assert_eq!(h, vec![hit(0.0, "bd/a.wav", 1.0), hit(0.5, "sn/a.wav", 0.5)]);
}

#[test]
fn golden_d3_prefix_orbit_name() {
    let root = fixture_standard_banks();
    let src = "d3 $ s \"bd:2\"\n";
    let p = parse(src, 100, &root).unwrap();
    assert_eq!(p.tracks[0].name, "d3");
    let h = normalize(p.events_for_track(&p.tracks[0], 0, &root).unwrap());
    assert_eq!(h, vec![hit(0.0, "bd/b.wav", 1.0)]);
}

#[test]
fn golden_alias_in_pattern() {
    let root = fixture_standard_banks();
    let src = "alias kick bd:2\nd1 $ s \"kick sn:1\"\n";
    let p = parse(src, 100, &root).unwrap();
    let h = normalize(p.events_for_track(&p.tracks[0], 0, &root).unwrap());
    assert_eq!(h, vec![hit(0.0, "bd/b.wav", 1.0), hit(0.5, "sn/a.wav", 1.0)]);
}

#[test]
fn golden_slow_two_alternates_across_cycles() {
    let root = fixture_standard_banks();
    let src = "d1 $ slow 2 $ s \"bd:1 sn:1\"\n";
    let p = parse(src, 100, &root).unwrap();
    let TrackKind::Pattern { tempo, .. } = &p.tracks[0].kind;
    assert_eq!(tempo, &Some(TempoWrap::Slow(2)));
    let h0 = normalize(p.events_for_track(&p.tracks[0], 0, &root).unwrap());
    let h1 = normalize(p.events_for_track(&p.tracks[0], 1, &root).unwrap());
    assert_eq!(h0, vec![hit(0.0, "bd/a.wav", 1.0)]);
    assert_eq!(h1, vec![hit(0.0, "sn/a.wav", 1.0)]);
}

#[test]
fn golden_silence_skips_scheduling() {
    let root = fixture_standard_banks();
    let src = "d1 $ s \"bd:1\"\nd2 $ s \"sn:1\"\nsilence d1\n";
    let p = parse(src, 100, &root).unwrap();
    assert!(p.is_silenced("d1"));
    assert!(!p.is_silenced("d2"));
    let h0 = normalize(p.events_for_track(&p.tracks[0], 0, &root).unwrap());
    let h1 = normalize(p.events_for_track(&p.tracks[1], 0, &root).unwrap());
    assert!(h0.is_empty());
    assert_eq!(h1, vec![hit(0.0, "sn/a.wav", 1.0)]);
}

#[test]
fn golden_track_pattern_gain_scales() {
    let root = fixture_standard_banks();
    let src = "d1 $ gain 0.5 s \"bd:1\"\n";
    let p = parse(src, 100, &root).unwrap();
    let h = normalize(p.events_for_track(&p.tracks[0], 0, &root).unwrap());
    assert_eq!(h, vec![hit(0.0, "bd/a.wav", 0.5)]);
}

#[test]
fn golden_fixture_file_inline_seq() {
    let root = fixture_standard_banks();
    let src = "-- one snare\nd1 $ s \"sn:2\"\n";
    let p = parse(src, 100, &root).unwrap();
    assert_eq!(p.tracks.len(), 1);
    let h = normalize(p.events_for_track(&p.tracks[0], 0, &root).unwrap());
    assert_eq!(h, vec![hit(0.0, "sn/b.wav", 1.0)]);
}

#[test]
fn hits_that_all_but_agree_are_equal() {
    let near = NormalizedHit {
        phase: Ratio::fraction(1, 1_000_000_000),
        sample_relpath: "bd/a.wav".to_string(),
        gain: Ratio::fraction(999_999, 1_000_000),
        pan: Ratio::zero(),
    };
    assert_eq!(near, hit(0.0, "bd/a.wav", 1.0));
    assert_ne!(near, hit(0.0, "bd/b.wav", 1.0));
    assert_ne!(near, hit(0.0, "bd/a.wav", 0.5));
    assert_ne!(hit(0.25, "bd/a.wav", 1.0), hit(0.5, "bd/a.wav", 1.0));
}

#[test]
fn samples_without_a_place_below_the_root_go_by_their_file_names() {
    let root = Catalog::new(ROOT.to_string());
    let src = "d1 $ s \"/else/where/x.wav kit/y.wav up/.. /\"\n";
    let p = parse(src, 100, &root).unwrap();
    let events = p.events_for_track(&p.tracks[0], 0, &root).unwrap();
    let mut canonical = Table::new();
    canonical.insert("/else/where/x.wav".to_string(), "/else/where/x.wav".to_string());
    let places = Places { root: Some(ROOT.to_string()), canonical };
    let names: Vec<String> = normalize_schedule(&places, events)
        .into_iter()
        .map(|h| h.sample_relpath)
        .collect();
    assert_eq!(names, vec!["x.wav", "y.wav", "/srv/samples/up/..", "/"]);
    let none = Places { root: None, canonical: Table::new() };
    let events = p.events_for_track(&p.tracks[0], 0, &root).unwrap();
    assert_eq!(normalize_schedule(&none, events)[0].sample_relpath, "x.wav");
}

#[test]
fn backslashes_below_the_root_become_slashes() {
    let root = Catalog::new(ROOT.to_string());
    let p = parse("d1 $ s \"a\\b.wav\"\n", 100, &root).unwrap();
    let h = normalize(p.events_for_track(&p.tracks[0], 0, &root).unwrap());
    assert_eq!(h[0].sample_relpath, "a/b.wav");
}
