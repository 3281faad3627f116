//! Pattern files: directives, tracks and what they play.

use std::path::Path;

use sequencer::banks::{list_bank_wavs, resolve_bank_sample, Catalog, Folder};
use sequencer::bignat::Nat;
use sequencer::dsl::events::Event;
use sequencer::dsl::inclusion::{expand_include_directives, Expanded, FileFacts, Files};
use sequencer::dsl::lines::statement_boundary_complete;
use sequencer::dsl::needs::alias_targets;
use sequencer::dsl::sound::parse_s_clause;
use sequencer::dsl::{
    merge_statement_lines, parse, parse_bank_ref, parse_with_options, resolve_sample_path,
    strip_comment, Program, TempoWrap, TrackKind,
};
use sequencer::pat::Pat;
use sequencer::ratio::Ratio;
use sequencer::table::Table;

fn magnitude(n: &Nat) -> f64 {
    n.limbs.iter().rev().fold(0.0, |acc, d| acc * 4294967296.0 + f64::from(*d))
}

fn value(r: &Ratio) -> f64 {
    let top = magnitude(&r.numerator().magnitude) / magnitude(r.denominator());
    if r.numerator().negative {
        -top
    } else {
        top
    }
}

fn root() -> Catalog {
    Catalog::new("/songs".to_string())
}

fn with_bank(samples: &mut Catalog, name: &str, files: &[&str]) {
    let names = files.iter().map(|n| n.to_string()).collect();
    samples.learn(name.to_string(), Folder { is_dir: true, listing: Ok(names) });
}

fn file_name(e: &Event) -> &str {
    Path::new(&e.path).file_name().unwrap().to_str().unwrap()
}

fn fail(source: &str) -> (usize, String) {
    let e = parse(source, 100, &root()).unwrap_err();
    (e.line, e.message)
}

#[test]
fn parses_example() {
    let root = root();
    let src = "bpm 120\nd1 $ s \"k.wav k.wav\"\n";
    let p = parse(src, 100, &root).unwrap();
    assert_eq!(p.bpm, 120);
    assert_eq!(p.tracks.len(), 1);
    assert_eq!(value(&p.tracks[0].gain), 1.0);
    let ev = p.events_for_track(&p.tracks[0], 0, &root).unwrap();
    assert_eq!(ev.len(), 2);
    assert!((value(&ev[0].frac) - 0.0).abs() < 1e-9);
    assert!((value(&ev[1].frac) - 0.5).abs() < 1e-9);
    assert!(Path::new(&ev[0].path).ends_with("k.wav"));
}

#[test]
fn parses_two_tracks_same_hit() {
    let root = root();
    let src = "bpm 280\nd1 $ s \"k.wav\"\nd2 $ s \"s.wav\"\n";
    let p = parse(src, 100, &root).unwrap();
    assert_eq!(p.bpm, 280);
    assert_eq!(p.tracks.len(), 2);
    let ev0 = p.events_for_track(&p.tracks[0], 0, &root).unwrap();
    let ev1 = p.events_for_track(&p.tracks[1], 0, &root).unwrap();
    assert_eq!(ev0.len(), 1);
    assert_eq!(ev1.len(), 1);
    assert!((value(&ev0[0].frac) - 0.0).abs() < 1e-9);
    assert!((value(&ev1[0].frac) - 0.0).abs() < 1e-9);
}

#[test]
fn later_same_orbit_replaces_earlier_definition() {
    let root = root();
    let src = "d1 $ s \"bd.wav\"\nd1 $ s \"sn.wav\"\n";
    let p = parse(src, 100, &root).unwrap();
    assert_eq!(p.tracks.len(), 1);
    assert_eq!(p.tracks[0].name, "d1");
    let ev = p.events_for_track(&p.tracks[0], 0, &root).unwrap();
    assert_eq!(ev.len(), 1);
    assert_eq!(file_name(&ev[0]), "sn.wav");
}

#[test]
fn bank_ref_second_file() {
    let mut root = root();
    with_bank(&mut root, "bd", &["a.wav", "b.wav", "c.wav"]);
    let src = "d1 $ s \"bd:2\"\n";
    let p = parse(src, 100, &root).unwrap();
    let ev = p.events_for_track(&p.tracks[0], 0, &root).unwrap();
    assert_eq!(file_name(&ev[0]), "b.wav");
}

#[test]
fn alias_expands() {
    let mut root = root();
    with_bank(&mut root, "bd", &["x.wav"]);
    let src = "alias foo bd:1\nbpm 100\nd1 $ s \"foo\"\n";
    let p = parse(src, 100, &root).unwrap();
    let ev = p.events_for_track(&p.tracks[0], 0, &root).unwrap();
    assert_eq!(file_name(&ev[0]), "x.wav");
}

#[test]
fn track_optional_gain() {
    let root = root();
    let src = "d1 $ gain 0.25 s \"a.wav\"\n";
    let p = parse(src, 100, &root).unwrap();
    assert_eq!(value(&p.tracks[0].gain), 0.25);
    let ev = p.events_for_track(&p.tracks[0], 0, &root).unwrap();
    assert_eq!(ev.len(), 1);
    assert!((value(&ev[0].gain) - 0.25).abs() < 1e-6);
}

#[test]
fn master_gain_scales_after_track_gain() {
    let root = root();
    let src = "master 0.5\nd1 $ gain 0.4 s \"a.wav\"\n";
    let p = parse(src, 100, &root).unwrap();
    assert!((value(&p.master_gain) - 0.5).abs() < 1e-6);
    let ev = p.events_for_track(&p.tracks[0], 0, &root).unwrap();
    assert!((value(&ev[0].gain) - 0.2).abs() < 1e-5);
}

#[test]
fn file_level_performance_controls_parse() {
    let root = root();
    let src = "swing 0.3\nhumanize_ms 4.5\nreload_quantum_cycles 3\nd1 $ s \"a.wav\"\n";
    let p = parse(src, 100, &root).unwrap();
    assert_eq!(p.swing.as_ref().map(value), Some(0.3));
    assert_eq!(p.humanize_ms.as_ref().map(value), Some(4.5));
    assert_eq!(p.reload_quantum_cycles, Some(3));
}

#[test]
fn track_pat_mini() {
    let root = root();
    let src = "d1 $ s \"k.wav s.wav\"\n";
    let p = parse(src, 100, &root).unwrap();
    let TrackKind::Pattern { .. } = &p.tracks[0].kind;
    let ev = p.events_for_track(&p.tracks[0], 0, &root).unwrap();
    assert_eq!(ev.len(), 2);
    assert!((value(&ev[0].frac) - 0.0).abs() < 1e-9);
    assert!((value(&ev[1].frac) - 0.5).abs() < 1e-9);
    assert!((value(&ev[0].gain) - 1.0).abs() < 1e-6 && (value(&ev[1].gain) - 1.0).abs() < 1e-6);
}

#[test]
fn bank_folder_name_defaults_to_first_wav() {
    let mut root = root();
    with_bank(&mut root, "sn", &["a.wav", "b.wav"]);
    let src = "d1 $ s \"sn\"\n";
    let p = parse(src, 100, &root).unwrap();
    let ev = p.events_for_track(&p.tracks[0], 0, &root).unwrap();
    assert_eq!(file_name(&ev[0]), "a.wav");
}

#[test]
fn pat_hash_gain_lane() {
    let root = root();
    let src = "d1 $ s \"a.wav b.wav\" # gain \"1 0.25\"\n";
    let p = parse(src, 100, &root).unwrap();
    let ev = p.events_for_track(&p.tracks[0], 0, &root).unwrap();
    assert_eq!(ev.len(), 2);
    assert!((value(&ev[0].gain) - 1.0).abs() < 1e-6);
    assert!((value(&ev[1].gain) - 0.25).abs() < 1e-6);
}

#[test]
fn pat_hash_pan_lane() {
    let root = root();
    let src = "d1 $ s \"a.wav b.wav\" # pan \"-1 1\"\n";
    let p = parse(src, 100, &root).unwrap();
    let ev = p.events_for_track(&p.tracks[0], 0, &root).unwrap();
    assert_eq!(ev.len(), 2);
    assert!((value(&ev[0].pan) + 1.0).abs() < 1e-6);
    assert!((value(&ev[1].pan) - 1.0).abs() < 1e-6);
}

#[test]
fn unquoted_gain_and_pan_atoms_rejected() {
    let root = root();
    let src = "d1 $ s \"a.wav\" # gain 0.5 # pan -0.25\n";
    let err = parse(src, 100, &root).unwrap_err();
    assert!(err.message.contains("quoted pattern"));
}

#[test]
fn prob_lane_requires_quoted_pattern() {
    let root = root();
    let src = "d1 $ s \"a.wav b.wav\" # prob \"1 0.25\"\n";
    let p = parse(src, 100, &root).unwrap();
    let ev1 = p.events_for_track(&p.tracks[0], 0, &root).unwrap();
    assert_eq!(ev1.len(), 2);
    assert_eq!(ev1[0].prob.as_ref().map(value), Some(1.0));
    assert_eq!(ev1[1].prob.as_ref().map(value), Some(0.25));

    let bad = "d1 $ s \"a.wav\" # prob 0.5\n";
    let err = parse(bad, 100, &root).unwrap_err();
    assert!(err.message.contains("quoted pattern"));
}

#[test]
fn strip_comment_uses_double_dash() {
    let line = r#"d1 $ s "bd sn" # gain "1 0.5"  -- endcomment"#;
    let s = strip_comment(line);
    assert!(s.contains("# gain"));
    assert!(!s.contains("endcomment"));
}

#[test]
fn tidal_s_alias_and_d1() {
    let root = root();
    let src = "d1 $ s \"k.wav\"\n";
    let p = parse(src, 100, &root).unwrap();
    assert_eq!(p.tracks.len(), 1);
    assert_eq!(p.tracks[0].name, "d1");
    let TrackKind::Pattern { .. } = &p.tracks[0].kind;
    let ev = p.events_for_track(&p.tracks[0], 0, &root).unwrap();
    assert_eq!(ev.len(), 1);
}

fn by_time(mut ev: Vec<Event>) -> Vec<Event> {
    ev.sort_by(|a, b| value(&a.frac).partial_cmp(&value(&b.frac)).unwrap());
    ev
}

#[test]
fn rev_prefix_outside_sound_is_supported() {
    let root = root();
    let src = "d1 $ rev $ s \"a.wav b.wav\"\n";
    let p = parse(src, 100, &root).unwrap();
    let ev = by_time(p.events_for_track(&p.tracks[0], 0, &root).unwrap());
    assert_eq!(ev.len(), 2);
    assert_eq!(file_name(&ev[0]), "b.wav");
    assert_eq!(file_name(&ev[1]), "a.wav");
}

#[test]
fn pal_and_rot_prefixes_outside_sound_are_supported() {
    let root = root();
    let src = "d1 $ pal $ rot 1 $ s \"a.wav b.wav c.wav\"\n";
    let p = parse(src, 100, &root).unwrap();
    let ev = p.events_for_track(&p.tracks[0], 0, &root).unwrap();
    assert!(ev.len() >= 3);
}

#[test]
fn every_prefix_outside_sound_is_supported() {
    let root = root();
    let src = "d1 $ every 2 pal $ s \"a.wav b.wav\"\n";
    let p = parse(src, 100, &root).unwrap();
    let ev0 = p.events_for_track(&p.tracks[0], 0, &root).unwrap();
    let ev1 = p.events_for_track(&p.tracks[0], 1, &root).unwrap();
    assert!(ev0.len() >= 2);
    assert_eq!(ev1.len(), 2);
}

#[test]
fn tidal_d2_prefix_second_orbit() {
    let root = root();
    let src = "d2 $ s \"a.wav\"\nd1 $ s \"b.wav\"\n";
    let p = parse(src, 100, &root).unwrap();
    assert_eq!(p.tracks.len(), 2);
    assert_eq!(p.tracks[0].name, "d2");
    assert_eq!(p.tracks[1].name, "d1");
}

#[test]
fn pat_string_may_contain_stack_keyword() {
    let root = root();
    let src = "d1 $ s \"stack [ a.wav, b.wav ]\"\n";
    let p = parse(src, 100, &root).unwrap();
    let ev = p.events_for_track(&p.tracks[0], 0, &root).unwrap();
    assert_eq!(ev.len(), 2);
}

#[test]
fn merge_statement_lines_spans_unclosed_quote() {
    let src = "d1 $ s \"bd:1\nsn:1\"\n";
    let m = merge_statement_lines(src);
    assert_eq!(m.len(), 1);
    assert!(m[0].1.contains("bd:1") && m[0].1.contains("sn:1"));
    let mut root = root();
    with_bank(&mut root, "bd", &["a.wav"]);
    with_bank(&mut root, "sn", &["a.wav"]);
    let p = parse(src, 100, &root).unwrap();
    assert_eq!(p.tracks.len(), 1);
    assert_eq!(p.tracks[0].name, "d1");
    let ev = p.events_for_track(&p.tracks[0], 0, &root).unwrap();
    assert_eq!(ev.len(), 2);
}

#[test]
fn silence_mutes_named_track_only() {
    let root = root();
    let src = "d1 $ s \"a.wav\"\nd2 $ s \"b.wav\"\nsilence d1\n";
    let p = parse(src, 100, &root).unwrap();
    assert!(p.is_silenced("d1"));
    assert!(!p.is_silenced("d2"));
    assert!(p.events_for_track(&p.tracks[0], 0, &root).unwrap().is_empty());
    assert_eq!(p.events_for_track(&p.tracks[1], 0, &root).unwrap().len(), 1);
}

#[test]
fn mute_and_solo_controls_filter_tracks() {
    let root = root();
    let src = "mute d1\nd1 $ s \"a.wav\"\nd2 $ s \"b.wav\"\nsolo d2\n";
    let p = parse(src, 100, &root).unwrap();
    assert!(p.is_silenced("d1"));
    assert!(p.is_soloed("d2"));
    assert!(p.events_for_track(&p.tracks[0], 0, &root).unwrap().is_empty());
    assert_eq!(p.events_for_track(&p.tracks[1], 0, &root).unwrap().len(), 1);
}

#[test]
fn unsilence_restores_track() {
    let root = root();
    let src = "silence d1\nd1 $ s \"k.wav\"\nunsilence d1\n";
    let p = parse(src, 100, &root).unwrap();
    assert!(!p.is_silenced("d1"));
    assert_eq!(p.events_for_track(&p.tracks[0], 0, &root).unwrap().len(), 1);
}

#[test]
fn silence_before_track_definition_still_mutes() {
    let root = root();
    let src = "silence d3\nd3 $ s \"x.wav\"\n";
    let p = parse(src, 100, &root).unwrap();
    assert!(p.is_silenced("d3"));
    assert!(p.events_for_track(&p.tracks[0], 0, &root).unwrap().is_empty());
}

#[test]
fn slow_two_stretches_two_step_pattern_across_cycles() {
    let mut root = root();
    with_bank(&mut root, "bd", &["a.wav", "b.wav"]);
    let src = "d1 $ slow 2 $ s \"bd:1 bd:2\"\n";
    let p = parse(src, 100, &root).unwrap();
    let TrackKind::Pattern { tempo, .. } = &p.tracks[0].kind;
    assert_eq!(tempo, &Some(TempoWrap::Slow(2)));
    let ev0 = p.events_for_track(&p.tracks[0], 0, &root).unwrap();
    let ev1 = p.events_for_track(&p.tracks[0], 1, &root).unwrap();
    assert_eq!(ev0.len(), 1);
    assert_eq!(ev1.len(), 1);
    assert!((value(&ev0[0].frac) - 0.0).abs() < 1e-9);
    assert!((value(&ev1[0].frac) - 0.0).abs() < 1e-9);
    assert!(file_name(&ev0[0]) == "a.wav");
    assert!(file_name(&ev1[0]) == "b.wav");
}

#[test]
fn fast_two_fits_two_inner_cycles_in_one() {
    let mut root = root();
    with_bank(&mut root, "bd", &["a.wav", "b.wav"]);
    let src = "d1 $ fast 2 $ s \"bd:1 bd:2\"\n";
    let p = parse(src, 100, &root).unwrap();
    let TrackKind::Pattern { tempo, .. } = &p.tracks[0].kind;
    assert_eq!(tempo, &Some(TempoWrap::Fast(2)));
    let ev = p.events_for_track(&p.tracks[0], 0, &root).unwrap();
    assert_eq!(ev.len(), 4);
    let mut phases: Vec<f64> = ev.iter().map(|e| value(&e.frac)).collect();
    phases.sort_by(|a, b| a.partial_cmp(b).unwrap());
    assert!((phases[0] - 0.0).abs() < 1e-9);
    assert!((phases[1] - 0.25).abs() < 1e-9);
    assert!((phases[2] - 0.5).abs() < 1e-9);
    assert!((phases[3] - 0.75).abs() < 1e-9);
}

#[test]
fn implicit_d1_accepts_slow_prefix() {
    let root = root();
    let src = "slow 2 $ s \"x.wav\"\n";
    let p = parse(src, 100, &root).unwrap();
    assert_eq!(p.tracks[0].name, "d1");
    let TrackKind::Pattern { tempo, .. } = &p.tracks[0].kind;
    assert_eq!(tempo, &Some(TempoWrap::Slow(2)));
}

#[test]
fn merge_statement_lines_bracket_depth_outside_quotes() {
    let src = "x [ a\nb ]\n";
    let m = merge_statement_lines(src);
    assert_eq!(m.len(), 1);
    assert_eq!(m[0].1, "x [ a b ]");
}

#[test]
fn rejects_pat_keyword() {
    let root = root();
    let err = parse("d1 $ pat \"a.wav\"\n", 100, &root).unwrap_err();
    assert!(err.message.contains("s"));
}

#[test]
fn nested_rev_pal_chain_outer_rev_wraps_inner_pal() {
    let root = root();
    let src = "d1 $ rev $ pal $ s \"a.wav b.wav\"\n";
    let p = parse(src, 100, &root).unwrap();
    let ev = by_time(p.events_for_track(&p.tracks[0], 0, &root).unwrap());
    assert_eq!(ev.len(), 2);
    assert_eq!(file_name(&ev[0]), "b.wav");
    assert_eq!(file_name(&ev[1]), "a.wav");
    let TrackKind::Pattern { ast, .. } = &p.tracks[0].kind;
    let atoms = Pat::Sequence(vec![
        Pat::Atom("a.wav".to_string()),
        Pat::Atom("b.wav".to_string()),
    ]);
    assert_eq!(ast, &Pat::Rev(Box::new(Pat::Pal(Box::new(atoms)))));
}

#[test]
fn let_expands_in_sound_and_hash_lane() {
    let root = root();
    let src = "let hits \"a.wav b.wav\"\nlet gains \"1 0.25\"\nd1 $ s \"hits\" # gain \"gains\"\n";
    let p = parse(src, 100, &root).unwrap();
    let ev = p.events_for_track(&p.tracks[0], 0, &root).unwrap();
    assert_eq!(ev.len(), 2);
    assert!((value(&ev[0].gain) - 1.0).abs() < 1e-6);
    assert!((value(&ev[1].gain) - 0.25).abs() < 1e-6);
}

fn file(canonical: &str, text: &str) -> FileFacts {
    FileFacts { canonical: Ok(canonical.to_string()), content: Ok(text.to_string()) }
}

#[test]
fn include_inlines_relative_file_next_to_base() {
    let root = root();
    let mut files = Files::new("/songs".to_string());
    files.learn("/songs/part.seq".to_string(), file("/songs/part.seq", "d1 $ s \"k.wav\"\n"));
    let main_src = "include \"part.seq\"\n";
    let p = parse_with_options(main_src, 100, &root, Some(&files)).unwrap();
    assert_eq!(p.tracks.len(), 1);
    assert_eq!(p.events_for_track(&p.tracks[0], 0, &root).unwrap().len(), 1);
}

#[test]
fn include_cycle_errors() {
    let root = root();
    let mut files = Files::new("/songs".to_string());
    files.learn("/songs/a.seq".to_string(), file("/songs/a.seq", "include \"b.seq\"\n"));
    files.learn("/songs/b.seq".to_string(), file("/songs/b.seq", "include \"a.seq\"\n"));
    let err = parse_with_options("include \"a.seq\"\n", 100, &root, Some(&files)).unwrap_err();
    assert!(err.message.contains("cycle"), "{}", err.message);
    assert_eq!((err.line, err.message.as_str()), (1, "include cycle: /songs/a.seq"));
}

// Lines and statements.

#[test]
fn comments_stay_out_of_quotes() {
    assert_eq!(strip_comment("a -- b -- c"), "a ");
    assert_eq!(strip_comment("s \"a -- b\" -- c"), "s \"a -- b\" ");
    assert_eq!(strip_comment("a - b -"), "a - b -");
    let once = strip_comment("x \"--\" y--z");
    assert_eq!(strip_comment(&once), once);
}

#[test]
fn dashes_in_a_quote_over_several_lines_are_no_comment() {
    let m = merge_statement_lines("d1 $ s \"a\nb--c\" -- gone\nbpm 90 -- gone too\n");
    assert_eq!(m, vec![(1, "d1 $ s \"a b--c\"".to_string()), (3, "bpm 90".to_string())]);
}

#[test]
fn dashes_in_quotes_survive_the_taking_in_of_files() {
    let mut files = Files::new("/songs".to_string());
    files.learn("/songs/a.seq".to_string(), file("/songs/a.seq", "-- gone\ns \"a\n-- b\"\n"));
    let text = "include a.seq\n";
    let p = parse_with_options(text, 100, &root(), Some(&files)).unwrap();
    let TrackKind::Pattern { ast, line, .. } = &p.tracks[0].kind;
    assert_eq!(ast.tokens(), vec!["a", "--", "b"]);
    assert_eq!(*line, 2);
}

#[test]
fn statements_keep_their_first_line() {
    let m = merge_statement_lines("\n-- nothing\n  a [\n\n b\n ] \r\nc \"\nlast");
    assert_eq!(m, vec![(3, "a [ b ]".to_string()), (7, "c \" last".to_string())]);
    assert!(statement_boundary_complete("a [ b ]") && !statement_boundary_complete("c \" last"));
    assert!(!statement_boundary_complete("]") && statement_boundary_complete("[\"]\"]"));
}

#[test]
fn sounds_without_an_orbit_are_d1() {
    for src in [
        "s \"x\"",
        "S \"x\"",
        "rev $ s \"x\"",
        "rot -1 $ s \"x\"",
        "every 2 rot 1 $ s \"x\"",
        "fast 3 $ pal $ s \"x\"",
        "gain 0.5 s \"x\"",
        "gain 0.5 slow 2 $ s \"x\"",
        "gain 0.5 rev $ s \"x\"",
        "D1$s \"x\"",
        "d1   $   s \"x\"",
    ] {
        let p = parse(src, 100, &root()).unwrap();
        assert_eq!(p.tracks[0].name, "d1", "{src}");
    }
    assert_eq!(parse("D16 $ s \"x\"", 100, &root()).unwrap().tracks[0].name, "d16");
}

// Directives.

#[test]
fn later_settings_override_earlier_ones() {
    let src = "bpm 90\nbpm 91\nmaster 2\nmaster 0.5\nhumanize 3\nhumanize_ms 4\nquantum 5\nswing 1\nSWING 0\nmute ALL\n";
    let p = parse(src, 100, &root()).unwrap();
    assert_eq!(p.bpm, 91);
    assert_eq!(value(&p.master_gain), 0.5);
    assert_eq!(p.humanize_ms.as_ref().map(value), Some(4.0));
    assert_eq!(p.reload_quantum_cycles, Some(5));
    assert_eq!(p.swing.as_ref().map(value), Some(0.0));
    assert!(p.mute_all);
    assert_eq!(parse("", 77, &root()).unwrap().bpm, 77);
}

#[test]
fn silencing_is_exact_and_idempotent() {
    let p = parse("silence d1\nsilence d1\nsilence D2\nunsilence d3\n", 100, &root()).unwrap();
    assert!(p.is_silenced("d1") && p.is_silenced("D2") && !p.is_silenced("d2"));
    let p = parse("silence d1\nsilence d1\nunsilence d1\n", 100, &root()).unwrap();
    assert!(!p.is_silenced("d1"));
}

#[test]
fn tracks_keep_the_place_of_their_first_definition() {
    let src = "d2 $ s \"a\"\nd1 $ s \"b\"\nd2 $ gain 3 s \"c\"\n";
    let p = parse(src, 100, &root()).unwrap();
    let names: Vec<&str> = p.tracks.iter().map(|t| t.name.as_str()).collect();
    assert_eq!(names, vec!["d2", "d1"]);
    assert_eq!(value(&p.tracks[0].gain), 3.0);
}

#[test]
fn faults_are_named_with_their_line() {
    let cases: Vec<(&str, usize, &str)> = vec![
        ("bpm", 1, "bpm requires a number"),
        ("\nbpm x", 2, "invalid bpm: x"),
        ("bpm 0", 1, "bpm out of range (1–400): 0"),
        ("bpm 0401", 1, "bpm out of range (1–400): 401"),
        ("bpm 90 91", 1, "extra tokens after bpm"),
        ("master", 1, "master requires a number (e.g. master 0.2)"),
        ("master x", 1, "invalid master gain: x"),
        ("master -1", 1, "master gain must be finite and ≥ 0: -1"),
        ("master inf", 1, "master gain must be finite and ≥ 0: inf"),
        ("master 1 2", 1, "extra tokens after master"),
        ("swing", 1, "swing requires a number in [0,1]"),
        ("swing x", 1, "invalid swing: x"),
        ("swing 1.50", 1, "swing must be in [0,1]: 1.5"),
        ("swing 1.00000000000000022", 1, "swing must be in [0,1]: 1.0000000000000002"),
        ("swing 1 1", 1, "extra tokens after swing"),
        ("humanize_ms", 1, "humanize_ms requires a non-negative number"),
        ("humanize_ms x", 1, "invalid humanize_ms: x"),
        ("humanize_ms -1", 1, "humanize_ms must be finite and >= 0: -1"),
        ("humanize_ms 1 2", 1, "extra tokens after humanize_ms"),
        ("humanize", 1, "humanize requires a non-negative number"),
        ("humanize x", 1, "invalid humanize: x"),
        ("humanize 1e309", 1, "humanize must be finite and >= 0: inf"),
        ("humanize 1 2", 1, "extra tokens after humanize"),
        ("reload_quantum_cycles", 1, "reload_quantum_cycles requires an integer >= 1"),
        ("reload_quantum_cycles x", 1, "invalid reload_quantum_cycles: x"),
        ("reload_quantum_cycles 0", 1, "reload_quantum_cycles must be >= 1"),
        ("reload_quantum_cycles 1 2", 1, "extra tokens after reload_quantum_cycles"),
        ("quantum", 1, "quantum requires an integer >= 1"),
        ("quantum -1", 1, "invalid quantum: -1"),
        ("quantum 0", 1, "quantum must be >= 1"),
        ("quantum 1 2", 1, "extra tokens after quantum"),
        ("alias", 1, "alias requires <name> <path|bank:index>"),
        ("alias a", 1, "alias requires a sample reference"),
        ("alias a b c", 1, "alias: only one reference token allowed in v0.1 (no spaces in path)"),
        ("silence", 1, "silence requires a track/orbit name (e.g. silence d1)"),
        ("silence a b", 1, "extra tokens after silence <name>"),
        ("mute", 1, "mute requires a track/orbit name (e.g. mute d1)"),
        ("mute a b", 1, "extra tokens after mute <name>"),
        ("unsilence", 1, "unsilence requires a track/orbit name"),
        ("unsilence a b", 1, "extra tokens after unsilence <name>"),
        ("solo", 1, "solo requires a track/orbit name"),
        ("solo a b", 1, "extra tokens after solo <name>"),
        ("let", 1, "`let` requires a name, e.g. let kicks \"bd sn\""),
        (
            "let 1x \"a\"",
            1,
            "`let` name must be an identifier ([a-zA-Z_][a-zA-Z0-9_]*), got \"1x\"",
        ),
        ("let x a", 1, "let binding requires an opening double quote (\")"),
        ("let x \"a", 1, "unclosed string in let binding"),
        (
            "let x \"a\" b",
            1,
            "extra tokens after `let` binding (expected only `let name \"…\"`)",
        ),
        (
            "track d1 s \"a\"",
            1,
            "explicit `track` syntax removed; use `dN $ ...` (or bare `s ...` for d1)",
        ),
        ("d1 $ track", 1, "track requires a name"),
        ("pat \"a\"", 1, "use `s \"…\"` (Tidal `sound`), not `pat`"),
        ("nonsense here", 1, "unknown directive: nonsense"),
        ("gain x s \"a\"", 1, "unknown directive: gain"),
        ("slow 2 s \"a\"", 1, "unknown directive: slow"),
        ("d1 $ gain -1 s \"a\"", 1, "gain must be finite and ≥ 0: -1"),
        ("d1 $ gain nan s \"a\"", 1, "gain must be finite and ≥ 0: NaN"),
        ("d1 $ track d1 gain", 1, "gain requires a number"),
        ("d1 $ track d1 gain x", 1, "invalid gain: x"),
        (
            "d1 $ track d1",
            1,
            "expected `s \"…\"` or combinator (`slow`/`fast` N `$`, `rev` `$`, `pal` `$`, …)",
        ),
        (
            "rev $ bogus $ s \"a\"",
            1,
            "unknown combinator `bogus` — expected `rev`, `pal`, `rot`, `every`, `slow`, `fast`, or `s`",
        ),
        ("rev s \"a\"", 1, "`rev` must be followed by `$`"),
        ("pal s \"a\"", 1, "`pal` must be followed by `$`"),
        ("rot", 1, "`rot` requires an integer amount"),
        ("rot x $ s \"a\"", 1, "invalid rot amount: x"),
        ("rot 1 s \"a\"", 1, "`rot` must be followed by `$`"),
        ("every", 1, "`every` requires an integer >= 1"),
        ("every x", 1, "invalid every count: x"),
        ("every 0", 1, "`every` count must be >= 1"),
        ("every 2", 1, "`every` requires a transform (`rev`, `pal`, `rot`)"),
        ("every 2 rot", 1, "`every ... rot` requires an integer amount"),
        ("every 2 fast", 1, "unsupported `every` transform: fast (use rev|pal|rot)"),
        ("every 2 rev s \"a\"", 1, "`every` must be followed by `$`"),
        ("rev $ slow", 1, "slow/fast requires a positive integer"),
        ("rev $ slow x", 1, "invalid slow/fast factor: x"),
        ("slow 0 $ s \"a\"", 1, "slow/fast factor must be >= 1"),
        ("rev $ fast 2 s \"a\"", 1, "slow/fast N must be followed by `$`"),
        ("slow 2 $ fast 2 $ s \"a\"", 1, "only one `slow`/`fast` per `$` chain"),
        ("s a", 1, "pattern requires an opening double quote (\")"),
        ("s \"a", 1, "unclosed string in pattern"),
        ("s \"[a\"", 1, "unclosed '['"),
        (
            "s \"a\" b",
            1,
            "unexpected text after pattern (use ` # gain|pan|prob|dur|duration|legato|cut|cutoff ...` lanes)",
        ),
        (
            "s \"a\" #",
            1,
            "`#` must be followed by a supported lane (`gain`, `pan`, `prob`, `dur`, `duration`, `legato`, `cut`, `cutoff`)",
        ),
        ("s \"a\" # bogus \"1\"", 1, "unsupported lane after `#`: bogus"),
        ("s \"a\" # gain 1", 1, "gain lane requires a quoted pattern (e.g. \"0.5\")"),
        ("s \"a\" # cut \"1\" 2", 1, "cut voices lane requires a quoted pattern (e.g. \"0.5\")"),
        ("s \"a\" # gain \"[1\"", 1, "unclosed '['"),
        ("s \"a\" # gain \"1\" # gain \"1\"", 1, "only one ` # gain \"…\"` lane per track for now"),
        ("s \"a\" # pan \"1\" # pan \"1\"", 1, "only one ` # pan \"…\"` lane per track for now"),
        ("s \"a\" # prob \"1\" # prob \"1\"", 1, "only one ` # prob ...` lane per track for now"),
        (
            "s \"a\" # dur \"1\" # duration \"1\"",
            1,
            "only one ` # dur ...` / ` # duration ...` lane per track for now",
        ),
        (
            "s \"a\" # legato \"1\" # legato \"1\"",
            1,
            "only one ` # legato ...` lane per track for now",
        ),
        ("s \"a\" # cut \"1\" # cut \"1\"", 1, "only one ` # cut ...` lane per track for now"),
        (
            "s \"a\" # cutoff \"1\" # cutoff \"1\"",
            1,
            "only one ` # cutoff ...` lane per track for now",
        ),
        (
            "bpm 90\n include \"x.seq\"",
            2,
            "`include` only works when the pattern file is loaded from disk (path known); relative paths resolve next to that `.seq` file",
        ),
    ];
    for (source, line, message) in cases {
        assert_eq!(fail(source), (line, message.to_string()), "{source}");
    }
}

// Bindings.

#[test]
fn bindings_replace_whole_identifiers() {
    let src = "let kit \"bd sn\"\nlet k \"never\"\ns \"kit kits kit2 _kit x.kit\"\n";
    let p = parse(src, 100, &root()).unwrap();
    let TrackKind::Pattern { ast, .. } = &p.tracks[0].kind;
    assert_eq!(ast.tokens(), vec!["bd", "sn", "kits", "kit2", "_kit", "x.bd", "sn"]);
    let src = "let a \"b\"\nlet b \"c\"\nlet a \"d\"\ns \"a b\"\n";
    let p = parse(src, 100, &root()).unwrap();
    let TrackKind::Pattern { ast, .. } = &p.tracks[0].kind;
    assert_eq!(ast.tokens(), vec!["d", "c"]);
}

// Files that take in others.

#[test]
fn files_are_asked_for_one_by_one() {
    let mut files = Files::new("/songs".to_string());
    let src = "-- head\ninclude kit/a.seq\nbpm 90";
    let Expanded::Wanted { line, path } = expand_include_directives(src, Some(&files)) else {
        panic!("nothing wanted");
    };
    assert_eq!((line, path.as_str()), (2, "/songs/kit/a.seq"));
    files.learn(path, file("/srv/kit/a.seq", "include \"b.seq\"\nx"));
    let Expanded::Wanted { line, path } = expand_include_directives(src, Some(&files)) else {
        panic!("nothing wanted");
    };
    assert_eq!((line, path.as_str()), (1, "/srv/kit/b.seq"));
    assert_eq!(
        parse_with_options(src, 100, &root(), Some(&files)).unwrap_err().message,
        "include /srv/kit/b.seq: file not read"
    );
    files.learn(path, file("/srv/kit/b.seq", ""));
    let Expanded::Done(text) = expand_include_directives(src, Some(&files)) else {
        panic!("not done");
    };
    assert_eq!(text, "\n\nx\nbpm 90\n");
}

#[test]
fn files_that_cannot_be_taken_in() {
    let mut files = Files::new("/songs".to_string());
    files.learn(
        "/songs/gone.seq".to_string(),
        FileFacts { canonical: Err("not there".to_string()), content: Err(String::new()) },
    );
    files.learn(
        "/songs/shut.seq".to_string(),
        FileFacts {
            canonical: Ok("/real/shut.seq".to_string()),
            content: Err("no entry".to_string()),
        },
    );
    for (source, line, message) in [
        ("include", 1, "include requires a path, e.g. include \"kit.seq\" or include kit.seq"),
        (
            "x\nINCLUDE \"a\"b\"",
            2,
            "include path: use a single quoted token without embedded quotes",
        ),
        ("include a b", 1, "extra tokens after include path"),
        ("include gone.seq", 1, "include /songs/gone.seq: not there"),
        ("include shut.seq", 1, "include /real/shut.seq: no entry"),
    ] {
        let e = parse_with_options(source, 100, &root(), Some(&files)).unwrap_err();
        assert_eq!((e.line, e.message.as_str()), (line, message), "{source}");
    }
}

#[test]
fn files_nest_only_so_deep() {
    let nested = |depth: usize| -> Result<Program, String> {
        let mut files = Files::new("/n".to_string());
        for i in 0..depth {
            let text = if i + 1 < depth {
                format!("include {}.seq\n", i + 1)
            } else {
                "bpm 90\n".to_string()
            };
            files.learn(format!("/n/{i}.seq"), file(&format!("/n/{i}.seq"), &text));
        }
        parse_with_options("include 0.seq\n", 100, &root(), Some(&files)).map_err(|e| e.message)
    };
    assert_eq!(nested(32).unwrap().bpm, 90);
    assert_eq!(nested(33).unwrap_err(), "include nesting exceeded 32 levels");
}

// Samples.

#[test]
fn bank_references_count_from_one() {
    assert_eq!(parse_bank_ref("bd:3"), Some(("bd".to_string(), 3)));
    assert_eq!(parse_bank_ref("a:b:007"), Some(("a:b".to_string(), 7)));
    for token in ["bd", "bd:", ":3", "bd:0", "bd:x", "bd:+1", "bd:4294967296"] {
        assert_eq!(parse_bank_ref(token), None, "{token}");
    }
}

#[test]
fn sample_paths_are_taken_below_the_root() {
    assert_eq!(resolve_sample_path("/r", "a/b.wav"), "/r/a/b.wav");
    assert_eq!(resolve_sample_path("/r/", "b.wav"), "/r/b.wav");
    assert_eq!(resolve_sample_path("", "b.wav"), "b.wav");
    assert_eq!(resolve_sample_path("/r", "/abs.wav"), "/abs.wav");
}

#[test]
fn banks_list_their_wavs_in_order() {
    let mut samples = root();
    with_bank(&mut samples, "bd", &["b.WAV", "a.wav", "c.mp3", ".wav", "wav", "Z.wav", "a.wav.bak"]);
    assert_eq!(
        list_bank_wavs(&samples, "bd").unwrap(),
        vec!["/songs/bd/Z.wav", "/songs/bd/a.wav", "/songs/bd/b.WAV"]
    );
    assert_eq!(resolve_bank_sample(&samples, "bd", 2).unwrap(), "/songs/bd/a.wav");
    assert_eq!(
        resolve_bank_sample(&samples, "bd", 0).unwrap_err(),
        "bank index must be >= 1 (1-based)"
    );
    assert_eq!(
        resolve_bank_sample(&samples, "bd", 4).unwrap_err(),
        "bank `bd`: index 4 out of range (1–3)"
    );
    with_bank(&mut samples, "none", &["a.mp3"]);
    assert_eq!(
        resolve_bank_sample(&samples, "none", 1).unwrap_err(),
        "bank `none` has no .wav files under /songs/none"
    );
    samples.learn(
        "shut".to_string(),
        Folder { is_dir: true, listing: Err("no entry".to_string()) },
    );
    assert_eq!(
        resolve_bank_sample(&samples, "shut", 1).unwrap_err(),
        "bank `shut` (/songs/shut): no entry"
    );
    assert_eq!(
        resolve_bank_sample(&samples, "new", 1).unwrap_err(),
        "bank `new` (/songs/new): folder not read"
    );
}

#[test]
fn banks_do_not_depend_on_how_they_are_read() {
    let names = ["c.wav", "a.wav", "é.wav", "B.wav", "a b.wav"];
    let mut forth = root();
    with_bank(&mut forth, "bd", &names);
    let mut back = root();
    let reversed: Vec<&str> = names.iter().rev().copied().collect();
    with_bank(&mut back, "bd", &reversed);
    assert_eq!(list_bank_wavs(&forth, "bd"), list_bank_wavs(&back, "bd"));
    assert_eq!(list_bank_wavs(&forth, "bd").unwrap()[4], "/songs/bd/é.wav");
}

#[test]
fn aliases_go_before_everything_else() {
    let mut samples = root();
    with_bank(&mut samples, "bd", &["a.wav"]);
    with_bank(&mut samples, "sn", &["s.wav"]);
    let src = "alias bd sn\nalias x some/path.wav\nalias y bd\ns \"bd y x bd:1\"\n";
    let p = parse(src, 100, &samples).unwrap();
    let ev = p.events_for_track(&p.tracks[0], 0, &samples).unwrap();
    let paths: Vec<&str> = ev.iter().map(|e| e.path.as_str()).collect();
    assert_eq!(
        paths,
        vec!["/songs/sn/s.wav", "/songs/bd/a.wav", "/songs/some/path.wav", "/songs/bd/a.wav"]
    );
    assert_eq!(alias_targets(src), vec!["sn", "some/path.wav", "bd"]);
}

#[test]
fn programs_say_which_folders_they_ask_about() {
    let mut samples = root();
    with_bank(&mut samples, "bd", &["a.wav"]);
    let src = "alias kick k/deep:2\ns \"bd sn:3 kick x/y.wav <hh ~> a\\b\"\n";
    let p = parse(src, 100, &samples).unwrap();
    let mut names = p.unread_folders(&samples);
    names.sort();
    assert_eq!(names, vec!["hh", "k/deep", "sn"]);
}

#[test]
fn unresolved_tokens_are_faults_of_their_line() {
    let samples = root();
    let p = parse("\n\ns \"bd:1\"\n", 100, &samples).unwrap();
    let e = p.events_for_track(&p.tracks[0], 0, &samples).unwrap_err();
    assert_eq!((e.line, e.message.as_str()), (3, "bank `bd` (/songs/bd): folder not read"));
    let p = parse("s \"a\" # gain \"x\"\n", 100, &samples).unwrap();
    let e = p.events_for_track(&p.tracks[0], 0, &samples).unwrap_err();
    assert_eq!(e.message, "gain lane: expected a non-negative number, got \"x\"");
}

// Durations.

#[test]
fn durations_win_over_legato() {
    let src = "bpm 120\ns \"a.wav ~ b.wav c.wav\" # legato \"0.5\" # dur \"~ 40 ~\"\n";
    let p = parse(src, 100, &root()).unwrap();
    let ev = p.events_for_track(&p.tracks[0], 0, &root()).unwrap();
    let durs: Vec<Option<f64>> = ev.iter().map(|e| e.dur_ms.as_ref().map(value)).collect();
    assert_eq!(durs, vec![Some(125.0), Some(40.0), Some(62.5)]);
}

#[test]
fn gains_multiply() {
    let src = "master 0.5\nd1 $ gain 3 s \"a b\" # gain \"2 ~\"\n";
    let p = parse(src, 100, &root()).unwrap();
    let ev = p.events_for_track(&p.tracks[0], 0, &root()).unwrap();
    let gains: Vec<f64> = ev.iter().map(|e| value(&e.gain)).collect();
    assert_eq!(gains, vec![3.0, 1.5]);
}

#[test]
fn muted_files_play_nothing() {
    let p = parse("mute all\ns \"bd:9\"\n", 100, &root()).unwrap();
    assert!(p.events_for_track(&p.tracks[0], 0, &root()).unwrap().is_empty());
    let p = parse("solo d7\ns \"bd:9\"\n", 100, &root()).unwrap();
    assert!(p.events_for_track(&p.tracks[0], 0, &root()).unwrap().is_empty());
}

#[test]
fn slow_tracks_spread_lanes_with_their_hits() {
    let src = "slow 2 $ s \"a b c\" # gain \"1 2 3\"\n";
    let p = parse(src, 100, &root()).unwrap();
    let run = |cycle: u64| -> Vec<(f64, f64)> {
        p.events_for_track(&p.tracks[0], cycle, &root())
            .unwrap()
            .iter()
            .map(|e| (value(&e.frac), value(&e.gain)))
            .collect()
    };
    assert_eq!(run(0), vec![(0.0, 1.0), (2.0 / 3.0, 2.0)]);
    assert_eq!(run(1), vec![(1.0 / 3.0, 3.0)]);
}

const SHOWCASE: &str = "-- What a pattern file can hold.
bpm 96
master 0.8
let kit \"bd:1 sn:1\"
d1 $ s \"kit hh:3*2 ~\" # gain \"1 0.7 ~\" # pan \"-0.5 0.5\"
d2 $ gain 0.5 s \"[hh:1 hh:2] <hh:4 hh:5> stack [ bd:2, sn:2 sn:3 ]\"
d3 $ slow 2 $ s \"euclid(3,8,1) bd:16\" # prob \"1 0.5\" # dur \"120\"
d4 $ fast 2 $ rev $ s \"bd:4 sn:5\" # legato \"0.9\" # cut \"1 2\" # cutoff \"5\"
d5 $ every 2 pal $ s \"bd:1 hh:1
  sn:1\"
d6 $ rot 1 $ s \"bd:6 hh:7 sn:8\"
silence d6
";

#[test]
fn examples_showcase_seq_parses_and_schedules() {
    let mut root = root();
    let names: Vec<String> = (1..=16).map(|i| format!("{i:02}.wav")).collect();
    let files: Vec<&str> = names.iter().map(|n| n.as_str()).collect();
    for bank in ["bd", "hh", "sn"] {
        with_bank(&mut root, bank, &files);
    }
    let prog = parse(SHOWCASE, 100, &root).unwrap();
    assert!((1..=400).contains(&prog.bpm));
    assert!(value(&prog.master_gain).is_finite() && value(&prog.master_gain) >= 0.0);
    assert!(!prog.tracks.is_empty());
    for t in &prog.tracks {
        prog.events_for_track(t, 0, &root).unwrap();
        prog.events_for_track(t, 99, &root).unwrap();
    }
}

#[test]
fn the_last_word_on_a_track_counts() {
    let cases: Vec<(&str, bool)> = vec![
        ("silence d1\nunsilence d1\nmute d1\n", true),
        ("mute d1\nsilence d1\nunsilence d1\n", false),
        ("unsilence d1\nsilence d1\nunsilence d2\n", true),
        ("unsilence d1\nbpm 90\n", false),
    ];
    for (source, silenced) in cases {
        let p = parse(source, 100, &root()).unwrap();
        assert_eq!(p.is_silenced("d1"), silenced, "{source}");
    }
}

#[test]
fn lanes_may_come_in_any_order() {
    let one = "d1 $ s \"a b c\" # gain \"1 2\" # pan \"0.5 ~\" # cut \"1 2\" # dur \"10\"\n";
    let other = "d1 $ s \"a b c\" # dur \"10\" # cut \"1 2\" # pan \"0.5 ~\" # gain \"1 2\"\n";
    let play = |source: &str| {
        let p = parse(source, 100, &root()).unwrap();
        let events = p.events_for_track(&p.tracks[0], 0, &root()).unwrap();
        format!("{events:?}")
    };
    assert_eq!(play(one), play(other));
    let (_, e) = fail("d1 $ s \"a\" # pan \"0\" # gain \"1\" # pan \"1\"\n");
    let (_, f) = fail("d1 $ s \"a\" # gain \"1\" # pan \"1\" # pan \"0\"\n");
    assert_eq!(e, f);
}

#[test]
fn tracks_hurried_no_times_play_nothing() {
    let mut p = parse("d1 $ fast 3 $ s \"a b\"\n", 100, &root()).unwrap();
    assert_eq!(p.events_for_track(&p.tracks[0], 0, &root()).unwrap().len(), 6);
    let TrackKind::Pattern { tempo, .. } = &mut p.tracks[0].kind;
    *tempo = Some(TempoWrap::Fast(0));
    assert!(p.events_for_track(&p.tracks[0], 0, &root()).unwrap().is_empty());
}

#[test]
fn sounds_are_read_to_their_end() {
    let read = |text: &str| {
        let chars: Vec<char> = text.chars().collect();
        parse_s_clause(&chars, 0, &Table::new())
    };
    let v = read(" S \"a b\" # PAN \"0\" # Duration \"5\"").unwrap();
    assert_eq!(v.inner, "a b");
    assert!(v.tempo.is_none() && v.transforms.is_empty());
    assert!(v.lanes.pan.is_some() && v.lanes.dur.is_some());
    assert!(v.lanes.gain.is_none() && v.lanes.cut_group.is_none());
    assert_eq!(read("  ").unwrap_err(), "expected `s \"…\"`");
    assert_eq!(read("rev \"a\"").unwrap_err(), "expected `s`, got `rev`");
    let twice = read("s \"a\" # dur \"5\" # duration \"5\"").unwrap_err();
    assert_eq!(twice, "only one ` # dur ...` / ` # duration ...` lane per track for now");
}

#[test]
fn the_first_fault_of_a_file_is_named() {
    assert_eq!(fail("bpm 90\n\nd1 $ s \"a\nb\nbpm x\n").0, 3);
    assert_eq!(fail("bpm 90\nbpm x\nbpm 0\n"), (2, "invalid bpm: x".to_string()));
}
