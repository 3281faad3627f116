//! Plans, voices and sessions.

use std::collections::hash_map::DefaultHasher;
use std::hash::{Hash, Hasher};
use std::io::Cursor;

use sequencer::audio::{
    hit_offset_frames, load_clip_frames, push_prepared_voice, validate_voice_schedule, wait_step,
    Audio, LimiterMode, PreparedVoice, ScheduledVoice, Voice, VoiceFault, Wait,
};
use sequencer::banks::Catalog;
use sequencer::bignat::Nat;
use sequencer::clips::{
    as_stereo, choose_format, mono_to_stereo, read_wav, readable_samples, resample_taps,
    resampled_frames, Taps, WavFormat, WavHeader,
};
use sequencer::dsl::{parse, Program};
use sequencer::plan::{
    apply_humanize, apply_swing, build_cycle_plan, collect_cycle_events, draw, draw_events,
    place_bits, plan_cycle, prepare_cycle, probability_gate, Clip, Draw, PlannedHit,
};
use sequencer::ratio::Ratio;
use sequencer::session::{drift_frames, late_frames, Session, Settings};

fn magnitude(n: &Nat) -> f64 {
    n.limbs.iter().rev().fold(0.0, |acc, d| acc * 4294967296.0 + f64::from(*d))
}

fn value(r: &Ratio) -> f64 {
    let top = magnitude(&r.numerator().magnitude) / magnitude(r.denominator());
    if r.numerator().negative {
        -top
    } else {
        top
    }
}

fn samples() -> Catalog {
    Catalog::new("/songs".to_string())
}

fn program(source: &str) -> Program {
    parse(source, 100, &samples()).unwrap()
}

fn output() -> Audio<&'static str> {
    Audio::try_new_with_limiter(LimiterMode::Off, true, "F32", 48000, 2).unwrap()
}

// Frames.

#[test]
fn offsets_are_rounded_to_frames() {
    assert_eq!(hit_offset_frames(&Ratio::fraction(1, 2), 101), 51);
    assert_eq!(hit_offset_frames(&Ratio::fraction(1, 3), 100), 33);
    assert_eq!(hit_offset_frames(&Ratio::zero(), 100), 0);
    assert_eq!(hit_offset_frames(&Ratio::fraction(999, 1000), 100), 99);
    assert_eq!(hit_offset_frames(&Ratio::one().negated(), 100), 0);
    assert_eq!(hit_offset_frames(&Ratio::fraction(1, 2), 1), 0);
    assert_eq!(hit_offset_frames(&Ratio::fraction(1, 2), 0), 0);
}

#[test]
fn cycles_have_frames() {
    let a = output();
    assert_eq!(a.cycle_len_frames(120), 24000);
    assert_eq!(a.cycle_len_frames(7), 411428);
    assert_eq!(a.cycle_len_frames(0), 2880000);
    assert_eq!(a.cycle_len_frames(4000000000), 1);
    assert_eq!(a.align_next_cycle_base(0, 24000), 0);
    assert_eq!(a.align_next_cycle_base(1, 24000), 24000);
    assert_eq!(a.align_next_cycle_base(24000, 24000), 24000);
    assert_eq!(a.align_next_cycle_base(24001, 24000), 48000);
    assert_eq!(a.align_next_cycle_base(17, 1), 17);
}

#[test]
fn waiting_sleeps_then_spins() {
    assert_eq!(wait_step(5, 5, 48000), Wait::Done);
    assert_eq!(wait_step(0, 48000, 48000), Wait::Sleep(999));
    assert_eq!(wait_step(0, 97, 48000), Wait::Sleep(1));
    assert_eq!(wait_step(0, 96, 48000), Wait::Spin);
    assert_eq!(wait_step(0, u64::MAX, 1), Wait::Sleep(u64::MAX - 1));
}

#[test]
fn clips_are_cut_to_their_durations() {
    let ms = |n: u64| Ratio::from_u64(n);
    assert_eq!(load_clip_frames(1000, None, 48000), Some(1000));
    assert_eq!(load_clip_frames(1000, Some(&ms(10)), 48000), Some(480));
    assert_eq!(load_clip_frames(100, Some(&ms(10)), 48000), Some(100));
    assert_eq!(load_clip_frames(100, Some(&ms(0)), 48000), None);
    assert_eq!(load_clip_frames(0, None, 48000), None);
}

// Voices.

fn prepared(offset: u64, frames: u64, group: Option<i32>, voices: Option<u32>, cutoff: Option<u64>) -> PreparedVoice<&'static str> {
    PreparedVoice {
        offset_frames: offset,
        frame_count: frames,
        gain: Ratio::fraction(1, 2),
        pan: Ratio::fraction(1, 4),
        cut_group: group,
        cut_voices: voices,
        cutoff_ms: cutoff.map(Ratio::from_u64),
        data: "clip",
    }
}

fn shape(vs: &[Voice<&'static str>]) -> Vec<(u64, u64, u64)> {
    vs.iter().map(|v| (v.start, v.frame_count, v.fade_out_frames)).collect()
}

#[test]
fn new_voices_cut_the_oldest_of_their_group() {
    let mut vs = Vec::new();
    push_prepared_voice(&mut vs, 48000, 1000, prepared(0, 5000, Some(1), Some(2), None));
    push_prepared_voice(&mut vs, 48000, 500, prepared(0, 5000, Some(1), Some(2), None));
    push_prepared_voice(&mut vs, 48000, 500, prepared(0, 5000, Some(2), None, None));
    assert_eq!(shape(&vs), vec![(1000, 5000, 192), (500, 5000, 192), (500, 5000, 192)]);
    push_prepared_voice(&mut vs, 48000, 1000, prepared(1000, 5000, Some(1), Some(2), Some(1)));
    assert_eq!(
        shape(&vs),
        vec![(1000, 5000, 192), (500, 1548, 48), (500, 5000, 192), (2000, 5000, 192)]
    );
    push_prepared_voice(&mut vs, 48000, 100, prepared(0, 100, Some(1), None, None));
    assert_eq!(
        shape(&vs),
        vec![(1000, 1, 1), (500, 1, 1), (500, 5000, 192), (2000, 1, 1), (100, 100, 100)]
    );
    push_prepared_voice(&mut vs, 48000, 0, prepared(0, 9, None, Some(1), None));
    assert_eq!(vs.len(), 6);
}

#[test]
fn groups_hold_as_many_voices_as_they_may() {
    let mut vs = Vec::new();
    for i in 0..20u64 {
        push_prepared_voice(&mut vs, 1000, i * 10, prepared(0, 100000, Some(3), Some(4), None));
        let now = i * 10;
        let on = vs.iter().filter(|v| v.start + v.frame_count > now + 1).count();
        assert!(on <= 4, "{on}");
    }
}

#[test]
fn voices_sound_and_fade() {
    let v = Voice {
        start: 100,
        gain: Ratio::one(),
        pan: Ratio::zero(),
        cut_group: None,
        fade_out_frames: 4,
        frame_count: 10,
        data: (),
    };
    assert!(v.part_at(99).is_none() && v.part_at(110).is_none());
    let p = v.part_at(100).unwrap();
    assert_eq!((p.frame, p.fade), (0, None));
    let p = v.part_at(106).unwrap();
    assert_eq!((p.frame, p.fade), (6, Some((4, 4))));
    let p = v.part_at(109).unwrap();
    assert_eq!((p.frame, p.fade), (9, Some((1, 4))));
}

#[test]
fn ended_voices_are_dropped() {
    let mut a = output();
    a.commit_prepared_voices_at(
        100,
        vec![prepared(0, 50, None, None, None), prepared(10, 60, None, None, None)],
    );
    assert_eq!(shape(&a.voices), vec![(100, 50, 50), (110, 60, 60)]);
    a.retire(150);
    assert_eq!(shape(&a.voices), vec![(110, 60, 60)]);
    a.stop_playback();
    assert!(a.voices.is_empty());
    a.commit_prepared_voices_at(u64::MAX - 1, vec![prepared(10, 5, None, None, None)]);
    assert_eq!(a.voices[0].start, u64::MAX);
}

fn scheduled(gain: Ratio, pan: Ratio) -> ScheduledVoice<&'static str> {
    ScheduledVoice {
        start_frame: 7,
        clip_frames: 100,
        gain,
        pan,
        max_duration_ms: None,
        cut_group: None,
        cut_voices: None,
        cutoff_ms: None,
        data: "clip",
    }
}

#[test]
fn hits_are_checked_before_they_are_put_in() {
    let minus = Ratio::one().negated();
    let (one, zero) = (Ratio::one(), Ratio::zero());
    let check = |g: &Ratio, p: &Ratio, d: Option<Ratio>, group, voices, cut: Option<Ratio>| {
        validate_voice_schedule(g, p, &d, group, voices, &cut)
    };
    assert_eq!(check(&one, &zero, None, None, None, None), Ok(()));
    assert_eq!(check(&minus, &zero, None, None, None, None), Err(VoiceFault::Gain));
    assert_eq!(check(&one, &Ratio::from_u64(2), None, None, None, None), Err(VoiceFault::Pan));
    let negative = || Some(Ratio::one().negated());
    assert_eq!(check(&one, &zero, negative(), None, None, None), Err(VoiceFault::Duration));
    assert_eq!(check(&one, &zero, None, Some(-2), None, None), Err(VoiceFault::CutGroup(-2)));
    assert_eq!(check(&one, &zero, None, None, Some(0), None), Err(VoiceFault::CutVoices));
    assert_eq!(check(&one, &zero, None, None, None, negative()), Err(VoiceFault::Cutoff));
    let top = Ratio::from_u64(1 << 63).times(&Ratio::from_u64(1 << 40));
    let greatest = top.times(&Ratio::from_u64((1 << 25) - 2));
    let beyond = || top.times(&Ratio::from_u64((1 << 25) - 1));
    assert_eq!(value(&greatest), f64::from(f32::MAX));
    assert_eq!(check(&greatest, &zero, None, None, None, None), Ok(()));
    assert_eq!(check(&beyond(), &zero, None, None, None, None), Err(VoiceFault::Gain));
    assert_eq!(check(&one, &zero, Some(beyond()), None, None, None), Err(VoiceFault::Duration));
    assert_eq!(check(&one, &zero, None, None, None, Some(beyond())), Err(VoiceFault::Cutoff));
    let mut a = output();
    let mut silent = scheduled(Ratio::one(), Ratio::zero());
    silent.max_duration_ms = Some(Ratio::zero());
    let faults = a.schedule_voices(vec![
        scheduled(Ratio::one(), Ratio::zero()),
        scheduled(Ratio::one().negated(), Ratio::zero()),
        silent,
        scheduled(Ratio::one(), Ratio::from_u64(3)),
    ]);
    assert_eq!(faults, vec![(1, VoiceFault::Gain), (3, VoiceFault::Pan)]);
    assert_eq!(shape(&a.voices), vec![(7, 100, 100)]);
    assert_eq!(a.schedule_voice(scheduled(Ratio::from_u64(3), Ratio::one())), Ok(()));
    assert_eq!(a.voices.len(), 2);
    let levels: Vec<(f64, f64)> =
        a.voices.iter().map(|v| (value(&v.gain), value(&v.pan))).collect();
    assert_eq!(levels, vec![(1.0, 0.0), (3.0, 1.0)]);
    a.commit_prepared_voices_at(0, vec![prepared(0, 5, None, None, None)]);
    assert_eq!((value(&a.voices[2].gain), value(&a.voices[2].pan)), (0.5, 0.25));
    let n = a.prepare_voice_for_commit(10, &Ratio::one(), &Ratio::zero(), &None, None, None, &None);
    assert_eq!(n, Ok(Some(10)));
}

#[test]
fn outputs_must_fit() {
    let open = |f32_samples, channels| {
        Audio::<()>::try_new_with_limiter(LimiterMode::Soft, f32_samples, "I16", 44100, channels)
    };
    assert_eq!(
        open(false, 2).unwrap_err(),
        "need f32 output (got I16); pick a device that supports f32"
    );
    assert_eq!(open(true, 0).unwrap_err(), "need 1 or 2 output channels (got 0)");
    assert_eq!(open(true, 6).unwrap_err(), "need 1 or 2 output channels (got 6)");
    let a = open(true, 1).unwrap();
    assert_eq!((a.sample_rate(), a.out_channels(), a.limiter_mode()), (44100, 1, LimiterMode::Soft));
}

// Clips.

#[test]
fn clips_become_stereo() {
    assert_eq!(mono_to_stereo(&vec![1, 2, 3]), vec![1, 1, 2, 2, 3, 3]);
    assert_eq!(as_stereo("x.wav", 1, vec![5]).unwrap(), vec![5, 5]);
    assert_eq!(as_stereo("x.wav", 2, vec![5, 6]).unwrap(), vec![5, 6]);
    assert_eq!(
        as_stereo("x.wav", 6, vec![0u8]).unwrap_err(),
        "x.wav: expected mono or stereo WAV, got 6 channels"
    );
}

fn header(float: bool, bits: u16) -> Result<WavHeader, String> {
    Ok(WavHeader { sample_rate: 44100, channels: 2, float, bits })
}

#[test]
fn wav_formats_that_can_be_read() {
    let format = |float, bits| choose_format("x.wav", &header(float, bits));
    assert_eq!(format(true, 32), Ok(WavFormat::Float));
    assert_eq!(format(false, 16), Ok(WavFormat::Integer(32768)));
    assert_eq!(format(false, 24), Ok(WavFormat::Integer(8388608)));
    assert_eq!(
        format(false, 32).unwrap_err(),
        "x.wav: unsupported WAV format (bits=32, format=Int)"
    );
    assert_eq!(
        format(true, 64).unwrap_err(),
        "x.wav: unsupported WAV format (bits=64, format=Float)"
    );
    assert_eq!(choose_format("x.wav", &Err("no".to_string())).unwrap_err(), "x.wav: no");
    assert_eq!(readable_samples(&vec![Some(1), None, Some(-2), None]), vec![1, -2]);
}

fn wav_bytes(bits: u16, sample_format: hound::SampleFormat, channels: u16) -> Vec<u8> {
    let spec = hound::WavSpec { channels, sample_rate: 22050, bits_per_sample: bits, sample_format };
    let mut file = Cursor::new(Vec::new());
    let mut writer = hound::WavWriter::new(&mut file, spec).unwrap();
    for x in [0i32, 100, -100, 7] {
        if sample_format == hound::SampleFormat::Float {
            writer.write_sample(x as f32).unwrap();
        } else {
            writer.write_sample(x).unwrap();
        }
    }
    writer.finalize().unwrap();
    file.into_inner()
}

#[test]
fn wav_files_are_read_from_their_bytes() {
    let w = read_wav("x.wav", &wav_bytes(16, hound::SampleFormat::Int, 2)).unwrap();
    assert_eq!((w.sample_rate, w.channels, w.format), (22050, 2, WavFormat::Integer(32768)));
    assert_eq!(w.integers, vec![0, 100, -100, 7]);
    let w = read_wav("x.wav", &wav_bytes(24, hound::SampleFormat::Int, 1)).unwrap();
    assert_eq!((w.channels, w.format), (1, WavFormat::Integer(8388608)));
    assert_eq!(w.integers, vec![0, 100, -100, 7]);
    let w = read_wav("x.wav", &wav_bytes(32, hound::SampleFormat::Float, 1)).unwrap();
    assert_eq!(w.format, WavFormat::Float);
    assert!(w.integers.is_empty());
    assert_eq!(
        read_wav("x.wav", &wav_bytes(8, hound::SampleFormat::Int, 1)).unwrap_err(),
        "x.wav: unsupported WAV format (bits=8, format=Int)"
    );
    assert_eq!(
        read_wav("x.wav", b"RIFFxxxxWAVX").unwrap_err(),
        "x.wav: Ill-formed WAVE file: no WAVE tag found"
    );
    assert_eq!(read_wav("x.wav", b"RI").unwrap_err(), "x.wav: Failed to read enough bytes.");
}

#[test]
fn cut_off_wav_files_give_what_they_have() {
    let mut bytes = wav_bytes(16, hound::SampleFormat::Int, 1);
    bytes.truncate(bytes.len() - 3);
    assert_eq!(read_wav("x.wav", &bytes).unwrap().integers, vec![0, 100]);
}

#[test]
fn resampling_finds_its_place() {
    assert_eq!(resampled_frames(44100, 44100, 48000), Some(48000));
    assert_eq!(resampled_frames(1, 48000, 100), Some(1));
    assert_eq!(resampled_frames(u64::MAX, 1, 2), None);
    assert_eq!(
        resample_taps(0, 10, 44100, 22050),
        Taps { first: 0, second: 1, part: 22050, whole: 44100 }
    );
    assert_eq!(
        resample_taps(0, 10, 22050, 44100),
        Taps { first: 0, second: 0, part: 66150, whole: 88200 }
    );
    assert_eq!(
        resample_taps(19, 10, 22050, 44100),
        Taps { first: 9, second: 9, part: 22050, whole: 88200 }
    );
}

// Plans.

#[test]
fn swing_delays_odd_eighths() {
    let swing = Ratio::fraction(1, 2);
    let at = |n, d| value(&apply_swing(&Ratio::fraction(n, d), &swing));
    assert_eq!(at(0, 1), 0.0);
    assert_eq!(at(1, 8), 0.125 + 0.03125);
    assert_eq!(at(1, 4), 0.25);
    assert_eq!(at(3, 8), 0.375 + 0.03125);
    assert_eq!(at(99, 100), 0.999999);
    assert_eq!(value(&apply_swing(&Ratio::fraction(1, 8), &Ratio::from_u64(9))), 0.1875);
    assert_eq!(value(&apply_swing(&Ratio::fraction(1, 8), &Ratio::zero())), 0.125);
}

#[test]
fn humanize_moves_hits_by_the_number_drawn() {
    let half = Ratio::fraction(1, 2);
    let ms = Ratio::from_u64(60);
    let at = |draw| value(&apply_humanize(&half, &ms, 100, draw));
    assert_eq!(at(0), 0.4);
    assert_eq!(at(u64::MAX), 0.6);
    assert_eq!(value(&apply_humanize(&half, &Ratio::zero(), 100, 9)), 0.5);
    assert_eq!(value(&apply_humanize(&half, &Ratio::from_u64(100000), 100, 0)), 0.0);
    assert_eq!(value(&apply_humanize(&half, &Ratio::from_u64(100000), 0, u64::MAX)), 0.999999);
}

#[test]
fn chance_decides_between_never_and_always() {
    let p = Ratio::fraction(1, 4);
    assert!(probability_gate(&p, 0) && probability_gate(&p, u64::MAX / 4));
    assert!(!probability_gate(&p, u64::MAX / 2));
    assert!(probability_gate(&Ratio::one(), u64::MAX));
    assert!(!probability_gate(&Ratio::zero(), 0));
}

#[test]
fn plans_hold_the_hits_that_sound() {
    let p = program("swing 0\nd2 $ s \"~ b\"\nd1 $ s \"a c\" # prob \"1 0\"\nd3 $ s \"x:1\"\n");
    let (events, faults) = collect_cycle_events(&p, 0, &samples());
    let order: Vec<&str> = events.iter().map(|e| e.event.path.as_str()).collect();
    assert_eq!(order, vec!["/songs/a", "/songs/b", "/songs/c"]);
    assert_eq!(faults.len(), 1);
    assert_eq!((faults[0].track.as_str(), faults[0].error.line), ("d3", 4));
    let draws = vec![Draw { gate: 5, jitter: 0 }; 3];
    let plan = build_cycle_plan(&p, events, &draws, &Ratio::one(), &Ratio::zero(), 1000);
    let hits: Vec<(&str, u64)> = plan.iter().map(|h| (h.track.as_str(), h.offset_frames)).collect();
    assert_eq!(hits, vec![("d1", 0), ("d2", 500)]);
}

#[test]
fn plans_use_the_defaults_of_the_run() {
    let p = program("s \"~ a ~ ~ ~ ~ ~ ~\"\n");
    let (events, _) = collect_cycle_events(&p, 0, &samples());
    let draws = vec![Draw { gate: 0, jitter: u64::MAX }];
    let plan = build_cycle_plan(&p, events, &draws, &Ratio::one(), &Ratio::from_u64(6), 1000);
    assert_eq!(value(&plan[0].swung), 0.1875);
    assert_eq!(value(&plan[0].frac), 0.1975);
    assert_eq!(plan[0].offset_frames, 198);
}

#[test]
fn cycles_are_made_ready_with_their_clips() {
    let source = "bpm 120\ns \"a b c d\" # cut \"1\" # cutoff \"5\" # dur \"10 0 10 10\" \
                  # gain \"1 2 3 4\" # pan \"-1 0 0 0.5\"\n";
    let p = program(source);
    let (events, _) = collect_cycle_events(&p, 0, &samples());
    let draws = vec![Draw { gate: 0, jitter: 0 }; 4];
    let hits = build_cycle_plan(&p, events, &draws, &Ratio::zero(), &Ratio::zero(), 24000);
    let clips = || -> Vec<Option<Clip<&'static str>>> {
        vec![
            Some(Clip { frames: 100, data: "a" }),
            Some(Clip { frames: 100, data: "b" }),
            None,
            Some(Clip { frames: 1000, data: "d" }),
        ]
    };
    let a = output();
    let plan = prepare_cycle(&a, &hits, clips(), true, 3);
    let voices: Vec<(u64, u64, &str)> =
        plan.prepared.iter().map(|v| (v.offset_frames, v.frame_count, v.data)).collect();
    assert_eq!(voices, vec![(0, 100, "a"), (18000, 480, "d")]);
    let levels: Vec<(f64, f64)> =
        plan.prepared.iter().map(|v| (value(&v.gain), value(&v.pan))).collect();
    assert_eq!(levels, vec![(1.0, -1.0), (4.0, 0.5)]);
    assert_eq!(plan.prepared[1].cut_group, Some(1));
    assert_eq!(plan.prepared[1].cutoff_ms.as_ref().map(value), Some(5.0));
    assert_eq!(plan.ready, vec![true, false, false, true]);
    assert_eq!((plan.traced, plan.events_count), (3, 3));
    let plan = prepare_cycle(&a, &hits, clips(), false, 3);
    assert_eq!((plan.traced, plan.events_count), (0, 2));
}

// Sessions.

fn settings() -> Settings {
    Settings {
        scenes: 1,
        scene_switch_cycles: 0,
        no_watch: false,
        reload_quantum_cycles: 1,
        schedule_lookahead_frames: 2048,
        trace_cycles: 0,
    }
}

#[test]
fn reloads_wait_for_their_quantum() {
    let a = output();
    let set = settings();
    let mut s = Session::new(program("bpm 120\n"), "bpm 120\n".to_string(), &a, 10);
    assert_eq!((s.base, s.cycle_len, s.cycle_end()), (24000, 24000, 48000));
    assert!(!s.take_source("bpm 120\n"));
    assert!(s.take_source("bpm 60\nquantum 2\n"));
    assert!(!s.reload(&set, &a));
    s.advance(&a);
    s.offer(program("bpm 60\nquantum 2\n"));
    assert!(!s.reload(&set, &a));
    assert_eq!(s.program.bpm, 120);
    s.advance(&a);
    assert_eq!((s.cycle_index, s.base), (2, 72000));
    assert!(s.reload(&set, &a));
    assert_eq!((s.program.bpm, s.cycle_len), (60, 48000));
    assert!(s.pending.is_none() && !s.reload(&set, &a));
}

#[test]
fn scenes_take_turns() {
    let a = output();
    let set = Settings { scenes: 3, scene_switch_cycles: 2, ..settings() };
    let mut s = Session::new(program(""), "text".to_string(), &a, 0);
    let mut seen = Vec::new();
    for _ in 0..8 {
        s.switch_scene(&set);
        seen.push(s.scene);
        s.advance(&a);
    }
    assert_eq!(seen, vec![0, 0, 1, 1, 2, 2, 0, 0]);
    assert_eq!(s.last_source, "");
    let mut lone = Session::new(program(""), "text".to_string(), &a, 0);
    lone.advance(&a);
    assert!(!lone.switch_scene(&Settings { scene_switch_cycles: 1, ..settings() }));
    assert_eq!(lone.last_source, "text");
}

#[test]
fn a_single_scene_can_be_loaded_only_once() {
    assert!(Session::reads_again(&settings()));
    assert!(!Session::reads_again(&Settings { no_watch: true, ..settings() }));
    assert!(Session::reads_again(&Settings { no_watch: true, scenes: 2, ..settings() }));
}

#[test]
fn sessions_keep_time() {
    let a = output();
    let set = Settings { trace_cycles: 2, ..settings() };
    let mut s = Session::new(program("bpm 120\n"), String::new(), &a, 0);
    assert_eq!(Session::commit_target(s.cycle_end(), &set), 21952);
    assert_eq!(Session::commit_target(100, &set), 0);
    assert!(!s.finished(&set) && !s.finished(&settings()));
    s.advance(&a);
    assert!(s.finished(&set));
    s.cycle_index = u64::MAX;
    assert_eq!(s.next_cycle_index(), 0);
    assert_eq!(drift_frames(5, 9), -4);
    assert_eq!((late_frames(9, 5), late_frames(5, 9)), (4, 0));
}

#[test]
fn draws_depend_on_the_hit_alone() {
    let (onset, swung) = (0.25f64.to_bits(), 0.3125f64.to_bits());
    let d = draw(7, "d1", "bd/é.wav", onset, swung);
    assert_eq!(d, draw(7, "d1", "bd/é.wav", onset, swung));
    let mut gate = DefaultHasher::new();
    7u64.hash(&mut gate);
    "d1".hash(&mut gate);
    onset.hash(&mut gate);
    "bd/é.wav".hash(&mut gate);
    assert_eq!(d.gate, gate.finish());
    let mut jitter = DefaultHasher::new();
    7u64.hash(&mut jitter);
    "d1".hash(&mut jitter);
    swung.hash(&mut jitter);
    assert_eq!(d.jitter, jitter.finish());
    assert_ne!(d.gate, draw(8, "d1", "bd/é.wav", onset, swung).gate);
    assert_ne!(d.gate, draw(7, "d2", "bd/é.wav", onset, swung).gate);
    assert_ne!(d.gate, draw(7, "d1", "bd/e.wav", onset, swung).gate);
    assert_eq!(d.jitter, draw(7, "d1", "bd/e.wav", swung, swung).jitter);
}

#[test]
fn events_draw_their_own_numbers() {
    let p = program("d1 $ s \"a b\"\nd2 $ s \"c c c\"\n");
    let (events, _) = collect_cycle_events(&p, 3, &samples());
    let bits = place_bits(&events, &Ratio::one());
    let draws = draw_events(&events, 3, &bits);
    assert_eq!((events.len(), bits.len(), draws.len()), (5, 5, 5));
    for ((e, bits), d) in events.iter().zip(&bits).zip(&draws) {
        let frac = value(&e.event.frac);
        let swung = value(&apply_swing(&e.event.frac, &Ratio::one()));
        assert_eq!(*bits, (frac.to_bits(), swung.to_bits()));
        assert_eq!(*d, draw(3, &e.track, &e.event.path, frac.to_bits(), swung.to_bits()));
    }
    assert_ne!(draws[0], draws[1]);
}

fn places(hits: &[PlannedHit]) -> Vec<(String, u64)> {
    hits.iter().map(|h| (h.event.path.clone(), h.offset_frames)).collect()
}

#[test]
fn cycles_are_planned_alike_each_time() {
    let source = "swing 1\nhumanize 5\nd1 $ s \"a*16\" # prob \"0.5\"\nd2 $ s \"b x:1\"\n";
    let p = program(source);
    let plan = |cycle| {
        plan_cycle(&p, cycle, &samples(), &Ratio::zero(), &Ratio::zero(), 48000)
    };
    let (hits, faults) = plan(4);
    assert_eq!(faults.len(), 1);
    assert!(!hits.is_empty() && hits.len() < 16);
    assert_eq!(places(&hits), places(&plan(4).0));
    assert_ne!(places(&hits), places(&plan(5).0));
    let (events, _) = collect_cycle_events(&p, 4, &samples());
    let draws = draw_events(&events, 4, &place_bits(&events, &Ratio::one()));
    let again = build_cycle_plan(&p, events, &draws, &Ratio::zero(), &Ratio::zero(), 48000);
    assert_eq!(places(&hits), places(&again));
}

#[test]
fn gains_beyond_single_precision_are_not_played() {
    let p = program("master 1e30\nd1 $ gain 1e30 s \"a b\" # gain \"1 0\"\n");
    let (hits, _) = plan_cycle(&p, 0, &samples(), &Ratio::zero(), &Ratio::zero(), 100);
    let clips = vec![Some(Clip { frames: 10, data: "a" }), Some(Clip { frames: 10, data: "b" })];
    assert_eq!(prepare_cycle(&output(), &hits, clips, false, 0).ready, vec![false, true]);
}
