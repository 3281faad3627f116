//! The pattern file format: directives and tracks, line by line.

use vstd::prelude::*;

use crate::dsl::sound::owned_view;
use crate::pat::lanes::{value_view, LanesView};
use crate::pat::{Pat, PatView};
use crate::ratio::Ratio;
use crate::table::{Names, Table};
use crate::text::views;

pub mod bindings;
pub mod events;
pub mod inclusion;
pub mod laws;
pub mod layout;
pub mod lines;
pub mod needs;
pub mod orbits;
pub mod playing;
pub mod program;
pub mod sample;
pub mod sound;
pub mod statements;
pub mod track;
pub mod writing;

pub use crate::banks::resolve_sample_path;
pub use crate::dsl::lines::{merge_statement_lines, strip_comment};
pub use crate::dsl::program::{parse, parse_with_options};
pub use crate::dsl::sample::parse_bank_ref;

verus! {

/// How the cycles of a track are counted.
#[derive(Debug, Clone, Copy, PartialEq, Eq, Structural)]
pub enum TempoWrap {
    /// The pattern spans this many cycles, one slice of it per cycle.
    Slow(u32),
    /// This many inner cycles play within one cycle.
    Fast(u32),
}

/// What is wrong, and on which line.
#[derive(Debug)]
pub struct ParseError {
    pub line: usize,
    pub message: String,
}

#[verifier::ext_equal]
pub struct ErrorView {
    pub line: int,
    pub message: Seq<char>,
}

impl View for ParseError {
    type V = ErrorView;

    open spec fn view(&self) -> ErrorView {
        ErrorView { line: self.line as int, message: self.message@ }
    }
}

/// What a track plays.
#[derive(Debug)]
pub enum TrackKind {
    Pattern {
        ast: Pat,
        /// `# gain`: factors.
        gain_lane: Option<Pat>,
        /// `# pan`: from -1, left, to 1, right.
        pan_lane: Option<Pat>,
        /// `# prob`: how likely a hit is to sound, from 0 to 1.
        prob_lane: Option<Pat>,
        /// `# dur`: milliseconds.
        dur_lane: Option<Pat>,
        /// `# legato`: parts of the time to the next hit.
        legato_lane: Option<Pat>,
        /// `# cut`: groups.
        cut_group_lane: Option<Pat>,
        /// `# cut`: how many voices a group may hold.
        cut_voices_lane: Option<Pat>,
        /// `# cutoff`: milliseconds.
        cutoff_lane: Option<Pat>,
        tempo: Option<TempoWrap>,
        /// The line that defines the track.
        line: usize,
    },
}

/// A named track.
#[derive(Debug)]
pub struct Track {
    pub name: String,
    /// The gain of every hit of the track.
    pub gain: Ratio,
    pub kind: TrackKind,
}

#[verifier::ext_equal]
pub struct TrackView {
    pub name: Seq<char>,
    pub gain: real,
    pub ast: PatView,
    pub lanes: LanesView,
    pub tempo: Option<TempoWrap>,
    pub line: int,
}

impl View for Track {
    type V = TrackView;

    open spec fn view(&self) -> TrackView {
        match self.kind {
            TrackKind::Pattern {
                ast,
                gain_lane,
                pan_lane,
                prob_lane,
                dur_lane,
                legato_lane,
                cut_group_lane,
                cut_voices_lane,
                cutoff_lane,
                tempo,
                line,
            } => TrackView {
                name: self.name@,
                gain: self.gain@,
                ast: ast@,
                lanes: LanesView {
                    gain: owned_view(gain_lane),
                    pan: owned_view(pan_lane),
                    prob: owned_view(prob_lane),
                    dur: owned_view(dur_lane),
                    legato: owned_view(legato_lane),
                    cut_group: owned_view(cut_group_lane),
                    cut_voices: owned_view(cut_voices_lane),
                    cutoff: owned_view(cutoff_lane),
                },
                tempo,
                line: line as int,
            },
        }
    }
}

/// A track that is stretched is stretched over at least one cycle.
pub open spec fn valid_tempo(t: Option<TempoWrap>) -> bool {
    match t {
        Some(TempoWrap::Slow(k)) => k >= 1,
        Some(TempoWrap::Fast(_)) => true,
        None => true,
    }
}

/// Where a sample comes from.
#[derive(Debug)]
pub enum SampleSpec {
    Path(String),
    Bank { bank: String, index: u32 },
}

#[verifier::ext_equal]
pub enum SpecView {
    Path(Seq<char>),
    Bank { bank: Seq<char>, index: u32 },
}

impl View for SampleSpec {
    type V = SpecView;

    open spec fn view(&self) -> SpecView {
        match self {
            SampleSpec::Path(p) => SpecView::Path(p@),
            SampleSpec::Bank { bank, index } => SpecView::Bank { bank: bank@, index: *index },
        }
    }
}

/// A pattern file, read.
#[derive(Debug)]
pub struct Program {
    pub bpm: u32,
    /// The gain of everything.
    pub master_gain: Ratio,
    pub swing: Option<Ratio>,
    pub humanize_ms: Option<Ratio>,
    pub reload_quantum_cycles: Option<u64>,
    /// Whether nothing sounds at all.
    pub mute_all: bool,
    pub tracks: Vec<Track>,
    pub aliases: Table<SampleSpec>,
    /// The tracks that do not sound.
    pub silenced: Names,
    /// If there are any, the only tracks that sound.
    pub soloed: Names,
}

#[verifier::ext_equal]
pub struct ProgramView {
    pub bpm: u32,
    pub master_gain: real,
    pub swing: Option<real>,
    pub humanize_ms: Option<real>,
    pub reload_quantum_cycles: Option<u64>,
    pub mute_all: bool,
    pub tracks: Seq<TrackView>,
    pub aliases: Map<Seq<char>, SpecView>,
    pub silenced: Set<Seq<char>>,
    pub soloed: Set<Seq<char>>,
}

impl View for Program {
    type V = ProgramView;

    open spec fn view(&self) -> ProgramView {
        ProgramView {
            bpm: self.bpm,
            master_gain: self.master_gain@,
            swing: value_view(self.swing),
            humanize_ms: value_view(self.humanize_ms),
            reload_quantum_cycles: self.reload_quantum_cycles,
            mute_all: self.mute_all,
            tracks: views(self.tracks@),
            aliases: self.aliases@,
            silenced: self.silenced@,
            soloed: self.soloed@,
        }
    }
}

impl Program {
    /// Whether the track is muted.
    pub fn is_silenced(&self, name: &str) -> (r: bool)
        ensures
            r == self@.silenced.contains(name@),
    {
        self.silenced.contains(name)
    }

    /// Whether the track is among those that alone sound.
    pub fn is_soloed(&self, name: &str) -> (r: bool)
        ensures
            r == self@.soloed.contains(name@),
    {
        self.soloed.contains(name)
    }
}

} // verus!
