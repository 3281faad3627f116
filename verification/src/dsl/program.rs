//! Reading a pattern file, directive by directive.

use vstd::prelude::*;
use vstd::string::StringExecFns;

use crate::banks::{Catalog, CatalogView};
use crate::dsl::inclusion::{expand_include_directives, expansion, Expanded, ExpandedView, Files, FilesView};
use crate::dsl::lines::{
    merge_statement_lines, normalize_seq_line, normalized, statement_view, statement_views,
    statements,
};
use crate::dsl::sample::{parse_sample_token_raw, raw_sample};
use crate::dsl::sound::{binding, parse_let_binding};
use crate::dsl::track::{parse_track_line, track_line};
use crate::dsl::{valid_tempo, ErrorView, ParseError, Program, ProgramView, Track, TrackView};
use crate::number::{
    read_number, read_u32, read_unsigned, reading, show_number, shown, unsigned, Precision,
    Reading, ReadingView,
};
use crate::ratio::Ratio;
use crate::table::{Names, Table};
use crate::text::{
    chars_of, decimal, decimal_of, is_word, join2, lemma_views_push, same_text, same_word, text_of,
    trim, trimmed, views, words, words_of,
};

verus! {

/// A program under way, with the bindings so far.
#[verifier::ext_equal]
pub struct DraftView {
    pub program: ProgramView,
    pub lets: Map<Seq<char>, Seq<char>>,
}

/// What a file says before its first line.
pub open spec fn blank(bpm: u32) -> DraftView {
    DraftView {
        program: ProgramView {
            bpm,
            master_gain: 1real,
            swing: None,
            humanize_ms: None,
            reload_quantum_cycles: None,
            mute_all: false,
            tracks: seq![],
            aliases: Map::empty(),
            silenced: Set::empty(),
            soloed: Set::empty(),
        },
        lets: Map::empty(),
    }
}

/// The first track of that name at or after `i`; their number if there is none.
pub open spec fn track_from(ts: Seq<TrackView>, name: Seq<char>, i: int) -> int
    decreases ts.len() - i,
{
    if i < 0 || i >= ts.len() {
        ts.len() as int
    } else if ts[i].name == name {
        i
    } else {
        track_from(ts, name, i + 1)
    }
}

/// The tracks with another one: it takes the place of a track of its name, or comes last.
pub open spec fn placed(ts: Seq<TrackView>, t: TrackView) -> Seq<TrackView> {
    let k = track_from(ts, t.name, 0);
    if k < ts.len() {
        ts.update(k, t)
    } else {
        ts.push(t)
    }
}

/// The only argument of a directive, a number that is not negative, and at most one if `unit`.
pub open spec fn number_arg(
    ws: Seq<Seq<char>>,
    p: Precision,
    unit: bool,
    missing: Seq<char>,
    invalid: Seq<char>,
    refused: Seq<char>,
    extra: Seq<char>,
) -> Result<real, Seq<char>> {
    if ws.len() < 2 {
        Err(missing)
    } else {
        match reading(ws[1], p) {
            ReadingView::Malformed => Err(invalid + ws[1]),
            ReadingView::NotFinite => Err(refused + shown(ws[1], p)),
            ReadingView::Finite(x) => if x < 0real || (unit && x > 1real) {
                Err(refused + shown(ws[1], p))
            } else if ws.len() > 2 {
                Err(extra)
            } else {
                Ok(x)
            },
        }
    }
}

/// The only argument of a directive, an integer of at least one.
pub open spec fn count_arg(
    ws: Seq<Seq<char>>,
    missing: Seq<char>,
    invalid: Seq<char>,
    refused: Seq<char>,
    extra: Seq<char>,
) -> Result<u64, Seq<char>> {
    if ws.len() < 2 {
        Err(missing)
    } else {
        match unsigned(ws[1], u64::MAX as nat) {
            None => Err(invalid + ws[1]),
            Some(n) => if n < 1 {
                Err(refused)
            } else if ws.len() > 2 {
                Err(extra)
            } else {
                Ok(n as u64)
            },
        }
    }
}

/// The only argument of a directive, a name.
pub open spec fn name_arg(ws: Seq<Seq<char>>, missing: Seq<char>, extra: Seq<char>) -> Result<
    Seq<char>,
    Seq<char>,
> {
    if ws.len() < 2 {
        Err(missing)
    } else if ws.len() > 2 {
        Err(extra)
    } else {
        Ok(ws[1])
    }
}

/// The argument of `bpm`.
pub open spec fn bpm_arg(ws: Seq<Seq<char>>) -> Result<u32, Seq<char>> {
    if ws.len() < 2 {
        Err("bpm requires a number"@)
    } else {
        match unsigned(ws[1], u32::MAX as nat) {
            None => Err("invalid bpm: "@ + ws[1]),
            Some(n) => if n < 1 || n > 400 {
                Err("bpm out of range (1–400): "@ + decimal(n))
            } else if ws.len() > 2 {
                Err("extra tokens after bpm"@)
            } else {
                Ok(n as u32)
            },
        }
    }
}

/// The name and the reference of `alias`.
pub open spec fn alias_args(ws: Seq<Seq<char>>) -> Result<(Seq<char>, Seq<char>), Seq<char>> {
    if ws.len() < 2 {
        Err("alias requires <name> <path|bank:index>"@)
    } else if ws.len() < 3 {
        Err("alias requires a sample reference"@)
    } else if ws.len() > 3 {
        Err("alias: only one reference token allowed in v0.1 (no spaces in path)"@)
    } else {
        Ok((ws[1], ws[2]))
    }
}

pub open spec fn with_program(d: DraftView, p: ProgramView) -> DraftView {
    DraftView { program: p, lets: d.lets }
}

/// What the draft becomes by a directive that sets a number.
pub open spec fn settings_step(d: DraftView, ws: Seq<Seq<char>>) -> Option<
    Result<DraftView, Seq<char>>,
> {
    let p = d.program;
    if same_word(ws[0], "bpm"@) {
        Some(
            match bpm_arg(ws) {
                Err(e) => Err(e),
                Ok(n) => Ok(with_program(d, ProgramView { bpm: n, ..p })),
            },
        )
    } else if same_word(ws[0], "master"@) {
        Some(
            match number_arg(
                ws,
                Precision::Single,
                false,
                "master requires a number (e.g. master 0.2)"@,
                "invalid master gain: "@,
                "master gain must be finite and ≥ 0: "@,
                "extra tokens after master"@,
            ) {
                Err(e) => Err(e),
                Ok(x) => Ok(with_program(d, ProgramView { master_gain: x, ..p })),
            },
        )
    } else if same_word(ws[0], "swing"@) {
        Some(
            match number_arg(
                ws,
                Precision::Double,
                true,
                "swing requires a number in [0,1]"@,
                "invalid swing: "@,
                "swing must be in [0,1]: "@,
                "extra tokens after swing"@,
            ) {
                Err(e) => Err(e),
                Ok(x) => Ok(with_program(d, ProgramView { swing: Some(x), ..p })),
            },
        )
    } else if same_word(ws[0], "humanize_ms"@) {
        Some(
            match number_arg(
                ws,
                Precision::Double,
                false,
                "humanize_ms requires a non-negative number"@,
                "invalid humanize_ms: "@,
                "humanize_ms must be finite and >= 0: "@,
                "extra tokens after humanize_ms"@,
            ) {
                Err(e) => Err(e),
                Ok(x) => Ok(with_program(d, ProgramView { humanize_ms: Some(x), ..p })),
            },
        )
    } else if same_word(ws[0], "humanize"@) {
        Some(
            match number_arg(
                ws,
                Precision::Double,
                false,
                "humanize requires a non-negative number"@,
                "invalid humanize: "@,
                "humanize must be finite and >= 0: "@,
                "extra tokens after humanize"@,
            ) {
                Err(e) => Err(e),
                Ok(x) => Ok(with_program(d, ProgramView { humanize_ms: Some(x), ..p })),
            },
        )
    } else if same_word(ws[0], "reload_quantum_cycles"@) {
        Some(
            match count_arg(
                ws,
                "reload_quantum_cycles requires an integer >= 1"@,
                "invalid reload_quantum_cycles: "@,
                "reload_quantum_cycles must be >= 1"@,
                "extra tokens after reload_quantum_cycles"@,
            ) {
                Err(e) => Err(e),
                Ok(n) => Ok(with_program(d, ProgramView { reload_quantum_cycles: Some(n), ..p })),
            },
        )
    } else if same_word(ws[0], "quantum"@) {
        Some(
            match count_arg(
                ws,
                "quantum requires an integer >= 1"@,
                "invalid quantum: "@,
                "quantum must be >= 1"@,
                "extra tokens after quantum"@,
            ) {
                Err(e) => Err(e),
                Ok(n) => Ok(with_program(d, ProgramView { reload_quantum_cycles: Some(n), ..p })),
            },
        )
    } else {
        None
    }
}

/// What the draft becomes by a directive about names.
pub open spec fn names_step(d: DraftView, ws: Seq<Seq<char>>, c: CatalogView) -> Option<
    Result<DraftView, Seq<char>>,
> {
    let p = d.program;
    if same_word(ws[0], "alias"@) {
        Some(
            match alias_args(ws) {
                Err(e) => Err(e),
                Ok((name, token)) => Ok(
                    with_program(
                        d,
                        ProgramView {
                            aliases: p.aliases.insert(name, raw_sample(token, c)),
                            ..p
                        },
                    ),
                ),
            },
        )
    } else if same_word(ws[0], "silence"@) {
        Some(
            match name_arg(
                ws,
                "silence requires a track/orbit name (e.g. silence d1)"@,
                "extra tokens after silence <name>"@,
            ) {
                Err(e) => Err(e),
                Ok(n) => Ok(with_program(d, ProgramView { silenced: p.silenced.insert(n), ..p })),
            },
        )
    } else if same_word(ws[0], "mute"@) {
        Some(
            match name_arg(
                ws,
                "mute requires a track/orbit name (e.g. mute d1)"@,
                "extra tokens after mute <name>"@,
            ) {
                Err(e) => Err(e),
                Ok(n) => Ok(
                    if same_word(n, "all"@) {
                        with_program(d, ProgramView { mute_all: true, ..p })
                    } else {
                        with_program(d, ProgramView { silenced: p.silenced.insert(n), ..p })
                    },
                ),
            },
        )
    } else if same_word(ws[0], "unsilence"@) {
        Some(
            match name_arg(
                ws,
                "unsilence requires a track/orbit name"@,
                "extra tokens after unsilence <name>"@,
            ) {
                Err(e) => Err(e),
                Ok(n) => Ok(with_program(d, ProgramView { silenced: p.silenced.remove(n), ..p })),
            },
        )
    } else if same_word(ws[0], "solo"@) {
        Some(
            match name_arg(
                ws,
                "solo requires a track/orbit name"@,
                "extra tokens after solo <name>"@,
            ) {
                Err(e) => Err(e),
                Ok(n) => Ok(with_program(d, ProgramView { soloed: p.soloed.insert(n), ..p })),
            },
        )
    } else {
        None
    }
}

/// What the draft becomes by a normalized line, of which there is at least one word.
pub open spec fn line_step(d: DraftView, line_no: int, line: Seq<char>, c: CatalogView) -> Result<
    DraftView,
    Seq<char>,
> {
    let ws = words(line);
    let p = d.program;
    if same_word(ws[0], "let"@) {
        match binding(trim(line)) {
            Err(e) => Err(e),
            Ok((name, body)) => Ok(DraftView { program: p, lets: d.lets.insert(name, body) }),
        }
    } else {
        match settings_step(d, ws) {
            Some(r) => r,
            None => match names_step(d, ws, c) {
                Some(r) => r,
                None => if same_word(ws[0], "track"@) {
                    match track_line(line, line_no, d.lets) {
                        Err(e) => Err(e),
                        Ok(t) => Ok(
                            with_program(d, ProgramView { tracks: placed(p.tracks, t), ..p }),
                        ),
                    }
                } else if same_word(ws[0], "pat"@) {
                    Err("use `s \"…\"` (Tidal `sound`), not `pat`"@)
                } else {
                    Err("unknown directive: "@ + ws[0])
                },
            },
        }
    }
}

/// What the draft becomes by a statement.
#[verifier::opaque]
pub open spec fn statement_step(d: DraftView, line_no: int, text: Seq<char>, c: CatalogView) -> Result<
    DraftView,
    Seq<char>,
> {
    let line = trim(text);
    let ws = words(line);
    if line.len() == 0 {
        Ok(d)
    } else if ws.len() > 0 && same_word(ws[0], "track"@) {
        Err("explicit `track` syntax removed; use `dN $ ...` (or bare `s ...` for d1)"@)
    } else if words(normalized(line)).len() == 0 {
        Ok(d)
    } else {
        line_step(d, line_no, normalized(line), c)
    }
}

/// What the first `k` statements say, or the first complaint.
pub open spec fn drafted(
    d: DraftView,
    sts: Seq<(int, Seq<char>)>,
    k: nat,
    c: CatalogView,
) -> Result<DraftView, ErrorView>
    decreases k,
{
    if k == 0 || k > sts.len() {
        Ok(d)
    } else {
        match drafted(d, sts, (k - 1) as nat, c) {
            Err(e) => Err(e),
            Ok(d) => match statement_step(d, sts[k - 1].0, sts[k - 1].1, c) {
                Err(message) => Err(ErrorView { line: sts[k - 1].0, message }),
                Ok(d) => Ok(d),
            },
        }
    }
}

/// The program that a text without further files stands for.
pub open spec fn program_of(source: Seq<char>, bpm: u32, c: CatalogView) -> Result<
    ProgramView,
    ErrorView,
> {
    let sts = statements(source);
    match drafted(blank(bpm), sts, sts.len(), c) {
        Ok(d) => Ok(d.program),
        Err(e) => Err(e),
    }
}

/// The program that a text stands for, with the files that it takes in.
pub open spec fn program_with_files(
    source: Seq<char>,
    bpm: u32,
    c: CatalogView,
    files: Option<FilesView>,
) -> Result<ProgramView, ErrorView> {
    match expansion(source, files) {
        ExpandedView::Done(text) => program_of(text, bpm, c),
        ExpandedView::Wanted { line, path } => Err(
            ErrorView { line, message: "include "@ + path + ": file not read"@ },
        ),
        ExpandedView::Failed(e) => Err(e),
    }
}

// ---------------------------------------------------------------------------------------------
// Arguments
// ---------------------------------------------------------------------------------------------

fn parse_number_arg(
    ws: &Vec<Vec<char>>,
    p: Precision,
    unit: bool,
    missing: &str,
    invalid: &str,
    refused: &str,
    extra: &str,
) -> (r: Result<Ratio, String>)
    ensures
        match r {
            Ok(x) => number_arg(
                views(ws@),
                p,
                unit,
                missing@,
                invalid@,
                refused@,
                extra@,
            ) == Ok::<real, Seq<char>>(x@),
            Err(e) => number_arg(
                views(ws@),
                p,
                unit,
                missing@,
                invalid@,
                refused@,
                extra@,
            ) == Err::<real, Seq<char>>(e@),
        },
{
    if ws.len() < 2 {
        return Err(String::from_str(missing));
    }
    assert(views(ws@)[1] == ws@[1]@);
    let text = text_of(ws[1].as_slice());
    match read_number(ws[1].as_slice(), p) {
        Reading::Malformed => Err(join2(invalid, text.as_str())),
        Reading::NotFinite => {
            let number = show_number(ws[1].as_slice(), p);
            Err(join2(refused, number.as_str()))
        },
        Reading::Finite(x) => if x.below(&Ratio::zero()) || (unit && Ratio::one().below(&x)) {
            let number = show_number(ws[1].as_slice(), p);
            Err(join2(refused, number.as_str()))
        } else if ws.len() > 2 {
            Err(String::from_str(extra))
        } else {
            Ok(x)
        },
    }
}

fn parse_count_arg(
    ws: &Vec<Vec<char>>,
    missing: &str,
    invalid: &str,
    refused: &str,
    extra: &str,
) -> (r: Result<u64, String>)
    ensures
        match r {
            Ok(n) => count_arg(views(ws@), missing@, invalid@, refused@, extra@) == Ok::<
                u64,
                Seq<char>,
            >(n),
            Err(e) => count_arg(views(ws@), missing@, invalid@, refused@, extra@) == Err::<
                u64,
                Seq<char>,
            >(e@),
        },
{
    if ws.len() < 2 {
        return Err(String::from_str(missing));
    }
    assert(views(ws@)[1] == ws@[1]@);
    match read_unsigned(ws[1].as_slice(), u64::MAX) {
        None => Err(join2(invalid, text_of(ws[1].as_slice()).as_str())),
        Some(n) => if n < 1 {
            Err(String::from_str(refused))
        } else if ws.len() > 2 {
            Err(String::from_str(extra))
        } else {
            Ok(n)
        },
    }
}

fn parse_name_arg(ws: &Vec<Vec<char>>, missing: &str, extra: &str) -> (r: Result<String, String>)
    ensures
        match r {
            Ok(n) => name_arg(views(ws@), missing@, extra@) == Ok::<Seq<char>, Seq<char>>(n@),
            Err(e) => name_arg(views(ws@), missing@, extra@) == Err::<Seq<char>, Seq<char>>(e@),
        },
{
    if ws.len() < 2 {
        return Err(String::from_str(missing));
    }
    if ws.len() > 2 {
        return Err(String::from_str(extra));
    }
    assert(views(ws@)[1] == ws@[1]@);
    Ok(text_of(ws[1].as_slice()))
}

fn parse_bpm_arg(ws: &Vec<Vec<char>>) -> (r: Result<u32, String>)
    ensures
        match r {
            Ok(n) => bpm_arg(views(ws@)) == Ok::<u32, Seq<char>>(n),
            Err(e) => bpm_arg(views(ws@)) == Err::<u32, Seq<char>>(e@),
        },
{
    if ws.len() < 2 {
        return Err(String::from_str("bpm requires a number"));
    }
    assert(views(ws@)[1] == ws@[1]@);
    match read_u32(ws[1].as_slice()) {
        None => Err(join2("invalid bpm: ", text_of(ws[1].as_slice()).as_str())),
        Some(n) => if n < 1 || n > 400 {
            Err(join2("bpm out of range (1–400): ", decimal_of(n as u64).as_str()))
        } else if ws.len() > 2 {
            Err(String::from_str("extra tokens after bpm"))
        } else {
            Ok(n)
        },
    }
}

fn parse_alias_args(ws: &Vec<Vec<char>>) -> (r: Result<(String, String), String>)
    ensures
        match r {
            Ok((name, token)) => alias_args(views(ws@)) == Ok::<
                (Seq<char>, Seq<char>),
                Seq<char>,
            >((name@, token@)),
            Err(e) => alias_args(views(ws@)) == Err::<(Seq<char>, Seq<char>), Seq<char>>(e@),
        },
{
    if ws.len() < 2 {
        return Err(String::from_str("alias requires <name> <path|bank:index>"));
    }
    if ws.len() < 3 {
        return Err(String::from_str("alias requires a sample reference"));
    }
    if ws.len() > 3 {
        return Err(
            String::from_str(
                "alias: only one reference token allowed in v0.1 (no spaces in path)",
            ),
        );
    }
    assert(views(ws@)[1] == ws@[1]@);
    assert(views(ws@)[2] == ws@[2]@);
    Ok((text_of(ws[1].as_slice()), text_of(ws[2].as_slice())))
}

// ---------------------------------------------------------------------------------------------
// Directives
// ---------------------------------------------------------------------------------------------

struct Draft {
    program: Program,
    lets: Table<String>,
}

impl View for Draft {
    type V = DraftView;

    closed spec fn view(&self) -> DraftView {
        DraftView { program: self.program@, lets: self.lets@ }
    }
}

/// Put a track in the place of one of its name, or last.
fn place(ts: &mut Vec<Track>, t: Track)
    requires
        valid_tempo(t@.tempo),
        tempos_valid(old(ts)@),
    ensures
        views(final(ts)@) == placed(views(old(ts)@), t@),
        tempos_valid(final(ts)@),
{
    let ghost v = views(ts@);
    let mut i: usize = 0;
    while i < ts.len()
        invariant
            i <= ts@.len(),
            v == views(ts@),
            track_from(v, t@.name, 0) == track_from(v, t@.name, i as int),
            valid_tempo(t@.tempo),
            tempos_valid(ts@),
            old(ts)@ == ts@,
        decreases ts@.len() - i,
    {
        assert(v[i as int] == ts@[i as int]@);
        if same_text(ts[i].name.as_str(), t.name.as_str()) {
            ts.set(i, t);
            assert(views(ts@) =~= v.update(i as int, t@));
            return;
        }
        i += 1;
    }
    proof {
        lemma_views_push(ts@, t);
    }
    ts.push(t);
}

/// No track is stretched over no cycles.
pub open spec fn tempos_valid(ts: Seq<Track>) -> bool {
    forall|i: int| 0 <= i < ts.len() ==> valid_tempo((#[trigger] ts[i])@.tempo)
}

/// Take in a directive that sets a number; whether the line was one.
fn take_setting(d: &mut Draft, ws: &Vec<Vec<char>>) -> (r: Result<bool, String>)
    requires
        ws@.len() > 0,
        tempos_valid(old(d).program.tracks@),
    ensures
        tempos_valid(final(d).program.tracks@),
        match r {
            Ok(true) => settings_step(old(d)@, views(ws@)) == Some(
                Ok::<DraftView, Seq<char>>(final(d)@),
            ),
            Ok(false) => settings_step(old(d)@, views(ws@)) is None && final(d)@ == old(d)@,
            Err(e) => settings_step(old(d)@, views(ws@)) == Some(Err::<DraftView, Seq<char>>(e@)),
        },
{
    assert(views(ws@)[0] == ws@[0]@);
    let head = ws[0].as_slice();
    if is_word(head, "bpm") {
        match parse_bpm_arg(ws) {
            Ok(n) => {
                d.program.bpm = n;
            },
            Err(e) => {
                return Err(e);
            },
        }
    } else if is_word(head, "master") {
        match parse_number_arg(
            ws,
            Precision::Single,
            false,
            "master requires a number (e.g. master 0.2)",
            "invalid master gain: ",
            "master gain must be finite and ≥ 0: ",
            "extra tokens after master",
        ) {
            Ok(x) => {
                d.program.master_gain = x;
            },
            Err(e) => {
                return Err(e);
            },
        }
    } else if is_word(head, "swing") {
        match parse_number_arg(
            ws,
            Precision::Double,
            true,
            "swing requires a number in [0,1]",
            "invalid swing: ",
            "swing must be in [0,1]: ",
            "extra tokens after swing",
        ) {
            Ok(x) => {
                d.program.swing = Some(x);
            },
            Err(e) => {
                return Err(e);
            },
        }
    } else if is_word(head, "humanize_ms") {
        match parse_number_arg(
            ws,
            Precision::Double,
            false,
            "humanize_ms requires a non-negative number",
            "invalid humanize_ms: ",
            "humanize_ms must be finite and >= 0: ",
            "extra tokens after humanize_ms",
        ) {
            Ok(x) => {
                d.program.humanize_ms = Some(x);
            },
            Err(e) => {
                return Err(e);
            },
        }
    } else if is_word(head, "humanize") {
        match parse_number_arg(
            ws,
            Precision::Double,
            false,
            "humanize requires a non-negative number",
            "invalid humanize: ",
            "humanize must be finite and >= 0: ",
            "extra tokens after humanize",
        ) {
            Ok(x) => {
                d.program.humanize_ms = Some(x);
            },
            Err(e) => {
                return Err(e);
            },
        }
    } else if is_word(head, "reload_quantum_cycles") {
        match parse_count_arg(
            ws,
            "reload_quantum_cycles requires an integer >= 1",
            "invalid reload_quantum_cycles: ",
            "reload_quantum_cycles must be >= 1",
            "extra tokens after reload_quantum_cycles",
        ) {
            Ok(n) => {
                d.program.reload_quantum_cycles = Some(n);
            },
            Err(e) => {
                return Err(e);
            },
        }
    } else if is_word(head, "quantum") {
        match parse_count_arg(
            ws,
            "quantum requires an integer >= 1",
            "invalid quantum: ",
            "quantum must be >= 1",
            "extra tokens after quantum",
        ) {
            Ok(n) => {
                d.program.reload_quantum_cycles = Some(n);
            },
            Err(e) => {
                return Err(e);
            },
        }
    } else {
        return Ok(false);
    }
    Ok(true)
}

/// Take in a directive about names; whether the line was one.
fn take_name(d: &mut Draft, ws: &Vec<Vec<char>>, samples: &Catalog) -> (r: Result<bool, String>)
    requires
        ws@.len() > 0,
        tempos_valid(old(d).program.tracks@),
    ensures
        tempos_valid(final(d).program.tracks@),
        match r {
            Ok(true) => names_step(old(d)@, views(ws@), samples@) == Some(
                Ok::<DraftView, Seq<char>>(final(d)@),
            ),
            Ok(false) => names_step(old(d)@, views(ws@), samples@) is None && final(d)@ == old(d)@,
            Err(e) => names_step(old(d)@, views(ws@), samples@) == Some(
                Err::<DraftView, Seq<char>>(e@),
            ),
        },
{
    assert(views(ws@)[0] == ws@[0]@);
    let head = ws[0].as_slice();
    if is_word(head, "alias") {
        match parse_alias_args(ws) {
            Ok((name, token)) => {
                let spec = parse_sample_token_raw(token.as_str(), samples);
                d.program.aliases.insert(name, spec);
            },
            Err(e) => {
                return Err(e);
            },
        }
    } else if is_word(head, "silence") {
        match parse_name_arg(
            ws,
            "silence requires a track/orbit name (e.g. silence d1)",
            "extra tokens after silence <name>",
        ) {
            Ok(name) => {
                d.program.silenced.insert(name);
            },
            Err(e) => {
                return Err(e);
            },
        }
    } else if is_word(head, "mute") {
        match parse_name_arg(
            ws,
            "mute requires a track/orbit name (e.g. mute d1)",
            "extra tokens after mute <name>",
        ) {
            Ok(name) => {
                let chars = chars_of(name.as_str());
                if is_word(chars.as_slice(), "all") {
                    d.program.mute_all = true;
                } else {
                    d.program.silenced.insert(name);
                }
            },
            Err(e) => {
                return Err(e);
            },
        }
    } else if is_word(head, "unsilence") {
        match parse_name_arg(
            ws,
            "unsilence requires a track/orbit name",
            "extra tokens after unsilence <name>",
        ) {
            Ok(name) => {
                d.program.silenced.remove(name.as_str());
            },
            Err(e) => {
                return Err(e);
            },
        }
    } else if is_word(head, "solo") {
        match parse_name_arg(
            ws,
            "solo requires a track/orbit name",
            "extra tokens after solo <name>",
        ) {
            Ok(name) => {
                d.program.soloed.insert(name);
            },
            Err(e) => {
                return Err(e);
            },
        }
    } else {
        return Ok(false);
    }
    Ok(true)
}

fn take_line(d: &mut Draft, line_no: usize, line: &[char], ws: &Vec<Vec<char>>, samples: &Catalog) -> (r: Result<
    (),
    String,
>)
    requires
        views(ws@) == words(line@),
        ws@.len() > 0,
        tempos_valid(old(d).program.tracks@),
    ensures
        tempos_valid(final(d).program.tracks@),
        match r {
            Ok(()) => line_step(old(d)@, line_no as int, line@, samples@) == Ok::<
                DraftView,
                Seq<char>,
            >(final(d)@),
            Err(e) => line_step(old(d)@, line_no as int, line@, samples@) == Err::<
                DraftView,
                Seq<char>,
            >(e@),
        },
{
    assert(views(ws@)[0] == ws@[0]@);
    let head = ws[0].as_slice();
    if is_word(head, "let") {
        let t = trimmed(line);
        match parse_let_binding(t.as_slice()) {
            Ok((name, body)) => {
                d.lets.insert(name, body);
                return Ok(());
            },
            Err(e) => {
                return Err(e);
            },
        }
    }
    match take_setting(d, ws) {
        Err(e) => {
            return Err(e);
        },
        Ok(true) => {
            return Ok(());
        },
        Ok(false) => {},
    }
    match take_name(d, ws, samples) {
        Err(e) => {
            return Err(e);
        },
        Ok(true) => {
            return Ok(());
        },
        Ok(false) => {},
    }
    if is_word(head, "track") {
        return match parse_track_line(line, line_no, &d.lets) {
            Ok(t) => {
                place(&mut d.program.tracks, t);
                Ok(())
            },
            Err(e) => Err(e),
        };
    }
    if is_word(head, "pat") {
        return Err(String::from_str("use `s \"…\"` (Tidal `sound`), not `pat`"));
    }
    Err(join2("unknown directive: ", text_of(head).as_str()))
}

fn take_statement(d: &mut Draft, line_no: usize, text: &str, samples: &Catalog) -> (r: Result<
    (),
    String,
>)
    requires
        tempos_valid(old(d).program.tracks@),
    ensures
        tempos_valid(final(d).program.tracks@),
        match r {
            Ok(()) => statement_step(old(d)@, line_no as int, text@, samples@) == Ok::<
                DraftView,
                Seq<char>,
            >(final(d)@),
            Err(e) => statement_step(old(d)@, line_no as int, text@, samples@) == Err::<
                DraftView,
                Seq<char>,
            >(e@),
        },
{
    proof {
        reveal(statement_step);
    }
    let chars = chars_of(text);
    let line = trimmed(chars.as_slice());
    if line.len() == 0 {
        return Ok(());
    }
    let ws = words_of(line.as_slice());
    if ws.len() > 0 {
        assert(views(ws@)[0] == ws@[0]@);
    }
    if ws.len() > 0 && is_word(ws[0].as_slice(), "track") {
        return Err(
            String::from_str(
                "explicit `track` syntax removed; use `dN $ ...` (or bare `s ...` for d1)",
            ),
        );
    }
    let norm = normalize_seq_line(line.as_slice());
    let ws = words_of(norm.as_slice());
    if ws.len() == 0 {
        return Ok(());
    }
    take_line(d, line_no, norm.as_slice(), &ws, samples)
}

/// A complaint about one statement is the complaint about all.
proof fn lemma_drafted_error(
    d: DraftView,
    sts: Seq<(int, Seq<char>)>,
    k: nat,
    c: CatalogView,
    e: ErrorView,
)
    requires
        k <= sts.len(),
        drafted(d, sts, k, c) == Err::<DraftView, ErrorView>(e),
    ensures
        drafted(d, sts, sts.len(), c) == Err::<DraftView, ErrorView>(e),
    decreases sts.len() - k,
{
    if k < sts.len() {
        lemma_drafted_error(d, sts, k + 1, c, e);
    }
}

pub open spec fn program_view(r: Result<Program, ParseError>) -> Result<ProgramView, ErrorView> {
    match r {
        Ok(p) => Ok(p@),
        Err(e) => Err(e@),
    }
}

/// Nothing read yet.
fn blank_draft(bpm: u32) -> (r: Draft)
    ensures
        r@ == blank(bpm),
        tempos_valid(r.program.tracks@),
{
    let d = Draft {
        program: Program {
            bpm,
            master_gain: Ratio::one(),
            swing: None,
            humanize_ms: None,
            reload_quantum_cycles: None,
            mute_all: false,
            tracks: Vec::new(),
            aliases: Table::new(),
            silenced: Names::new(),
            soloed: Names::new(),
        },
        lets: Table::new(),
    };
    assert(views(d.program.tracks@) =~= seq![]);
    d
}

/// Read a pattern file that takes in no other files.
fn parse_text(source: &str, default_bpm: u32, samples: &Catalog) -> (r: Result<Program, ParseError>)
    ensures
        program_view(r) == program_of(source@, default_bpm, samples@),
        r is Ok ==> tempos_valid(r->Ok_0.tracks@),
{
    let sts = merge_statement_lines(source);
    let ghost all = statement_views(sts@);
    let mut d = blank_draft(default_bpm);
    let mut k: usize = 0;
    while k < sts.len()
        invariant
            k <= sts@.len(),
            all == statement_views(sts@),
            all == statements(source@),
            tempos_valid(d.program.tracks@),
            drafted(blank(default_bpm), all, k as nat, samples@) == Ok::<DraftView, ErrorView>(d@),
        decreases sts@.len() - k,
    {
        assert(all[k as int] == statement_view(sts@[k as int]));
        match take_statement(&mut d, sts[k].0, sts[k].1.as_str(), samples) {
            Ok(()) => {},
            Err(message) => {
                let e = ParseError { line: sts[k].0, message };
                proof {
                    lemma_drafted_error(
                        blank(default_bpm),
                        all,
                        (k + 1) as nat,
                        samples@,
                        e@,
                    );
                }
                return Err(e);
            },
        }
        k += 1;
    }
    Ok(d.program)
}

/// Read a pattern file. It takes in no other files: for that, see [`parse_with_options`].
pub fn parse(source: &str, default_bpm: u32, samples: &Catalog) -> (r: Result<Program, ParseError>)
    ensures
        program_view(r) == program_with_files(source@, default_bpm, samples@, None),
        r is Ok ==> tempos_valid(r->Ok_0.tracks@),
{
    parse_with_options(source, default_bpm, samples, None)
}

/// Read a pattern file, with the other files that it takes in.
pub fn parse_with_options(
    source: &str,
    default_bpm: u32,
    samples: &Catalog,
    files: Option<&Files>,
) -> (r: Result<Program, ParseError>)
    ensures
        program_view(r) == program_with_files(
            source@,
            default_bpm,
            samples@,
            crate::dsl::inclusion::files_view(files),
        ),
        r is Ok ==> tempos_valid(r->Ok_0.tracks@),
{
    match expand_include_directives(source, files) {
        Expanded::Done(text) => parse_text(text.as_str(), default_bpm, samples),
        Expanded::Wanted { line, path } => Err(
            ParseError {
                line,
                message: crate::text::join3("include ", path.as_str(), ": file not read"),
            },
        ),
        Expanded::Failed(e) => Err(e),
    }
}

} // verus!
