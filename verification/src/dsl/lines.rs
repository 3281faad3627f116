//! From the text of a file to statements: comments, merged lines, orbit prefixes.

use vstd::prelude::*;
use vstd::string::StringExecFns;

use crate::number::{read_number, read_u32, reading, unsigned, Precision, Reading};
use crate::text::{
    after_digits, all_digits, chars_between, chars_of, digits_between, digits_end, is_word, lines,
    lines_of, same_chars, same_word, text_of, trim, trim_start, trim_start_of, trimmed, views,
    words, words_of,
};

verus! {

// ---------------------------------------------------------------------------------------------
// Comments
// ---------------------------------------------------------------------------------------------

/// Where the comment of a line begins: at the first `--` outside quotes, at the end if there is
/// none.
pub open spec fn comment_start(s: Seq<char>, i: int, quoted: bool) -> int
    decreases s.len() - i,
{
    if i < 0 || i >= s.len() {
        s.len() as int
    } else if s[i] == '"' {
        comment_start(s, i + 1, !quoted)
    } else if s[i] == '-' && !quoted && i + 1 < s.len() && s[i + 1] == '-' {
        i
    } else {
        comment_start(s, i + 1, quoted)
    }
}

/// A line without its comment; `quoted` says whether it begins inside quotes.
pub open spec fn without_comment(s: Seq<char>, quoted: bool) -> Seq<char> {
    s.take(comment_start(s, 0, quoted))
}

fn cut_comment(s: &[char], quoted: bool) -> (r: Vec<char>)
    ensures
        r@ == without_comment(s@, quoted),
{
    let mut i: usize = 0;
    let mut q: bool = quoted;
    while i < s.len()
        invariant
            i <= s@.len(),
            comment_start(s@, 0, quoted) == comment_start(s@, i as int, q),
        decreases s@.len() - i,
    {
        if s[i] == '"' {
            q = !q;
        } else if s[i] == '-' && !q && i + 1 < s.len() && s[i + 1] == '-' {
            let out = chars_between(s, 0, i);
            assert(out@ =~= s@.take(i as int));
            return out;
        }
        i += 1;
    }
    let out = chars_between(s, 0, s.len());
    assert(out@ =~= s@.take(s@.len() as int));
    out
}

/// Whether quotes are open at the end of a text that begins with them open or not.
pub open spec fn ends_quoted(s: Seq<char>, quoted: bool) -> bool
    decreases s.len(),
{
    if s.len() == 0 {
        quoted
    } else if s.last() == '"' {
        !ends_quoted(s.drop_last(), quoted)
    } else {
        ends_quoted(s.drop_last(), quoted)
    }
}

/// Whether quotes are open after the first `k` lines, without their comments.
pub open spec fn open_quotes(ls: Seq<Seq<char>>, k: nat) -> bool
    decreases k,
{
    if k == 0 || k > ls.len() {
        false
    } else {
        let quoted = open_quotes(ls, (k - 1) as nat);
        ends_quoted(without_comment(ls[k - 1], quoted), quoted)
    }
}

/// Whether quotes are open after a line that begins with them open or not.
pub fn quotes_after(s: &[char], quoted: bool) -> (r: bool)
    ensures
        r == ends_quoted(without_comment(s@, quoted), quoted),
{
    let t = cut_comment(s, quoted);
    let mut q: bool = quoted;
    let mut i: usize = 0;
    assert(t@.take(0) =~= seq![]);
    while i < t.len()
        invariant
            i <= t@.len(),
            q == ends_quoted(t@.take(i as int), quoted),
        decreases t@.len() - i,
    {
        assert(t@.take(i + 1).drop_last() =~= t@.take(i as int));
        if t[i] == '"' {
            q = !q;
        }
        i += 1;
    }
    assert(t@.take(i as int) =~= t@);
    q
}

/// The line without its comment.
pub fn strip_comment(line: &str) -> (r: String)
    ensures
        r@ == without_comment(line@, false),
{
    let s = chars_of(line);
    let t = cut_comment(s.as_slice(), false);
    text_of(t.as_slice())
}

/// The line without its comment and the whitespace around it.
pub fn bare_line(s: &[char]) -> (r: Vec<char>)
    ensures
        r@ == trim(without_comment(s@, false)),
{
    let t = cut_comment(s, false);
    trimmed(t.as_slice())
}

// ---------------------------------------------------------------------------------------------
// Statements
// ---------------------------------------------------------------------------------------------

/// How many square brackets are open outside quotes, and whether a quote is.
pub open spec fn balance(s: Seq<char>) -> (int, bool)
    decreases s.len(),
{
    if s.len() == 0 {
        (0, false)
    } else {
        let (depth, quoted) = balance(s.drop_last());
        let c = s.last();
        if c == '"' {
            (depth, !quoted)
        } else if c == '[' && !quoted {
            (depth + 1, quoted)
        } else if c == ']' && !quoted {
            (depth - 1, quoted)
        } else {
            (depth, quoted)
        }
    }
}

/// No bracket and no quote is open.
pub open spec fn complete(s: Seq<char>) -> bool {
    balance(s) == (0int, false)
}

/// The statements so far, each with the number of its first line, and the one under way.
#[verifier::ext_equal]
pub struct Merge {
    pub done: Seq<(int, Seq<char>)>,
    pub open: Seq<char>,
    pub start: int,
}

/// The statement under way with another piece of text.
pub open spec fn extended(open: Seq<char>, piece: Seq<char>) -> Seq<char> {
    if open.len() == 0 {
        piece
    } else {
        open.push(' ') + piece
    }
}

/// Take in the line numbered `n`. Inside quotes that an earlier line has opened, `--` is no
/// comment.
pub open spec fn merge_line(m: Merge, n: int, raw: Seq<char>) -> Merge {
    let piece = trim(without_comment(raw, balance(m.open).1));
    if piece.len() == 0 {
        m
    } else {
        let text = extended(m.open, piece);
        let start = if m.open.len() == 0 {
            n
        } else {
            m.start
        };
        if complete(text) {
            Merge { done: m.done.push((start, text)), open: seq![], start }
        } else {
            Merge { done: m.done, open: text, start }
        }
    }
}

/// The first `k` lines merged.
pub open spec fn merge_upto(ls: Seq<Seq<char>>, k: nat) -> Merge
    decreases k,
{
    if k == 0 || k > ls.len() {
        Merge { done: seq![], open: seq![], start: 1 }
    } else {
        merge_line(merge_upto(ls, (k - 1) as nat), k as int, ls[k - 1])
    }
}

/// The statements of a text: lines are merged until brackets and quotes balance.
pub open spec fn statements(source: Seq<char>) -> Seq<(int, Seq<char>)> {
    let m = merge_upto(lines(source), lines(source).len());
    if m.open.len() > 0 {
        m.done.push((m.start, m.open))
    } else {
        m.done
    }
}

fn weigh(s: &Vec<char>) -> (r: (i128, bool))
    ensures
        (r.0 as int, r.1) == balance(s@),
{
    let mut depth: i128 = 0;
    let mut quoted: bool = false;
    let mut i: usize = 0;
    assert(s@.take(0) =~= seq![]);
    while i < s.len()
        invariant
            i <= s@.len(),
            -(i as int) <= depth <= i,
            (depth as int, quoted) == balance(s@.take(i as int)),
        decreases s@.len() - i,
    {
        assert(s@.take(i + 1).drop_last() =~= s@.take(i as int));
        let c = s[i];
        if c == '"' {
            quoted = !quoted;
        } else if c == '[' && !quoted {
            depth += 1;
        } else if c == ']' && !quoted {
            depth -= 1;
        }
        i += 1;
    }
    assert(s@.take(i as int) =~= s@);
    (depth, quoted)
}

/// Whether no bracket and no quote is open.
pub fn statement_boundary_complete(s: &str) -> (r: bool)
    ensures
        r == complete(s@),
{
    let chars = chars_of(s);
    let (depth, quoted) = weigh(&chars);
    depth == 0 && !quoted
}

/// A statement with the number of its first line.
pub open spec fn statement_view(p: (usize, String)) -> (int, Seq<char>) {
    (p.0 as int, p.1@)
}

pub open spec fn statement_views(v: Seq<(usize, String)>) -> Seq<(int, Seq<char>)> {
    Seq::new(v.len(), |i: int| statement_view(v[i]))
}

/// Merge lines into statements.
pub fn merge_statement_lines(source: &str) -> (r: Vec<(usize, String)>)
    ensures
        statement_views(r@) == statements(source@),
{
    let text = chars_of(source);
    let ls = lines_of(text.as_slice());
    let ghost all = views(ls@);
    let mut done: Vec<(usize, String)> = Vec::new();
    let mut open: Vec<char> = Vec::new();
    let mut start: usize = 1;
    let mut k: usize = 0;
    assert(statement_views(done@) =~= seq![]);
    assert(open@ =~= seq![]);
    while k < ls.len()
        invariant
            k <= ls@.len(),
            all == views(ls@),
            all == lines(source@),
            merge_upto(all, k as nat) == (Merge {
                done: statement_views(done@),
                open: open@,
                start: start as int,
            }),
        decreases ls@.len() - k,
    {
        let (_, quoted) = weigh(&open);
        assert(all[k as int] == ls@[k as int]@);
        let cut = cut_comment(ls[k].as_slice(), quoted);
        let mut piece = trimmed(cut.as_slice());
        let ghost before = merge_upto(all, k as nat);
        let ghost piece0 = piece@;
        if piece.len() > 0 {
            if open.len() == 0 {
                start = k + 1;
            } else {
                open.push(' ');
            }
            open.append(&mut piece);
            assert(open@ =~= extended(before.open, piece0));
            let (depth, q) = weigh(&open);
            if depth == 0 && !q {
                let st = (start, text_of(open.as_slice()));
                assert(statement_views(done@.push(st)) =~= statement_views(done@).push(
                    statement_view(st),
                ));
                done.push(st);
                open = Vec::new();
                assert(open@ =~= seq![]);
            }
        }
        k += 1;
    }
    if open.len() > 0 {
        let st = (start, text_of(open.as_slice()));
        assert(statement_views(done@.push(st)) =~= statement_views(done@).push(statement_view(st)));
        done.push(st);
    }
    done
}

// ---------------------------------------------------------------------------------------------
// Orbits
// ---------------------------------------------------------------------------------------------

/// An optional `dN $` before a line, as the orbit's name, and the rest of the line.
pub open spec fn orbit_prefix(line: Seq<char>) -> (Option<Seq<char>>, Seq<char>) {
    let t = trim_start(line);
    let i = digits_end(t, 1);
    let rest = trim_start(t.subrange(i, t.len() as int));
    if t.len() == 0 || (t[0] != 'd' && t[0] != 'D') || i <= 1 || rest.len() == 0 || rest[0] != '$' {
        (None, t)
    } else {
        (
            Some(seq!['d'] + t.subrange(1, i)),
            trim_start(rest.subrange(1, rest.len() as int)),
        )
    }
}

/// `slow` or `fast`.
pub open spec fn is_tempo(w: Seq<char>) -> bool {
    same_word(w, "slow"@) || same_word(w, "fast"@)
}

/// The words, from the one numbered `i` on, begin a sound: `s`, a transform, or `slow N $`.
pub open spec fn begins_sound(ws: Seq<Seq<char>>, i: int) -> bool {
    if i >= ws.len() {
        false
    } else {
        ||| same_word(ws[i], "rev"@)
        ||| same_word(ws[i], "pal"@)
        ||| same_word(ws[i], "rot"@)
        ||| same_word(ws[i], "every"@)
        ||| same_word(ws[i], "s"@)
        ||| {
            &&& is_tempo(ws[i])
            &&& i + 2 < ws.len()
            &&& all_digits(ws[i + 1])
            &&& unsigned(ws[i + 1], u32::MAX as nat) is Some
            &&& ws[i + 2] == seq!['$']
        }
    }
}

/// The words make up a track: a sound, after an optional `gain` with a number.
pub open spec fn needs_track(ws: Seq<Seq<char>>) -> bool {
    if ws.len() > 0 && same_word(ws[0], "gain"@) {
        &&& ws.len() > 1
        &&& reading(ws[1], Precision::Single) !is Malformed
        &&& begins_sound(ws, 2)
    } else {
        begins_sound(ws, 0)
    }
}

/// The words that begin a directive.
pub open spec fn is_directive(w: Seq<char>) -> bool {
    ||| same_word(w, "track"@)
    ||| same_word(w, "bpm"@)
    ||| same_word(w, "master"@)
    ||| same_word(w, "swing"@)
    ||| same_word(w, "humanize_ms"@)
    ||| same_word(w, "humanize"@)
    ||| same_word(w, "reload_quantum_cycles"@)
    ||| same_word(w, "quantum"@)
    ||| same_word(w, "include"@)
    ||| same_word(w, "alias"@)
    ||| same_word(w, "silence"@)
    ||| same_word(w, "unsilence"@)
    ||| same_word(w, "mute"@)
    ||| same_word(w, "solo"@)
    ||| same_word(w, "let"@)
}

/// A statement without its orbit prefix; a sound is put behind `track` and its orbit, `d1` if it
/// has none.
pub open spec fn normalized(line: Seq<char>) -> Seq<char> {
    let (orbit, rest) = orbit_prefix(line);
    let ws = words(rest);
    if ws.len() > 0 && is_directive(ws[0]) {
        rest
    } else if needs_track(ws) {
        let name = match orbit {
            Some(name) => name,
            None => "d1"@,
        };
        "track "@ + name + " "@ + trim_start(rest)
    } else {
        rest
    }
}

fn split_dn_prefix(line: &[char]) -> (r: (Option<Vec<char>>, Vec<char>))
    ensures
        match r.0 {
            Some(name) => orbit_prefix(line@) == (Some(name@), r.1@),
            None => orbit_prefix(line@) == (None::<Seq<char>>, r.1@),
        },
{
    let t = trim_start_of(line);
    let n: usize = t.len();
    if n == 0 || (t[0] != 'd' && t[0] != 'D') {
        return (None, t);
    }
    let i = after_digits(t.as_slice(), 1);
    if i <= 1 {
        return (None, t);
    }
    let after = chars_between(t.as_slice(), i, n);
    let rest = trim_start_of(after.as_slice());
    if rest.len() == 0 || rest[0] != '$' {
        return (None, t);
    }
    let mut name: Vec<char> = vec!['d'];
    let mut digits = chars_between(t.as_slice(), 1, i);
    name.append(&mut digits);
    assert(name@ =~= seq!['d'] + t@.subrange(1, i as int));
    let body = chars_between(rest.as_slice(), 1, rest.len());
    (Some(name), trim_start_of(body.as_slice()))
}

fn sound_begins(ws: &Vec<Vec<char>>, i: usize) -> (r: bool)
    requires
        i <= 2,
    ensures
        r == begins_sound(views(ws@), i as int),
{
    if i >= ws.len() {
        return false;
    }
    let ghost v = views(ws@);
    assert(v[i as int] == ws@[i as int]@);
    let w = ws[i].as_slice();
    if is_word(w, "rev") || is_word(w, "pal") || is_word(w, "rot") || is_word(w, "every")
        || is_word(w, "s") {
        return true;
    }
    if !is_word(w, "slow") && !is_word(w, "fast") {
        return false;
    }
    if i + 2 >= ws.len() {
        return false;
    }
    assert(v[i + 1] == ws@[i + 1]@);
    assert(v[i + 2] == ws@[i + 2]@);
    let n = ws[i + 1].as_slice();
    assert(n@.subrange(0, n@.len() as int) =~= n@);
    let dollar: Vec<char> = vec!['$'];
    assert(dollar@ =~= seq!['$']);
    digits_between(n, 0, n.len()) && read_u32(n).is_some() && same_chars(
        ws[i + 2].as_slice(),
        dollar.as_slice(),
    )
}

fn line_needs_implicit_track(ws: &Vec<Vec<char>>) -> (r: bool)
    ensures
        r == needs_track(views(ws@)),
{
    let ghost v = views(ws@);
    if ws.len() > 0 {
        assert(v[0] == ws@[0]@);
    }
    if ws.len() > 0 && is_word(ws[0].as_slice(), "gain") {
        if ws.len() <= 1 {
            return false;
        }
        assert(v[1] == ws@[1]@);
        match read_number(ws[1].as_slice(), Precision::Single) {
            Reading::Malformed => false,
            _ => sound_begins(ws, 2),
        }
    } else {
        sound_begins(ws, 0)
    }
}

fn directive(w: &[char]) -> (r: bool)
    ensures
        r == is_directive(w@),
{
    is_word(w, "track") || is_word(w, "bpm") || is_word(w, "master") || is_word(w, "swing")
        || is_word(w, "humanize_ms") || is_word(w, "humanize") || is_word(
        w,
        "reload_quantum_cycles",
    ) || is_word(w, "quantum") || is_word(w, "include") || is_word(w, "alias") || is_word(
        w,
        "silence",
    ) || is_word(w, "unsilence") || is_word(w, "mute") || is_word(w, "solo") || is_word(w, "let")
}

/// A statement without its orbit prefix, or as a track.
pub fn normalize_seq_line(line: &[char]) -> (r: Vec<char>)
    ensures
        r@ == normalized(line@),
{
    let (orbit, rest) = split_dn_prefix(line);
    let ws = words_of(rest.as_slice());
    if ws.len() > 0 {
        assert(views(ws@)[0] == ws@[0]@);
    }
    if ws.len() > 0 && directive(ws[0].as_slice()) {
        return rest;
    }
    if line_needs_implicit_track(&ws) {
        let mut out = chars_of("track ");
        let mut name = match orbit {
            Some(name) => name,
            None => chars_of("d1"),
        };
        let ghost name0 = name@;
        let mut gap = chars_of(" ");
        let ghost gap0 = gap@;
        let mut body = trim_start_of(rest.as_slice());
        out.append(&mut name);
        out.append(&mut gap);
        out.append(&mut body);
        assert(out@ =~= "track "@ + name0 + gap0 + trim_start(rest@));
        out
    } else {
        rest
    }
}

} // verus!
