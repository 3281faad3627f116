//! Sounds: a quoted pattern with its lanes, behind a chain of combinators.

use vstd::prelude::*;
use vstd::string::StringExecFns;

use crate::dsl::TempoWrap;
use crate::number::{read_i32, read_u32, signed, unsigned};
use crate::pat::lanes::LanesView;
use crate::pat::parse::{parse_pattern, pattern, Read};
use crate::pat::{Pat, PatView};
use crate::table::Table;
use crate::text::{
    after_word, after_ws, chars_between, debug_of, debug_text, ident, ident_start, is_ident,
    is_ident_start, is_word, join2, join3, same_word, skip_ws, text_between, text_of, word_end,
};

verus! {

// ---------------------------------------------------------------------------------------------
// Words and quotes
// ---------------------------------------------------------------------------------------------

/// The word after the whitespace at `i`, and where it ends.
pub open spec fn word_at(s: Seq<char>, i: int) -> Option<(Seq<char>, int)> {
    let a = skip_ws(s, i);
    let b = word_end(s, a);
    if b <= a {
        None
    } else {
        Some((s.subrange(a, b), b))
    }
}

/// The first double quote at or after `i`.
pub open spec fn quote_end(s: Seq<char>, i: int) -> int
    decreases s.len() - i,
{
    if 0 <= i < s.len() && s[i] != '"' {
        quote_end(s, i + 1)
    } else {
        i
    }
}

/// The text in double quotes after the whitespace at `i`; `what` names it in complaints.
pub open spec fn quoted(s: Seq<char>, i: int, what: Seq<char>) -> Read<Seq<char>> {
    let a = skip_ws(s, i);
    if a >= s.len() || s[a] != '"' {
        Err(what + " requires an opening double quote (\")"@)
    } else {
        let e = quote_end(s, a + 1);
        if e >= s.len() {
            Err("unclosed string in "@ + what)
        } else {
            Ok((s.subrange(a + 1, e), e + 1))
        }
    }
}

/// The position behind the `$` after the whitespace at `i`.
pub open spec fn dollar(s: Seq<char>, i: int, after: Seq<char>) -> Result<int, Seq<char>> {
    let a = skip_ws(s, i);
    if a >= s.len() || s[a] != '$' {
        Err("`"@ + after + "` must be followed by `$`"@)
    } else {
        Ok(a + 1)
    }
}

/// The word at or after `i`, and where it ends.
pub fn parse_word(s: &[char], i: usize) -> (r: Option<(Vec<char>, usize)>)
    requires
        i <= s@.len(),
    ensures
        match r {
            Some((w, j)) => word_at(s@, i as int) == Some((w@, j as int)) && i < j <= s@.len(),
            None => word_at(s@, i as int) is None,
        },
{
    let a = after_ws(s, i);
    let b = after_word(s, a);
    if b <= a {
        None
    } else {
        Some((chars_between(s, a, b), b))
    }
}

fn parse_quoted_string(s: &[char], i: usize, what: &str) -> (r: Result<(Vec<char>, usize), String>)
    requires
        i <= s@.len(),
    ensures
        match r {
            Ok((t, j)) => quoted(s@, i as int, what@) == Ok::<(Seq<char>, int), Seq<char>>(
                (t@, j as int),
            ) && i < j <= s@.len(),
            Err(e) => quoted(s@, i as int, what@) == Err::<(Seq<char>, int), Seq<char>>(e@),
        },
{
    let n: usize = s.len();
    let a = after_ws(s, i);
    if a >= n || s[a] != '"' {
        return Err(join2(what, " requires an opening double quote (\")"));
    }
    let mut e: usize = a + 1;
    while e < n && s[e] != '"'
        invariant
            n == s@.len(),
            a < e <= n,
            quote_end(s@, a + 1) == quote_end(s@, e as int),
        decreases n - e,
    {
        e += 1;
    }
    if e >= n {
        return Err(join2("unclosed string in ", what));
    }
    Ok((chars_between(s, a + 1, e), e + 1))
}

fn expect_dollar(s: &[char], i: usize, after: &str) -> (r: Result<usize, String>)
    requires
        i <= s@.len(),
    ensures
        match r {
            Ok(j) => dollar(s@, i as int, after@) == Ok::<int, Seq<char>>(j as int) && i < j
                <= s@.len(),
            Err(e) => dollar(s@, i as int, after@) == Err::<int, Seq<char>>(e@),
        },
{
    let n: usize = s.len();
    let a = after_ws(s, i);
    if a >= n || s[a] != '$' {
        Err(join3("`", after, "` must be followed by `$`"))
    } else {
        Ok(a + 1)
    }
}

// ---------------------------------------------------------------------------------------------
// Bindings
// ---------------------------------------------------------------------------------------------

/// The end of the identifier that goes on at `i`.
pub open spec fn ident_end(s: Seq<char>, i: int) -> int
    decreases s.len() - i,
{
    if 0 <= i < s.len() && is_ident(s[i]) {
        ident_end(s, i + 1)
    } else {
        i
    }
}

/// The text from `i` on, with the text that is bound to an identifier in place of it.
pub open spec fn expanded_from(s: Seq<char>, i: int, lets: Map<Seq<char>, Seq<char>>) -> Seq<char>
    decreases s.len() - i,
{
    if i < 0 || i >= s.len() {
        seq![]
    } else if is_ident_start(s[i]) {
        let j = ident_end(s, i + 1);
        let name = s.subrange(i, j);
        let text = if lets.contains_key(name) {
            lets[name]
        } else {
            name
        };
        if i < j <= s.len() {
            text + expanded_from(s, j, lets)
        } else {
            text
        }
    } else {
        seq![s[i]] + expanded_from(s, i + 1, lets)
    }
}

/// The text with what is bound to its identifiers in place of them, whole identifiers only.
pub open spec fn expanded(s: Seq<char>, lets: Map<Seq<char>, Seq<char>>) -> Seq<char> {
    expanded_from(s, 0, lets)
}

fn expand_lets_in_mini_pattern(s: &[char], lets: &Table<String>) -> (r: String)
    ensures
        r@ == expanded(s@, lets@),
{
    let n: usize = s.len();
    let mut out = String::new();
    let mut i: usize = 0;
    assert(out@ + expanded(s@, lets@) =~= expanded(s@, lets@));
    while i < n
        invariant
            i <= n,
            n == s@.len(),
            out@ + expanded_from(s@, i as int, lets@) == expanded(s@, lets@),
        decreases n - i,
    {
        let ghost before = out@;
        if ident_start(s[i]) {
            let mut j: usize = i + 1;
            while j < n && ident(s[j])
                invariant
                    i < j <= n,
                    n == s@.len(),
                    ident_end(s@, i + 1) == ident_end(s@, j as int),
                decreases n - j,
            {
                j += 1;
            }
            let name = text_between(s, i, j);
            match lets.get(name.as_str()) {
                Some(text) => {
                    out.append(text.as_str());
                },
                None => {
                    out.append(name.as_str());
                },
            }
            proof {
                let text = if lets@.contains_key(name@) {
                    lets@[name@]
                } else {
                    name@
                };
                assert(before + (text + expanded_from(s@, j as int, lets@)) =~= (before + text)
                    + expanded_from(s@, j as int, lets@));
            }
            i = j;
        } else {
            out.push(s[i]);
            assert(before + (seq![s@[i as int]] + expanded_from(s@, i + 1, lets@))
                =~= before.push(s@[i as int]) + expanded_from(s@, i + 1, lets@));
            i += 1;
        }
    }
    assert(out@ + expanded_from(s@, i as int, lets@) =~= out@);
    out
}

/// An identifier: a letter or underscore, then letters, digits and underscores.
pub open spec fn is_identifier(s: Seq<char>) -> bool {
    &&& s.len() > 0
    &&& is_ident_start(s[0])
    &&& forall|i: int| 0 <= i < s.len() ==> is_ident(#[trigger] s[i])
}

fn identifier(s: &[char]) -> (r: bool)
    ensures
        r == is_identifier(s@),
{
    if s.len() == 0 || !ident_start(s[0]) {
        return false;
    }
    let mut i: usize = 0;
    while i < s.len()
        invariant
            i <= s@.len(),
            forall|k: int| 0 <= k < i ==> is_ident(#[trigger] s@[k]),
        decreases s@.len() - i,
    {
        if !ident(s[i]) {
            return false;
        }
        i += 1;
    }
    true
}

/// The name and the text of a line `let name "text"`.
pub open spec fn binding(s: Seq<char>) -> Result<(Seq<char>, Seq<char>), Seq<char>> {
    match word_at(s, 0) {
        None => Err("internal: empty `let` line"@),
        Some((w, i)) => if !same_word(w, "let"@) {
            Err("internal: expected `let`"@)
        } else {
            match word_at(s, i) {
                None => Err("`let` requires a name, e.g. let kicks \"bd sn\""@),
                Some((name, j)) => if !is_identifier(name) {
                    Err(
                        "`let` name must be an identifier ([a-zA-Z_][a-zA-Z0-9_]*), got "@
                            + debug_text(name),
                    )
                } else {
                    match quoted(s, j, "let binding"@) {
                        Err(e) => Err(e),
                        Ok((body, k)) => if skip_ws(s, k) < s.len() {
                            Err(
                                "extra tokens after `let` binding (expected only `let name \"…\"`)"@,
                            )
                        } else {
                            Ok((name, body))
                        },
                    }
                },
            }
        },
    }
}

/// Read the name and the text of `let`.
pub fn parse_let_binding(s: &[char]) -> (r: Result<(String, String), String>)
    ensures
        match r {
            Ok((name, body)) => binding(s@) == Ok::<(Seq<char>, Seq<char>), Seq<char>>(
                (name@, body@),
            ),
            Err(e) => binding(s@) == Err::<(Seq<char>, Seq<char>), Seq<char>>(e@),
        },
{
    let (w, i) = match parse_word(s, 0) {
        Some(x) => x,
        None => {
            return Err(String::from_str("internal: empty `let` line"));
        },
    };
    if !is_word(w.as_slice(), "let") {
        return Err(String::from_str("internal: expected `let`"));
    }
    let (name, j) = match parse_word(s, i) {
        Some(x) => x,
        None => {
            return Err(
                String::from_str("`let` requires a name, e.g. let kicks \"bd sn\""),
            );
        },
    };
    let text = text_of(name.as_slice());
    if !identifier(name.as_slice()) {
        return Err(
            join2(
                "`let` name must be an identifier ([a-zA-Z_][a-zA-Z0-9_]*), got ",
                debug_of(text.as_str()).as_str(),
            ),
        );
    }
    let (body, k) = match parse_quoted_string(s, j, "let binding") {
        Ok(x) => x,
        Err(e) => {
            return Err(e);
        },
    };
    if after_ws(s, k) < s.len() {
        return Err(
            String::from_str(
                "extra tokens after `let` binding (expected only `let name \"…\"`)",
            ),
        );
    }
    Ok((text, text_of(body.as_slice())))
}

// ---------------------------------------------------------------------------------------------
// Lanes
// ---------------------------------------------------------------------------------------------

/// The lanes of a sound.
#[derive(Debug)]
pub struct Lanes {
    pub gain: Option<Pat>,
    pub pan: Option<Pat>,
    pub prob: Option<Pat>,
    pub dur: Option<Pat>,
    pub legato: Option<Pat>,
    pub cut_group: Option<Pat>,
    pub cut_voices: Option<Pat>,
    pub cutoff: Option<Pat>,
}

pub open spec fn owned_view(p: Option<Pat>) -> Option<PatView> {
    match p {
        Some(p) => Some(p@),
        None => None,
    }
}

impl View for Lanes {
    type V = LanesView;

    open spec fn view(&self) -> LanesView {
        LanesView {
            gain: owned_view(self.gain),
            pan: owned_view(self.pan),
            prob: owned_view(self.prob),
            dur: owned_view(self.dur),
            legato: owned_view(self.legato),
            cut_group: owned_view(self.cut_group),
            cut_voices: owned_view(self.cut_voices),
            cutoff: owned_view(self.cutoff),
        }
    }
}

/// No lanes.
pub open spec fn no_lanes() -> LanesView {
    LanesView {
        gain: None,
        pan: None,
        prob: None,
        dur: None,
        legato: None,
        cut_group: None,
        cut_voices: None,
        cutoff: None,
    }
}

/// The quoted pattern of a lane.
#[verifier::opaque]
pub open spec fn lane_pattern(
    s: Seq<char>,
    i: int,
    name: Seq<char>,
    lets: Map<Seq<char>, Seq<char>>,
) -> Read<PatView> {
    let a = skip_ws(s, i);
    if a >= s.len() || s[a] != '"' {
        Err(name + " lane requires a quoted pattern (e.g. \"0.5\")"@)
    } else {
        match quoted(s, i, "pattern"@) {
            Err(e) => Err(e),
            Ok((raw, j)) => match pattern(expanded(raw, lets)) {
                Err(e) => Err(e),
                Ok(p) => Ok((p, j)),
            },
        }
    }
}

/// The lane named `w`, whose pattern is at `b`, added to the lanes `l`.
pub open spec fn lane_at(
    s: Seq<char>,
    b: int,
    w: Seq<char>,
    l: LanesView,
    lets: Map<Seq<char>, Seq<char>>,
) -> Read<LanesView> {
    if same_word(w, "gain"@) {
        match lane_pattern(s, b, "gain"@, lets) {
            Err(e) => Err(e),
            Ok((p, c)) => if l.gain is Some {
                Err("only one ` # gain \"…\"` lane per track for now"@)
            } else {
                Ok((LanesView { gain: Some(p), ..l }, c))
            },
        }
    } else if same_word(w, "pan"@) {
        match lane_pattern(s, b, "pan"@, lets) {
            Err(e) => Err(e),
            Ok((p, c)) => if l.pan is Some {
                Err("only one ` # pan \"…\"` lane per track for now"@)
            } else {
                Ok((LanesView { pan: Some(p), ..l }, c))
            },
        }
    } else if same_word(w, "prob"@) {
        match lane_pattern(s, b, "prob"@, lets) {
            Err(e) => Err(e),
            Ok((p, c)) => if l.prob is Some {
                Err("only one ` # prob ...` lane per track for now"@)
            } else {
                Ok((LanesView { prob: Some(p), ..l }, c))
            },
        }
    } else if same_word(w, "dur"@) || same_word(w, "duration"@) {
        match lane_pattern(s, b, "dur"@, lets) {
            Err(e) => Err(e),
            Ok((p, c)) => if l.dur is Some {
                Err("only one ` # dur ...` / ` # duration ...` lane per track for now"@)
            } else {
                Ok((LanesView { dur: Some(p), ..l }, c))
            },
        }
    } else if same_word(w, "legato"@) {
        match lane_pattern(s, b, "legato"@, lets) {
            Err(e) => Err(e),
            Ok((p, c)) => if l.legato is Some {
                Err("only one ` # legato ...` lane per track for now"@)
            } else {
                Ok((LanesView { legato: Some(p), ..l }, c))
            },
        }
    } else if same_word(w, "cut"@) {
        match lane_pattern(s, b, "cut"@, lets) {
            Err(e) => Err(e),
            Ok((p, c)) => if l.cut_group is Some {
                Err("only one ` # cut ...` lane per track for now"@)
            } else {
                let d = skip_ws(s, c);
                if d < s.len() && s[d] != '#' {
                    match lane_pattern(s, c, "cut voices"@, lets) {
                        Err(e) => Err(e),
                        Ok((q, e)) => Ok(
                            (LanesView { cut_group: Some(p), cut_voices: Some(q), ..l }, e),
                        ),
                    }
                } else {
                    Ok((LanesView { cut_group: Some(p), ..l }, c))
                }
            },
        }
    } else if same_word(w, "cutoff"@) {
        match lane_pattern(s, b, "cutoff"@, lets) {
            Err(e) => Err(e),
            Ok((p, c)) => if l.cutoff is Some {
                Err("only one ` # cutoff ...` lane per track for now"@)
            } else {
                Ok((LanesView { cutoff: Some(p), ..l }, c))
            },
        }
    } else {
        Err("unsupported lane after `#`: "@ + w)
    }
}

/// The lanes from `i` to the end, added to the lanes `l`.
pub open spec fn lanes_from(
    s: Seq<char>,
    i: int,
    l: LanesView,
    lets: Map<Seq<char>, Seq<char>>,
) -> Result<LanesView, Seq<char>>
    decreases s.len() - i,
{
    let a = skip_ws(s, i);
    if a >= s.len() {
        Ok(l)
    } else if s[a] != '#' {
        Err(
            "unexpected text after pattern (use ` # gain|pan|prob|dur|duration|legato|cut|cutoff ...` lanes)"@,
        )
    } else {
        match word_at(s, a + 1) {
            None => Err(
                "`#` must be followed by a supported lane (`gain`, `pan`, `prob`, `dur`, `duration`, `legato`, `cut`, `cutoff`)"@,
            ),
            Some((w, b)) => match lane_at(s, b, w, l, lets) {
                Err(e) => Err(e),
                Ok((m, c)) => if i < c <= s.len() {
                    lanes_from(s, c, m, lets)
                } else {
                    Err(seq![])
                },
            },
        }
    }
}

fn parse_lane_pattern(s: &[char], i: usize, name: &str, lets: &Table<String>) -> (r: Result<
    (Pat, usize),
    String,
>)
    requires
        i <= s@.len(),
    ensures
        match r {
            Ok((p, j)) => lane_pattern(s@, i as int, name@, lets@) == Ok::<
                (PatView, int),
                Seq<char>,
            >((p@, j as int)) && i < j <= s@.len(),
            Err(e) => lane_pattern(s@, i as int, name@, lets@) == Err::<
                (PatView, int),
                Seq<char>,
            >(e@),
        },
{
    proof {
        reveal(lane_pattern);
    }
    let a = after_ws(s, i);
    if a >= s.len() || s[a] != '"' {
        return Err(join2(name, " lane requires a quoted pattern (e.g. \"0.5\")"));
    }
    let (raw, j) = match parse_quoted_string(s, i, "pattern") {
        Ok(x) => x,
        Err(e) => {
            return Err(e);
        },
    };
    let inner = expand_lets_in_mini_pattern(raw.as_slice(), lets);
    match parse_pattern(inner.as_str()) {
        Ok(p) => Ok((p, j)),
        Err(e) => Err(e),
    }
}

/// Read the lane named `w` into `l`; the position behind it.
fn parse_lane(s: &[char], b: usize, w: &[char], l: &mut Lanes, lets: &Table<String>) -> (r: Result<
    usize,
    String,
>)
    requires
        b <= s@.len(),
    ensures
        match r {
            Ok(c) => lane_at(s@, b as int, w@, old(l)@, lets@) == Ok::<
                (LanesView, int),
                Seq<char>,
            >((final(l)@, c as int)) && b < c <= s@.len(),
            Err(e) => lane_at(s@, b as int, w@, old(l)@, lets@) == Err::<
                (LanesView, int),
                Seq<char>,
            >(e@),
        },
{
    if is_word(w, "gain") {
        let (p, c) = match parse_lane_pattern(s, b, "gain", lets) {
            Ok(x) => x,
            Err(e) => {
                return Err(e);
            },
        };
        if l.gain.is_some() {
            return Err(String::from_str("only one ` # gain \"…\"` lane per track for now"));
        }
        l.gain = Some(p);
        Ok(c)
    } else if is_word(w, "pan") {
        let (p, c) = match parse_lane_pattern(s, b, "pan", lets) {
            Ok(x) => x,
            Err(e) => {
                return Err(e);
            },
        };
        if l.pan.is_some() {
            return Err(String::from_str("only one ` # pan \"…\"` lane per track for now"));
        }
        l.pan = Some(p);
        Ok(c)
    } else if is_word(w, "prob") {
        let (p, c) = match parse_lane_pattern(s, b, "prob", lets) {
            Ok(x) => x,
            Err(e) => {
                return Err(e);
            },
        };
        if l.prob.is_some() {
            return Err(String::from_str("only one ` # prob ...` lane per track for now"));
        }
        l.prob = Some(p);
        Ok(c)
    } else if is_word(w, "dur") || is_word(w, "duration") {
        let (p, c) = match parse_lane_pattern(s, b, "dur", lets) {
            Ok(x) => x,
            Err(e) => {
                return Err(e);
            },
        };
        if l.dur.is_some() {
            return Err(
                String::from_str(
                    "only one ` # dur ...` / ` # duration ...` lane per track for now",
                ),
            );
        }
        l.dur = Some(p);
        Ok(c)
    } else if is_word(w, "legato") {
        let (p, c) = match parse_lane_pattern(s, b, "legato", lets) {
            Ok(x) => x,
            Err(e) => {
                return Err(e);
            },
        };
        if l.legato.is_some() {
            return Err(String::from_str("only one ` # legato ...` lane per track for now"));
        }
        l.legato = Some(p);
        Ok(c)
    } else if is_word(w, "cut") {
        let (p, c) = match parse_lane_pattern(s, b, "cut", lets) {
            Ok(x) => x,
            Err(e) => {
                return Err(e);
            },
        };
        if l.cut_group.is_some() {
            return Err(String::from_str("only one ` # cut ...` lane per track for now"));
        }
        let d = after_ws(s, c);
        if d < s.len() && s[d] != '#' {
            let (q, e) = match parse_lane_pattern(s, c, "cut voices", lets) {
                Ok(x) => x,
                Err(e) => {
                    return Err(e);
                },
            };
            l.cut_group = Some(p);
            l.cut_voices = Some(q);
            Ok(e)
        } else {
            l.cut_group = Some(p);
            Ok(c)
        }
    } else if is_word(w, "cutoff") {
        let (p, c) = match parse_lane_pattern(s, b, "cutoff", lets) {
            Ok(x) => x,
            Err(e) => {
                return Err(e);
            },
        };
        if l.cutoff.is_some() {
            return Err(String::from_str("only one ` # cutoff ...` lane per track for now"));
        }
        l.cutoff = Some(p);
        Ok(c)
    } else {
        Err(join2("unsupported lane after `#`: ", text_of(w).as_str()))
    }
}

fn parse_lanes(s: &[char], i: usize, lets: &Table<String>) -> (r: Result<Lanes, String>)
    requires
        i <= s@.len(),
    ensures
        match r {
            Ok(l) => lanes_from(s@, i as int, no_lanes(), lets@) == Ok::<LanesView, Seq<char>>(l@),
            Err(e) => lanes_from(s@, i as int, no_lanes(), lets@) == Err::<
                LanesView,
                Seq<char>,
            >(e@),
        },
{
    let n: usize = s.len();
    let mut l = Lanes {
        gain: None,
        pan: None,
        prob: None,
        dur: None,
        legato: None,
        cut_group: None,
        cut_voices: None,
        cutoff: None,
    };
    let mut at: usize = i;
    loop
        invariant
            n == s@.len(),
            i <= at <= n,
            lanes_from(s@, i as int, no_lanes(), lets@) == lanes_from(s@, at as int, l@, lets@),
        decreases n - at,
    {
        let a = after_ws(s, at);
        if a >= n {
            return Ok(l);
        }
        if s[a] != '#' {
            return Err(
                String::from_str(
                    "unexpected text after pattern (use ` # gain|pan|prob|dur|duration|legato|cut|cutoff ...` lanes)",
                ),
            );
        }
        let (w, b) = match parse_word(s, a + 1) {
            Some(x) => x,
            None => {
                return Err(
                    String::from_str(
                        "`#` must be followed by a supported lane (`gain`, `pan`, `prob`, `dur`, `duration`, `legato`, `cut`, `cutoff`)",
                    ),
                );
            },
        };
        match parse_lane(s, b, w.as_slice(), &mut l, lets) {
            Err(e) => {
                return Err(e);
            },
            Ok(c) => {
                at = c;
            },
        }
    }
}

// ---------------------------------------------------------------------------------------------
// Combinators
// ---------------------------------------------------------------------------------------------

/// A transform in front of a sound.
#[derive(Debug, Clone, Copy, PartialEq, Eq, Structural)]
pub enum PrefixTransform {
    Rev,
    Pal,
    Rot(i32),
    EveryRev(u32),
    EveryPal(u32),
    EveryRot(u32, i32),
}

/// What a link of the chain before a sound is.
#[derive(Debug, Clone, Copy, PartialEq, Eq, Structural)]
pub enum Link {
    /// `s`: the sound itself.
    Sound,
    Tempo(TempoWrap),
    Transform(PrefixTransform),
}

/// The factor of `slow` or `fast`, with the `$` behind it.
pub open spec fn tempo_factor(s: Seq<char>, i: int) -> Read<u32> {
    match word_at(s, i) {
        None => Err("slow/fast requires a positive integer"@),
        Some((w, c)) => match unsigned(w, u32::MAX as nat) {
            None => Err("invalid slow/fast factor: "@ + w),
            Some(n) => if n < 1 {
                Err("slow/fast factor must be >= 1"@)
            } else {
                let a = skip_ws(s, c);
                if a >= s.len() || s[a] != '$' {
                    Err("slow/fast N must be followed by `$`"@)
                } else {
                    Ok((n as u32, a + 1))
                }
            },
        },
    }
}

/// The transform with the `$` behind it.
pub open spec fn with_dollar(s: Seq<char>, i: int, after: Seq<char>, t: PrefixTransform) -> Read<
    Link,
> {
    match dollar(s, i, after) {
        Err(e) => Err(e),
        Ok(c) => Ok((Link::Transform(t), c)),
    }
}

/// The amount of `rot`.
pub open spec fn rot_amount(s: Seq<char>, i: int, missing: Seq<char>) -> Read<i32> {
    match word_at(s, i) {
        None => Err(missing),
        Some((w, c)) => match signed(w) {
            None => Err("invalid rot amount: "@ + w),
            Some(n) => Ok((n as i32, c)),
        },
    }
}

/// What follows `every`.
pub open spec fn every_link(s: Seq<char>, i: int) -> Read<Link> {
    match word_at(s, i) {
        None => Err("`every` requires an integer >= 1"@),
        Some((w, c)) => match unsigned(w, u32::MAX as nat) {
            None => Err("invalid every count: "@ + w),
            Some(n) => if n < 1 {
                Err("`every` count must be >= 1"@)
            } else {
                match word_at(s, c) {
                    None => Err("`every` requires a transform (`rev`, `pal`, `rot`)"@),
                    Some((t, d)) => if same_word(t, "rev"@) {
                        with_dollar(s, d, "every"@, PrefixTransform::EveryRev(n as u32))
                    } else if same_word(t, "pal"@) {
                        with_dollar(s, d, "every"@, PrefixTransform::EveryPal(n as u32))
                    } else if same_word(t, "rot"@) {
                        match rot_amount(s, d, "`every ... rot` requires an integer amount"@) {
                            Err(e) => Err(e),
                            Ok((r, e)) => with_dollar(
                                s,
                                e,
                                "every"@,
                                PrefixTransform::EveryRot(n as u32, r),
                            ),
                        }
                    } else {
                        Err("unsupported `every` transform: "@ + t + " (use rev|pal|rot)"@)
                    },
                }
            },
        },
    }
}

/// The link of the chain at `i`.
pub open spec fn link(s: Seq<char>, i: int) -> Read<Link> {
    match word_at(s, i) {
        None => Err(
            "expected `s \"…\"` or combinator (`slow`/`fast` N `$`, `rev` `$`, `pal` `$`, …)"@,
        ),
        Some((w, b)) => if same_word(w, "s"@) {
            Ok((Link::Sound, b))
        } else if same_word(w, "slow"@) {
            match tempo_factor(s, b) {
                Err(e) => Err(e),
                Ok((n, c)) => Ok((Link::Tempo(TempoWrap::Slow(n)), c)),
            }
        } else if same_word(w, "fast"@) {
            match tempo_factor(s, b) {
                Err(e) => Err(e),
                Ok((n, c)) => Ok((Link::Tempo(TempoWrap::Fast(n)), c)),
            }
        } else if same_word(w, "rev"@) {
            with_dollar(s, b, "rev"@, PrefixTransform::Rev)
        } else if same_word(w, "pal"@) {
            with_dollar(s, b, "pal"@, PrefixTransform::Pal)
        } else if same_word(w, "rot"@) {
            match rot_amount(s, b, "`rot` requires an integer amount"@) {
                Err(e) => Err(e),
                Ok((n, c)) => with_dollar(s, c, "rot"@, PrefixTransform::Rot(n)),
            }
        } else if same_word(w, "every"@) {
            every_link(s, b)
        } else {
            Err(
                "unknown combinator `"@ + w
                    + "` — expected `rev`, `pal`, `rot`, `every`, `slow`, `fast`, or `s`"@,
            )
        },
    }
}

/// A sound: its text, its lanes, and the chain before it. The transforms stand from the inside
/// out.
#[verifier::ext_equal]
pub struct SoundView {
    pub tempo: Option<TempoWrap>,
    pub transforms: Seq<PrefixTransform>,
    pub inner: Seq<char>,
    pub lanes: LanesView,
}

/// `s`, the quoted pattern and the lanes, up to the end.
pub open spec fn s_clause(s: Seq<char>, i: int, lets: Map<Seq<char>, Seq<char>>) -> Result<
    SoundView,
    Seq<char>,
> {
    match word_at(s, i) {
        None => Err("expected `s \"…\"`"@),
        Some((w, a)) => if !same_word(w, "s"@) {
            Err("expected `s`, got `"@ + w + "`"@)
        } else {
            match quoted(s, a, "pattern"@) {
                Err(e) => Err(e),
                Ok((raw, b)) => match lanes_from(s, b, no_lanes(), lets) {
                    Err(e) => Err(e),
                    Ok(lanes) => Ok(
                        SoundView {
                            tempo: None,
                            transforms: seq![],
                            inner: expanded(raw, lets),
                            lanes,
                        },
                    ),
                },
            }
        },
    }
}

/// The chain from `i` on: `$` associates to the right, so each link wraps what follows it.
pub open spec fn sound_clause(s: Seq<char>, i: int, lets: Map<Seq<char>, Seq<char>>) -> Result<
    SoundView,
    Seq<char>,
>
    decreases s.len() - i,
{
    match link(s, i) {
        Err(e) => Err(e),
        Ok((l, c)) => if !(i < c <= s.len()) {
            Err(seq![])
        } else {
            match l {
                Link::Sound => s_clause(s, i, lets),
                Link::Tempo(t) => match sound_clause(s, c, lets) {
                    Err(e) => Err(e),
                    Ok(v) => if v.tempo is Some {
                        Err("only one `slow`/`fast` per `$` chain"@)
                    } else {
                        Ok(SoundView { tempo: Some(t), ..v })
                    },
                },
                Link::Transform(t) => match sound_clause(s, c, lets) {
                    Err(e) => Err(e),
                    Ok(v) => Ok(SoundView { transforms: v.transforms.push(t), ..v }),
                },
            }
        },
    }
}

#[derive(Debug)]
pub struct ParsedSound {
    pub tempo: Option<TempoWrap>,
    pub transforms: Vec<PrefixTransform>,
    pub inner: String,
    pub lanes: Lanes,
}

impl View for ParsedSound {
    type V = SoundView;

    open spec fn view(&self) -> SoundView {
        SoundView {
            tempo: self.tempo,
            transforms: self.transforms@,
            inner: self.inner@,
            lanes: self.lanes@,
        }
    }
}

fn parse_tempo_factor(s: &[char], i: usize) -> (r: Result<(u32, usize), String>)
    requires
        i <= s@.len(),
    ensures
        match r {
            Ok((n, j)) => tempo_factor(s@, i as int) == Ok::<(u32, int), Seq<char>>((n, j as int))
                && i < j <= s@.len(),
            Err(e) => tempo_factor(s@, i as int) == Err::<(u32, int), Seq<char>>(e@),
        },
{
    let len: usize = s.len();
    let (w, c) = match parse_word(s, i) {
        Some(x) => x,
        None => {
            return Err(String::from_str("slow/fast requires a positive integer"));
        },
    };
    let n = match read_u32(w.as_slice()) {
        Some(n) => n,
        None => {
            return Err(join2("invalid slow/fast factor: ", text_of(w.as_slice()).as_str()));
        },
    };
    if n < 1 {
        return Err(String::from_str("slow/fast factor must be >= 1"));
    }
    let a = after_ws(s, c);
    if a >= len || s[a] != '$' {
        return Err(String::from_str("slow/fast N must be followed by `$`"));
    }
    Ok((n, a + 1))
}

fn parse_with_dollar(s: &[char], i: usize, after: &str, t: PrefixTransform) -> (r: Result<
    (Link, usize),
    String,
>)
    requires
        i <= s@.len(),
    ensures
        match r {
            Ok((l, j)) => with_dollar(s@, i as int, after@, t) == Ok::<(Link, int), Seq<char>>(
                (l, j as int),
            ) && i < j <= s@.len(),
            Err(e) => with_dollar(s@, i as int, after@, t) == Err::<(Link, int), Seq<char>>(e@),
        },
{
    match expect_dollar(s, i, after) {
        Ok(c) => Ok((Link::Transform(t), c)),
        Err(e) => Err(e),
    }
}

fn parse_rot_amount(s: &[char], i: usize, missing: &str) -> (r: Result<(i32, usize), String>)
    requires
        i <= s@.len(),
    ensures
        match r {
            Ok((n, j)) => rot_amount(s@, i as int, missing@) == Ok::<(i32, int), Seq<char>>(
                (n, j as int),
            ) && i < j <= s@.len(),
            Err(e) => rot_amount(s@, i as int, missing@) == Err::<(i32, int), Seq<char>>(e@),
        },
{
    let (w, c) = match parse_word(s, i) {
        Some(x) => x,
        None => {
            return Err(String::from_str(missing));
        },
    };
    match read_i32(w.as_slice()) {
        Some(n) => Ok((n, c)),
        None => Err(join2("invalid rot amount: ", text_of(w.as_slice()).as_str())),
    }
}

fn parse_every(s: &[char], i: usize) -> (r: Result<(Link, usize), String>)
    requires
        i <= s@.len(),
    ensures
        match r {
            Ok((l, j)) => every_link(s@, i as int) == Ok::<(Link, int), Seq<char>>((l, j as int))
                && i < j <= s@.len(),
            Err(e) => every_link(s@, i as int) == Err::<(Link, int), Seq<char>>(e@),
        },
{
    let (w, c) = match parse_word(s, i) {
        Some(x) => x,
        None => {
            return Err(String::from_str("`every` requires an integer >= 1"));
        },
    };
    let n = match read_u32(w.as_slice()) {
        Some(n) => n,
        None => {
            return Err(join2("invalid every count: ", text_of(w.as_slice()).as_str()));
        },
    };
    if n < 1 {
        return Err(String::from_str("`every` count must be >= 1"));
    }
    let (t, d) = match parse_word(s, c) {
        Some(x) => x,
        None => {
            return Err(
                String::from_str("`every` requires a transform (`rev`, `pal`, `rot`)"),
            );
        },
    };
    if is_word(t.as_slice(), "rev") {
        parse_with_dollar(s, d, "every", PrefixTransform::EveryRev(n))
    } else if is_word(t.as_slice(), "pal") {
        parse_with_dollar(s, d, "every", PrefixTransform::EveryPal(n))
    } else if is_word(t.as_slice(), "rot") {
        match parse_rot_amount(s, d, "`every ... rot` requires an integer amount") {
            Ok((r, e)) => parse_with_dollar(s, e, "every", PrefixTransform::EveryRot(n, r)),
            Err(e) => Err(e),
        }
    } else {
        Err(
            join3(
                "unsupported `every` transform: ",
                text_of(t.as_slice()).as_str(),
                " (use rev|pal|rot)",
            ),
        )
    }
}

fn parse_link(s: &[char], i: usize) -> (r: Result<(Link, usize), String>)
    requires
        i <= s@.len(),
    ensures
        match r {
            Ok((l, j)) => link(s@, i as int) == Ok::<(Link, int), Seq<char>>((l, j as int)) && i < j
                <= s@.len(),
            Err(e) => link(s@, i as int) == Err::<(Link, int), Seq<char>>(e@),
        },
{
    let (word, b) = match parse_word(s, i) {
        Some(x) => x,
        None => {
            return Err(
                String::from_str(
                    "expected `s \"…\"` or combinator (`slow`/`fast` N `$`, `rev` `$`, `pal` `$`, …)",
                ),
            );
        },
    };
    let w = word.as_slice();
    if is_word(w, "s") {
        Ok((Link::Sound, b))
    } else if is_word(w, "slow") {
        match parse_tempo_factor(s, b) {
            Ok((n, c)) => Ok((Link::Tempo(TempoWrap::Slow(n)), c)),
            Err(e) => Err(e),
        }
    } else if is_word(w, "fast") {
        match parse_tempo_factor(s, b) {
            Ok((n, c)) => Ok((Link::Tempo(TempoWrap::Fast(n)), c)),
            Err(e) => Err(e),
        }
    } else if is_word(w, "rev") {
        parse_with_dollar(s, b, "rev", PrefixTransform::Rev)
    } else if is_word(w, "pal") {
        parse_with_dollar(s, b, "pal", PrefixTransform::Pal)
    } else if is_word(w, "rot") {
        match parse_rot_amount(s, b, "`rot` requires an integer amount") {
            Ok((n, c)) => parse_with_dollar(s, c, "rot", PrefixTransform::Rot(n)),
            Err(e) => Err(e),
        }
    } else if is_word(w, "every") {
        parse_every(s, b)
    } else {
        Err(
            join3(
                "unknown combinator `",
                text_of(w).as_str(),
                "` — expected `rev`, `pal`, `rot`, `every`, `slow`, `fast`, or `s`",
            ),
        )
    }
}

/// Read `s`, its pattern and its lanes, from `i` to the end.
pub fn parse_s_clause(s: &[char], i: usize, lets: &Table<String>) -> (r: Result<
    ParsedSound,
    String,
>)
    requires
        i <= s@.len(),
    ensures
        match r {
            Ok(v) => s_clause(s@, i as int, lets@) == Ok::<SoundView, Seq<char>>(v@),
            Err(e) => s_clause(s@, i as int, lets@) == Err::<SoundView, Seq<char>>(e@),
        },
{
    let (word, a) = match parse_word(s, i) {
        Some(x) => x,
        None => {
            return Err(String::from_str("expected `s \"…\"`"));
        },
    };
    if !is_word(word.as_slice(), "s") {
        return Err(join3("expected `s`, got `", text_of(word.as_slice()).as_str(), "`"));
    }
    let (raw, b) = match parse_quoted_string(s, a, "pattern") {
        Ok(x) => x,
        Err(e) => {
            return Err(e);
        },
    };
    let inner = expand_lets_in_mini_pattern(raw.as_slice(), lets);
    let lanes = match parse_lanes(s, b, lets) {
        Ok(l) => l,
        Err(e) => {
            return Err(e);
        },
    };
    let transforms: Vec<PrefixTransform> = Vec::new();
    assert(transforms@ =~= seq![]);
    Ok(ParsedSound { tempo: None, transforms, inner, lanes })
}

/// Read combinators, the sound and its lanes from `i` on.
pub fn parse_sound_clause(s: &[char], i: usize, lets: &Table<String>) -> (r: Result<
    ParsedSound,
    String,
>)
    requires
        i <= s@.len(),
    ensures
        match r {
            Ok(v) => sound_clause(s@, i as int, lets@) == Ok::<SoundView, Seq<char>>(v@),
            Err(e) => sound_clause(s@, i as int, lets@) == Err::<SoundView, Seq<char>>(e@),
        },
    decreases s@.len() - i,
{
    let (l, c) = match parse_link(s, i) {
        Ok(x) => x,
        Err(e) => {
            return Err(e);
        },
    };
    match l {
        Link::Sound => parse_s_clause(s, i, lets),
        Link::Tempo(t) => match parse_sound_clause(s, c, lets) {
            Err(e) => Err(e),
            Ok(v) => {
                let mut v = v;
                if v.tempo.is_some() {
                    return Err(String::from_str("only one `slow`/`fast` per `$` chain"));
                }
                v.tempo = Some(t);
                Ok(v)
            },
        },
        Link::Transform(t) => match parse_sound_clause(s, c, lets) {
            Err(e) => Err(e),
            Ok(v) => {
                let mut v = v;
                v.transforms.push(t);
                Ok(v)
            },
        },
    }
}

} // verus!
