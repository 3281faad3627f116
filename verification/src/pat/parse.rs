//! Reading patterns from the mini-notation.

use vstd::prelude::*;
use vstd::string::StringExecFns;

use crate::number::{digits_value, read_i32, read_unsigned, signed};
use crate::pat::{lemma_list_views, Pat, PatView};
use crate::text::{
    after_digits, after_ws, all_digits, chars_between, chars_of, decimal, decimal_of,
    digits_between, digits_end, ident, is_ident, is_word, is_ws, join2, join5, lemma_back_space,
    lemma_skip_space, lemma_skip_ws, lemma_views_push, lower, lowercase, same_word, skip_ws,
    spells, text_between, to_lower, trim, trim_start, trimmed, views, ws,
};

verus! {

/// A result with what comes after it: a value and the position where reading goes on, or the
/// complaint.
pub type Read<T> = Result<(T, int), Seq<char>>;

/// What ends an atom: whitespace or a bracket.
pub open spec fn is_delimiter(c: char) -> bool {
    is_ws(c) || c == '[' || c == ']' || c == '<' || c == '>'
}

/// The first delimiter at or after `i`.
pub open spec fn atom_end(s: Seq<char>, i: int) -> int
    decreases s.len() - i,
{
    if 0 <= i < s.len() && !is_delimiter(s[i]) {
        atom_end(s, i + 1)
    } else {
        i
    }
}

/// The word `kw` stands at `i`, in any case, with no letter, digit or underscore behind it.
pub open spec fn keyword(s: Seq<char>, i: int, kw: Seq<char>) -> bool {
    let j = i + kw.len();
    &&& j <= s.len()
    &&& same_word(s.subrange(i, j), kw)
    &&& j < s.len() ==> !is_ident(s[j])
}

/// The position of the last `c`, or -1.
pub open spec fn last_of(s: Seq<char>, c: char) -> int
    decreases s.len(),
{
    if s.len() == 0 {
        -1
    } else if s.last() == c {
        s.len() - 1
    } else {
        last_of(s.drop_last(), c)
    }
}

/// `bd*3` is three steps of `bd`; any other token is an atom.
pub open spec fn starred(tok: Seq<char>) -> Result<PatView, Seq<char>> {
    let p = last_of(tok, '*');
    let head = tok.take(p);
    let tail = tok.skip(p + 1);
    if p > 0 && tail.len() > 0 && all_digits(tail) {
        let n = digits_value(tail);
        if n > u64::MAX {
            Err("bad * repeat count"@)
        } else if n < 1 || n > 256 {
            Err("repeat count must be 1–256, got "@ + decimal(n))
        } else {
            Ok(PatView::Sequence(Seq::new(n, |i: int| PatView::Atom(head))))
        }
    } else {
        Ok(PatView::Atom(tok))
    }
}

/// The transforms, which stand in front of the quotes.
pub open spec fn is_transform(tok: Seq<char>) -> bool {
    ||| same_word(tok, "rev"@)
    ||| same_word(tok, "pal"@)
    ||| same_word(tok, "rot"@)
    ||| same_word(tok, "every"@)
    ||| same_word(tok, "fast"@)
    ||| same_word(tok, "slow"@)
}

/// The atom at `i`.
pub open spec fn atom_item(s: Seq<char>, i: int) -> Read<PatView> {
    let j = atom_end(s, i);
    let tok = s.subrange(i, j);
    if j <= i {
        Err("expected atom"@)
    } else if is_transform(tok) {
        Err(
            "transform `"@ + tok + "` must be used outside quotes (e.g. `"@ + tok
                + " $ s \"...\"`)"@,
        )
    } else {
        match starred(tok) {
            Ok(p) => Ok((p, j)),
            Err(e) => Err(e),
        }
    }
}

/// A natural number for `euclid`, after whitespace.
pub open spec fn euclid_number(s: Seq<char>, i: int) -> Read<int> {
    let a = skip_ws(s, i);
    let b = if a < s.len() && (s[a] == '+' || s[a] == '-') {
        a + 1
    } else {
        a
    };
    let e = digits_end(s, b);
    if e <= b {
        Err("euclid: expected integer argument"@)
    } else {
        match signed(s.subrange(a, e)) {
            None => Err("euclid: invalid integer"@),
            Some(n) => if n < 0 {
                Err("euclid: expected non-negative integer"@)
            } else {
                Ok((n, e))
            },
        }
    }
}

/// What follows the numbers of `euclid`: the closing bracket at `e`, and the token.
pub open spec fn euclid_tail(s: Seq<char>, e: int, k: int, n: int, r: int) -> Read<PatView> {
    if e >= s.len() || s[e] != ')' {
        Err("euclid: expected `)`"@)
    } else if n < 1 {
        Err("euclid: steps must be >= 1"@)
    } else if k > n {
        Err("euclid: pulses must be <= steps"@)
    } else {
        let a = skip_ws(s, e + 1);
        let b = atom_end(s, a);
        if b <= a {
            Err("euclid: expected sample token"@)
        } else {
            Ok((PatView::Euclid(k as u32, n as u32, r as u32, lowercase(s.subrange(a, b))), b))
        }
    }
}

/// `euclid(k,n) token` or `euclid(k,n,r) token` at `i`.
pub open spec fn euclid_item(s: Seq<char>, i: int) -> Read<PatView> {
    let a = skip_ws(s, i + 6);
    if a >= s.len() || s[a] != '(' {
        Err("euclid: expected `(`"@)
    } else {
        match euclid_number(s, a + 1) {
            Err(e) => Err(e),
            Ok((k, b)) => {
                let b = skip_ws(s, b);
                if b >= s.len() || s[b] != ',' {
                    Err("euclid: expected comma after pulses"@)
                } else {
                    match euclid_number(s, b + 1) {
                        Err(e) => Err(e),
                        Ok((n, c)) => {
                            let c = skip_ws(s, c);
                            if c < s.len() && s[c] == ',' {
                                match euclid_number(s, c + 1) {
                                    Err(e) => Err(e),
                                    Ok((r, d)) => euclid_tail(s, skip_ws(s, d), k, n, r),
                                }
                            } else {
                                euclid_tail(s, c, k, n, 0)
                            }
                        },
                    }
                }
            },
        }
    }
}

/// The `]` that closes `depth` open brackets from `i` on, outside quotes.
pub open spec fn close_bracket(s: Seq<char>, i: int, depth: int, quoted: bool) -> Option<int>
    decreases s.len() - i,
{
    if i < 0 || i >= s.len() {
        None
    } else if s[i] == '"' {
        close_bracket(s, i + 1, depth, !quoted)
    } else if s[i] == '[' && !quoted {
        close_bracket(s, i + 1, depth + 1, quoted)
    } else if s[i] == ']' && !quoted {
        if depth == 1 {
            Some(i)
        } else {
            close_bracket(s, i + 1, depth - 1, quoted)
        }
    } else {
        close_bracket(s, i + 1, depth, quoted)
    }
}

/// A piece without the whitespace around it; nothing if nothing is left.
pub open spec fn piece(s: Seq<char>) -> Seq<Seq<char>> {
    if trim(s).len() == 0 {
        seq![]
    } else {
        seq![trim(s)]
    }
}

/// The pieces of `s` from `start` on, cut at the commas at or after `i` outside brackets and
/// quotes.
pub open spec fn pieces(s: Seq<char>, start: int, i: int, depth: int, quoted: bool) -> Seq<
    Seq<char>,
>
    decreases s.len() - i,
{
    if i < 0 || i >= s.len() {
        piece(s.subrange(start, s.len() as int))
    } else if s[i] == '"' {
        pieces(s, start, i + 1, depth, !quoted)
    } else if (s[i] == '[' || s[i] == '<') && !quoted {
        pieces(s, start, i + 1, depth + 1, quoted)
    } else if (s[i] == ']' || s[i] == '>') && !quoted {
        pieces(s, start, i + 1, depth - 1, quoted)
    } else if s[i] == ',' && !quoted && depth == 0 {
        piece(s.subrange(start, i)) + pieces(s, i + 1, i + 1, depth, quoted)
    } else {
        pieces(s, start, i + 1, depth, quoted)
    }
}

/// Each of the texts, none longer than `bound`, as a whole pattern.
pub open spec fn layers(parts: Seq<Seq<char>>, bound: nat) -> Result<Seq<PatView>, Seq<char>>
    decreases 2 * bound + 1, parts.len(), 0int,
{
    if parts.len() == 0 {
        Ok(seq![])
    } else if parts[0].len() > bound {
        Err(seq![])
    } else {
        match pattern(parts[0]) {
            Err(e) => Err(e),
            Ok(p) => match layers(parts.skip(1), bound) {
                Err(e) => Err(e),
                Ok(rest) => Ok(seq![p] + rest),
            },
        }
    }
}

/// `stack [p, q]` at `i`.
pub open spec fn stack_item(s: Seq<char>, i: int) -> Read<PatView>
    decreases 2 * s.len(), s.len() - i, 0int,
{
    let j = skip_ws(s, i + 5);
    if j >= s.len() || s[j] != '[' {
        Err("`stack` must be followed by `[`"@)
    } else {
        match close_bracket(s, j + 1, 1, false) {
            None => Err("unclosed `[`"@),
            Some(e) => {
                let parts = pieces(s.subrange(j + 1, e), 0, 0, 0, false);
                if parts.len() == 0 {
                    Err("nothing between commas in stack"@)
                } else if s.len() == 0 {
                    Err(seq![])
                } else {
                    match layers(parts, (s.len() - 1) as nat) {
                        Err(e) => Err(e),
                        Ok(ls) => Ok((PatView::Layer(ls), e + 1)),
                    }
                }
            },
        }
    }
}

/// The item at `i`, which holds no whitespace.
pub open spec fn item(s: Seq<char>, i: int) -> Read<PatView>
    decreases 2 * s.len(), s.len() - i, 1int,
{
    if i < 0 || i >= s.len() {
        Err("unexpected end of pattern"@)
    } else if keyword(s, i, "stack"@) {
        stack_item(s, i)
    } else if keyword(s, i, "euclid"@) {
        euclid_item(s, i)
    } else if s[i] == '[' {
        match items(s, i + 1, Some(']')) {
            Err(e) => Err(e),
            Ok((inner, j)) => if j >= s.len() {
                Err("unclosed '['"@)
            } else if inner.len() == 0 {
                Err("empty stack '[]'"@)
            } else {
                Ok((PatView::Stack(inner), j + 1))
            },
        }
    } else if s[i] == '<' {
        match items(s, i + 1, Some('>')) {
            Err(e) => Err(e),
            Ok((inner, j)) => if j >= s.len() {
                Err("unclosed '<'"@)
            } else if inner.len() == 0 {
                Err("empty alternate '<>'"@)
            } else {
                Ok((PatView::Alt(inner), j + 1))
            },
        }
    } else if s[i] == '~' {
        Ok((PatView::Rest, i + 1))
    } else {
        atom_item(s, i)
    }
}

/// The items from `i` on, up to the end of `s` or the closing character.
pub open spec fn items(s: Seq<char>, i: int, close: Option<char>) -> Read<Seq<PatView>>
    decreases 2 * s.len(), s.len() - i, 2int,
    when 0 <= i <= s.len()
{
    proof {
        lemma_skip_ws(s, i);
    }
    let j = skip_ws(s, i);
    if j >= s.len() || Some(s[j]) == close {
        Ok((seq![], j))
    } else {
        match item(s, j) {
            Err(e) => Err(e),
            Ok((p, k)) => if j < k <= s.len() {
                match items(s, k, close) {
                    Err(e) => Err(e),
                    Ok((rest, m)) => Ok((seq![p] + rest, m)),
                }
            } else {
                Err(seq![])
            },
        }
    }
}

/// A whole pattern: its only item, or the sequence of its items.
pub open spec fn pattern(s: Seq<char>) -> Result<PatView, Seq<char>>
    decreases 2 * s.len(), s.len() + 1, 0int,
{
    match items(s, 0, None) {
        Err(e) => Err(e),
        Ok((ps, j)) => Ok(
            if ps.len() == 1 {
                ps[0]
            } else {
                PatView::Sequence(ps)
            },
        ),
    }
}

// ---------------------------------------------------------------------------------------------
// Reading
// ---------------------------------------------------------------------------------------------

/// What a result of reading stands for.
pub open spec fn read_view<T: View>(r: Result<(T, usize), String>) -> Read<T::V> {
    match r {
        Ok((x, j)) => Ok((x@, j as int)),
        Err(e) => Err(e@),
    }
}

pub open spec fn list_view(r: Result<(Vec<Pat>, usize), String>) -> Read<Seq<PatView>> {
    match r {
        Ok((x, j)) => Ok((views(x@), j as int)),
        Err(e) => Err(e@),
    }
}

pub open spec fn pat_view(r: Result<Pat, String>) -> Result<PatView, Seq<char>> {
    match r {
        Ok(p) => Ok(p@),
        Err(e) => Err(e@),
    }
}

/// On success, reading has moved on from `i` and stays within `s`.
pub open spec fn progress<T>(r: Result<(T, usize), String>, i: int, len: nat) -> bool {
    r is Ok ==> i < r->Ok_0.1 <= len
}

fn say(s: &str) -> (r: String)
    ensures
        r@ == s@,
{
    String::from_str(s)
}

fn after_atom(s: &[char], i: usize) -> (r: usize)
    requires
        i <= s@.len(),
    ensures
        r == atom_end(s@, i as int),
        i <= r <= s@.len(),
{
    let mut j: usize = i;
    while j < s.len() && !(ws(s[j]) || s[j] == '[' || s[j] == ']' || s[j] == '<' || s[j] == '>')
        invariant
            i <= j <= s@.len(),
            atom_end(s@, i as int) == atom_end(s@, j as int),
        decreases s@.len() - j,
    {
        j += 1;
    }
    j
}

/// Whether the word `kw` stands at `i`.
pub fn starts_with_keyword(s: &[char], i: usize, kw: &str) -> (r: bool)
    requires
        i <= s@.len(),
    ensures
        r == keyword(s@, i as int, kw@),
{
    let k = chars_of(kw);
    if k.len() > s.len() - i {
        return false;
    }
    let j: usize = i + k.len();
    spells(s, i, j, kw) && (j >= s.len() || !ident(s[j]))
}

fn lowercase_between(s: &[char], a: usize, b: usize) -> (r: String)
    requires
        a <= b <= s@.len(),
    ensures
        r@ == lowercase(s@.subrange(a as int, b as int)),
{
    let ghost t = s@.subrange(a as int, b as int);
    let mut out = String::new();
    let mut i: usize = a;
    while i < b
        invariant
            a <= i <= b <= s@.len(),
            t == s@.subrange(a as int, b as int),
            out@ == lowercase(t).take(i - a),
        decreases b - i,
    {
        assert(lowercase(t).take(i + 1 - a) =~= lowercase(t).take(i - a).push(lower(s@[i as int])));
        out.push(to_lower(s[i]));
        i += 1;
    }
    assert(lowercase(t).take(b - a) =~= lowercase(t));
    out
}

/// The position of the last `c`.
pub fn find_last(s: &[char], c: char) -> (r: Option<usize>)
    ensures
        r is Some ==> r->0 == last_of(s@, c) && r->0 < s@.len(),
        r is None ==> last_of(s@, c) == -1,
{
    let mut j: usize = s.len();
    assert(s@.take(j as int) =~= s@);
    while j > 0
        invariant
            j <= s@.len(),
            last_of(s@, c) == last_of(s@.take(j as int), c),
        decreases j,
    {
        assert(s@.take(j as int).drop_last() =~= s@.take(j - 1));
        if s[j - 1] == c {
            return Some(j - 1);
        }
        j -= 1;
    }
    None
}

fn expand_star_atom(tok: &[char]) -> (r: Result<Pat, String>)
    ensures
        pat_view(r) == starred(tok@),
{
    let len: usize = tok.len();
    if let Some(p) = find_last(tok, '*') {
        if p > 0 && p + 1 < len && digits_between(tok, p + 1, len) {
            let tail = chars_between(tok, p + 1, len);
            let ghost head = tok@.take(p as int);
            proof {
                assert(tail@ =~= tok@.skip(p + 1));
                assert(tail@[0] == tok@[p + 1]);
            }
            let n = match read_unsigned(tail.as_slice(), u64::MAX) {
                Some(n) => n,
                None => {
                    return Err(say("bad * repeat count"));
                },
            };
            if n < 1 || n > 256 {
                return Err(
                    join2("repeat count must be 1–256, got ", decimal_of(n).as_str()),
                );
            }
            let mut out: Vec<Pat> = Vec::new();
            let mut i: u64 = 0;
            while i < n
                invariant
                    i <= n,
                    p < tok@.len(),
                    head == tok@.take(p as int),
                    views(out@) == Seq::new(i as nat, |k: int| PatView::Atom(head)),
                decreases n - i,
            {
                let atom = Pat::Atom(text_between(tok, 0, p));
                proof {
                    lemma_views_push(out@, atom);
                    assert(tok@.subrange(0, p as int) =~= head);
                    assert(views(out@).push(atom@) =~= Seq::new(
                        (i + 1) as nat,
                        |k: int| PatView::Atom(head),
                    ));
                }
                out.push(atom);
                i += 1;
            }
            proof {
                lemma_list_views(out);
            }
            return Ok(Pat::Sequence(out));
        }
        assert(p > 0 && p + 1 < tok@.len() ==> tok@.skip(p + 1) =~= tok@.subrange(
            p + 1,
            tok@.len() as int,
        ));
    }
    let atom = Pat::Atom(text_between(tok, 0, tok.len()));
    assert(tok@.subrange(0, tok@.len() as int) =~= tok@);
    Ok(atom)
}

fn parse_atom(s: &[char], i: usize) -> (r: Result<(Pat, usize), String>)
    requires
        i < s@.len(),
    ensures
        read_view(r) == atom_item(s@, i as int),
        progress(r, i as int, s@.len()),
{
    let j = after_atom(s, i);
    if j <= i {
        return Err(say("expected atom"));
    }
    let tok = chars_between(s, i, j);
    let t = tok.as_slice();
    if is_word(t, "rev") || is_word(t, "pal") || is_word(t, "rot") || is_word(t, "every")
        || is_word(t, "fast") || is_word(t, "slow") {
        let word = text_between(s, i, j);
        return Err(
            join5(
                "transform `",
                word.as_str(),
                "` must be used outside quotes (e.g. `",
                word.as_str(),
                " $ s \"...\"`)",
            ),
        );
    }
    match expand_star_atom(t) {
        Ok(p) => Ok((p, j)),
        Err(e) => Err(e),
    }
}

fn parse_euclid_number(s: &[char], i: usize) -> (r: Result<(u32, usize), String>)
    requires
        i <= s@.len(),
    ensures
        match r {
            Ok((n, j)) => euclid_number(s@, i as int) == Ok::<(int, int), Seq<char>>(
                (n as int, j as int),
            ) && i < j <= s@.len(),
            Err(e) => euclid_number(s@, i as int) == Err::<(int, int), Seq<char>>(e@),
        },
{
    let a = after_ws(s, i);
    let b: usize = if a < s.len() && (s[a] == '+' || s[a] == '-') {
        a + 1
    } else {
        a
    };
    let e = after_digits(s, b);
    if e <= b {
        return Err(say("euclid: expected integer argument"));
    }
    let digits = chars_between(s, a, e);
    match read_i32(digits.as_slice()) {
        None => Err(say("euclid: invalid integer")),
        Some(n) => if n < 0 {
            Err(say("euclid: expected non-negative integer"))
        } else {
            Ok((n as u32, e))
        },
    }
}

fn parse_euclid_tail(s: &[char], e: usize, k: u32, n: u32, r: u32) -> (res: Result<
    (Pat, usize),
    String,
>)
    requires
        e <= s@.len(),
    ensures
        read_view(res) == euclid_tail(s@, e as int, k as int, n as int, r as int),
        progress(res, e as int, s@.len()),
{
    if e >= s.len() || s[e] != ')' {
        return Err(say("euclid: expected `)`"));
    }
    if n < 1 {
        return Err(say("euclid: steps must be >= 1"));
    }
    if k > n {
        return Err(say("euclid: pulses must be <= steps"));
    }
    let a = after_ws(s, e + 1);
    let b = after_atom(s, a);
    if b <= a {
        return Err(say("euclid: expected sample token"));
    }
    Ok((Pat::Euclid(k, n, r, lowercase_between(s, a, b)), b))
}

fn parse_euclid(s: &[char], i: usize) -> (r: Result<(Pat, usize), String>)
    requires
        i + 6 <= s@.len(),
    ensures
        read_view(r) == euclid_item(s@, i as int),
        progress(r, i as int, s@.len()),
{
    let len: usize = s.len();
    let a = after_ws(s, i + 6);
    if a >= len || s[a] != '(' {
        return Err(say("euclid: expected `(`"));
    }
    let (k, b) = match parse_euclid_number(s, a + 1) {
        Ok(x) => x,
        Err(e) => {
            return Err(e);
        },
    };
    let b = after_ws(s, b);
    if b >= s.len() || s[b] != ',' {
        return Err(say("euclid: expected comma after pulses"));
    }
    let (n, c) = match parse_euclid_number(s, b + 1) {
        Ok(x) => x,
        Err(e) => {
            return Err(e);
        },
    };
    let c = after_ws(s, c);
    if c < s.len() && s[c] == ',' {
        let (r, d) = match parse_euclid_number(s, c + 1) {
            Ok(x) => x,
            Err(e) => {
                return Err(e);
            },
        };
        let d = after_ws(s, d);
        parse_euclid_tail(s, d, k, n, r)
    } else {
        parse_euclid_tail(s, c, k, n, 0)
    }
}

/// The `]` that closes the bracket opened before `start`.
fn find_close_bracket(s: &[char], start: usize) -> (r: Option<usize>)
    requires
        1 <= start <= s@.len(),
    ensures
        match r {
            Some(e) => close_bracket(s@, start as int, 1, false) == Some(e as int) && start <= e
                < s@.len(),
            None => close_bracket(s@, start as int, 1, false) is None,
        },
{
    let mut i: usize = start;
    let mut depth: usize = 1;
    let mut quoted: bool = false;
    while i < s.len()
        invariant
            1 <= start <= i <= s@.len(),
            1 <= depth <= i - start + 1,
            close_bracket(s@, start as int, 1, false) == close_bracket(
                s@,
                i as int,
                depth as int,
                quoted,
            ),
        decreases s@.len() - i,
    {
        let c = s[i];
        if c == '"' {
            quoted = !quoted;
        } else if c == '[' && !quoted {
            depth += 1;
        } else if c == ']' && !quoted {
            if depth == 1 {
                return Some(i);
            }
            depth -= 1;
        }
        i += 1;
    }
    None
}

fn push_piece(out: &mut Vec<Vec<char>>, s: &[char], a: usize, b: usize)
    requires
        a <= b <= s@.len(),
    ensures
        views(final(out)@) == views(old(out)@) + piece(s@.subrange(a as int, b as int)),
{
    let part = chars_between(s, a, b);
    let t = trimmed(part.as_slice());
    if t.len() > 0 {
        proof {
            lemma_views_push(out@, t);
        }
        out.push(t);
    } else {
        assert(views(out@) + piece(s@.subrange(a as int, b as int)) =~= views(out@));
    }
}

/// The pieces of `s` between the commas outside brackets and quotes.
fn split_comma_top_level(s: &[char]) -> (r: Vec<Vec<char>>)
    ensures
        views(r@) == pieces(s@, 0, 0, 0, false),
{
    let ghost all = pieces(s@, 0, 0, 0, false);
    let mut out: Vec<Vec<char>> = Vec::new();
    let mut start: usize = 0;
    let mut i: usize = 0;
    let mut depth: i128 = 0;
    let mut quoted: bool = false;
    assert(views(out@) + all =~= all);
    while i < s.len()
        invariant
            start <= i <= s@.len(),
            -(i as int) <= depth <= i,
            all == views(out@) + pieces(s@, start as int, i as int, depth as int, quoted),
        decreases s@.len() - i,
    {
        let c = s[i];
        if c == '"' {
            quoted = !quoted;
        } else if (c == '[' || c == '<') && !quoted {
            depth += 1;
        } else if (c == ']' || c == '>') && !quoted {
            depth -= 1;
        } else if c == ',' && !quoted && depth == 0 {
            let ghost before = views(out@);
            push_piece(&mut out, s, start, i);
            proof {
                let p = piece(s@.subrange(start as int, i as int));
                let rest = pieces(s@, i + 1, i + 1, depth as int, quoted);
                assert(before + (p + rest) =~= (before + p) + rest);
            }
            start = i + 1;
        }
        i += 1;
    }
    push_piece(&mut out, s, start, s.len());
    out
}

proof fn lemma_trim_len(s: Seq<char>)
    ensures
        trim(s).len() <= s.len(),
{
    lemma_skip_space(s, 0);
    let t = trim_start(s);
    lemma_back_space(t, t.len() as int);
}

/// None of the texts is longer than `n`.
spec fn none_longer(parts: Seq<Seq<char>>, n: nat) -> bool {
    forall|k: int| 0 <= k < parts.len() ==> (#[trigger] parts[k]).len() <= n
}

/// No piece is longer than the text.
proof fn lemma_pieces_len(s: Seq<char>, start: int, i: int, depth: int, quoted: bool)
    requires
        0 <= start <= i <= s.len(),
    ensures
        none_longer(pieces(s, start, i, depth, quoted), s.len()),
    decreases s.len() - i,
{
    if i >= s.len() {
        lemma_trim_len(s.subrange(start, s.len() as int));
    } else if s[i] == '"' {
        lemma_pieces_len(s, start, i + 1, depth, !quoted);
    } else if (s[i] == '[' || s[i] == '<') && !quoted {
        lemma_pieces_len(s, start, i + 1, depth + 1, quoted);
    } else if (s[i] == ']' || s[i] == '>') && !quoted {
        lemma_pieces_len(s, start, i + 1, depth - 1, quoted);
    } else if s[i] == ',' && !quoted && depth == 0 {
        lemma_trim_len(s.subrange(start, i));
        lemma_pieces_len(s, i + 1, i + 1, depth, quoted);
        let p = piece(s.subrange(start, i));
        let rest = pieces(s, i + 1, i + 1, depth, quoted);
        assert forall|k: int| 0 <= k < (p + rest).len() implies (#[trigger] (p + rest)[k]).len()
            <= s.len() by {
            if k >= p.len() {
                assert((p + rest)[k] == rest[k - p.len()]);
            }
        }
    } else {
        lemma_pieces_len(s, start, i + 1, depth, quoted);
    }
}

fn parse_tidal_stack(s: &[char], i: usize) -> (r: Result<(Pat, usize), String>)
    requires
        i + 5 <= s@.len(),
    ensures
        read_view(r) == stack_item(s@, i as int),
        progress(r, i as int, s@.len()),
    decreases 2 * s@.len(), s@.len() - i, 0int,
{
    let len: usize = s.len();
    let j = after_ws(s, i + 5);
    if j >= len || s[j] != '[' {
        return Err(say("`stack` must be followed by `[`"));
    }
    let e = match find_close_bracket(s, j + 1) {
        Some(e) => e,
        None => {
            return Err(say("unclosed `[`"));
        },
    };
    let body = chars_between(s, j + 1, e);
    let parts = split_comma_top_level(body.as_slice());
    if parts.len() == 0 {
        return Err(say("nothing between commas in stack"));
    }
    let ghost texts = views(parts@);
    let ghost bound = (s@.len() - 1) as nat;
    proof {
        lemma_pieces_len(body@, 0, 0, 0, false);
        assert(none_longer(texts, bound));
    }
    let mut out: Vec<Pat> = Vec::new();
    let mut k: usize = 0;
    proof {
        assert(texts.skip(0) =~= texts);
        if let Ok(rest) = layers(texts, bound) {
            assert(views(out@) + rest =~= rest);
        }
    }
    while k < parts.len()
        invariant
            k <= parts@.len(),
            s@.len() > 0,
            texts == views(parts@),
            bound == s@.len() - 1,
            stack_item(s@, i as int) == (match layers(texts, bound) {
                Err(e) => Err(e),
                Ok(ls) => Ok((PatView::Layer(ls), e + 1)),
            }),
            none_longer(texts, bound),
            layers(texts, bound) == (match layers(texts.skip(k as int), bound) {
                Err(e) => Err(e),
                Ok(rest) => Ok(views(out@) + rest),
            }),
        decreases parts@.len() - k,
    {
        proof {
            assert(texts.skip(k as int)[0] == texts[k as int]);
            assert(texts.skip(k as int).skip(1) =~= texts.skip(k + 1));
        }
        match parse_chars(parts[k].as_slice()) {
            Err(e) => {
                return Err(e);
            },
            Ok(p) => {
                proof {
                    lemma_views_push(out@, p);
                    if let Ok(rest) = layers(texts.skip(k + 1), bound) {
                        assert(views(out@) + (seq![p@] + rest) =~= views(out@).push(p@) + rest);
                    }
                }
                out.push(p);
            },
        }
        k += 1;
    }
    proof {
        assert(texts.skip(k as int) =~= seq![]);
        assert(views(out@) + seq![] =~= views(out@));
        lemma_list_views(out);
    }
    Ok((Pat::Layer(out), e + 1))
}

fn parse_item(s: &[char], i: usize) -> (r: Result<(Pat, usize), String>)
    requires
        i <= s@.len(),
    ensures
        read_view(r) == item(s@, i as int),
        progress(r, i as int, s@.len()),
    decreases 2 * s@.len(), s@.len() - i, 1int,
{
    let len: usize = s.len();
    if i >= len {
        return Err(say("unexpected end of pattern"));
    }
    proof {
        reveal_strlit("stack");
        reveal_strlit("euclid");
    }
    if starts_with_keyword(s, i, "stack") {
        return parse_tidal_stack(s, i);
    }
    if starts_with_keyword(s, i, "euclid") {
        return parse_euclid(s, i);
    }
    if s[i] == '[' {
        let (inner, j) = match parse_seq(s, i + 1, Some(']')) {
            Ok(x) => x,
            Err(e) => {
                return Err(e);
            },
        };
        if j >= len {
            return Err(say("unclosed '['"));
        }
        if inner.len() == 0 {
            return Err(say("empty stack '[]'"));
        }
        proof {
            lemma_list_views(inner);
        }
        return Ok((Pat::Stack(inner), j + 1));
    }
    if s[i] == '<' {
        let (inner, j) = match parse_seq(s, i + 1, Some('>')) {
            Ok(x) => x,
            Err(e) => {
                return Err(e);
            },
        };
        if j >= len {
            return Err(say("unclosed '<'"));
        }
        if inner.len() == 0 {
            return Err(say("empty alternate '<>'"));
        }
        proof {
            lemma_list_views(inner);
        }
        return Ok((Pat::Alt(inner), j + 1));
    }
    if s[i] == '~' {
        return Ok((Pat::Rest, i + 1));
    }
    parse_atom(s, i)
}

fn parse_seq(s: &[char], i: usize, close: Option<char>) -> (r: Result<(Vec<Pat>, usize), String>)
    requires
        i <= s@.len(),
    ensures
        list_view(r) == items(s@, i as int, close),
        r is Ok ==> i <= r->Ok_0.1 <= s@.len(),
    decreases 2 * s@.len(), s@.len() - i, 2int,
{
    let mut out: Vec<Pat> = Vec::new();
    let mut at: usize = i;
    proof {
        if let Ok((rest, m)) = items(s@, i as int, close) {
            assert(views(out@) + rest =~= rest);
        }
    }
    loop
        invariant
            i <= at <= s@.len(),
            items(s@, i as int, close) == (match items(s@, at as int, close) {
                Err(e) => Err(e),
                Ok((rest, m)) => Ok((views(out@) + rest, m)),
            }),
        decreases s@.len() - at,
    {
        let j = after_ws(s, at);
        if j >= s.len() {
            assert(views(out@) + seq![] =~= views(out@));
            return Ok((out, j));
        }
        if let Some(c) = close {
            if s[j] == c {
                assert(views(out@) + seq![] =~= views(out@));
                return Ok((out, j));
            }
        }
        match parse_item(s, j) {
            Err(e) => {
                return Err(e);
            },
            Ok((p, k)) => {
                proof {
                    lemma_views_push(out@, p);
                    if let Ok((rest, m)) = items(s@, k as int, close) {
                        assert(views(out@) + (seq![p@] + rest) =~= views(out@).push(p@) + rest);
                    }
                }
                out.push(p);
                at = k;
            },
        }
    }
}

fn parse_chars(s: &[char]) -> (r: Result<Pat, String>)
    ensures
        pat_view(r) == pattern(s@),
    decreases 2 * s@.len(), s@.len() + 1, 0int,
{
    let (mut items, j) = match parse_seq(s, 0, None) {
        Ok(x) => x,
        Err(e) => {
            return Err(e);
        },
    };
    if items.len() == 1 {
        match items.pop() {
            Some(p) => {
                return Ok(p);
            },
            None => {},
        }
    }
    proof {
        lemma_list_views(items);
    }
    Ok(Pat::Sequence(items))
}

/// Read a whole pattern: the text between the quotes.
pub fn parse_pattern(source: &str) -> (r: Result<Pat, String>)
    ensures
        pat_view(r) == pattern(source@),
{
    let s = chars_of(source);
    parse_chars(s.as_slice())
}

} // verus!
