//! Sample tokens: paths, banks and aliases.

use vstd::prelude::*;
use vstd::string::StringExecFns;

use crate::banks::{
    bank_sample, joined, known_dir, resolve_bank_sample, resolve_sample_path, Catalog, CatalogView,
};
use crate::dsl::{ParseError, Program, ProgramView, SampleSpec, SpecView};
use crate::number::{digits_value, read_u32};
use crate::pat::parse::{find_last, last_of};
use crate::text::{all_digits, chars_between, chars_of, digits_between, is_digit, text_between};

verus! {

/// `bank:index`, the index counted from one.
pub open spec fn bank_ref(token: Seq<char>) -> Option<(Seq<char>, u32)> {
    let p = last_of(token, ':');
    let left = token.subrange(0, p);
    let right = token.subrange(p + 1, token.len() as int);
    if p > 0 && right.len() > 0 && all_digits(right) && 1 <= digits_value(right) <= u32::MAX {
        Some((left, digits_value(right) as u32))
    } else {
        None
    }
}

/// The character occurs in the text.
pub open spec fn occurs(s: Seq<char>, c: char) -> bool {
    exists|i: int| 0 <= i < s.len() && s[i] == c
}

/// What a token stands for that is no alias: a bank with an index, the first file of a folder, or
/// a path.
pub open spec fn raw_sample(token: Seq<char>, c: CatalogView) -> SpecView {
    match bank_ref(token) {
        Some((bank, index)) => SpecView::Bank { bank, index },
        None => if may_be_folder(token) && known_dir(c, token) {
            SpecView::Bank { bank: token, index: 1 }
        } else {
            SpecView::Path(token)
        },
    }
}

/// What a token stands for.
pub open spec fn sample_spec(
    token: Seq<char>,
    aliases: Map<Seq<char>, SpecView>,
    c: CatalogView,
) -> SpecView {
    if aliases.contains_key(token) {
        aliases[token]
    } else {
        raw_sample(token, c)
    }
}

/// The path of a sample.
pub open spec fn sample_path(spec: SpecView, c: CatalogView) -> Result<Seq<char>, Seq<char>> {
    match spec {
        SpecView::Path(p) => Ok(joined(c.root, p)),
        SpecView::Bank { bank, index } => bank_sample(c, bank, index),
    }
}

/// The path that a token stands for in a program.
pub open spec fn token_path(p: ProgramView, token: Seq<char>, c: CatalogView) -> Result<
    Seq<char>,
    Seq<char>,
> {
    sample_path(sample_spec(token, p.aliases, c), c)
}

/// Read `bank:index`, the index counted from one.
pub fn parse_bank_ref(token: &str) -> (r: Option<(String, u32)>)
    ensures
        match r {
            Some((bank, index)) => bank_ref(token@) == Some((bank@, index)),
            None => bank_ref(token@) is None,
        },
{
    let s = chars_of(token);
    let n: usize = s.len();
    let p = match find_last(s.as_slice(), ':') {
        Some(p) => p,
        None => {
            return None;
        },
    };
    if p == 0 || p + 1 >= n || !digits_between(s.as_slice(), p + 1, n) {
        return None;
    }
    let right = chars_between(s.as_slice(), p + 1, n);
    assert(is_digit(right@[0]));
    match read_u32(right.as_slice()) {
        Some(index) => if index == 0 {
            None
        } else {
            Some((text_between(s.as_slice(), 0, p), index))
        },
        None => None,
    }
}

fn holds(s: &[char], c: char) -> (r: bool)
    ensures
        r == occurs(s@, c),
{
    let mut i: usize = 0;
    while i < s.len()
        invariant
            i <= s@.len(),
            forall|k: int| 0 <= k < i ==> s@[k] != c,
        decreases s@.len() - i,
    {
        if s[i] == c {
            return true;
        }
        i += 1;
    }
    false
}

/// Whether the token may name a folder: it holds no colon and no slash.
pub open spec fn may_be_folder(token: Seq<char>) -> bool {
    token.len() > 0 && !occurs(token, ':') && !occurs(token, '/') && !occurs(token, '\\')
}

/// Whether the token may name a folder.
pub fn could_be_folder(token: &str) -> (r: bool)
    ensures
        r == may_be_folder(token@),
{
    let s = chars_of(token);
    s.len() > 0 && !holds(s.as_slice(), ':') && !holds(s.as_slice(), '/') && !holds(
        s.as_slice(),
        '\\',
    )
}

/// What a token stands for that is no alias.
pub fn parse_sample_token_raw(token: &str, samples: &Catalog) -> (r: SampleSpec)
    ensures
        r@ == raw_sample(token@, samples@),
{
    match parse_bank_ref(token) {
        Some((bank, index)) => SampleSpec::Bank { bank, index },
        None => if could_be_folder(token) && samples.is_dir(token) {
            SampleSpec::Bank { bank: String::from_str(token), index: 1 }
        } else {
            SampleSpec::Path(String::from_str(token))
        },
    }
}

fn materialize(spec: &SampleSpec, samples: &Catalog) -> (r: Result<String, String>)
    ensures
        match r {
            Ok(p) => sample_path(spec@, samples@) == Ok::<Seq<char>, Seq<char>>(p@),
            Err(e) => sample_path(spec@, samples@) == Err::<Seq<char>, Seq<char>>(e@),
        },
{
    match spec {
        SampleSpec::Path(p) => Ok(resolve_sample_path(samples.root.as_str(), p.as_str())),
        SampleSpec::Bank { bank, index } => resolve_bank_sample(samples, bank.as_str(), *index),
    }
}

impl Program {
    /// Resolve a token of a pattern to the path of a WAV file.
    pub fn resolve_token_path(&self, line: usize, token: &str, samples: &Catalog) -> (r: Result<
        String,
        ParseError,
    >)
        ensures
            match r {
                Ok(p) => token_path(self@, token@, samples@) == Ok::<Seq<char>, Seq<char>>(p@),
                Err(e) => e.line == line && token_path(self@, token@, samples@) == Err::<
                    Seq<char>,
                    Seq<char>,
                >(e.message@),
            },
    {
        let found = match self.aliases.get(token) {
            Some(spec) => materialize(spec, samples),
            None => {
                let spec = parse_sample_token_raw(token, samples);
                materialize(&spec, samples)
            },
        };
        match found {
            Ok(p) => Ok(p),
            Err(message) => Err(ParseError { line, message }),
        }
    }
}

} // verus!
