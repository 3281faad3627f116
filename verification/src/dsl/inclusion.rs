//! Files that take in other files.
//!
//! A line `include "path"` stands for the text of the file at that path, which is found next to
//! the file that the line is in. The library reads no files: it is told what reading them gave,
//! and says which one it wants to know of next.

use vstd::prelude::*;
use vstd::string::StringExecFns;

use crate::banks::{joined, resolve_sample_path};
use crate::dsl::lines::{bare_line, open_quotes, quotes_after, without_comment};
use crate::dsl::{ErrorView, ParseError};
use crate::pat::parse::{find_last, last_of};
use crate::table::Table;
use crate::text::{
    chars_between, chars_of, is_word, join2, join3, lemma_views_push, lines, lines_of, same_text,
    same_word, text_between, text_of, trim, views, words, words_of,
};

verus! {

/// How many files may be under way at once.
pub const MAX_INCLUDE_DEPTH: usize = 32;

/// What reading a file gave.
#[derive(Debug)]
pub struct FileFacts {
    /// The one name that the file has in the end, or why it cannot be found.
    pub canonical: Result<String, String>,
    /// Its text, or why it cannot be read.
    pub content: Result<String, String>,
}

pub open spec fn text_view(r: Result<String, String>) -> Result<Seq<char>, Seq<char>> {
    match r {
        Ok(s) => Ok(s@),
        Err(e) => Err(e@),
    }
}

#[verifier::ext_equal]
pub struct FactsView {
    pub canonical: Result<Seq<char>, Seq<char>>,
    pub content: Result<Seq<char>, Seq<char>>,
}

impl View for FileFacts {
    type V = FactsView;

    open spec fn view(&self) -> FactsView {
        FactsView { canonical: text_view(self.canonical), content: text_view(self.content) }
    }
}

/// The folder of the file that is read, and the files that are known.
#[derive(Debug)]
pub struct Files {
    pub base: String,
    pub known: Table<FileFacts>,
}

pub struct FilesView {
    pub base: Seq<char>,
    pub known: Map<Seq<char>, FactsView>,
}

impl View for Files {
    type V = FilesView;

    open spec fn view(&self) -> FilesView {
        FilesView { base: self.base@, known: self.known@ }
    }
}

pub open spec fn files_view(f: Option<&Files>) -> Option<FilesView> {
    match f {
        Some(f) => Some(f@),
        None => None,
    }
}

impl Files {
    /// A folder with no file known.
    pub fn new(base: String) -> (r: Files)
        ensures
            r@ == (FilesView { base: base@, known: Map::empty() }),
    {
        Files { base, known: Table::new() }
    }

    /// Take down what reading a file gave.
    pub fn learn(&mut self, path: String, facts: FileFacts)
        ensures
            final(self)@ == (FilesView {
                base: old(self)@.base,
                known: old(self)@.known.insert(path@, facts@),
            }),
    {
        self.known.insert(path, facts);
    }
}

/// What became of a text.
#[derive(Debug)]
pub enum Expanded {
    /// The text with all files taken in.
    Done(String),
    /// The file at `path` is not known yet.
    Wanted { line: usize, path: String },
    Failed(ParseError),
}

#[verifier::ext_equal]
pub enum ExpandedView {
    Done(Seq<char>),
    Wanted { line: int, path: Seq<char> },
    Failed(ErrorView),
}

impl View for Expanded {
    type V = ExpandedView;

    open spec fn view(&self) -> ExpandedView {
        match self {
            Expanded::Done(s) => ExpandedView::Done(s@),
            Expanded::Wanted { line, path } => ExpandedView::Wanted {
                line: *line as int,
                path: path@,
            },
            Expanded::Failed(e) => ExpandedView::Failed(e@),
        }
    }
}

/// What a line does.
#[verifier::ext_equal]
pub enum LineView {
    /// It says nothing.
    Blank,
    /// It stands for itself.
    Plain,
    /// It takes in the file at the path.
    Take(Seq<char>),
    Bad(Seq<char>),
}

/// The text between a double quote at the start and one at the end.
pub open spec fn in_quotes(tok: Seq<char>) -> bool {
    tok.len() >= 2 && tok[0] == '"' && tok.last() == '"'
}

/// What a line does, next to the files in `base`. A line that begins inside quotes is not blank
/// where it would be a comment outside of them.
pub open spec fn line_view(raw: Seq<char>, base: Seq<char>, quoted: bool) -> LineView {
    let ws = words(trim(without_comment(raw, false)));
    if ws.len() == 0 {
        if quoted && words(raw).len() > 0 {
            LineView::Plain
        } else {
            LineView::Blank
        }
    } else if !same_word(ws[0], "include"@) {
        LineView::Plain
    } else if ws.len() < 2 {
        LineView::Bad("include requires a path, e.g. include \"kit.seq\" or include kit.seq"@)
    } else {
        let tok = ws[1];
        let inner = tok.subrange(1, tok.len() - 1);
        if in_quotes(tok) && last_of(inner, '"') >= 0 {
            LineView::Bad("include path: use a single quoted token without embedded quotes"@)
        } else if ws.len() > 2 {
            LineView::Bad("extra tokens after include path"@)
        } else {
            LineView::Take(
                joined(
                    base,
                    if in_quotes(tok) {
                        inner
                    } else {
                        tok
                    },
                ),
            )
        }
    }
}

/// The folder that a file is in; `base` if its name tells none.
pub open spec fn parent(path: Seq<char>, base: Seq<char>) -> Seq<char> {
    let k = last_of(path, '/');
    if k > 0 {
        path.subrange(0, k)
    } else if k < 0 {
        seq![]
    } else if path.len() > 1 {
        "/"@
    } else {
        base
    }
}

/// The text with a line feed at its end.
pub open spec fn ended(s: Seq<char>) -> Seq<char> {
    if s.len() > 0 && s.last() == '\n' {
        s
    } else {
        s.push('\n')
    }
}

/// The first `k` lines with their files taken in. `stack` holds the files under way.
pub open spec fn expand_lines(
    ls: Seq<Seq<char>>,
    k: nat,
    base: Seq<char>,
    stack: Seq<Seq<char>>,
    known: Map<Seq<char>, FactsView>,
) -> ExpandedView
    decreases MAX_INCLUDE_DEPTH + 2 - stack.len(), k,
{
    if k == 0 || k > ls.len() {
        ExpandedView::Done(seq![])
    } else {
        match expand_lines(ls, (k - 1) as nat, base, stack, known) {
            ExpandedView::Done(out) => match line_view(
                ls[k - 1],
                base,
                open_quotes(ls, (k - 1) as nat),
            ) {
                LineView::Blank => ExpandedView::Done(out.push('\n')),
                LineView::Plain => ExpandedView::Done((out + ls[k - 1]).push('\n')),
                LineView::Bad(message) => ExpandedView::Failed(
                    ErrorView { line: k as int, message },
                ),
                LineView::Take(path) => if !known.contains_key(path) {
                    ExpandedView::Wanted { line: k as int, path }
                } else {
                    match known[path].canonical {
                        Err(e) => ExpandedView::Failed(
                            ErrorView {
                                line: k as int,
                                message: "include "@ + path + ": "@ + e,
                            },
                        ),
                        Ok(file) => if stack.contains(file) {
                            ExpandedView::Failed(
                                ErrorView { line: k as int, message: "include cycle: "@ + file },
                            )
                        } else {
                            match known[path].content {
                                Err(e) => ExpandedView::Failed(
                                    ErrorView {
                                        line: k as int,
                                        message: "include "@ + file + ": "@ + e,
                                    },
                                ),
                                Ok(text) => if stack.len() > MAX_INCLUDE_DEPTH {
                                    ExpandedView::Failed(
                                        ErrorView { line: 1, message: too_deep() },
                                    )
                                } else {
                                    match expand_text(
                                        text,
                                        parent(file, base),
                                        stack.push(file),
                                        known,
                                    ) {
                                        ExpandedView::Done(inner) => ExpandedView::Done(
                                            ended(out + inner),
                                        ),
                                        other => other,
                                    }
                                },
                            }
                        },
                    }
                },
            },
            other => other,
        }
    }
}

pub open spec fn too_deep() -> Seq<char> {
    "include nesting exceeded 32 levels"@
}

/// A text with its files taken in.
pub open spec fn expand_text(
    source: Seq<char>,
    base: Seq<char>,
    stack: Seq<Seq<char>>,
    known: Map<Seq<char>, FactsView>,
) -> ExpandedView
    decreases MAX_INCLUDE_DEPTH + 2 - stack.len(), lines(source).len() + 1,
{
    if stack.len() > MAX_INCLUDE_DEPTH {
        ExpandedView::Failed(ErrorView { line: 1, message: too_deep() })
    } else {
        expand_lines(lines(source), lines(source).len(), base, stack, known)
    }
}

/// The line wants to take in a file.
pub open spec fn wants_file(raw: Seq<char>) -> bool {
    let ws = words(trim(without_comment(raw, false)));
    ws.len() > 0 && same_word(ws[0], "include"@)
}

/// The first line at or after `i` that wants to take in a file; their number if there is none.
pub open spec fn first_wanting(ls: Seq<Seq<char>>, i: int) -> int
    decreases ls.len() - i,
{
    if i < 0 || i >= ls.len() {
        ls.len() as int
    } else if wants_file(ls[i]) {
        i
    } else {
        first_wanting(ls, i + 1)
    }
}

/// A text with its files taken in; without a folder there are none to take in.
pub open spec fn expansion(source: Seq<char>, files: Option<FilesView>) -> ExpandedView {
    match files {
        Some(f) => expand_text(source, f.base, seq![], f.known),
        None => {
            let k = first_wanting(lines(source), 0);
            if k < lines(source).len() {
                ExpandedView::Failed(
                    ErrorView {
                        line: k + 1,
                        message:
                            "`include` only works when the pattern file is loaded from disk (path known); relative paths resolve next to that `.seq` file"@,
                    },
                )
            } else {
                ExpandedView::Done(source)
            }
        },
    }
}

enum Line {
    Blank,
    Plain,
    Take(String),
    Bad(String),
}

impl View for Line {
    type V = LineView;

    closed spec fn view(&self) -> LineView {
        match self {
            Line::Blank => LineView::Blank,
            Line::Plain => LineView::Plain,
            Line::Take(p) => LineView::Take(p@),
            Line::Bad(m) => LineView::Bad(m@),
        }
    }
}

fn read_line(raw: &[char], base: &str, quoted: bool) -> (r: Line)
    ensures
        r@ == line_view(raw@, base@, quoted),
{
    let bare = bare_line(raw);
    let ws = words_of(bare.as_slice());
    if ws.len() == 0 {
        if quoted {
            let all = words_of(raw);
            assert(views(all@).len() == all@.len());
            if all.len() > 0 {
                return Line::Plain;
            }
        }
        return Line::Blank;
    }
    assert(views(ws@)[0] == ws@[0]@);
    if !is_word(ws[0].as_slice(), "include") {
        return Line::Plain;
    }
    if ws.len() < 2 {
        return Line::Bad(
            String::from_str(
                "include requires a path, e.g. include \"kit.seq\" or include kit.seq",
            ),
        );
    }
    assert(views(ws@)[1] == ws@[1]@);
    let tok = ws[1].as_slice();
    let n: usize = tok.len();
    let in_quotes: bool = n >= 2 && tok[0] == '"' && tok[n - 1] == '"';
    let path = if in_quotes {
        let inner = chars_between(tok, 1, n - 1);
        if find_last(inner.as_slice(), '"').is_some() {
            return Line::Bad(
                String::from_str(
                    "include path: use a single quoted token without embedded quotes",
                ),
            );
        }
        text_of(inner.as_slice())
    } else {
        text_of(tok)
    };
    if ws.len() > 2 {
        return Line::Bad(String::from_str("extra tokens after include path"));
    }
    Line::Take(resolve_sample_path(base, path.as_str()))
}

fn parent_of(path: &str, base: &str) -> (r: String)
    ensures
        r@ == parent(path@, base@),
{
    let s = chars_of(path);
    match find_last(s.as_slice(), '/') {
        Some(k) => if k > 0 {
            text_between(s.as_slice(), 0, k)
        } else if s.len() > 1 {
            String::from_str("/")
        } else {
            String::from_str(base)
        },
        None => {
            let out = String::new();
            assert(out@ =~= seq![]);
            out
        },
    }
}

fn on_stack(stack: &Vec<String>, file: &str) -> (r: bool)
    ensures
        r == views(stack@).contains(file@),
{
    let ghost v = views(stack@);
    let mut i: usize = 0;
    while i < stack.len()
        invariant
            i <= stack@.len(),
            v == views(stack@),
            forall|k: int| 0 <= k < i ==> v[k] != file@,
        decreases stack@.len() - i,
    {
        assert(v[i as int] == stack@[i as int]@);
        if same_text(stack[i].as_str(), file) {
            return true;
        }
        i += 1;
    }
    false
}

/// What is wrong with the first lines is wrong with all.
proof fn lemma_lines_stop(
    ls: Seq<Seq<char>>,
    k: nat,
    base: Seq<char>,
    stack: Seq<Seq<char>>,
    known: Map<Seq<char>, FactsView>,
)
    requires
        k <= ls.len(),
        expand_lines(ls, k, base, stack, known) !is Done,
    ensures
        expand_lines(ls, ls.len(), base, stack, known) == expand_lines(ls, k, base, stack, known),
    decreases ls.len() - k,
{
    if k < ls.len() {
        lemma_lines_stop(ls, k + 1, base, stack, known);
    }
}

fn expand(source: &[char], base: &str, stack: &mut Vec<String>, known: &Table<FileFacts>) -> (r:
    Expanded)
    ensures
        r@ == expand_text(source@, base@, views(old(stack)@), known@),
        r is Done ==> views(final(stack)@) == views(old(stack)@),
    decreases MAX_INCLUDE_DEPTH + 2 - old(stack)@.len(),
{
    let ghost st = views(stack@);
    if stack.len() > MAX_INCLUDE_DEPTH {
        return Expanded::Failed(
            ParseError {
                line: 1,
                message: String::from_str("include nesting exceeded 32 levels"),
            },
        );
    }
    let ls = lines_of(source);
    let ghost all = views(ls@);
    let mut out = String::new();
    let mut k: usize = 0;
    let mut quoted: bool = false;
    assert(out@ =~= seq![]);
    while k < ls.len()
        invariant
            k <= ls@.len(),
            all == views(ls@),
            all == lines(source@),
            quoted == open_quotes(all, k as nat),
            st == views(stack@),
            st == views(old(stack)@),
            st.len() <= MAX_INCLUDE_DEPTH,
            expand_lines(all, k as nat, base@, st, known@) == ExpandedView::Done(out@),
        decreases ls@.len() - k,
    {
        assert(all[k as int] == ls@[k as int]@);
        let line: usize = k + 1;
        let ghost so_far = expand_lines(all, (k + 1) as nat, base@, st, known@);
        match read_line(ls[k].as_slice(), base, quoted) {
            Line::Blank => {
                out.push('\n');
            },
            Line::Plain => {
                let raw = text_of(ls[k].as_slice());
                out.append(raw.as_str());
                out.push('\n');
            },
            Line::Bad(message) => {
                let r = Expanded::Failed(ParseError { line, message });
                proof {
                    assert(r@ == so_far);
                    lemma_lines_stop(all, (k + 1) as nat, base@, st, known@);
                }
                return r;
            },
            Line::Take(path) => {
                let facts = match known.get(path.as_str()) {
                    Some(facts) => facts,
                    None => {
                        let r = Expanded::Wanted { line, path };
                        proof {
                            assert(r@ == so_far);
                            lemma_lines_stop(all, (k + 1) as nat, base@, st, known@);
                        }
                        return r;
                    },
                };
                let file = match &facts.canonical {
                    Ok(file) => file,
                    Err(e) => {
                        let head = join3("include ", path.as_str(), ": ");
                        let r = Expanded::Failed(
                            ParseError { line, message: join2(head.as_str(), e.as_str()) },
                        );
                        proof {
                            assert(r@ == so_far);
                            lemma_lines_stop(all, (k + 1) as nat, base@, st, known@);
                        }
                        return r;
                    },
                };
                if on_stack(stack, file.as_str()) {
                    let r = Expanded::Failed(
                        ParseError { line, message: join2("include cycle: ", file.as_str()) },
                    );
                    proof {
                        assert(r@ == so_far);
                        lemma_lines_stop(all, (k + 1) as nat, base@, st, known@);
                    }
                    return r;
                }
                let text = match &facts.content {
                    Ok(text) => text,
                    Err(e) => {
                        let head = join3("include ", file.as_str(), ": ");
                        let r = Expanded::Failed(
                            ParseError { line, message: join2(head.as_str(), e.as_str()) },
                        );
                        proof {
                            assert(r@ == so_far);
                            lemma_lines_stop(all, (k + 1) as nat, base@, st, known@);
                        }
                        return r;
                    },
                };
                let copy = file.clone();
                proof {
                    lemma_views_push(stack@, copy);
                }
                stack.push(copy);
                let chars = chars_of(text.as_str());
                let folder = parent_of(file.as_str(), base);
                match expand(chars.as_slice(), folder.as_str(), stack, known) {
                    Expanded::Done(inner) => {
                        proof {
                            assert(st.push(file@).drop_last() =~= st);
                            assert(views(stack@) == st.push(file@));
                        }
                        let ghost pushed = stack@;
                        stack.pop();
                        assert(views(stack@) =~= views(pushed).drop_last());
                        out.append(inner.as_str());
                        let all_out = chars_of(out.as_str());
                        if all_out.len() == 0 || all_out[all_out.len() - 1] != '\n' {
                            out.push('\n');
                        }
                    },
                    other => {
                        proof {
                            assert(other@ == so_far);
                            lemma_lines_stop(all, (k + 1) as nat, base@, st, known@);
                        }
                        return other;
                    },
                }
            },
        }
        quoted = quotes_after(ls[k].as_slice(), quoted);
        k += 1;
    }
    Expanded::Done(out)
}

/// Take in the files that a text asks for.
pub fn expand_include_directives(source: &str, files: Option<&Files>) -> (r: Expanded)
    ensures
        r@ == expansion(source@, files_view(files)),
{
    let chars = chars_of(source);
    match files {
        Some(f) => {
            let mut stack: Vec<String> = Vec::new();
            assert(views(stack@) =~= seq![]);
            expand(chars.as_slice(), f.base.as_str(), &mut stack, &f.known)
        },
        None => {
            let ls = lines_of(chars.as_slice());
            let ghost all = views(ls@);
            let mut i: usize = 0;
            while i < ls.len()
                invariant
                    i <= ls@.len(),
                    files is None,
                    all == views(ls@),
                    all == lines(source@),
                    first_wanting(all, 0) == first_wanting(all, i as int),
                decreases ls@.len() - i,
            {
                assert(all[i as int] == ls@[i as int]@);
                let bare = bare_line(ls[i].as_slice());
                let ws = words_of(bare.as_slice());
                if ws.len() > 0 {
                    assert(views(ws@)[0] == ws@[0]@);
                }
                if ws.len() > 0 && is_word(ws[0].as_slice(), "include") {
                    return Expanded::Failed(
                        ParseError {
                            line: i + 1,
                            message: String::from_str(
                                "`include` only works when the pattern file is loaded from disk (path known); relative paths resolve next to that `.seq` file",
                            ),
                        },
                    );
                }
                i += 1;
            }
            Expanded::Done(String::from_str(source))
        },
    }
}

} // verus!
