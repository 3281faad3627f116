//! Sample banks: folders of WAV files under the sample root, counted from one.

use vstd::prelude::*;
use vstd::string::StringExecFns;

use crate::order::{in_order, is_order, sort, sorted, sorting_keeps_and_orders, Ranked};
use crate::pat::parse::{find_last, last_of};
use crate::table::Table;
use crate::text::{
    chars_between, chars_of, decimal, decimal_of, is_word, join2, join3, join5, lemma_views_push,
    same_word, views,
};

verus! {

// ---------------------------------------------------------------------------------------------
// Paths
// ---------------------------------------------------------------------------------------------

/// `p` below `base`; an absolute path stays as it is.
pub open spec fn joined(base: Seq<char>, p: Seq<char>) -> Seq<char> {
    if p.len() > 0 && p[0] == '/' {
        p
    } else if base.len() == 0 || base.last() == '/' {
        base + p
    } else {
        base + "/"@ + p
    }
}

/// Resolve a sample path: absolute paths stay as they are, relative ones are taken below `base`.
pub fn resolve_sample_path(base: &str, track_path: &str) -> (r: String)
    ensures
        r@ == joined(base@, track_path@),
{
    let b = chars_of(base);
    let p = chars_of(track_path);
    if p.len() > 0 && p[0] == '/' {
        String::from_str(track_path)
    } else if b.len() == 0 || b[b.len() - 1] == '/' {
        join2(base, track_path)
    } else {
        join3(base, "/", track_path)
    }
}

// ---------------------------------------------------------------------------------------------
// What is known of the sample root
// ---------------------------------------------------------------------------------------------

/// What a reading of the folder `name` under the sample root gave.
#[derive(Debug)]
pub struct Folder {
    /// Whether it is a folder.
    pub is_dir: bool,
    /// The names of its files, or why they could not be read.
    pub listing: Result<Vec<String>, String>,
}

#[verifier::ext_equal]
pub struct FolderView {
    pub is_dir: bool,
    pub listing: Result<Seq<Seq<char>>, Seq<char>>,
}

impl View for Folder {
    type V = FolderView;

    open spec fn view(&self) -> FolderView {
        FolderView {
            is_dir: self.is_dir,
            listing: match self.listing {
                Ok(names) => Ok(views(names@)),
                Err(e) => Err(e@),
            },
        }
    }
}

/// The sample root and the folders under it that have been read.
#[derive(Debug)]
pub struct Catalog {
    pub root: String,
    pub folders: Table<Folder>,
}

pub struct CatalogView {
    pub root: Seq<char>,
    pub folders: Map<Seq<char>, FolderView>,
}

impl View for Catalog {
    type V = CatalogView;

    open spec fn view(&self) -> CatalogView {
        CatalogView { root: self.root@, folders: self.folders@ }
    }
}

/// `token` is known to be a folder under the sample root.
pub open spec fn known_dir(c: CatalogView, token: Seq<char>) -> bool {
    c.folders.contains_key(token) && c.folders[token].is_dir
}

/// The names of the files in a folder; a folder that has not been read is a failure.
pub open spec fn listing(c: CatalogView, bank: Seq<char>) -> Result<Seq<Seq<char>>, Seq<char>> {
    if c.folders.contains_key(bank) {
        c.folders[bank].listing
    } else {
        Err("folder not read"@)
    }
}

impl Catalog {
    /// A sample root of which no folder has been read.
    pub fn new(root: String) -> (r: Catalog)
        ensures
            r@ == (CatalogView { root: root@, folders: Map::empty() }),
    {
        Catalog { root, folders: Table::new() }
    }

    /// Take down what reading a folder gave.
    pub fn learn(&mut self, name: String, folder: Folder)
        ensures
            final(self)@ == (CatalogView {
                root: old(self)@.root,
                folders: old(self)@.folders.insert(name@, folder@),
            }),
    {
        self.folders.insert(name, folder);
    }

    /// Whether the folder has been read.
    pub fn knows(&self, name: &str) -> (r: bool)
        ensures
            r == self@.folders.contains_key(name@),
    {
        self.folders.get(name).is_some()
    }

    pub fn is_dir(&self, token: &str) -> (r: bool)
        ensures
            r == known_dir(self@, token@),
    {
        match self.folders.get(token) {
            Some(f) => f.is_dir,
            None => false,
        }
    }
}

// ---------------------------------------------------------------------------------------------
// Banks
// ---------------------------------------------------------------------------------------------

/// A file name with the extension `wav`, in any case.
pub open spec fn is_wav(name: Seq<char>) -> bool {
    let p = last_of(name, '.');
    p > 0 && same_word(name.subrange(p + 1, name.len() as int), "wav"@)
}

/// The WAV files among the names.
pub open spec fn wavs(names: Seq<Seq<char>>) -> Seq<Seq<char>>
    decreases names.len(),
{
    if names.len() == 0 {
        names
    } else if is_wav(names.last()) {
        wavs(names.drop_last()).push(names.last())
    } else {
        wavs(names.drop_last())
    }
}

/// Character by character, `a` does not come after `b`.
pub open spec fn lex_le(a: Seq<char>, b: Seq<char>) -> bool
    decreases a.len(),
{
    if a.len() == 0 {
        true
    } else if b.len() == 0 {
        false
    } else if a[0] != b[0] {
        a[0] < b[0]
    } else {
        lex_le(a.subrange(1, a.len() as int), b.subrange(1, b.len() as int))
    }
}

impl Ranked for String {
    open spec fn ordered(a: Seq<char>, b: Seq<char>) -> bool {
        lex_le(a, b)
    }

    fn not_after(&self, other: &Self) -> (r: bool) {
        text_not_after(self.as_str(), other.as_str())
    }
}

/// Whether `a` does not come after `b`, character by character.
pub fn text_not_after(a: &str, b: &str) -> (r: bool)
    ensures
        r == lex_le(a@, b@),
{
    let x = chars_of(a);
    let y = chars_of(b);
    let mut i: usize = 0;
    assert(x@.subrange(0, x@.len() as int) =~= x@);
    assert(y@.subrange(0, y@.len() as int) =~= y@);
    while i < x.len() && i < y.len()
        invariant
            x@ == a@,
            y@ == b@,
            i <= x@.len(),
            i <= y@.len(),
            lex_le(x@, y@) == lex_le(
                x@.subrange(i as int, x@.len() as int),
                y@.subrange(i as int, y@.len() as int),
            ),
        decreases x@.len() - i,
    {
        proof {
            let s = x@.subrange(i as int, x@.len() as int);
            let t = y@.subrange(i as int, y@.len() as int);
            assert(s.subrange(1, s.len() as int) =~= x@.subrange(i + 1, x@.len() as int));
            assert(t.subrange(1, t.len() as int) =~= y@.subrange(i + 1, y@.len() as int));
        }
        if x[i] != y[i] {
            return x[i] < y[i];
        }
        i += 1;
    }
    i >= x.len()
}

/// The paths of names below a folder.
pub open spec fn below(dir: Seq<char>, names: Seq<Seq<char>>) -> Seq<Seq<char>> {
    Seq::new(names.len(), |i: int| joined(dir, names[i]))
}

/// The WAV files of a bank, in the order of their names.
pub open spec fn bank_wavs(c: CatalogView, bank: Seq<char>) -> Result<Seq<Seq<char>>, Seq<char>> {
    let dir = joined(c.root, bank);
    match listing(c, bank) {
        Err(e) => Err("bank `"@ + bank + "` ("@ + dir + "): "@ + e),
        Ok(names) => Ok(below(dir, sorted::<String>(wavs(names)))),
    }
}

/// The sample that `bank:index` stands for, counted from one.
pub open spec fn bank_sample(c: CatalogView, bank: Seq<char>, index: u32) -> Result<
    Seq<char>,
    Seq<char>,
> {
    if index == 0 {
        Err("bank index must be >= 1 (1-based)"@)
    } else {
        match bank_wavs(c, bank) {
            Err(e) => Err(e),
            Ok(files) => if files.len() == 0 {
                Err("bank `"@ + bank + "` has no .wav files under "@ + joined(c.root, bank))
            } else if index > files.len() {
                Err(
                    "bank `"@ + bank + "`: index "@ + decimal(index as nat) + " out of range (1–"@
                        + decimal(files.len()) + ")"@,
                )
            } else {
                Ok(files[index - 1])
            },
        }
    }
}

fn wav_name(name: &str) -> (r: bool)
    ensures
        r == is_wav(name@),
{
    let s = chars_of(name);
    let n: usize = s.len();
    match find_last(s.as_slice(), '.') {
        Some(p) => {
            if p == 0 {
                return false;
            }
            let ext = chars_between(s.as_slice(), p + 1, n);
            is_word(ext.as_slice(), "wav")
        },
        None => false,
    }
}

/// List the WAV files of a bank, in the order of their names.
pub fn list_bank_wavs(samples: &Catalog, bank: &str) -> (r: Result<Vec<String>, String>)
    ensures
        match r {
            Ok(files) => bank_wavs(samples@, bank@) == Ok::<Seq<Seq<char>>, Seq<char>>(
                views(files@),
            ),
            Err(e) => bank_wavs(samples@, bank@) == Err::<Seq<Seq<char>>, Seq<char>>(e@),
        },
{
    let dir = resolve_sample_path(samples.root.as_str(), bank);
    let names = match samples.folders.get(bank) {
        Some(f) => match &f.listing {
            Ok(names) => names,
            Err(e) => {
                let head = join5("bank `", bank, "` (", dir.as_str(), "): ");
                return Err(join2(head.as_str(), e.as_str()));
            },
        },
        None => {
            let head = join5("bank `", bank, "` (", dir.as_str(), "): ");
            return Err(join2(head.as_str(), "folder not read"));
        },
    };
    let ghost all = views(names@);
    let mut kept: Vec<String> = Vec::new();
    let mut i: usize = 0;
    assert(views(kept@) =~= wavs(all.take(0)));
    while i < names.len()
        invariant
            i <= names@.len(),
            all == views(names@),
            views(kept@) == wavs(all.take(i as int)),
        decreases names@.len() - i,
    {
        proof {
            assert(all.take(i + 1).drop_last() =~= all.take(i as int));
            assert(all.take(i + 1).last() == names@[i as int]@);
        }
        if wav_name(names[i].as_str()) {
            let name = names[i].clone();
            proof {
                lemma_views_push(kept@, name);
            }
            kept.push(name);
        }
        i += 1;
    }
    assert(all.take(i as int) =~= all);
    let ordered = sort(kept);
    let ghost st = views(ordered@);
    let mut out: Vec<String> = Vec::new();
    let mut k: usize = 0;
    assert(views(out@) =~= below(dir@, st).take(0));
    while k < ordered.len()
        invariant
            k <= ordered@.len(),
            st == views(ordered@),
            views(out@) == below(dir@, st).take(k as int),
        decreases ordered@.len() - k,
    {
        let path = resolve_sample_path(dir.as_str(), ordered[k].as_str());
        proof {
            lemma_views_push(out@, path);
            assert(below(dir@, st).take(k + 1) =~= below(dir@, st).take(k as int).push(path@));
        }
        out.push(path);
        k += 1;
    }
    assert(below(dir@, st).take(k as int) =~= below(dir@, st));
    Ok(out)
}

/// Resolve `bank:index`, counted from one.
pub fn resolve_bank_sample(samples: &Catalog, bank: &str, index_1based: u32) -> (r: Result<
    String,
    String,
>)
    ensures
        match r {
            Ok(path) => bank_sample(samples@, bank@, index_1based) == Ok::<Seq<char>, Seq<char>>(
                path@,
            ),
            Err(e) => bank_sample(samples@, bank@, index_1based) == Err::<Seq<char>, Seq<char>>(
                e@,
            ),
        },
{
    if index_1based == 0 {
        return Err(String::from_str("bank index must be >= 1 (1-based)"));
    }
    let files = match list_bank_wavs(samples, bank) {
        Ok(files) => files,
        Err(e) => {
            return Err(e);
        },
    };
    if files.len() == 0 {
        let dir = resolve_sample_path(samples.root.as_str(), bank);
        return Err(join2(join3("bank `", bank, "` has no .wav files under ").as_str(), dir.as_str()));
    }
    let n: u64 = files.len() as u64;
    if index_1based as u64 > n {
        let head = join5(
            "bank `",
            bank,
            "`: index ",
            decimal_of(index_1based as u64).as_str(),
            " out of range (1–",
        );
        return Err(join3(head.as_str(), decimal_of(n).as_str(), ")"));
    }
    let i: usize = (index_1based - 1) as usize;
    assert(views(files@)[i as int] == files@[i as int]@);
    Ok(files[i].clone())
}

// ---------------------------------------------------------------------------------------------
// Laws
// ---------------------------------------------------------------------------------------------

proof fn lemma_lex_total(a: Seq<char>, b: Seq<char>)
    ensures
        lex_le(a, b) || lex_le(b, a),
    decreases a.len(),
{
    if a.len() > 0 && b.len() > 0 && a[0] == b[0] {
        lemma_lex_total(a.subrange(1, a.len() as int), b.subrange(1, b.len() as int));
    }
}

proof fn lemma_lex_transitive(a: Seq<char>, b: Seq<char>, c: Seq<char>)
    requires
        lex_le(a, b),
        lex_le(b, c),
    ensures
        lex_le(a, c),
    decreases a.len(),
{
    if a.len() > 0 && a[0] == b[0] && b[0] == c[0] {
        lemma_lex_transitive(
            a.subrange(1, a.len() as int),
            b.subrange(1, b.len() as int),
            c.subrange(1, c.len() as int),
        );
    }
}

/// Two texts that each come before or with the other are one text.
pub proof fn lemma_lex_antisymmetric(a: Seq<char>, b: Seq<char>)
    requires
        lex_le(a, b),
        lex_le(b, a),
    ensures
        a == b,
    decreases a.len(),
{
    if a.len() > 0 && b.len() > 0 {
        let x = a.subrange(1, a.len() as int);
        let y = b.subrange(1, b.len() as int);
        lemma_lex_antisymmetric(x, y);
        assert(a =~= seq![a[0]] + x);
        assert(b =~= seq![b[0]] + y);
    } else {
        assert(a =~= b);
    }
}

proof fn lemma_wavs_filter(names: Seq<Seq<char>>)
    ensures
        wavs(names) == names.filter(|n: Seq<char>| is_wav(n)),
    decreases names.len(),
{
    reveal(Seq::filter);
    if names.len() > 0 {
        lemma_wavs_filter(names.drop_last());
    } else {
        assert(names.filter(|n: Seq<char>| is_wav(n)) =~= names);
    }
}

proof fn lemma_filter_multiset(names: Seq<Seq<char>>)
    ensures
        names.filter(|n: Seq<char>| is_wav(n)).to_multiset() == names.to_multiset().filter(
            |n: Seq<char>| is_wav(n),
        ),
    decreases names.len(),
{
    broadcast use vstd::seq_lib::group_to_multiset_ensures;
    broadcast use vstd::multiset::group_multiset_axioms;

    reveal(Seq::filter);
    let f = |n: Seq<char>| is_wav(n);
    if names.len() > 0 {
        let d = names.drop_last();
        lemma_filter_multiset(d);
        assert(names =~= d.push(names.last()));
        assert(names.filter(f).to_multiset() =~= names.to_multiset().filter(f));
    } else {
        assert(names.filter(f).to_multiset() =~= names.to_multiset().filter(f));
    }
}

/// There is one way to put texts in order.
pub proof fn lemma_one_order(a: Seq<Seq<char>>, b: Seq<Seq<char>>)
    requires
        in_order::<String>(a),
        in_order::<String>(b),
        a.to_multiset() == b.to_multiset(),
    ensures
        a == b,
{
    let leq = |x: Seq<char>, y: Seq<char>| lex_le(x, y);
    assert forall|x: Seq<char>, y: Seq<char>| #[trigger] leq(x, y) || #[trigger] leq(y, x) by {
        lemma_lex_total(x, y);
    }
    assert forall|x: Seq<char>, y: Seq<char>| #[trigger]
        leq(x, y) && #[trigger] leq(y, x) implies x == y by {
        lemma_lex_antisymmetric(x, y);
    }
    assert forall|x: Seq<char>, y: Seq<char>, z: Seq<char>| #[trigger]
        leq(x, y) && #[trigger] leq(y, z) implies leq(x, z) by {
        lemma_lex_transitive(x, y, z);
    }
    assert forall|i: int, j: int| 0 <= i < j < a.len() implies #[trigger] leq(a[i], a[j]) by {
        assert(<String as Ranked>::ordered(a[i], a[j]));
    }
    assert forall|i: int, j: int| 0 <= i < j < b.len() implies #[trigger] leq(b[i], b[j]) by {
        assert(<String as Ranked>::ordered(b[i], b[j]));
    }
    vstd::seq_lib::lemma_sorted_unique(a, b, leq);
}

/// Texts are in a total order.
pub proof fn texts_are_ordered()
    ensures
        is_order::<String>(),
{
    assert forall|a: Seq<char>, b: Seq<char>| #[trigger]
        <String as Ranked>::ordered(a, b) || <String as Ranked>::ordered(b, a) by {
        lemma_lex_total(a, b);
    }
    assert forall|a: Seq<char>, b: Seq<char>, c: Seq<char>| #[trigger]
        <String as Ranked>::ordered(a, b) && #[trigger] <String as Ranked>::ordered(
            b,
            c,
        ) implies <String as Ranked>::ordered(a, c) by {
        lemma_lex_transitive(a, b, c);
    }
}

/// A bank holds exactly the WAV files of its folder, in the order of their names, and does not
/// depend on the order in which the folder was read.
pub proof fn banks_are_in_order(
    c: CatalogView,
    bank: Seq<char>,
    names: Seq<Seq<char>>,
    others: Seq<Seq<char>>,
)
    requires
        listing(c, bank) == Ok::<Seq<Seq<char>>, Seq<char>>(names),
    ensures
        bank_wavs(c, bank) == Ok::<Seq<Seq<char>>, Seq<char>>(
            below(joined(c.root, bank), sorted::<String>(wavs(names))),
        ),
        in_order::<String>(sorted::<String>(wavs(names))),
        sorted::<String>(wavs(names)).to_multiset() == names.filter(
            |n: Seq<char>| is_wav(n),
        ).to_multiset(),
        others.to_multiset() == names.to_multiset() ==> sorted::<String>(wavs(others)) == sorted::<
            String,
        >(wavs(names)),
{
    texts_are_ordered();
    sorting_keeps_and_orders::<String>(wavs(names));
    lemma_wavs_filter(names);
    if others.to_multiset() == names.to_multiset() {
        sorting_keeps_and_orders::<String>(wavs(others));
        lemma_wavs_filter(others);
        lemma_filter_multiset(names);
        lemma_filter_multiset(others);
        lemma_one_order(sorted::<String>(wavs(names)), sorted::<String>(wavs(others)));
    }
}

/// An index within a bank always resolves, to the file at that place.
pub proof fn indexes_within_a_bank_resolve(c: CatalogView, bank: Seq<char>, index: u32)
    requires
        bank_wavs(c, bank) is Ok,
        1 <= index <= bank_wavs(c, bank)->Ok_0.len(),
    ensures
        bank_sample(c, bank, index) == Ok::<Seq<char>, Seq<char>>(
            bank_wavs(c, bank)->Ok_0[index - 1],
        ),
{
}

} // verus!
