//! What names stand for: tokens for samples, samples for files, and paths for the samples they are.

use vstd::prelude::*;

use crate::banks::{
    bank_sample, is_wav, joined, known_dir, lemma_one_order, lex_le, wavs, CatalogView,
};
use crate::dsl::events::EventView;
use crate::dsl::sample::{bank_ref, occurs, token_path};
use crate::dsl::{ProgramView, SpecView};
use crate::event_spec::{
    alike, below_root, hit_le, hit_of, sample_id, without_slashes, HitView, PlacesView,
};
use crate::order::{in_order, sorted};
use crate::pat::notation::{decimals_stand_for_their_number, lemma_last_of};
use crate::pat::parse::last_of;
use crate::text::{decimal, lower};

verus! {

// ---------------------------------------------------------------------------------------------
// Files
// ---------------------------------------------------------------------------------------------

proof fn lemma_absent(s: Seq<char>, c: char)
    requires
        !s.contains(c),
    ensures
        last_of(s, c) == -1,
    decreases s.len(),
{
    if s.len() > 0 {
        let d = s.drop_last();
        assert forall|i: int| 0 <= i < d.len() implies d[i] != c by {
            assert(d[i] == s[i]);
        }
        assert(s[s.len() - 1] != c);
        lemma_absent(d, c);
    }
}

/// A file is a WAV file by its extension, in any case: `kick.wav`, `kick.WAV`. A name that is all
/// extension, or has none, is none.
pub proof fn files_are_wavs_by_their_extension(stem: Seq<char>, ext: Seq<char>)
    requires
        !ext.contains('.'),
    ensures
        is_wav(stem + "."@ + ext) <==> stem.len() > 0 && ext.len() == 3 && lower(ext[0]) == 'w'
            && lower(ext[1]) == 'a' && lower(ext[2]) == 'v',
        !is_wav(ext),
{
    reveal_strlit(".");
    reveal_strlit("wav");
    let s = stem + "."@ + ext;
    assert(s =~= stem.push('.') + ext);
    assert forall|i: int| 0 <= i < ext.len() implies ext[i] != '.' by {}
    lemma_last_of(stem, '.', ext);
    assert(s.subrange(stem.len() as int + 1, s.len() as int) =~= ext);
    lemma_absent(ext, '.');
    let w = "wav"@;
    assert(lower(w[0]) == 'w' && lower(w[1]) == 'a' && lower(w[2]) == 'v');
    if ext.len() == 3 && lower(ext[0]) == 'w' && lower(ext[1]) == 'a' && lower(ext[2]) == 'v' {
        assert forall|i: int| 0 <= i < 3 implies lower(#[trigger] ext[i]) == lower(w[i]) by {
            assert(i == 0 || i == 1 || i == 2);
        }
    }
}

/// Texts are in the order of the first characters in which they differ; one that the other begins
/// with comes first.
pub proof fn texts_are_ordered_where_they_differ(a: Seq<char>, b: Seq<char>, k: int)
    requires
        0 <= k <= a.len(),
        k <= b.len(),
        a.take(k) == b.take(k),
    ensures
        k == a.len() ==> lex_le(a, b),
        k < a.len() && k < b.len() && a[k] < b[k] ==> lex_le(a, b) && !lex_le(b, a),
        k < a.len() && k == b.len() ==> !lex_le(a, b),
    decreases k,
{
    if k > 0 {
        let x = a.subrange(1, a.len() as int);
        let y = b.subrange(1, b.len() as int);
        assert(a.take(k)[0] == a[0] && b.take(k)[0] == b[0]);
        assert(x.take(k - 1) =~= a.take(k).subrange(1, k));
        assert(y.take(k - 1) =~= b.take(k).subrange(1, k));
        texts_are_ordered_where_they_differ(x, y, k - 1);
    }
}

// ---------------------------------------------------------------------------------------------
// Tokens
// ---------------------------------------------------------------------------------------------

/// `files` are the WAV files of the bank in the order of their names.
pub open spec fn is_bank(c: CatalogView, bank: Seq<char>, files: Seq<Seq<char>>) -> bool {
    &&& c.folders.contains_key(bank)
    &&& c.folders[bank].listing is Ok
    &&& in_order::<String>(files)
    &&& files.to_multiset() == c.folders[bank].listing->Ok_0.filter(
        |n: Seq<char>| is_wav(n),
    ).to_multiset()
}

proof fn lemma_bank(c: CatalogView, bank: Seq<char>, files: Seq<Seq<char>>, n: u32)
    requires
        is_bank(c, bank, files),
    ensures
        1 <= n <= files.len() ==> bank_sample(c, bank, n) == Ok::<Seq<char>, Seq<char>>(
            joined(joined(c.root, bank), files[n - 1]),
        ),
        n == 0 || n > files.len() ==> bank_sample(c, bank, n) is Err,
{
    let names = c.folders[bank].listing->Ok_0;
    crate::banks::banks_are_in_order(c, bank, names, names);
    lemma_one_order(files, sorted::<String>(wavs(names)));
}

/// `bank:n` is the file numbered `n` of the bank, counted from one in the order of their names, and
/// there is no other; a folder's name alone is its first file.
pub proof fn banks_count_their_files(
    p: ProgramView,
    c: CatalogView,
    bank: Seq<char>,
    files: Seq<Seq<char>>,
    n: u32,
)
    requires
        is_bank(c, bank, files),
        bank.len() > 0,
    ensures
        !p.aliases.contains_key(bank + ":"@ + decimal(n as nat)) && n >= 1 ==> {
            let path = token_path(p, bank + ":"@ + decimal(n as nat), c);
            &&& n <= files.len() ==> path == Ok::<Seq<char>, Seq<char>>(
                joined(joined(c.root, bank), files[n - 1]),
            )
            &&& n > files.len() ==> path is Err
        },
        !p.aliases.contains_key(bank) && known_dir(c, bank) && !bank.contains(':')
            && !bank.contains('/') && !bank.contains('\\') ==> {
            let path = token_path(p, bank, c);
            &&& files.len() > 0 ==> path == Ok::<Seq<char>, Seq<char>>(
                joined(joined(c.root, bank), files[0]),
            )
            &&& files.len() == 0 ==> path is Err
        },
{
    reveal_strlit(":");
    let d = decimal(n as nat);
    let s = bank + ":"@ + d;
    decimals_stand_for_their_number(n as nat);
    assert(s =~= bank.push(':') + d);
    lemma_last_of(bank, ':', d);
    assert(s.subrange(0, bank.len() as int) =~= bank);
    assert(s.subrange(bank.len() as int + 1, s.len() as int) =~= d);
    lemma_bank(c, bank, files, n);
    lemma_bank(c, bank, files, 1);
    if n >= 1 {
        assert(bank_ref(s) == Some((bank, n)));
    }
    if !bank.contains(':') && !bank.contains('/') && !bank.contains('\\') {
        lemma_absent(bank, ':');
        assert(bank_ref(bank) is None);
        assert(!occurs(bank, ':') && !occurs(bank, '/') && !occurs(bank, '\\'));
    }
}

/// An alias stands for what it was set to, whatever else its name may mean.
pub proof fn aliases_come_first(
    p: ProgramView,
    c: CatalogView,
    token: Seq<char>,
    path: Seq<char>,
    bank: Seq<char>,
    n: u32,
)
    requires
        p.aliases.contains_key(token),
    ensures
        p.aliases[token] == SpecView::Path(path) ==> token_path(p, token, c) == Ok::<
            Seq<char>,
            Seq<char>,
        >(joined(c.root, path)),
        p.aliases[token] == (SpecView::Bank { bank, index: n }) ==> token_path(p, token, c)
            == bank_sample(c, bank, n),
{
}

/// Any other token is a path: one below the sample root, unless it begins with a slash.
pub proof fn other_tokens_are_paths(p: ProgramView, c: CatalogView, token: Seq<char>)
    requires
        !p.aliases.contains_key(token),
        !token.contains(':'),
        !known_dir(c, token),
        token.len() > 0,
        c.root.len() > 0,
    ensures
        token_path(p, token, c) is Ok,
        token[0] == '/' ==> token_path(p, token, c)->Ok_0 == token,
        token[0] != '/' && c.root.last() != '/' ==> token_path(p, token, c)->Ok_0 == c.root + "/"@
            + token,
        token[0] != '/' && c.root.last() == '/' ==> token_path(p, token, c)->Ok_0 == c.root + token,
{
    lemma_absent(token, ':');
}

// ---------------------------------------------------------------------------------------------
// Samples
// ---------------------------------------------------------------------------------------------

/// A sample below the sample root is called by its path from there, with slashes.
pub proof fn samples_are_named_from_the_root(
    places: PlacesView,
    path: Seq<char>,
    root: Seq<char>,
    rest: Seq<char>,
)
    requires
        places.root == Some(root),
        places.canonical.contains_key(path),
        places.canonical[path] == root + "/"@ + rest,
        root.len() > 0,
        root.last() != '/',
    ensures
        sample_id(places, path).len() == rest.len(),
        forall|i: int|
            0 <= i < rest.len() ==> #[trigger] sample_id(places, path)[i] == if rest[i] == '\\' {
                '/'
            } else {
                rest[i]
            },
{
    reveal_strlit("/");
    let s = root + "/"@ + rest;
    assert(s.len() > root.len());
    assert(s.subrange(0, root.len() as int) =~= root);
    assert(s[root.len() as int] == '/');
    assert(s.subrange(root.len() as int + 1, s.len() as int) =~= rest);
}

/// A sample of which no place below the root is known is called by its file name.
pub proof fn other_samples_are_named_by_their_file(
    places: PlacesView,
    path: Seq<char>,
    dir: Seq<char>,
    name: Seq<char>,
)
    requires
        places.root is None || !places.canonical.contains_key(path) || below_root(
            places.canonical[path],
            places.root->0,
        ) is None,
        path == dir + "/"@ + name || path == name,
        name.len() > 0,
        !name.contains('/'),
        name != seq!['.'],
        name != seq!['.', '.'],
    ensures
        sample_id(places, path) == name,
{
    reveal_strlit("/");
    let e = path.len() as int;
    assert forall|i: int| 0 <= i < name.len() implies name[i] != '/' by {}
    assert(path.last() == name.last());
    assert(without_slashes(path, e) == e);
    assert(path.subrange(0, e) =~= path);
    if path == dir + "/"@ + name {
        assert(path =~= dir.push('/') + name);
        lemma_last_of(dir, '/', name);
        assert(path.subrange(dir.len() as int + 1, e) =~= name);
    } else {
        lemma_absent(name, '/');
        assert(path.subrange(0, e) =~= name);
    }
}

/// A path lies below the root only if it goes on behind it with a slash: `/samples2` is not below
/// `/samples`.
pub proof fn names_that_begin_alike_are_not_below(path: Seq<char>, root: Seq<char>)
    requires
        root.len() > 0,
        root.last() != '/',
    ensures
        below_root(path, root) is Some <==> path == root || exists|rest: Seq<char>|
            path == #[trigger] (root + "/"@ + rest),
{
    reveal_strlit("/");
    let n = root.len() as int;
    if below_root(path, root) is Some && path != root {
        if path.len() == n {
            assert(path.subrange(0, n) =~= path);
        }
        let rest = path.subrange(n + 1, path.len() as int);
        assert forall|i: int| 0 <= i < n implies path[i] == root[i] by {
            assert(path.subrange(0, n)[i] == path[i]);
        }
        assert(path =~= root + "/"@ + rest);
    }
    if exists|rest: Seq<char>| path == #[trigger] (root + "/"@ + rest) {
        let rest = choose|rest: Seq<char>| path == #[trigger] (root + "/"@ + rest);
        assert(path.subrange(0, n) =~= root);
        assert(path[n] == '/');
    }
}

/// Hits of one sample are alike as long as their times are less than a hundred-millionth of a cycle
/// apart, and their gains and pans less than a hundred-thousandth; hits of two samples never are.
pub proof fn hits_a_little_apart_are_alike(
    h: HitView,
    time: real,
    gain: real,
    pan: real,
    other: Seq<char>,
)
    ensures
        alike(
            h,
            HitView { phase: h.phase + time, gain: h.gain + gain, pan: h.pan + pan, ..h },
        ) <==> {
            &&& -1real < time * 100000000real < 1real
            &&& -1real < gain * 100000real < 1real
            &&& -1real < pan * 100000real < 1real
        },
        other != h.sample_relpath ==> !alike(h, HitView { sample_relpath: other, ..h }),
{
}

/// Hits are in the order of their times; at one time in that of their samples; of one sample in that
/// of their gains; at one gain in that of their pans.
pub proof fn hits_are_ordered_by_time_first(a: HitView, b: HitView)
    ensures
        a.phase < b.phase ==> hit_le(a, b) && !hit_le(b, a),
        a.phase == b.phase && a.sample_relpath != b.sample_relpath ==> hit_le(a, b) == lex_le(
            a.sample_relpath,
            b.sample_relpath,
        ),
        a.phase == b.phase && a.sample_relpath == b.sample_relpath && a.gain < b.gain ==> hit_le(
            a,
            b,
        ) && !hit_le(b, a),
        a.phase == b.phase && a.sample_relpath == b.sample_relpath && a.gain == b.gain && a.pan
            < b.pan ==> hit_le(a, b) && !hit_le(b, a),
{
}

/// A normalized hit has the time, the gain and the pan of its event.
pub proof fn hits_keep_the_numbers_of_their_events(places: PlacesView, e: EventView)
    ensures
        hit_of(places, e).phase == e.frac,
        hit_of(places, e).gain == e.gain,
        hit_of(places, e).pan == e.pan,
{
}

} // verus!
