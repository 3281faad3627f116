//! A stable form of scheduled hits, for comparing schedules.

use vstd::prelude::*;
use vstd::string::StringExecFns;

use crate::banks::{lemma_lex_antisymmetric, lex_le, text_not_after, texts_are_ordered};
use crate::dsl::events::{Event, EventView};
use crate::order::{in_order, is_order, sort, sorted, sorting_keeps_and_orders, Ranked};
use crate::pat::parse::{find_last, last_of};
use crate::ratio::Ratio;
use crate::table::Table;
use crate::text::{
    chars_between, chars_of, lemma_views_push, same_chars, same_text, text_between, text_of, views,
};

verus! {

/// A hit within a cycle.
#[derive(Debug)]
pub struct NormalizedHit {
    pub phase: Ratio,
    /// The path of the sample below the sample root, or its file name.
    pub sample_relpath: String,
    pub gain: Ratio,
    pub pan: Ratio,
}

#[verifier::ext_equal]
pub struct HitView {
    pub phase: real,
    pub sample_relpath: Seq<char>,
    pub gain: real,
    pub pan: real,
}

impl View for NormalizedHit {
    type V = HitView;

    open spec fn view(&self) -> HitView {
        HitView {
            phase: self.phase@,
            sample_relpath: self.sample_relpath@,
            gain: self.gain@,
            pan: self.pan@,
        }
    }
}

// ---------------------------------------------------------------------------------------------
// Equality
// ---------------------------------------------------------------------------------------------

/// `a` and `b` are less than `d` apart.
pub open spec fn within(a: real, b: real, d: real) -> bool {
    a - b < d && b - a < d
}

/// Two hits count as equal: of one sample, and all but equal in their numbers.
pub open spec fn alike(a: HitView, b: HitView) -> bool {
    &&& within(a.phase, b.phase, 1real / 100000000real)
    &&& a.sample_relpath == b.sample_relpath
    &&& within(a.gain, b.gain, 1real / 100000real)
    &&& within(a.pan, b.pan, 1real / 100000real)
}

fn close(a: &Ratio, b: &Ratio, d: &Ratio) -> (r: bool)
    ensures
        r == within(a@, b@, d@),
{
    a.minus(b).below(d) && b.minus(a).below(d)
}

fn hits_alike(a: &NormalizedHit, b: &NormalizedHit) -> (r: bool)
    ensures
        r == alike(a@, b@),
{
    let fine = Ratio::fraction(1, 100_000_000);
    let coarse = Ratio::fraction(1, 100_000);
    close(&a.phase, &b.phase, &fine) && same_text(
        a.sample_relpath.as_str(),
        b.sample_relpath.as_str(),
    ) && close(&a.gain, &b.gain, &coarse) && close(&a.pan, &b.pan, &coarse)
}

impl PartialEq for NormalizedHit {
    fn eq(&self, other: &Self) -> (r: bool) {
        hits_alike(self, other)
    }
}

impl vstd::std_specs::cmp::PartialEqSpecImpl for NormalizedHit {
    open spec fn obeys_eq_spec() -> bool {
        true
    }

    open spec fn eq_spec(&self, other: &Self) -> bool {
        alike(self@, other@)
    }
}

impl Eq for NormalizedHit {

}

// ---------------------------------------------------------------------------------------------
// Order
// ---------------------------------------------------------------------------------------------

/// By phase, then by path, then by gain, then by pan.
pub open spec fn hit_le(a: HitView, b: HitView) -> bool {
    if a.phase != b.phase {
        a.phase < b.phase
    } else if a.sample_relpath != b.sample_relpath {
        lex_le(a.sample_relpath, b.sample_relpath)
    } else if a.gain != b.gain {
        a.gain < b.gain
    } else {
        a.pan <= b.pan
    }
}

impl Ranked for NormalizedHit {
    open spec fn ordered(a: HitView, b: HitView) -> bool {
        hit_le(a, b)
    }

    fn not_after(&self, other: &Self) -> (r: bool) {
        if !self.phase.equals(&other.phase) {
            return self.phase.below(&other.phase);
        }
        if !same_text(self.sample_relpath.as_str(), other.sample_relpath.as_str()) {
            return text_not_after(self.sample_relpath.as_str(), other.sample_relpath.as_str());
        }
        if !self.gain.equals(&other.gain) {
            return self.gain.below(&other.gain);
        }
        self.pan.at_most(&other.pan)
    }
}

// ---------------------------------------------------------------------------------------------
// Paths
// ---------------------------------------------------------------------------------------------

/// Where the sample root and the samples are in the end.
#[derive(Debug)]
pub struct Places {
    /// The canonical path of the sample root, if it has one.
    pub root: Option<String>,
    /// The canonical paths of samples, where they have one.
    pub canonical: Table<String>,
}

pub struct PlacesView {
    pub root: Option<Seq<char>>,
    pub canonical: Map<Seq<char>, Seq<char>>,
}

impl View for Places {
    type V = PlacesView;

    open spec fn view(&self) -> PlacesView {
        PlacesView {
            root: match self.root {
                Some(r) => Some(r@),
                None => None,
            },
            canonical: self.canonical@,
        }
    }
}

/// `prefix` begins `s`.
pub open spec fn begins(s: Seq<char>, prefix: Seq<char>) -> bool {
    prefix.len() <= s.len() && s.subrange(0, prefix.len() as int) == prefix
}

/// The rest of a canonical path below a canonical folder.
pub open spec fn below_root(path: Seq<char>, root: Seq<char>) -> Option<Seq<char>> {
    let n = root.len() as int;
    if path == root {
        Some(seq![])
    } else if !begins(path, root) || n == 0 {
        None
    } else if root.last() == '/' {
        Some(path.subrange(n, path.len() as int))
    } else if path[n] == '/' {
        Some(path.subrange(n + 1, path.len() as int))
    } else {
        None
    }
}

/// The text with slashes for backslashes.
pub open spec fn slashed(s: Seq<char>) -> Seq<char> {
    Seq::new(
        s.len(),
        |i: int|
            if s[i] == '\\' {
                '/'
            } else {
                s[i]
            },
    )
}

/// The end of the path without the slashes at its end.
pub open spec fn without_slashes(s: Seq<char>, e: int) -> int
    decreases e,
{
    if 0 < e <= s.len() && s[e - 1] == '/' {
        without_slashes(s, e - 1)
    } else {
        e
    }
}

/// The last name in the first `e` characters of a path, past names `.` that are not the first; no
/// name if it is `.` or `..`.
pub open spec fn file_name(s: Seq<char>, e: int) -> Option<Seq<char>>
    decreases e,
{
    let b = without_slashes(s, e);
    let k = last_of(s.subrange(0, b), '/');
    let name = s.subrange(k + 1, b);
    if b <= 0 || b > e {
        None
    } else if name == seq!['.'] && 0 <= k < e {
        file_name(s, k)
    } else if name == seq!['.'] || name == seq!['.', '.'] {
        None
    } else {
        Some(name)
    }
}

/// What a sample is called whose place below the root is not known.
pub open spec fn fallback_id(path: Seq<char>) -> Seq<char> {
    match file_name(path, path.len() as int) {
        Some(name) => name,
        None => path,
    }
}

/// What a sample is called.
pub open spec fn sample_id(places: PlacesView, path: Seq<char>) -> Seq<char> {
    match places.root {
        Some(root) => if places.canonical.contains_key(path) {
            match below_root(places.canonical[path], root) {
                Some(rest) => slashed(rest),
                None => fallback_id(path),
            }
        } else {
            fallback_id(path)
        },
        None => fallback_id(path),
    }
}

pub open spec fn hit_of(places: PlacesView, e: EventView) -> HitView {
    HitView {
        phase: e.frac,
        sample_relpath: sample_id(places, e.path),
        gain: e.gain,
        pan: e.pan,
    }
}

pub open spec fn hits_of(places: PlacesView, es: Seq<EventView>) -> Seq<HitView> {
    Seq::new(es.len(), |i: int| hit_of(places, es[i]))
}

fn strip_root(path: &str, root: &str) -> (r: Option<String>)
    ensures
        match r {
            Some(rest) => below_root(path@, root@) == Some(rest@),
            None => below_root(path@, root@) is None,
        },
{
    let s = chars_of(path);
    let t = chars_of(root);
    let n: usize = t.len();
    if same_chars(s.as_slice(), t.as_slice()) {
        let out = String::new();
        assert(out@ =~= seq![]);
        return Some(out);
    }
    if n == 0 || n > s.len() {
        return None;
    }
    let head = chars_between(s.as_slice(), 0, n);
    if !same_chars(head.as_slice(), t.as_slice()) {
        return None;
    }
    if t[n - 1] == '/' {
        return Some(text_between(s.as_slice(), n, s.len()));
    }
    proof {
        if n == s@.len() {
            assert(s@.subrange(0, n as int) =~= s@);
        }
    }
    if s[n] == '/' {
        Some(text_between(s.as_slice(), n + 1, s.len()))
    } else {
        None
    }
}

fn with_slashes(s: &str) -> (r: String)
    ensures
        r@ == slashed(s@),
{
    let chars = chars_of(s);
    let mut out = String::new();
    let mut i: usize = 0;
    assert(out@ =~= slashed(s@).take(0));
    while i < chars.len()
        invariant
            chars@ == s@,
            i <= chars@.len(),
            out@ == slashed(s@).take(i as int),
        decreases chars@.len() - i,
    {
        let c = if chars[i] == '\\' {
            '/'
        } else {
            chars[i]
        };
        assert(slashed(s@).take(i + 1) =~= slashed(s@).take(i as int).push(c));
        out.push(c);
        i += 1;
    }
    assert(slashed(s@).take(i as int) =~= slashed(s@));
    out
}

fn last_name(s: &Vec<char>, e: usize) -> (r: Option<String>)
    requires
        e <= s@.len(),
    ensures
        match r {
            Some(name) => file_name(s@, e as int) == Some(name@),
            None => file_name(s@, e as int) is None,
        },
    decreases e,
{
    let mut b: usize = e;
    while b > 0 && s[b - 1] == '/'
        invariant
            b <= e <= s@.len(),
            without_slashes(s@, e as int) == without_slashes(s@, b as int),
        decreases b,
    {
        b -= 1;
    }
    if b == 0 {
        return None;
    }
    let head = chars_between(s.as_slice(), 0, b);
    let dot: Vec<char> = vec!['.'];
    let dots: Vec<char> = vec!['.', '.'];
    assert(dot@ =~= seq!['.']);
    assert(dots@ =~= seq!['.', '.']);
    match find_last(head.as_slice(), '/') {
        Some(k) => {
            let name = chars_between(s.as_slice(), k + 1, b);
            if same_chars(name.as_slice(), dot.as_slice()) {
                return last_name(s, k);
            }
            if same_chars(name.as_slice(), dots.as_slice()) {
                return None;
            }
            Some(text_of(name.as_slice()))
        },
        None => {
            if same_chars(head.as_slice(), dot.as_slice()) || same_chars(
                head.as_slice(),
                dots.as_slice(),
            ) {
                return None;
            }
            Some(text_of(head.as_slice()))
        },
    }
}

fn fallback_sample_id(path: &str) -> (r: String)
    ensures
        r@ == fallback_id(path@),
{
    let s = chars_of(path);
    match last_name(&s, s.len()) {
        Some(name) => name,
        None => String::from_str(path),
    }
}

fn sample_name(places: &Places, path: &str) -> (r: String)
    ensures
        r@ == sample_id(places@, path@),
{
    let root = match &places.root {
        Some(root) => root,
        None => {
            return fallback_sample_id(path);
        },
    };
    match places.canonical.get(path) {
        Some(can) => match strip_root(can.as_str(), root.as_str()) {
            Some(rest) => with_slashes(rest.as_str()),
            None => fallback_sample_id(path),
        },
        None => fallback_sample_id(path),
    }
}

/// The hits of a schedule, in order, with their samples named below the sample root.
pub fn normalize_schedule(places: &Places, events: Vec<Event>) -> (r: Vec<NormalizedHit>)
    ensures
        views(r@) == sorted::<NormalizedHit>(hits_of(places@, views(events@))),
{
    let ghost es = views(events@);
    let ghost goal = hits_of(places@, es);
    let mut out: Vec<NormalizedHit> = Vec::new();
    let mut i: usize = 0;
    assert(views(out@) =~= goal.take(0));
    while i < events.len()
        invariant
            i <= events@.len(),
            es == views(events@),
            goal == hits_of(places@, es),
            views(out@) == goal.take(i as int),
        decreases events@.len() - i,
    {
        assert(es[i as int] == events@[i as int]@);
        let hit = NormalizedHit {
            phase: events[i].frac.duplicate(),
            sample_relpath: sample_name(places, events[i].path.as_str()),
            gain: events[i].gain.duplicate(),
            pan: events[i].pan.duplicate(),
        };
        proof {
            lemma_views_push(out@, hit);
            assert(goal.take(i + 1) =~= goal.take(i as int).push(hit@));
        }
        out.push(hit);
        i += 1;
    }
    assert(goal.take(i as int) =~= goal);
    sort(out)
}

// ---------------------------------------------------------------------------------------------
// Laws
// ---------------------------------------------------------------------------------------------

/// Hits are in a total order, so schedules of the same hits are normalized alike.
pub proof fn hits_are_ordered()
    ensures
        is_order::<NormalizedHit>(),
{
    texts_are_ordered();
    assert forall|a: Seq<char>, b: Seq<char>| lex_le(a, b) || lex_le(b, a) by {
        assert(<String as Ranked>::ordered(a, b) || <String as Ranked>::ordered(b, a));
    }
    assert forall|a: HitView, b: HitView| #[trigger]
        <NormalizedHit as Ranked>::ordered(a, b) || <NormalizedHit as Ranked>::ordered(b, a) by {
        assert(lex_le(a.sample_relpath, b.sample_relpath) || lex_le(
            b.sample_relpath,
            a.sample_relpath,
        ));
    }
    assert forall|a: HitView, b: HitView, c: HitView| #[trigger]
        <NormalizedHit as Ranked>::ordered(a, b) && #[trigger] <NormalizedHit as Ranked>::ordered(
            b,
            c,
        ) implies <NormalizedHit as Ranked>::ordered(a, c) by {
        let (x, y, z) = (a.sample_relpath, b.sample_relpath, c.sample_relpath);
        if lex_le(x, y) && lex_le(y, z) {
            assert(<String as Ranked>::ordered(x, y) && <String as Ranked>::ordered(y, z));
            assert(<String as Ranked>::ordered(x, z));
        }
        if lex_le(x, y) && lex_le(y, x) {
            lemma_lex_antisymmetric(x, y);
        }
        if lex_le(y, z) && lex_le(z, y) {
            lemma_lex_antisymmetric(y, z);
        }
    }
}

/// A normalized schedule has the hits of the schedule, each as often, in order.
pub proof fn normalized_schedules_are_in_order(places: PlacesView, es: Seq<EventView>)
    ensures
        sorted::<NormalizedHit>(hits_of(places, es)).to_multiset() == hits_of(
            places,
            es,
        ).to_multiset(),
        in_order::<NormalizedHit>(sorted::<NormalizedHit>(hits_of(places, es))),
{
    hits_are_ordered();
    sorting_keeps_and_orders::<NormalizedHit>(hits_of(places, es));
}

/// Every hit is like itself, and likeness works both ways.
pub proof fn likeness_is_mutual(a: HitView, b: HitView)
    ensures
        alike(a, a),
        alike(a, b) == alike(b, a),
{
}

} // verus!
