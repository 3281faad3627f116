//! Names, and values kept under names.

use vstd::prelude::*;

use crate::text::{lemma_push_contains, same_text, views};

verus! {

/// What a list of pairs says: of two pairs with one name the later counts.
pub open spec fn pairs_map<V: View>(s: Seq<(String, V)>) -> Map<Seq<char>, V::V>
    decreases s.len(),
{
    if s.len() == 0 {
        Map::empty()
    } else {
        pairs_map(s.drop_last()).insert(s.last().0@, s.last().1@)
    }
}

/// Values under names.
#[derive(Debug)]
pub struct Table<V> {
    pairs: Vec<(String, V)>,
}

impl<V: View> View for Table<V> {
    type V = Map<Seq<char>, V::V>;

    closed spec fn view(&self) -> Map<Seq<char>, V::V> {
        pairs_map(self.pairs@)
    }
}

impl<V: View> Table<V> {
    /// A table that holds nothing.
    pub fn new() -> (r: Table<V>)
        ensures
            r@ == Map::<Seq<char>, V::V>::empty(),
    {
        Table { pairs: Vec::new() }
    }

    /// Put a value under a name, in place of what was there.
    pub fn insert(&mut self, name: String, value: V)
        ensures
            final(self)@ == old(self)@.insert(name@, value@),
    {
        let ghost before = self.pairs@;
        self.pairs.push((name, value));
        assert(self.pairs@.drop_last() =~= before);
    }

    /// The value under a name.
    pub fn get(&self, name: &str) -> (r: Option<&V>)
        ensures
            match r {
                Some(v) => self@.contains_key(name@) && self@[name@] == v@,
                None => !self@.contains_key(name@),
            },
    {
        let mut i: usize = self.pairs.len();
        assert(self.pairs@.take(i as int) =~= self.pairs@);
        while i > 0
            invariant
                i <= self.pairs@.len(),
                self@.contains_key(name@) == pairs_map(self.pairs@.take(i as int)).contains_key(
                    name@,
                ),
                self@.contains_key(name@) ==> self@[name@] == pairs_map(
                    self.pairs@.take(i as int),
                )[name@],
            decreases i,
        {
            assert(self.pairs@.take(i as int).drop_last() =~= self.pairs@.take(i - 1));
            if same_text(self.pairs[i - 1].0.as_str(), name) {
                return Some(&self.pairs[i - 1].1);
            }
            i -= 1;
        }
        None
    }
}

/// The names in a list.
pub open spec fn names_set(s: Seq<Seq<char>>) -> Set<Seq<char>> {
    Set::new(|n: Seq<char>| s.contains(n))
}

/// A set of names.
#[derive(Debug)]
pub struct Names {
    list: Vec<String>,
}

impl View for Names {
    type V = Set<Seq<char>>;

    closed spec fn view(&self) -> Set<Seq<char>> {
        names_set(views(self.list@))
    }
}

impl Names {
    /// No names.
    pub fn new() -> (r: Names)
        ensures
            r@ == Set::<Seq<char>>::empty(),
    {
        let r = Names { list: Vec::new() };
        assert(r@ =~= Set::<Seq<char>>::empty());
        r
    }

    /// Whether there are no names.
    pub fn is_empty(&self) -> (r: bool)
        ensures
            r == (self@ == Set::<Seq<char>>::empty()),
    {
        proof {
            if self.list@.len() == 0 {
                assert(self@ =~= Set::<Seq<char>>::empty());
            } else {
                let x = views(self.list@)[0];
                assert(self@.contains(x));
            }
        }
        self.list.len() == 0
    }

    pub fn contains(&self, name: &str) -> (r: bool)
        ensures
            r == self@.contains(name@),
    {
        let ghost v = views(self.list@);
        let mut i: usize = 0;
        while i < self.list.len()
            invariant
                i <= self.list@.len(),
                v == views(self.list@),
                forall|k: int| 0 <= k < i ==> v[k] != name@,
            decreases self.list@.len() - i,
        {
            assert(v[i as int] == self.list@[i as int]@);
            if same_text(self.list[i].as_str(), name) {
                return true;
            }
            i += 1;
        }
        false
    }

    pub fn insert(&mut self, name: String)
        ensures
            final(self)@ == old(self)@.insert(name@),
    {
        let ghost before = self.list@;
        let present = self.contains(name.as_str());
        if !present {
            self.list.push(name);
            proof {
                let v = views(before);
                let w = views(self.list@);
                assert(w =~= v.push(name@));
                lemma_push_contains(v, name@);
            }
        }
        assert(self@ =~= names_set(views(before)).insert(name@));
    }

    pub fn remove(&mut self, name: &str)
        ensures
            final(self)@ == old(self)@.remove(name@),
    {
        let ghost before = views(self.list@);
        let mut kept: Vec<String> = Vec::new();
        let mut i: usize = 0;
        while i < self.list.len()
            invariant
                i <= self.list@.len(),
                before == views(self.list@),
                forall|n: Seq<char>| #[trigger]
                    views(kept@).contains(n) <==> before.take(i as int).contains(n) && n != name@,
            decreases self.list@.len() - i,
        {
            let ghost old_kept = views(kept@);
            let ghost part = before.take(i as int);
            let ghost x = before[i as int];
            assert(x == self.list@[i as int]@);
            assert(before.take(i + 1) =~= part.push(x));
            let same = same_text(self.list[i].as_str(), name);
            if !same {
                let copy = self.list[i].clone();
                kept.push(copy);
                assert(views(kept@) =~= old_kept.push(x));
            }
            proof {
                lemma_push_contains(part, x);
                lemma_push_contains(old_kept, x);
            }
            i += 1;
        }
        assert(before.take(i as int) =~= before);
        self.list = kept;
        assert(self@ =~= names_set(before).remove(name@));
    }
}

} // verus!
