//! The mini-notation: patterns of sample tokens within a cycle.
//!
//! Spaces make a sequence, `[a b]` stacks, `<a b>` alternates from cycle to cycle, `~` rests,
//! `stack [p, q]` layers whole patterns, `bd*3` repeats, `euclid(k,n) bd` spreads pulses.

use vstd::prelude::*;
use vstd::string::StringExecFns;

use crate::text::{lemma_views_push, views};

pub mod control;
pub mod eval;
pub mod lanes;
pub mod laws;
pub mod meaning;
pub mod notation;
pub mod parse;
pub mod tokens;

pub use crate::pat::eval::eval;
pub use crate::pat::lanes::{eval_with_control_lanes, eval_with_gain_pan, eval_with_gains};
pub use crate::pat::parse::parse_pattern;

verus! {

/// A pattern.
#[derive(Debug, PartialEq)]
pub enum Pat {
    /// Steps that share the cycle out evenly.
    Sequence(Vec<Pat>),
    /// Patterns that sound together.
    Stack(Vec<Pat>),
    /// Whole patterns on top of each other.
    Layer(Vec<Pat>),
    /// One pattern per cycle, in turn.
    Alt(Vec<Pat>),
    /// The onsets in reverse.
    Rev(Box<Pat>),
    /// The onsets moved round by a number of steps.
    Rot(i32, Box<Pat>),
    /// Forwards, then backwards without the two ends.
    Pal(Box<Pat>),
    /// The first pattern on every n-th cycle, the second one otherwise.
    Every(u32, Box<Pat>, Box<Pat>),
    /// Several inner cycles within one cycle.
    Fast(u32, Box<Pat>),
    /// One inner cycle spread over several cycles.
    Slow(u32, Box<Pat>),
    /// Pulses, steps and rotation of a Euclidean rhythm, and its token.
    Euclid(u32, u32, u32, String),
    /// A token.
    Atom(String),
    /// Silence.
    Rest,
}

/// What a pattern is, with sequences for vectors.
#[verifier::ext_equal]
pub enum PatView {
    Sequence(Seq<PatView>),
    Stack(Seq<PatView>),
    Layer(Seq<PatView>),
    Alt(Seq<PatView>),
    Rev(Box<PatView>),
    Rot(i32, Box<PatView>),
    Pal(Box<PatView>),
    Every(u32, Box<PatView>, Box<PatView>),
    Fast(u32, Box<PatView>),
    Slow(u32, Box<PatView>),
    Euclid(u32, u32, u32, Seq<char>),
    Atom(Seq<char>),
    Rest,
}

impl Pat {
    /// What the pattern is, with sequences for vectors.
    pub open spec fn shape(self) -> PatView
        decreases self,
    {
        match self {
            Pat::Sequence(v) => PatView::Sequence(
                Seq::new(
                    v@.len(),
                    |i: int|
                        if 0 <= i < v@.len() {
                            v@[i].shape()
                        } else {
                            PatView::Rest
                        },
                ),
            ),
            Pat::Stack(v) => PatView::Stack(
                Seq::new(
                    v@.len(),
                    |i: int|
                        if 0 <= i < v@.len() {
                            v@[i].shape()
                        } else {
                            PatView::Rest
                        },
                ),
            ),
            Pat::Layer(v) => PatView::Layer(
                Seq::new(
                    v@.len(),
                    |i: int|
                        if 0 <= i < v@.len() {
                            v@[i].shape()
                        } else {
                            PatView::Rest
                        },
                ),
            ),
            Pat::Alt(v) => PatView::Alt(
                Seq::new(
                    v@.len(),
                    |i: int|
                        if 0 <= i < v@.len() {
                            v@[i].shape()
                        } else {
                            PatView::Rest
                        },
                ),
            ),
            Pat::Rev(p) => PatView::Rev(Box::new((*p).shape())),
            Pat::Rot(n, p) => PatView::Rot(n, Box::new((*p).shape())),
            Pat::Pal(p) => PatView::Pal(Box::new((*p).shape())),
            Pat::Every(n, p, q) => PatView::Every(n, Box::new((*p).shape()), Box::new((*q).shape())),
            Pat::Fast(n, p) => PatView::Fast(n, Box::new((*p).shape())),
            Pat::Slow(n, p) => PatView::Slow(n, Box::new((*p).shape())),
            Pat::Euclid(k, n, r, s) => PatView::Euclid(k, n, r, s@),
            Pat::Atom(s) => PatView::Atom(s@),
            Pat::Rest => PatView::Rest,
        }
    }
}

impl View for Pat {
    type V = PatView;

    open spec fn view(&self) -> PatView {
        self.shape()
    }
}

/// The view of a pattern made of several, over the views of its parts.
pub proof fn lemma_list_views(v: Vec<Pat>)
    ensures
        Pat::Sequence(v)@ == PatView::Sequence(views(v@)),
        Pat::Stack(v)@ == PatView::Stack(views(v@)),
        Pat::Layer(v)@ == PatView::Layer(views(v@)),
        Pat::Alt(v)@ == PatView::Alt(views(v@)),
{
    assert(Pat::Sequence(v)@->Sequence_0 =~= views(v@));
    assert(Pat::Stack(v)@->Stack_0 =~= views(v@));
    assert(Pat::Layer(v)@->Layer_0 =~= views(v@));
    assert(Pat::Alt(v)@->Alt_0 =~= views(v@));
}

fn duplicate_all(v: &Vec<Pat>) -> (r: Vec<Pat>)
    ensures
        views(r@) == views(v@),
    decreases v,
{
    let mut out: Vec<Pat> = Vec::new();
    let mut i: usize = 0;
    while i < v.len()
        invariant
            i <= v@.len(),
            views(out@) == views(v@).take(i as int),
        decreases v@.len() - i,
    {
        let p = v[i].duplicate();
        proof {
            lemma_views_push(out@, p);
            assert(views(v@).take(i + 1) =~= views(v@).take(i as int).push(p@));
        }
        out.push(p);
        i += 1;
    }
    assert(views(v@).take(i as int) =~= views(v@));
    out
}

impl Pat {
    /// Another pattern with the same content.
    pub fn duplicate(&self) -> (r: Pat)
        ensures
            r@ == self@,
        decreases self,
    {
        match self {
            Pat::Sequence(v) => {
                let w = duplicate_all(v);
                proof {
                    lemma_list_views(*v);
                    lemma_list_views(w);
                }
                Pat::Sequence(w)
            },
            Pat::Stack(v) => {
                let w = duplicate_all(v);
                proof {
                    lemma_list_views(*v);
                    lemma_list_views(w);
                }
                Pat::Stack(w)
            },
            Pat::Layer(v) => {
                let w = duplicate_all(v);
                proof {
                    lemma_list_views(*v);
                    lemma_list_views(w);
                }
                Pat::Layer(w)
            },
            Pat::Alt(v) => {
                let w = duplicate_all(v);
                proof {
                    lemma_list_views(*v);
                    lemma_list_views(w);
                }
                Pat::Alt(w)
            },
            Pat::Rev(p) => Pat::Rev(Box::new(p.duplicate())),
            Pat::Rot(n, p) => Pat::Rot(*n, Box::new(p.duplicate())),
            Pat::Pal(p) => Pat::Pal(Box::new(p.duplicate())),
            Pat::Every(n, p, q) => Pat::Every(*n, Box::new(p.duplicate()), Box::new(q.duplicate())),
            Pat::Fast(n, p) => Pat::Fast(*n, Box::new(p.duplicate())),
            Pat::Slow(n, p) => Pat::Slow(*n, Box::new(p.duplicate())),
            Pat::Euclid(k, n, r, s) => Pat::Euclid(*k, *n, *r, String::from_str(s.as_str())),
            Pat::Atom(s) => Pat::Atom(String::from_str(s.as_str())),
            Pat::Rest => Pat::Rest,
        }
    }
}

impl Clone for Pat {
    fn clone(&self) -> (r: Self)
        ensures
            r@ == self@,
    {
        self.duplicate()
    }
}

} // verus!
