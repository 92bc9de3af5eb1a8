//! Collecting patterns before the automaton is built.

use vstd::prelude::*;
use crate::automaton::Automaton;

verus! {

/// An ordered list of patterns, to be made into an [`Automaton`].
#[derive(Clone, Debug)]
pub struct Builder {
    pats: Vec<String>,
}

impl View for Builder {
    type V = Seq<Seq<char>>;

    /// The patterns added so far, in the order in which they were added.
    closed spec fn view(&self) -> Seq<Seq<char>> {
        self.pats.deep_view()
    }
}

impl Builder {
    /// A builder with no patterns.
    pub fn new() -> (b: Builder)
        ensures
            b@ == Seq::<Seq<char>>::empty(),
    {
        let b = Builder { pats: Vec::new() };
        assert(b@ =~= Seq::<Seq<char>>::empty());
        b
    }

    /// Adds as the next pattern the string that `s` converts into. Its
    /// identifier is the number of patterns added before it.
    pub fn add<S: Into<String>>(self, s: S) -> (b: Builder)
        ensures
            exists|p: String|
                call_ensures(<S as Into<String>>::into, (s,), p) && b@ == self@.push(p@),
    {
        let mut b = self;
        let p: String = s.into();
        b.pats.push(p);
        assert(b@ =~= self@.push(p@));
        b
    }

    /// The automaton of the patterns added so far.
    pub fn build(self) -> (a: Automaton)
        ensures
            a.wf(),
            a.patterns() == self@,
    {
        Automaton::new(self.pats)
    }
}

/// `String::from` on a string slice. Trusted: the new string holds the
/// characters of the slice.
pub assume_specification<'a>[ <String as From<&'a str>>::from ](s: &str) -> (r: String)
    ensures
        r@ == s@,
;

/// `From::from` of a type on itself, the conversion that every type has.
/// Trusted: it hands its argument back.
pub assume_specification<T>[ <T as From<T>>::from ](t: T) -> (r: T)
    ensures
        r == t,
;

} // verus!
