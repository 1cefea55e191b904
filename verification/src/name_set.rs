//! The set of names that the registry keeps: a hash set of `bevy`, and what
//! is taken on trust about it.

use vstd::prelude::*;

verus! {

/// A set of names, held in a `bevy::utils::HashSet<String>`.
#[verifier::external_body]
pub struct NameSet {
    inner: bevy::utils::HashSet<String>,
}

/// The names that a set holds.
pub uninterp spec fn names_held(set: NameSet) -> Set<Seq<char>>;

impl NameSet {
    /// Makes the set with `HashSet::default`: it holds nothing.
    #[verifier::external_body]
    pub(crate) fn new() -> (set: NameSet)
        ensures
            names_held(set) == Set::<Seq<char>>::empty(),
    {
        NameSet { inner: bevy::utils::HashSet::default() }
    }

    /// Calls `HashSet::insert`: the name is in the set afterwards, nothing
    /// else changes, and the answer is whether it was new.
    #[verifier::external_body]
    pub(crate) fn insert(&mut self, name: String) -> (fresh: bool)
        ensures
            names_held(*final(self)) == names_held(*old(self)).insert(name@),
            fresh == !names_held(*old(self)).contains(name@),
    {
        self.inner.insert(name)
    }

    /// Calls `HashSet::contains`: whether the name is in the set.
    #[verifier::external_body]
    pub(crate) fn contains(&self, name: &str) -> (held: bool)
        ensures
            held == names_held(*self).contains(name@),
    {
        self.inner.contains(name)
    }
}

} // verus!
