//! Control schemes: types that supply a default list of named bindings.

use crate::binding::Binding;
use vstd::prelude::*;

verus! {

/// Pairs names and bindings position by position. Where one list is longer,
/// what has no partner is left out.
pub fn pair_up(names: Vec<String>, bindings: Vec<Binding>) -> (pairs: Vec<(String, Binding)>)
    ensures
        paired(pairs@, names@, bindings@),
{
    let mut pairs: Vec<(String, Binding)> = Vec::new();
    let mut i: usize = 0;
    while i < names.len() && i < bindings.len()
        invariant
            i <= names@.len(),
            i <= bindings@.len(),
            pairs@.len() == i,
            forall|k: int|
                0 <= k < i ==> {
                    &&& (#[trigger] pairs@[k]).0@ == names@[k]@
                    &&& pairs@[k].1.chord() == bindings@[k].chord()
                    &&& pairs@[k].1.just() == bindings@[k].just()
                },
        decreases names@.len() - i,
    {
        pairs.push((names[i].clone(), bindings[i].clone()));
        i += 1;
    }
    pairs
}

/// A control scheme: the names of its actions and, for one value of the
/// scheme, the binding of each, in the same order.
pub trait Bindings: Default {
    /// The scheme's named bindings: a list of names that `binding_names`
    /// hands out and a list of bindings that `bindings` hands out for this
    /// scheme, paired position by position as far as both lists reach.
    fn get_bindings(&self) -> (pairs: Vec<(String, Binding)>)
        ensures
            exists|names: Vec<String>, bindings: Vec<Binding>|
                call_ensures(Self::binding_names, (), names) && call_ensures(
                    Self::bindings,
                    (self,),
                    bindings,
                ) && paired(pairs@, names@, bindings@),
    {
        let names = Self::binding_names();
        let bindings = self.bindings();
        pair_up(names, bindings)
    }

    /// The names of the scheme's actions.
    fn binding_names() -> Vec<String>;

    /// The bindings of the scheme's actions, in the order of the names.
    fn bindings(&self) -> Vec<Binding>;
}

/// How many pairs two lists of these lengths give: the shorter length.
pub open spec fn paired_len(names: nat, bindings: nat) -> nat {
    if names <= bindings {
        names
    } else {
        bindings
    }
}

/// `pairs` is `names` and `bindings` paired position by position: one pair
/// for each position that both lists have, with the name and with chord and
/// mode of the binding at that position, and nothing for what the longer
/// list has beyond that.
pub open spec fn paired(
    pairs: Seq<(String, Binding)>,
    names: Seq<String>,
    bindings: Seq<Binding>,
) -> bool {
    &&& pairs.len() == paired_len(names.len(), bindings.len())
    &&& forall|i: int|
        0 <= i < pairs.len() ==> {
            &&& (#[trigger] pairs[i]).0@ == names[i]@
            &&& pairs[i].1.chord() == bindings[i].chord()
            &&& pairs[i].1.just() == bindings[i].just()
        }
}

} // verus!
