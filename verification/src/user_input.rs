//! The registry: the registered `(name, binding)` entries and the names that
//! are active after the last update.

use bevy::input::keyboard::KeyCode;
use bevy::input::mouse::MouseButton;
use bevy::input::Input;
use crate::binding::{canonical_of, Binding};
use crate::bindings::{paired, paired_len, Bindings};
use crate::canon::{lemma_matches_ignores_order, lemma_sorted_bindings_same_text};
use crate::name_set::{names_held, NameSet};
use vstd::prelude::*;

verus! {

/// The registered entries, in the order of registration, and the set of the
/// action names whose binding matched on the last update.
pub struct UserInput {
    bindings: Vec<(String, Binding)>,
    action_state: NameSet,
}

/// An entry carries `name` and its binding matches the snapshots.
pub open spec fn entry_hit(
    entry: (String, Binding),
    name: Seq<char>,
    keys: Input<KeyCode>,
    mouse: Input<MouseButton>,
) -> bool {
    entry.0@ == name && entry.1.matches(keys, mouse)
}

/// The names that are active on the given snapshots: those of the entries
/// whose binding matches.
pub open spec fn active_names(
    entries: Seq<(String, Binding)>,
    keys: Input<KeyCode>,
    mouse: Input<MouseButton>,
) -> Set<Seq<char>> {
    Set::new(
        |name: Seq<char>|
            exists|i: int|
                0 <= i < entries.len() && entry_hit(#[trigger] entries[i], name, keys, mouse),
    )
}

/// `stored` is what registering `given` under `name` leaves in the registry:
/// the name, and the binding with its chord in canonical order.
pub open spec fn stores(stored: (String, Binding), name: Seq<char>, given: Binding) -> bool {
    &&& stored.0@ == name
    &&& canonical_of(stored.1.chord(), given.chord())
    &&& stored.1.just() == given.just()
}

/// `after` is `before` with the named bindings of a scheme registered: the
/// entries of `before` in place, then one entry for each position that both
/// `names` and `given` have, holding that name and that binding with its
/// chord in canonical order.
pub open spec fn appended(
    before: Seq<(String, Binding)>,
    after: Seq<(String, Binding)>,
    names: Seq<String>,
    given: Seq<Binding>,
) -> bool {
    &&& after.len() == before.len() + paired_len(names.len(), given.len())
    &&& after.take(before.len() as int) == before
    &&& forall|k: int|
        0 <= k < paired_len(names.len(), given.len()) ==> stores(
            #[trigger] after[before.len() + k],
            names[k]@,
            given[k],
        )
}

/// No entry before position `at` has the canonical text of the entry at `at`.
pub open spec fn first_seen(entries: Seq<(String, Binding)>, at: int) -> bool {
    forall|j: int| 0 <= j < at ==> (#[trigger] entries[j]).1.text() != entries[at].1.text()
}

/// The diagnostic of a list of entries: name and canonical text of each
/// entry whose text no earlier entry has, in the order of the entries.
pub open spec fn problems(entries: Seq<(String, Binding)>) -> Seq<(Seq<char>, Seq<char>)>
    decreases entries.len(),
{
    if entries.len() == 0 {
        Seq::empty()
    } else {
        let rest = problems(entries.drop_last());
        if first_seen(entries, entries.len() - 1) {
            rest.push((entries.last().0@, entries.last().1.text()))
        } else {
            rest
        }
    }
}

/// The lines of a diagnostic as plain text.
pub open spec fn report_text(lines: Seq<(String, String)>) -> Seq<(Seq<char>, Seq<char>)> {
    lines.map_values(|line: (String, String)| (line.0@, line.1@))
}

impl UserInput {
    /// The registered entries, in the order of registration.
    pub closed spec fn entries(self) -> Seq<(String, Binding)> {
        self.bindings@
    }

    /// The names that are active.
    pub closed spec fn active(self) -> Set<Seq<char>> {
        names_held(self.action_state)
    }

    /// Every registered chord is in canonical order.
    pub open spec fn wf(self) -> bool {
        forall|i: int| 0 <= i < self.entries().len() ==> (#[trigger] self.entries()[i]).1.sorted()
    }

    /// A registry with no entry and no active name.
    pub fn new() -> (registry: Self)
        ensures
            registry.entries() == Seq::<(String, Binding)>::empty(),
            registry.active() == Set::<Seq<char>>::empty(),
            registry.wf(),
    {
        UserInput { bindings: Vec::new(), action_state: NameSet::new() }
    }

    /// Recomputes the active names from the snapshots of this tick: exactly
    /// the names of the entries whose binding matches. What was active
    /// before plays no part.
    pub fn update(&mut self, keys: &Input<KeyCode>, mouse: &Input<MouseButton>)
        ensures
            final(self).active() == active_names(old(self).entries(), *keys, *mouse),
            final(self).entries() == old(self).entries(),
    {
        let mut active = NameSet::new();
        let mut i: usize = 0;
        while i < self.bindings.len()
            invariant
                i <= self.bindings@.len(),
                *self == *old(self),
                names_held(active) == active_names(self.bindings@.take(i as int), *keys, *mouse),
            decreases self.bindings@.len() - i,
        {
            let entry = &self.bindings[i];
            let ghost before = self.bindings@.take(i as int);
            let ghost after = self.bindings@.take(i + 1);
            let ghost held = names_held(active);
            let hit = entry.1.check(keys, mouse);
            if hit {
                active.insert(entry.0.clone());
            }
            proof {
                let grown = if hit {
                    held.insert(entry.0@)
                } else {
                    held
                };
                assert forall|name: Seq<char>| grown.contains(name) == active_names(
                    after,
                    *keys,
                    *mouse,
                ).contains(name) by {
                    if grown.contains(name) {
                        if held.contains(name) {
                            let j = choose|j: int|
                                0 <= j < before.len() && entry_hit(
                                    #[trigger] before[j],
                                    name,
                                    *keys,
                                    *mouse,
                                );
                            assert(entry_hit(after[j], name, *keys, *mouse));
                        } else {
                            assert(entry_hit(after[i as int], name, *keys, *mouse));
                        }
                    }
                    if active_names(after, *keys, *mouse).contains(name) {
                        let j = choose|j: int|
                            0 <= j < after.len() && entry_hit(
                                #[trigger] after[j],
                                name,
                                *keys,
                                *mouse,
                            );
                        if j < i {
                            assert(entry_hit(before[j], name, *keys, *mouse));
                        }
                    }
                }
                assert(names_held(active) =~= active_names(after, *keys, *mouse));
            }
            i += 1;
        }
        assert(self.bindings@.take(self.bindings@.len() as int) =~= self.bindings@);
        self.action_state = active;
    }

    /// Registers one binding under a name: its chord is put in canonical
    /// order and the entry is appended. Names and bindings may repeat.
    pub fn add_binding(&mut self, name: &str, binding: Binding)
        ensures
            final(self).entries().len() == old(self).entries().len() + 1,
            final(self).entries().drop_last() == old(self).entries(),
            stores(final(self).entries().last(), name@, binding),
            final(self).active() == old(self).active(),
            old(self).wf() ==> final(self).wf(),
    {
        let mut binding = binding;
        let name = name.to_owned();
        binding.sort();
        self.bindings.push((name, binding));
        assert(self.bindings@.drop_last() =~= old(self).bindings@);
    }

    /// Registers each of the given pairs in turn, as `add_binding` does.
    pub fn add_bindings(&mut self, bindings: &[(String, Binding)])
        ensures
            final(self).entries().len() == old(self).entries().len() + bindings@.len(),
            final(self).entries().take(old(self).entries().len() as int) == old(self).entries(),
            forall|k: int|
                0 <= k < bindings@.len() ==> stores(
                    #[trigger] final(self).entries()[old(self).entries().len() + k],
                    bindings@[k].0@,
                    bindings@[k].1,
                ),
            final(self).active() == old(self).active(),
            old(self).wf() ==> final(self).wf(),
    {
        let ghost start = self.bindings@;
        let mut i: usize = 0;
        assert(self.bindings@.take(start.len() as int) =~= start);
        while i < bindings.len()
            invariant
                i <= bindings@.len(),
                start == old(self).bindings@,
                self.bindings@.len() == start.len() + i,
                self.bindings@.take(start.len() as int) == start,
                forall|k: int|
                    0 <= k < i ==> stores(
                        #[trigger] self.bindings@[start.len() + k],
                        bindings@[k].0@,
                        bindings@[k].1,
                    ),
                self.active() == old(self).active(),
                old(self).wf() ==> self.wf(),
            decreases bindings@.len() - i,
        {
            let ghost before = self.bindings@;
            let pair = &bindings[i];
            let copy = pair.1.clone();
            self.add_binding(pair.0.as_str(), copy);
            proof {
                assert(self.bindings@.drop_last() == before);
                assert forall|k: int| 0 <= k < before.len() implies self.bindings@[k]
                    == before[k] by {
                    assert(self.bindings@.drop_last()[k] == self.bindings@[k]);
                }
                assert(self.bindings@.take(start.len() as int) =~= before.take(
                    start.len() as int,
                ));
                assert(self.bindings@[start.len() + i] == self.bindings@.last());
                assert forall|k: int| 0 <= k < i implies stores(
                    #[trigger] self.bindings@[start.len() + k],
                    bindings@[k].0@,
                    bindings@[k].1,
                ) by {
                    assert(self.bindings@[start.len() + k] == before[start.len() + k]);
                }
            }
            i += 1;
        }
    }

    /// Registers the named bindings of a control scheme: for a list of
    /// names and a list of bindings that the scheme hands out, one entry for
    /// each position that both lists have, in that order, each as
    /// `add_binding` stores it. A name or a binding without a partner is
    /// left out. The entries that were there stay, in place.
    pub fn add_from_bindings<B: Bindings>(&mut self, bindings: B)
        ensures
            exists|names: Vec<String>, given: Vec<Binding>|
                call_ensures(B::binding_names, (), names) && call_ensures(
                    B::bindings,
                    (&bindings,),
                    given,
                ) && appended(old(self).entries(), final(self).entries(), names@, given@),
            final(self).active() == old(self).active(),
            old(self).wf() ==> final(self).wf(),
    {
        let pairs = bindings.get_bindings();
        self.add_bindings(pairs.as_slice());
        proof {
            let (names, given) = choose|names: Vec<String>, given: Vec<Binding>|
                call_ensures(B::binding_names, (), names) && call_ensures(
                    B::bindings,
                    (&bindings,),
                    given,
                ) && paired(pairs@, names@, given@);
            assert(appended(old(self).entries(), self.entries(), names@, given@));
        }
    }

    /// The diagnostic of the registry: for each entry whose canonical text no
    /// earlier entry has, its name and that text, in the order of
    /// registration. An entry that repeats an earlier text is left out.
    pub fn find_problems(&mut self) -> (lines: Vec<(String, String)>)
        ensures
            report_text(lines@) == problems(old(self).entries()),
            *final(self) == *old(self),
    {
        let mut seen = NameSet::new();
        let mut lines: Vec<(String, String)> = Vec::new();
        let mut i: usize = 0;
        assert(self.bindings@.take(0) =~= Seq::<(String, Binding)>::empty());
        assert(report_text(lines@) =~= Seq::<(Seq<char>, Seq<char>)>::empty());
        while i < self.bindings.len()
            invariant
                i <= self.bindings@.len(),
                *self == *old(self),
                report_text(lines@) == problems(self.bindings@.take(i as int)),
                forall|text: Seq<char>|
                    names_held(seen).contains(text) <==> exists|j: int|
                        0 <= j < i && (#[trigger] self.bindings@[j]).1.text() == text,
            decreases self.bindings@.len() - i,
        {
            let entry = &self.bindings[i];
            let text = entry.1.to_string();
            let ghost after = self.bindings@.take(i + 1);
            let ghost so_far = lines@;
            proof {
                assert(after.drop_last() =~= self.bindings@.take(i as int));
                assert(after.last() == self.bindings@[i as int]);
                if first_seen(after, i as int) {
                    if names_held(seen).contains(text@) {
                        let j = choose|j: int|
                            0 <= j < i && (#[trigger] self.bindings@[j]).1.text() == text@;
                        assert(after[j].1.text() == text@);
                    }
                } else {
                    let j = choose|j: int|
                        0 <= j < i && (#[trigger] after[j]).1.text() == after[i as int].1.text();
                    assert(self.bindings@[j].1.text() == text@);
                }
                assert(first_seen(after, i as int) == !names_held(seen).contains(text@));
            }
            let ghost held = names_held(seen);
            if seen.insert(text.clone()) {
                lines.push((entry.0.clone(), text));
                assert(report_text(lines@) =~= report_text(so_far).push((entry.0@, text@)));
            }
            proof {
                assert forall|t: Seq<char>| names_held(seen).contains(t) <==> exists|j: int|
                    0 <= j < i + 1 && (#[trigger] self.bindings@[j]).1.text() == t by {
                    if names_held(seen).contains(t) {
                        if held.contains(t) {
                            let j = choose|j: int|
                                0 <= j < i && (#[trigger] self.bindings@[j]).1.text() == t;
                            assert(0 <= j < i + 1 && self.bindings@[j].1.text() == t);
                        } else {
                            assert(self.bindings@[i as int].1.text() == t);
                        }
                    }
                    if exists|j: int|
                        0 <= j < i + 1 && (#[trigger] self.bindings@[j]).1.text() == t {
                        let j = choose|j: int|
                            0 <= j < i + 1 && (#[trigger] self.bindings@[j]).1.text() == t;
                        if j < i {
                            assert(held.contains(t));
                        }
                    }
                }
            }
            i += 1;
        }
        assert(self.bindings@.take(self.bindings@.len() as int) =~= self.bindings@);
        lines
    }

    /// Whether the action of that name is active.
    pub fn check(&self, name: &str) -> (active: bool)
        ensures
            active == self.active().contains(name@),
    {
        self.action_state.contains(name)
    }
}

/// A name is active on a snapshot only through an entry of that name
/// whose binding matches on that snapshot: a name that was active on
/// one snapshot and has no matching entry on the next is not active on
/// the next.
pub proof fn lemma_active_set_replaced(
    entries: Seq<(String, Binding)>,
    first_keys: Input<KeyCode>,
    first_mouse: Input<MouseButton>,
    keys: Input<KeyCode>,
    mouse: Input<MouseButton>,
    name: Seq<char>,
)
    requires
        active_names(entries, first_keys, first_mouse).contains(name),
        forall|i: int|
            0 <= i < entries.len() && (#[trigger] entries[i]).0@ == name
                ==> !entries[i].1.matches(keys, mouse),
    ensures
        !active_names(entries, keys, mouse).contains(name),
{
    if active_names(entries, keys, mouse).contains(name) {
        let i = choose|i: int|
            0 <= i < entries.len() && entry_hit(#[trigger] entries[i], name, keys, mouse);
        assert(!entries[i].1.matches(keys, mouse));
    }
}

/// A name that several entries carry is active as soon as the binding of
/// one of them matches.
pub proof fn lemma_any_entry_activates(
    entries: Seq<(String, Binding)>,
    at: int,
    keys: Input<KeyCode>,
    mouse: Input<MouseButton>,
)
    requires
        0 <= at < entries.len(),
        entries[at].1.matches(keys, mouse),
    ensures
        active_names(entries, keys, mouse).contains(entries[at].0@),
{
    assert(entry_hit(entries[at], entries[at].0@, keys, mouse));
}

/// Registering does not change when a binding matches: what is stored
/// matches on the same snapshots as what was given.
pub proof fn lemma_stored_matches_as_given(
    stored: (String, Binding),
    name: Seq<char>,
    given: Binding,
    keys: Input<KeyCode>,
    mouse: Input<MouseButton>,
)
    requires
        stores(stored, name, given),
    ensures
        stored.1.matches(keys, mouse) == given.matches(keys, mouse),
{
    lemma_matches_ignores_order(stored.1, given, keys, mouse);
}

/// Two bindings whose chords hold the same keys, in whatever order and
/// mode, are stored with the same canonical text, so the diagnostic takes
/// the later of them for a repetition of the earlier.
pub proof fn lemma_stored_text_ignores_order(
    first: (String, Binding),
    first_name: Seq<char>,
    first_given: Binding,
    second: (String, Binding),
    second_name: Seq<char>,
    second_given: Binding,
)
    requires
        stores(first, first_name, first_given),
        stores(second, second_name, second_given),
        first_given.chord().to_multiset() == second_given.chord().to_multiset(),
    ensures
        first.1.text() == second.1.text(),
{
    lemma_sorted_bindings_same_text(first.1, second.1);
}

impl Default for UserInput {
    fn default() -> (registry: Self)
        ensures
            registry.entries() == Seq::<(String, Binding)>::empty(),
            registry.active() == Set::<Seq<char>>::empty(),
            registry.wf(),
    {
        UserInput::new()
    }
}

} // verus!
