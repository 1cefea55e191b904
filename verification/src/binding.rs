//! Chords of keys with a trigger mode: matching, canonical order and
//! canonical text.

use bevy::input::keyboard::KeyCode;
use bevy::input::mouse::MouseButton;
use bevy::input::Input;
use crate::device::{
    button_just_pressed, button_pressed, buttons_down, buttons_just_down, key_code_label,
    key_code_name, key_just_pressed, key_pressed, keys_down, keys_just_down, mouse_button_label,
    mouse_button_name,
};
use crate::key::{Key, Keys};
use std::cmp::Ordering;
use vstd::prelude::*;
use vstd::seq_lib::{to_multiset_build, to_multiset_insert};

verus! {

/// A chord and the way it triggers: `Pressed` while every key is held,
/// `JustPressed` on the tick on which every key went down.
#[derive(Debug)]
pub enum Binding {
    Pressed(Keys),
    JustPressed(Keys),
}

/// A sequence of keys is in canonical order: no key comes after a later one.
pub open spec fn in_order(chord: Seq<Key>) -> bool {
    forall|i: int, j: int|
        0 <= i < j < chord.len() ==> (#[trigger] chord[i]).not_after(#[trigger] chord[j])
}

/// The keys of a chord that have a given rank, in the order in which they
/// stand in the chord.
pub open spec fn of_rank(chord: Seq<Key>, rank: (int, int)) -> Seq<Key>
    decreases chord.len(),
{
    if chord.len() == 0 {
        Seq::empty()
    } else if chord.last().rank() == rank {
        of_rank(chord.drop_last(), rank).push(chord.last())
    } else {
        of_rank(chord.drop_last(), rank)
    }
}

/// `sorted` is `given` put in canonical order: it is in order, holds the
/// same keys, each as often, and keys of one rank stand in it as they stood
/// in `given`.
pub open spec fn canonical_of(sorted: Seq<Key>, given: Seq<Key>) -> bool {
    &&& in_order(sorted)
    &&& sorted.len() == given.len()
    &&& sorted.to_multiset() == given.to_multiset()
    &&& forall|rank: (int, int)| #[trigger] of_rank(sorted, rank) == of_rank(given, rank)
}

/// Putting a key into a chord in front of keys of other ranks only adds it,
/// at the end, to the keys of its own rank.
proof fn lemma_of_rank_insert(chord: Seq<Key>, at: int, key: Key, rank: (int, int))
    requires
        0 <= at <= chord.len(),
        forall|k: int| at <= k < chord.len() ==> (#[trigger] chord[k]).rank() != key.rank(),
    ensures
        of_rank(chord.insert(at, key), rank) == if key.rank() == rank {
            of_rank(chord, rank).push(key)
        } else {
            of_rank(chord, rank)
        },
    decreases chord.len() - at,
{
    let grown = chord.insert(at, key);
    if at == chord.len() {
        assert(grown.drop_last() =~= chord);
    } else {
        assert(grown.drop_last() =~= chord.drop_last().insert(at, key));
        assert(grown.last() == chord.last());
        assert(chord.last() == chord[chord.len() - 1]);
        lemma_of_rank_insert(chord.drop_last(), at, key, rank);
    }
}

/// Whether one key satisfies a trigger mode in the given device snapshots.
pub open spec fn key_active(
    key: Key,
    just: bool,
    keys: Input<KeyCode>,
    mouse: Input<MouseButton>,
) -> bool {
    match key {
        Key::Mouse(button) => if just {
            buttons_just_down(mouse).contains(button)
        } else {
            buttons_down(mouse).contains(button)
        },
        Key::Board(code) => if just {
            keys_just_down(keys).contains(code)
        } else {
            keys_down(keys).contains(code)
        },
    }
}

/// The text of one key: `m:` or `b:`, the name of its variant, and `|`.
pub open spec fn key_token(key: Key) -> Seq<char> {
    match key {
        Key::Mouse(_) => seq!['m', ':'] + mouse_button_name(key.index()) + seq!['|'],
        Key::Board(_) => seq!['b', ':'] + key_code_name(key.index()) + seq!['|'],
    }
}

/// The tokens of a sequence of keys, one after the other.
pub open spec fn chord_text(chord: Seq<Key>) -> Seq<char>
    decreases chord.len(),
{
    if chord.len() == 0 {
        Seq::empty()
    } else {
        chord_text(chord.drop_last()) + key_token(chord.last())
    }
}

/// Returns the keys in canonical order. Keys of the same rank keep the
/// order in which they came, as in a stable sort.
pub fn sorted_keys(keys: &Keys) -> (out: Keys)
    ensures
        canonical_of(out@, keys@),
{
    let mut out: Vec<Key> = Vec::new();
    let mut i: usize = 0;
    assert(keys@.take(0) =~= Seq::<Key>::empty());
    while i < keys.len()
        invariant
            i <= keys.len(),
            out@.len() == i,
            in_order(out@),
            out@.to_multiset() == keys@.take(i as int).to_multiset(),
            forall|rank: (int, int)| #[trigger]
                of_rank(out@, rank) == of_rank(keys@.take(i as int), rank),
        decreases keys.len() - i,
    {
        let key = keys[i];
        let mut at: usize = out.len();
        while at > 0 && comes_before(&key, &out[at - 1])
            invariant
                at <= out.len(),
                forall|k: int| at <= k < out.len() ==> key.before(#[trigger] out@[k]),
            decreases at,
        {
            at -= 1;
        }
        proof {
            let before = out@;
            let after = before.insert(at as int, key);
            assert forall|a: int, b: int| 0 <= a < b < after.len() implies (#[trigger] after[a])
                .not_after(#[trigger] after[b]) by {
                let from_a: int = if a < at { a } else { a - 1 };
                let from_b: int = if b < at { b } else { b - 1 };
                if a != at && b != at {
                    assert(before[from_a].not_after(before[from_b]));
                } else if b == at && at > 0 {
                    assert(before[from_a].not_after(before[at - 1]));
                }
            }
            to_multiset_insert(before, at as int, key);
            to_multiset_build(keys@.take(i as int), key);
            assert(keys@.take(i + 1) =~= keys@.take(i as int).push(key));
            assert(keys@.take(i + 1).drop_last() =~= keys@.take(i as int));
            assert forall|rank: (int, int)| #[trigger]
                of_rank(after, rank) == of_rank(keys@.take(i + 1), rank) by {
                lemma_of_rank_insert(before, at as int, key, rank);
            }
        }
        out.insert(at, key);
        i += 1;
    }
    assert(keys@.take(keys@.len() as int) =~= keys@);
    out
}

/// Whether `left` comes strictly before `right` in the canonical order.
fn comes_before(left: &Key, right: &Key) -> (less: bool)
    ensures
        less == left.before(*right),
{
    match left.compare(right) {
        Ordering::Less => true,
        _ => false,
    }
}

/// Copies a chord key by key.
fn copy_keys(keys: &Keys) -> (out: Keys)
    ensures
        out@ == keys@,
{
    let mut out: Vec<Key> = Vec::new();
    let mut i: usize = 0;
    while i < keys.len()
        invariant
            i <= keys.len(),
            out@ == keys@.take(i as int),
        decreases keys.len() - i,
    {
        out.push(keys[i]);
        assert(keys@.take(i + 1) =~= keys@.take(i as int).push(keys@[i as int]));
        i += 1;
    }
    assert(keys@.take(keys@.len() as int) =~= keys@);
    out
}

impl Binding {
    /// The keys of the binding, in the order in which they are stored.
    pub open spec fn chord(self) -> Seq<Key> {
        match self {
            Binding::Pressed(keys) => keys@,
            Binding::JustPressed(keys) => keys@,
        }
    }

    /// Whether the binding triggers only on the tick of the press.
    pub open spec fn just(self) -> bool {
        self is JustPressed
    }

    /// Whether the chord is in canonical order.
    pub open spec fn sorted(self) -> bool {
        in_order(self.chord())
    }

    /// Whether every key of the chord satisfies the binding's mode in the
    /// given snapshots. An empty chord matches.
    pub open spec fn matches(self, keys: Input<KeyCode>, mouse: Input<MouseButton>) -> bool {
        forall|i: int|
            0 <= i < self.chord().len() ==> key_active(
                #[trigger] self.chord()[i],
                self.just(),
                keys,
                mouse,
            )
    }

    /// The canonical text of the binding: the tokens of its chord as it is
    /// stored. The mode is not part of it.
    pub open spec fn text(self) -> Seq<char> {
        chord_text(self.chord())
    }

    /// A binding that triggers while every key of `input` is held. The chord
    /// is kept as given.
    pub fn new(input: Vec<Key>) -> (binding: Self)
        ensures
            binding == Binding::Pressed(input),
    {
        Self::Pressed(input)
    }

    /// A binding that triggers on the tick on which every key of `input`
    /// went down. The chord is kept as given.
    pub fn just_pressed(input: Vec<Key>) -> (binding: Self)
        ensures
            binding == Binding::JustPressed(input),
    {
        Self::JustPressed(input)
    }

    /// Puts the chord in canonical order: the same keys, each as often as
    /// before, keys of one rank in the order in which they stood; the mode
    /// stays.
    pub fn sort(&mut self)
        ensures
            canonical_of(final(self).chord(), old(self).chord()),
            final(self).just() == old(self).just(),
    {
        let sorted = match self {
            Self::Pressed(keys) => Self::Pressed(sorted_keys(keys)),
            Self::JustPressed(keys) => Self::JustPressed(sorted_keys(keys)),
        };
        *self = sorted;
    }

    /// Whether the binding matches the given snapshots of the two devices.
    pub fn check(&self, keys: &Input<KeyCode>, mouse: &Input<MouseButton>) -> (hit: bool)
        ensures
            hit == self.matches(*keys, *mouse),
    {
        let chord = self.keys();
        let just = match self {
            Self::Pressed(_) => false,
            Self::JustPressed(_) => true,
        };
        let mut i: usize = 0;
        while i < chord.len()
            invariant
                i <= chord.len(),
                chord@ == self.chord(),
                just == self.just(),
                forall|k: int| 0 <= k < i ==> key_active(#[trigger] chord@[k], just, *keys, *mouse),
            decreases chord.len() - i,
        {
            let down = match chord[i] {
                Key::Mouse(button) => if just {
                    button_just_pressed(mouse, button)
                } else {
                    button_pressed(mouse, button)
                },
                Key::Board(code) => if just {
                    key_just_pressed(keys, code)
                } else {
                    key_pressed(keys, code)
                },
            };
            if !down {
                assert(!key_active(self.chord()[i as int], self.just(), *keys, *mouse));
                return false;
            }
            i += 1;
        }
        true
    }

    /// The keys of the binding.
    pub fn keys(&self) -> (keys: &Keys)
        ensures
            keys@ == self.chord(),
    {
        match self {
            Self::JustPressed(keys) => keys,
            Self::Pressed(keys) => keys,
        }
    }

    /// The canonical text of the binding, one token per key in the order in
    /// which the chord is stored.
    pub fn to_string(&self) -> (text: String)
        ensures
            text@ == self.text(),
    {
        let chord = self.keys();
        let mut out = String::new();
        let mut i: usize = 0;
        assert(chord@.take(0) =~= Seq::<Key>::empty());
        while i < chord.len()
            invariant
                i <= chord.len(),
                out@ == chord_text(chord@.take(i as int)),
            decreases chord.len() - i,
        {
            proof {
                reveal_strlit("m:");
                reveal_strlit("b:");
                reveal_strlit("|");
                assert(chord@.take(i + 1).drop_last() =~= chord@.take(i as int));
                assert(chord@.take(i + 1).last() == chord@[i as int]);
            }
            let ghost start = out@;
            match chord[i] {
                Key::Mouse(button) => {
                    let name = mouse_button_label(button);
                    out.append("m:");
                    out.append(name.as_str());
                    out.append("|");
                    assert(out@ =~= start + key_token(chord@[i as int]));
                },
                Key::Board(code) => {
                    let name = key_code_label(code);
                    out.append("b:");
                    out.append(name.as_str());
                    out.append("|");
                    assert(out@ =~= start + key_token(chord@[i as int]));
                },
            }
            i += 1;
        }
        assert(chord@.take(chord@.len() as int) =~= chord@);
        out
    }
}

impl Clone for Binding {
    fn clone(&self) -> (copy: Self)
        ensures
            copy.chord() == self.chord(),
            copy.just() == self.just(),
    {
        match self {
            Self::Pressed(keys) => Self::Pressed(copy_keys(keys)),
            Self::JustPressed(keys) => Self::JustPressed(copy_keys(keys)),
        }
    }
}

impl Default for Binding {
    fn default() -> (binding: Self)
        ensures
            binding.chord() == Seq::<Key>::empty(),
            !binding.just(),
    {
        Binding::Pressed(Vec::new())
    }
}

} // verus!
