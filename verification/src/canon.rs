//! Laws of the canonical order: a chord in canonical order is fixed, up to
//! keys of the same rank, by the keys it holds, and so is its text.

use bevy::input::keyboard::KeyCode;
use bevy::input::mouse::MouseButton;
use bevy::input::Input;
use crate::binding::{canonical_of, chord_text, in_order, key_active, key_token, of_rank, Binding};
use crate::key::{rank_not_after, Key};
use vstd::prelude::*;
use vstd::relations::{sorted_by, total_ordering};
use vstd::seq_lib::{
    lemma_sorted_unique, to_multiset_build, to_multiset_contains, to_multiset_insert,
    to_multiset_len, to_multiset_remove,
};

verus! {

/// The ranks of the keys of a chord, position by position.
pub open spec fn ranks(chord: Seq<Key>) -> Seq<(int, int)> {
    chord.map_values(|key: Key| key.rank())
}

/// Two chords that hold the same keys, each as often, hold the same ranks,
/// each as often.
pub proof fn lemma_same_keys_same_ranks(a: Seq<Key>, b: Seq<Key>)
    requires
        a.to_multiset() == b.to_multiset(),
    ensures
        ranks(a).to_multiset() == ranks(b).to_multiset(),
        a.len() == b.len(),
    decreases a.len(),
{
    to_multiset_len(a);
    to_multiset_len(b);
    if a.len() == 0 {
        assert(ranks(a) =~= ranks(b));
    } else {
        // Take the last key of `a` out of both chords and put its rank back.
        let key = a.last();
        let a_rest = a.drop_last();
        assert(a_rest.push(key) =~= a);
        to_multiset_build(a_rest, key);
        assert(a.contains(key));
        to_multiset_contains(a, key);
        to_multiset_contains(b, key);
        let at = choose|at: int| 0 <= at < b.len() && b[at] == key;
        let b_rest = b.remove(at);
        to_multiset_remove(b, at);
        assert(a_rest.to_multiset() =~= b_rest.to_multiset());
        lemma_same_keys_same_ranks(a_rest, b_rest);
        assert(ranks(a) =~= ranks(a_rest).push(key.rank()));
        assert(ranks(b) =~= ranks(b_rest).insert(at, key.rank()));
        to_multiset_build(ranks(a_rest), key.rank());
        to_multiset_insert(ranks(b_rest), at, key.rank());
    }
}

/// The text of a chord depends only on the ranks of its keys.
pub proof fn lemma_text_from_ranks(a: Seq<Key>, b: Seq<Key>)
    requires
        ranks(a) == ranks(b),
    ensures
        chord_text(a) == chord_text(b),
    decreases a.len(),
{
    assert(a.len() == ranks(a).len());
    assert(b.len() == ranks(b).len());
    if a.len() > 0 {
        assert(ranks(a.drop_last()) =~= ranks(a).drop_last());
        assert(ranks(b.drop_last()) =~= ranks(b).drop_last());
        lemma_text_from_ranks(a.drop_last(), b.drop_last());
        assert(a.last().rank() == ranks(a).last());
        assert(b.last().rank() == ranks(b).last());
        assert(key_token(a.last()) == key_token(b.last()));
    }
}

/// Two chords in canonical order that hold the same keys, each as often,
/// have the same ranks at every position and the same text: the order in
/// which the keys were given leaves no trace.
pub proof fn lemma_canonical_text_unique(a: Seq<Key>, b: Seq<Key>)
    requires
        in_order(a),
        in_order(b),
        a.to_multiset() == b.to_multiset(),
    ensures
        ranks(a) == ranks(b),
        chord_text(a) == chord_text(b),
{
    let leq = |x: (int, int), y: (int, int)| rank_not_after(x, y);
    lemma_same_keys_same_ranks(a, b);
    assert(sorted_by(ranks(a), leq)) by {
        assert forall|i: int, j: int| 0 <= i < j < ranks(a).len() implies #[trigger] leq(
            ranks(a)[i],
            ranks(a)[j],
        ) by {
            assert(a[i].not_after(a[j]));
        }
    }
    assert(sorted_by(ranks(b), leq)) by {
        assert forall|i: int, j: int| 0 <= i < j < ranks(b).len() implies #[trigger] leq(
            ranks(b)[i],
            ranks(b)[j],
        ) by {
            assert(b[i].not_after(b[j]));
        }
    }
    assert(total_ordering(leq));
    lemma_sorted_unique(ranks(a), ranks(b), leq);
    lemma_text_from_ranks(a, b);
}

/// How many keys of a rank a chord holds depends only on the ranks of its
/// keys.
proof fn lemma_of_rank_len(a: Seq<Key>, b: Seq<Key>, rank: (int, int))
    requires
        ranks(a) == ranks(b),
    ensures
        of_rank(a, rank).len() == of_rank(b, rank).len(),
    decreases a.len(),
{
    assert(a.len() == ranks(a).len());
    assert(b.len() == ranks(b).len());
    if a.len() > 0 {
        assert(ranks(a.drop_last()) =~= ranks(a).drop_last());
        assert(ranks(b.drop_last()) =~= ranks(b).drop_last());
        assert(a.last().rank() == ranks(a).last());
        assert(b.last().rank() == ranks(b).last());
        lemma_of_rank_len(a.drop_last(), b.drop_last(), rank);
    }
}

/// The key at a position is found again among the keys of its rank, behind
/// as many of them as precede it in the chord.
proof fn lemma_of_rank_index(chord: Seq<Key>, at: int)
    requires
        0 <= at < chord.len(),
    ensures
        of_rank(chord.take(at), chord[at].rank()).len() < of_rank(
            chord,
            chord[at].rank(),
        ).len(),
        of_rank(chord, chord[at].rank())[of_rank(chord.take(at), chord[at].rank()).len() as int]
            == chord[at],
    decreases chord.len(),
{
    if at == chord.len() - 1 {
        assert(chord.take(at) =~= chord.drop_last());
    } else {
        assert(chord.drop_last().take(at) =~= chord.take(at));
        lemma_of_rank_index(chord.drop_last(), at);
    }
}

/// The canonical order of a chord is one sequence and no other: whatever
/// meets `canonical_of` for the same chord is the same, key by key.
pub proof fn lemma_canonical_unique(a: Seq<Key>, b: Seq<Key>, given: Seq<Key>)
    requires
        canonical_of(a, given),
        canonical_of(b, given),
    ensures
        a == b,
{
    lemma_canonical_text_unique(a, b);
    assert forall|i: int| 0 <= i < a.len() implies a[i] == b[i] by {
        let rank = a[i].rank();
        assert(ranks(a)[i] == rank);
        assert(ranks(b)[i] == b[i].rank());
        assert(ranks(a.take(i)) =~= ranks(a).take(i));
        assert(ranks(b.take(i)) =~= ranks(b).take(i));
        lemma_of_rank_len(a.take(i), b.take(i), rank);
        lemma_of_rank_index(a, i);
        lemma_of_rank_index(b, i);
        assert(of_rank(a, rank) == of_rank(given, rank));
        assert(of_rank(b, rank) == of_rank(given, rank));
    }
    assert(a =~= b);
}

/// Putting a chord that is in canonical order into canonical order changes
/// nothing.
pub proof fn lemma_canonical_idempotent(sorted: Seq<Key>, again: Seq<Key>)
    requires
        in_order(sorted),
        canonical_of(again, sorted),
    ensures
        again == sorted,
{
    lemma_canonical_unique(again, sorted, sorted);
}

/// Sorting makes the text independent of the order of the keys: two
/// bindings whose chords hold the same keys have, once both are in canonical
/// order, the same text, whatever their modes.
pub proof fn lemma_sorted_bindings_same_text(a: Binding, b: Binding)
    requires
        a.sorted(),
        b.sorted(),
        a.chord().to_multiset() == b.chord().to_multiset(),
    ensures
        a.text() == b.text(),
{
    lemma_canonical_text_unique(a.chord(), b.chord());
}

/// Whether a binding matches does not depend on the order of its chord:
/// two bindings of one mode whose chords hold the same keys match on the
/// same snapshots.
pub proof fn lemma_matches_ignores_order(
    a: Binding,
    b: Binding,
    keys: Input<KeyCode>,
    mouse: Input<MouseButton>,
)
    requires
        a.chord().to_multiset() == b.chord().to_multiset(),
        a.just() == b.just(),
    ensures
        a.matches(keys, mouse) == b.matches(keys, mouse),
{
    lemma_covered(a.chord(), b.chord());
    lemma_covered(b.chord(), a.chord());
    if a.matches(keys, mouse) {
        assert forall|i: int| 0 <= i < b.chord().len() implies key_active(
            #[trigger] b.chord()[i],
            b.just(),
            keys,
            mouse,
        ) by {
            assert(a.chord().contains(b.chord()[i]));
            let j = choose|j: int| 0 <= j < a.chord().len() && a.chord()[j] == b.chord()[i];
            assert(key_active(a.chord()[j], a.just(), keys, mouse));
        }
    }
    if b.matches(keys, mouse) {
        assert forall|i: int| 0 <= i < a.chord().len() implies key_active(
            #[trigger] a.chord()[i],
            a.just(),
            keys,
            mouse,
        ) by {
            assert(b.chord().contains(a.chord()[i]));
            let j = choose|j: int| 0 <= j < b.chord().len() && b.chord()[j] == a.chord()[i];
            assert(key_active(b.chord()[j], b.just(), keys, mouse));
        }
    }
}

/// Every key of `a` stands somewhere in `b`, where both hold the same keys.
proof fn lemma_covered(a: Seq<Key>, b: Seq<Key>)
    requires
        a.to_multiset() == b.to_multiset(),
    ensures
        forall|i: int| 0 <= i < a.len() ==> b.contains(#[trigger] a[i]),
{
    assert forall|i: int| 0 <= i < a.len() implies b.contains(#[trigger] a[i]) by {
        assert(a.contains(a[i]));
        to_multiset_contains(a, a[i]);
        to_multiset_contains(b, a[i]);
    }
}

/// A binding with an empty chord matches every snapshot, in either mode.
pub proof fn lemma_empty_chord_matches(
    binding: Binding,
    keys: Input<KeyCode>,
    mouse: Input<MouseButton>,
)
    requires
        binding.chord().len() == 0,
    ensures
        binding.matches(keys, mouse),
{
}

} // verus!
