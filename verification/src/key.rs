//! Keys of the two devices and their canonical order.

use bevy::input::keyboard::KeyCode;
use bevy::input::mouse::MouseButton;
use crate::device::{key_code_index, key_code_position, mouse_button_index, mouse_button_position};
use std::cmp::Ordering;
use vstd::prelude::*;

verus! {

/// The device a key belongs to.
#[derive(Clone, Copy, Debug, PartialEq, Eq, Structural)]
pub enum Device {
    Keyboard,
    Mouse,
}

/// One key of a chord: a mouse button or a keyboard key.
#[derive(Clone, Copy, Debug, PartialEq, Eq)]
pub enum Key {
    Mouse(MouseButton),
    Board(KeyCode),
}

/// A mouse button ordered by the position of its variant.
#[derive(PartialEq, Eq)]
pub struct C(pub MouseButton);

impl C {
    /// The position of the button's variant.
    pub fn get_num(&self) -> (index: usize)
        ensures
            index == mouse_button_index(self.0),
    {
        mouse_button_position(self.0)
    }

    /// Compares two buttons by the positions of their variants.
    pub fn compare(&self, other: &C) -> (order: Ordering)
        ensures
            (order is Less) == (mouse_button_index(self.0) < mouse_button_index(other.0)),
            (order is Greater) == (mouse_button_index(self.0) > mouse_button_index(other.0)),
            (order is Equal) == (mouse_button_index(self.0) == mouse_button_index(other.0)),
    {
        compare_positions(self.get_num(), other.get_num())
    }
}

/// A chord as it is stored.
pub type Keys = Vec<Key>;

impl Key {
    /// Whether the key is a mouse button.
    pub open spec fn on_mouse(self) -> bool {
        self is Mouse
    }

    /// The position of the key's variant within its own device.
    pub open spec fn index(self) -> nat {
        match self {
            Key::Mouse(button) => mouse_button_index(button),
            Key::Board(code) => key_code_index(code),
        }
    }

    /// The canonical rank: the device first, every mouse button before every
    /// keyboard key, then the position within the device.
    pub open spec fn rank(self) -> (int, int) {
        (if self.on_mouse() { 0int } else { 1int }, self.index() as int)
    }

    /// `self` comes strictly before `other` in the canonical order.
    pub open spec fn before(self, other: Key) -> bool {
        ||| self.rank().0 < other.rank().0
        ||| (self.rank().0 == other.rank().0 && self.rank().1 < other.rank().1)
    }

    /// `self` does not come after `other` in the canonical order.
    pub open spec fn not_after(self, other: Key) -> bool {
        !other.before(self)
    }

    /// How `self` compares to `other` in the canonical order.
    pub open spec fn order(self, other: Key) -> Ordering {
        if self.before(other) {
            Ordering::Less
        } else if other.before(self) {
            Ordering::Greater
        } else {
            Ordering::Equal
        }
    }

    pub fn is_mouse(&self) -> (mouse: bool)
        ensures
            mouse == self.on_mouse(),
    {
        match *self {
            Key::Board(_) => false,
            Key::Mouse(_) => true,
        }
    }

    /// The device of the key, for display.
    pub fn is_device(&self) -> (device: Device)
        ensures
            device == (if self.on_mouse() { Device::Mouse } else { Device::Keyboard }),
    {
        match *self {
            Key::Board(_) => Device::Keyboard,
            Key::Mouse(_) => Device::Mouse,
        }
    }

    /// Compares two keys in the canonical order. The answer is `Equal` exactly
    /// for two keys of one device at the same position.
    pub fn compare(&self, other: &Key) -> (order: Ordering)
        ensures
            order == self.order(*other),
    {
        match *self {
            Key::Board(code) => match *other {
                Key::Board(other_code) => {
                    compare_positions(key_code_position(code), key_code_position(other_code))
                },
                Key::Mouse(_) => Ordering::Greater,
            },
            Key::Mouse(button) => match *other {
                Key::Board(_) => Ordering::Less,
                Key::Mouse(other_button) => C(button).compare(&C(other_button)),
            },
        }
    }
}

/// The order of two positions within one device.
fn compare_positions(left: usize, right: usize) -> (order: Ordering)
    ensures
        (order is Less) == (left < right),
        (order is Greater) == (left > right),
        (order is Equal) == (left == right),
{
    if left < right {
        Ordering::Less
    } else if left > right {
        Ordering::Greater
    } else {
        Ordering::Equal
    }
}

/// How two keys stand in the canonical order, as a relation on their ranks.
pub open spec fn rank_not_after(left: (int, int), right: (int, int)) -> bool {
    left.0 < right.0 || (left.0 == right.0 && left.1 <= right.1)
}

/// The order is total: any two keys compare as exactly one of `Less`,
/// `Equal` and `Greater`, `Less` where the first is before the second,
/// `Greater` where the second is before the first, and `Equal` where they
/// have the same device and the same position in it.
pub proof fn lemma_order_total(a: Key, b: Key)
    ensures
        (a.order(b) is Less) == a.before(b),
        (a.order(b) is Greater) == b.before(a),
        (a.order(b) is Equal) == (a.rank() == b.rank()),
        !(a.before(b) && b.before(a)),
        !(a.before(b) && a.rank() == b.rank()),
{
}

/// The order is antisymmetric: turning a comparison round turns its answer
/// round, a key compares `Equal` to itself, and two keys neither of which
/// is before the other have the same rank.
pub proof fn lemma_order_antisymmetric(a: Key, b: Key)
    ensures
        (a.order(b) is Less) == (b.order(a) is Greater),
        (a.order(b) is Equal) == (b.order(a) is Equal),
        a.order(a) is Equal,
        a == b ==> a.order(b) is Equal,
        a.not_after(b) && b.not_after(a) ==> a.rank() == b.rank(),
{
}

/// The order is transitive, in its strict and in its weak form, and so is
/// comparing `Equal`.
pub proof fn lemma_order_transitive(a: Key, b: Key, c: Key)
    ensures
        a.order(b) is Less && b.order(c) is Less ==> a.order(c) is Less,
        a.order(b) is Greater && b.order(c) is Greater ==> a.order(c) is Greater,
        a.order(b) is Equal && b.order(c) is Equal ==> a.order(c) is Equal,
        a.order(b) is Less && b.order(c) is Equal ==> a.order(c) is Less,
        a.order(b) is Equal && b.order(c) is Less ==> a.order(c) is Less,
        a.not_after(b) && b.not_after(c) ==> a.not_after(c),
{
}

} // verus!
