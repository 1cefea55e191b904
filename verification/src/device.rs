//! The device types of `bevy` that the library works on, and what is taken on
//! trust about them.

use bevy::input::keyboard::KeyCode;
use bevy::input::mouse::MouseButton;
use bevy::input::Input;
use bevy::reflect::Enum;
use std::hash::Hash;
use vstd::prelude::*;

verus! {

/// `bevy::input::keyboard::KeyCode`, carried as an opaque value.
#[verifier::external_type_specification]
#[verifier::external_body]
pub struct ExKeyCode(KeyCode);

/// `bevy::input::mouse::MouseButton`, carried as an opaque value.
#[verifier::external_type_specification]
#[verifier::external_body]
pub struct ExMouseButton(MouseButton);

/// `bevy::input::Input`, the per-tick snapshot of one device.
#[verifier::external_type_specification]
#[verifier::external_body]
#[verifier::reject_recursive_types(T)]
pub struct ExInput<T: Copy + Eq + Hash + Send + Sync + 'static>(Input<T>);

/// The keyboard keys that a snapshot holds as pressed.
pub uninterp spec fn keys_down(keys: Input<KeyCode>) -> Set<KeyCode>;

/// The keyboard keys that a snapshot holds as pressed on this very tick.
pub uninterp spec fn keys_just_down(keys: Input<KeyCode>) -> Set<KeyCode>;

/// The mouse buttons that a snapshot holds as pressed.
pub uninterp spec fn buttons_down(mouse: Input<MouseButton>) -> Set<MouseButton>;

/// The mouse buttons that a snapshot holds as pressed on this very tick.
pub uninterp spec fn buttons_just_down(mouse: Input<MouseButton>) -> Set<MouseButton>;

/// The position of a key code's variant in the declaration of `KeyCode`.
pub uninterp spec fn key_code_index(code: KeyCode) -> nat;

/// The position of a button's variant in the declaration of `MouseButton`.
pub uninterp spec fn mouse_button_index(button: MouseButton) -> nat;

/// The name of the `KeyCode` variant that stands at a position.
pub uninterp spec fn key_code_name(index: nat) -> Seq<char>;

/// The name of the `MouseButton` variant that stands at a position.
pub uninterp spec fn mouse_button_name(index: nat) -> Seq<char>;

/// Calls `Input::pressed` on the keyboard snapshot: membership in its set of
/// pressed keys.
#[verifier::external_body]
pub(crate) fn key_pressed(keys: &Input<KeyCode>, code: KeyCode) -> (down: bool)
    ensures
        down == keys_down(*keys).contains(code),
{
    keys.pressed(code)
}

/// Calls `Input::just_pressed` on the keyboard snapshot: membership in its set
/// of keys pressed on this tick.
#[verifier::external_body]
pub(crate) fn key_just_pressed(keys: &Input<KeyCode>, code: KeyCode) -> (down: bool)
    ensures
        down == keys_just_down(*keys).contains(code),
{
    keys.just_pressed(code)
}

/// Calls `Input::pressed` on the mouse snapshot: membership in its set of
/// pressed buttons.
#[verifier::external_body]
pub(crate) fn button_pressed(mouse: &Input<MouseButton>, button: MouseButton) -> (down: bool)
    ensures
        down == buttons_down(*mouse).contains(button),
{
    mouse.pressed(button)
}

/// Calls `Input::just_pressed` on the mouse snapshot: membership in its set of
/// buttons pressed on this tick.
#[verifier::external_body]
pub(crate) fn button_just_pressed(mouse: &Input<MouseButton>, button: MouseButton) -> (down: bool)
    ensures
        down == buttons_just_down(*mouse).contains(button),
{
    mouse.just_pressed(button)
}

/// Calls `Enum::variant_index` on a key code: the position of its variant.
#[verifier::external_body]
pub(crate) fn key_code_position(code: KeyCode) -> (index: usize)
    ensures
        index == key_code_index(code),
{
    code.variant_index()
}

/// Calls `Enum::variant_index` on a mouse button: the position of its variant.
/// Every `Other(_)` button has the same position.
#[verifier::external_body]
pub(crate) fn mouse_button_position(button: MouseButton) -> (index: usize)
    ensures
        index == mouse_button_index(button),
{
    button.variant_index()
}

/// Calls `Enum::variant_name` on a key code: the name of its variant, which
/// is the same for every value at the same position.
#[verifier::external_body]
pub(crate) fn key_code_label(code: KeyCode) -> (name: String)
    ensures
        name@ == key_code_name(key_code_index(code)),
{
    code.variant_name().to_string()
}

/// Calls `Enum::variant_name` on a mouse button: the name of its variant,
/// which is the same for every value at the same position.
#[verifier::external_body]
pub(crate) fn mouse_button_label(button: MouseButton) -> (name: String)
    ensures
        name@ == mouse_button_name(mouse_button_index(button)),
{
    button.variant_name().to_string()
}

} // verus!
