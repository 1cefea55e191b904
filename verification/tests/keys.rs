use bevy::input::keyboard::KeyCode;
use bevy::input::mouse::MouseButton;
use bird_binding::key::{Device, Key, C};
use std::cmp::Ordering;

#[test]
fn mouse_sorts_before_board() {
    let left = Key::Mouse(MouseButton::Left);
    let w = Key::Board(KeyCode::W);
    assert_eq!(left.compare(&w), Ordering::Less);
    assert_eq!(w.compare(&left), Ordering::Greater);
    let other = Key::Mouse(MouseButton::Other(900));
    assert_eq!(other.compare(&Key::Board(KeyCode::Key1)), Ordering::Less);
}

#[test]
fn board_keys_follow_their_declaration() {
    let a = Key::Board(KeyCode::A);
    let b = Key::Board(KeyCode::B);
    let one = Key::Board(KeyCode::Key1);
    assert_eq!(a.compare(&b), Ordering::Less);
    assert_eq!(b.compare(&a), Ordering::Greater);
    assert_eq!(a.compare(&a), Ordering::Equal);
    assert_eq!(one.compare(&a), Ordering::Less);
}

#[test]
fn mouse_buttons_follow_their_declaration() {
    let left = Key::Mouse(MouseButton::Left);
    let right = Key::Mouse(MouseButton::Right);
    let middle = Key::Mouse(MouseButton::Middle);
    let other = Key::Mouse(MouseButton::Other(0));
    assert_eq!(left.compare(&right), Ordering::Less);
    assert_eq!(right.compare(&middle), Ordering::Less);
    assert_eq!(middle.compare(&other), Ordering::Less);
    assert_eq!(other.compare(&left), Ordering::Greater);
    assert_eq!(middle.compare(&middle), Ordering::Equal);
}

#[test]
fn other_buttons_share_one_position() {
    let four = Key::Mouse(MouseButton::Other(4));
    let nine = Key::Mouse(MouseButton::Other(9));
    assert_eq!(four.compare(&nine), Ordering::Equal);
    assert_eq!(nine.compare(&four), Ordering::Equal);
    assert_ne!(four, nine);
}

#[test]
fn compare_is_total_and_transitive_on_a_sample() {
    let sample = vec![
        Key::Mouse(MouseButton::Left),
        Key::Mouse(MouseButton::Right),
        Key::Mouse(MouseButton::Other(2)),
        Key::Board(KeyCode::Key1),
        Key::Board(KeyCode::A),
        Key::Board(KeyCode::W),
        Key::Board(KeyCode::Space),
    ];
    for a in sample.iter() {
        for b in sample.iter() {
            let ab = a.compare(b);
            let ba = b.compare(a);
            assert_eq!(ab, ba.reverse());
            for c in sample.iter() {
                if ab == Ordering::Less && b.compare(c) == Ordering::Less {
                    assert_eq!(a.compare(c), Ordering::Less);
                }
            }
        }
    }
}

#[test]
fn device_of_a_key() {
    let left = Key::Mouse(MouseButton::Left);
    let w = Key::Board(KeyCode::W);
    assert!(left.is_mouse());
    assert!(!w.is_mouse());
    assert_eq!(left.is_device(), Device::Mouse);
    assert_eq!(w.is_device(), Device::Keyboard);
}

#[test]
fn button_wrapper_orders_by_position() {
    assert_eq!(C(MouseButton::Left).get_num(), 0);
    assert_eq!(C(MouseButton::Right).get_num(), 1);
    assert_eq!(C(MouseButton::Middle).get_num(), 2);
    assert_eq!(C(MouseButton::Other(77)).get_num(), 3);
    assert_eq!(C(MouseButton::Left).compare(&C(MouseButton::Middle)), Ordering::Less);
    assert_eq!(C(MouseButton::Other(1)).compare(&C(MouseButton::Right)), Ordering::Greater);
    assert_eq!(C(MouseButton::Other(1)).compare(&C(MouseButton::Other(2))), Ordering::Equal);
}
