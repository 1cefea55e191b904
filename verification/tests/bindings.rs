use bevy::input::keyboard::KeyCode;
use bevy::input::mouse::MouseButton;
use bevy::input::Input;
use bird_binding::binding::{sorted_keys, Binding};
use bird_binding::bindings::{pair_up, Bindings};
use bird_binding::key::Key;

fn quiet() -> (Input<KeyCode>, Input<MouseButton>) {
    (Input::default(), Input::default())
}

#[test]
fn chord_order_does_not_change_the_text() {
    let mut first = Binding::new(vec![Key::Board(KeyCode::W), Key::Mouse(MouseButton::Left)]);
    let mut second = Binding::new(vec![Key::Mouse(MouseButton::Left), Key::Board(KeyCode::W)]);
    first.sort();
    second.sort();
    assert_eq!(first.to_string(), second.to_string());
    assert_eq!(first.to_string(), "m:Left|b:W|");
}

#[test]
fn text_of_three_permutations() {
    let keys = [
        Key::Board(KeyCode::LShift),
        Key::Mouse(MouseButton::Other(7)),
        Key::Board(KeyCode::A),
    ];
    let orders = [[0, 1, 2], [0, 2, 1], [1, 0, 2], [1, 2, 0], [2, 0, 1], [2, 1, 0]];
    for order in orders.iter() {
        let mut binding = Binding::new(order.iter().map(|i| keys[*i]).collect());
        binding.sort();
        assert_eq!(binding.to_string(), "m:Other|b:A|b:LShift|");
    }
}

#[test]
fn text_ignores_the_mode() {
    let held = Binding::new(vec![Key::Board(KeyCode::Space)]);
    let just = Binding::just_pressed(vec![Key::Board(KeyCode::Space)]);
    assert_eq!(held.to_string(), "b:Space|");
    assert_eq!(just.to_string(), "b:Space|");
}

#[test]
fn text_follows_the_stored_order() {
    let unsorted = Binding::new(vec![Key::Board(KeyCode::W), Key::Mouse(MouseButton::Left)]);
    assert_eq!(unsorted.to_string(), "b:W|m:Left|");
}

#[test]
fn sort_keeps_keys_and_mode() {
    let mut binding = Binding::just_pressed(vec![
        Key::Board(KeyCode::B),
        Key::Board(KeyCode::A),
        Key::Mouse(MouseButton::Right),
        Key::Board(KeyCode::A),
        Key::Mouse(MouseButton::Left),
    ]);
    binding.sort();
    assert_eq!(
        binding.keys(),
        &vec![
            Key::Mouse(MouseButton::Left),
            Key::Mouse(MouseButton::Right),
            Key::Board(KeyCode::A),
            Key::Board(KeyCode::A),
            Key::Board(KeyCode::B),
        ]
    );
    assert!(matches!(binding, Binding::JustPressed(_)));
}

#[test]
fn sort_keeps_buttons_of_one_position_in_place() {
    let keys = vec![
        Key::Mouse(MouseButton::Other(9)),
        Key::Board(KeyCode::A),
        Key::Mouse(MouseButton::Other(4)),
        Key::Mouse(MouseButton::Left),
    ];
    assert_eq!(
        sorted_keys(&keys),
        vec![
            Key::Mouse(MouseButton::Left),
            Key::Mouse(MouseButton::Other(9)),
            Key::Mouse(MouseButton::Other(4)),
            Key::Board(KeyCode::A),
        ]
    );
}

#[test]
fn sort_of_nothing_and_of_one() {
    assert_eq!(sorted_keys(&vec![]), vec![]);
    let one = vec![Key::Board(KeyCode::Z)];
    assert_eq!(sorted_keys(&one), one);
}

#[test]
fn held_matches_while_the_key_is_down() {
    let binding = Binding::new(vec![Key::Board(KeyCode::A)]);
    let (mut keys, mouse) = quiet();
    assert!(!binding.check(&keys, &mouse));
    keys.press(KeyCode::A);
    assert!(binding.check(&keys, &mouse));
    keys.clear();
    assert!(binding.check(&keys, &mouse));
    keys.release(KeyCode::A);
    assert!(!binding.check(&keys, &mouse));
}

#[test]
fn held_needs_every_key_of_the_chord() {
    let binding = Binding::new(vec![Key::Board(KeyCode::LControl), Key::Mouse(MouseButton::Left)]);
    let (mut keys, mut mouse) = quiet();
    keys.press(KeyCode::LControl);
    assert!(!binding.check(&keys, &mouse));
    mouse.press(MouseButton::Left);
    assert!(binding.check(&keys, &mouse));
    keys.release(KeyCode::LControl);
    assert!(!binding.check(&keys, &mouse));
}

#[test]
fn held_tells_other_buttons_apart() {
    let binding = Binding::new(vec![Key::Mouse(MouseButton::Other(4))]);
    let (keys, mut mouse) = quiet();
    mouse.press(MouseButton::Other(9));
    assert!(!binding.check(&keys, &mouse));
    mouse.press(MouseButton::Other(4));
    assert!(binding.check(&keys, &mouse));
}

#[test]
fn empty_chord_always_matches() {
    let (keys, mouse) = quiet();
    assert!(Binding::new(vec![]).check(&keys, &mouse));
    assert!(Binding::just_pressed(vec![]).check(&keys, &mouse));
    assert!(Binding::default().check(&keys, &mouse));
}

#[test]
fn just_pressed_matches_on_the_first_tick_only() {
    let binding = Binding::just_pressed(vec![Key::Mouse(MouseButton::Left)]);
    let held = Binding::new(vec![Key::Mouse(MouseButton::Left)]);
    let (keys, mut mouse) = quiet();
    mouse.press(MouseButton::Left);
    assert!(binding.check(&keys, &mouse));
    assert!(held.check(&keys, &mouse));
    mouse.clear();
    mouse.press(MouseButton::Left);
    assert!(!binding.check(&keys, &mouse));
    assert!(held.check(&keys, &mouse));
    mouse.clear();
    mouse.press(MouseButton::Left);
    assert!(!binding.check(&keys, &mouse));
    assert!(held.check(&keys, &mouse));
}

#[test]
fn just_pressed_needs_every_key_on_the_same_tick() {
    let binding = Binding::just_pressed(vec![Key::Board(KeyCode::A), Key::Board(KeyCode::B)]);
    let (mut keys, mouse) = quiet();
    keys.press(KeyCode::A);
    assert!(!binding.check(&keys, &mouse));
    keys.clear();
    keys.press(KeyCode::B);
    assert!(!binding.check(&keys, &mouse));
    keys.release(KeyCode::A);
    keys.release(KeyCode::B);
    keys.clear();
    keys.press(KeyCode::B);
    keys.press(KeyCode::A);
    assert!(binding.check(&keys, &mouse));
}

#[test]
fn default_binding_is_held_and_empty() {
    let binding = Binding::default();
    assert!(matches!(binding, Binding::Pressed(_)));
    assert!(binding.keys().is_empty());
    assert_eq!(binding.to_string(), "");
}

#[test]
fn clone_keeps_chord_and_mode() {
    let binding =
        Binding::just_pressed(vec![Key::Board(KeyCode::W), Key::Mouse(MouseButton::Middle)]);
    let copy = binding.clone();
    assert!(matches!(copy, Binding::JustPressed(_)));
    assert_eq!(copy.keys(), binding.keys());
}

#[test]
fn new_keeps_the_chord_as_given() {
    let keys = vec![Key::Board(KeyCode::W), Key::Mouse(MouseButton::Left)];
    let binding = Binding::new(keys.clone());
    assert!(matches!(binding, Binding::Pressed(_)));
    assert_eq!(binding.keys(), &keys);
}

#[test]
fn pair_up_stops_at_the_shorter_list() {
    let names = vec!["a".to_string(), "b".to_string(), "c".to_string()];
    let bindings = vec![
        Binding::new(vec![Key::Board(KeyCode::A)]),
        Binding::just_pressed(vec![Key::Board(KeyCode::B)]),
    ];
    let pairs = pair_up(names, bindings);
    assert_eq!(pairs.len(), 2);
    assert_eq!(pairs[0].0, "a");
    assert_eq!(pairs[0].1.keys(), &vec![Key::Board(KeyCode::A)]);
    assert!(matches!(pairs[0].1, Binding::Pressed(_)));
    assert_eq!(pairs[1].0, "b");
    assert_eq!(pairs[1].1.keys(), &vec![Key::Board(KeyCode::B)]);
    assert!(matches!(pairs[1].1, Binding::JustPressed(_)));
    assert!(pair_up(vec![], vec![Binding::default()]).is_empty());
}

#[derive(Default)]
struct Lopsided;

impl Bindings for Lopsided {
    fn binding_names() -> Vec<String> {
        vec!["jump".to_string(), "fire".to_string(), "duck".to_string()]
    }

    fn bindings(&self) -> Vec<Binding> {
        vec![
            Binding::new(vec![Key::Board(KeyCode::Space)]),
            Binding::just_pressed(vec![Key::Mouse(MouseButton::Left)]),
        ]
    }
}

#[test]
fn scheme_with_three_names_and_two_bindings_gives_two_pairs() {
    let pairs = Lopsided.get_bindings();
    assert_eq!(pairs.len(), 2);
    assert_eq!(pairs[0].0, "jump");
    assert_eq!(pairs[1].0, "fire");
    assert_eq!(pairs[1].1.to_string(), "m:Left|");
}
