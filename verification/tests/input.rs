use parametric_renderer::camera::{input_to_direction, MovementKeys};
use parametric_renderer::input::{ElementState, WindowInputCollector};

fn key(name: &str) -> String {
    name.to_string()
}

#[test]
fn collector_tracks_presses_and_held_buttons() {
    let mut collector = WindowInputCollector::new();
    collector.handle_mouse_input(ElementState::Pressed, 0);
    collector.handle_mouse_input(ElementState::Pressed, 1);
    collector.handle_mouse_input(ElementState::Released, 0);
    collector.handle_keyboard_input(ElementState::Pressed, 42, key("w"));

    let frame = collector.step();
    let (mouse, keyboard) = (&frame.mouse, &frame.keyboard);
    assert!(mouse.just_pressed(0));
    assert!(mouse.just_pressed(1));
    assert!(mouse.just_released(0));
    assert!(!mouse.just_released(1));
    assert!(!mouse.pressed(0));
    assert!(mouse.pressed(1));
    assert!(keyboard.just_pressed_physical(42));
    assert!(!keyboard.just_released_physical(42));
    assert!(keyboard.pressed_physical(42));
    assert!(!keyboard.pressed_physical(7));
    assert!(keyboard.just_pressed_logical(&key("w")));
    assert!(!keyboard.just_released_logical(&key("w")));
    assert!(keyboard.pressed_logical(&key("w")));
    assert!(!keyboard.pressed_logical(&key("a")));
    assert_eq!(frame.new_size, None);
}

#[test]
fn collector_step_starts_a_new_frame() {
    let mut collector = WindowInputCollector::new();
    collector.handle_mouse_input(ElementState::Pressed, 2);
    collector.handle_keyboard_input(ElementState::Pressed, 5, key("Shift"));
    collector.handle_resize(640, 480);
    let first = collector.step();
    assert_eq!(first.new_size, Some((640, 480)));
    assert!(collector.mouse_inputs.is_empty());
    assert!(collector.key_inputs.is_empty());
    assert_eq!(collector.new_size, None);

    // A frame without events in between: no input, no resize, same held keys.
    let second = collector.step();
    assert!(second.mouse.inputs.is_empty());
    assert!(second.keyboard.inputs.is_empty());
    assert_eq!(second.new_size, None);
    assert!(!second.mouse.just_pressed(2));
    assert!(second.mouse.pressed(2));
    assert!(!second.keyboard.just_pressed_physical(5));
    assert!(second.keyboard.pressed_physical(5));
    assert!(second.keyboard.pressed_logical(&key("Shift")));

    collector.handle_keyboard_input(ElementState::Released, 5, key("Shift"));
    let third = collector.step();
    assert!(third.keyboard.just_released_physical(5));
    assert!(third.keyboard.just_released_logical(&key("Shift")));
    assert!(!third.keyboard.pressed_physical(5));
    assert!(!third.keyboard.pressed_logical(&key("Shift")));
}

#[test]
fn repeated_presses_hold_a_logical_key_once() {
    let mut collector = WindowInputCollector::new();
    collector.handle_keyboard_input(ElementState::Pressed, 1, key("a"));
    collector.handle_keyboard_input(ElementState::Pressed, 1, key("a"));
    assert_eq!(collector.key_held, vec![key("a")]);
    collector.handle_keyboard_input(ElementState::Released, 1, key("a"));
    assert!(collector.key_held.is_empty());
    collector.handle_resize(1, 2);
    collector.handle_resize(3, 4);
    assert_eq!(collector.step().new_size, Some((3, 4)));
}

#[test]
fn movement_keys_give_direction() {
    let keys = MovementKeys {
        forward: 1,
        back: 2,
        right: 3,
        left: 4,
        up: 5,
        shift_left: 6,
        shift_right: 7,
    };
    let mut collector = WindowInputCollector::new();
    collector.handle_keyboard_input(ElementState::Pressed, 1, key("w"));
    collector.handle_keyboard_input(ElementState::Pressed, 3, key("d"));
    collector.handle_keyboard_input(ElementState::Pressed, 7, key("Shift"));
    let frame = collector.step();
    assert_eq!(input_to_direction(&frame.keyboard, &keys), (1, -1, -1));

    collector.handle_keyboard_input(ElementState::Pressed, 2, key("s"));
    collector.handle_keyboard_input(ElementState::Pressed, 4, key("a"));
    collector.handle_keyboard_input(ElementState::Pressed, 5, key(" "));
    let frame = collector.step();
    assert_eq!(input_to_direction(&frame.keyboard, &keys), (0, 0, 0));
}
