use roids::input::{ElementState, Event, Input, Key, KeyCode};

const KEYS: [Key; 5] = [Key::Left, Key::Right, Key::Forward, Key::Reverse, Key::Fire];

fn press(code: KeyCode) -> Event {
    Event::KeyboardInput(ElementState::Pressed, Some(code))
}

fn release(code: KeyCode) -> Event {
    Event::KeyboardInput(ElementState::Released, Some(code))
}

#[test]
fn no_key_is_down_at_first() {
    let input = Input::new();
    for key in KEYS {
        assert!(!input.pressed(key));
    }
}

#[test]
fn each_key_of_the_keyboard_moves_its_key_of_the_game() {
    let map = [
        (KeyCode::Left, Key::Left),
        (KeyCode::Right, Key::Right),
        (KeyCode::Up, Key::Forward),
        (KeyCode::Down, Key::Reverse),
        (KeyCode::Space, Key::Fire),
    ];
    for (code, key) in map {
        let mut input = Input::new();
        input.handle_event(&press(code));
        for other in KEYS {
            assert_eq!(input.pressed(other), other == key);
        }
        input.handle_event(&release(code));
        for other in KEYS {
            assert!(!input.pressed(other));
        }
    }
}

#[test]
fn a_key_stays_down_until_it_is_released() {
    let mut input = Input::new();
    input.handle_event(&press(KeyCode::Up));
    input.handle_event(&press(KeyCode::Space));
    input.handle_event(&press(KeyCode::Up));
    assert!(input.pressed(Key::Forward));
    assert!(input.pressed(Key::Fire));
    input.handle_event(&release(KeyCode::Up));
    assert!(!input.pressed(Key::Forward));
    assert!(input.pressed(Key::Fire));
}

#[test]
fn other_keys_and_other_events_change_nothing() {
    let mut input = Input::new();
    input.handle_event(&press(KeyCode::Left));
    input.handle_event(&press(KeyCode::Other));
    input.handle_event(&release(KeyCode::Other));
    input.handle_event(&Event::Other);
    input.handle_event(&Event::KeyboardInput(ElementState::Released, None));
    input.handle_event(&Event::KeyboardInput(ElementState::Pressed, None));
    for key in KEYS {
        assert_eq!(input.pressed(key), key == Key::Left);
    }
}

#[test]
fn a_release_without_a_press_leaves_the_key_free() {
    let mut input = Input::new();
    input.handle_event(&release(KeyCode::Down));
    for key in KEYS {
        assert!(!input.pressed(key));
    }
}
