//! The keys that steer the game, and which of them are held down.
//!
//! The window system reports every key of the keyboard. The game listens to
//! five of them. An event of the window system reaches this module as an
//! `Event`, which holds what the game reads of it.

use vstd::prelude::*;

verus! {

/// A key of the game.
#[derive(Copy, Clone, PartialEq, Eq, Structural, Hash, Debug)]
pub enum Key {
    Left,
    Right,
    Forward,
    Reverse,
    Fire,
}

/// A key of the keyboard: the five that the game listens to, and the rest.
#[derive(Copy, Clone, PartialEq, Eq, Structural, Hash, Debug)]
pub enum KeyCode {
    Left,
    Right,
    Up,
    Down,
    Space,
    Other,
}

/// What happened to a key.
#[derive(Copy, Clone, PartialEq, Eq, Structural, Hash, Debug)]
pub enum ElementState {
    Pressed,
    Released,
}

/// An event of the window system, as far as the game reads it.
#[derive(Copy, Clone, PartialEq, Eq, Structural, Debug)]
pub enum Event {
    /// A key went down or came up. The key is missing where the window
    /// system could not name it.
    KeyboardInput(ElementState, Option<KeyCode>),
    /// Any other event.
    Other,
}

/// The key of the game that a key of the keyboard stands for, if any.
pub open spec fn mapped(code: KeyCode) -> Option<Key> {
    match code {
        KeyCode::Left => Some(Key::Left),
        KeyCode::Right => Some(Key::Right),
        KeyCode::Up => Some(Key::Forward),
        KeyCode::Down => Some(Key::Reverse),
        KeyCode::Space => Some(Key::Fire),
        KeyCode::Other => None,
    }
}

/// What an event does to the keys of the game: which key it moves, and
/// whether that key is held down after it. `None` where it moves none.
pub open spec fn moved(ev: Event) -> Option<(Key, bool)> {
    match ev {
        Event::KeyboardInput(el_state, Some(code)) => match mapped(code) {
            Some(key) => Some((key, el_state == ElementState::Pressed)),
            None => None,
        },
        _ => None,
    }
}

/// Which keys of the game are held down.
pub struct Input {
    left: bool,
    right: bool,
    forward: bool,
    reverse: bool,
    fire: bool,
}

impl Input {
    /// Whether `key` is held down.
    pub closed spec fn down(&self, key: Key) -> bool {
        match key {
            Key::Left => self.left,
            Key::Right => self.right,
            Key::Forward => self.forward,
            Key::Reverse => self.reverse,
            Key::Fire => self.fire,
        }
    }

    /// No key is held down.
    pub fn new() -> (input: Input)
        ensures
            forall|key: Key| !input.down(key),
    {
        Input { left: false, right: false, forward: false, reverse: false, fire: false }
    }

    pub fn pressed(&self, key: Key) -> (held: bool)
        ensures
            held == self.down(key),
    {
        match key {
            Key::Left => self.left,
            Key::Right => self.right,
            Key::Forward => self.forward,
            Key::Reverse => self.reverse,
            Key::Fire => self.fire,
        }
    }

    /// The key of the game that `code` stands for, if any.
    fn lookup(code: &KeyCode) -> (key: Option<Key>)
        ensures
            key == mapped(*code),
    {
        match code {
            KeyCode::Left => Some(Key::Left),
            KeyCode::Right => Some(Key::Right),
            KeyCode::Up => Some(Key::Forward),
            KeyCode::Down => Some(Key::Reverse),
            KeyCode::Space => Some(Key::Fire),
            KeyCode::Other => None,
        }
    }

    /// Notes that the key `keycode` went down or came up. A key that the
    /// game does not listen to changes nothing.
    fn handle_key(&mut self, el_state: &ElementState, keycode: &KeyCode)
        ensures
            forall|key: Key|
                final(self).down(key) == if mapped(*keycode) == Some(key) {
                    *el_state == ElementState::Pressed
                } else {
                    old(self).down(key)
                },
    {
        let new_state = *el_state == ElementState::Pressed;
        match Self::lookup(keycode) {
            Some(Key::Left) => {
                self.left = new_state;
            },
            Some(Key::Right) => {
                self.right = new_state;
            },
            Some(Key::Forward) => {
                self.forward = new_state;
            },
            Some(Key::Reverse) => {
                self.reverse = new_state;
            },
            Some(Key::Fire) => {
                self.fire = new_state;
            },
            None => {},
        }
    }

    /// Takes note of an event. Only a keyboard event with a key that the
    /// game listens to changes anything: that key is held down after a
    /// press and free after a release.
    pub fn handle_event(&mut self, ev: &Event)
        ensures
            forall|key: Key|
                final(self).down(key) == match moved(*ev) {
                    Some((k, held)) if k == key => held,
                    _ => old(self).down(key),
                },
    {
        match ev {
            Event::KeyboardInput(el_state, Some(keycode)) => {
                self.handle_key(el_state, keycode);
            },
            _ => {},
        }
    }
}

} // verus!
