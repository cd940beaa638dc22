//! Events a keyboard responds to, actions it emits, and the keyboard
//! abstraction itself.
//!
//! The interfaces here were drawn up with a USB HID keyboard in mind:
//! key scan codes fit in a small integer.

use vstd::prelude::*;

verus! {

/// Set of events that a keyboard responds to. (inputs)
#[derive(PartialEq, Debug, Clone, Copy)]
pub enum Event<Id> {
    KeyPress(Id),
    KeyRelease(Id),
    Poll,
}

impl<Id> Event<Id> {
    /// True exactly on a key-press event.
    pub fn is_key_press(&self) -> (r: bool)
        ensures
            r == (self is KeyPress),
    {
        match self {
            Event::KeyPress(_) => true,
            _ => false,
        }
    }

    /// The key the event concerns, if it concerns one: `Poll` carries none.
    pub fn get_key_id(&self) -> (r: Option<&Id>)
        ensures
            match *self {
                Event::KeyPress(id) => r matches Some(x) && *x == id,
                Event::KeyRelease(id) => r matches Some(x) && *x == id,
                Event::Poll => r is None,
            },
    {
        match self {
            Event::KeyPress(key_id) => Some(key_id),
            Event::KeyRelease(key_id) => Some(key_id),
            Event::Poll => None,
        }
    }
}

/// Set of actions a keyboard performs as a consequence of inputs. (outputs)
///
/// `SendCode(t)` makes the logical code `t` active; `Stop(t)` deactivates
/// a previously sent code. The payload type is opaque to the engine.
#[derive(PartialEq, Debug, Clone, Copy)]
pub enum Action<T> {
    SendCode(T),
    Stop(T),
}

/// Abstraction for a physical keyboard.
///
/// Conceptually a keyboard contains keys, each identified with an id.
/// It receives `Event<KeyId>`s as input and returns the list of `Action`s
/// indicating what should be done, in decision order. It can be thought
/// of as a state machine: each input moves it to a new state and produces
/// an output.
pub trait Keyboard<KeyId, T> {
    fn transition(&mut self, event: Event<KeyId>) -> Vec<Action<T>>;
}

/// A keyboard that can receive multiple events at once.
///
/// Each event is processed in the order it was sent.
pub trait MultiEventKeyboard<KeyId, T>: Keyboard<KeyId, T> {
    /// Sequentially steps through all events informed and returns the
    /// aggregated list of actions.
    fn transition_events(&mut self, events: &[Event<KeyId>]) -> Vec<Action<T>>;
}

} // verus!
