use kb_core::config::{KeyAction, KeyConfig, Settings, DEFAULT_HOLD_THRESHOLD};
use kb_core::engine::LogicalKeyboard;
use kb_core::keyboard::{Action, Event, Keyboard, MultiEventKeyboard};
use kb_core::mapper::LayerMapper;

#[test]
fn is_key_press_only_on_presses() {
    assert!(Event::KeyPress(3u16).is_key_press());
    assert!(!Event::KeyRelease(3u16).is_key_press());
    assert!(!Event::<u16>::Poll.is_key_press());
}

#[test]
fn get_key_id_names_the_key() {
    assert_eq!(Event::KeyPress(3u16).get_key_id(), Some(&3u16));
    assert_eq!(Event::KeyRelease(7u16).get_key_id(), Some(&7u16));
    assert_eq!(Event::<u16>::Poll.get_key_id(), None);
}

#[test]
fn default_settings_have_a_threshold() {
    let settings = Settings::default();
    assert_eq!(settings.hold_threshold, DEFAULT_HOLD_THRESHOLD);
}

#[test]
fn mapper_lookup_finds_bound_pairs_only() {
    let mut mapper = LayerMapper::new();
    assert_eq!(mapper.lookup(0, 1), None);
    let cfg = KeyConfig::Tap { action: KeyAction::SendKey(5) };
    mapper.bind(0, 1, cfg);
    assert_eq!(mapper.lookup(0, 1), Some(cfg));
    // The same key under another layer stays unbound, and so does
    // another key under the same layer.
    assert_eq!(mapper.lookup(2, 1), None);
    assert_eq!(mapper.lookup(0, 2), None);
}

#[test]
fn mapper_earliest_binding_wins() {
    let mut mapper = LayerMapper::new();
    let first = KeyConfig::Tap { action: KeyAction::SendKey(5) };
    let second = KeyConfig::Tap { action: KeyAction::SendKey(6) };
    mapper.bind(0, 1, first);
    mapper.bind(0, 1, second);
    assert_eq!(mapper.lookup(0, 1), Some(first));
}

#[test]
fn engine_works_through_the_keyboard_traits() {
    let mut mapper = LayerMapper::new();
    mapper.bind(0, 1, KeyConfig::Tap { action: KeyAction::SendKey(5) });
    let mut kb = LogicalKeyboard::new(0, mapper, Settings { hold_threshold: 2 });
    let a = <LogicalKeyboard as Keyboard<u16, u16>>::transition(&mut kb, Event::KeyPress(1));
    assert_eq!(a, vec![Action::SendCode(5)]);
    let b = <LogicalKeyboard as MultiEventKeyboard<u16, u16>>::transition_events(
        &mut kb,
        &[Event::KeyRelease(1)],
    );
    assert_eq!(b, vec![Action::Stop(5)]);
}

#[test]
fn active_layer_follows_the_stack_top() {
    let mut mapper = LayerMapper::new();
    mapper.bind(0, 1, KeyConfig::Tap { action: KeyAction::PushLayer(4) });
    let mut kb = LogicalKeyboard::new(0, mapper, Settings::default());
    assert_eq!(kb.active_layer(), 0);
    kb.transition(Event::KeyPress(1));
    assert_eq!(kb.active_layer(), 4);
    kb.transition(Event::KeyRelease(1));
    assert_eq!(kb.active_layer(), 0);
}
