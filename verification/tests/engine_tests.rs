use kb_core::config::{KeyAction, KeyConfig, Settings};
use kb_core::engine::LogicalKeyboard;
use kb_core::keyboard::{Action, Event};
use kb_core::mapper::LayerMapper;

const BASE: u16 = 0;
const FN_LAYER: u16 = 1;

const KEY_A: u16 = 10;
const KEY_B: u16 = 11;
const KEY_FN: u16 = 12;
const KEY_UNBOUND: u16 = 99;

const CODE_T: u16 = 200;
const CODE_H: u16 = 201;
const CODE_A: u16 = 202;
const CODE_FN_A: u16 = 203;

fn demo_mapper() -> LayerMapper {
    let mut mapper = LayerMapper::new();
    // KEY_A: tap/hold disambiguation on the base layer.
    mapper.bind(
        BASE,
        KEY_A,
        KeyConfig::Hold {
            tap_action: KeyAction::SendKey(CODE_T),
            hold_action: KeyAction::SendKey(CODE_H),
        },
    );
    // KEY_B: plain tap on the base layer.
    mapper.bind(BASE, KEY_B, KeyConfig::Tap { action: KeyAction::SendKey(CODE_A) });
    // KEY_FN: momentary layer switch.
    mapper.bind(BASE, KEY_FN, KeyConfig::Tap { action: KeyAction::PushLayer(FN_LAYER) });
    // KEY_A means something else on the switched layer.
    mapper.bind(FN_LAYER, KEY_A, KeyConfig::Tap { action: KeyAction::SendKey(CODE_FN_A) });
    mapper
}

fn engine_with_threshold(threshold: u64) -> LogicalKeyboard {
    LogicalKeyboard::new(BASE, demo_mapper(), Settings { hold_threshold: threshold })
}

#[test]
fn tap_before_threshold_emits_tap_pulse() {
    let mut kb = engine_with_threshold(3);
    assert_eq!(kb.transition(Event::KeyPress(KEY_A)), vec![]);
    assert_eq!(kb.transition(Event::Poll), vec![]);
    assert_eq!(kb.transition(Event::Poll), vec![]);
    assert_eq!(
        kb.transition(Event::KeyRelease(KEY_A)),
        vec![Action::SendCode(CODE_T), Action::Stop(CODE_T)]
    );
}

#[test]
fn hold_after_threshold_emits_hold_action() {
    let mut kb = engine_with_threshold(2);
    assert_eq!(kb.transition(Event::KeyPress(KEY_A)), vec![]);
    assert_eq!(kb.transition(Event::Poll), vec![]);
    // The second poll is the threshold crossing: the hold action starts.
    assert_eq!(kb.transition(Event::Poll), vec![Action::SendCode(CODE_H)]);
    // Further polls change nothing for a decided key.
    assert_eq!(kb.transition(Event::Poll), vec![]);
    assert_eq!(kb.transition(Event::KeyRelease(KEY_A)), vec![Action::Stop(CODE_H)]);
}

#[test]
fn concrete_scenario_threshold_one_tap() {
    // Threshold 1, key bound Hold{tap: T, hold: H}: press then release
    // emits the tap pulse.
    let mut kb = engine_with_threshold(1);
    let actions = kb.transition_events(&[Event::KeyPress(KEY_A), Event::KeyRelease(KEY_A)]);
    assert_eq!(actions, vec![Action::SendCode(CODE_T), Action::Stop(CODE_T)]);
}

#[test]
fn concrete_scenario_threshold_one_hold() {
    // Threshold 1: press, one poll, release emits the hold pair.
    let mut kb = engine_with_threshold(1);
    let actions = kb.transition_events(&[
        Event::KeyPress(KEY_A),
        Event::Poll,
        Event::KeyRelease(KEY_A),
    ]);
    assert_eq!(actions, vec![Action::SendCode(CODE_H), Action::Stop(CODE_H)]);
}

#[test]
fn threshold_zero_decides_on_first_poll() {
    let mut kb = engine_with_threshold(0);
    assert_eq!(kb.transition(Event::KeyPress(KEY_A)), vec![]);
    assert_eq!(kb.transition(Event::Poll), vec![Action::SendCode(CODE_H)]);
    assert_eq!(kb.transition(Event::KeyRelease(KEY_A)), vec![Action::Stop(CODE_H)]);
}

#[test]
fn unmapped_key_never_emits() {
    let mut kb = engine_with_threshold(2);
    for _ in 0..4 {
        assert_eq!(kb.transition(Event::KeyPress(KEY_UNBOUND)), vec![]);
        assert_eq!(kb.transition(Event::Poll), vec![]);
        assert_eq!(kb.transition(Event::KeyRelease(KEY_UNBOUND)), vec![]);
    }
    // Also under a switched layer, where it is just as unbound.
    assert_eq!(kb.transition(Event::KeyPress(KEY_FN)), vec![]);
    assert_eq!(kb.transition(Event::KeyPress(KEY_UNBOUND)), vec![]);
    assert_eq!(kb.transition(Event::KeyRelease(KEY_UNBOUND)), vec![]);
    assert_eq!(kb.transition(Event::KeyRelease(KEY_FN)), vec![]);
}

#[test]
fn duplicate_press_is_ignored() {
    let mut kb = engine_with_threshold(2);
    assert_eq!(kb.transition(Event::KeyPress(KEY_A)), vec![]);
    // A second press of the in-flight key changes nothing.
    assert_eq!(kb.transition(Event::KeyPress(KEY_A)), vec![]);
    // The original entry still resolves normally.
    assert_eq!(
        kb.transition(Event::KeyRelease(KEY_A)),
        vec![Action::SendCode(CODE_T), Action::Stop(CODE_T)]
    );
}

#[test]
fn spurious_release_is_ignored() {
    let mut kb = engine_with_threshold(2);
    assert_eq!(kb.transition(Event::KeyRelease(KEY_A)), vec![]);
    assert_eq!(kb.transition(Event::KeyRelease(KEY_UNBOUND)), vec![]);
}

#[test]
fn batch_equivalence_matches_single_steps() {
    let events = [
        Event::KeyPress(KEY_A),
        Event::KeyPress(KEY_B),
        Event::Poll,
        Event::KeyRelease(KEY_B),
        Event::Poll,
        Event::Poll,
        Event::KeyRelease(KEY_A),
        Event::KeyPress(KEY_UNBOUND),
        Event::KeyRelease(KEY_UNBOUND),
    ];
    let mut batch_kb = engine_with_threshold(2);
    let batched = batch_kb.transition_events(&events);
    let mut single_kb = engine_with_threshold(2);
    let mut singles = Vec::new();
    for e in events.iter() {
        singles.extend(single_kb.transition(*e));
    }
    assert_eq!(batched, singles);
}

#[test]
fn tap_key_starts_on_press_and_stops_on_release() {
    let mut kb = engine_with_threshold(2);
    assert_eq!(kb.transition(Event::KeyPress(KEY_B)), vec![Action::SendCode(CODE_A)]);
    assert_eq!(kb.transition(Event::KeyRelease(KEY_B)), vec![Action::Stop(CODE_A)]);
}

#[test]
fn momentary_layer_key_remaps_while_held() {
    let mut kb = engine_with_threshold(2);
    // While KEY_FN is held, KEY_A means the switched layer's tap.
    assert_eq!(kb.transition(Event::KeyPress(KEY_FN)), vec![]);
    assert_eq!(kb.transition(Event::KeyPress(KEY_A)), vec![Action::SendCode(CODE_FN_A)]);
    assert_eq!(kb.transition(Event::KeyRelease(KEY_A)), vec![Action::Stop(CODE_FN_A)]);
    assert_eq!(kb.transition(Event::KeyRelease(KEY_FN)), vec![]);
    // Released, the base layer is back.
    assert_eq!(kb.transition(Event::KeyPress(KEY_B)), vec![Action::SendCode(CODE_A)]);
}

#[test]
fn layer_isolation_press_snapshots_configuration() {
    let mut kb = engine_with_threshold(2);
    // KEY_A pressed under the base layer, the layer switched before its
    // release: KEY_A still resolves by the base layer's Hold config.
    assert_eq!(kb.transition(Event::KeyPress(KEY_A)), vec![]);
    assert_eq!(kb.transition(Event::KeyPress(KEY_FN)), vec![]);
    assert_eq!(
        kb.transition(Event::KeyRelease(KEY_A)),
        vec![Action::SendCode(CODE_T), Action::Stop(CODE_T)]
    );
    assert_eq!(kb.transition(Event::KeyRelease(KEY_FN)), vec![]);
}

#[test]
fn mismatched_pop_is_skipped() {
    let mut mapper = demo_mapper();
    const OTHER_LAYER: u16 = 2;
    const KEY_FN2: u16 = 13;
    // KEY_FN2 is pressed while FN_LAYER is active, so it is bound there.
    mapper.bind(FN_LAYER, KEY_FN2, KeyConfig::Tap { action: KeyAction::PushLayer(OTHER_LAYER) });
    mapper.bind(OTHER_LAYER, KEY_A, KeyConfig::Tap { action: KeyAction::SendKey(77) });
    let mut kb = LogicalKeyboard::new(BASE, mapper, Settings { hold_threshold: 2 });
    // Push FN_LAYER, then OTHER_LAYER on top of it.
    assert_eq!(kb.transition(Event::KeyPress(KEY_FN)), vec![]);
    assert_eq!(kb.transition(Event::KeyPress(KEY_FN2)), vec![]);
    // Releasing KEY_FN cannot pop FN_LAYER: OTHER_LAYER is on top, so the
    // pop is skipped and OTHER_LAYER stays active.
    assert_eq!(kb.transition(Event::KeyRelease(KEY_FN)), vec![]);
    assert_eq!(kb.transition(Event::KeyPress(KEY_A)), vec![Action::SendCode(77)]);
    assert_eq!(kb.transition(Event::KeyRelease(KEY_A)), vec![Action::Stop(77)]);
    // Releasing KEY_FN2 pops OTHER_LAYER; FN_LAYER is active again.
    assert_eq!(kb.transition(Event::KeyRelease(KEY_FN2)), vec![]);
    assert_eq!(kb.transition(Event::KeyPress(KEY_A)), vec![Action::SendCode(CODE_FN_A)]);
}

#[test]
fn multiple_holds_decide_in_press_order() {
    let mut mapper = demo_mapper();
    const KEY_C: u16 = 14;
    mapper.bind(
        BASE,
        KEY_C,
        KeyConfig::Hold {
            tap_action: KeyAction::SendKey(50),
            hold_action: KeyAction::SendKey(51),
        },
    );
    let mut kb = LogicalKeyboard::new(BASE, mapper, Settings { hold_threshold: 1 });
    assert_eq!(kb.transition(Event::KeyPress(KEY_A)), vec![]);
    assert_eq!(kb.transition(Event::KeyPress(KEY_C)), vec![]);
    // Both cross the threshold on the same poll, in press order.
    assert_eq!(
        kb.transition(Event::Poll),
        vec![Action::SendCode(CODE_H), Action::SendCode(51)]
    );
}

#[test]
fn huge_threshold_never_decides() {
    let mut kb = engine_with_threshold(u64::MAX);
    assert_eq!(kb.transition(Event::KeyPress(KEY_A)), vec![]);
    for _ in 0..1000 {
        assert_eq!(kb.transition(Event::Poll), vec![]);
    }
    assert_eq!(
        kb.transition(Event::KeyRelease(KEY_A)),
        vec![Action::SendCode(CODE_T), Action::Stop(CODE_T)]
    );
}

#[test]
fn hold_with_layer_tap_quick_release_leaves_no_trace() {
    let mut mapper = demo_mapper();
    const KEY_D: u16 = 15;
    mapper.bind(
        BASE,
        KEY_D,
        KeyConfig::Hold {
            tap_action: KeyAction::PushLayer(FN_LAYER),
            hold_action: KeyAction::SendKey(60),
        },
    );
    let mut kb = LogicalKeyboard::new(BASE, mapper, Settings { hold_threshold: 2 });
    // Released before the threshold, the tap pulse pushes the layer and
    // pops it again at once: no action and no layer change.
    assert_eq!(kb.transition(Event::KeyPress(KEY_D)), vec![]);
    assert_eq!(kb.transition(Event::KeyRelease(KEY_D)), vec![]);
    assert_eq!(kb.transition(Event::KeyPress(KEY_B)), vec![Action::SendCode(CODE_A)]);
}

#[test]
fn hold_with_layer_hold_action_holds_the_layer() {
    let mut mapper = demo_mapper();
    const KEY_D: u16 = 15;
    mapper.bind(
        BASE,
        KEY_D,
        KeyConfig::Hold {
            tap_action: KeyAction::SendKey(60),
            hold_action: KeyAction::PushLayer(FN_LAYER),
        },
    );
    let mut kb = LogicalKeyboard::new(BASE, mapper, Settings { hold_threshold: 1 });
    assert_eq!(kb.transition(Event::KeyPress(KEY_D)), vec![]);
    // Crossing the threshold pushes the layer, emitting nothing.
    assert_eq!(kb.transition(Event::Poll), vec![]);
    assert_eq!(kb.transition(Event::KeyPress(KEY_A)), vec![Action::SendCode(CODE_FN_A)]);
    assert_eq!(kb.transition(Event::KeyRelease(KEY_A)), vec![Action::Stop(CODE_FN_A)]);
    // Releasing the held key pops the layer again.
    assert_eq!(kb.transition(Event::KeyRelease(KEY_D)), vec![]);
    assert_eq!(kb.transition(Event::KeyPress(KEY_B)), vec![Action::SendCode(CODE_A)]);
}

#[test]
fn clear_forgets_in_flight_keys_without_stops() {
    let mut kb = engine_with_threshold(1);
    assert_eq!(kb.transition(Event::KeyPress(KEY_A)), vec![]);
    assert_eq!(kb.transition(Event::Poll), vec![Action::SendCode(CODE_H)]);
    kb.clear();
    // No stop action was emitted, and the release is now spurious.
    assert_eq!(kb.transition(Event::KeyRelease(KEY_A)), vec![]);
    // The key can go in flight afresh.
    let actions = kb.transition_events(&[Event::KeyPress(KEY_A), Event::KeyRelease(KEY_A)]);
    assert_eq!(actions, vec![Action::SendCode(CODE_T), Action::Stop(CODE_T)]);
}

#[test]
fn clear_collapses_layer_stack_to_base() {
    let mut kb = engine_with_threshold(2);
    assert_eq!(kb.transition(Event::KeyPress(KEY_FN)), vec![]);
    kb.clear();
    // The base layer is active again: KEY_A is its Hold binding.
    let actions = kb.transition_events(&[Event::KeyPress(KEY_A), Event::KeyRelease(KEY_A)]);
    assert_eq!(actions, vec![Action::SendCode(CODE_T), Action::Stop(CODE_T)]);
}
