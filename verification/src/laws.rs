//! The engine's laws: what holds of every state and every event stream.
//!
//! Each proof function here states one guarantee of the resolution
//! engine over the same spec functions that the executable methods'
//! contracts use, so the guarantees carry over to `transition` and
//! `transition_events` on any engine.

use vstd::prelude::*;
use crate::config::{Code, KeyAction, KeyConfig, KeyId, LayerId};
use crate::engine::{
    end_actions, end_layers, has_key, key_index, lemma_key_index_first, lemma_poll_pointwise,
    spec_poll, spec_press, spec_release, spec_run, spec_step, start_actions, start_layers,
    EngineModel, InFlight, KeyState,
};
use crate::keyboard::{Action, Event};
use crate::mapper::{lookup_in, Binding};

verus! {

/// A sequence of `n` poll ticks.
pub open spec fn poll_ticks(n: nat) -> Seq<Event<KeyId>>
    decreases n,
{
    if n == 0 {
        seq![]
    } else {
        poll_ticks((n - 1) as nat).push(Event::Poll)
    }
}

/// An undecided in-flight entry for a hold-configured key.
pub open spec fn undecided(
    key: KeyId,
    tap_action: KeyAction,
    hold_action: KeyAction,
    polls: u64,
) -> InFlight {
    InFlight { key, state: KeyState::Undecided { tap_action, hold_action, polls } }
}

/// A decided-hold in-flight entry.
pub open spec fn decided_hold(key: KeyId, hold_action: KeyAction) -> InFlight {
    InFlight { key, state: KeyState::DecidedHold { hold_action } }
}

/// A table gains a key exactly by gaining an entry holding it.
pub proof fn lemma_has_key_push(flights: Seq<InFlight>, f: InFlight, key: KeyId)
    ensures
        has_key(flights.push(f), key) <==> (has_key(flights, key) || f.key == key),
{
    if has_key(flights, key) {
        let w = choose|i: int| 0 <= i < flights.len() && flights[i].key == key;
        assert(flights.push(f)[w].key == key);
    }
    if f.key == key {
        assert(flights.push(f)[flights.len() as int].key == key);
    }
    if has_key(flights.push(f), key) && f.key != key {
        let w = choose|i: int| 0 <= i < flights.push(f).len() && flights.push(f)[i].key == key;
        assert(flights[w].key == key);
    }
}

/// Pushing an entry for a key not yet in flight puts its index at the
/// end, and removing it restores the table.
pub proof fn lemma_key_index_push_fresh(flights: Seq<InFlight>, f: InFlight)
    requires
        !has_key(flights, f.key),
    ensures
        has_key(flights.push(f), f.key),
        key_index(flights.push(f), f.key) == flights.len(),
        flights.push(f).remove(flights.len() as int) == flights,
{
    lemma_has_key_push(flights, f, f.key);
    lemma_key_index_first(flights.push(f), f.key, flights.len() as int);
    assert(flights.push(f).remove(flights.len() as int) =~= flights);
}

/// Ending a key action right after starting it leaves the layer stack as
/// it was: the pushed layer is still the top, so the pop lands on it.
pub proof fn lemma_start_end_cancel(layers: Seq<LayerId>, a: KeyAction)
    requires
        layers.len() >= 1,
    ensures
        end_layers(start_layers(layers, a), a) == layers,
{
    match a {
        KeyAction::SendKey(_) => {},
        KeyAction::PushLayer(l) => {
            assert(start_layers(layers, a).drop_last() =~= layers);
        },
    }
}

/// A poll leaves a table with no undecided entry untouched and silent.
pub proof fn lemma_poll_inactive(flights: Seq<InFlight>, layers: Seq<LayerId>, threshold: u64)
    requires
        forall|i: int| 0 <= i < flights.len() ==> !(flights[i].state is Undecided),
    ensures
        spec_poll(flights, layers, threshold).0 == flights,
        spec_poll(flights, layers, threshold).1 == layers,
        spec_poll(flights, layers, threshold).2 == Seq::<Action<Code>>::empty(),
    decreases flights.len(),
{
    if flights.len() == 0 {
        assert(spec_poll(flights, layers, threshold).0 =~= flights);
    } else {
        lemma_poll_inactive(flights.drop_last(), layers, threshold);
        assert(spec_poll(flights, layers, threshold).0 =~= flights);
    }
}

/// A poll on a table of decided entries plus one undecided hold short of
/// the threshold: only its counter advances, and nothing is emitted.
proof fn lemma_poll_under_threshold(
    flights: Seq<InFlight>,
    layers: Seq<LayerId>,
    t: u64,
    key: KeyId,
    tap: KeyAction,
    hold: KeyAction,
    c: u64,
)
    requires
        forall|i: int| 0 <= i < flights.len() ==> !(flights[i].state is Undecided),
        c + 1 < t,
    ensures
        spec_poll(flights.push(undecided(key, tap, hold, c)), layers, t).0 == flights.push(
            undecided(key, tap, hold, (c + 1) as u64),
        ),
        spec_poll(flights.push(undecided(key, tap, hold, c)), layers, t).1 == layers,
        spec_poll(flights.push(undecided(key, tap, hold, c)), layers, t).2 == Seq::<
            Action<Code>,
        >::empty(),
{
    lemma_poll_inactive(flights, layers, t);
    let whole = flights.push(undecided(key, tap, hold, c));
    assert(whole.drop_last() =~= flights);
    assert(whole.last() == undecided(key, tap, hold, c));
    assert(spec_poll(whole, layers, t).0 =~= flights.push(
        undecided(key, tap, hold, (c + 1) as u64),
    ));
}

/// A poll on a table of decided entries plus one undecided hold whose
/// counter crosses the threshold: the hold decides and starts.
proof fn lemma_poll_crosses_threshold(
    flights: Seq<InFlight>,
    layers: Seq<LayerId>,
    t: u64,
    key: KeyId,
    tap: KeyAction,
    hold: KeyAction,
    c: u64,
)
    requires
        forall|i: int| 0 <= i < flights.len() ==> !(flights[i].state is Undecided),
        c + 1 >= t,
    ensures
        spec_poll(flights.push(undecided(key, tap, hold, c)), layers, t).0 == flights.push(
            decided_hold(key, hold),
        ),
        spec_poll(flights.push(undecided(key, tap, hold, c)), layers, t).1 == start_layers(
            layers,
            hold,
        ),
        spec_poll(flights.push(undecided(key, tap, hold, c)), layers, t).2 == start_actions(hold),
{
    lemma_poll_inactive(flights, layers, t);
    let whole = flights.push(undecided(key, tap, hold, c));
    assert(whole.drop_last() =~= flights);
    assert(whole.last() == undecided(key, tap, hold, c));
    assert(spec_poll(whole, layers, t).0 =~= flights.push(decided_hold(key, hold)));
    assert(Seq::<Action<Code>>::empty() + start_actions(hold) =~= start_actions(hold));
}

/// Running one event is stepping it.
pub proof fn lemma_run_one(m: EngineModel, binds: Seq<Binding>, t: u64, e: Event<KeyId>)
    ensures
        spec_run(m, binds, t, seq![e]).0 == spec_step(m, binds, t, e).0,
        spec_run(m, binds, t, seq![e]).1 == spec_step(m, binds, t, e).1,
{
    let no_events = Seq::<Event<KeyId>>::empty();
    assert(seq![e].drop_last() =~= no_events);
    assert(seq![e].last() == e);
    assert(spec_run(m, binds, t, no_events).0 == m);
    assert(spec_run(m, binds, t, no_events).1 =~= Seq::<Action<Code>>::empty());
    assert(Seq::<Action<Code>>::empty() + spec_step(m, binds, t, e).1 =~= spec_step(
        m,
        binds,
        t,
        e,
    ).1);
}

/// Batch equivalence: running a concatenation of two event sequences
/// reaches the state that running them one after the other reaches, and
/// emits the two action lists concatenated in the same order. Hence
/// `transition_events` over any split of a sequence — in particular
/// event by event — agrees with one batch run.
pub proof fn lemma_run_append(
    m: EngineModel,
    binds: Seq<Binding>,
    t: u64,
    s1: Seq<Event<KeyId>>,
    s2: Seq<Event<KeyId>>,
)
    ensures
        spec_run(m, binds, t, s1 + s2).0 == spec_run(
            spec_run(m, binds, t, s1).0,
            binds,
            t,
            s2,
        ).0,
        spec_run(m, binds, t, s1 + s2).1 == spec_run(m, binds, t, s1).1 + spec_run(
            spec_run(m, binds, t, s1).0,
            binds,
            t,
            s2,
        ).1,
    decreases s2.len(),
{
    let mid = spec_run(m, binds, t, s1).0;
    if s2.len() == 0 {
        assert(s1 + s2 =~= s1);
        assert(spec_run(m, binds, t, s1).1 + spec_run(mid, binds, t, s2).1 =~= spec_run(
            m,
            binds,
            t,
            s1,
        ).1);
    } else {
        lemma_run_append(m, binds, t, s1, s2.drop_last());
        assert((s1 + s2).drop_last() =~= s1 + s2.drop_last());
        assert((s1 + s2).last() == s2.last());
        let r1 = spec_run(m, binds, t, s1).1;
        let r2 = spec_run(mid, binds, t, s2.drop_last()).1;
        let r3 = spec_step(spec_run(mid, binds, t, s2.drop_last()).0, binds, t, s2.last()).1;
        assert((r1 + r2) + r3 =~= r1 + (r2 + r3));
    }
}

/// Duplicate press safety: pressing a key that is already in flight
/// changes no state and emits nothing, so the original in-flight entry
/// still resolves normally on its release.
pub proof fn lemma_duplicate_press(m: EngineModel, binds: Seq<Binding>, t: u64, key: KeyId)
    requires
        has_key(m.flights, key),
    ensures
        spec_step(m, binds, t, Event::KeyPress(key)).0 == m,
        spec_step(m, binds, t, Event::KeyPress(key)).1 == Seq::<Action<Code>>::empty(),
{
    assert(spec_step(m, binds, t, Event::KeyPress(key)).1 =~= Seq::<Action<Code>>::empty());
}

/// Idempotent unmapped keys: pressing a key with no binding under the
/// active layer emits nothing and merely occupies an inert slot, and
/// releasing it emits nothing and restores the engine's state exactly —
/// so any number of such press/release pairs, under any layer, never
/// emits an action.
pub proof fn lemma_unmapped_key_roundtrip(m: EngineModel, binds: Seq<Binding>, t: u64, key: KeyId)
    requires
        !has_key(m.flights, key),
        lookup_in(binds, m.layers.last(), key) is None,
    ensures
        spec_step(m, binds, t, Event::KeyPress(key)).1 == Seq::<Action<Code>>::empty(),
        spec_step(m, binds, t, Event::KeyPress(key)).0.layers == m.layers,
        spec_step(
            spec_step(m, binds, t, Event::KeyPress(key)).0,
            binds,
            t,
            Event::KeyRelease(key),
        ).0 == m,
        spec_step(
            spec_step(m, binds, t, Event::KeyPress(key)).0,
            binds,
            t,
            Event::KeyRelease(key),
        ).1 == Seq::<Action<Code>>::empty(),
{
    let f = InFlight { key, state: KeyState::Inert };
    let m1 = spec_step(m, binds, t, Event::KeyPress(key)).0;
    assert(m1.flights == m.flights.push(f));
    lemma_key_index_push_fresh(m.flights, f);
    assert(spec_step(m1, binds, t, Event::KeyRelease(key)).0 =~= m);
    assert(spec_step(m, binds, t, Event::KeyPress(key)).1 =~= Seq::<Action<Code>>::empty());
    assert(spec_step(m1, binds, t, Event::KeyRelease(key)).1 =~= Seq::<Action<Code>>::empty());
}

/// `n` press/release pairs of one key, one after the other.
pub open spec fn press_release_rounds(key: KeyId, n: nat) -> Seq<Event<KeyId>>
    decreases n,
{
    if n == 0 {
        seq![]
    } else {
        press_release_rounds(key, (n - 1) as nat) + seq![
            Event::KeyPress(key),
            Event::KeyRelease(key),
        ]
    }
}

/// Idempotent unmapped keys, over any count: any number of press/release
/// pairs of a key with no binding under the active layer emits no action
/// at all and ends in the state it began in.
pub proof fn lemma_unmapped_key_rounds(
    m: EngineModel,
    binds: Seq<Binding>,
    t: u64,
    key: KeyId,
    n: nat,
)
    requires
        !has_key(m.flights, key),
        lookup_in(binds, m.layers.last(), key) is None,
    ensures
        spec_run(m, binds, t, press_release_rounds(key, n)).0 == m,
        spec_run(m, binds, t, press_release_rounds(key, n)).1 == Seq::<Action<Code>>::empty(),
    decreases n,
{
    if n == 0 {
        assert(spec_run(m, binds, t, press_release_rounds(key, 0)).0 == m);
    } else {
        lemma_unmapped_key_rounds(m, binds, t, key, (n - 1) as nat);
        let pair = seq![Event::KeyPress(key), Event::KeyRelease(key)];
        lemma_run_append(m, binds, t, press_release_rounds(key, (n - 1) as nat), pair);
        lemma_unmapped_key_roundtrip(m, binds, t, key);
        let m1 = spec_step(m, binds, t, Event::KeyPress(key)).0;
        assert(pair.drop_last() =~= seq![Event::KeyPress(key)]);
        assert(pair.last() == Event::KeyRelease(key));
        lemma_run_one(m, binds, t, Event::KeyPress(key));
        assert(spec_run(m, binds, t, pair).0 == m);
        assert(spec_run(m, binds, t, pair).1 =~= Seq::<Action<Code>>::empty());
        assert(Seq::<Action<Code>>::empty() + Seq::<Action<Code>>::empty() =~= Seq::<
            Action<Code>,
        >::empty());
    }
}

/// Pressing a hold-configured key and delivering `j` polls, `j` short of
/// the threshold, leaves the key undecided with counter `j`, the rest of
/// the engine untouched, and nothing emitted. The other in-flight
/// entries must not be undecided holds of their own, so that the polls
/// concern only this key.
proof fn lemma_press_then_polls(
    m: EngineModel,
    binds: Seq<Binding>,
    t: u64,
    key: KeyId,
    tap: KeyAction,
    hold: KeyAction,
    j: nat,
)
    requires
        m.layers.len() >= 1,
        !has_key(m.flights, key),
        forall|i: int| 0 <= i < m.flights.len() ==> !(m.flights[i].state is Undecided),
        lookup_in(binds, m.layers.last(), key) == Some(
            KeyConfig::Hold { tap_action: tap, hold_action: hold },
        ),
        j < t,
    ensures
        spec_run(m, binds, t, seq![Event::KeyPress(key)] + poll_ticks(j)).0.flights == m.flights
            .push(undecided(key, tap, hold, j as u64)),
        spec_run(m, binds, t, seq![Event::KeyPress(key)] + poll_ticks(j)).0.layers == m.layers,
        spec_run(m, binds, t, seq![Event::KeyPress(key)] + poll_ticks(j)).1 == Seq::<
            Action<Code>,
        >::empty(),
    decreases j,
{
    let press = seq![Event::KeyPress(key)];
    if j == 0 {
        assert(press + poll_ticks(0) =~= press);
        lemma_run_one(m, binds, t, Event::KeyPress(key));
        assert(spec_press(m, binds, key).0.flights == m.flights.push(
            undecided(key, tap, hold, 0),
        ));
        assert(spec_press(m, binds, key).1 =~= Seq::<Action<Code>>::empty());
    } else {
        lemma_press_then_polls(m, binds, t, key, tap, hold, (j - 1) as nat);
        let s = press + poll_ticks(j);
        let prev = press + poll_ticks((j - 1) as nat);
        assert(s.drop_last() =~= prev);
        assert(s.last() == Event::<KeyId>::Poll);
        let m1 = spec_run(m, binds, t, prev).0;
        assert(m1.flights == m.flights.push(undecided(key, tap, hold, (j - 1) as u64)));
        lemma_poll_under_threshold(m.flights, m.layers, t, key, tap, hold, (j - 1) as u64);
        assert(spec_run(m, binds, t, s).1 =~= Seq::<Action<Code>>::empty());
    }
}

/// Tap before threshold: pressing a hold-configured key and releasing it
/// with fewer than threshold-many intervening polls emits exactly the
/// tap action's pulse — its activation then its deactivation — never the
/// hold action, and returns the engine to its prior state. The other
/// in-flight entries must not be undecided holds of their own, so that
/// the polls concern only this key.
pub proof fn lemma_tap_before_threshold(
    m: EngineModel,
    binds: Seq<Binding>,
    t: u64,
    key: KeyId,
    tap: KeyAction,
    hold: KeyAction,
    j: nat,
)
    requires
        m.layers.len() >= 1,
        !has_key(m.flights, key),
        forall|i: int| 0 <= i < m.flights.len() ==> !(m.flights[i].state is Undecided),
        lookup_in(binds, m.layers.last(), key) == Some(
            KeyConfig::Hold { tap_action: tap, hold_action: hold },
        ),
        j < t,
    ensures
        spec_run(
            m,
            binds,
            t,
            seq![Event::KeyPress(key)] + poll_ticks(j) + seq![Event::KeyRelease(key)],
        ).1 == start_actions(tap) + end_actions(tap),
        spec_run(
            m,
            binds,
            t,
            seq![Event::KeyPress(key)] + poll_ticks(j) + seq![Event::KeyRelease(key)],
        ).0 == m,
{
    lemma_press_then_polls(m, binds, t, key, tap, hold, j);
    let prefix = seq![Event::KeyPress(key)] + poll_ticks(j);
    let m1 = spec_run(m, binds, t, prefix).0;
    let f = undecided(key, tap, hold, j as u64);
    lemma_run_append(m, binds, t, prefix, seq![Event::KeyRelease(key)]);
    lemma_run_one(m1, binds, t, Event::KeyRelease(key));
    lemma_key_index_push_fresh(m.flights, f);
    lemma_start_end_cancel(m.layers, tap);
    assert(spec_release(m1, key).0 =~= m);
    assert(Seq::<Action<Code>>::empty() + spec_release(m1, key).1 =~= spec_release(m1, key).1);
}

/// Hold after threshold: pressing a hold-configured key and delivering
/// exactly threshold-many polls while it stays pressed emits the hold
/// action's activation on that last poll and nothing before it; the
/// release that follows emits the hold action's deactivation — never the
/// tap action — and returns the engine to its prior state. The other
/// in-flight entries must not be undecided holds of their own, so that
/// the polls concern only this key; the threshold must name at least one
/// poll for "the poll that crosses it" to exist.
pub proof fn lemma_hold_after_threshold(
    m: EngineModel,
    binds: Seq<Binding>,
    t: u64,
    key: KeyId,
    tap: KeyAction,
    hold: KeyAction,
)
    requires
        m.layers.len() >= 1,
        !has_key(m.flights, key),
        forall|i: int| 0 <= i < m.flights.len() ==> !(m.flights[i].state is Undecided),
        lookup_in(binds, m.layers.last(), key) == Some(
            KeyConfig::Hold { tap_action: tap, hold_action: hold },
        ),
        t >= 1,
    ensures
        spec_run(m, binds, t, seq![Event::KeyPress(key)] + poll_ticks((t - 1) as nat)).1 == Seq::<
            Action<Code>,
        >::empty(),
        spec_run(m, binds, t, seq![Event::KeyPress(key)] + poll_ticks(t as nat)).1
            == start_actions(hold),
        spec_run(
            m,
            binds,
            t,
            seq![Event::KeyPress(key)] + poll_ticks(t as nat) + seq![Event::KeyRelease(key)],
        ).1 == start_actions(hold) + end_actions(hold),
        spec_run(
            m,
            binds,
            t,
            seq![Event::KeyPress(key)] + poll_ticks(t as nat) + seq![Event::KeyRelease(key)],
        ).0 == m,
{
    lemma_press_then_polls(m, binds, t, key, tap, hold, (t - 1) as nat);
    let press = seq![Event::KeyPress(key)];
    let prefix = press + poll_ticks(t as nat);
    let prev = press + poll_ticks((t - 1) as nat);
    assert(prefix.drop_last() =~= prev);
    assert(prefix.last() == Event::<KeyId>::Poll);
    lemma_poll_crosses_threshold(m.flights, m.layers, t, key, tap, hold, (t - 1) as u64);
    let m2 = spec_run(m, binds, t, prefix).0;
    assert(m2.flights == m.flights.push(decided_hold(key, hold)));
    assert(m2.layers == start_layers(m.layers, hold));
    assert(spec_run(m, binds, t, prefix).1 =~= start_actions(hold));
    lemma_run_append(m, binds, t, prefix, seq![Event::KeyRelease(key)]);
    lemma_run_one(m2, binds, t, Event::KeyRelease(key));
    lemma_key_index_push_fresh(m.flights, decided_hold(key, hold));
    lemma_start_end_cancel(m.layers, hold);
    assert(spec_release(m2, key).0 =~= m);
    assert(spec_release(m2, key).1 == end_actions(hold));
}

/// The base layer is never removable: every step keeps the layer stack
/// nonempty and keeps its bottom entry.
pub proof fn lemma_step_preserves_base(
    m: EngineModel,
    binds: Seq<Binding>,
    t: u64,
    event: Event<KeyId>,
)
    requires
        m.layers.len() >= 1,
    ensures
        spec_step(m, binds, t, event).0.layers.len() >= 1,
        spec_step(m, binds, t, event).0.layers[0] == m.layers[0],
{
    if event is Poll {
        lemma_poll_pointwise(m.flights, m.layers, t);
    }
}

/// What a release emits is a function of the press-time snapshot alone:
/// two engines whose in-flight tables agree emit the same actions on a
/// release, whatever their layer stacks hold and however their mappers
/// have changed since the press.
pub proof fn lemma_release_honours_snapshot(m1: EngineModel, m2: EngineModel, key: KeyId)
    requires
        m1.flights == m2.flights,
    ensures
        spec_release(m1, key).1 == spec_release(m2, key).1,
{
}

/// Layer isolation: a press resolves the key under the layer that is
/// active at that moment and snapshots what it finds. Here a
/// hold-configured key is pressed under the active layer, then a
/// momentary layer key switches the active layer; the first key's
/// release still resolves by the snapshot — the tap pulse of the layer
/// it was pressed under — while the new layer sits on top of the stack.
/// What the new layer binds to the key never enters.
pub proof fn lemma_layer_isolation(
    m: EngineModel,
    binds: Seq<Binding>,
    t: u64,
    key: KeyId,
    tap: KeyAction,
    hold: KeyAction,
    layer_key: KeyId,
    new_layer: LayerId,
)
    requires
        m.layers.len() >= 1,
        !has_key(m.flights, key),
        !has_key(m.flights, layer_key),
        layer_key != key,
        lookup_in(binds, m.layers.last(), key) == Some(
            KeyConfig::Hold { tap_action: tap, hold_action: hold },
        ),
        lookup_in(binds, m.layers.last(), layer_key) == Some(
            KeyConfig::Tap { action: KeyAction::PushLayer(new_layer) },
        ),
    ensures
        spec_run(m, binds, t, seq![Event::KeyPress(key), Event::KeyPress(layer_key)]).0.layers
            == m.layers.push(new_layer),
        spec_run(
            m,
            binds,
            t,
            seq![
                Event::KeyPress(key),
                Event::KeyPress(layer_key),
                Event::KeyRelease(key),
            ],
        ).1 == start_actions(tap) + end_actions(tap),
{
    let e1 = Event::KeyPress(key);
    let e2 = Event::KeyPress(layer_key);
    let e3 = Event::KeyRelease(key);
    let f1 = undecided(key, tap, hold, 0);
    let m1 = spec_press(m, binds, key).0;
    assert(m1.flights == m.flights.push(f1));
    assert(m1.layers == m.layers);
    lemma_has_key_push(m.flights, f1, layer_key);
    let f2 = InFlight {
        key: layer_key,
        state: KeyState::TapActive { action: KeyAction::PushLayer(new_layer) },
    };
    let m2 = spec_press(m1, binds, layer_key).0;
    assert(m2.flights == m.flights.push(f1).push(f2));
    assert(m2.layers == m.layers.push(new_layer));
    let two = seq![e1, e2];
    assert(two.drop_last() =~= seq![e1]);
    assert(two.last() == e2);
    lemma_run_one(m, binds, t, e1);
    assert(spec_run(m, binds, t, two).0 == m2);
    let three = seq![e1, e2, e3];
    assert(three.drop_last() =~= two);
    assert(three.last() == e3);
    assert forall|p: int| 0 <= p < m.flights.len() implies m2.flights[p].key != key by {
        assert(m2.flights[p] == m.flights[p]);
    }
    assert(m2.flights[m.flights.len() as int].key == key);
    lemma_key_index_first(m2.flights, key, m.flights.len() as int);
    assert(spec_release(m2, key).1 == start_actions(tap) + end_actions(tap));
    assert(spec_run(m, binds, t, two).1 =~= Seq::<Action<Code>>::empty());
    assert(spec_run(m, binds, t, three).1 =~= start_actions(tap) + end_actions(tap));
}

} // verus!
