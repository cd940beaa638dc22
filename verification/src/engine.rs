//! The logical keyboard: the layered tap/hold key-resolution engine.
//!
//! The engine owns a layer stack and a table of in-flight keys, and
//! consumes one event at a time. Its whole behaviour is stated by the
//! spec-level step function [`spec_step`]: `transition` promises to
//! change the engine's model and to return exactly the actions that
//! `spec_step` gives.
//!
//! Timing is a count of caller-delivered `Poll` events; the engine holds
//! no clock. A key's configuration is snapshotted at press time, so later
//! layer changes never retroactively alter a key already in flight.

use vstd::prelude::*;
use crate::config::{Code, KeyAction, KeyConfig, KeyId, LayerId, Settings};
use crate::keyboard::{Action, Event, Keyboard, MultiEventKeyboard};
use crate::mapper::{lookup_in, Binding, LayerMapper};

verus! {

/// Disambiguation state of one in-flight key, snapshotted at press time.
#[derive(PartialEq, Debug, Clone, Copy)]
pub enum KeyState {
    /// The key was unbound at press time: it occupies a slot so that its
    /// release is recognised, and never emits anything.
    Inert,
    /// A `Tap`-configured key: the action started at press and ends at
    /// release.
    TapActive { action: KeyAction },
    /// A `Hold`-configured key not yet classified; `polls` counts the
    /// `Poll` events seen since the press.
    Undecided { tap_action: KeyAction, hold_action: KeyAction, polls: u64 },
    /// A `Hold`-configured key classified as held: the hold action has
    /// started and ends at release.
    DecidedHold { hold_action: KeyAction },
}

/// One in-flight key: a key between its press and its matching release.
#[derive(PartialEq, Debug, Clone, Copy)]
pub struct InFlight {
    pub key: KeyId,
    pub state: KeyState,
}

/// The part of the engine's state that events transform: the in-flight
/// table and the layer stack (base layer first, active layer last).
#[verifier::ext_equal]
pub struct EngineModel {
    pub flights: Seq<InFlight>,
    pub layers: Seq<LayerId>,
}

/// The actions emitted when a key action starts.
pub open spec fn start_actions(a: KeyAction) -> Seq<Action<Code>> {
    match a {
        KeyAction::SendKey(code) => seq![Action::SendCode(code)],
        KeyAction::PushLayer(_) => seq![],
    }
}

/// The actions emitted when a started key action ends.
pub open spec fn end_actions(a: KeyAction) -> Seq<Action<Code>> {
    match a {
        KeyAction::SendKey(code) => seq![Action::Stop(code)],
        KeyAction::PushLayer(_) => seq![],
    }
}

/// What starting a key action does to the layer stack.
pub open spec fn start_layers(layers: Seq<LayerId>, a: KeyAction) -> Seq<LayerId> {
    match a {
        KeyAction::SendKey(_) => layers,
        KeyAction::PushLayer(l) => layers.push(l),
    }
}

/// What ending a key action does to the layer stack: a pushed layer is
/// popped only while it is still the top and is not the base — a pop
/// that would miss or empty the stack is skipped, not forced.
pub open spec fn end_layers(layers: Seq<LayerId>, a: KeyAction) -> Seq<LayerId> {
    match a {
        KeyAction::SendKey(_) => layers,
        KeyAction::PushLayer(l) => if layers.len() > 1 && layers.last() == l {
            layers.drop_last()
        } else {
            layers
        },
    }
}

/// Whether some in-flight entry holds `key`.
pub open spec fn has_key(flights: Seq<InFlight>, key: KeyId) -> bool {
    exists|i: int| 0 <= i < flights.len() && flights[i].key == key
}

/// The index of the earliest in-flight entry holding `key`.
pub open spec fn key_index(flights: Seq<InFlight>, key: KeyId) -> int
    decreases flights.len(),
{
    if flights.len() == 0 {
        0
    } else if flights[0].key == key {
        0
    } else {
        1 + key_index(flights.drop_first(), key)
    }
}

/// The in-flight state a press records for a key whose lookup gave `cfg`.
pub open spec fn snapshot(cfg: Option<KeyConfig>) -> KeyState {
    match cfg {
        None => KeyState::Inert,
        Some(KeyConfig::Tap { action }) => KeyState::TapActive { action },
        Some(KeyConfig::Hold { tap_action, hold_action }) => KeyState::Undecided {
            tap_action,
            hold_action,
            polls: 0,
        },
    }
}

/// What a `KeyPress` does: a duplicate press of an in-flight key is
/// ignored; otherwise the key's configuration under the active layer is
/// snapshotted into a new in-flight entry, and a `Tap` configuration
/// starts its action at once.
pub open spec fn spec_press(m: EngineModel, binds: Seq<Binding>, key: KeyId) -> (
    EngineModel,
    Seq<Action<Code>>,
) {
    if has_key(m.flights, key) {
        (m, seq![])
    } else {
        let st = snapshot(lookup_in(binds, m.layers.last(), key));
        let flights = m.flights.push((InFlight { key, state: st }));
        match st {
            KeyState::TapActive { action } => (
                (EngineModel { flights, layers: start_layers(m.layers, action) }),
                start_actions(action),
            ),
            _ => ((EngineModel { flights, layers: m.layers }), seq![]),
        }
    }
}

/// How one `Poll` advances one in-flight entry: only an undecided hold
/// reacts; once its counter reaches the threshold it is classified as
/// held.
pub open spec fn poll_flight(f: InFlight, threshold: u64) -> InFlight {
    match f.state {
        KeyState::Undecided { tap_action, hold_action, polls } => if polls + 1 >= threshold {
            InFlight { key: f.key, state: KeyState::DecidedHold { hold_action } }
        } else {
            InFlight {
                key: f.key,
                state: KeyState::Undecided {
                    tap_action,
                    hold_action,
                    polls: (polls + 1) as u64,
                },
            }
        },
        _ => f,
    }
}

/// Whether one `Poll` classifies this entry as held.
pub open spec fn poll_decides(f: InFlight, threshold: u64) -> bool {
    f.state matches KeyState::Undecided { polls, .. } && polls + 1 >= threshold
}

/// The hold action of an undecided entry, for the moment it decides.
pub open spec fn undecided_hold_action(f: InFlight) -> KeyAction
    recommends
        f.state is Undecided,
{
    match f.state {
        KeyState::Undecided { hold_action, .. } => hold_action,
        _ => KeyAction::SendKey(0),
    }
}

/// What one `Poll` does to the whole in-flight table, front to back:
/// every undecided hold counts the tick, and each one that crosses the
/// threshold starts its hold action, in table order.
pub open spec fn spec_poll(flights: Seq<InFlight>, layers: Seq<LayerId>, threshold: u64) -> (
    Seq<InFlight>,
    Seq<LayerId>,
    Seq<Action<Code>>,
)
    decreases flights.len(),
{
    if flights.len() == 0 {
        (seq![], layers, seq![])
    } else {
        let r = spec_poll(flights.drop_last(), layers, threshold);
        let f = flights.last();
        if poll_decides(f, threshold) {
            let a = undecided_hold_action(f);
            (r.0.push(poll_flight(f, threshold)), start_layers(r.1, a), r.2 + start_actions(a))
        } else {
            (r.0.push(poll_flight(f, threshold)), r.1, r.2)
        }
    }
}

/// The actions a release of an entry in state `st` emits. They depend on
/// the press-time snapshot alone, never on the layer stack at release
/// time: a hold released before its threshold fires its tap action as a
/// complete start/end pulse, a decided hold ends its hold action, a tap
/// ends its action, and an inert entry emits nothing.
pub open spec fn release_actions(st: KeyState) -> Seq<Action<Code>> {
    match st {
        KeyState::Inert => seq![],
        KeyState::TapActive { action } => end_actions(action),
        KeyState::Undecided { tap_action, .. } => start_actions(tap_action) + end_actions(
            tap_action,
        ),
        KeyState::DecidedHold { hold_action } => end_actions(hold_action),
    }
}

/// What a release of an entry in state `st` does to the layer stack.
pub open spec fn release_layers(st: KeyState, layers: Seq<LayerId>) -> Seq<LayerId> {
    match st {
        KeyState::Inert => layers,
        KeyState::TapActive { action } => end_layers(layers, action),
        KeyState::Undecided { tap_action, .. } => end_layers(
            start_layers(layers, tap_action),
            tap_action,
        ),
        KeyState::DecidedHold { hold_action } => end_layers(layers, hold_action),
    }
}

/// What a `KeyRelease` does: a release with no in-flight entry is
/// spurious and ignored; otherwise the earliest entry for the key is
/// removed and resolves per its snapshot.
pub open spec fn spec_release(m: EngineModel, key: KeyId) -> (EngineModel, Seq<Action<Code>>) {
    if !has_key(m.flights, key) {
        (m, seq![])
    } else {
        let i = key_index(m.flights, key);
        let st = m.flights[i].state;
        (
            (EngineModel {
                flights: m.flights.remove(i),
                layers: release_layers(st, m.layers),
            }),
            release_actions(st),
        )
    }
}

/// The engine's whole behaviour on one event.
pub open spec fn spec_step(
    m: EngineModel,
    binds: Seq<Binding>,
    threshold: u64,
    event: Event<KeyId>,
) -> (EngineModel, Seq<Action<Code>>) {
    match event {
        Event::KeyPress(key) => spec_press(m, binds, key),
        Event::KeyRelease(key) => spec_release(m, key),
        Event::Poll => {
            let r = spec_poll(m.flights, m.layers, threshold);
            ((EngineModel { flights: r.0, layers: r.1 }), r.2)
        },
    }
}

/// The engine's behaviour on a sequence of events, folded in arrival
/// order with the action lists concatenated.
pub open spec fn spec_run(
    m: EngineModel,
    binds: Seq<Binding>,
    threshold: u64,
    events: Seq<Event<KeyId>>,
) -> (EngineModel, Seq<Action<Code>>)
    decreases events.len(),
{
    if events.len() == 0 {
        (m, seq![])
    } else {
        let r = spec_run(m, binds, threshold, events.drop_last());
        let s = spec_step(r.0, binds, threshold, events.last());
        (s.0, r.1 + s.1)
    }
}

/// No two in-flight entries hold the same key.
pub open spec fn keys_unique(flights: Seq<InFlight>) -> bool {
    forall|i: int, j: int| 0 <= i < j < flights.len() ==> flights[i].key != flights[j].key
}

/// The logical keyboard: the single entry point that consumes events and
/// produces actions, owning the layer stack, the in-flight table, the
/// layer mapper and the settings.
pub struct LogicalKeyboard {
    base: LayerId,
    pushed: Vec<LayerId>,
    flights: Vec<InFlight>,
    mapper: LayerMapper,
    settings: Settings,
}

impl LogicalKeyboard {
    /// The layer stack: the base layer, always at the bottom and never
    /// removable, then the pushed layers; the active layer is the last.
    pub closed spec fn layers(self) -> Seq<LayerId> {
        seq![self.base] + self.pushed@
    }

    /// The in-flight table, in press order.
    pub closed spec fn flights(self) -> Seq<InFlight> {
        self.flights@
    }

    /// The bindings of the engine's layer mapper.
    pub closed spec fn bindings(self) -> Seq<Binding> {
        self.mapper.bindings()
    }

    /// The engine's hold threshold.
    pub closed spec fn threshold(self) -> u64 {
        self.settings.hold_threshold
    }

    /// The state that events transform.
    pub open spec fn model(self) -> EngineModel {
        EngineModel { flights: self.flights(), layers: self.layers() }
    }

    /// Engine well-formedness: the layer stack is never empty, and each
    /// key has at most one in-flight entry.
    pub open spec fn wf(self) -> bool {
        self.layers().len() >= 1 && keys_unique(self.flights())
    }

    /// A fresh engine: no key in flight, the layer stack holding only
    /// `base_layer`, looking keys up in `mapper` under `settings`.
    pub fn new(base_layer: LayerId, mapper: LayerMapper, settings: Settings) -> (r: Self)
        ensures
            r.layers() == seq![base_layer],
            r.flights() == Seq::<InFlight>::empty(),
            r.bindings() == mapper.bindings(),
            r.threshold() == settings.hold_threshold,
            r.wf(),
    {
        let r = LogicalKeyboard {
            base: base_layer,
            pushed: Vec::new(),
            flights: Vec::new(),
            mapper,
            settings,
        };
        proof {
            assert(r.layers() =~= seq![base_layer]);
        }
        r
    }

    /// The layer new presses are resolved under: the top of the stack.
    pub fn active_layer(&self) -> (r: LayerId)
        ensures
            r == self.layers().last(),
    {
        if self.pushed.len() == 0 {
            self.base
        } else {
            self.pushed[self.pushed.len() - 1]
        }
    }

    /// Force-clear hook: forgets every in-flight key and collapses the
    /// layer stack to the base layer, emitting none of the normal stop
    /// actions — a deliberate data-loss operation for when the physical
    /// key states are unknown (say, after device-level event loss).
    pub fn clear(&mut self)
        ensures
            final(self).flights() == Seq::<InFlight>::empty(),
            final(self).layers() == seq![old(self).layers()[0]],
            final(self).bindings() == old(self).bindings(),
            final(self).threshold() == old(self).threshold(),
            final(self).wf(),
    {
        self.flights.clear();
        self.pushed.clear();
        proof {
            assert(self.layers() =~= seq![old(self).layers()[0]]);
        }
    }

    /// The index of `key`'s in-flight entry, if the key is in flight.
    fn find_flight(&self, key: KeyId) -> (r: Option<usize>)
        ensures
            match r {
                Some(i) => has_key(self.flights(), key) && i == key_index(self.flights(), key)
                    && i < self.flights().len() && self.flights()[i as int].key == key,
                None => !has_key(self.flights(), key),
            },
    {
        let n = self.flights.len();
        let mut i: usize = 0;
        while i < n
            invariant
                i <= n,
                n == self.flights@.len(),
                forall|j: int| 0 <= j < i ==> self.flights@[j].key != key,
            decreases n - i,
        {
            if self.flights[i].key == key {
                proof {
                    lemma_key_index_first(self.flights@, key, i as int);
                }
                return Some(i);
            }
            i = i + 1;
        }
        None
    }

    /// Starts a key action: emits its activation and applies its layer
    /// push.
    fn act_start(&mut self, a: KeyAction) -> (r: Vec<Action<Code>>)
        ensures
            final(self).layers() == start_layers(old(self).layers(), a),
            final(self).flights() == old(self).flights(),
            final(self).bindings() == old(self).bindings(),
            final(self).threshold() == old(self).threshold(),
            r@ == start_actions(a),
    {
        match a {
            KeyAction::SendKey(code) => {
                let mut r: Vec<Action<Code>> = Vec::new();
                r.push(Action::SendCode(code));
                proof {
                    assert(r@ =~= start_actions(a));
                }
                r
            },
            KeyAction::PushLayer(l) => {
                self.pushed.push(l);
                proof {
                    assert(self.layers() =~= old(self).layers().push(l));
                    assert(Seq::<Action<Code>>::empty() =~= start_actions(a));
                }
                Vec::new()
            },
        }
    }

    /// Ends a started key action: emits its deactivation and undoes its
    /// layer push, provided that layer is still the top of the stack.
    fn act_end(&mut self, a: KeyAction) -> (r: Vec<Action<Code>>)
        ensures
            final(self).layers() == end_layers(old(self).layers(), a),
            final(self).flights() == old(self).flights(),
            final(self).bindings() == old(self).bindings(),
            final(self).threshold() == old(self).threshold(),
            r@ == end_actions(a),
    {
        match a {
            KeyAction::SendKey(code) => {
                let mut r: Vec<Action<Code>> = Vec::new();
                r.push(Action::Stop(code));
                proof {
                    assert(r@ =~= end_actions(a));
                }
                r
            },
            KeyAction::PushLayer(l) => {
                proof {
                    assert(old(self).layers().len() == 1 + self.pushed@.len());
                    if self.pushed@.len() > 0 {
                        assert(old(self).layers().last() == self.pushed@.last());
                    }
                }
                if self.pushed.len() > 0 && self.pushed[self.pushed.len() - 1] == l {
                    self.pushed.pop();
                    proof {
                        assert(self.layers() =~= old(self).layers().drop_last());
                    }
                } else {
                    proof {
                        assert(self.layers() == end_layers(old(self).layers(), a));
                    }
                }
                proof {
                    assert(Seq::<Action<Code>>::empty() =~= end_actions(a));
                }
                Vec::new()
            },
        }
    }

    /// Handles a `KeyPress` per [`spec_press`].
    fn handle_press(&mut self, key: KeyId) -> (r: Vec<Action<Code>>)
        ensures
            final(self).model() == spec_press(old(self).model(), old(self).bindings(), key).0,
            r@ == spec_press(old(self).model(), old(self).bindings(), key).1,
            final(self).bindings() == old(self).bindings(),
            final(self).threshold() == old(self).threshold(),
    {
        match self.find_flight(key) {
            Some(_) => {
                proof {
                    assert(Seq::<Action<Code>>::empty() =~= spec_press(
                        old(self).model(),
                        old(self).bindings(),
                        key,
                    ).1);
                }
                Vec::new()
            },
            None => {
                let active = self.active_layer();
                let cfg = self.mapper.lookup(active, key);
                match cfg {
                    None => {
                        self.flights.push(InFlight { key, state: KeyState::Inert });
                        proof {
                            assert(Seq::<Action<Code>>::empty() =~= spec_press(
                                old(self).model(),
                                old(self).bindings(),
                                key,
                            ).1);
                        }
                        Vec::new()
                    },
                    Some(KeyConfig::Tap { action }) => {
                        self.flights.push(
                            InFlight { key, state: KeyState::TapActive { action } },
                        );
                        self.act_start(action)
                    },
                    Some(KeyConfig::Hold { tap_action, hold_action }) => {
                        self.flights.push(
                            InFlight {
                                key,
                                state: KeyState::Undecided { tap_action, hold_action, polls: 0 },
                            },
                        );
                        proof {
                            assert(Seq::<Action<Code>>::empty() =~= spec_press(
                                old(self).model(),
                                old(self).bindings(),
                                key,
                            ).1);
                        }
                        Vec::new()
                    },
                }
            },
        }
    }

    /// Handles a `KeyRelease` per [`spec_release`].
    fn handle_release(&mut self, key: KeyId) -> (r: Vec<Action<Code>>)
        ensures
            final(self).model() == spec_release(old(self).model(), key).0,
            r@ == spec_release(old(self).model(), key).1,
            final(self).bindings() == old(self).bindings(),
            final(self).threshold() == old(self).threshold(),
    {
        match self.find_flight(key) {
            None => {
                proof {
                    assert(Seq::<Action<Code>>::empty() =~= spec_release(
                        old(self).model(),
                        key,
                    ).1);
                }
                Vec::new()
            },
            Some(i) => {
                let f = self.flights.remove(i);
                match f.state {
                    KeyState::Inert => {
                        proof {
                            assert(Seq::<Action<Code>>::empty() =~= spec_release(
                                old(self).model(),
                                key,
                            ).1);
                        }
                        Vec::new()
                    },
                    KeyState::TapActive { action } => self.act_end(action),
                    KeyState::Undecided { tap_action, .. } => {
                        let mut r = self.act_start(tap_action);
                        let mut r2 = self.act_end(tap_action);
                        r.append(&mut r2);
                        r
                    },
                    KeyState::DecidedHold { hold_action } => self.act_end(hold_action),
                }
            },
        }
    }

    /// Handles a `Poll` per [`spec_poll`].
    fn handle_poll(&mut self) -> (r: Vec<Action<Code>>)
        ensures
            final(self).flights() == spec_poll(
                old(self).flights(),
                old(self).layers(),
                old(self).threshold(),
            ).0,
            final(self).layers() == spec_poll(
                old(self).flights(),
                old(self).layers(),
                old(self).threshold(),
            ).1,
            r@ == spec_poll(old(self).flights(), old(self).layers(), old(self).threshold()).2,
            final(self).bindings() == old(self).bindings(),
            final(self).threshold() == old(self).threshold(),
    {
        let ghost orig_flights = self.flights@;
        let ghost orig_layers = self.layers();
        let ghost binds = self.bindings();
        let ghost thr = self.threshold();
        let n = self.flights.len();
        let mut new_flights: Vec<InFlight> = Vec::new();
        let mut actions: Vec<Action<Code>> = Vec::new();
        let mut i: usize = 0;
        proof {
            assert(orig_flights.take(0) =~= Seq::<InFlight>::empty());
        }
        while i < n
            invariant
                i <= n,
                n == self.flights@.len(),
                self.flights@ == orig_flights,
                self.bindings() == binds,
                self.threshold() == thr,
                new_flights@ == spec_poll(orig_flights.take(i as int), orig_layers, thr).0,
                self.layers() == spec_poll(orig_flights.take(i as int), orig_layers, thr).1,
                actions@ == spec_poll(orig_flights.take(i as int), orig_layers, thr).2,
            decreases n - i,
        {
            let f = self.flights[i];
            match f.state {
                KeyState::Undecided { tap_action, hold_action, polls } => {
                    let threshold = self.settings.hold_threshold;
                    if threshold == 0 || polls >= threshold - 1 {
                        new_flights.push(
                            InFlight { key: f.key, state: KeyState::DecidedHold { hold_action } },
                        );
                        let mut a = self.act_start(hold_action);
                        actions.append(&mut a);
                    } else {
                        new_flights.push(
                            InFlight {
                                key: f.key,
                                state: KeyState::Undecided {
                                    tap_action,
                                    hold_action,
                                    polls: polls + 1,
                                },
                            },
                        );
                    }
                },
                _ => {
                    new_flights.push(f);
                },
            }
            i = i + 1;
            proof {
                assert(orig_flights.take(i as int).drop_last() =~= orig_flights.take(i - 1));
                assert(orig_flights.take(i as int).last() == orig_flights[i - 1]);
            }
        }
        proof {
            assert(orig_flights.take(n as int) =~= orig_flights);
        }
        self.flights = new_flights;
        actions
    }

    /// Processes exactly one event against the current state and returns
    /// the actions produced, in the order they were decided. The whole
    /// effect — new in-flight table, new layer stack, and the exact
    /// action list — is [`spec_step`] of the old state; well-formedness
    /// is preserved.
    pub fn transition(&mut self, event: Event<KeyId>) -> (actions: Vec<Action<Code>>)
        ensures
            final(self).model() == spec_step(
                old(self).model(),
                old(self).bindings(),
                old(self).threshold(),
                event,
            ).0,
            actions@ == spec_step(
                old(self).model(),
                old(self).bindings(),
                old(self).threshold(),
                event,
            ).1,
            final(self).bindings() == old(self).bindings(),
            final(self).threshold() == old(self).threshold(),
            old(self).wf() ==> final(self).wf(),
    {
        let r = match event {
            Event::KeyPress(key) => self.handle_press(key),
            Event::KeyRelease(key) => self.handle_release(key),
            Event::Poll => self.handle_poll(),
        };
        proof {
            if old(self).wf() {
                lemma_step_wf(
                    old(self).model(),
                    old(self).bindings(),
                    old(self).threshold(),
                    event,
                );
            }
        }
        r
    }

    /// Folds [`Self::transition`] over the events in arrival order and
    /// concatenates the action lists in the same order: the effect and
    /// output are [`spec_run`] of the old state.
    pub fn transition_events(&mut self, events: &[Event<KeyId>]) -> (actions: Vec<Action<Code>>)
        ensures
            final(self).model() == spec_run(
                old(self).model(),
                old(self).bindings(),
                old(self).threshold(),
                events@,
            ).0,
            actions@ == spec_run(
                old(self).model(),
                old(self).bindings(),
                old(self).threshold(),
                events@,
            ).1,
            final(self).bindings() == old(self).bindings(),
            final(self).threshold() == old(self).threshold(),
            old(self).wf() ==> final(self).wf(),
    {
        let ghost m0 = self.model();
        let ghost binds = self.bindings();
        let ghost thr = self.threshold();
        let ghost wf0 = self.wf();
        let n = events.len();
        let mut actions: Vec<Action<Code>> = Vec::new();
        let mut i: usize = 0;
        proof {
            assert(events@.take(0) =~= Seq::<Event<KeyId>>::empty());
        }
        while i < n
            invariant
                i <= n,
                n == events@.len(),
                self.bindings() == binds,
                self.threshold() == thr,
                self.model() == spec_run(m0, binds, thr, events@.take(i as int)).0,
                actions@ == spec_run(m0, binds, thr, events@.take(i as int)).1,
                wf0 ==> self.wf(),
            decreases n - i,
        {
            let mut a = self.transition(events[i]);
            actions.append(&mut a);
            i = i + 1;
            proof {
                assert(events@.take(i as int).drop_last() =~= events@.take(i - 1));
                assert(events@.take(i as int).last() == events@[i - 1]);
            }
        }
        proof {
            assert(events@.take(n as int) =~= events@);
        }
        actions
    }
}

/// The earliest match decides [`key_index`]: an entry for `key` at `i`
/// with none before it puts the index at `i`.
pub proof fn lemma_key_index_first(flights: Seq<InFlight>, key: KeyId, i: int)
    requires
        0 <= i < flights.len(),
        flights[i].key == key,
        forall|j: int| 0 <= j < i ==> flights[j].key != key,
    ensures
        key_index(flights, key) == i,
    decreases flights.len(),
{
    if i > 0 {
        lemma_key_index_first(flights.drop_first(), key, i - 1);
    }
}

/// One `Poll` keeps the in-flight table's length and advances each entry
/// independently by [`poll_flight`]; the layer stack only grows, keeping
/// what it held.
pub proof fn lemma_poll_pointwise(flights: Seq<InFlight>, layers: Seq<LayerId>, threshold: u64)
    ensures
        spec_poll(flights, layers, threshold).0.len() == flights.len(),
        forall|i: int|
            0 <= i < flights.len() ==> spec_poll(flights, layers, threshold).0[i] == poll_flight(
                flights[i],
                threshold,
            ),
        spec_poll(flights, layers, threshold).1.len() >= layers.len(),
        forall|k: int|
            0 <= k < layers.len() ==> spec_poll(flights, layers, threshold).1[k] == layers[k],
    decreases flights.len(),
{
    if flights.len() > 0 {
        lemma_poll_pointwise(flights.drop_last(), layers, threshold);
    }
}

/// One step preserves well-formedness: the layer stack stays nonempty
/// and in-flight keys stay unique.
pub proof fn lemma_step_wf(
    m: EngineModel,
    binds: Seq<Binding>,
    threshold: u64,
    event: Event<KeyId>,
)
    requires
        m.layers.len() >= 1,
        keys_unique(m.flights),
    ensures
        spec_step(m, binds, threshold, event).0.layers.len() >= 1,
        keys_unique(spec_step(m, binds, threshold, event).0.flights),
{
    match event {
        Event::KeyPress(key) => {
            if !has_key(m.flights, key) {
                let st = snapshot(lookup_in(binds, m.layers.last(), key));
                let flights = m.flights.push((InFlight { key, state: st }));
                assert forall|i: int, j: int| 0 <= i < j < flights.len() implies flights[i].key
                    != flights[j].key by {
                    if j == flights.len() - 1 {
                        assert(flights[i] == m.flights[i]);
                    }
                }
            }
        },
        Event::KeyRelease(key) => {
            if has_key(m.flights, key) {
                let i = key_index(m.flights, key);
                lemma_key_index_in_range(m.flights, key);
                let flights = m.flights.remove(i);
                assert forall|p: int, q: int| 0 <= p < q < flights.len() implies flights[p].key
                    != flights[q].key by {
                    assert(flights[p] == if p < i {
                        m.flights[p]
                    } else {
                        m.flights[p + 1]
                    });
                    assert(flights[q] == if q < i {
                        m.flights[q]
                    } else {
                        m.flights[q + 1]
                    });
                }
            }
        },
        Event::Poll => {
            lemma_poll_pointwise(m.flights, m.layers, threshold);
            let flights = spec_poll(m.flights, m.layers, threshold).0;
            assert forall|i: int, j: int| 0 <= i < j < flights.len() implies flights[i].key
                != flights[j].key by {
                assert(flights[i].key == m.flights[i].key);
                assert(flights[j].key == m.flights[j].key);
            }
        },
    }
}

/// When `key` is in flight, [`key_index`] lands on an entry holding it.
pub proof fn lemma_key_index_in_range(flights: Seq<InFlight>, key: KeyId)
    requires
        has_key(flights, key),
    ensures
        0 <= key_index(flights, key) < flights.len(),
        flights[key_index(flights, key)].key == key,
    decreases flights.len(),
{
    if flights.len() > 0 && flights[0].key != key {
        assert(has_key(flights.drop_first(), key)) by {
            let w = choose|i: int| 0 <= i < flights.len() && flights[i].key == key;
            assert(flights.drop_first()[w - 1].key == key);
        }
        lemma_key_index_in_range(flights.drop_first(), key);
    }
}

impl Keyboard<KeyId, Code> for LogicalKeyboard {
    fn transition(&mut self, event: Event<KeyId>) -> Vec<Action<Code>> {
        LogicalKeyboard::transition(self, event)
    }
}

impl MultiEventKeyboard<KeyId, Code> for LogicalKeyboard {
    fn transition_events(&mut self, events: &[Event<KeyId>]) -> Vec<Action<Code>> {
        LogicalKeyboard::transition_events(self, events)
    }
}

} // verus!

