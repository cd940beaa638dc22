//! Per-key behaviour descriptors and engine settings.
//!
//! These are pure, immutable, data-only values; the resolution state
//! machine pattern-matches them, nothing more. Malformed configurations
//! (say, a `PushLayer` naming a layer no mapper binds) are not rejected
//! at construction: they simply resolve to nothing when consulted.

use vstd::prelude::*;

verus! {

/// A key identifier: an opaque scan code, only ever compared for equality
/// and used as a lookup key.
pub type KeyId = u16;

/// A layer identifier: an opaque remapping context.
pub type LayerId = u16;

/// A logical output code: the opaque payload the engine emits, never
/// interpreted by it.
pub type Code = u16;

/// The atomic output a key can request.
#[derive(PartialEq, Debug, Clone, Copy)]
pub enum KeyAction {
    /// Keep the logical code active for as long as the action is active.
    SendKey(Code),
    /// Make the layer the active lookup context for as long as the action
    /// is active.
    PushLayer(LayerId),
}

/// Per-(layer, key) behaviour descriptor.
#[derive(PartialEq, Debug, Clone, Copy)]
pub enum KeyConfig {
    /// Fires deterministically on the press/release pair: the action
    /// starts at press and ends at release, with no disambiguation.
    /// A `Tap`-configured `PushLayer` is therefore a momentary layer
    /// switch, held while the key is held — the classic `Fn` key.
    Tap { action: KeyAction },
    /// Requires timed disambiguation: released before the hold threshold,
    /// the tap action fires as a complete pulse at release; once the
    /// threshold of polls elapses while pressed, the hold action starts,
    /// and ends at release.
    Hold { tap_action: KeyAction, hold_action: KeyAction },
}

/// How many `Poll` events must elapse, while a key stays pressed, before
/// it counts as held rather than tapped, when no other threshold is given.
pub const DEFAULT_HOLD_THRESHOLD: u64 = 2;

/// Engine settings.
#[derive(PartialEq, Debug, Clone, Copy)]
pub struct Settings {
    /// Number of `Poll` events that must elapse, while a key remains
    /// pressed, before it is classified as held rather than tapped.
    pub hold_threshold: u64,
}

impl Default for Settings {
    /// Settings with the default hold threshold.
    fn default() -> (r: Self)
        ensures
            r.hold_threshold == DEFAULT_HOLD_THRESHOLD,
    {
        Settings { hold_threshold: DEFAULT_HOLD_THRESHOLD }
    }
}

} // verus!
