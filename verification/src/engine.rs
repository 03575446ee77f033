//! The remap engine: one tap/hold state machine per configured mapping.
//!
//! Every transition is stated first as a spec function from the old state and
//! the incoming event to the new state and the events to emit; the executable
//! methods are proved to follow those functions exactly.

use vstd::prelude::*;

use crate::event::{key_out, spec_key_out, OutEvent, VALUE_DOWN, VALUE_UP};

verus! {

/// Default tap/hold threshold, in milliseconds: a trigger released after at
/// least this long held emits no tap.
pub const HOLD_TIMEOUT_MS: u64 = 200;

/// Per-mapping runtime state. Only the engine mutates it.
#[derive(Clone, Copy, Debug, PartialEq, Eq)]
pub struct KeyState {
    /// Whether the trigger key is physically down.
    pub is_pressed: bool,
    /// When the trigger went down, in milliseconds; `None` while released.
    pub time_pressed: Option<u64>,
    /// Whether a qualifying foreign event arrived during the current hold.
    pub is_interrupted: bool,
}

impl KeyState {
    /// The state between cycles: released, no press time, not interrupted.
    pub open spec fn spec_idle() -> KeyState {
        KeyState { is_pressed: false, time_pressed: None, is_interrupted: false }
    }

    /// Legal states: a released mapping carries no press time and no
    /// interruption mark, and a held one always knows when it was pressed.
    pub open spec fn wf(self) -> bool {
        &&& !self.is_pressed ==> self.time_pressed is None && !self.is_interrupted
        &&& self.is_pressed ==> self.time_pressed is Some
    }

    pub fn idle() -> (r: KeyState)
        ensures
            r == KeyState::spec_idle(),
    {
        KeyState { is_pressed: false, time_pressed: None, is_interrupted: false }
    }
}

/// One dual-function mapping with its runtime state: pressing `key` emits
/// `on_hold` for the duration of the press, and a quick uninterrupted
/// press-release additionally emits a tap of `on_tap`.
#[derive(Clone, Copy, Debug, PartialEq, Eq)]
pub struct KeyConfig {
    /// The physical trigger key code.
    pub key: u16,
    /// Key code emitted as a tap on a quick, clean release.
    pub on_tap: u16,
    /// Key code held down for the duration of the physical press.
    pub on_hold: u16,
    /// The mapping's runtime state.
    pub state: KeyState,
}

/// How long a trigger has been held, given a monotonic clock; a clock that
/// appears to run backwards counts as no time held.
pub open spec fn spec_held_ms(pressed_at: u64, now_ms: u64) -> u64 {
    if now_ms >= pressed_at {
        (now_ms - pressed_at) as u64
    } else {
        0
    }
}

/// The tap pulse: a Down immediately followed by an Up of the same key, the
/// Up preceded by the micro-delay.
pub open spec fn spec_tap_pulse(code: u16) -> Seq<OutEvent> {
    seq![spec_key_out(code, VALUE_DOWN, false), spec_key_out(code, VALUE_UP, true)]
}

/// Transition on the trigger's own Down. From released: record the press and
/// emit the hold action's Down. While already held (autorepeat or a duplicate
/// Down): suppressed, no emission and no change.
pub open spec fn spec_press(c: KeyConfig, now_ms: u64) -> (KeyConfig, Seq<OutEvent>) {
    if c.state.is_pressed {
        (c, Seq::empty())
    } else {
        (
            KeyConfig {
                state: KeyState {
                    is_pressed: true,
                    time_pressed: Some(now_ms),
                    is_interrupted: false,
                },
                ..c
            },
            seq![spec_key_out(c.on_hold, VALUE_DOWN, false)],
        )
    }
}

/// Transition on the trigger's own Up. A spurious Up (no prior Down) is
/// ignored. Otherwise the hold action's Up is emitted unconditionally — even
/// after an interruption, so no modifier is left stuck — followed by a tap
/// pulse exactly when the press lasted under the threshold and nothing
/// interrupted it. The state returns to idle either way.
pub open spec fn spec_release(c: KeyConfig, threshold_ms: u64, now_ms: u64) -> (
    KeyConfig,
    Seq<OutEvent>,
) {
    if !c.state.is_pressed {
        (c, Seq::empty())
    } else {
        let taps = spec_held_ms(c.state.time_pressed->0, now_ms) < threshold_ms
            && !c.state.is_interrupted;
        (
            KeyConfig { state: KeyState::spec_idle(), ..c },
            seq![spec_key_out(c.on_hold, VALUE_UP, false)] + if taps {
                spec_tap_pulse(c.on_tap)
            } else {
                Seq::empty()
            },
        )
    }
}

/// Transition of one mapping on an event of its own trigger code. Values
/// other than Down and Up (autorepeat, malformed values) are dropped.
pub open spec fn spec_trigger_step(c: KeyConfig, value: i32, threshold_ms: u64, now_ms: u64) -> (
    KeyConfig,
    Seq<OutEvent>,
) {
    if value == VALUE_DOWN {
        spec_press(c, now_ms)
    } else if value == VALUE_UP {
        spec_release(c, threshold_ms, now_ms)
    } else {
        (c, Seq::empty())
    }
}

impl KeyConfig {
    pub open spec fn wf(self) -> bool {
        self.state.wf()
    }

    /// A fresh mapping in the idle state.
    pub fn new(key: u16, on_tap: u16, on_hold: u16) -> (r: KeyConfig)
        ensures
            r == (KeyConfig { key, on_tap, on_hold, state: KeyState::spec_idle() }),
            r.wf(),
    {
        KeyConfig { key, on_tap, on_hold, state: KeyState::idle() }
    }

    pub fn is_pressed(&self) -> (r: bool)
        ensures
            r == self.state.is_pressed,
    {
        self.state.is_pressed
    }

    /// Marks the current hold as interrupted, disqualifying a future tap.
    pub fn interrupt(&mut self)
        requires
            old(self).wf(),
            old(self).state.is_pressed,
        ensures
            *final(self) == (KeyConfig {
                state: KeyState { is_interrupted: true, ..old(self).state },
                ..*old(self)
            }),
            final(self).wf(),
    {
        self.state.is_interrupted = true;
    }

    /// The trigger went down: follows `spec_press`.
    pub fn handle_key_press(&mut self, now_ms: u64) -> (out: Vec<OutEvent>)
        requires
            old(self).wf(),
        ensures
            *final(self) == spec_press(*old(self), now_ms).0,
            out@ == spec_press(*old(self), now_ms).1,
            final(self).wf(),
    {
        let mut out: Vec<OutEvent> = Vec::new();
        if !self.state.is_pressed {
            self.state = KeyState {
                is_pressed: true,
                time_pressed: Some(now_ms),
                is_interrupted: false,
            };
            out.push(key_out(self.on_hold, VALUE_DOWN, false));
        }
        out
    }

    /// The trigger came up: follows `spec_release`.
    pub fn handle_key_release(&mut self, threshold_ms: u64, now_ms: u64) -> (out: Vec<OutEvent>)
        requires
            old(self).wf(),
        ensures
            *final(self) == spec_release(*old(self), threshold_ms, now_ms).0,
            out@ == spec_release(*old(self), threshold_ms, now_ms).1,
            final(self).wf(),
    {
        let mut out: Vec<OutEvent> = Vec::new();
        if self.state.is_pressed {
            out.push(key_out(self.on_hold, VALUE_UP, false));
            let pressed_at = self.state.time_pressed.unwrap();
            let held_ms: u64 = if now_ms >= pressed_at {
                now_ms - pressed_at
            } else {
                0
            };
            if held_ms < threshold_ms && !self.state.is_interrupted {
                out.push(key_out(self.on_tap, VALUE_DOWN, false));
                out.push(key_out(self.on_tap, VALUE_UP, true));
            }
            self.state = KeyState::idle();
        }
        out
    }

    /// One event of this mapping's own trigger code: follows
    /// `spec_trigger_step`.
    pub fn process_event(&mut self, value: i32, threshold_ms: u64, now_ms: u64) -> (out: Vec<
        OutEvent,
    >)
        requires
            old(self).wf(),
        ensures
            *final(self) == spec_trigger_step(*old(self), value, threshold_ms, now_ms).0,
            out@ == spec_trigger_step(*old(self), value, threshold_ms, now_ms).1,
            final(self).wf(),
    {
        if value == VALUE_DOWN {
            self.handle_key_press(now_ms)
        } else if value == VALUE_UP {
            self.handle_key_release(threshold_ms, now_ms)
        } else {
            Vec::new()
        }
    }
}

} // verus!
