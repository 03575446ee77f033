//! Raw input events and the events the engine asks the caller to emit.

use vstd::prelude::*;

verus! {

/// Event type of a key press/release/repeat (Linux `EV_KEY`).
pub const EV_KEY: u16 = 1;
/// Event type of a synchronization marker (Linux `EV_SYN`).
pub const EV_SYN: u16 = 0;
/// Event type of a miscellaneous marker (Linux `EV_MSC`).
pub const EV_MSC: u16 = 4;
/// Code of the synchronization report marker (Linux `SYN_REPORT`).
pub const SYN_REPORT: u16 = 0;
/// Code of the scan-code marker (Linux `MSC_SCAN`).
pub const MSC_SCAN: u16 = 4;

/// Key code of Escape (Linux `KEY_ESC`).
pub const KEY_ESC: u16 = 1;
/// Key code of the right shift key (Linux `KEY_RIGHTSHIFT`).
pub const KEY_RIGHTSHIFT: u16 = 54;
/// Key code of Caps Lock (Linux `KEY_CAPSLOCK`).
pub const KEY_CAPSLOCK: u16 = 58;
/// Key code of the left meta key (Linux `KEY_LEFTMETA`).
pub const KEY_LEFTMETA: u16 = 125;

/// Event value of a key press.
pub const VALUE_DOWN: i32 = 1;
/// Event value of a key release.
pub const VALUE_UP: i32 = 0;
/// Event value of a key autorepeat.
pub const VALUE_REPEAT: i32 = 2;

/// One raw event read from the physical device. `time_ms` is a monotonic
/// timestamp in milliseconds; events arrive in a single total order.
#[derive(Clone, Copy, Debug, PartialEq, Eq)]
pub struct KeyEvent {
    pub event_type: u16,
    pub code: u16,
    pub value: i32,
    pub time_ms: u64,
}

/// One event the engine asks the caller to emit on the virtual device.
/// When `pause_before` is set, the caller should let a short micro-delay pass
/// before emitting, so that downstream consumers observe the synthesized Down
/// and Up of a tap as two distinct transitions.
#[derive(Clone, Copy, Debug, PartialEq, Eq)]
pub struct OutEvent {
    pub event_type: u16,
    pub code: u16,
    pub value: i32,
    pub pause_before: bool,
}

/// A synthesized key event (`EV_KEY`) for the virtual device.
pub open spec fn spec_key_out(code: u16, value: i32, pause_before: bool) -> OutEvent {
    OutEvent { event_type: EV_KEY, code, value, pause_before }
}

/// A raw event passed through to the virtual device unmodified.
pub open spec fn spec_forward(ev: KeyEvent) -> OutEvent {
    OutEvent { event_type: ev.event_type, code: ev.code, value: ev.value, pause_before: false }
}

/// Marker events (synchronization reports and scan codes) are forwarded
/// unmodified and never count as an interruption of a held trigger.
pub open spec fn spec_is_marker(ev: KeyEvent) -> bool {
    (ev.event_type == EV_SYN && ev.code == SYN_REPORT)
        || (ev.event_type == EV_MSC && ev.code == MSC_SCAN)
}

pub fn key_out(code: u16, value: i32, pause_before: bool) -> (r: OutEvent)
    ensures
        r == spec_key_out(code, value, pause_before),
{
    OutEvent { event_type: EV_KEY, code, value, pause_before }
}

pub fn forward_event(ev: &KeyEvent) -> (r: OutEvent)
    ensures
        r == spec_forward(*ev),
{
    OutEvent { event_type: ev.event_type, code: ev.code, value: ev.value, pause_before: false }
}

pub fn is_marker(ev: &KeyEvent) -> (r: bool)
    ensures
        r == spec_is_marker(*ev),
{
    (ev.event_type == EV_SYN && ev.code == SYN_REPORT)
        || (ev.event_type == EV_MSC && ev.code == MSC_SCAN)
}

} // verus!
