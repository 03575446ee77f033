use myev::engine::{KeyConfig, KeyState, HOLD_TIMEOUT_MS};
use myev::event::{
    KeyEvent, OutEvent, EV_KEY, EV_MSC, EV_SYN, KEY_CAPSLOCK, KEY_ESC, KEY_LEFTMETA,
    KEY_RIGHTSHIFT, MSC_SCAN, SYN_REPORT, VALUE_DOWN, VALUE_REPEAT, VALUE_UP,
};
use myev::remapper::{ChordPolicy, KeyRemapper};

const KEY_A: u16 = 30;
const KEY_LEFTSHIFT: u16 = 42;

fn key_ev(code: u16, value: i32, time_ms: u64) -> KeyEvent {
    KeyEvent { event_type: EV_KEY, code, value, time_ms }
}

fn out(code: u16, value: i32, pause_before: bool) -> OutEvent {
    OutEvent { event_type: EV_KEY, code, value, pause_before }
}

fn caps_remapper() -> KeyRemapper {
    let mappings = vec![myev::config::KeyMapping {
        key: KEY_CAPSLOCK,
        on_tap: KEY_ESC,
        on_hold: KEY_LEFTMETA,
    }];
    let policy = ChordPolicy {
        cancel_key: KEY_RIGHTSHIFT,
        confirm_key: KEY_ESC,
        cancel_action: KEY_ESC,
    };
    KeyRemapper::new(&mappings, policy, HOLD_TIMEOUT_MS)
}

fn two_mapping_remapper() -> KeyRemapper {
    let mappings = vec![
        myev::config::KeyMapping { key: KEY_CAPSLOCK, on_tap: KEY_ESC, on_hold: KEY_LEFTMETA },
        myev::config::KeyMapping { key: KEY_LEFTSHIFT, on_tap: KEY_A, on_hold: KEY_RIGHTSHIFT },
    ];
    let policy = ChordPolicy {
        cancel_key: KEY_RIGHTSHIFT,
        confirm_key: KEY_ESC,
        cancel_action: KEY_ESC,
    };
    KeyRemapper::new(&mappings, policy, HOLD_TIMEOUT_MS)
}

fn state_of(r: &KeyRemapper, i: usize) -> KeyState {
    r.key_configs[i].state
}

fn assert_idle(s: KeyState) {
    assert_eq!(s.is_pressed, false);
    assert_eq!(s.time_pressed, None);
    assert_eq!(s.is_interrupted, false);
}

#[test]
fn quick_tap_emits_hold_pair_then_tap_pulse() {
    let mut r = caps_remapper();
    let down = r.handle_event(key_ev(KEY_CAPSLOCK, VALUE_DOWN, 1000));
    assert_eq!(down, vec![out(KEY_LEFTMETA, VALUE_DOWN, false)]);
    let up = r.handle_event(key_ev(KEY_CAPSLOCK, VALUE_UP, 1050));
    assert_eq!(
        up,
        vec![
            out(KEY_LEFTMETA, VALUE_UP, false),
            out(KEY_ESC, VALUE_DOWN, false),
            out(KEY_ESC, VALUE_UP, true),
        ]
    );
    assert_idle(state_of(&r, 0));
}

#[test]
fn long_hold_emits_no_tap() {
    let mut r = caps_remapper();
    r.handle_event(key_ev(KEY_CAPSLOCK, VALUE_DOWN, 1000));
    let up = r.handle_event(key_ev(KEY_CAPSLOCK, VALUE_UP, 1300));
    assert_eq!(up, vec![out(KEY_LEFTMETA, VALUE_UP, false)]);
    assert_idle(state_of(&r, 0));
}

#[test]
fn release_exactly_at_threshold_is_a_hold() {
    let mut r = caps_remapper();
    r.handle_event(key_ev(KEY_CAPSLOCK, VALUE_DOWN, 1000));
    let up = r.handle_event(key_ev(KEY_CAPSLOCK, VALUE_UP, 1000 + HOLD_TIMEOUT_MS));
    assert_eq!(up, vec![out(KEY_LEFTMETA, VALUE_UP, false)]);
}

#[test]
fn interrupt_suppresses_tap_below_threshold() {
    let mut r = caps_remapper();
    let d = r.handle_event(key_ev(KEY_CAPSLOCK, VALUE_DOWN, 1000));
    assert_eq!(d, vec![out(KEY_LEFTMETA, VALUE_DOWN, false)]);
    let foreign = r.handle_event(key_ev(KEY_A, VALUE_DOWN, 1050));
    assert_eq!(
        foreign,
        vec![OutEvent { event_type: EV_KEY, code: KEY_A, value: VALUE_DOWN, pause_before: false }]
    );
    assert!(state_of(&r, 0).is_interrupted);
    let up = r.handle_event(key_ev(KEY_CAPSLOCK, VALUE_UP, 1080));
    assert_eq!(up, vec![out(KEY_LEFTMETA, VALUE_UP, false)]);
    assert_idle(state_of(&r, 0));
}

#[test]
fn scenario_caps_tap_after_50ms() {
    // trigger=CapsLock, tap=Esc, hold=LeftMeta, threshold 200 ms:
    // press, wait 50 ms, release.
    let mut r = caps_remapper();
    let mut stream = r.handle_event(key_ev(KEY_CAPSLOCK, VALUE_DOWN, 0));
    stream.extend(r.handle_event(key_ev(KEY_CAPSLOCK, VALUE_UP, 50)));
    assert_eq!(
        stream,
        vec![
            out(KEY_LEFTMETA, VALUE_DOWN, false),
            out(KEY_LEFTMETA, VALUE_UP, false),
            out(KEY_ESC, VALUE_DOWN, false),
            out(KEY_ESC, VALUE_UP, true),
        ]
    );
}

#[test]
fn scenario_caps_interrupted_by_a_at_80ms() {
    // press, wait 50 ms, press 'A' (forwarded), release CapsLock at 80 ms:
    // 'A' forwarded, LeftMeta Down/Up, no Esc.
    let mut r = caps_remapper();
    let mut stream = r.handle_event(key_ev(KEY_CAPSLOCK, VALUE_DOWN, 0));
    stream.extend(r.handle_event(key_ev(KEY_A, VALUE_DOWN, 50)));
    stream.extend(r.handle_event(key_ev(KEY_CAPSLOCK, VALUE_UP, 80)));
    assert_eq!(
        stream,
        vec![
            out(KEY_LEFTMETA, VALUE_DOWN, false),
            OutEvent { event_type: EV_KEY, code: KEY_A, value: VALUE_DOWN, pause_before: false },
            out(KEY_LEFTMETA, VALUE_UP, false),
        ]
    );
}

#[test]
fn scenario_caps_held_300ms() {
    // press, hold 300 ms, release: LeftMeta Down/Up only.
    let mut r = caps_remapper();
    let mut stream = r.handle_event(key_ev(KEY_CAPSLOCK, VALUE_DOWN, 0));
    stream.extend(r.handle_event(key_ev(KEY_CAPSLOCK, VALUE_UP, 300)));
    assert_eq!(
        stream,
        vec![out(KEY_LEFTMETA, VALUE_DOWN, false), out(KEY_LEFTMETA, VALUE_UP, false)]
    );
}

#[test]
fn passthrough_keeps_code_value_and_order() {
    let mut r = caps_remapper();
    let events = vec![
        key_ev(KEY_A, VALUE_DOWN, 10),
        KeyEvent { event_type: EV_MSC, code: MSC_SCAN, value: 30, time_ms: 10 },
        KeyEvent { event_type: EV_SYN, code: SYN_REPORT, value: 0, time_ms: 10 },
        key_ev(KEY_A, VALUE_UP, 40),
    ];
    let stream = r.handle_events(&events);
    let expected: Vec<OutEvent> = events
        .iter()
        .map(|e| OutEvent {
            event_type: e.event_type,
            code: e.code,
            value: e.value,
            pause_before: false,
        })
        .collect();
    assert_eq!(stream, expected);
    assert_idle(state_of(&r, 0));
}

#[test]
fn markers_do_not_interrupt_a_hold() {
    let mut r = caps_remapper();
    r.handle_event(key_ev(KEY_CAPSLOCK, VALUE_DOWN, 0));
    let m1 = r.handle_event(KeyEvent { event_type: EV_MSC, code: MSC_SCAN, value: 458756, time_ms: 10 });
    assert_eq!(
        m1,
        vec![OutEvent { event_type: EV_MSC, code: MSC_SCAN, value: 458756, pause_before: false }]
    );
    let m2 = r.handle_event(KeyEvent { event_type: EV_SYN, code: SYN_REPORT, value: 0, time_ms: 10 });
    assert_eq!(
        m2,
        vec![OutEvent { event_type: EV_SYN, code: SYN_REPORT, value: 0, pause_before: false }]
    );
    assert!(!state_of(&r, 0).is_interrupted);
    let up = r.handle_event(key_ev(KEY_CAPSLOCK, VALUE_UP, 50));
    assert_eq!(up.len(), 3, "markers must not have disqualified the tap");
}

#[test]
fn cancel_key_ends_hold_and_is_consumed() {
    let mut r = caps_remapper();
    r.handle_event(key_ev(KEY_CAPSLOCK, VALUE_DOWN, 0));
    let c = r.handle_event(key_ev(KEY_RIGHTSHIFT, VALUE_DOWN, 30));
    assert_eq!(
        c,
        vec![
            out(KEY_LEFTMETA, VALUE_UP, false),
            out(KEY_ESC, VALUE_DOWN, false),
            out(KEY_ESC, VALUE_UP, true),
        ],
        "cancel: hold Up plus a tap pulse of the cancel action, nothing forwarded"
    );
    assert_idle(state_of(&r, 0));
    // The trigger's own Up afterwards is spurious and ignored.
    let up = r.handle_event(key_ev(KEY_CAPSLOCK, VALUE_UP, 60));
    assert_eq!(up, vec![]);
}

#[test]
fn confirm_key_ends_interrupted_hold() {
    let mut r = caps_remapper();
    r.handle_event(key_ev(KEY_CAPSLOCK, VALUE_DOWN, 0));
    r.handle_event(key_ev(KEY_A, VALUE_DOWN, 10));
    assert!(state_of(&r, 0).is_interrupted);
    let c = r.handle_event(key_ev(KEY_ESC, VALUE_DOWN, 30));
    assert_eq!(
        c,
        vec![
            out(KEY_LEFTMETA, VALUE_UP, false),
            out(KEY_ESC, VALUE_DOWN, false),
            out(KEY_ESC, VALUE_UP, true),
        ]
    );
    assert_idle(state_of(&r, 0));
}

#[test]
fn confirm_key_without_interruption_only_interrupts() {
    let mut r = caps_remapper();
    r.handle_event(key_ev(KEY_CAPSLOCK, VALUE_DOWN, 0));
    let c = r.handle_event(key_ev(KEY_ESC, VALUE_DOWN, 30));
    assert_eq!(
        c,
        vec![OutEvent { event_type: EV_KEY, code: KEY_ESC, value: VALUE_DOWN, pause_before: false }],
        "an uninterrupted hold treats the confirm key as any foreign key"
    );
    assert!(state_of(&r, 0).is_interrupted);
}

#[test]
fn autorepeat_of_trigger_is_suppressed() {
    let mut r = caps_remapper();
    r.handle_event(key_ev(KEY_CAPSLOCK, VALUE_DOWN, 0));
    let rep = r.handle_event(key_ev(KEY_CAPSLOCK, VALUE_REPEAT, 250));
    assert_eq!(rep, vec![]);
    let dup = r.handle_event(key_ev(KEY_CAPSLOCK, VALUE_DOWN, 260));
    assert_eq!(dup, vec![], "a duplicate Down while held is a no-op");
    let s = state_of(&r, 0);
    assert_eq!(s.time_pressed, Some(0), "the original press time stands");
}

#[test]
fn spurious_up_is_ignored() {
    let mut r = caps_remapper();
    let up = r.handle_event(key_ev(KEY_CAPSLOCK, VALUE_UP, 10));
    assert_eq!(up, vec![]);
    assert_idle(state_of(&r, 0));
}

#[test]
fn malformed_value_is_dropped() {
    let mut r = caps_remapper();
    let odd = r.handle_event(key_ev(KEY_CAPSLOCK, 17, 10));
    assert_eq!(odd, vec![]);
    assert_idle(state_of(&r, 0));
}

#[test]
fn second_trigger_chords_the_held_mapping_but_runs_its_own_cycle() {
    let mut r = two_mapping_remapper();
    r.handle_event(key_ev(KEY_CAPSLOCK, VALUE_DOWN, 0));
    // The second mapping's trigger: its own press — and, for the held first
    // mapping, a chord event that marks it interrupted.
    let d = r.handle_event(key_ev(KEY_LEFTSHIFT, VALUE_DOWN, 20));
    assert_eq!(d, vec![out(KEY_RIGHTSHIFT, VALUE_DOWN, false)]);
    let s0 = state_of(&r, 0);
    assert!(s0.is_pressed);
    assert_eq!(s0.time_pressed, Some(0), "the first mapping's hold goes on");
    assert!(s0.is_interrupted, "a foreign trigger press chords the held mapping");
    assert!(state_of(&r, 1).is_pressed);
    assert!(!state_of(&r, 1).is_interrupted, "its own trigger is no chord against it");
    // Release the second within the threshold: its own tap comes out whole,
    // untouched by the first mapping's state.
    let u = r.handle_event(key_ev(KEY_LEFTSHIFT, VALUE_UP, 60));
    assert_eq!(
        u,
        vec![
            out(KEY_RIGHTSHIFT, VALUE_UP, false),
            out(KEY_A, VALUE_DOWN, false),
            out(KEY_A, VALUE_UP, true),
        ]
    );
    assert_idle(state_of(&r, 1));
    // The first, though released quickly, was chorded: no tap.
    let u0 = r.handle_event(key_ev(KEY_CAPSLOCK, VALUE_UP, 90));
    assert_eq!(u0, vec![out(KEY_LEFTMETA, VALUE_UP, false)]);
    assert_idle(state_of(&r, 0));
}

#[test]
fn full_cycle_returns_state_exactly_to_idle() {
    let mut r = caps_remapper();
    r.handle_event(key_ev(KEY_CAPSLOCK, VALUE_DOWN, 0));
    r.handle_event(key_ev(KEY_A, VALUE_DOWN, 10));
    r.handle_event(key_ev(KEY_CAPSLOCK, VALUE_UP, 400));
    assert_idle(state_of(&r, 0));
    // And the mapping is immediately usable for the next cycle.
    let d = r.handle_event(key_ev(KEY_CAPSLOCK, VALUE_DOWN, 500));
    assert_eq!(d, vec![out(KEY_LEFTMETA, VALUE_DOWN, false)]);
}

#[test]
fn key_config_methods_follow_the_cycle() {
    let mut c = KeyConfig::new(KEY_CAPSLOCK, KEY_ESC, KEY_LEFTMETA);
    assert!(!c.is_pressed());
    let d = c.handle_key_press(100);
    assert_eq!(d, vec![out(KEY_LEFTMETA, VALUE_DOWN, false)]);
    assert!(c.is_pressed());
    c.interrupt();
    let u = c.handle_key_release(HOLD_TIMEOUT_MS, 150);
    assert_eq!(u, vec![out(KEY_LEFTMETA, VALUE_UP, false)]);
    assert!(!c.is_pressed());
}

#[test]
fn process_event_routes_by_value() {
    let mut c = KeyConfig::new(KEY_CAPSLOCK, KEY_ESC, KEY_LEFTMETA);
    let d = c.process_event(VALUE_DOWN, HOLD_TIMEOUT_MS, 100);
    assert_eq!(d, vec![out(KEY_LEFTMETA, VALUE_DOWN, false)]);
    let u = c.process_event(VALUE_UP, HOLD_TIMEOUT_MS, 120);
    assert_eq!(
        u,
        vec![
            out(KEY_LEFTMETA, VALUE_UP, false),
            out(KEY_ESC, VALUE_DOWN, false),
            out(KEY_ESC, VALUE_UP, true),
        ]
    );
}
