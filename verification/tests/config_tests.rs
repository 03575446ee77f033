use myev::config::{initialize_key_config, ConfigError, MappingNames};
use myev::engine::HOLD_TIMEOUT_MS;
use myev::event::{
    KeyEvent, OutEvent, EV_KEY, KEY_CAPSLOCK, KEY_ESC, KEY_LEFTMETA, KEY_RIGHTSHIFT, VALUE_DOWN,
};
use myev::remapper::{ChordPolicy, KeyRemapper};

fn names(key: &str, on_tap: &str, on_hold: &str) -> MappingNames {
    MappingNames { key: key.to_string(), on_tap: on_tap.to_string(), on_hold: on_hold.to_string() }
}

#[test]
fn from_names_resolves_against_the_platform_table() {
    let table = vec![names("KEY_CAPSLOCK", "KEY_ESC", "KEY_LEFTMETA")];
    let mut r = KeyRemapper::from_names(&table, ChordPolicy::default(), HOLD_TIMEOUT_MS)
        .expect("all three names resolve");
    assert_eq!(r.key_configs.len(), 1);
    assert_eq!(r.key_configs[0].key, KEY_CAPSLOCK);
    assert_eq!(r.key_configs[0].on_tap, KEY_ESC);
    assert_eq!(r.key_configs[0].on_hold, KEY_LEFTMETA);
    // The resolved codes drive the engine: pressing code 58 emits code 125.
    let out = r.handle_event(KeyEvent {
        event_type: EV_KEY,
        code: 58,
        value: VALUE_DOWN,
        time_ms: 0,
    });
    assert_eq!(
        out,
        vec![OutEvent { event_type: EV_KEY, code: 125, value: VALUE_DOWN, pause_before: false }]
    );
}

#[test]
fn unresolvable_name_is_a_startup_error() {
    let table = vec![
        names("KEY_CAPSLOCK", "KEY_ESC", "KEY_LEFTMETA"),
        names("KEY_NO_SUCH_KEY", "KEY_ESC", "KEY_LEFTMETA"),
    ];
    let r = KeyRemapper::from_names(&table, ChordPolicy::default(), HOLD_TIMEOUT_MS);
    assert_eq!(r.err(), Some(ConfigError::UnresolvedKeyName { index: 1 }));
}

#[test]
fn unresolvable_tap_name_is_reported_too() {
    let table = vec![names("KEY_CAPSLOCK", "NOT_A_KEY", "KEY_LEFTMETA")];
    let r = KeyRemapper::from_names(&table, ChordPolicy::default(), HOLD_TIMEOUT_MS);
    assert_eq!(r.err(), Some(ConfigError::UnresolvedKeyName { index: 0 }));
}

#[test]
fn duplicate_trigger_is_a_startup_error() {
    let table = vec![
        names("KEY_CAPSLOCK", "KEY_ESC", "KEY_LEFTMETA"),
        names("KEY_CAPSLOCK", "KEY_A", "KEY_LEFTSHIFT"),
    ];
    let r = KeyRemapper::from_names(&table, ChordPolicy::default(), HOLD_TIMEOUT_MS);
    assert_eq!(r.err(), Some(ConfigError::DuplicateTrigger { index: 1 }));
}

#[test]
fn earliest_offending_mapping_names_the_error() {
    let table = vec![
        names("KEY_CAPSLOCK", "KEY_ESC", "KEY_LEFTMETA"),
        names("BROKEN", "KEY_ESC", "KEY_LEFTMETA"),
        names("KEY_CAPSLOCK", "KEY_ESC", "KEY_LEFTMETA"),
    ];
    let r = KeyRemapper::from_names(&table, ChordPolicy::default(), HOLD_TIMEOUT_MS);
    assert_eq!(r.err(), Some(ConfigError::UnresolvedKeyName { index: 1 }));
}

#[test]
fn empty_table_is_accepted_and_everything_passes_through() {
    let table: Vec<MappingNames> = vec![];
    let mut r = KeyRemapper::from_names(&table, ChordPolicy::default(), HOLD_TIMEOUT_MS)
        .expect("an empty table is a valid table");
    assert_eq!(r.key_configs.len(), 0);
    let out = r.handle_event(KeyEvent {
        event_type: EV_KEY,
        code: KEY_CAPSLOCK,
        value: VALUE_DOWN,
        time_ms: 0,
    });
    assert_eq!(
        out,
        vec![OutEvent {
            event_type: EV_KEY,
            code: KEY_CAPSLOCK,
            value: VALUE_DOWN,
            pause_before: false,
        }]
    );
}

#[test]
fn default_policy_uses_right_shift_and_escape() {
    let p = ChordPolicy::default();
    assert_eq!(p.cancel_key, KEY_RIGHTSHIFT);
    assert_eq!(p.confirm_key, KEY_ESC);
    assert_eq!(p.cancel_action, KEY_ESC);
}

#[test]
fn built_in_table_maps_caps_lock() {
    let configs = initialize_key_config();
    assert_eq!(configs.len(), 1);
    assert_eq!(configs[0].key, KEY_CAPSLOCK);
    assert_eq!(configs[0].on_tap, KEY_ESC);
    assert_eq!(configs[0].on_hold, KEY_LEFTMETA);
    assert!(!configs[0].state.is_pressed);
    assert_eq!(configs[0].state.time_pressed, None);
    assert!(!configs[0].state.is_interrupted);
}
