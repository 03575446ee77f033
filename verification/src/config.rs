//! Loading the mapping table: key names from the declarative configuration
//! are resolved against the platform key-name table, and the resolved
//! triggers must be unique. An unresolvable name or a repeated trigger is a
//! configuration error, reported before any device is touched.

use vstd::prelude::*;

use crate::engine::{KeyConfig, KeyState};
use crate::event::{KEY_CAPSLOCK, KEY_ESC, KEY_LEFTMETA};

verus! {

/// One mapping with its names resolved to key codes.
#[derive(Clone, Copy, Debug, PartialEq, Eq)]
pub struct KeyMapping {
    /// The physical trigger key.
    pub key: u16,
    /// Key emitted as a tap on a quick, clean release of the trigger.
    pub on_tap: u16,
    /// Key held down for the duration of the trigger's physical press.
    pub on_hold: u16,
}

/// One mapping as it stands in the declarative configuration: three key
/// names, resolved at startup.
pub struct MappingNames {
    pub key: String,
    pub on_tap: String,
    pub on_hold: String,
}

/// A configuration rejected at startup.
#[derive(Clone, Copy, Debug, PartialEq, Eq)]
pub enum ConfigError {
    /// A name of the mapping at `index` resolves to no known key.
    UnresolvedKeyName { index: usize },
    /// The mapping at `index` repeats an earlier mapping's trigger.
    DuplicateTrigger { index: usize },
}

/// The key code the platform key-name table gives a name, if any.
pub uninterp spec fn key_code_of(name: Seq<char>) -> Option<u16>;

/// Relies on evdev's `KeyCode::from_str`: it looks a name such as
/// "KEY_CAPSLOCK" up in the crate's fixed name table, so the result depends
/// on the name alone.
#[verifier::external_body]
pub(crate) fn resolve_key_name(name: &str) -> (r: Option<u16>)
    ensures
        r == key_code_of(name@),
{
    match <evdev::KeyCode as std::str::FromStr>::from_str(name) {
        Ok(k) => Some(k.0),
        Err(_) => None,
    }
}

/// The resolved form of one mapping, if all three of its names resolve.
pub open spec fn spec_mapping_codes(m: MappingNames) -> Option<KeyMapping> {
    if key_code_of(m.key@) is Some && key_code_of(m.on_tap@) is Some && key_code_of(m.on_hold@)
        is Some {
        Some(
            KeyMapping {
                key: key_code_of(m.key@)->0,
                on_tap: key_code_of(m.on_tap@)->0,
                on_hold: key_code_of(m.on_hold@)->0,
            },
        )
    } else {
        None
    }
}

pub open spec fn spec_has_trigger(ms: Seq<KeyMapping>, code: u16) -> bool {
    exists|j: int| 0 <= j < ms.len() && ms[j].key == code
}

/// Resolving a whole table, first mapping first: the first mapping with an
/// unresolvable name or an already-taken trigger names the error.
pub open spec fn spec_resolve(ms: Seq<MappingNames>) -> Result<Seq<KeyMapping>, ConfigError>
    decreases ms.len(),
{
    if ms.len() == 0 {
        Ok(Seq::empty())
    } else {
        match spec_resolve(ms.drop_last()) {
            Err(e) => Err(e),
            Ok(prev) => match spec_mapping_codes(ms.last()) {
                None => Err(ConfigError::UnresolvedKeyName { index: (ms.len() - 1) as usize }),
                Some(km) => if spec_has_trigger(prev, km.key) {
                    Err(ConfigError::DuplicateTrigger { index: (ms.len() - 1) as usize })
                } else {
                    Ok(prev.push(km))
                },
            },
        }
    }
}

/// An error in a prefix of the table decides the whole table.
proof fn lemma_resolve_err_prefix(ms: Seq<MappingNames>, l: int, e: ConfigError)
    requires
        0 <= l <= ms.len(),
        spec_resolve(ms.take(l)) == Err::<Seq<KeyMapping>, ConfigError>(e),
    ensures
        spec_resolve(ms) == Err::<Seq<KeyMapping>, ConfigError>(e),
    decreases ms.len(),
{
    if l == ms.len() {
        assert(ms.take(l) =~= ms);
    } else {
        assert(ms.drop_last().take(l) =~= ms.take(l));
        lemma_resolve_err_prefix(ms.drop_last(), l, e);
    }
}

/// A table that resolves has pairwise distinct triggers.
pub proof fn lemma_resolve_unique(ms: Seq<MappingNames>)
    requires
        spec_resolve(ms) is Ok,
    ensures
        forall|i: int, j: int|
            0 <= i < j < spec_resolve(ms)->Ok_0.len() ==> spec_resolve(ms)->Ok_0[i].key
                != spec_resolve(ms)->Ok_0[j].key,
    decreases ms.len(),
{
    if ms.len() > 0 {
        lemma_resolve_unique(ms.drop_last());
        let prev = spec_resolve(ms.drop_last())->Ok_0;
        let km = spec_mapping_codes(ms.last())->0;
        assert(!spec_has_trigger(prev, km.key));
        assert forall|i: int, j: int|
            0 <= i < j < spec_resolve(ms)->Ok_0.len() implies spec_resolve(ms)->Ok_0[i].key
            != spec_resolve(ms)->Ok_0[j].key by {
            if j < prev.len() {
            } else {
                assert(spec_resolve(ms)->Ok_0[i] == prev[i]);
            }
        }
    }
}

fn contains_trigger(ms: &Vec<KeyMapping>, code: u16) -> (r: bool)
    ensures
        r == spec_has_trigger(ms@, code),
{
    let mut i: usize = 0;
    while i < ms.len()
        invariant
            i <= ms@.len(),
            forall|k: int| 0 <= k < i ==> ms@[k].key != code,
        decreases ms@.len() - i,
    {
        if ms[i].key == code {
            return true;
        }
        i += 1;
    }
    false
}

/// Resolves every mapping's names against the platform key-name table and
/// checks the triggers for uniqueness. Follows `spec_resolve`: succeeds on
/// exactly the tables whose names all resolve and whose triggers are
/// pairwise distinct, and otherwise reports the first offending mapping.
pub fn resolve_mappings(names: &Vec<MappingNames>) -> (r: Result<Vec<KeyMapping>, ConfigError>)
    ensures
        match r {
            Ok(ms) => spec_resolve(names@) == Ok::<Seq<KeyMapping>, ConfigError>(ms@),
            Err(e) => spec_resolve(names@) == Err::<Seq<KeyMapping>, ConfigError>(e),
        },
{
    let mut acc: Vec<KeyMapping> = Vec::new();
    let mut i: usize = 0;
    while i < names.len()
        invariant
            i <= names@.len(),
            spec_resolve(names@.take(i as int)) == Ok::<Seq<KeyMapping>, ConfigError>(acc@),
        decreases names@.len() - i,
    {
        proof {
            assert(names@.take(i as int + 1).drop_last() =~= names@.take(i as int));
            assert(names@.take(i as int + 1).last() == names@[i as int]);
        }
        let m = &names[i];
        let k = resolve_key_name(m.key.as_str());
        let t = resolve_key_name(m.on_tap.as_str());
        let h = resolve_key_name(m.on_hold.as_str());
        match (k, t, h) {
            (Some(kc), Some(tc), Some(hc)) => {
                let km = KeyMapping { key: kc, on_tap: tc, on_hold: hc };
                if contains_trigger(&acc, km.key) {
                    let e = ConfigError::DuplicateTrigger { index: i };
                    proof {
                        lemma_resolve_err_prefix(names@, i as int + 1, e);
                    }
                    return Err(e);
                }
                acc.push(km);
            },
            _ => {
                let e = ConfigError::UnresolvedKeyName { index: i };
                proof {
                    lemma_resolve_err_prefix(names@, i as int + 1, e);
                }
                return Err(e);
            },
        }
        i += 1;
    }
    proof {
        assert(names@.take(names@.len() as int) =~= names@);
    }
    Ok(acc)
}

/// The built-in mapping table: Caps Lock taps Escape and holds the left meta
/// key — the table used when no configuration is supplied.
pub fn initialize_key_config() -> (r: Vec<KeyConfig>)
    ensures
        r@ == seq![
            KeyConfig {
                key: KEY_CAPSLOCK,
                on_tap: KEY_ESC,
                on_hold: KEY_LEFTMETA,
                state: KeyState::spec_idle(),
            },
        ],
{
    let mut r: Vec<KeyConfig> = Vec::new();
    r.push(KeyConfig::new(KEY_CAPSLOCK, KEY_ESC, KEY_LEFTMETA));
    proof {
        assert(r@ =~= seq![
            KeyConfig {
                key: KEY_CAPSLOCK,
                on_tap: KEY_ESC,
                on_hold: KEY_LEFTMETA,
                state: KeyState::spec_idle(),
            },
        ]);
    }
    r
}

} // verus!
