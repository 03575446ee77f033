//! The remapper: routes each raw event either to the mapping whose trigger it
//! is, or through the chord policy of every currently held mapping, and says
//! exactly which events come out the other side.

use vstd::prelude::*;

use crate::config::{
    lemma_resolve_unique, resolve_mappings, spec_resolve, ConfigError, KeyMapping, MappingNames,
};
use crate::engine::{
    spec_tap_pulse, spec_trigger_step, KeyConfig, KeyState,
};
use crate::event::{
    forward_event, is_marker, key_out, spec_forward, spec_is_marker, spec_key_out, KeyEvent,
    OutEvent, EV_KEY, KEY_ESC, KEY_RIGHTSHIFT, VALUE_DOWN, VALUE_UP,
};

verus! {

/// Which companion keys cancel or confirm a held chord, and which key a
/// cancellation taps. Explicit configuration rather than hard-coded branches.
#[derive(Clone, Copy, Debug, PartialEq, Eq)]
pub struct ChordPolicy {
    /// A press of this key while a trigger is held cancels the hold outright.
    pub cancel_key: u16,
    /// This key, arriving after the hold was already interrupted, confirms
    /// the cancellation.
    pub confirm_key: u16,
    /// The key tapped when a hold is cancelled or confirmed away.
    pub cancel_action: u16,
}

impl Default for ChordPolicy {
    /// The historical companions: the right shift key cancels a held chord,
    /// Escape confirms an interrupted one, and either taps Escape.
    fn default() -> (r: ChordPolicy)
        ensures
            r == (ChordPolicy {
                cancel_key: KEY_RIGHTSHIFT,
                confirm_key: KEY_ESC,
                cancel_action: KEY_ESC,
            }),
    {
        ChordPolicy { cancel_key: KEY_RIGHTSHIFT, confirm_key: KEY_ESC, cancel_action: KEY_ESC }
    }
}

/// Whether a foreign event is the policy's cancel companion key.
pub open spec fn spec_is_cancel(p: ChordPolicy, ev: KeyEvent) -> bool {
    ev.event_type == EV_KEY && ev.code == p.cancel_key
}

/// Whether a foreign event is the policy's confirm companion key.
pub open spec fn spec_is_confirm(p: ChordPolicy, ev: KeyEvent) -> bool {
    ev.event_type == EV_KEY && ev.code == p.confirm_key
}

/// What a cancellation emits for one held mapping: the hold action's Up — so
/// no modifier is left stuck — then a tap pulse of the cancellation action.
pub open spec fn spec_cancel_emits(c: KeyConfig, p: ChordPolicy) -> Seq<OutEvent> {
    seq![spec_key_out(c.on_hold, VALUE_UP, false)] + spec_tap_pulse(p.cancel_action)
}

/// Chord policy for one mapping on a foreign, non-marker event: a mapping
/// that is not held ignores it; a held one is cancelled by the cancel key,
/// confirmed away by the confirm key once already interrupted, and otherwise
/// only marked interrupted. The third component says whether the event was
/// consumed (a cancelled or confirmed chord swallows it).
pub open spec fn spec_foreign_step(c: KeyConfig, p: ChordPolicy, ev: KeyEvent) -> (
    KeyConfig,
    Seq<OutEvent>,
    bool,
) {
    if !c.state.is_pressed {
        (c, Seq::empty(), false)
    } else if spec_is_cancel(p, ev) {
        (KeyConfig { state: KeyState::spec_idle(), ..c }, spec_cancel_emits(c, p), true)
    } else if c.state.is_interrupted && spec_is_confirm(p, ev) {
        (KeyConfig { state: KeyState::spec_idle(), ..c }, spec_cancel_emits(c, p), true)
    } else {
        (
            KeyConfig { state: KeyState { is_interrupted: true, ..c.state }, ..c },
            Seq::empty(),
            false,
        )
    }
}

/// `spec_foreign_step` applied to every mapping in table order.
pub open spec fn spec_foreign_all(cs: Seq<KeyConfig>, p: ChordPolicy, ev: KeyEvent) -> (
    Seq<KeyConfig>,
    Seq<OutEvent>,
    bool,
)
    decreases cs.len(),
{
    if cs.len() == 0 {
        (cs, Seq::empty(), false)
    } else {
        let front = spec_foreign_all(cs.drop_last(), p, ev);
        let last = spec_foreign_step(cs.last(), p, ev);
        (front.0.push(last.0), front.1 + last.1, front.2 || last.2)
    }
}

/// Each mapping's outcome under `spec_foreign_all` depends on its own state
/// alone: the table is mapped pointwise.
pub proof fn lemma_foreign_all_pointwise(cs: Seq<KeyConfig>, p: ChordPolicy, ev: KeyEvent)
    ensures
        spec_foreign_all(cs, p, ev).0.len() == cs.len(),
        forall|i: int|
            0 <= i < cs.len() ==> spec_foreign_all(cs, p, ev).0[i] == spec_foreign_step(
                cs[i],
                p,
                ev,
            ).0,
    decreases cs.len(),
{
    if cs.len() > 0 {
        lemma_foreign_all_pointwise(cs.drop_last(), p, ev);
        assert forall|i: int| 0 <= i < cs.len() implies spec_foreign_all(cs, p, ev).0[i]
            == spec_foreign_step(cs[i], p, ev).0 by {
            if i < cs.len() - 1 {
                assert(cs.drop_last()[i] == cs[i]);
            }
        }
    }
}

/// Chord evaluation during a trigger event: the chord policy still runs over
/// every currently held mapping other than the one at `skip_i`, whose own
/// trigger the event is. The event stays consumed by trigger handling, so no
/// consumed flag is needed.
pub open spec fn spec_chord_others(
    cs: Seq<KeyConfig>,
    skip_i: int,
    p: ChordPolicy,
    ev: KeyEvent,
) -> (Seq<KeyConfig>, Seq<OutEvent>)
    decreases cs.len(),
{
    if cs.len() == 0 {
        (cs, Seq::empty())
    } else {
        let front = spec_chord_others(cs.drop_last(), skip_i, p, ev);
        if cs.len() - 1 == skip_i {
            (front.0.push(cs.last()), front.1)
        } else {
            let last = spec_foreign_step(cs.last(), p, ev);
            (front.0.push(last.0), front.1 + last.1)
        }
    }
}

/// As with `spec_foreign_all`, each mapping's outcome under
/// `spec_chord_others` depends on its own state alone; the skipped one is
/// left as it was.
pub proof fn lemma_chord_others_pointwise(
    cs: Seq<KeyConfig>,
    skip_i: int,
    p: ChordPolicy,
    ev: KeyEvent,
)
    ensures
        spec_chord_others(cs, skip_i, p, ev).0.len() == cs.len(),
        forall|k: int|
            0 <= k < cs.len() && k != skip_i ==> spec_chord_others(cs, skip_i, p, ev).0[k]
                == spec_foreign_step(cs[k], p, ev).0,
        0 <= skip_i < cs.len() ==> spec_chord_others(cs, skip_i, p, ev).0[skip_i] == cs[skip_i],
    decreases cs.len(),
{
    if cs.len() > 0 {
        lemma_chord_others_pointwise(cs.drop_last(), skip_i, p, ev);
        assert forall|k: int|
            0 <= k < cs.len() && k != skip_i implies spec_chord_others(cs, skip_i, p, ev).0[k]
            == spec_foreign_step(cs[k], p, ev).0 by {
            if k < cs.len() - 1 {
                assert(cs.drop_last()[k] == cs[k]);
            }
        }
    }
}

/// A foreign event (one matching no trigger): markers are forwarded untouched
/// and never interrupt; any other event runs the chord policy over the table
/// and is forwarded unchanged unless some mapping consumed it.
pub open spec fn spec_foreign_event(cs: Seq<KeyConfig>, p: ChordPolicy, ev: KeyEvent) -> (
    Seq<KeyConfig>,
    Seq<OutEvent>,
) {
    if spec_is_marker(ev) {
        (cs, seq![spec_forward(ev)])
    } else {
        let r = spec_foreign_all(cs, p, ev);
        (r.0, if r.2 {
            r.1
        } else {
            r.1 + seq![spec_forward(ev)]
        })
    }
}

/// Index of the first mapping whose trigger is `code`.
pub open spec fn spec_find_trigger(cs: Seq<KeyConfig>, code: u16) -> Option<int>
    decreases cs.len(),
{
    if cs.len() == 0 {
        None
    } else if cs[0].key == code {
        Some(0int)
    } else {
        match spec_find_trigger(cs.drop_first(), code) {
            Some(i) => Some(i + 1),
            None => None,
        }
    }
}

pub proof fn lemma_find_trigger_at(cs: Seq<KeyConfig>, code: u16, i: int)
    requires
        0 <= i < cs.len(),
        cs[i].key == code,
        forall|k: int| 0 <= k < i ==> cs[k].key != code,
    ensures
        spec_find_trigger(cs, code) == Some(i),
    decreases cs.len(),
{
    if i > 0 {
        lemma_find_trigger_at(cs.drop_first(), code, i - 1);
    }
}

pub proof fn lemma_find_trigger_none(cs: Seq<KeyConfig>, code: u16)
    requires
        forall|k: int| 0 <= k < cs.len() ==> cs[k].key != code,
    ensures
        spec_find_trigger(cs, code) is None,
    decreases cs.len(),
{
    if cs.len() > 0 {
        lemma_find_trigger_none(cs.drop_first(), code);
    }
}

pub proof fn lemma_find_trigger_range(cs: Seq<KeyConfig>, code: u16)
    requires
        spec_find_trigger(cs, code) is Some,
    ensures
        0 <= spec_find_trigger(cs, code)->0 < cs.len(),
        cs[spec_find_trigger(cs, code)->0].key == code,
    decreases cs.len(),
{
    if cs.len() > 0 && cs[0].key != code {
        lemma_find_trigger_range(cs.drop_first(), code);
    }
}

pub proof fn lemma_find_trigger_covers(cs: Seq<KeyConfig>, code: u16)
    requires
        spec_find_trigger(cs, code) is None,
    ensures
        forall|k: int| 0 <= k < cs.len() ==> cs[k].key != code,
    decreases cs.len(),
{
    if cs.len() > 0 {
        lemma_find_trigger_covers(cs.drop_first(), code);
        assert forall|k: int| 0 <= k < cs.len() implies cs[k].key != code by {
            if k > 0 {
                assert(cs.drop_first()[k - 1] == cs[k]);
            }
        }
    }
}

/// One raw event against the whole table. An event of a trigger's own code
/// is consumed by trigger handling, which takes precedence over chord
/// evaluation for that one mapping; the chord policy still applies to every
/// *other* currently held mapping (a marker moves nothing, as ever). Any
/// other event goes through the chord policy alone.
pub open spec fn spec_handle_event(
    cs: Seq<KeyConfig>,
    p: ChordPolicy,
    threshold_ms: u64,
    ev: KeyEvent,
) -> (Seq<KeyConfig>, Seq<OutEvent>) {
    match spec_find_trigger(cs, ev.code) {
        Some(i) => {
            let st = spec_trigger_step(cs[i], ev.value, threshold_ms, ev.time_ms);
            if spec_is_marker(ev) {
                (cs.update(i, st.0), st.1)
            } else {
                let others = spec_chord_others(cs, i, p, ev);
                (others.0.update(i, st.0), st.1 + others.1)
            }
        },
        None => spec_foreign_event(cs, p, ev),
    }
}

/// A batch of raw events, strictly in arrival order, each one's state feeding
/// the next.
pub open spec fn spec_run(
    cs: Seq<KeyConfig>,
    p: ChordPolicy,
    threshold_ms: u64,
    evs: Seq<KeyEvent>,
) -> (Seq<KeyConfig>, Seq<OutEvent>)
    decreases evs.len(),
{
    if evs.len() == 0 {
        (cs, Seq::empty())
    } else {
        let front = spec_run(cs, p, threshold_ms, evs.drop_last());
        let last = spec_handle_event(front.0, p, threshold_ms, evs.last());
        (last.0, front.1 + last.1)
    }
}

/// The remap engine over the whole mapping table.
pub struct KeyRemapper {
    /// One mapping with its runtime state per configured trigger.
    pub key_configs: Vec<KeyConfig>,
    /// The chord companion keys.
    pub policy: ChordPolicy,
    /// Releases under this many milliseconds (uninterrupted) count as taps.
    pub hold_threshold_ms: u64,
}

/// A fresh, idle mapping state for one resolved mapping.
pub open spec fn spec_config_of(m: KeyMapping) -> KeyConfig {
    KeyConfig { key: m.key, on_tap: m.on_tap, on_hold: m.on_hold, state: KeyState::spec_idle() }
}

impl KeyRemapper {
    /// Trigger codes are unique across the table and every state is legal.
    pub open spec fn wf(self) -> bool {
        &&& forall|i: int| 0 <= i < self.key_configs@.len() ==> self.key_configs@[i].wf()
        &&& forall|i: int, j: int|
            0 <= i < j < self.key_configs@.len() ==> self.key_configs@[i].key
                != self.key_configs@[j].key
    }

    /// A remapper over an already-resolved table whose triggers are unique,
    /// every mapping starting idle.
    pub fn new(mappings: &Vec<KeyMapping>, policy: ChordPolicy, hold_threshold_ms: u64) -> (r:
        KeyRemapper)
        requires
            forall|i: int, j: int|
                0 <= i < j < mappings@.len() ==> mappings@[i].key != mappings@[j].key,
        ensures
            r.wf(),
            r.policy == policy,
            r.hold_threshold_ms == hold_threshold_ms,
            r.key_configs@.len() == mappings@.len(),
            forall|i: int|
                0 <= i < mappings@.len() ==> r.key_configs@[i] == spec_config_of(mappings@[i]),
    {
        let mut key_configs: Vec<KeyConfig> = Vec::new();
        let mut i: usize = 0;
        while i < mappings.len()
            invariant
                i <= mappings@.len(),
                key_configs@.len() == i,
                forall|k: int|
                    0 <= k < i ==> key_configs@[k] == spec_config_of(mappings@[k]),
            decreases mappings@.len() - i,
        {
            let m = &mappings[i];
            key_configs.push(KeyConfig::new(m.key, m.on_tap, m.on_hold));
            i += 1;
        }
        KeyRemapper { key_configs, policy, hold_threshold_ms }
    }

    /// A remapper straight from the declarative configuration: resolves the
    /// names, checks the triggers for uniqueness, and reports the first
    /// offending mapping as a startup error instead of touching any device.
    pub fn from_names(
        names: &Vec<MappingNames>,
        policy: ChordPolicy,
        hold_threshold_ms: u64,
    ) -> (r: Result<KeyRemapper, ConfigError>)
        ensures
            match r {
                Ok(rm) => {
                    &&& spec_resolve(names@) is Ok
                    &&& rm.wf()
                    &&& rm.policy == policy
                    &&& rm.hold_threshold_ms == hold_threshold_ms
                    &&& rm.key_configs@.len() == spec_resolve(names@)->Ok_0.len()
                    &&& forall|i: int|
                        0 <= i < rm.key_configs@.len() ==> rm.key_configs@[i] == spec_config_of(
                            spec_resolve(names@)->Ok_0[i],
                        )
                },
                Err(e) => spec_resolve(names@) == Err::<Seq<KeyMapping>, ConfigError>(e),
            },
    {
        match resolve_mappings(names) {
            Ok(mappings) => {
                proof {
                    lemma_resolve_unique(names@);
                }
                Ok(Self::new(&mappings, policy, hold_threshold_ms))
            },
            Err(e) => Err(e),
        }
    }

    fn find_trigger(configs: &Vec<KeyConfig>, code: u16) -> (r: Option<usize>)
        ensures
            match r {
                Some(i) => i < configs@.len() && configs@[i as int].key == code
                    && spec_find_trigger(configs@, code) == Some(i as int),
                None => spec_find_trigger(configs@, code) is None,
            },
    {
        let mut i: usize = 0;
        while i < configs.len()
            invariant
                i <= configs@.len(),
                forall|k: int| 0 <= k < i ==> configs@[k].key != code,
            decreases configs@.len() - i,
        {
            if configs[i].key == code {
                proof {
                    lemma_find_trigger_at(configs@, code, i as int);
                }
                return Some(i);
            }
            i += 1;
        }
        proof {
            lemma_find_trigger_none(configs@, code);
        }
        None
    }

    /// Feeds one raw event to the engine; the returned events are what the
    /// virtual device must emit, in order. Follows `spec_handle_event`.
    pub fn handle_event(&mut self, ev: KeyEvent) -> (out: Vec<OutEvent>)
        requires
            old(self).wf(),
        ensures
            final(self).wf(),
            final(self).policy == old(self).policy,
            final(self).hold_threshold_ms == old(self).hold_threshold_ms,
            final(self).key_configs@ == spec_handle_event(
                old(self).key_configs@,
                old(self).policy,
                old(self).hold_threshold_ms,
                ev,
            ).0,
            out@ == spec_handle_event(
                old(self).key_configs@,
                old(self).policy,
                old(self).hold_threshold_ms,
                ev,
            ).1,
    {
        match Self::find_trigger(&self.key_configs, ev.code) {
            Some(i) => self.handle_trigger_event(i, ev),
            None => self.handle_non_configured_event(ev),
        }
    }

    /// The trigger branch: the matched mapping takes the event, and — unless
    /// it is a marker — the chord policy still runs over every other held
    /// mapping. The raw event is consumed either way, never forwarded.
    fn handle_trigger_event(&mut self, i: usize, ev: KeyEvent) -> (out: Vec<OutEvent>)
        requires
            old(self).wf(),
            spec_find_trigger(old(self).key_configs@, ev.code) == Some(i as int),
            i < old(self).key_configs@.len(),
            old(self).key_configs@[i as int].key == ev.code,
        ensures
            final(self).wf(),
            final(self).policy == old(self).policy,
            final(self).hold_threshold_ms == old(self).hold_threshold_ms,
            final(self).key_configs@ == spec_handle_event(
                old(self).key_configs@,
                old(self).policy,
                old(self).hold_threshold_ms,
                ev,
            ).0,
            out@ == spec_handle_event(
                old(self).key_configs@,
                old(self).policy,
                old(self).hold_threshold_ms,
                ev,
            ).1,
    {
        let ghost cs = old(self).key_configs@;
        let ghost p = old(self).policy;
        let ghost st = spec_trigger_step(
            cs[i as int],
            ev.value,
            old(self).hold_threshold_ms,
            ev.time_ms,
        );
        let mut c = self.key_configs[i];
        let mut out = c.process_event(ev.value, self.hold_threshold_ms, ev.time_ms);
        self.key_configs.set(i, c);
        proof {
            assert(st.0.key == cs[i as int].key);
            assert(self.key_configs@ =~= cs.update(i as int, st.0));
        }
        if is_marker(&ev) {
            proof {
                assert forall|a: int|
                    0 <= a < self.key_configs@.len() implies self.key_configs@[a].key == cs[a].key
                    && self.key_configs@[a].wf() by {}
            }
            return out;
        }
        let n = self.key_configs.len();
        proof {
            assert(cs.take(0) =~= Seq::<KeyConfig>::empty());
            assert(self.key_configs@ =~= (spec_chord_others(cs.take(0), i as int, p, ev).0
                + cs.skip(0)).update(i as int, st.0));
            assert(out@ =~= st.1 + spec_chord_others(cs.take(0), i as int, p, ev).1);
        }
        let mut j: usize = 0;
        while j < n
            invariant
                old(self).wf(),
                !spec_is_marker(ev),
                cs == old(self).key_configs@,
                p == old(self).policy,
                st == spec_trigger_step(
                    cs[i as int],
                    ev.value,
                    old(self).hold_threshold_ms,
                    ev.time_ms,
                ),
                i < n,
                n == cs.len(),
                n == self.key_configs@.len(),
                j <= n,
                self.policy == old(self).policy,
                self.hold_threshold_ms == old(self).hold_threshold_ms,
                self.key_configs@ == (spec_chord_others(cs.take(j as int), i as int, p, ev).0
                    + cs.skip(j as int)).update(i as int, st.0),
                out@ == st.1 + spec_chord_others(cs.take(j as int), i as int, p, ev).1,
            decreases n - j,
        {
            proof {
                lemma_chord_others_pointwise(cs.take(j as int), i as int, p, ev);
                if j != i {
                    assert(self.key_configs@[j as int] == cs[j as int]);
                }
                assert(cs.take(j as int + 1).drop_last() =~= cs.take(j as int));
                assert(cs.take(j as int + 1).last() == cs[j as int]);
            }
            if j != i {
                let mut cj = self.key_configs[j];
                if cj.is_pressed() {
                    if ev.event_type == EV_KEY && ev.code == self.policy.cancel_key {
                        out.push(key_out(cj.on_hold, VALUE_UP, false));
                        out.push(key_out(self.policy.cancel_action, VALUE_DOWN, false));
                        out.push(key_out(self.policy.cancel_action, VALUE_UP, true));
                        cj.state = KeyState::idle();
                    } else if cj.state.is_interrupted && ev.event_type == EV_KEY && ev.code
                        == self.policy.confirm_key {
                        out.push(key_out(cj.on_hold, VALUE_UP, false));
                        out.push(key_out(self.policy.cancel_action, VALUE_DOWN, false));
                        out.push(key_out(self.policy.cancel_action, VALUE_UP, true));
                        cj.state = KeyState::idle();
                    } else {
                        cj.interrupt();
                    }
                }
                self.key_configs.set(j, cj);
                proof {
                    assert(cj == spec_foreign_step(cs[j as int], p, ev).0);
                }
            }
            proof {
                assert(self.key_configs@ =~= (spec_chord_others(
                    cs.take(j as int + 1),
                    i as int,
                    p,
                    ev,
                ).0 + cs.skip(j as int + 1)).update(i as int, st.0));
                assert(out@ =~= st.1 + spec_chord_others(cs.take(j as int + 1), i as int, p, ev).1);
            }
            j += 1;
        }
        proof {
            assert(cs.take(n as int) =~= cs);
            assert(cs.skip(n as int) =~= Seq::<KeyConfig>::empty());
            let others = spec_chord_others(cs, i as int, p, ev);
            assert(others.0 + Seq::<KeyConfig>::empty() =~= others.0);
            assert(self.key_configs@ =~= others.0.update(i as int, st.0));
            lemma_chord_others_pointwise(cs, i as int, p, ev);
            assert forall|a: int|
                0 <= a < self.key_configs@.len() implies self.key_configs@[a].key == cs[a].key
                && self.key_configs@[a].wf() by {}
        }
        out
    }

    /// An event that matches no trigger: markers pass through; otherwise the
    /// chord policy runs over every held mapping and the event is forwarded
    /// unless one of them consumed it. Follows `spec_foreign_event`.
    pub fn handle_non_configured_event(&mut self, ev: KeyEvent) -> (out: Vec<OutEvent>)
        requires
            old(self).wf(),
        ensures
            final(self).wf(),
            final(self).policy == old(self).policy,
            final(self).hold_threshold_ms == old(self).hold_threshold_ms,
            final(self).key_configs@ == spec_foreign_event(
                old(self).key_configs@,
                old(self).policy,
                ev,
            ).0,
            out@ == spec_foreign_event(old(self).key_configs@, old(self).policy, ev).1,
    {
        let mut out: Vec<OutEvent> = Vec::new();
        if is_marker(&ev) {
            out.push(forward_event(&ev));
            return out;
        }
        let mut consumed: bool = false;
        let n = self.key_configs.len();
        let mut i: usize = 0;
        while i < n
            invariant
                old(self).wf(),
                !spec_is_marker(ev),
                n == self.key_configs@.len(),
                self.key_configs@.len() == old(self).key_configs@.len(),
                i <= n,
                self.policy == old(self).policy,
                self.hold_threshold_ms == old(self).hold_threshold_ms,
                self.key_configs@ == spec_foreign_all(
                    old(self).key_configs@.take(i as int),
                    old(self).policy,
                    ev,
                ).0 + old(self).key_configs@.skip(i as int),
                out@ == spec_foreign_all(
                    old(self).key_configs@.take(i as int),
                    old(self).policy,
                    ev,
                ).1,
                consumed == spec_foreign_all(
                    old(self).key_configs@.take(i as int),
                    old(self).policy,
                    ev,
                ).2,
            decreases n - i,
        {
            proof {
                lemma_foreign_all_pointwise(
                    old(self).key_configs@.take(i as int),
                    old(self).policy,
                    ev,
                );
                assert(self.key_configs@[i as int] == old(self).key_configs@[i as int]);
            }
            let mut c = self.key_configs[i];
            if c.is_pressed() {
                if ev.event_type == EV_KEY && ev.code == self.policy.cancel_key {
                    out.push(key_out(c.on_hold, VALUE_UP, false));
                    out.push(key_out(self.policy.cancel_action, VALUE_DOWN, false));
                    out.push(key_out(self.policy.cancel_action, VALUE_UP, true));
                    c.state = KeyState::idle();
                    consumed = true;
                } else if c.state.is_interrupted && ev.event_type == EV_KEY && ev.code
                    == self.policy.confirm_key {
                    out.push(key_out(c.on_hold, VALUE_UP, false));
                    out.push(key_out(self.policy.cancel_action, VALUE_DOWN, false));
                    out.push(key_out(self.policy.cancel_action, VALUE_UP, true));
                    c.state = KeyState::idle();
                    consumed = true;
                } else {
                    c.interrupt();
                }
            }
            self.key_configs.set(i, c);
            proof {
                let pre = old(self).key_configs@;
                let p = old(self).policy;
                let prev = spec_foreign_all(pre.take(i as int), p, ev);
                let step = spec_foreign_step(pre[i as int], p, ev);
                assert(pre.take(i as int + 1).drop_last() =~= pre.take(i as int));
                assert(pre.take(i as int + 1).last() == pre[i as int]);
                assert(c == step.0);
                lemma_foreign_all_pointwise(pre.take(i as int), p, ev);
                assert(self.key_configs@ =~= spec_foreign_all(
                    pre.take(i as int + 1),
                    p,
                    ev,
                ).0 + pre.skip(i as int + 1));
                assert(out@ =~= spec_foreign_all(pre.take(i as int + 1), p, ev).1);
            }
            i += 1;
        }
        if !consumed {
            out.push(forward_event(&ev));
        }
        proof {
            let pre = old(self).key_configs@;
            assert(pre.take(pre.len() as int) =~= pre);
            assert(pre.skip(pre.len() as int) =~= Seq::<KeyConfig>::empty());
            assert(self.key_configs@ =~= spec_foreign_all(pre, old(self).policy, ev).0);
            lemma_foreign_all_pointwise(pre, old(self).policy, ev);
            assert(out@ =~= spec_foreign_event(pre, old(self).policy, ev).1);
        }
        out
    }

    /// One batch of raw events, dispatched strictly in arrival order, each
    /// event's emissions flushed before the next is processed. Follows
    /// `spec_run`.
    pub fn handle_events(&mut self, events: &Vec<KeyEvent>) -> (out: Vec<OutEvent>)
        requires
            old(self).wf(),
        ensures
            final(self).wf(),
            final(self).policy == old(self).policy,
            final(self).hold_threshold_ms == old(self).hold_threshold_ms,
            final(self).key_configs@ == spec_run(
                old(self).key_configs@,
                old(self).policy,
                old(self).hold_threshold_ms,
                events@,
            ).0,
            out@ == spec_run(
                old(self).key_configs@,
                old(self).policy,
                old(self).hold_threshold_ms,
                events@,
            ).1,
    {
        let mut out: Vec<OutEvent> = Vec::new();
        let mut i: usize = 0;
        while i < events.len()
            invariant
                self.wf(),
                i <= events@.len(),
                self.policy == old(self).policy,
                self.hold_threshold_ms == old(self).hold_threshold_ms,
                self.key_configs@ == spec_run(
                    old(self).key_configs@,
                    old(self).policy,
                    old(self).hold_threshold_ms,
                    events@.take(i as int),
                ).0,
                out@ == spec_run(
                    old(self).key_configs@,
                    old(self).policy,
                    old(self).hold_threshold_ms,
                    events@.take(i as int),
                ).1,
            decreases events@.len() - i,
        {
            let mut step = self.handle_event(events[i]);
            out.append(&mut step);
            proof {
                let evs = events@;
                assert(evs.take(i as int + 1).drop_last() =~= evs.take(i as int));
                assert(evs.take(i as int + 1).last() == evs[i as int]);
                assert(out@ =~= spec_run(
                    old(self).key_configs@,
                    old(self).policy,
                    old(self).hold_threshold_ms,
                    evs.take(i as int + 1),
                ).1);
            }
            i += 1;
        }
        proof {
            assert(events@.take(events@.len() as int) =~= events@);
        }
        out
    }
}

} // verus!
