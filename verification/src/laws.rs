//! The engine's guarantees, stated and proved once and for all: what a quick
//! tap, a long hold, an interrupted hold and a pass-through stream emit, that
//! mappings are independent, and that every cycle ends back in the idle
//! state.

use vstd::prelude::*;

use crate::engine::{
    spec_held_ms, spec_release, spec_tap_pulse, spec_trigger_step, KeyConfig, KeyState,
};
use crate::event::{
    spec_forward, spec_is_marker, spec_key_out, KeyEvent, OutEvent, EV_KEY, VALUE_DOWN, VALUE_UP,
};
use crate::remapper::{
    lemma_chord_others_pointwise, lemma_find_trigger_at, lemma_foreign_all_pointwise,
    spec_chord_others, spec_find_trigger, spec_foreign_all, spec_foreign_step, spec_handle_event,
    spec_is_cancel, spec_run, ChordPolicy,
};

verus! {

/// Pairwise distinct trigger codes across the table.
pub open spec fn unique_triggers(cs: Seq<KeyConfig>) -> bool {
    forall|a: int, b: int| 0 <= a < b < cs.len() ==> cs[a].key != cs[b].key
}

/// In a table with unique triggers, an event carrying a trigger's code is
/// routed to exactly that mapping.
pub proof fn lemma_find_in_unique_table(cs: Seq<KeyConfig>, i: int)
    requires
        unique_triggers(cs),
        0 <= i < cs.len(),
    ensures
        spec_find_trigger(cs, cs[i].key) == Some(i),
{
    assert forall|k: int| 0 <= k < i implies cs[k].key != cs[i].key by {}
    lemma_find_trigger_at(cs, cs[i].key, i);
}

/// A foreign event under which every mapping stays quiet (no mapping emits,
/// none consumes) adds nothing to the output.
proof fn lemma_foreign_all_quiet(cs: Seq<KeyConfig>, p: ChordPolicy, ev: KeyEvent)
    requires
        forall|j: int|
            0 <= j < cs.len() ==> spec_foreign_step(cs[j], p, ev).1 == Seq::<OutEvent>::empty()
                && !spec_foreign_step(cs[j], p, ev).2,
    ensures
        spec_foreign_all(cs, p, ev).1 == Seq::<OutEvent>::empty(),
        !spec_foreign_all(cs, p, ev).2,
    decreases cs.len(),
{
    if cs.len() > 0 {
        assert forall|j: int|
            0 <= j < cs.drop_last().len() implies spec_foreign_step(cs.drop_last()[j], p, ev).1
            == Seq::<OutEvent>::empty() && !spec_foreign_step(cs.drop_last()[j], p, ev).2 by {
            assert(cs.drop_last()[j] == cs[j]);
        }
        lemma_foreign_all_quiet(cs.drop_last(), p, ev);
        assert(spec_foreign_all(cs, p, ev).1 =~= Seq::<OutEvent>::empty());
    }
}

/// A trigger event under which every other mapping stays quiet (none of the
/// others is held) adds nothing to the output and moves none of them.
proof fn lemma_chord_others_quiet(cs: Seq<KeyConfig>, skip_i: int, p: ChordPolicy, ev: KeyEvent)
    requires
        forall|j: int|
            0 <= j < cs.len() && j != skip_i ==> spec_foreign_step(cs[j], p, ev).1 == Seq::<
                OutEvent,
            >::empty() && spec_foreign_step(cs[j], p, ev).0 == cs[j],
    ensures
        spec_chord_others(cs, skip_i, p, ev).0 == cs,
        spec_chord_others(cs, skip_i, p, ev).1 == Seq::<OutEvent>::empty(),
    decreases cs.len(),
{
    if cs.len() > 0 {
        assert forall|j: int|
            0 <= j < cs.drop_last().len() && j != skip_i implies spec_foreign_step(
            cs.drop_last()[j],
            p,
            ev,
        ).1 == Seq::<OutEvent>::empty() && spec_foreign_step(cs.drop_last()[j], p, ev).0
            == cs.drop_last()[j] by {
            assert(cs.drop_last()[j] == cs[j]);
        }
        lemma_chord_others_quiet(cs.drop_last(), skip_i, p, ev);
        assert(spec_chord_others(cs, skip_i, p, ev).0 =~= cs);
        assert(spec_chord_others(cs, skip_i, p, ev).1 =~= Seq::<OutEvent>::empty());
    }
}

/// Pressing and releasing a mapping's trigger within the hold threshold,
/// with no intervening events and no other mapping held, emits exactly the
/// hold action's Down, the hold action's Up, then the tap pulse — and leaves
/// the whole table as it was.
pub proof fn lemma_quick_tap(
    cs: Seq<KeyConfig>,
    p: ChordPolicy,
    threshold_ms: u64,
    i: int,
    t0: u64,
    t1: u64,
)
    requires
        unique_triggers(cs),
        0 <= i < cs.len(),
        cs[i].state == KeyState::spec_idle(),
        forall|j: int| 0 <= j < cs.len() && j != i ==> !cs[j].state.is_pressed,
        t0 <= t1,
        t1 - t0 < threshold_ms,
    ensures
        ({
            let down = KeyEvent {
                event_type: EV_KEY,
                code: cs[i].key,
                value: VALUE_DOWN,
                time_ms: t0,
            };
            let up = KeyEvent { event_type: EV_KEY, code: cs[i].key, value: VALUE_UP, time_ms: t1 };
            let r = spec_run(cs, p, threshold_ms, seq![down, up]);
            &&& r.1 == seq![
                spec_key_out(cs[i].on_hold, VALUE_DOWN, false),
                spec_key_out(cs[i].on_hold, VALUE_UP, false),
            ] + spec_tap_pulse(cs[i].on_tap)
            &&& r.0 == cs
        }),
{
    reveal_with_fuel(spec_run, 3);
    let down = KeyEvent { event_type: EV_KEY, code: cs[i].key, value: VALUE_DOWN, time_ms: t0 };
    let up = KeyEvent { event_type: EV_KEY, code: cs[i].key, value: VALUE_UP, time_ms: t1 };
    let evs = seq![down, up];
    assert(evs.drop_last() =~= seq![down]);
    assert(seq![down].drop_last() =~= Seq::<KeyEvent>::empty());

    lemma_find_in_unique_table(cs, i);
    lemma_chord_others_quiet(cs, i, p, down);
    let s1 = spec_handle_event(cs, p, threshold_ms, down);
    let cs1 = s1.0;
    assert(cs1 == cs.update(i, cs1[i]));
    assert(s1.1 =~= seq![spec_key_out(cs[i].on_hold, VALUE_DOWN, false)]);
    assert(cs1[i].key == cs[i].key);
    assert forall|a: int, b: int| 0 <= a < b < cs1.len() implies cs1[a].key != cs1[b].key by {}
    lemma_find_in_unique_table(cs1, i);
    lemma_chord_others_quiet(cs1, i, p, up);
    let s2 = spec_handle_event(cs1, p, threshold_ms, up);
    assert(spec_held_ms(t0, t1) == t1 - t0);
    assert(s2.0 =~= cs);
    assert(s2.1 =~= seq![spec_key_out(cs[i].on_hold, VALUE_UP, false)] + spec_tap_pulse(
        cs[i].on_tap,
    ));
    let r = spec_run(cs, p, threshold_ms, evs);
    assert(r.1 =~= seq![
        spec_key_out(cs[i].on_hold, VALUE_DOWN, false),
        spec_key_out(cs[i].on_hold, VALUE_UP, false),
    ] + spec_tap_pulse(cs[i].on_tap));
}

/// Holding a trigger past the threshold and then releasing it, with no
/// other mapping held, emits exactly the hold action's Down and Up — no tap,
/// however long past the threshold — and leaves the whole table as it was.
pub proof fn lemma_long_hold(
    cs: Seq<KeyConfig>,
    p: ChordPolicy,
    threshold_ms: u64,
    i: int,
    t0: u64,
    t1: u64,
)
    requires
        unique_triggers(cs),
        0 <= i < cs.len(),
        cs[i].state == KeyState::spec_idle(),
        forall|j: int| 0 <= j < cs.len() && j != i ==> !cs[j].state.is_pressed,
        t0 <= t1,
        t1 - t0 >= threshold_ms,
    ensures
        ({
            let down = KeyEvent {
                event_type: EV_KEY,
                code: cs[i].key,
                value: VALUE_DOWN,
                time_ms: t0,
            };
            let up = KeyEvent { event_type: EV_KEY, code: cs[i].key, value: VALUE_UP, time_ms: t1 };
            let r = spec_run(cs, p, threshold_ms, seq![down, up]);
            &&& r.1 == seq![
                spec_key_out(cs[i].on_hold, VALUE_DOWN, false),
                spec_key_out(cs[i].on_hold, VALUE_UP, false),
            ]
            &&& r.0 == cs
        }),
{
    reveal_with_fuel(spec_run, 3);
    let down = KeyEvent { event_type: EV_KEY, code: cs[i].key, value: VALUE_DOWN, time_ms: t0 };
    let up = KeyEvent { event_type: EV_KEY, code: cs[i].key, value: VALUE_UP, time_ms: t1 };
    let evs = seq![down, up];
    assert(evs.drop_last() =~= seq![down]);
    assert(seq![down].drop_last() =~= Seq::<KeyEvent>::empty());

    lemma_find_in_unique_table(cs, i);
    lemma_chord_others_quiet(cs, i, p, down);
    let s1 = spec_handle_event(cs, p, threshold_ms, down);
    let cs1 = s1.0;
    assert(cs1 == cs.update(i, cs1[i]));
    assert(s1.1 =~= seq![spec_key_out(cs[i].on_hold, VALUE_DOWN, false)]);
    assert(cs1[i].key == cs[i].key);
    assert forall|a: int, b: int| 0 <= a < b < cs1.len() implies cs1[a].key != cs1[b].key by {}
    lemma_find_in_unique_table(cs1, i);
    lemma_chord_others_quiet(cs1, i, p, up);
    let s2 = spec_handle_event(cs1, p, threshold_ms, up);
    assert(spec_held_ms(t0, t1) == t1 - t0);
    assert(s2.0 =~= cs);
    assert(s2.1 =~= seq![spec_key_out(cs[i].on_hold, VALUE_UP, false)]);
    let r = spec_run(cs, p, threshold_ms, evs);
    assert(r.1 =~= seq![
        spec_key_out(cs[i].on_hold, VALUE_DOWN, false),
        spec_key_out(cs[i].on_hold, VALUE_UP, false),
    ]);
}

/// A qualifying foreign event during a hold — one that matches no trigger,
/// is no marker and is not the cancel companion — suppresses the tap on
/// release even when the whole press stays under the threshold: the stream
/// is exactly the hold action's Down, the foreign event forwarded, and the
/// hold action's Up. The table ends as it began.
pub proof fn lemma_interrupt_suppresses_tap(
    cs: Seq<KeyConfig>,
    p: ChordPolicy,
    threshold_ms: u64,
    i: int,
    t0: u64,
    f: KeyEvent,
    t1: u64,
)
    requires
        unique_triggers(cs),
        0 <= i < cs.len(),
        cs[i].state == KeyState::spec_idle(),
        forall|j: int| 0 <= j < cs.len() && j != i ==> !cs[j].state.is_pressed,
        spec_find_trigger(cs, f.code) is None,
        !spec_is_marker(f),
        !spec_is_cancel(p, f),
        t0 <= t1,
        t1 - t0 < threshold_ms,
    ensures
        ({
            let down = KeyEvent {
                event_type: EV_KEY,
                code: cs[i].key,
                value: VALUE_DOWN,
                time_ms: t0,
            };
            let up = KeyEvent { event_type: EV_KEY, code: cs[i].key, value: VALUE_UP, time_ms: t1 };
            let r = spec_run(cs, p, threshold_ms, seq![down, f, up]);
            &&& r.1 == seq![
                spec_key_out(cs[i].on_hold, VALUE_DOWN, false),
                spec_forward(f),
                spec_key_out(cs[i].on_hold, VALUE_UP, false),
            ]
            &&& r.0 == cs
        }),
{
    reveal_with_fuel(spec_run, 4);
    let down = KeyEvent { event_type: EV_KEY, code: cs[i].key, value: VALUE_DOWN, time_ms: t0 };
    let up = KeyEvent { event_type: EV_KEY, code: cs[i].key, value: VALUE_UP, time_ms: t1 };
    let evs = seq![down, f, up];
    assert(evs.drop_last() =~= seq![down, f]);
    assert(seq![down, f].drop_last() =~= seq![down]);
    assert(seq![down].drop_last() =~= Seq::<KeyEvent>::empty());

    // The press.
    lemma_find_in_unique_table(cs, i);
    lemma_chord_others_quiet(cs, i, p, down);
    let s1 = spec_handle_event(cs, p, threshold_ms, down);
    let cs1 = s1.0;
    assert(cs1 == cs.update(i, cs1[i]));
    assert(s1.1 =~= seq![spec_key_out(cs[i].on_hold, VALUE_DOWN, false)]);
    assert forall|k: int| 0 <= k < cs.len() implies cs1[k].key == cs[k].key by {}

    // The foreign event: routed through the chord policy, it only marks
    // mapping `i` interrupted and is forwarded.
    crate::remapper::lemma_find_trigger_covers(cs, f.code);
    assert forall|k: int| 0 <= k < cs1.len() implies cs1[k].key != f.code by {}
    crate::remapper::lemma_find_trigger_none(cs1, f.code);
    let step2 = spec_foreign_all(cs1, p, f);
    lemma_foreign_all_pointwise(cs1, p, f);
    assert forall|j: int|
        0 <= j < cs1.len() implies spec_foreign_step(cs1[j], p, f).1 == Seq::<OutEvent>::empty()
        && !spec_foreign_step(cs1[j], p, f).2 by {}
    lemma_foreign_all_quiet(cs1, p, f);
    let cs2 = spec_handle_event(cs1, p, threshold_ms, f).0;
    assert(spec_handle_event(cs1, p, threshold_ms, f).1 =~= seq![spec_forward(f)]);
    assert(cs2[i].state.is_pressed && cs2[i].state.is_interrupted);
    assert(cs2[i].key == cs[i].key && cs2[i].on_hold == cs[i].on_hold);

    // The release: the hold action's Up alone, and back to idle.
    assert forall|a: int, b: int| 0 <= a < b < cs2.len() implies cs2[a].key != cs2[b].key by {}
    lemma_find_in_unique_table(cs2, i);
    assert forall|j: int| 0 <= j < cs2.len() && j != i implies !cs2[j].state.is_pressed by {
        assert(cs2[j] == spec_foreign_step(cs1[j], p, f).0);
    }
    lemma_chord_others_quiet(cs2, i, p, up);
    let s3 = spec_handle_event(cs2, p, threshold_ms, up);
    assert(s3.1 =~= seq![spec_key_out(cs[i].on_hold, VALUE_UP, false)]);
    assert(s3.0 =~= cs);

    let r = spec_run(cs, p, threshold_ms, evs);
    assert(r.1 =~= seq![
        spec_key_out(cs[i].on_hold, VALUE_DOWN, false),
        spec_forward(f),
        spec_key_out(cs[i].on_hold, VALUE_UP, false),
    ]);
}

/// While no mapping is held, a stream of events none of which carries a
/// trigger's code passes through with identical type, code and value, in the
/// same relative order, and moves no state.
pub proof fn lemma_passthrough(
    cs: Seq<KeyConfig>,
    p: ChordPolicy,
    threshold_ms: u64,
    evs: Seq<KeyEvent>,
)
    requires
        forall|j: int| 0 <= j < cs.len() ==> !cs[j].state.is_pressed,
        forall|k: int|
            0 <= k < evs.len() ==> spec_find_trigger(cs, (#[trigger] evs[k]).code) is None,
    ensures
        spec_run(cs, p, threshold_ms, evs).0 == cs,
        spec_run(cs, p, threshold_ms, evs).1 == evs.map_values(|e: KeyEvent| spec_forward(e)),
    decreases evs.len(),
{
    if evs.len() == 0 {
        assert(spec_run(cs, p, threshold_ms, evs).1 =~= evs.map_values(
            |e: KeyEvent| spec_forward(e),
        ));
    } else {
        let front = evs.drop_last();
        assert forall|k: int|
            0 <= k < front.len() implies spec_find_trigger(cs, (#[trigger] front[k]).code)
            is None by {
            assert(front[k] == evs[k]);
        }
        lemma_passthrough(cs, p, threshold_ms, front);
        let e = evs.last();
        let s = spec_handle_event(cs, p, threshold_ms, e);
        if !spec_is_marker(e) {
            lemma_foreign_all_pointwise(cs, p, e);
            assert forall|j: int|
                0 <= j < cs.len() implies spec_foreign_step(cs[j], p, e).1 == Seq::<
                OutEvent,
            >::empty() && !spec_foreign_step(cs[j], p, e).2 by {}
            lemma_foreign_all_quiet(cs, p, e);
            assert(spec_foreign_all(cs, p, e).0 =~= cs);
        }
        assert(s.0 == cs);
        assert(s.1 =~= seq![spec_forward(e)]);
        assert(spec_run(cs, p, threshold_ms, evs).1 =~= evs.map_values(
            |ev: KeyEvent| spec_forward(ev),
        ));
    }
}

/// Mappings are independent: under any event, each mapping's next state is a
/// function of its own state and the event alone, never of another mapping's
/// state. The mapping whose trigger the event carries takes the trigger
/// step; every other mapping takes its own chord step (and none moves on a
/// marker).
pub proof fn lemma_independent_mappings(
    cs: Seq<KeyConfig>,
    p: ChordPolicy,
    threshold_ms: u64,
    ev: KeyEvent,
)
    ensures
        ({
            let r = spec_handle_event(cs, p, threshold_ms, ev);
            match spec_find_trigger(cs, ev.code) {
                Some(i) => {
                    &&& r.0.len() == cs.len()
                    &&& r.0[i] == spec_trigger_step(cs[i], ev.value, threshold_ms, ev.time_ms).0
                    &&& forall|j: int|
                        0 <= j < cs.len() && j != i ==> r.0[j] == (if spec_is_marker(ev) {
                            cs[j]
                        } else {
                            spec_foreign_step(cs[j], p, ev).0
                        })
                },
                None => !spec_is_marker(ev) ==> r.0.len() == cs.len() && forall|j: int|
                    0 <= j < cs.len() ==> r.0[j] == spec_foreign_step(cs[j], p, ev).0,
            }
        }),
{
    match spec_find_trigger(cs, ev.code) {
        Some(i) => {
            crate::remapper::lemma_find_trigger_range(cs, ev.code);
            if !spec_is_marker(ev) {
                lemma_chord_others_pointwise(cs, i, p, ev);
            }
        },
        None => {
            if !spec_is_marker(ev) {
                lemma_foreign_all_pointwise(cs, p, ev);
            }
        },
    }
}

/// After any full Down-to-Up cycle the mapping's state is exactly the idle
/// one again: released, no press time, not interrupted — however the hold
/// went.
pub proof fn lemma_cycle_resets(c: KeyConfig, threshold_ms: u64, now_ms: u64)
    requires
        c.state.is_pressed,
    ensures
        spec_release(c, threshold_ms, now_ms).0.state == KeyState::spec_idle(),
        spec_release(c, threshold_ms, now_ms).0.key == c.key,
        spec_release(c, threshold_ms, now_ms).0.on_tap == c.on_tap,
        spec_release(c, threshold_ms, now_ms).0.on_hold == c.on_hold,
{
}

} // verus!
