//! What holds of the engine over one event, and over any number of them.

use crate::ast::{CondView, Throttle};
use crate::engine::{
    eviction_drops_old_events, fresh_events, holds, matches_window, EngineView, FiringView,
};
use crate::event::EventView;
use crate::throttle::{
    after_requests, ascending, at_most_ago, every_period_is_capped, filter_is_suffix, granted,
    nothing_is_refused_without_cause, within,
};
use crate::time::{elapsed, Duration, Timestamp};
use vstd::prelude::*;

verus! {

// ---------------------------------------------------------------------
// One window
// ---------------------------------------------------------------------

/// A condition without a negation.
pub open spec fn positive(c: CondView) -> bool
    decreases c,
{
    match c {
        CondView::Compare { .. } => true,
        CondView::And(a, b) => positive(*a) && positive(*b),
        CondView::Or(a, b) => positive(*a) && positive(*b),
        CondView::Not(_) => false,
    }
}

/// Every event of one window is also in the other.
pub open spec fn part_of(small: Seq<EventView>, large: Seq<EventView>) -> bool {
    forall|e: EventView| #[trigger] small.contains(e) ==> large.contains(e)
}

/// A condition without a negation that holds of a window holds of every window
/// with the same events and more.
pub proof fn larger_windows_keep_matches(c: CondView, small: Seq<EventView>, large: Seq<EventView>)
    requires
        part_of(small, large),
        positive(c),
        holds(c, small),
    ensures
        holds(c, large),
    decreases c,
{
    match c {
        CondView::Compare { path, op, value } => {
            let i = choose|i: int|
                #![trigger small[i]]
                {
                    &&& 0 <= i < small.len()
                    &&& small[i].module == path.module
                    &&& small[i].event_type == path.event_type
                    &&& small[i].fields.contains_key(path.field)
                    &&& small[i].fields[path.field].satisfies(op, value)
                };
            assert(small.contains(small[i]));
            let j = choose|j: int| 0 <= j < large.len() && large[j] == small[i];
            assert(large[j] == small[i]);
        },
        CondView::And(a, b) => {
            larger_windows_keep_matches(*a, small, large);
            larger_windows_keep_matches(*b, small, large);
        },
        CondView::Or(a, b) => {
            if holds(*a, small) {
                larger_windows_keep_matches(*a, small, large);
            } else {
                larger_windows_keep_matches(*b, small, large);
            }
        },
        CondView::Not(_) => {},
    }
}

/// Only the events of a window matter, not their order, nor how often one of them
/// stands there.
pub proof fn order_and_repetition_do_not_matter(
    c: CondView,
    one: Seq<EventView>,
    other: Seq<EventView>,
)
    requires
        part_of(one, other),
        part_of(other, one),
    ensures
        holds(c, one) == holds(c, other),
    decreases c,
{
    match c {
        CondView::Compare { .. } => {
            if holds(c, one) {
                larger_windows_keep_matches(c, one, other);
            }
            if holds(c, other) {
                larger_windows_keep_matches(c, other, one);
            }
        },
        CondView::And(a, b) => {
            order_and_repetition_do_not_matter(*a, one, other);
            order_and_repetition_do_not_matter(*b, one, other);
        },
        CondView::Or(a, b) => {
            order_and_repetition_do_not_matter(*a, one, other);
            order_and_repetition_do_not_matter(*b, one, other);
        },
        CondView::Not(a) => {
            order_and_repetition_do_not_matter(*a, one, other);
        },
    }
}

/// The condition lines of a rule are alternatives: two of them match as one line
/// with `||` between them does, and a further one adds what it matches.
pub proof fn lines_are_alternatives(
    a: CondView,
    b: CondView,
    lines: Seq<CondView>,
    window: Seq<EventView>,
)
    ensures
        matches_window(seq![a, b], window) <==> holds(
            CondView::Or(Box::new(a), Box::new(b)),
            window,
        ),
        matches_window(lines.push(a), window) <==> matches_window(lines, window) || holds(
            a,
            window,
        ),
        !matches_window(Seq::empty(), window),
{
    let two = seq![a, b];
    assert(two[0] == a && two[1] == b);
    let more = lines.push(a);
    assert(more[lines.len() as int] == a);
    if matches_window(lines, window) {
        let i = choose|i: int| 0 <= i < lines.len() && holds(#[trigger] lines[i], window);
        assert(more[i] == lines[i]);
    }
    if matches_window(more, window) && !holds(a, window) {
        let i = choose|i: int| 0 <= i < more.len() && holds(#[trigger] more[i], window);
        assert(more[i] == lines[i]);
    }
}

/// Events in the order of their times.
pub open spec fn in_order(events: Seq<EventView>) -> bool {
    forall|j: int, k: int|
        0 <= j < k < events.len() ==> (#[trigger] events[j]).timestamp.nanos <= (
        #[trigger] events[k]).timestamp.nanos
}

/// The event is not older than `max_age`.
pub open spec fn recent(now: Timestamp, max_age: Duration) -> spec_fn(EventView) -> bool {
    |e: EventView| elapsed(now, e.timestamp) <= max_age.nanos
}

/// Of events in the order of their times, exactly the recent ones are left.
pub proof fn recent_events_are_left(events: Seq<EventView>, now: Timestamp, max_age: Duration)
    requires
        in_order(events),
    ensures
        fresh_events(events, now, max_age) == events.filter(recent(now, max_age)),
    decreases events.len(),
{
    let keep = recent(now, max_age);
    eviction_drops_old_events(events, now, max_age);
    let fresh = fresh_events(events, now, max_age);
    let dropped = events.len() - fresh.len();
    assert forall|k: int| dropped <= k < events.len() implies keep(#[trigger] events[k]) by {
        assert(fresh[0] == events[dropped]);
        assert(events[dropped].timestamp.nanos <= events[k].timestamp.nanos);
    }
    filter_is_suffix(events, keep, dropped);
}

// ---------------------------------------------------------------------
// One event
// ---------------------------------------------------------------------

/// An event that no rule mentions fires nothing and changes nothing.
pub proof fn unmentioned_event_changes_nothing(engine: EngineView, event: EventView, now: Timestamp)
    requires
        engine.wf(),
        forall|i: int|
            0 <= i < engine.rules.len() ==> !(#[trigger] engine.rules[i].mentions(
                (event.module, event.event_type),
            )),
    ensures
        engine.after(event, now) == engine,
        engine.firings(event, now) == Seq::<FiringView>::empty(),
{
    let after = engine.after(event, now);
    assert(after.windows =~= engine.windows);
    assert(after.fires =~= engine.fires);
    no_firings(engine, engine.rules.len() as int, event, now);
}

proof fn no_firings(engine: EngineView, n: int, event: EventView, now: Timestamp)
    requires
        0 <= n <= engine.rules.len(),
        forall|i: int|
            0 <= i < engine.rules.len() ==> !(#[trigger] engine.rules[i].mentions(
                (event.module, event.event_type),
            )),
    ensures
        engine.firings_of(n, event, now) == Seq::<FiringView>::empty(),
    decreases n,
{
    if n > 0 {
        no_firings(engine, n - 1, event, now);
        assert(!engine.rules[n - 1].mentions((event.module, event.event_type)));
    }
}

/// The positions of those of the first `n` rules that fire, in ascending order.
pub open spec fn firing_rules(engine: EngineView, n: int, event: EventView, now: Timestamp) -> Seq<
    int,
>
    decreases n,
{
    if n <= 0 {
        Seq::empty()
    } else if engine.fired(n - 1, event, now) {
        firing_rules(engine, n - 1, event, now).push(n - 1)
    } else {
        firing_rules(engine, n - 1, event, now)
    }
}

/// An event makes every rule that mentions it, matches and may fire, fire once,
/// and no other rule; firings come in the order of the rules.
pub proof fn rules_fire_once(engine: EngineView, n: int, event: EventView, now: Timestamp)
    requires
        0 <= n,
    ensures
        ({
            let firings = engine.firings_of(n, event, now);
            let fired = firing_rules(engine, n, event, now);
            &&& firings.len() == fired.len()
            &&& forall|k: int|
                0 <= k < fired.len() ==> {
                    &&& 0 <= #[trigger] fired[k] < n
                    &&& engine.fired(fired[k], event, now)
                    &&& firings[k] == engine.firing(fired[k], event, now)
                }
            &&& forall|j: int, k: int|
                0 <= j < k < fired.len() ==> #[trigger] fired[j] < #[trigger] fired[k]
            &&& forall|i: int|
                0 <= i < n && #[trigger] engine.fired(i, event, now) ==> fired.contains(i)
        }),
    decreases n,
{
    if n > 0 {
        rules_fire_once(engine, n - 1, event, now);
        let before = firing_rules(engine, n - 1, event, now);
        let fired = firing_rules(engine, n, event, now);
        if engine.fired(n - 1, event, now) {
            assert(fired[before.len() as int] == n - 1);
        }
        assert forall|i: int| 0 <= i < n && #[trigger] engine.fired(i, event, now) implies
            fired.contains(i) by {
            if i < n - 1 {
                let k = choose|k: int| 0 <= k < before.len() && before[k] == i;
                assert(fired[k] == i);
            }
        }
    }
}

// ---------------------------------------------------------------------
// Any number of events
// ---------------------------------------------------------------------

/// Events, each with the time at which the engine is shown it.
pub type Steps = Seq<(EventView, Timestamp)>;

/// The engine after some events.
pub open spec fn after_all(engine: EngineView, steps: Steps) -> EngineView
    decreases steps.len(),
{
    if steps.len() == 0 {
        engine
    } else {
        after_all(engine, steps.drop_last()).after(steps.last().0, steps.last().1)
    }
}

/// The times at which a rule fired.
pub open spec fn fire_times(engine: EngineView, i: int, steps: Steps) -> Seq<Timestamp>
    decreases steps.len(),
{
    if steps.len() == 0 {
        Seq::empty()
    } else {
        let before = fire_times(engine, i, steps.drop_last());
        if after_all(engine, steps.drop_last()).fired(i, steps.last().0, steps.last().1) {
            before.push(steps.last().1)
        } else {
            before
        }
    }
}

/// Time does not run backwards.
pub open spec fn time_goes_on(steps: Steps) -> bool {
    forall|j: int, k: int|
        0 <= j < k < steps.len() ==> (#[trigger] steps[j]).1.nanos <= (#[trigger] steps[k]).1.nanos
}

/// The rules never change, and neither does the number of windows.
pub proof fn rules_never_change(engine: EngineView, steps: Steps)
    requires
        engine.windows.len() == engine.rules.len(),
        engine.fires.len() == engine.rules.len(),
    ensures
        after_all(engine, steps).rules == engine.rules,
        after_all(engine, steps).windows.len() == engine.rules.len(),
        after_all(engine, steps).fires.len() == engine.rules.len(),
    decreases steps.len(),
{
    if steps.len() > 0 {
        rules_never_change(engine, steps.drop_last());
    }
}

/// The events come in the order of their own times.
pub open spec fn events_in_order(steps: Steps) -> bool {
    forall|j: int, k: int|
        0 <= j < k < steps.len() ==> (#[trigger] steps[j]).0.timestamp.nanos <= (
        #[trigger] steps[k]).0.timestamp.nanos
}

/// Dropping the last step keeps the order, and what is left does not come after
/// it.
proof fn prefix_in_order(steps: Steps)
    requires
        steps.len() > 0,
    ensures
        time_goes_on(steps) ==> {
            &&& time_goes_on(steps.drop_last())
            &&& steps.len() > 1 ==> steps.drop_last().last().1.nanos <= steps.last().1.nanos
        },
        events_in_order(steps) ==> {
            &&& events_in_order(steps.drop_last())
            &&& steps.len() > 1 ==> steps.drop_last().last().0.timestamp.nanos
                <= steps.last().0.timestamp.nanos
        },
{
    let before = steps.drop_last();
    assert forall|k: int| 0 <= k < before.len() implies before[k] == steps[k] by {}
    if steps.len() > 1 {
        assert(before.last() == steps[steps.len() - 2]);
        assert(steps.last() == steps[steps.len() - 1]);
    }
}

// ---------------------------------------------------------------------
// Throttles
// ---------------------------------------------------------------------

/// The times at which a rule mentioned the event and matched.
pub open spec fn match_times(engine: EngineView, i: int, steps: Steps) -> Seq<Timestamp>
    decreases steps.len(),
{
    if steps.len() == 0 {
        Seq::empty()
    } else {
        let before = match_times(engine, i, steps.drop_last());
        let (event, now) = steps.last();
        if engine.rules[i].mentions((event.module, event.event_type)) && after_all(
            engine,
            steps.drop_last(),
        ).matched(i, event, now) {
            before.push(now)
        } else {
            before
        }
    }
}

/// Matches come in the order of their times.
proof fn matches_in_order(engine: EngineView, i: int, steps: Steps)
    requires
        time_goes_on(steps),
    ensures
        ascending(match_times(engine, i, steps)),
        forall|k: int|
            0 <= k < match_times(engine, i, steps).len() ==> steps.len() > 0 && (
            #[trigger] match_times(engine, i, steps)[k]).nanos <= steps.last().1.nanos,
    decreases steps.len(),
{
    if steps.len() > 0 {
        prefix_in_order(steps);
        matches_in_order(engine, i, steps.drop_last());
        let then = match_times(engine, i, steps.drop_last());
        assert forall|k: int| 0 <= k < then.len() implies (#[trigger] then[k]).nanos
            <= steps.last().1.nanos by {}
    }
}

/// A rule with a throttle fires exactly where the throttle grants one of its
/// matches.
pub proof fn firings_are_granted_matches(engine: EngineView, i: int, steps: Steps, t: Throttle)
    requires
        engine.wf(),
        0 <= i < engine.rules.len(),
        engine.rules[i].throttle == Some(t),
        engine.fires[i].len() == 0,
    ensures
        fire_times(engine, i, steps) == granted(t, match_times(engine, i, steps)),
        after_all(engine, steps).throttle(i, t) == after_requests(
            t,
            match_times(engine, i, steps),
        ),
    decreases steps.len(),
{
    if steps.len() == 0 {
        assert(engine.fires[i] =~= Seq::empty());
    } else {
        let before = steps.drop_last();
        let then = match_times(engine, i, before);
        let now = steps.last().1;
        firings_are_granted_matches(engine, i, before, t);
        rules_never_change(engine, before);
        assert(then.push(now).drop_last() =~= then);
    }
}

/// A throttle caps every period: of a rule that starts with no recorded firing, no
/// closed interval of the length of the period holds more than `max` firings.
pub proof fn throttle_caps_every_period(
    engine: EngineView,
    i: int,
    steps: Steps,
    t: Throttle,
    start: int,
)
    requires
        engine.wf(),
        0 <= i < engine.rules.len(),
        engine.rules[i].throttle == Some(t),
        engine.fires[i].len() == 0,
        time_goes_on(steps),
    ensures
        fire_times(engine, i, steps).filter(within(start, t.per)).len() <= t.max,
{
    matches_in_order(engine, i, steps);
    firings_are_granted_matches(engine, i, steps, t);
    every_period_is_capped(t, match_times(engine, i, steps), start);
}

/// A throttle drops nothing else: after some events, a rule may fire at `now`
/// exactly where fewer than `max` of its firings are at most a period ago.
pub proof fn throttle_counts_recent_firings(
    engine: EngineView,
    i: int,
    steps: Steps,
    t: Throttle,
    now: Timestamp,
)
    requires
        engine.wf(),
        0 <= i < engine.rules.len(),
        engine.rules[i].throttle == Some(t),
        engine.fires[i].len() == 0,
        time_goes_on(steps),
        steps.len() > 0 ==> steps.last().1.nanos <= now.nanos,
    ensures
        after_all(engine, steps).allowed(i, now) <==> fire_times(engine, i, steps).filter(
            at_most_ago(now, t.per),
        ).len() < t.max,
{
    let times = match_times(engine, i, steps);
    matches_in_order(engine, i, steps);
    firings_are_granted_matches(engine, i, steps, t);
    rules_never_change(engine, steps);
    nothing_is_refused_without_cause(t, times, now);
}

// ---------------------------------------------------------------------
// Windows
// ---------------------------------------------------------------------

/// The events that a rule mentions, in order.
pub open spec fn seen(engine: EngineView, i: int, steps: Steps) -> Seq<EventView>
    decreases steps.len(),
{
    if steps.len() == 0 {
        Seq::empty()
    } else {
        let before = seen(engine, i, steps.drop_last());
        let event = steps.last().0;
        if engine.rules[i].mentions((event.module, event.event_type)) {
            before.push(event)
        } else {
            before
        }
    }
}

/// The time of the last event that a rule mentions.
pub open spec fn last_seen(engine: EngineView, i: int, steps: Steps) -> Option<Timestamp>
    decreases steps.len(),
{
    if steps.len() == 0 {
        None
    } else {
        let (event, now) = steps.last();
        if engine.rules[i].mentions((event.module, event.event_type)) {
            Some(now)
        } else {
            last_seen(engine, i, steps.drop_last())
        }
    }
}

/// The last event that a rule mentions came no later than the last of all, and
/// without one there is none.
proof fn last_seen_is_past(engine: EngineView, i: int, steps: Steps)
    requires
        time_goes_on(steps),
    ensures
        last_seen(engine, i, steps) matches Some(t) ==> steps.len() > 0 && t.nanos
            <= steps.last().1.nanos,
        last_seen(engine, i, steps) is None ==> seen(engine, i, steps).len() == 0,
    decreases steps.len(),
{
    if steps.len() > 0 {
        prefix_in_order(steps);
        last_seen_is_past(engine, i, steps.drop_last());
    }
}

/// The events that a rule mentions come in the order of their times where all do.
proof fn seen_in_order(engine: EngineView, i: int, steps: Steps)
    requires
        events_in_order(steps),
    ensures
        in_order(seen(engine, i, steps)),
        forall|k: int|
            0 <= k < seen(engine, i, steps).len() ==> steps.len() > 0 && (#[trigger] seen(
                engine,
                i,
                steps,
            )[k]).timestamp.nanos <= steps.last().0.timestamp.nanos,
    decreases steps.len(),
{
    if steps.len() > 0 {
        prefix_in_order(steps);
        seen_in_order(engine, i, steps.drop_last());
    }
}

/// What is dropped earlier would be dropped later.
proof fn dropping_early_is_dropping_late(
    events: Seq<EventView>,
    event: EventView,
    then: Timestamp,
    now: Timestamp,
    max_age: Duration,
)
    requires
        then.nanos <= now.nanos,
    ensures
        fresh_events(fresh_events(events, then, max_age).push(event), now, max_age)
            == fresh_events(events.push(event), now, max_age),
    decreases events.len(),
{
    if events.len() > 0 && elapsed(then, events[0].timestamp) > max_age.nanos {
        dropping_early_is_dropping_late(events.drop_first(), event, then, now, max_age);
        assert(events.push(event).drop_first() =~= events.drop_first().push(event));
    }
}

/// The window of a rule is what is left of all the events that it mentions, when
/// the leading ones are dropped that were too old when the last of them came.
pub proof fn window_is_left_of_all_events(engine: EngineView, i: int, steps: Steps)
    requires
        engine.wf(),
        0 <= i < engine.rules.len(),
        engine.windows[i].len() == 0,
        time_goes_on(steps),
    ensures
        match last_seen(engine, i, steps) {
            Some(now) => after_all(engine, steps).windows[i] == fresh_events(
                seen(engine, i, steps),
                now,
                engine.rules[i].window,
            ),
            None => after_all(engine, steps).windows[i].len() == 0,
        },
    decreases steps.len(),
{
    if steps.len() > 0 {
        let before = steps.drop_last();
        let (event, now) = steps.last();
        prefix_in_order(steps);
        window_is_left_of_all_events(engine, i, before);
        rules_never_change(engine, before);
        last_seen_is_past(engine, i, before);
        let was = after_all(engine, before).windows[i];
        let old = seen(engine, i, before);
        match last_seen(engine, i, before) {
            Some(then) => {
                dropping_early_is_dropping_late(old, event, then, now, engine.rules[i].window);
            },
            None => {
                assert(was =~= old);
            },
        }
    }
}

/// The window of a rule is exact: it holds the events that the rule mentions and
/// that were not too old when the last of them came, in order. Events are taken
/// to come in the order of their times, and time not to run backwards.
pub proof fn window_holds_recent_events(engine: EngineView, i: int, steps: Steps)
    requires
        engine.wf(),
        0 <= i < engine.rules.len(),
        engine.windows[i].len() == 0,
        events_in_order(steps),
        time_goes_on(steps),
    ensures
        match last_seen(engine, i, steps) {
            Some(now) => after_all(engine, steps).windows[i] == seen(engine, i, steps).filter(
                recent(now, engine.rules[i].window),
            ),
            None => after_all(engine, steps).windows[i].len() == 0,
        },
{
    window_is_left_of_all_events(engine, i, steps);
    seen_in_order(engine, i, steps);
    if let Some(now) = last_seen(engine, i, steps) {
        recent_events_are_left(seen(engine, i, steps), now, engine.rules[i].window);
    }
}

} // verus!
