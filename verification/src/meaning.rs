//! What conditions mean over a window, and what makes a rule fire.

use crate::ast::{CondView, Condition, FieldPath, KeyView, PathView, RuleView};
use crate::engine::{eviction_drops_old_events, fresh_events, holds, EngineView, FiringView};
use crate::event::{CmpOp, EventView, RuleValue, Scalar};
use crate::history::{firing_rules, rules_fire_once};
use crate::throttle::old_times_are_dropped;
use crate::time::{Duration, Timestamp};
use vstd::prelude::*;

verus! {

// ---------------------------------------------------------------------
// Comparisons over a window
// ---------------------------------------------------------------------

/// Where no event of the window is of the kind that a comparison names, by module
/// and by event type, the comparison does not hold.
pub proof fn comparison_needs_its_kind(
    path: PathView,
    op: CmpOp,
    value: Scalar,
    window: Seq<EventView>,
)
    requires
        forall|i: int|
            0 <= i < window.len() ==> (#[trigger] window[i]).module != path.module
                || window[i].event_type != path.event_type,
    ensures
        !holds(CondView::Compare { path, op, value }, window),
{
}

/// A comparison holds of a single event exactly where module and event type agree,
/// the field is there, and it satisfies the operator.
pub proof fn comparison_of_one_event(path: PathView, op: CmpOp, value: Scalar, e: EventView)
    ensures
        holds(CondView::Compare { path, op, value }, seq![e]) <==> {
            &&& e.module == path.module
            &&& e.event_type == path.event_type
            &&& e.fields.dom().contains(path.field)
            &&& e.fields[path.field].satisfies(op, value)
        },
{
    let window = seq![e];
    assert(window[0] == e);
}

/// A comparison holds of no empty window, and of two windows together exactly
/// where it holds of one of them.
pub proof fn comparison_of_two_windows(
    path: PathView,
    op: CmpOp,
    value: Scalar,
    a: Seq<EventView>,
    b: Seq<EventView>,
)
    ensures
        !holds(CondView::Compare { path, op, value }, Seq::empty()),
        ({
            let c = CondView::Compare { path, op, value };
            holds(c, a + b) <==> holds(c, a) || holds(c, b)
        }),
{
    let c = CondView::Compare { path, op, value };
    let all = a + b;
    assert forall|i: int| 0 <= i < a.len() implies all[i] == #[trigger] a[i] by {}
    assert forall|i: int| 0 <= i < b.len() implies all[a.len() + i] == #[trigger] b[i] by {}
    if holds(c, all) {
        let i = choose|i: int|
            #![trigger all[i]]
            {
                &&& 0 <= i < all.len()
                &&& all[i].module == path.module
                &&& all[i].event_type == path.event_type
                &&& all[i].fields.contains_key(path.field)
                &&& all[i].fields[path.field].satisfies(op, value)
            };
        if i < a.len() {
            assert(a[i] == all[i]);
        } else {
            assert(b[i - a.len()] == all[i]);
        }
    }
}

/// `&&` is both, `||` is either, `!` is not; each over one and the same window.
pub proof fn connectives_are_those_of_logic(a: CondView, b: CondView, window: Seq<EventView>)
    ensures
        holds(CondView::And(Box::new(a), Box::new(b)), window) <==> (holds(a, window) && holds(
            b,
            window,
        )),
        holds(CondView::Or(Box::new(a), Box::new(b)), window) <==> (holds(a, window) || holds(
            b,
            window,
        )),
        holds(CondView::Not(Box::new(a)), window) <==> !holds(a, window),
{
}

/// Events of a kind that the condition does not mention change nothing: without
/// them it holds exactly where it does with them.
pub proof fn unmentioned_events_change_nothing(
    c: CondView,
    keep: spec_fn(EventView) -> bool,
    window: Seq<EventView>,
)
    requires
        forall|e: EventView| c.mentions((e.module, e.event_type)) ==> #[trigger] keep(e),
    ensures
        holds(c, window) <==> holds(c, window.filter(keep)),
    decreases c,
{
    match c {
        CondView::Compare { path, op, value } => {
            let kept = window.filter(keep);
            filter_keeps_members(window, keep);
            let good = |e: EventView|
                e.module == path.module && e.event_type == path.event_type
                    && e.fields.contains_key(path.field) && e.fields[path.field].satisfies(
                    op,
                    value,
                );
            if holds(c, window) {
                let i = choose|i: int|
                    #![trigger window[i]]
                    {
                        &&& 0 <= i < window.len()
                        &&& window[i].module == path.module
                        &&& window[i].event_type == path.event_type
                        &&& window[i].fields.contains_key(path.field)
                        &&& window[i].fields[path.field].satisfies(op, value)
                    };
                assert(c.mentions((window[i].module, window[i].event_type)));
                assert(keep(window[i]));
                assert(window.contains(window[i]));
                assert(kept.contains(window[i]));
                let j = choose|j: int| 0 <= j < kept.len() && kept[j] == window[i];
                assert(good(kept[j]));
            }
            if holds(c, kept) {
                let j = choose|j: int|
                    #![trigger kept[j]]
                    {
                        &&& 0 <= j < kept.len()
                        &&& kept[j].module == path.module
                        &&& kept[j].event_type == path.event_type
                        &&& kept[j].fields.contains_key(path.field)
                        &&& kept[j].fields[path.field].satisfies(op, value)
                    };
                assert(kept.contains(kept[j]));
                let i = choose|i: int| 0 <= i < window.len() && window[i] == kept[j];
                assert(good(window[i]));
            }
        },
        CondView::And(a, b) => {
            unmentioned_events_change_nothing(*a, keep, window);
            unmentioned_events_change_nothing(*b, keep, window);
        },
        CondView::Or(a, b) => {
            unmentioned_events_change_nothing(*a, keep, window);
            unmentioned_events_change_nothing(*b, keep, window);
        },
        CondView::Not(a) => {
            unmentioned_events_change_nothing(*a, keep, window);
        },
    }
}

/// What is left of a sequence are its members that are kept.
proof fn filter_keeps_members(s: Seq<EventView>, keep: spec_fn(EventView) -> bool)
    ensures
        forall|e: EventView| #[trigger]
            s.filter(keep).contains(e) <==> s.contains(e) && keep(e),
    decreases s.len(),
{
    reveal(Seq::filter);
    if s.len() > 0 {
        let rest = s.drop_last();
        filter_keeps_members(rest, keep);
        let left = rest.filter(keep);
        let all = s.filter(keep);
        assert forall|e: EventView| #[trigger] all.contains(e) <==> s.contains(e) && keep(e) by {
            assert(left.contains(e) <==> rest.contains(e) && keep(e));
            if rest.contains(e) {
                let i = choose|i: int| 0 <= i < rest.len() && rest[i] == e;
                assert(s[i] == e);
            }
            if s.contains(e) && e != s.last() {
                let i = choose|i: int| 0 <= i < s.len() && s[i] == e;
                assert(rest[i] == e);
            }
            if keep(s.last()) {
                assert(all[left.len() as int] == s.last());
                if left.contains(e) {
                    let i = choose|i: int| 0 <= i < left.len() && left[i] == e;
                    assert(all[i] == e);
                }
                if all.contains(e) && e != s.last() {
                    let i = choose|i: int| 0 <= i < all.len() && all[i] == e;
                    assert(left[i] == e);
                }
            }
            assert(s[s.len() - 1] == s.last());
        }
    } else {
        assert(s.filter(keep) =~= s);
    }
}

/// Some path of the list is of this kind of event.
pub open spec fn some_path_is_of(paths: Seq<PathView>, key: KeyView) -> bool {
    exists|i: int|
        0 <= i < paths.len() && (#[trigger] paths[i]).module == key.0 && paths[i].event_type
            == key.1
}

proof fn of_one_or_other(x: Seq<PathView>, y: Seq<PathView>, key: KeyView)
    ensures
        some_path_is_of(x + y, key) <==> some_path_is_of(x, key) || some_path_is_of(y, key),
{
    let all = x + y;
    assert forall|i: int| 0 <= i < x.len() implies all[i] == #[trigger] x[i] by {}
    assert forall|i: int| 0 <= i < y.len() implies all[x.len() + i] == #[trigger] y[i] by {}
    if some_path_is_of(all, key) {
        let i = choose|i: int|
            0 <= i < all.len() && (#[trigger] all[i]).module == key.0 && all[i].event_type == key.1;
        if i < x.len() {
            assert(x[i] == all[i]);
        } else {
            assert(y[i - x.len()] == all[i]);
        }
    }
}

/// A condition mentions exactly the kinds of events that its field paths name.
pub proof fn mentions_are_kinds_of_paths(c: CondView, key: KeyView)
    ensures
        c.mentions(key) <==> some_path_is_of(c.paths(), key),
    decreases c,
{
    match c {
        CondView::Compare { path, .. } => {
            assert(c.paths()[0] == path);
        },
        CondView::Not(a) => {
            mentions_are_kinds_of_paths(*a, key);
        },
        CondView::And(a, b) => {
            mentions_are_kinds_of_paths(*a, key);
            mentions_are_kinds_of_paths(*b, key);
            of_one_or_other(a.paths(), b.paths(), key);
        },
        CondView::Or(a, b) => {
            mentions_are_kinds_of_paths(*a, key);
            mentions_are_kinds_of_paths(*b, key);
            of_one_or_other(a.paths(), b.paths(), key);
        },
    }
}

/// The view of a condition is the condition, part for part: its paths are those of
/// its comparisons, from left to right, with module, event type and field as they
/// stand there.
pub proof fn views_keep_conditions(a: Condition, b: Condition, path: FieldPath, op: CmpOp, v: RuleValue)
    ensures
        ({
            let leaf = Condition::Compare { path, op, value: v }.deep_view();
            let written = PathView {
                module: path.module@,
                event_type: path.event_type@,
                field: path.field@,
            };
            &&& leaf == CondView::Compare { path: written, op, value: v.deep_view() }
            &&& leaf.paths() == seq![written]
        }),
        ({
            let both = Condition::And(Box::new(a), Box::new(b)).deep_view();
            let either = Condition::Or(Box::new(a), Box::new(b)).deep_view();
            let not = Condition::Not(Box::new(a)).deep_view();
            &&& both == CondView::And(Box::new(a.deep_view()), Box::new(b.deep_view()))
            &&& either == CondView::Or(Box::new(a.deep_view()), Box::new(b.deep_view()))
            &&& not == CondView::Not(Box::new(a.deep_view()))
            &&& both.paths() == a.deep_view().paths() + b.deep_view().paths()
            &&& either.paths() == a.deep_view().paths() + b.deep_view().paths()
            &&& not.paths() == a.deep_view().paths()
        }),
{
}

// ---------------------------------------------------------------------
// Firings
// ---------------------------------------------------------------------

/// Some condition of the rule names the kind of the event.
pub open spec fn names_kind(rule: RuleView, event: EventView) -> bool {
    exists|c: int|
        0 <= c < rule.conditions.len() && some_path_is_of(
            (#[trigger] rule.conditions[c]).paths(),
            (event.module, event.event_type),
        )
}

/// Some condition of the rule holds of the window.
pub open spec fn some_condition_holds(rule: RuleView, window: Seq<EventView>) -> bool {
    exists|c: int| 0 <= c < rule.conditions.len() && holds(#[trigger] rule.conditions[c], window)
}

proof fn naming_is_mentioning(rule: RuleView, event: EventView)
    ensures
        names_kind(rule, event) <==> rule.mentions((event.module, event.event_type)),
{
    let key = (event.module, event.event_type);
    if rule.mentions(key) {
        let c = choose|c: int|
            0 <= c < rule.conditions.len() && #[trigger] rule.conditions[c].mentions(key);
        mentions_are_kinds_of_paths(rule.conditions[c], key);
    }
    if names_kind(rule, event) {
        let c = choose|c: int|
            0 <= c < rule.conditions.len() && some_path_is_of(
                (#[trigger] rule.conditions[c]).paths(),
                key,
            );
        mentions_are_kinds_of_paths(rule.conditions[c], key);
    }
}

/// Nothing fires without a reason. Every firing is that of a rule: it has its name
/// and its actions, one of the conditions of the rule names the kind of the event,
/// and one holds of the window of the firing. That window is a tail of what the
/// rule had in its own, with the event added as the last.
pub proof fn firings_have_reasons(engine: EngineView, event: EventView, now: Timestamp, k: int)
    requires
        0 <= k < engine.firings(event, now).len(),
    ensures
        exists|i: int, from: int|
            #![trigger engine.rules[i], engine.windows[i].push(event).skip(from)]
            {
                let f = engine.firings(event, now)[k];
                &&& 0 <= i < engine.rules.len()
                &&& f.rule_name == engine.rules[i].name
                &&& f.actions == engine.rules[i].actions
                &&& names_kind(engine.rules[i], event)
                &&& 0 <= from <= engine.windows[i].len()
                &&& f.window == engine.windows[i].push(event).skip(from)
                &&& some_condition_holds(engine.rules[i], f.window)
            },
{
    let n = engine.rules.len() as int;
    rules_fire_once(engine, n, event, now);
    let i = firing_rules(engine, n, event, now)[k];
    let f = engine.firings(event, now)[k];
    let all = engine.windows[i].push(event);
    naming_is_mentioning(engine.rules[i], event);
    eviction_drops_old_events(all, now, engine.rules[i].window);
    let from = all.len() - f.window.len();
    assert(f.window == engine.windows[i].push(event).skip(from));
    assert(engine.rules[i] == engine.rules[i]);
}

/// The first `from` of the events are older than `max_age`, and the next one is
/// not.
pub open spec fn aged_out(events: Seq<EventView>, from: int, now: Timestamp, max_age: Duration) -> bool {
    &&& 0 <= from < events.len()
    &&& now.nanos - events[from].timestamp.nanos <= max_age.nanos
    &&& forall|k: int|
        0 <= k < from ==> now.nanos - (#[trigger] events[k]).timestamp.nanos > max_age.nanos
}

proof fn aged_out_is_dropped(events: Seq<EventView>, from: int, now: Timestamp, max_age: Duration)
    requires
        aged_out(events, from, now, max_age),
    ensures
        fresh_events(events, now, max_age) == events.skip(from),
    decreases from,
{
    if from == 0 {
        assert(events.skip(0) =~= events);
    } else {
        let rest = events.drop_first();
        assert(now.nanos - events[0].timestamp.nanos > max_age.nanos);
        assert(rest[from - 1] == events[from]);
        assert forall|k: int| 0 <= k < from - 1 implies now.nanos - (
        #[trigger] rest[k]).timestamp.nanos > max_age.nanos by {
            assert(rest[k] == events[k + 1]);
        }
        aged_out_is_dropped(rest, from - 1, now, max_age);
        assert(rest.skip(from - 1) =~= events.skip(from));
    }
}

/// What has a reason fires: a rule of which a condition names the kind of the event
/// and a condition holds of its window, with the event added and what is too old
/// taken away, fires with that window, unless its throttle has recorded as many
/// firings within its period as it allows.
pub proof fn reasons_make_firings(
    engine: EngineView,
    event: EventView,
    now: Timestamp,
    i: int,
    from: int,
)
    requires
        0 <= i < engine.rules.len(),
        names_kind(engine.rules[i], event),
        aged_out(engine.windows[i].push(event), from, now, engine.rules[i].window),
        some_condition_holds(engine.rules[i], engine.windows[i].push(event).skip(from)),
        engine.rules[i].throttle matches Some(t) ==> engine.fires[i].len() < t.max,
    ensures
        exists|k: int|
            0 <= k < engine.firings(event, now).len() && #[trigger] engine.firings(event, now)[k]
                == (FiringView {
                rule_name: engine.rules[i].name,
                actions: engine.rules[i].actions,
                window: engine.windows[i].push(event).skip(from),
            }),
{
    let n = engine.rules.len() as int;
    naming_is_mentioning(engine.rules[i], event);
    aged_out_is_dropped(engine.windows[i].push(event), from, now, engine.rules[i].window);
    if let Some(t) = engine.rules[i].throttle {
        old_times_are_dropped(engine.fires[i], now, t.per);
    }
    assert(engine.fired(i, event, now));
    rules_fire_once(engine, n, event, now);
    let fired = firing_rules(engine, n, event, now);
    let k = choose|k: int| 0 <= k < fired.len() && fired[k] == i;
    assert(engine.firings(event, now)[k] == engine.firing(i, event, now));
}

/// A rule with a throttle that has recorded as many firings within its period as
/// it allows does not fire, and stays as it was but for its window.
pub proof fn throttled_rules_are_silent(
    engine: EngineView,
    event: EventView,
    now: Timestamp,
    i: int,
)
    requires
        0 <= i < engine.rules.len(),
        engine.rules[i].throttle matches Some(t) && engine.fires[i].len() >= t.max && forall|k: int|
            0 <= k < engine.fires[i].len() ==> now.nanos - (#[trigger] engine.fires[i][k]).nanos
                <= t.per.nanos,
    ensures
        !firing_rules(engine, engine.rules.len() as int, event, now).contains(i),
        i < engine.fires.len() ==> engine.after(event, now).fires[i] == engine.fires[i],
{
    let n = engine.rules.len() as int;
    let t = engine.rules[i].throttle->0;
    let times = engine.fires[i];
    old_times_are_dropped(times, now, t.per);
    if times.len() > 0 {
        assert(now.nanos - times[0].nanos <= t.per.nanos);
    }
    assert(!engine.fired(i, event, now));
    rules_fire_once(engine, n, event, now);
    let fired = firing_rules(engine, n, event, now);
    if fired.contains(i) {
        let k = choose|k: int| 0 <= k < fired.len() && fired[k] == i;
        assert(engine.fired(fired[k], event, now));
    }
}

/// A rule none of whose conditions names the kind of the event keeps its window and
/// its firings as they were, and does not fire.
pub proof fn other_rules_are_untouched(
    engine: EngineView,
    event: EventView,
    now: Timestamp,
    i: int,
)
    requires
        engine.wf(),
        0 <= i < engine.rules.len(),
        !names_kind(engine.rules[i], event),
    ensures
        engine.after(event, now).windows[i] == engine.windows[i],
        engine.after(event, now).fires[i] == engine.fires[i],
        !firing_rules(engine, engine.rules.len() as int, event, now).contains(i),
{
    let n = engine.rules.len() as int;
    naming_is_mentioning(engine.rules[i], event);
    rules_fire_once(engine, n, event, now);
    let fired = firing_rules(engine, n, event, now);
    if fired.contains(i) {
        let k = choose|k: int| 0 <= k < fired.len() && fired[k] == i;
        assert(engine.fired(fired[k], event, now));
    }
}

/// A rule one of whose conditions names the kind of the event has the event in its
/// window, behind what was there and is not too old.
pub proof fn named_events_are_kept(
    engine: EngineView,
    event: EventView,
    now: Timestamp,
    i: int,
    from: int,
)
    requires
        engine.wf(),
        0 <= i < engine.rules.len(),
        names_kind(engine.rules[i], event),
        aged_out(engine.windows[i].push(event), from, now, engine.rules[i].window),
    ensures
        engine.after(event, now).windows[i] == engine.windows[i].push(event).skip(from),
{
    naming_is_mentioning(engine.rules[i], event);
    aged_out_is_dropped(engine.windows[i].push(event), from, now, engine.rules[i].window);
}

/// A firing of a rule with a throttle is recorded, behind those that are not long
/// past; the rules themselves never change.
pub proof fn firings_are_recorded(engine: EngineView, event: EventView, now: Timestamp, i: int)
    requires
        engine.wf(),
        0 <= i < engine.rules.len(),
    ensures
        engine.after(event, now).rules == engine.rules,
        engine.rules[i].throttle is Some && firing_rules(
            engine,
            engine.rules.len() as int,
            event,
            now,
        ).contains(i) ==> {
            let times = engine.after(event, now).fires[i];
            &&& times.len() > 0
            &&& times.last() == now
            &&& exists|from: int|
                0 <= from <= engine.fires[i].len() && times.drop_last()
                    == #[trigger] engine.fires[i].skip(from)
        },
{
    let n = engine.rules.len() as int;
    rules_fire_once(engine, n, event, now);
    let fired = firing_rules(engine, n, event, now);
    if let Some(t) = engine.rules[i].throttle {
        if fired.contains(i) {
            let k = choose|k: int| 0 <= k < fired.len() && fired[k] == i;
            assert(engine.fired(fired[k], event, now));
            old_times_are_dropped(engine.fires[i], now, t.per);
            let live = engine.throttle(i, t).live(now);
            let from = engine.fires[i].len() - live.len();
            assert(live.push(now).drop_last() =~= engine.fires[i].skip(from));
        }
    }
}

/// Before the first event there is an empty window and no firing for each rule.
pub proof fn engines_start_empty(rules: Seq<RuleView>, i: int)
    requires
        0 <= i < rules.len(),
    ensures
        EngineView::initial(rules).rules == rules,
        EngineView::initial(rules).windows.len() == rules.len(),
        EngineView::initial(rules).fires.len() == rules.len(),
        EngineView::initial(rules).windows[i].len() == 0,
        EngineView::initial(rules).fires[i].len() == 0,
{
}

} // verus!
