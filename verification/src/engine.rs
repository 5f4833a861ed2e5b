//! Rule engine: inverted index, sliding correlation windows and throttles.
//!
//! An event only meets the rules that mention its kind: the index finds them,
//! and no other rule is looked at. Each rule has a window of recent events of
//! its own. A comparison holds where some event in the window satisfies it,
//! which is what lets a rule correlate events of several modules.
//!
//! A rule with a throttle also keeps the times at which it fired; a match beyond
//! the cap is dropped silently.

use crate::ast::{
    clone_actions, Action, ActionView, CondView, Condition, KeyView, Rule, RuleView, Throttle,
};
use crate::event::{EventView, LogEvent};
use crate::index::{found, mentioning, mentioning_is_exact, RuleIndex};
use crate::text::str_eq;
use crate::throttle::{old_times_are_dropped, ThrottleState, ThrottleView};
use crate::time::{elapsed, Clock, Duration, Timestamp, FIRST_READING};
use std::collections::VecDeque;
use vstd::prelude::*;

verus! {

// ---------------------------------------------------------------------
// Conditions over a window
// ---------------------------------------------------------------------

/// The condition holds of the events of a window: a comparison does where some
/// event of its kind has a field that satisfies it.
pub open spec fn holds(c: CondView, window: Seq<EventView>) -> bool
    decreases c,
{
    match c {
        CondView::Compare { path, op, value } => exists|i: int|
            #![trigger window[i]]
            {
                &&& 0 <= i < window.len()
                &&& window[i].module == path.module
                &&& window[i].event_type == path.event_type
                &&& window[i].fields.contains_key(path.field)
                &&& window[i].fields[path.field].satisfies(op, value)
            },
        CondView::And(a, b) => holds(*a, window) && holds(*b, window),
        CondView::Or(a, b) => holds(*a, window) || holds(*b, window),
        CondView::Not(a) => !holds(*a, window),
    }
}

/// Evaluates a condition against the events of a window.
pub fn eval(cond: &Condition, window: &VecDeque<LogEvent>) -> (r: bool)
    ensures
        r == holds(cond.deep_view(), window.deep_view()),
    decreases cond,
{
    match cond {
        Condition::Compare { path, op, value } => {
            let mut i: usize = 0;
            while i < window.len()
                invariant
                    i <= window@.len(),
                    cond.deep_view() == (CondView::Compare {
                        path: path.deep_view(),
                        op: *op,
                        value: value.deep_view(),
                    }),
                    forall|k: int|
                        0 <= k < i ==> !({
                            let e = #[trigger] window.deep_view()[k];
                            &&& e.module == path.module@
                            &&& e.event_type == path.event_type@
                            &&& e.fields.contains_key(path.field@)
                            &&& e.fields[path.field@].satisfies(*op, value.deep_view())
                        }),
                decreases window@.len() - i,
            {
                let e = &window[i];
                assert(window.deep_view()[i as int] == e.deep_view());
                if str_eq(e.module.as_str(), path.module.as_str()) && str_eq(
                    e.event_type.as_str(),
                    path.event_type.as_str(),
                ) {
                    match e.get_field(path.field.as_str()) {
                        Some(v) => {
                            if v.compare(op, value) {
                                return true;
                            }
                        },
                        None => {},
                    }
                }
                i += 1;
            }
            false
        },
        Condition::And(a, b) => eval(a, window) && eval(b, window),
        Condition::Or(a, b) => eval(a, window) || eval(b, window),
        Condition::Not(a) => !eval(a, window),
    }
}

/// Some condition of the rule holds of the window.
pub open spec fn matches_window(conditions: Seq<CondView>, window: Seq<EventView>) -> bool {
    exists|i: int| 0 <= i < conditions.len() && holds(#[trigger] conditions[i], window)
}

fn any_holds(conditions: &Vec<Condition>, window: &VecDeque<LogEvent>) -> (r: bool)
    ensures
        r == matches_window(conditions.deep_view(), window.deep_view()),
{
    let mut i: usize = 0;
    while i < conditions.len()
        invariant
            i <= conditions@.len(),
            forall|k: int|
                0 <= k < i ==> !holds(#[trigger] conditions.deep_view()[k], window.deep_view()),
        decreases conditions@.len() - i,
    {
        assert(conditions.deep_view()[i as int] == conditions@[i as int].deep_view());
        if eval(&conditions[i], window) {
            return true;
        }
        i += 1;
    }
    false
}

// ---------------------------------------------------------------------
// Windows
// ---------------------------------------------------------------------

/// The events without the leading ones that are older than `max_age`.
pub open spec fn fresh_events(events: Seq<EventView>, now: Timestamp, max_age: Duration) -> Seq<
    EventView,
>
    decreases events.len(),
{
    if events.len() > 0 && elapsed(now, events[0].timestamp) > max_age.nanos {
        fresh_events(events.drop_first(), now, max_age)
    } else {
        events
    }
}

/// First-in first-out window of the recent events of one rule.
struct CorrelationWindow {
    events: VecDeque<LogEvent>,
    max_age: Duration,
}

impl CorrelationWindow {
    fn new(max_age: Duration) -> (w: CorrelationWindow)
        ensures
            w.events.deep_view() == Seq::<EventView>::empty(),
            w.max_age == max_age,
    {
        let w = CorrelationWindow { events: VecDeque::new(), max_age };
        assert(w.events.deep_view() =~= Seq::<EventView>::empty());
        w
    }

    /// Adds an event, and drops those that are too old.
    fn push(&mut self, e: LogEvent, now: Timestamp)
        ensures
            final(self).max_age == old(self).max_age,
            final(self).events.deep_view() == fresh_events(
                old(self).events.deep_view().push(e.deep_view()),
                now,
                old(self).max_age,
            ),
    {
        self.events.push_back(e);
        assert(self.events.deep_view() =~= old(self).events.deep_view().push(e.deep_view()));
        self.evict(now);
    }

    /// Drops the leading events that are too old.
    fn evict(&mut self, now: Timestamp)
        ensures
            final(self).max_age == old(self).max_age,
            final(self).events.deep_view() == fresh_events(
                old(self).events.deep_view(),
                now,
                old(self).max_age,
            ),
    {
        while self.events.len() > 0 && now.duration_since(self.events[0].timestamp).nanos
            > self.max_age.nanos
            invariant
                self.max_age == old(self).max_age,
                fresh_events(self.events.deep_view(), now, self.max_age) == fresh_events(
                    old(self).events.deep_view(),
                    now,
                    old(self).max_age,
                ),
            decreases self.events@.len(),
        {
            let ghost before = self.events.deep_view();
            self.events.pop_front();
            assert(self.events.deep_view() =~= before.drop_first());
        }
    }
}

// ---------------------------------------------------------------------
// The engine
// ---------------------------------------------------------------------

/// A firing, with text as its characters.
pub struct FiringView {
    pub rule_name: Seq<char>,
    pub actions: Seq<ActionView>,
    pub window: Seq<EventView>,
}

/// One rule that fired.
///
/// It carries the name and the actions of the rule, and the events that were in
/// its window when it matched: with them the caller can show the other events
/// that the rule correlated. The triggering event is the last of them.
#[derive(Debug)]
pub struct Firing {
    pub rule_name: String,
    pub actions: Vec<Action>,
    pub window: Vec<LogEvent>,
}

impl DeepView for Firing {
    type V = FiringView;

    open spec fn deep_view(&self) -> FiringView {
        FiringView {
            rule_name: self.rule_name@,
            actions: self.actions.deep_view(),
            window: self.window.deep_view(),
        }
    }
}

/// What the engine knows: the rules, and for each of them the events of its
/// window and the times at which it fired.
pub struct EngineView {
    pub rules: Seq<RuleView>,
    pub windows: Seq<Seq<EventView>>,
    pub fires: Seq<Seq<Timestamp>>,
}

impl EngineView {
    /// The engine before the first event.
    pub open spec fn initial(rules: Seq<RuleView>) -> EngineView {
        EngineView {
            rules,
            windows: Seq::new(rules.len(), |i: int| Seq::empty()),
            fires: Seq::new(rules.len(), |i: int| Seq::empty()),
        }
    }

    /// The window of a rule after an event that it mentions.
    pub open spec fn window_after(self, i: int, event: EventView, now: Timestamp) -> Seq<EventView> {
        fresh_events(self.windows[i].push(event), now, self.rules[i].window)
    }

    /// The rule matches the event together with its window. An event that is
    /// itself too old for the window, with all before it, leaves nothing to match.
    pub open spec fn matched(self, i: int, event: EventView, now: Timestamp) -> bool {
        &&& self.window_after(i, event, now).len() > 0
        &&& matches_window(self.rules[i].conditions, self.window_after(i, event, now))
    }

    /// The throttle of a rule that has one.
    pub open spec fn throttle(self, i: int, limit: Throttle) -> ThrottleView {
        ThrottleView { fires: self.fires[i], limit }
    }

    /// The throttle of the rule lets it fire; one without a throttle always may.
    pub open spec fn allowed(self, i: int, now: Timestamp) -> bool {
        match self.rules[i].throttle {
            None => true,
            Some(t) => self.throttle(i, t).allows(now),
        }
    }

    /// The rule fires: it mentions the kind of the event, it matches, and it is
    /// allowed to.
    pub open spec fn fired(self, i: int, event: EventView, now: Timestamp) -> bool {
        &&& self.rules[i].mentions((event.module, event.event_type))
        &&& self.matched(i, event, now)
        &&& self.allowed(i, now)
    }

    /// The recorded times of a rule that matched.
    pub open spec fn fires_after(self, i: int, now: Timestamp) -> Seq<Timestamp> {
        match self.rules[i].throttle {
            None => self.fires[i],
            Some(t) => self.throttle(i, t).after(now).fires,
        }
    }

    /// After an event: the rules that mention its kind have it in their windows,
    /// those of them that match have their times brought up to date, and nothing
    /// else changes.
    pub open spec fn after(self, event: EventView, now: Timestamp) -> EngineView {
        let key = (event.module, event.event_type);
        EngineView {
            rules: self.rules,
            windows: Seq::new(
                self.windows.len(),
                |i: int|
                    if self.rules[i].mentions(key) {
                        self.window_after(i, event, now)
                    } else {
                        self.windows[i]
                    },
            ),
            fires: Seq::new(
                self.fires.len(),
                |i: int|
                    if self.rules[i].mentions(key) && self.matched(i, event, now) {
                        self.fires_after(i, now)
                    } else {
                        self.fires[i]
                    },
            ),
        }
    }

    /// The firing of a rule.
    pub open spec fn firing(self, i: int, event: EventView, now: Timestamp) -> FiringView {
        FiringView {
            rule_name: self.rules[i].name,
            actions: self.rules[i].actions,
            window: self.window_after(i, event, now),
        }
    }

    /// The firings of the first `n` rules, in the order of the rules.
    pub open spec fn firings_of(self, n: int, event: EventView, now: Timestamp) -> Seq<FiringView>
        decreases n,
    {
        if n <= 0 {
            Seq::empty()
        } else {
            let before = self.firings_of(n - 1, event, now);
            if self.fired(n - 1, event, now) {
                before.push(self.firing(n - 1, event, now))
            } else {
                before
            }
        }
    }

    /// The firings of an event.
    pub open spec fn firings(self, event: EventView, now: Timestamp) -> Seq<FiringView> {
        self.firings_of(self.rules.len() as int, event, now)
    }

    /// As many windows and lists of times as rules; no list is longer than its
    /// throttle allows.
    pub open spec fn wf(self) -> bool {
        &&& self.windows.len() == self.rules.len()
        &&& self.fires.len() == self.rules.len()
        &&& forall|i: int|
            #![trigger self.fires[i]]
            0 <= i < self.rules.len() ==> match self.rules[i].throttle {
                Some(t) => self.fires[i].len() <= t.max,
                None => self.fires[i].len() == 0,
            }
    }
}

/// Rules with their index, their windows and their throttles.
pub struct RuleEngine {
    rules: Vec<Rule>,
    index: RuleIndex,
    windows: Vec<CorrelationWindow>,
    /// `None` for the rules without a throttle.
    throttles: Vec<Option<ThrottleState>>,
}

impl View for RuleEngine {
    type V = EngineView;

    closed spec fn view(&self) -> EngineView {
        EngineView {
            rules: self.rules.deep_view(),
            windows: Seq::new(
                self.windows@.len(),
                |i: int| self.windows@[i].events.deep_view(),
            ),
            fires: Seq::new(
                self.throttles@.len(),
                |i: int| times_of(self.throttles@[i]),
            ),
        }
    }
}

/// The recorded times; none without a throttle.
spec fn times_of(t: Option<ThrottleState>) -> Seq<Timestamp> {
    match t {
        Some(s) => s@.fires,
        None => Seq::empty(),
    }
}

impl RuleEngine {
    /// The index is that of the rules; windows and throttles are as the rules
    /// declare them.
    pub closed spec fn wf(&self) -> bool {
        &&& self@.wf()
        &&& self.index.wf()
        &&& forall|key: KeyView| #[trigger]
            found(self.index.entries(), key) == mentioning(self@.rules, key)
        &&& forall|key: KeyView| #[trigger]
            self.index.entries().contains_key(key) <==> mentioning(self@.rules, key).len() > 0
        &&& forall|i: int|
            0 <= i < self.rules@.len() ==> (#[trigger] self.windows@[i]).max_age
                == self.rules@[i].window
        &&& forall|i: int|
            0 <= i < self.rules@.len() ==> match (
                #[trigger] self.throttles@[i],
                self.rules@[i].throttle,
            ) {
                (Some(s), Some(t)) => s@.limit == t,
                (None, None) => true,
                _ => false,
            }
    }

    /// An engine with empty windows. The index is built here, once.
    pub fn new(rules: Vec<Rule>) -> (engine: RuleEngine)
        ensures
            engine.wf(),
            engine@ == EngineView::initial(rules.deep_view()),
    {
        let index = RuleIndex::build(&rules);
        let mut windows: Vec<CorrelationWindow> = Vec::new();
        let mut throttles: Vec<Option<ThrottleState>> = Vec::new();
        let mut i: usize = 0;
        while i < rules.len()
            invariant
                i <= rules@.len(),
                windows@.len() == i,
                throttles@.len() == i,
                forall|k: int|
                    0 <= k < i ==> (#[trigger] windows@[k]).max_age == rules@[k].window
                        && windows@[k].events.deep_view() == Seq::<EventView>::empty(),
                forall|k: int|
                    0 <= k < i ==> match (#[trigger] throttles@[k], rules@[k].throttle) {
                        (Some(s), Some(t)) => s@ == ThrottleView::initial(t),
                        (None, None) => true,
                        _ => false,
                    },
            decreases rules@.len() - i,
        {
            windows.push(CorrelationWindow::new(rules[i].window));
            throttles.push(
                match &rules[i].throttle {
                    Some(t) => Some(ThrottleState::from(t)),
                    None => None,
                },
            );
            i += 1;
        }
        let engine = RuleEngine { rules, index, windows, throttles };
        proof {
            assert(engine@.fires =~= EngineView::initial(rules.deep_view()).fires) by {
                assert forall|k: int| 0 <= k < rules@.len() implies #[trigger] engine@.fires[k]
                    == Seq::<Timestamp>::empty() by {
                    assert(engine@.fires[k] == times_of(engine.throttles@[k]));
                }
            }
            assert(engine@.windows =~= EngineView::initial(rules.deep_view()).windows);
        }
        engine
    }

    /// How many rules the engine holds.
    pub fn rule_count(&self) -> (n: usize)
        ensures
            n == self@.rules.len(),
    {
        self.rules.len()
    }
}

/// The engine is well-formed before the first event, and stays so.
pub proof fn engine_stays_well_formed(engine: EngineView, event: EventView, now: Timestamp)
    ensures
        EngineView::initial(engine.rules).wf(),
        engine.wf() ==> engine.after(event, now).wf(),
{
    if engine.wf() {
        let after = engine.after(event, now);
        assert forall|i: int| 0 <= i < after.rules.len() implies match after.rules[i].throttle {
            Some(t) => (#[trigger] after.fires[i]).len() <= t.max,
            None => after.fires[i].len() == 0,
        } by {
            assert(engine.fires[i].len() >= 0);
            if let Some(t) = engine.rules[i].throttle {
                old_times_are_dropped(engine.fires[i], now, t.per);
            }
        }
    }
}

/// The events of a window, in order.
fn snapshot(events: &VecDeque<LogEvent>) -> (r: Vec<LogEvent>)
    ensures
        r.deep_view() == events.deep_view(),
{
    let mut r: Vec<LogEvent> = Vec::new();
    let mut i: usize = 0;
    while i < events.len()
        invariant
            i <= events@.len(),
            r@.len() == i,
            forall|k: int| 0 <= k < i ==> (#[trigger] r@[k]).deep_view() == events@[k].deep_view(),
        decreases events@.len() - i,
    {
        r.push(events[i].clone());
        i += 1;
    }
    assert(r.deep_view() =~= events.deep_view());
    r
}

/// Shows an event to one rule.
fn show(
    rule: &Rule,
    window: &mut CorrelationWindow,
    throttle: &mut Option<ThrottleState>,
    event: &LogEvent,
    now: Timestamp,
) -> (r: Option<Firing>)
    requires
        match (*old(throttle), rule.throttle) {
            (Some(s), Some(t)) => s@.limit == t,
            (None, None) => true,
            _ => false,
        },
    ensures
        final(window).max_age == old(window).max_age,
        ({
            let events = fresh_events(
                old(window).events.deep_view().push(event.deep_view()),
                now,
                old(window).max_age,
            );
            let matched = events.len() > 0 && matches_window(rule.deep_view().conditions, events);
            &&& final(window).events.deep_view() == events
            &&& match (*old(throttle), *final(throttle)) {
                (Some(s), Some(after)) => {
                    &&& after@ == if matched {
                        s@.after(now)
                    } else {
                        s@
                    }
                    &&& r is Some <==> matched && s@.allows(now)
                },
                (None, None) => r is Some <==> matched,
                _ => false,
            }
            &&& r matches Some(f) ==> f.deep_view() == (FiringView {
                rule_name: rule.name@,
                actions: rule.actions.deep_view(),
                window: events,
            })
        }),
{
    window.push(event.clone(), now);
    if window.events.len() == 0 || !any_holds(&rule.conditions, &window.events) {
        return None;
    }
    let allowed: bool = match throttle {
        Some(s) => s.allow_and_record(now),
        None => true,
    };
    if !allowed {
        return None;
    }
    Some(
        Firing {
            rule_name: rule.name.clone(),
            actions: clone_actions(&rule.actions),
            window: snapshot(&window.events),
        },
    )
}

/// Dropping leading events that are too old leaves a suffix. All that were dropped
/// are too old, and the first that is left is not.
pub proof fn eviction_drops_old_events(events: Seq<EventView>, now: Timestamp, max_age: Duration)
    ensures
        ({
            let fresh = fresh_events(events, now, max_age);
            let dropped = events.len() - fresh.len();
            &&& fresh.len() <= events.len()
            &&& fresh == events.skip(dropped)
            &&& fresh.len() > 0 ==> elapsed(now, fresh[0].timestamp) <= max_age.nanos
            &&& forall|k: int|
                0 <= k < dropped ==> elapsed(now, (#[trigger] events[k]).timestamp)
                    > max_age.nanos
        }),
    decreases events.len(),
{
    if events.len() > 0 && elapsed(now, events[0].timestamp) > max_age.nanos {
        let rest = events.drop_first();
        eviction_drops_old_events(rest, now, max_age);
        let fresh = fresh_events(events, now, max_age);
        let dropped = events.len() - fresh.len();
        assert(rest.skip(dropped - 1) =~= events.skip(dropped));
        assert forall|k: int| 0 <= k < dropped implies elapsed(
            now,
            (#[trigger] events[k]).timestamp,
        ) > max_age.nanos by {
            if k > 0 {
                assert(rest[k - 1] == events[k]);
            }
        }
    } else {
        assert(events.skip(0) =~= events);
    }
}

/// The triggering event is the last one in the window of a rule that fired.
pub proof fn trigger_is_last(engine: EngineView, i: int, event: EventView, now: Timestamp)
    requires
        engine.fired(i, event, now),
    ensures
        engine.firing(i, event, now).window.len() > 0,
        engine.firing(i, event, now).window.last() == event,
{
    eviction_drops_old_events(engine.windows[i].push(event), now, engine.rules[i].window);
}

proof fn firings_end_in_trigger(engine: EngineView, n: int, event: EventView, now: Timestamp)
    requires
        0 <= n,
    ensures
        forall|k: int|
            0 <= k < engine.firings_of(n, event, now).len() ==> (#[trigger] engine.firings_of(
                n,
                event,
                now,
            )[k]).window.len() > 0 && engine.firings_of(n, event, now)[k].window.last() == event,
    decreases n,
{
    if n > 0 {
        firings_end_in_trigger(engine, n - 1, event, now);
        let before = engine.firings_of(n - 1, event, now);
        let all = engine.firings_of(n, event, now);
        if engine.fired(n - 1, event, now) {
            trigger_is_last(engine, n - 1, event, now);
        }
        assert forall|k: int| 0 <= k < all.len() implies (#[trigger] all[k]).window.len() > 0
            && all[k].window.last() == event by {
            if k < before.len() {
                assert(all[k] == before[k]);
            }
        }
    }
}

/// Rules that do not mention the event fire nothing.
proof fn quiet_rules(
    engine: EngineView,
    from: int,
    to: int,
    event: EventView,
    now: Timestamp,
)
    requires
        0 <= from <= to,
        forall|i: int|
            from <= i < to ==> !(#[trigger] engine.rules[i].mentions(
                (event.module, event.event_type),
            )),
    ensures
        engine.firings_of(to, event, now) == engine.firings_of(from, event, now),
    decreases to,
{
    if from < to {
        quiet_rules(engine, from, to - 1, event, now);
        assert(!engine.rules[to - 1].mentions((event.module, event.event_type)));
    }
}

/// No rule between two neighbours in the index mentions the event.
proof fn gap_is_quiet(rules: Seq<RuleView>, key: KeyView, p: int, i: int)
    requires
        rules.len() <= usize::MAX,
        0 <= p <= mentioning(rules, key).len(),
        0 <= i < rules.len(),
        p > 0 ==> mentioning(rules, key)[p - 1] < i,
        p < mentioning(rules, key).len() ==> i < mentioning(rules, key)[p],
    ensures
        !rules[i].mentions(key),
{
    mentioning_is_exact(rules, key);
    let all = mentioning(rules, key);
    if rules[i].mentions(key) {
        let k = choose|k: int| 0 <= k < all.len() && all[k] == i as usize;
        assert(k < p ==> k < p - 1 ==> all[k] < all[p - 1]);
        assert(k >= p ==> k > p ==> all[p] < all[k]);
    }
}

impl RuleEngine {
    /// Shows an event to the rules that mention its kind, at the time `now`.
    /// Returns the rules that fired and passed their throttles, in the order of
    /// the rules.
    pub fn process_event_at(&mut self, event: &LogEvent, now: Timestamp) -> (fired: Vec<Firing>)
        requires
            old(self).wf(),
        ensures
            final(self).wf(),
            final(self)@ == old(self)@.after(event.deep_view(), now),
            fired.deep_view() == old(self)@.firings(event.deep_view(), now),
            forall|k: int|
                0 <= k < fired@.len() ==> (#[trigger] fired.deep_view()[k]).window.len() > 0
                    && fired.deep_view()[k].window.last() == event.deep_view(),
    {
        let ghost pre = self@;
        let ghost e = event.deep_view();
        let ghost key = (event.module@, event.event_type@);
        let ghost n = pre.rules.len() as int;
        let ghost b = mentioning(pre.rules, key);
        assert(self.rules.len() == n);
        assert(found(self.index.entries(), key) == b);
        let mut fired: Vec<Firing> = Vec::new();
        assert(fired.deep_view() =~= Seq::empty());
        let none: Vec<usize> = Vec::new();
        let bucket: &Vec<usize> = match self.index.get(
            event.module.as_str(),
            event.event_type.as_str(),
        ) {
            Some(bucket) => bucket,
            None => &none,
        };
        assert(bucket@ =~= b);
        let mut p: usize = 0;
        proof {
            mentioning_is_exact(pre.rules, key);
            let limit = if b.len() > 0 {
                b[0] as int
            } else {
                n
            };
            assert forall|i: int| 0 <= i < limit implies !(#[trigger] pre.rules[i].mentions(
                key,
            )) by {
                gap_is_quiet(pre.rules, key, 0, i);
            }
            quiet_rules(pre, 0, limit, e, now);
        }
        while p < bucket.len()
            invariant
                p <= bucket@.len(),
                bucket@ == b,
                b == mentioning(pre.rules, key),
                key == (e.module, e.event_type),
                e == event.deep_view(),
                n == pre.rules.len(),
                n <= usize::MAX,
                pre == old(self)@,
                pre.wf(),
                self.rules == old(self).rules,
                self.index == old(self).index,
                self@.rules == pre.rules,
                self.rules@.len() == n,
                self.windows@.len() == n,
                self.throttles@.len() == n,
                forall|i: int|
                    0 <= i < n ==> (#[trigger] self.windows@[i]).max_age == self.rules@[i].window,
                forall|i: int|
                    0 <= i < n ==> match (#[trigger] self.throttles@[i], self.rules@[i].throttle) {
                        (Some(s), Some(t)) => s@.limit == t,
                        (None, None) => true,
                        _ => false,
                    },
                ({
                    let limit = if p < b.len() {
                        b[p as int] as int
                    } else {
                        n
                    };
                    &&& forall|i: int|
                        0 <= i < n ==> (#[trigger] self.windows@[i]).events.deep_view() == if i
                            < limit && pre.rules[i].mentions(key) {
                            pre.window_after(i, e, now)
                        } else {
                            pre.windows[i]
                        }
                    &&& forall|i: int|
                        0 <= i < n ==> times_of(#[trigger] self.throttles@[i]) == if i < limit
                            && pre.rules[i].mentions(key) && pre.matched(i, e, now) {
                            pre.fires_after(i, now)
                        } else {
                            pre.fires[i]
                        }
                    &&& fired.deep_view() == pre.firings_of(limit, e, now)
                }),
            decreases bucket@.len() - p,
        {
            let idx: usize = bucket[p];
            let ghost next = if p + 1 < b.len() {
                b[p + 1] as int
            } else {
                n
            };
            let ghost before = fired.deep_view();
            proof {
                mentioning_is_exact(pre.rules, key);
                assert(b[p as int] < n);
                assert(b.contains(idx));
                assert(pre.rules[idx as int].mentions(key));
                assert forall|i: int| idx + 1 <= i < next implies !(
                #[trigger] pre.rules[i].mentions(key)) by {
                    gap_is_quiet(pre.rules, key, p + 1, i);
                }
                quiet_rules(pre, idx + 1, next, e, now);
            }
            let ghost windows = self.windows@;
            let ghost throttles = self.throttles@;
            let ghost rule = self.rules@[idx as int];
            assert(rule.deep_view() == pre.rules[idx as int]);
            assert(windows[idx as int].events.deep_view() == pre.windows[idx as int]);
            assert(times_of(throttles[idx as int]) == pre.fires[idx as int]);
            let r = show(
                &self.rules[idx],
                &mut self.windows[idx],
                &mut self.throttles[idx],
                event,
                now,
            );
            if let Some(f) = r {
                fired.push(f);
                assert(fired.deep_view() =~= before.push(pre.firing(idx as int, e, now)));
            }
            p += 1;
        }
        proof {
            let post = pre.after(e, now);
            assert(self@.windows =~= post.windows);
            assert(self@.fires =~= post.fires);
            engine_stays_well_formed(pre, e, now);
            firings_end_in_trigger(pre, n, e, now);
        }
        fired
    }

    /// Shows an event to the rules that mention its kind, at the present reading
    /// of the clock. The clock decides which events and firings are still fresh.
    pub fn process_event(&mut self, event: &LogEvent, clock: &Clock) -> (fired: Vec<Firing>)
        requires
            old(self).wf(),
        ensures
            final(self).wf(),
            exists|now: Timestamp|
                #![trigger old(self)@.after(event.deep_view(), now)]
                now.nanos >= FIRST_READING && final(self)@ == old(self)@.after(
                    event.deep_view(),
                    now,
                ) && fired.deep_view() == old(self)@.firings(event.deep_view(), now),
            forall|k: int|
                0 <= k < fired@.len() ==> (#[trigger] fired.deep_view()[k]).window.len() > 0
                    && fired.deep_view()[k].window.last() == event.deep_view(),
    {
        let now = clock.now();
        self.process_event_at(event, now)
    }
}

} // verus!
