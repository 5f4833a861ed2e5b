//! Abstract syntax of the rules.
//!
//! The parser produces these types; the engine consumes them. Neither knows
//! concrete field names: a [`FieldPath`] is an opaque
//! `module.event_type.field` triple.

use crate::event::{CmpOp, RuleValue, Scalar};
use crate::text::{find_char, first_index, from_chars, last_index, rfind_char, str_eq, to_chars};
use crate::text::{first_index_finds, last_index_finds};
use crate::time::Duration;
use vstd::prelude::*;
use vstd::slice::slice_subrange;

verus! {

/// The three parts of a field path.
pub struct PathView {
    pub module: Seq<char>,
    pub event_type: Seq<char>,
    pub field: Seq<char>,
}

impl PathView {
    /// The path as it is written.
    pub open spec fn written(self) -> Seq<char> {
        self.module + seq!['.'] + self.event_type + seq!['.'] + self.field
    }

    /// A path that can be written and read back: no part is empty, and only the
    /// middle one may hold dots.
    pub open spec fn well_formed(self) -> bool {
        &&& self.module.len() > 0
        &&& self.event_type.len() > 0
        &&& self.field.len() > 0
        &&& !self.module.contains('.')
        &&& !self.field.contains('.')
    }
}

/// The path that a text writes: the module is what precedes the first dot, the
/// field what follows the last one, the event type what stands between.
pub open spec fn path_of(s: Seq<char>) -> Option<PathView> {
    match last_index(s, '.') {
        None => None,
        Some(k) => match first_index(s.take(k), '.') {
            None => None,
            Some(i) => {
                let p = PathView {
                    module: s.take(i),
                    event_type: s.subrange(i + 1, k),
                    field: s.skip(k + 1),
                };
                if p.module.len() == 0 || p.event_type.len() == 0 || p.field.len() == 0 {
                    None
                } else {
                    Some(p)
                }
            },
        },
    }
}

/// Fully-qualified field reference: `"kernel_callback.process_create.pid"`.
#[derive(Debug, PartialEq)]
pub struct FieldPath {
    pub module: String,
    pub event_type: String,
    pub field: String,
}

impl DeepView for FieldPath {
    type V = PathView;

    open spec fn deep_view(&self) -> PathView {
        PathView { module: self.module@, event_type: self.event_type@, field: self.field@ }
    }
}

impl Clone for FieldPath {
    fn clone(&self) -> (r: FieldPath)
        ensures
            r.deep_view() == self.deep_view(),
    {
        FieldPath {
            module: self.module.clone(),
            event_type: self.event_type.clone(),
            field: self.field.clone(),
        }
    }
}

impl FieldPath {
    /// Parses a dotted path.
    ///
    /// The field is the last segment, the module the first, and the event type
    /// all that lives between the two: it may hold dots, as the hierarchical
    /// kinds of plugin events do (`plugin.hook.api_call.api`).
    pub fn parse(s: &str) -> (r: Option<FieldPath>)
        ensures
            r.deep_view() == path_of(s@),
    {
        let chars = to_chars(s);
        let all = chars.as_slice();
        let last_dot: usize = match rfind_char(all, '.') {
            Some(k) => k,
            None => {
                return None;
            },
        };
        let left = slice_subrange(all, 0, last_dot);
        let field = slice_subrange(all, last_dot + 1, all.len());
        assert(left@ =~= s@.take(last_dot as int));
        assert(field@ =~= s@.skip(last_dot + 1));
        let first_dot: usize = match find_char(left, '.') {
            Some(i) => i,
            None => {
                return None;
            },
        };
        let module = slice_subrange(left, 0, first_dot);
        let event_type = slice_subrange(left, first_dot + 1, left.len());
        assert(module@ =~= s@.take(first_dot as int));
        assert(event_type@ =~= s@.subrange(first_dot + 1, last_dot as int));
        if module.len() == 0 || event_type.len() == 0 || field.len() == 0 {
            return None;
        }
        Some(
            FieldPath {
                module: from_chars(module),
                event_type: from_chars(event_type),
                field: from_chars(field),
            },
        )
    }
}

/// A text is read as a path exactly where it is that path as it is written.
pub proof fn path_reads_what_is_written(s: Seq<char>, p: PathView)
    ensures
        path_of(s) == Some(p) <==> p.well_formed() && s == p.written(),
{
    first_index_finds(s, '.');
    last_index_finds(s, '.');
    if path_of(s) == Some(p) {
        let k = last_index(s, '.')->0;
        first_index_finds(s.take(k), '.');
        let i = first_index(s.take(k), '.')->0;
        assert(s.take(k).take(i) =~= s.take(i));
        assert(s =~= p.written());
    }
    if p.well_formed() && s == p.written() {
        let m = p.module.len() as int;
        let e = p.event_type.len() as int;
        assert(s[m] == '.');
        assert(s[m + 1 + e] == '.');
        let k = last_index(s, '.')->0;
        assert(s.skip(m + e + 2) =~= p.field);
        assert(k == m + 1 + e) by {
            if k > m + 1 + e {
                assert(s.skip(m + e + 2)[k - (m + e + 2)] == '.');
            }
            if k < m + 1 + e {
                assert(s.skip(k + 1)[m + 1 + e - (k + 1)] == '.');
            }
        }
        let left = s.take(k);
        first_index_finds(left, '.');
        assert(left[m] == '.');
        let i = first_index(left, '.')->0;
        assert(left.take(m) =~= p.module);
        assert(i == m) by {
            if i < m {
                assert(left.take(m)[i] == '.');
            }
            if i > m {
                assert(left.take(i)[m] == '.');
            }
        }
        assert(s.take(i) =~= p.module);
        assert(s.subrange(i + 1, k) =~= p.event_type);
    }
}

/// The shape of a condition, with text as its characters.
pub enum CondView {
    Compare { path: PathView, op: CmpOp, value: Scalar },
    And(Box<CondView>, Box<CondView>),
    Or(Box<CondView>, Box<CondView>),
    Not(Box<CondView>),
}

/// A module and an event type.
pub type KeyView = (Seq<char>, Seq<char>);

impl CondView {
    /// Some comparison of the condition reads events of this kind.
    pub open spec fn mentions(self, key: KeyView) -> bool
        decreases self,
    {
        match self {
            CondView::Compare { path, .. } => (path.module, path.event_type) == key,
            CondView::And(a, b) => a.mentions(key) || b.mentions(key),
            CondView::Or(a, b) => a.mentions(key) || b.mentions(key),
            CondView::Not(a) => a.mentions(key),
        }
    }

    /// `seen`, and after it the kinds of events that the condition mentions and
    /// `seen` lacks, each once, in the order of their first mention.
    pub open spec fn refs_after(self, seen: Seq<KeyView>) -> Seq<KeyView>
        decreases self,
    {
        match self {
            CondView::Compare { path, .. } => {
                let key = (path.module, path.event_type);
                if seen.contains(key) {
                    seen
                } else {
                    seen.push(key)
                }
            },
            CondView::And(a, b) => b.refs_after(a.refs_after(seen)),
            CondView::Or(a, b) => b.refs_after(a.refs_after(seen)),
            CondView::Not(a) => a.refs_after(seen),
        }
    }

    /// The field paths of the condition, from left to right.
    pub open spec fn paths(self) -> Seq<PathView>
        decreases self,
    {
        match self {
            CondView::Compare { path, .. } => seq![path],
            CondView::And(a, b) => a.paths() + b.paths(),
            CondView::Or(a, b) => a.paths() + b.paths(),
            CondView::Not(a) => a.paths(),
        }
    }
}

/// Collecting references adds exactly what the condition mentions, keeps what
/// was there in its place, and repeats nothing.
pub proof fn refs_are_mentions(c: CondView, seen: Seq<KeyView>)
    ensures
        forall|k: KeyView| #[trigger]
            c.refs_after(seen).contains(k) <==> seen.contains(k) || c.mentions(k),
        seen.len() <= c.refs_after(seen).len(),
        c.refs_after(seen).take(seen.len() as int) == seen,
        seen.no_duplicates() ==> c.refs_after(seen).no_duplicates(),
    decreases c,
{
    let out = c.refs_after(seen);
    match c {
        CondView::Compare { path, .. } => {
            let key = (path.module, path.event_type);
            assert(out.take(seen.len() as int) =~= seen);
            if !seen.contains(key) {
                assert(out[seen.len() as int] == key);
                assert forall|k: KeyView| #[trigger] out.contains(k) <==> seen.contains(k)
                    || c.mentions(k) by {
                    if seen.contains(k) {
                        let i = choose|i: int| 0 <= i < seen.len() && seen[i] == k;
                        assert(out[i] == k);
                    }
                }
            }
        },
        CondView::And(a, b) => {
            let mid = a.refs_after(seen);
            refs_are_mentions(*a, seen);
            refs_are_mentions(*b, mid);
            assert(out.take(seen.len() as int) =~= mid.take(seen.len() as int));
        },
        CondView::Or(a, b) => {
            let mid = a.refs_after(seen);
            refs_are_mentions(*a, seen);
            refs_are_mentions(*b, mid);
            assert(out.take(seen.len() as int) =~= mid.take(seen.len() as int));
        },
        CondView::Not(a) => {
            refs_are_mentions(*a, seen);
        },
    }
}

/// A boolean condition over event fields.
#[derive(Debug)]
pub enum Condition {
    Compare { path: FieldPath, op: CmpOp, value: RuleValue },
    And(Box<Condition>, Box<Condition>),
    Or(Box<Condition>, Box<Condition>),
    Not(Box<Condition>),
}

impl Condition {
    /// The shape of the condition.
    pub open spec fn shape(&self) -> CondView
        decreases self,
    {
        match self {
            Condition::Compare { path, op, value } => CondView::Compare {
                path: path.deep_view(),
                op: *op,
                value: value.deep_view(),
            },
            Condition::And(a, b) => CondView::And(Box::new(a.shape()), Box::new(b.shape())),
            Condition::Or(a, b) => CondView::Or(Box::new(a.shape()), Box::new(b.shape())),
            Condition::Not(a) => CondView::Not(Box::new(a.shape())),
        }
    }

    /// Collects the `(module, event_type)` pairs that the condition mentions.
    /// The index of the engine is built from them, so that an event only meets
    /// the rules that mention its kind.
    pub fn collect_event_refs(&self, refs: &mut Vec<(String, String)>)
        ensures
            final(refs).deep_view() == self.deep_view().refs_after(old(refs).deep_view()),
        decreases self,
    {
        match self {
            Condition::Compare { path, .. } => {
                if !contains_key(refs, path.module.as_str(), path.event_type.as_str()) {
                    refs.push((path.module.clone(), path.event_type.clone()));
                    assert(refs.deep_view() =~= old(refs).deep_view().push(
                        (path.module@, path.event_type@),
                    ));
                }
            },
            Condition::And(a, b) => {
                a.collect_event_refs(refs);
                b.collect_event_refs(refs);
            },
            Condition::Or(a, b) => {
                a.collect_event_refs(refs);
                b.collect_event_refs(refs);
            },
            Condition::Not(a) => {
                a.collect_event_refs(refs);
            },
        }
    }

    /// Appends every [`FieldPath`] of the condition, from left to right.
    pub fn collect_field_paths<'a>(&'a self, out: &mut Vec<&'a FieldPath>)
        ensures
            final(out).deep_view() == old(out).deep_view() + self.deep_view().paths(),
        decreases self,
    {
        match self {
            Condition::Compare { path, .. } => {
                out.push(path);
                assert(out.deep_view() =~= old(out).deep_view() + self.deep_view().paths());
            },
            Condition::And(a, b) => {
                a.collect_field_paths(out);
                b.collect_field_paths(out);
                assert(out.deep_view() =~= old(out).deep_view() + self.deep_view().paths());
            },
            Condition::Or(a, b) => {
                a.collect_field_paths(out);
                b.collect_field_paths(out);
                assert(out.deep_view() =~= old(out).deep_view() + self.deep_view().paths());
            },
            Condition::Not(a) => {
                a.collect_field_paths(out);
            },
        }
    }
}

impl DeepView for Condition {
    type V = CondView;

    open spec fn deep_view(&self) -> CondView {
        self.shape()
    }
}

impl Clone for Condition {
    fn clone(&self) -> (r: Condition)
        ensures
            r.deep_view() == self.deep_view(),
        decreases self,
    {
        match self {
            Condition::Compare { path, op, value } => Condition::Compare {
                path: path.clone(),
                op: *op,
                value: value.clone(),
            },
            Condition::And(a, b) => Condition::And(
                Box::new((&**a).clone()),
                Box::new((&**b).clone()),
            ),
            Condition::Or(a, b) => Condition::Or(
                Box::new((&**a).clone()),
                Box::new((&**b).clone()),
            ),
            Condition::Not(a) => Condition::Not(Box::new((&**a).clone())),
        }
    }
}

fn contains_key(refs: &Vec<(String, String)>, module: &str, event_type: &str) -> (r: bool)
    ensures
        r == refs.deep_view().contains((module@, event_type@)),
{
    let mut i: usize = 0;
    while i < refs.len()
        invariant
            i <= refs@.len(),
            forall|j: int|
                0 <= j < i ==> #[trigger] refs.deep_view()[j] != (module@, event_type@),
        decreases refs@.len() - i,
    {
        if str_eq(refs[i].0.as_str(), module) && str_eq(refs[i].1.as_str(), event_type) {
            assert(refs.deep_view()[i as int] == (module@, event_type@));
            return true;
        }
        i += 1;
    }
    false
}

/// Anti-storm rate limit of a rule.
///
/// The engine acts on the rule at most `max` times within any rolling `per`
/// window; a match beyond that is dropped silently. It is independent of the
/// correlation window: that one decides whether the rule matches, the throttle
/// whether the match is acted upon.
#[derive(Debug, Clone, Copy, PartialEq, Eq, Structural)]
pub struct Throttle {
    pub max: u32,
    pub per: Duration,
}

/// An action, with text as its characters.
pub enum ActionView {
    Log,
    Alert(Seq<char>),
    KillProcess,
}

/// What is done when a rule matches.
#[derive(Debug, PartialEq)]
pub enum Action {
    Log,
    Alert(String),
    KillProcess,
}

impl DeepView for Action {
    type V = ActionView;

    open spec fn deep_view(&self) -> ActionView {
        match self {
            Action::Log => ActionView::Log,
            Action::Alert(m) => ActionView::Alert(m@),
            Action::KillProcess => ActionView::KillProcess,
        }
    }
}

impl Clone for Action {
    fn clone(&self) -> (r: Action)
        ensures
            r.deep_view() == self.deep_view(),
    {
        match self {
            Action::Log => Action::Log,
            Action::Alert(m) => Action::Alert(m.clone()),
            Action::KillProcess => Action::KillProcess,
        }
    }
}

/// A rule, with text as its characters.
pub struct RuleView {
    pub name: Seq<char>,
    pub conditions: Seq<CondView>,
    pub window: Duration,
    pub throttle: Option<Throttle>,
    pub actions: Seq<ActionView>,
}

impl RuleView {
    /// Some condition of the rule reads events of this kind.
    pub open spec fn mentions(self, key: KeyView) -> bool {
        exists|i: int| 0 <= i < self.conditions.len() && #[trigger] self.conditions[i].mentions(key)
    }
}

/// One detection rule: a named group of condition lines, a correlation window,
/// an optional throttle, and the actions to run on a match.
#[derive(Debug)]
pub struct Rule {
    pub name: String,
    /// The rule matches where one of its conditions does.
    pub conditions: Vec<Condition>,
    /// Temporal correlation window.
    pub window: Duration,
    pub throttle: Option<Throttle>,
    pub actions: Vec<Action>,
}

impl DeepView for Rule {
    type V = RuleView;

    open spec fn deep_view(&self) -> RuleView {
        RuleView {
            name: self.name@,
            conditions: self.conditions.deep_view(),
            window: self.window,
            throttle: self.throttle,
            actions: self.actions.deep_view(),
        }
    }
}

pub fn clone_conditions(v: &Vec<Condition>) -> (r: Vec<Condition>)
    ensures
        r.deep_view() == v.deep_view(),
{
    let r = v.clone();
    assert(r.deep_view() =~= v.deep_view());
    r
}

pub fn clone_actions(v: &Vec<Action>) -> (r: Vec<Action>)
    ensures
        r.deep_view() == v.deep_view(),
{
    let r = v.clone();
    assert(r.deep_view() =~= v.deep_view());
    r
}

impl Clone for Rule {
    fn clone(&self) -> (r: Rule)
        ensures
            r.deep_view() == self.deep_view(),
    {
        Rule {
            name: self.name.clone(),
            conditions: clone_conditions(&self.conditions),
            window: self.window,
            throttle: self.throttle,
            actions: clone_actions(&self.actions),
        }
    }
}

} // verus!
