//! The lines of a rule file, and the groups that they build up.

use crate::ast::{
    clone_actions, clone_conditions, Action, ActionView, CondView, Condition, Rule, RuleView,
    Throttle,
};
use crate::directive::{
    action_of, duration_of, parse_action, parse_duration, parse_throttle, throttle_of,
};
use crate::expr::{expression_of, parse_expression};
use crate::floats::{agree, FloatTable, FloatsView};
use crate::lexer::{
    comment_starts_outside_strings, float_texts, literal, open_after, parse_string_literal,
    strip_inline_comment, tokens_need_own_floats, uncommented,
};
use crate::text::{
    decimal, from_chars, ident_char, is_ident_char, is_text_lowered, join, lowered, push_decimal,
    starts, str_eq, strip_prefix, trim, trim_end_char, trim_start_char, trimmed, white,
    without_leading, without_trailing,
};
use crate::time::Duration;
use vstd::prelude::*;
use vstd::slice::slice_subrange;
use vstd::string::StringExecFns;

verus! {

// ---------------------------------------------------------------------
// Lines
// ---------------------------------------------------------------------

/// A part of a rule file.
#[derive(Debug, Clone, Copy, PartialEq, Eq, Structural)]
pub enum Section {
    /// Before the first header.
    Outside,
    Detection,
    Action,
}

/// What a line is, with text as its characters.
pub enum LineView {
    /// Nothing but white space, a comment or a dash.
    Blank,
    /// The header of a section.
    Section(Section),
    /// The header of a group.
    Group(Seq<char>),
    /// The window directive, with what is written of it.
    Window(Seq<char>),
    /// The throttle directive, with what is written of it.
    Throttle(Seq<char>),
    /// A reference to another file; the path is missing where no string literal
    /// stands.
    Include(Option<Seq<char>>),
    /// A condition or an action.
    Content(Seq<char>),
}

/// A line without its comment, its leading dash and the white space around.
pub open spec fn core_of(raw: Seq<char>) -> Seq<char> {
    let line = trimmed(uncommented(raw, false));
    if line.len() > 0 && line[0] == '-' {
        trimmed(line.skip(1))
    } else {
        line
    }
}

/// A name: one or more ASCII letters, digits and underscores.
pub open spec fn ident(s: Seq<char>) -> bool {
    s.len() > 0 && forall|i: int| 0 <= i < s.len() ==> ident_char(#[trigger] s[i])
}

/// What follows a keyword, where `s` starts with it and it ends there.
pub open spec fn after_keyword(s: Seq<char>, word: Seq<char>) -> Option<Seq<char>> {
    let rest = s.skip(word.len() as int);
    if starts(s, word) && (rest.len() == 0 || !(ident_char(rest[0]) || rest[0] == '.')) {
        Some(rest)
    } else {
        None
    }
}

/// What a directive is given: what follows its colon.
pub open spec fn argument(rest: Seq<char>) -> Seq<char> {
    trimmed(without_leading(rest, ':'))
}

/// What a line is.
pub open spec fn line_of(raw: Seq<char>) -> LineView {
    let core = core_of(raw);
    let header = core.len() > 0 && core.last() == ':';
    let stem = trimmed(without_trailing(core, ':'));
    if core.len() == 0 {
        LineView::Blank
    } else if header && lowered(stem) == "detection"@ {
        LineView::Section(Section::Detection)
    } else if header && lowered(stem) == "action"@ {
        LineView::Section(Section::Action)
    } else if header && ident(stem) {
        LineView::Group(stem)
    } else if let Some(rest) = after_keyword(core, "window"@) {
        LineView::Window(argument(rest))
    } else if let Some(rest) = after_keyword(core, "throttle"@) {
        LineView::Throttle(argument(rest))
    } else if let Some(rest) = after_keyword(core, "include"@) {
        LineView::Include(
            match literal(trimmed(rest)) {
                Some((path, _)) => Some(path),
                None => None,
            },
        )
    } else {
        LineView::Content(core)
    }
}

/// Indentation means nothing: a line is what it is without the white space before
/// it.
pub proof fn indentation_means_nothing(indent: Seq<char>, raw: Seq<char>)
    requires
        forall|i: int| 0 <= i < indent.len() ==> white(#[trigger] indent[i]),
    ensures
        core_of(indent + raw) == core_of(raw),
        line_of(indent + raw) == line_of(raw),
    decreases indent.len(),
{
    if indent.len() == 0 {
        assert(indent + raw =~= raw);
    } else {
        let c = indent[0];
        let rest = indent.skip(1) + raw;
        assert(white(c));
        assert forall|i: int| 0 <= i < indent.skip(1).len() implies white(
            #[trigger] indent.skip(1)[i],
        ) by {
            assert(white(indent[i + 1]));
        }
        indentation_means_nothing(indent.skip(1), raw);
        let all = indent + raw;
        assert(all[0] == c);
        assert(all.skip(1) =~= rest);
        let u = uncommented(rest, false);
        assert(uncommented(all, false) =~= seq![c] + u);
        assert((seq![c] + u).drop_first() =~= u);
    }
}

/// A comment means nothing: a line without one, and with its strings closed, is
/// the same line with a comment after it.
pub proof fn comments_mean_nothing(raw: Seq<char>, comment: Seq<char>)
    requires
        uncommented(raw, false) == raw,
        open_after(raw, false) == Some(false),
    ensures
        line_of(raw + (seq!['#'] + comment)) == line_of(raw),
{
    comment_starts_outside_strings(raw, false, comment);
}

/// What a line is.
pub enum Line {
    Blank,
    Section(Section),
    Group(String),
    Window(String),
    Throttle(String),
    Include(Option<String>),
    Content(String),
}

impl DeepView for Line {
    type V = LineView;

    open spec fn deep_view(&self) -> LineView {
        match self {
            Line::Blank => LineView::Blank,
            Line::Section(s) => LineView::Section(*s),
            Line::Group(name) => LineView::Group(name@),
            Line::Window(text) => LineView::Window(text@),
            Line::Throttle(text) => LineView::Throttle(text@),
            Line::Include(path) => LineView::Include(path.deep_view()),
            Line::Content(text) => LineView::Content(text@),
        }
    }
}

fn is_ident(s: &[char]) -> (r: bool)
    ensures
        r == ident(s@),
{
    let mut i: usize = 0;
    while i < s.len()
        invariant
            i <= s@.len(),
            forall|k: int| 0 <= k < i ==> ident_char(#[trigger] s@[k]),
        decreases s@.len() - i,
    {
        if !is_ident_char(s[i]) {
            assert(!ident_char(s@[i as int]));
            return false;
        }
        i += 1;
    }
    s.len() > 0
}

fn strip_kw<'a>(core: &'a [char], kw: &str) -> (r: Option<&'a [char]>)
    ensures
        match r {
            Some(rest) => after_keyword(core@, kw@) == Some(rest@),
            None => after_keyword(core@, kw@) is None,
        },
{
    match strip_prefix(core, kw) {
        None => None,
        Some(rest) => if rest.len() > 0 && (is_ident_char(rest[0]) || rest[0] == '.') {
            None
        } else {
            Some(rest)
        },
    }
}

/// The line without its comment, its leading dash and the white space around.
pub fn line_core<'a>(raw: &'a [char]) -> (core: &'a [char])
    ensures
        core@ == core_of(raw@),
{
    let line = trim(strip_inline_comment(raw));
    if line.len() > 0 && line[0] == '-' {
        let rest = slice_subrange(line, 1, line.len());
        assert(rest@ =~= line@.skip(1));
        trim(rest)
    } else {
        line
    }
}

/// Tells what a line is.
pub fn classify(raw: &[char]) -> (line: Line)
    ensures
        line.deep_view() == line_of(raw@),
{
    let core = line_core(raw);
    if core.len() == 0 {
        return Line::Blank;
    }
    let header: bool = core[core.len() - 1] == ':';
    let stem = trim(trim_end_char(core, ':'));
    if header && is_text_lowered(stem, "detection") {
        Line::Section(Section::Detection)
    } else if header && is_text_lowered(stem, "action") {
        Line::Section(Section::Action)
    } else if header && is_ident(stem) {
        Line::Group(from_chars(stem))
    } else if let Some(rest) = strip_kw(core, "window") {
        Line::Window(from_chars(trim(trim_start_char(rest, ':'))))
    } else if let Some(rest) = strip_kw(core, "throttle") {
        Line::Throttle(from_chars(trim(trim_start_char(rest, ':'))))
    } else if let Some(rest) = strip_kw(core, "include") {
        Line::Include(parse_string_literal(trim(rest)))
    } else {
        Line::Content(from_chars(core))
    }
}

// ---------------------------------------------------------------------
// Documents
// ---------------------------------------------------------------------

/// A Detection group, with text as its characters.
pub struct GroupView {
    pub name: Seq<char>,
    pub window: Option<Duration>,
    pub throttle: Option<Throttle>,
    pub conditions: Seq<CondView>,
}

/// An Action group, with text as its characters.
pub struct ListView {
    pub name: Seq<char>,
    pub actions: Seq<ActionView>,
}

/// What the lines read so far have built up.
pub struct DocView {
    /// The section that the last header opened.
    pub section: Section,
    /// The last group of that section is open: a group header came after the
    /// section header.
    pub open: bool,
    pub groups: Seq<GroupView>,
    pub lists: Seq<ListView>,
    /// The rules of the included files.
    pub included: Seq<RuleView>,
}

/// A message with the number of the line that it is about.
pub open spec fn at_line(n: nat, message: Seq<char>) -> Seq<char> {
    "line "@ + decimal(n) + ": "@ + message
}

/// Some Detection group has this name.
pub open spec fn has_group(groups: Seq<GroupView>, name: Seq<char>) -> bool {
    exists|i: int| 0 <= i < groups.len() && (#[trigger] groups[i]).name == name
}

/// Some Action group has this name.
pub open spec fn has_list(lists: Seq<ListView>, name: Seq<char>) -> bool {
    exists|i: int| 0 <= i < lists.len() && (#[trigger] lists[i]).name == name
}

impl DocView {
    /// A document with no line read.
    pub open spec fn empty() -> DocView {
        DocView {
            section: Section::Outside,
            open: false,
            groups: Seq::empty(),
            lists: Seq::empty(),
            included: Seq::empty(),
        }
    }

    /// An open group is there; names of groups differ.
    pub open spec fn wf(self) -> bool {
        &&& self.open && self.section == Section::Detection ==> self.groups.len() > 0
        &&& self.open && self.section == Section::Action ==> self.lists.len() > 0
        &&& self.open ==> self.section != Section::Outside
        &&& forall|i: int, j: int|
            0 <= i < j < self.groups.len() ==> (#[trigger] self.groups[i]).name != (
            #[trigger] self.groups[j]).name
        &&& forall|i: int, j: int|
            0 <= i < j < self.lists.len() ==> (#[trigger] self.lists[i]).name != (
            #[trigger] self.lists[j]).name
    }

    /// A Detection group is open.
    pub open spec fn detecting(self) -> bool {
        self.open && self.section == Section::Detection
    }

    /// The document with another value for its last Detection group.
    pub open spec fn with_group(self, group: GroupView) -> DocView {
        DocView { groups: self.groups.drop_last().push(group), ..self }
    }

    /// After the header of a group.
    pub open spec fn after_group(self, n: nat, name: Seq<char>) -> Result<DocView, Seq<char>> {
        match self.section {
            Section::Detection => if has_group(self.groups, name) {
                Err(at_line(n, "duplicate Detection group '"@ + name + "'"@))
            } else {
                let group = GroupView {
                    name,
                    window: None,
                    throttle: None,
                    conditions: Seq::empty(),
                };
                Ok(DocView { open: true, groups: self.groups.push(group), ..self })
            },
            Section::Action => if has_list(self.lists, name) {
                Err(at_line(n, "duplicate Action group '"@ + name + "'"@))
            } else {
                let list = ListView { name, actions: Seq::empty() };
                Ok(DocView { open: true, lists: self.lists.push(list), ..self })
            },
            Section::Outside => Err(at_line(n, "group '"@ + name + "' outside any section"@)),
        }
    }

    /// After a window directive.
    pub open spec fn after_window(self, n: nat, text: Seq<char>) -> Result<DocView, Seq<char>> {
        match duration_of(text) {
            None => Err(at_line(n, "bad window '"@ + text + "'"@)),
            Some(d) => if self.detecting() {
                Ok(self.with_group(GroupView { window: Some(d), ..self.groups.last() }))
            } else {
                Err(at_line(n, "'window:' only valid inside a Detection group"@))
            },
        }
    }

    /// After a throttle directive.
    pub open spec fn after_throttle(self, n: nat, text: Seq<char>) -> Result<DocView, Seq<char>> {
        match throttle_of(text) {
            None => Err(at_line(n, "bad throttle '"@ + text + "'"@)),
            Some(t) => if self.detecting() {
                Ok(self.with_group(GroupView { throttle: Some(t), ..self.groups.last() }))
            } else {
                Err(at_line(n, "'throttle:' only valid inside a Detection group"@))
            },
        }
    }

    /// After a condition or an action.
    pub open spec fn after_content(self, n: nat, text: Seq<char>, floats: FloatsView) -> Result<
        DocView,
        Seq<char>,
    > {
        match self.section {
            Section::Detection => if !self.open {
                Err(at_line(n, "condition outside any Detection group"@))
            } else {
                match expression_of(text, floats) {
                    Err(e) => Err(at_line(n, e)),
                    Ok(c) => {
                        let group = self.groups.last();
                        Ok(
                            self.with_group(
                                GroupView { conditions: group.conditions.push(c), ..group },
                            ),
                        )
                    },
                }
            },
            Section::Action => if !self.open {
                Err(at_line(n, "action outside any Action group"@))
            } else {
                match action_of(text) {
                    Err(e) => Err(at_line(n, e)),
                    Ok(a) => {
                        let list = self.lists.last();
                        let list = ListView { actions: list.actions.push(a), ..list };
                        Ok(DocView { lists: self.lists.drop_last().push(list), ..self })
                    },
                }
            },
            Section::Outside => Err(at_line(n, "content outside any section"@)),
        }
    }

    /// After line number `n`, which includes no file.
    pub open spec fn after_line(self, n: nat, line: LineView, floats: FloatsView) -> Result<
        DocView,
        Seq<char>,
    > {
        match line {
            LineView::Section(section) => Ok(DocView { section, open: false, ..self }),
            LineView::Group(name) => self.after_group(n, name),
            LineView::Window(text) => self.after_window(n, text),
            LineView::Throttle(text) => self.after_throttle(n, text),
            LineView::Content(text) => self.after_content(n, text, floats),
            _ => Ok(self),
        }
    }

    /// After the rules of an included file.
    pub open spec fn after_include(self, rules: Seq<RuleView>) -> DocView {
        DocView { included: self.included + rules, ..self }
    }
}

/// Reading a line keeps groups of one name apart, and an open group open.
pub proof fn line_keeps_wf(doc: DocView, n: nat, line: LineView, floats: FloatsView)
    requires
        doc.wf(),
    ensures
        doc.after_line(n, line, floats) matches Ok(d) ==> d.wf(),
{
}

/// Reading a line adds no included rule.
pub proof fn line_includes_nothing(doc: DocView, n: nat, line: LineView, floats: FloatsView)
    ensures
        doc.after_line(n, line, floats) matches Ok(d) ==> d.included == doc.included,
{
}

/// A line depends on the readings of its own numbers alone.
pub proof fn line_needs_own_floats(
    doc: DocView,
    n: nat,
    raw: Seq<char>,
    a: FloatsView,
    b: FloatsView,
)
    requires
        agree(a, b, float_texts(core_of(raw))),
    ensures
        doc.after_line(n, line_of(raw), a) == doc.after_line(n, line_of(raw), b),
{
    tokens_need_own_floats(core_of(raw), a, b);
}

/// The actions of the Action group of this name; none where there is no such
/// group.
pub open spec fn actions_for(lists: Seq<ListView>, name: Seq<char>) -> Seq<ActionView>
    decreases lists.len(),
{
    if lists.len() == 0 {
        Seq::empty()
    } else if lists[0].name == name {
        lists[0].actions
    } else {
        actions_for(lists.drop_first(), name)
    }
}

/// The rule of a Detection group.
pub open spec fn rule_for(group: GroupView, lists: Seq<ListView>, window: Duration) -> RuleView {
    RuleView {
        name: group.name,
        conditions: group.conditions,
        window: match group.window {
            Some(w) => w,
            None => window,
        },
        throttle: group.throttle,
        actions: actions_for(lists, group.name),
    }
}

/// The rules of the Detection groups, in order; a message where one of them has
/// no action.
pub open spec fn rules_of(groups: Seq<GroupView>, lists: Seq<ListView>, window: Duration) -> Result<
    Seq<RuleView>,
    Seq<char>,
>
    decreases groups.len(),
{
    if groups.len() == 0 {
        Ok(Seq::empty())
    } else {
        match rules_of(groups.drop_last(), lists, window) {
            Err(e) => Err(e),
            Ok(rules) => {
                let group = groups.last();
                if actions_for(lists, group.name).len() == 0 {
                    Err(
                        "rule '"@ + group.name
                            + "' has a Detection group but no matching Action group (a rule with no actions never produces output)"@,
                    )
                } else {
                    Ok(rules.push(rule_for(group, lists, window)))
                }
            },
        }
    }
}

/// Every Detection group makes one rule, in order, which has an action; and the
/// groups make no rules where one of them has none.
pub proof fn groups_make_rules(groups: Seq<GroupView>, lists: Seq<ListView>, window: Duration)
    ensures
        match rules_of(groups, lists, window) {
            Ok(rules) => {
                &&& rules.len() == groups.len()
                &&& forall|i: int|
                    0 <= i < groups.len() ==> {
                        &&& #[trigger] rules[i] == rule_for(groups[i], lists, window)
                        &&& rules[i].actions.len() > 0
                    }
            },
            Err(_) => exists|i: int|
                0 <= i < groups.len() && actions_for(lists, (#[trigger] groups[i]).name).len()
                    == 0,
        },
    decreases groups.len(),
{
    if groups.len() > 0 {
        groups_make_rules(groups.drop_last(), lists, window);
        if rules_of(groups.drop_last(), lists, window) is Err {
            let i = choose|i: int|
                0 <= i < groups.len() - 1 && actions_for(
                    lists,
                    (#[trigger] groups.drop_last()[i]).name,
                ).len() == 0;
            assert(groups[i] == groups.drop_last()[i]);
        } else if actions_for(lists, groups.last().name).len() == 0 {
            assert(groups[groups.len() - 1] == groups.last());
        }
    }
}

/// Groups that make no rules make none with any window, for the same reason.
pub proof fn failures_ignore_window(
    groups: Seq<GroupView>,
    lists: Seq<ListView>,
    a: Duration,
    b: Duration,
)
    ensures
        match (rules_of(groups, lists, a), rules_of(groups, lists, b)) {
            (Ok(_), Ok(_)) => true,
            (Err(one), Err(other)) => one == other,
            _ => false,
        },
    decreases groups.len(),
{
    if groups.len() > 0 {
        failures_ignore_window(groups.drop_last(), lists, a, b);
    }
}

/// The rules of a document: those of its groups, then those that it includes.
pub open spec fn finished(doc: DocView, window: Duration) -> Result<Seq<RuleView>, Seq<char>> {
    match rules_of(doc.groups, doc.lists, window) {
        Err(e) => Err(e),
        Ok(rules) => Ok(rules + doc.included),
    }
}

// ---------------------------------------------------------------------
// Building a document
// ---------------------------------------------------------------------

/// A Detection group.
pub struct Group {
    pub name: String,
    pub window: Option<Duration>,
    pub throttle: Option<Throttle>,
    pub conditions: Vec<Condition>,
}

impl DeepView for Group {
    type V = GroupView;

    open spec fn deep_view(&self) -> GroupView {
        GroupView {
            name: self.name@,
            window: self.window,
            throttle: self.throttle,
            conditions: self.conditions.deep_view(),
        }
    }
}

/// An Action group.
pub struct ActionList {
    pub name: String,
    pub actions: Vec<Action>,
}

impl DeepView for ActionList {
    type V = ListView;

    open spec fn deep_view(&self) -> ListView {
        ListView { name: self.name@, actions: self.actions.deep_view() }
    }
}

/// What the lines read so far have built up.
pub struct Doc {
    pub section: Section,
    pub open: bool,
    pub groups: Vec<Group>,
    pub lists: Vec<ActionList>,
    pub included: Vec<Rule>,
}

impl DeepView for Doc {
    type V = DocView;

    open spec fn deep_view(&self) -> DocView {
        DocView {
            section: self.section,
            open: self.open,
            groups: self.groups.deep_view(),
            lists: self.lists.deep_view(),
            included: self.included.deep_view(),
        }
    }
}

/// The message with the number of the line that it is about.
pub fn message_at(n: usize, message: &str) -> (r: String)
    ensures
        r@ == at_line(n as nat, message@),
{
    let mut r = "line ".to_string();
    push_decimal(&mut r, n as u64);
    r.append(": ");
    r.append(message);
    r
}

impl Doc {
    /// A document with no line read.
    pub fn new() -> (doc: Doc)
        ensures
            doc.deep_view() == DocView::empty(),
            doc.deep_view().wf(),
    {
        let doc = Doc {
            section: Section::Outside,
            open: false,
            groups: Vec::new(),
            lists: Vec::new(),
            included: Vec::new(),
        };
        assert(doc.deep_view().groups =~= Seq::empty());
        assert(doc.deep_view().lists =~= Seq::empty());
        assert(doc.deep_view().included =~= Seq::empty());
        doc
    }

    fn group_named(&self, name: &str) -> (r: bool)
        ensures
            r == has_group(self.groups.deep_view(), name@),
    {
        let mut i: usize = 0;
        while i < self.groups.len()
            invariant
                i <= self.groups@.len(),
                forall|k: int|
                    0 <= k < i ==> (#[trigger] self.groups.deep_view()[k]).name != name@,
            decreases self.groups@.len() - i,
        {
            if str_eq(self.groups[i].name.as_str(), name) {
                assert(self.groups.deep_view()[i as int].name == name@);
                return true;
            }
            i += 1;
        }
        false
    }

    fn list_named(&self, name: &str) -> (r: bool)
        ensures
            r == has_list(self.lists.deep_view(), name@),
    {
        let mut i: usize = 0;
        while i < self.lists.len()
            invariant
                i <= self.lists@.len(),
                forall|k: int|
                    0 <= k < i ==> (#[trigger] self.lists.deep_view()[k]).name != name@,
            decreases self.lists@.len() - i,
        {
            if str_eq(self.lists[i].name.as_str(), name) {
                assert(self.lists.deep_view()[i as int].name == name@);
                return true;
            }
            i += 1;
        }
        false
    }

    /// Reads the header of a group.
    fn on_group(&mut self, n: usize, name: String) -> (r: Result<(), String>)
        requires
            old(self).deep_view().wf(),
        ensures
            match r {
                Ok(()) => old(self).deep_view().after_group(n as nat, name@) == Ok::<
                    DocView,
                    Seq<char>,
                >(final(self).deep_view()) && final(self).deep_view().wf(),
                Err(e) => old(self).deep_view().after_group(n as nat, name@) == Err::<
                    DocView,
                    Seq<char>,
                >(e@),
            },
    {
        let ghost before = self.deep_view();
        match self.section {
            Section::Detection => {
                if self.group_named(name.as_str()) {
                    let e = join("duplicate Detection group '", name.as_str(), "'");
                    return Err(message_at(n, e.as_str()));
                }
                self.groups.push(
                    Group { name, window: None, throttle: None, conditions: Vec::new() },
                );
                self.open = true;
                proof {
                    let group = self.groups.deep_view().last();
                    assert(group.conditions =~= Seq::empty());
                    assert(self.groups.deep_view() =~= before.groups.push(group));
                }
                Ok(())
            },
            Section::Action => {
                if self.list_named(name.as_str()) {
                    let e = join("duplicate Action group '", name.as_str(), "'");
                    return Err(message_at(n, e.as_str()));
                }
                self.lists.push(ActionList { name, actions: Vec::new() });
                self.open = true;
                proof {
                    let list = self.lists.deep_view().last();
                    assert(list.actions =~= Seq::empty());
                    assert(self.lists.deep_view() =~= before.lists.push(list));
                }
                Ok(())
            },
            Section::Outside => {
                let e = join("group '", name.as_str(), "' outside any section");
                Err(message_at(n, e.as_str()))
            },
        }
    }

    /// Reads a window directive.
    fn on_window(&mut self, n: usize, text: &str) -> (r: Result<(), String>)
        requires
            old(self).deep_view().wf(),
        ensures
            match r {
                Ok(()) => old(self).deep_view().after_window(n as nat, text@) == Ok::<
                    DocView,
                    Seq<char>,
                >(final(self).deep_view()) && final(self).deep_view().wf(),
                Err(e) => old(self).deep_view().after_window(n as nat, text@) == Err::<
                    DocView,
                    Seq<char>,
                >(e@),
            },
    {
        let ghost before = self.deep_view();
        let d = match parse_duration(text) {
            Some(d) => d,
            None => {
                let e = join("bad window '", text, "'");
                return Err(message_at(n, e.as_str()));
            },
        };
        if !self.open || self.section != Section::Detection {
            return Err(message_at(n, "'window:' only valid inside a Detection group"));
        }
        let last: usize = self.groups.len() - 1;
        assert(before.groups.last() == self.groups@[last as int].deep_view());
        self.groups[last].window = Some(d);
        assert(self.groups.deep_view() =~= before.groups.drop_last().push(
            self.groups@.last().deep_view(),
        ));
        Ok(())
    }

    /// Reads a throttle directive.
    fn on_throttle(&mut self, n: usize, text: &str) -> (r: Result<(), String>)
        requires
            old(self).deep_view().wf(),
        ensures
            match r {
                Ok(()) => old(self).deep_view().after_throttle(n as nat, text@) == Ok::<
                    DocView,
                    Seq<char>,
                >(final(self).deep_view()) && final(self).deep_view().wf(),
                Err(e) => old(self).deep_view().after_throttle(n as nat, text@) == Err::<
                    DocView,
                    Seq<char>,
                >(e@),
            },
    {
        let ghost before = self.deep_view();
        let t = match parse_throttle(text) {
            Some(t) => t,
            None => {
                let e = join("bad throttle '", text, "'");
                return Err(message_at(n, e.as_str()));
            },
        };
        if !self.open || self.section != Section::Detection {
            return Err(message_at(n, "'throttle:' only valid inside a Detection group"));
        }
        let last: usize = self.groups.len() - 1;
        assert(before.groups.last() == self.groups@[last as int].deep_view());
        self.groups[last].throttle = Some(t);
        assert(self.groups.deep_view() =~= before.groups.drop_last().push(
            self.groups@.last().deep_view(),
        ));
        Ok(())
    }

    /// Reads a condition or an action.
    fn on_content(&mut self, n: usize, text: &str, floats: &FloatTable) -> (r: Result<(), String>)
        requires
            old(self).deep_view().wf(),
        ensures
            match r {
                Ok(()) => old(self).deep_view().after_content(n as nat, text@, floats@) == Ok::<
                    DocView,
                    Seq<char>,
                >(final(self).deep_view()) && final(self).deep_view().wf(),
                Err(e) => old(self).deep_view().after_content(n as nat, text@, floats@) == Err::<
                    DocView,
                    Seq<char>,
                >(e@),
            },
    {
        let ghost before = self.deep_view();
        match self.section {
            Section::Detection => {
                if !self.open {
                    return Err(message_at(n, "condition outside any Detection group"));
                }
                let c = match parse_expression(text, floats) {
                    Ok(c) => c,
                    Err(e) => {
                        return Err(message_at(n, e.as_str()));
                    },
                };
                let last: usize = self.groups.len() - 1;
                let ghost group = self.groups@[last as int];
                assert(before.groups.last() == group.deep_view());
                self.groups[last].conditions.push(c);
                assert(self.groups@.last().conditions.deep_view()
                    =~= group.conditions.deep_view().push(c.deep_view()));
                assert(self.groups.deep_view() =~= before.groups.drop_last().push(
                    self.groups@.last().deep_view(),
                ));
                Ok(())
            },
            Section::Action => {
                if !self.open {
                    return Err(message_at(n, "action outside any Action group"));
                }
                let a = match parse_action(text) {
                    Ok(a) => a,
                    Err(e) => {
                        return Err(message_at(n, e.as_str()));
                    },
                };
                let last: usize = self.lists.len() - 1;
                let ghost list = self.lists@[last as int];
                assert(before.lists.last() == list.deep_view());
                self.lists[last].actions.push(a);
                assert(self.lists@.last().actions.deep_view() =~= list.actions.deep_view().push(
                    a.deep_view(),
                ));
                assert(self.lists.deep_view() =~= before.lists.drop_last().push(
                    self.lists@.last().deep_view(),
                ));
                Ok(())
            },
            Section::Outside => Err(message_at(n, "content outside any section")),
        }
    }

    /// Reads line number `n`, which includes no file.
    pub fn on_line(&mut self, n: usize, line: Line, floats: &FloatTable) -> (r: Result<(), String>)
        requires
            old(self).deep_view().wf(),
        ensures
            match r {
                Ok(()) => old(self).deep_view().after_line(n as nat, line.deep_view(), floats@)
                    == Ok::<DocView, Seq<char>>(final(self).deep_view())
                    && final(self).deep_view().wf(),
                Err(e) => old(self).deep_view().after_line(n as nat, line.deep_view(), floats@)
                    == Err::<DocView, Seq<char>>(e@),
            },
    {
        match line {
            Line::Section(section) => {
                self.section = section;
                self.open = false;
                Ok(())
            },
            Line::Group(name) => self.on_group(n, name),
            Line::Window(text) => self.on_window(n, text.as_str()),
            Line::Throttle(text) => self.on_throttle(n, text.as_str()),
            Line::Content(text) => self.on_content(n, text.as_str(), floats),
            _ => Ok(()),
        }
    }

    /// Adds the rules of an included file.
    pub fn on_include(&mut self, rules: Vec<Rule>)
        requires
            old(self).deep_view().wf(),
        ensures
            final(self).deep_view() == old(self).deep_view().after_include(rules.deep_view()),
            final(self).deep_view().wf(),
    {
        let ghost added = rules.deep_view();
        let mut rules = rules;
        self.included.append(&mut rules);
        assert(self.included.deep_view() =~= old(self).included.deep_view() + added);
    }

    /// The rules of the document.
    pub fn finish(self, window: Duration) -> (r: Result<Vec<Rule>, String>)
        requires
            self.deep_view().wf(),
        ensures
            match r {
                Ok(rules) => finished(self.deep_view(), window) == Ok::<Seq<RuleView>, Seq<char>>(
                    rules.deep_view(),
                ),
                Err(e) => finished(self.deep_view(), window) == Err::<Seq<RuleView>, Seq<char>>(
                    e@,
                ),
            },
    {
        let ghost view = self.deep_view();
        let mut rules: Vec<Rule> = Vec::new();
        let mut i: usize = 0;
        assert(view.groups.take(0) =~= Seq::empty());
        assert(rules.deep_view() =~= Seq::empty());
        while i < self.groups.len()
            invariant
                i <= self.groups@.len(),
                view == self.deep_view(),
                rules_of(view.groups.take(i as int), view.lists, window) == Ok::<
                    Seq<RuleView>,
                    Seq<char>,
                >(rules.deep_view()),
            decreases self.groups@.len() - i,
        {
            let group = &self.groups[i];
            let actions = find_actions(&self.lists, group.name.as_str());
            proof {
                let upto = view.groups.take(i + 1);
                assert(upto.drop_last() =~= view.groups.take(i as int));
                assert(upto.last() == group.deep_view());
            }
            if actions.len() == 0 {
                let e = join(
                    "rule '",
                    group.name.as_str(),
                    "' has a Detection group but no matching Action group (a rule with no actions never produces output)",
                );
                proof {
                    failure_stays(view.groups, view.lists, window, i + 1);
                }
                return Err(e);
            }
            let rule = Rule {
                name: group.name.clone(),
                conditions: clone_conditions(&group.conditions),
                window: match group.window {
                    Some(w) => w,
                    None => window,
                },
                throttle: group.throttle,
                actions,
            };
            let ghost before = rules.deep_view();
            rules.push(rule);
            assert(rules.deep_view() =~= before.push(rule.deep_view()));
            i += 1;
        }
        assert(view.groups.take(i as int) =~= view.groups);
        let ghost own = rules.deep_view();
        let mut included = self.included;
        rules.append(&mut included);
        assert(rules.deep_view() =~= own + view.included);
        Ok(rules)
    }
}

/// A message about some of the groups is the message about all.
proof fn failure_stays(groups: Seq<GroupView>, lists: Seq<ListView>, window: Duration, i: int)
    requires
        0 <= i <= groups.len(),
        rules_of(groups.take(i), lists, window) is Err,
    ensures
        rules_of(groups, lists, window) == rules_of(groups.take(i), lists, window),
    decreases groups.len() - i,
{
    if i == groups.len() {
        assert(groups.take(i) =~= groups);
    } else {
        assert(groups.take(i + 1).drop_last() =~= groups.take(i));
        failure_stays(groups, lists, window, i + 1);
    }
}

fn find_actions(lists: &Vec<ActionList>, name: &str) -> (r: Vec<Action>)
    ensures
        r.deep_view() == actions_for(lists.deep_view(), name@),
{
    let mut i: usize = 0;
    assert(lists.deep_view().skip(0) =~= lists.deep_view());
    while i < lists.len()
        invariant
            i <= lists@.len(),
            actions_for(lists.deep_view(), name@) == actions_for(
                lists.deep_view().skip(i as int),
                name@,
            ),
        decreases lists@.len() - i,
    {
        assert(lists.deep_view().skip(i as int)[0] == lists@[i as int].deep_view());
        if str_eq(lists[i].name.as_str(), name) {
            return clone_actions(&lists[i].actions);
        }
        assert(lists.deep_view().skip(i as int).drop_first() =~= lists.deep_view().skip(i + 1));
        i += 1;
    }
    let none: Vec<Action> = Vec::new();
    assert(none.deep_view() =~= Seq::empty());
    none
}

} // verus!
