//! What the lines of a text say together: which group a line belongs to, where a
//! line may stand, and what becomes of the lines of a group.

use crate::ast::{ActionView, CondView, RuleView, Throttle};
use crate::directive::{action_of, duration_of, throttle_of};
use crate::document::{
    actions_for, finished, groups_make_rules, has_group, has_list, line_of, rule_for, rules_of,
    DocView, GroupView, LineView, ListView, Section,
};
use crate::expr::expression_of;
use crate::floats::FloatsView;
use crate::parser::{doc_after, source_rules, Paths, World};
use crate::text::{decimal, lines};
use crate::time::Duration;
use vstd::prelude::*;

verus! {

/// What the lines of a text are.
pub open spec fn kinds(text: Seq<char>) -> Seq<LineView> {
    lines(text).map_values(|l: Seq<char>| line_of(l))
}

// ---------------------------------------------------------------------
// Places
// ---------------------------------------------------------------------

/// The section that some lines end in: that of the last section header.
pub open spec fn section_after(ks: Seq<LineView>) -> Section
    decreases ks.len(),
{
    if ks.len() == 0 {
        Section::Outside
    } else {
        match ks.last() {
            LineView::Section(s) => s,
            _ => section_after(ks.drop_last()),
        }
    }
}

/// The group that some lines end in: that of the last group header, if no section
/// header follows it.
pub open spec fn group_after(ks: Seq<LineView>) -> Option<Seq<char>>
    decreases ks.len(),
{
    if ks.len() == 0 {
        None
    } else {
        match ks.last() {
            LineView::Section(_) => None,
            LineView::Group(name) => Some(name),
            _ => group_after(ks.drop_last()),
        }
    }
}

/// A line after these would belong to the group of this name in this section.
pub open spec fn within(ks: Seq<LineView>, s: Section, name: Seq<char>) -> bool {
    section_after(ks) == s && group_after(ks) == Some(name)
}

/// The names of the groups of a section, in order.
pub open spec fn names_in(ks: Seq<LineView>, s: Section) -> Seq<Seq<char>>
    decreases ks.len(),
{
    if ks.len() == 0 {
        Seq::empty()
    } else {
        let rest = ks.drop_last();
        match ks.last() {
            LineView::Group(name) if section_after(rest) == s => names_in(rest, s).push(name),
            _ => names_in(rest, s),
        }
    }
}

/// The conditions or actions that stand in a group, in order.
pub open spec fn contents_in(ks: Seq<LineView>, s: Section, name: Seq<char>) -> Seq<Seq<char>>
    decreases ks.len(),
{
    if ks.len() == 0 {
        Seq::empty()
    } else {
        let rest = ks.drop_last();
        match ks.last() {
            LineView::Content(text) if within(rest, s, name) => contents_in(rest, s, name).push(
                text,
            ),
            _ => contents_in(rest, s, name),
        }
    }
}

/// What the window directives of a group say, in order.
pub open spec fn windows_in(ks: Seq<LineView>, name: Seq<char>) -> Seq<Seq<char>>
    decreases ks.len(),
{
    if ks.len() == 0 {
        Seq::empty()
    } else {
        let rest = ks.drop_last();
        match ks.last() {
            LineView::Window(text) if within(rest, Section::Detection, name) => windows_in(
                rest,
                name,
            ).push(text),
            _ => windows_in(rest, name),
        }
    }
}

/// What the throttle directives of a group say, in order.
pub open spec fn throttles_in(ks: Seq<LineView>, name: Seq<char>) -> Seq<Seq<char>>
    decreases ks.len(),
{
    if ks.len() == 0 {
        Seq::empty()
    } else {
        let rest = ks.drop_last();
        match ks.last() {
            LineView::Throttle(text) if within(rest, Section::Detection, name) => throttles_in(
                rest,
                name,
            ).push(text),
            _ => throttles_in(rest, name),
        }
    }
}

/// A line may follow these: a group header in a section that has no group of that
/// name, a directive in a Detection group, a condition in a Detection group, an
/// action in an Action group; a section header anywhere.
pub open spec fn may_follow(ks: Seq<LineView>, line: LineView, floats: FloatsView) -> bool {
    let s = section_after(ks);
    let inside = group_after(ks) is Some;
    match line {
        LineView::Blank => true,
        LineView::Section(_) => true,
        LineView::Group(name) => s != Section::Outside && !names_in(ks, s).contains(name),
        LineView::Window(text) => inside && s == Section::Detection && duration_of(text) is Some,
        LineView::Throttle(text) => inside && s == Section::Detection && throttle_of(text) is Some,
        LineView::Content(text) => inside && match s {
            Section::Detection => expression_of(text, floats) is Ok,
            Section::Action => action_of(text) is Ok,
            Section::Outside => false,
        },
        LineView::Include(_) => false,
    }
}

/// Each line may follow those before it.
pub open spec fn all_may_follow(ks: Seq<LineView>, floats: FloatsView) -> bool {
    forall|n: int| 0 <= n < ks.len() ==> may_follow(ks.take(n), #[trigger] ks[n], floats)
}

// ---------------------------------------------------------------------
// Reading
// ---------------------------------------------------------------------

/// The document of some lines, where they are right and include no file.
pub open spec fn stepped(ks: Seq<LineView>, floats: FloatsView) -> Option<DocView>
    decreases ks.len(),
{
    if ks.len() == 0 {
        Some(DocView::empty())
    } else {
        match stepped(ks.drop_last(), floats) {
            None => None,
            Some(doc) => if ks.last() is Include {
                None
            } else {
                match doc.after_line(0, ks.last(), floats) {
                    Ok(next) => Some(next),
                    Err(_) => None,
                }
            },
        }
    }
}

/// The number of a line matters in messages alone.
pub proof fn numbers_only_matter_in_messages(
    doc: DocView,
    n: nat,
    m: nat,
    line: LineView,
    floats: FloatsView,
)
    ensures
        match (doc.after_line(n, line, floats), doc.after_line(m, line, floats)) {
            (Ok(one), Ok(other)) => one == other,
            (Err(_), Err(_)) => true,
            _ => false,
        },
{
}

/// Reading lines that are of no file.
proof fn reading_is_stepping(
    w: World,
    ls: Seq<Seq<char>>,
    ks: Seq<LineView>,
    n: int,
    stack: Paths,
    done: Paths,
)
    requires
        ks == ls.map_values(|l: Seq<char>| line_of(l)),
        0 <= n <= ls.len(),
    ensures
        match stepped(ks.take(n), w.floats) {
            Some(doc) => doc_after(w, None, ls, 0, DocView::empty(), stack, done) == doc_after(
                w,
                None,
                ls,
                n,
                doc,
                stack,
                done,
            ),
            None => doc_after(w, None, ls, 0, DocView::empty(), stack, done).0 is Err,
        },
    decreases n,
{
    if n == 0 {
        assert(stepped(ks.take(0), w.floats) == Some(DocView::empty()));
    } else {
        assert(ks.take(n).drop_last() =~= ks.take(n - 1));
        assert(ks.take(n).last() == line_of(ls[n - 1]));
        reading_is_stepping(w, ls, ks, n - 1, stack, done);
        if let Some(doc) = stepped(ks.take(n - 1), w.floats) {
            numbers_only_matter_in_messages(doc, 0, n as nat, ks[n - 1], w.floats);
        }
    }
}

/// The rules of a text are those of its document.
pub proof fn sources_are_stepped(text: Seq<char>, window: Duration, floats: FloatsView)
    ensures
        match stepped(kinds(text), floats) {
            Some(doc) => match (source_rules(text, window, floats), finished(doc, window)) {
                (Ok(one), Ok(other)) => one == other,
                (Err(_), Err(_)) => true,
                _ => false,
            },
            None => source_rules(text, window, floats) is Err,
        },
{
    let w = World { files: Seq::empty(), floats, window };
    let ls = lines(text);
    let none: Paths = Set::empty();
    reading_is_stepping(w, ls, kinds(text), ls.len() as int, none, none);
    assert(kinds(text).take(ls.len() as int) =~= kinds(text));
}

// ---------------------------------------------------------------------
// Groups of lines
// ---------------------------------------------------------------------

/// What the last of some directives says.
pub open spec fn last_window(texts: Seq<Seq<char>>) -> Option<Duration> {
    if texts.len() == 0 {
        None
    } else {
        duration_of(texts.last())
    }
}

/// What the last of some directives says.
pub open spec fn last_throttle(texts: Seq<Seq<char>>) -> Option<Throttle> {
    if texts.len() == 0 {
        None
    } else {
        throttle_of(texts.last())
    }
}

/// A Detection group is that of its lines.
spec fn group_fits(ks: Seq<LineView>, g: GroupView, floats: FloatsView) -> bool {
    let texts = contents_in(ks, Section::Detection, g.name);
    &&& g.conditions.len() == texts.len()
    &&& forall|k: int|
        0 <= k < texts.len() ==> expression_of(#[trigger] texts[k], floats) == Ok::<
            CondView,
            Seq<char>,
        >(g.conditions[k])
    &&& g.window == last_window(windows_in(ks, g.name))
    &&& g.throttle == last_throttle(throttles_in(ks, g.name))
}

/// An Action group is that of its lines.
spec fn list_fits(ks: Seq<LineView>, l: ListView) -> bool {
    let texts = contents_in(ks, Section::Action, l.name);
    &&& l.actions.len() == texts.len()
    &&& forall|k: int|
        0 <= k < texts.len() ==> action_of(#[trigger] texts[k]) == Ok::<
            ActionView,
            Seq<char>,
        >(l.actions[k])
}

spec fn names_fit(ks: Seq<LineView>, doc: DocView) -> bool {
    &&& doc.section == section_after(ks)
    &&& doc.open == (group_after(ks) is Some)
    &&& names_in(ks, Section::Detection) == doc.groups.map_values(|g: GroupView| g.name)
    &&& names_in(ks, Section::Action) == doc.lists.map_values(|l: ListView| l.name)
    &&& doc.detecting() ==> doc.groups.len() > 0 && group_after(ks) == Some(doc.groups.last().name)
    &&& doc.open && doc.section == Section::Action ==> doc.lists.len() > 0 && group_after(ks)
        == Some(doc.lists.last().name)
}

#[verifier::opaque]
spec fn doc_fits(ks: Seq<LineView>, doc: DocView, floats: FloatsView) -> bool {
    &&& names_fit(ks, doc)
    &&& doc.wf()
    &&& doc.included.len() == 0
    &&& forall|i: int|
        0 <= i < doc.groups.len() ==> group_fits(ks, #[trigger] doc.groups[i], floats)
    &&& forall|i: int| 0 <= i < doc.lists.len() ==> list_fits(ks, #[trigger] doc.lists[i])
}

/// A group that has no header has no lines.
proof fn lines_need_headers(ks: Seq<LineView>, s: Section, name: Seq<char>)
    requires
        s != Section::Outside,
        !names_in(ks, s).contains(name),
    ensures
        !within(ks, s, name),
        contents_in(ks, s, name).len() == 0,
        s == Section::Detection ==> windows_in(ks, name).len() == 0,
        s == Section::Detection ==> throttles_in(ks, name).len() == 0,
    decreases ks.len(),
{
    if ks.len() > 0 {
        let rest = ks.drop_last();
        if names_in(rest, s).contains(name) {
            let i = choose|i: int|
                0 <= i < names_in(rest, s).len() && names_in(rest, s)[i] == name;
            assert(names_in(ks, s)[i] == name);
        }
        lines_need_headers(rest, s, name);
        if let LineView::Group(other) = ks.last() {
            if section_after(rest) == s {
                assert(names_in(ks, s).last() == other);
            }
        }
    }
}

proof fn header_fits(ks: Seq<LineView>, doc: DocView, line: LineView, floats: FloatsView)
    requires
        ks.len() > 0,
        ks.last() == line,
        doc_fits(ks.drop_last(), doc, floats),
        line is Group || line is Section || line is Blank,
    ensures
        match doc.after_line(0, line, floats) {
            Ok(next) => may_follow(ks.drop_last(), line, floats) && doc_fits(ks, next, floats),
            Err(_) => !may_follow(ks.drop_last(), line, floats),
        },
{
    reveal(doc_fits);
    let rest = ks.drop_last();
    let groups = doc.groups.map_values(|g: GroupView| g.name);
    let lists = doc.lists.map_values(|l: ListView| l.name);
    if let LineView::Group(name) = line {
        if doc.section == Section::Detection {
            if has_group(doc.groups, name) {
                let i = choose|i: int|
                    0 <= i < doc.groups.len() && (#[trigger] doc.groups[i]).name == name;
                assert(groups[i] == name);
            } else if groups.contains(name) {
                let i = choose|i: int| 0 <= i < groups.len() && groups[i] == name;
                assert(doc.groups[i].name == name);
            }
            if let Ok(next) = doc.after_line(0, line, floats) {
                lines_need_headers(rest, Section::Detection, name);
                assert(next.groups.map_values(|g: GroupView| g.name) =~= groups.push(name));
                assert forall|i: int| 0 <= i < next.groups.len() implies group_fits(
                    ks,
                    #[trigger] next.groups[i],
                    floats,
                ) by {
                    if i < doc.groups.len() {
                        assert(group_fits(rest, doc.groups[i], floats));
                    }
                }
                assert forall|i: int| 0 <= i < next.lists.len() implies list_fits(
                    ks,
                    #[trigger] next.lists[i],
                ) by {
                    assert(list_fits(rest, doc.lists[i]));
                }
            }
        } else if doc.section == Section::Action {
            if has_list(doc.lists, name) {
                let i = choose|i: int|
                    0 <= i < doc.lists.len() && (#[trigger] doc.lists[i]).name == name;
                assert(lists[i] == name);
            } else if lists.contains(name) {
                let i = choose|i: int| 0 <= i < lists.len() && lists[i] == name;
                assert(doc.lists[i].name == name);
            }
            if let Ok(next) = doc.after_line(0, line, floats) {
                lines_need_headers(rest, Section::Action, name);
                assert(next.lists.map_values(|l: ListView| l.name) =~= lists.push(name));
                assert forall|i: int| 0 <= i < next.groups.len() implies group_fits(
                    ks,
                    #[trigger] next.groups[i],
                    floats,
                ) by {
                    assert(group_fits(rest, doc.groups[i], floats));
                }
                assert forall|i: int| 0 <= i < next.lists.len() implies list_fits(
                    ks,
                    #[trigger] next.lists[i],
                ) by {
                    if i < doc.lists.len() {
                        assert(list_fits(rest, doc.lists[i]));
                    }
                }
            }
        }
    } else {
        let next = doc.after_line(0, line, floats)->Ok_0;
        assert forall|i: int| 0 <= i < next.groups.len() implies group_fits(
            ks,
            #[trigger] next.groups[i],
            floats,
        ) by {
            assert(group_fits(rest, doc.groups[i], floats));
        }
        assert forall|i: int| 0 <= i < next.lists.len() implies list_fits(
            ks,
            #[trigger] next.lists[i],
        ) by {
            assert(list_fits(rest, doc.lists[i]));
        }
    }
}

/// What is written in a Detection group changes that group alone.
proof fn detection_line_fits(ks: Seq<LineView>, doc: DocView, line: LineView, floats: FloatsView)
    requires
        ks.len() > 0,
        ks.last() == line,
        doc_fits(ks.drop_last(), doc, floats),
        doc.section == Section::Detection || line is Window || line is Throttle,
        line is Window || line is Throttle || line is Content,
    ensures
        match doc.after_line(0, line, floats) {
            Ok(next) => may_follow(ks.drop_last(), line, floats) && doc_fits(ks, next, floats),
            Err(_) => !may_follow(ks.drop_last(), line, floats),
        },
{
    reveal(doc_fits);
    let rest = ks.drop_last();
    if let Ok(next) = doc.after_line(0, line, floats) {
        let last = doc.groups.len() - 1;
        let old_group = doc.groups[last];
        let new_group = next.groups[last];
        assert(next.groups.map_values(|g: GroupView| g.name) =~= doc.groups.map_values(
            |g: GroupView| g.name,
        ));
        assert(group_fits(rest, old_group, floats));
        let texts = contents_in(ks, Section::Detection, new_group.name);
        let before = contents_in(rest, Section::Detection, new_group.name);
        if line is Content {
            assert(texts == before.push(line->Content_0));
            assert forall|k: int| 0 <= k < texts.len() implies expression_of(
                #[trigger] texts[k],
                floats,
            ) == Ok::<CondView, Seq<char>>(new_group.conditions[k]) by {
                if k < before.len() {
                    assert(expression_of(before[k], floats) == Ok::<
                        CondView,
                        Seq<char>,
                    >(old_group.conditions[k]));
                }
            }
        } else {
            assert(texts == before);
        }
        assert(group_fits(ks, new_group, floats));
        assert forall|i: int| 0 <= i < next.groups.len() implies group_fits(
            ks,
            #[trigger] next.groups[i],
            floats,
        ) by {
            if i < last {
                assert(doc.groups[i].name != doc.groups[last].name);
                assert(group_fits(rest, doc.groups[i], floats));
            }
        }
        assert forall|i: int| 0 <= i < next.lists.len() implies list_fits(
            ks,
            #[trigger] next.lists[i],
        ) by {
            assert(list_fits(rest, doc.lists[i]));
        }
        assert(next.wf());
    }
}

/// What is written in an Action group changes that group alone.
proof fn action_line_fits(ks: Seq<LineView>, doc: DocView, line: LineView, floats: FloatsView)
    requires
        ks.len() > 0,
        ks.last() == line,
        doc_fits(ks.drop_last(), doc, floats),
        doc.section != Section::Detection,
        line is Content,
    ensures
        match doc.after_line(0, line, floats) {
            Ok(next) => may_follow(ks.drop_last(), line, floats) && doc_fits(ks, next, floats),
            Err(_) => !may_follow(ks.drop_last(), line, floats),
        },
{
    reveal(doc_fits);
    let rest = ks.drop_last();
    if let Ok(next) = doc.after_line(0, line, floats) {
        let last = doc.lists.len() - 1;
        let old_list = doc.lists[last];
        let new_list = next.lists[last];
        assert(next.lists.map_values(|l: ListView| l.name) =~= doc.lists.map_values(
            |l: ListView| l.name,
        ));
        assert(list_fits(rest, old_list));
        let texts = contents_in(ks, Section::Action, new_list.name);
        let before = contents_in(rest, Section::Action, new_list.name);
        assert(texts == before.push(line->Content_0));
        assert forall|k: int| 0 <= k < texts.len() implies action_of(#[trigger] texts[k]) == Ok::<
            ActionView,
            Seq<char>,
        >(new_list.actions[k]) by {
            if k < before.len() {
                assert(action_of(before[k]) == Ok::<ActionView, Seq<char>>(
                    old_list.actions[k],
                ));
            }
        }
        assert(list_fits(ks, new_list));
        assert forall|i: int| 0 <= i < next.lists.len() implies list_fits(
            ks,
            #[trigger] next.lists[i],
        ) by {
            if i < last {
                assert(doc.lists[i].name != doc.lists[last].name);
                assert(list_fits(rest, doc.lists[i]));
            }
        }
        assert forall|i: int| 0 <= i < next.groups.len() implies group_fits(
            ks,
            #[trigger] next.groups[i],
            floats,
        ) by {
            assert(group_fits(rest, doc.groups[i], floats));
        }
        assert(next.wf());
    }
}

/// What holds of each line and those before it holds of all but the last and of the
/// last.
proof fn prefix_step(ks: Seq<LineView>, ok: spec_fn(Seq<LineView>, LineView) -> bool)
    requires
        ks.len() > 0,
    ensures
        (forall|n: int| 0 <= n < ks.len() ==> ok(ks.take(n), #[trigger] ks[n])) <==> {
            let rest = ks.drop_last();
            &&& forall|n: int| 0 <= n < rest.len() ==> ok(rest.take(n), #[trigger] rest[n])
            &&& ok(rest, ks.last())
        },
{
    let rest = ks.drop_last();
    let last = ks.len() - 1;
    assert(ks.take(last) =~= rest);
    if forall|n: int| 0 <= n < ks.len() ==> ok(ks.take(n), #[trigger] ks[n]) {
        assert forall|n: int| 0 <= n < rest.len() implies ok(rest.take(n), #[trigger] rest[n]) by {
            assert(ks.take(n) =~= rest.take(n));
            assert(ok(ks.take(n), ks[n]));
        }
        assert(ok(ks.take(last), ks[last]));
    }
    if ok(rest, ks.last()) && forall|n: int|
        0 <= n < rest.len() ==> ok(rest.take(n), #[trigger] rest[n]) {
        assert forall|n: int| 0 <= n < ks.len() implies ok(ks.take(n), #[trigger] ks[n]) by {
            if n < last {
                assert(ks.take(n) =~= rest.take(n));
                assert(ok(rest.take(n), rest[n]));
            }
        }
    }
}

/// The lines may follow each other where all but the last may and it may follow
/// them.
proof fn following_step(ks: Seq<LineView>, floats: FloatsView)
    requires
        ks.len() > 0,
    ensures
        all_may_follow(ks, floats) <==> all_may_follow(ks.drop_last(), floats) && may_follow(
            ks.drop_last(),
            ks.last(),
            floats,
        ),
{
    let ok = |before: Seq<LineView>, line: LineView| may_follow(before, line, floats);
    let rest = ks.drop_last();
    prefix_step(ks, ok);
    assert(all_may_follow(ks, floats) <==> forall|n: int|
        0 <= n < ks.len() ==> ok(ks.take(n), #[trigger] ks[n]));
    assert(all_may_follow(rest, floats) <==> forall|n: int|
        0 <= n < rest.len() ==> ok(rest.take(n), #[trigger] rest[n]));
}

/// Any line keeps what is said of a document.
proof fn line_fits(ks: Seq<LineView>, doc: DocView, floats: FloatsView)
    requires
        ks.len() > 0,
        doc_fits(ks.drop_last(), doc, floats),
    ensures
        !(ks.last() is Include) ==> match doc.after_line(0, ks.last(), floats) {
            Ok(next) => may_follow(ks.drop_last(), ks.last(), floats) && doc_fits(ks, next, floats),
            Err(_) => !may_follow(ks.drop_last(), ks.last(), floats),
        },
{
    match ks.last() {
        LineView::Include(_) => {},
        LineView::Window(_) => detection_line_fits(ks, doc, ks.last(), floats),
        LineView::Throttle(_) => detection_line_fits(ks, doc, ks.last(), floats),
        LineView::Content(_) => if doc.section == Section::Detection {
            detection_line_fits(ks, doc, ks.last(), floats);
        } else {
            action_line_fits(ks, doc, ks.last(), floats);
        },
        _ => header_fits(ks, doc, ks.last(), floats),
    }
}

proof fn empty_document_fits(ks: Seq<LineView>, floats: FloatsView)
    requires
        ks.len() == 0,
    ensures
        doc_fits(ks, DocView::empty(), floats),
{
    reveal(doc_fits);
    let doc = DocView::empty();
    assert(doc.groups.map_values(|g: GroupView| g.name) =~= Seq::empty());
    assert(doc.lists.map_values(|l: ListView| l.name) =~= Seq::empty());
}

proof fn documents_fit(ks: Seq<LineView>, floats: FloatsView)
    ensures
        match stepped(ks, floats) {
            Some(doc) => all_may_follow(ks, floats) && doc_fits(ks, doc, floats),
            None => !all_may_follow(ks, floats),
        },
    decreases ks.len(),
{
    if ks.len() == 0 {
        empty_document_fits(ks, floats);
    } else {
        documents_fit(ks.drop_last(), floats);
        following_step(ks, floats);
        if let Some(doc) = stepped(ks.drop_last(), floats) {
            line_fits(ks, doc, floats);
        }
    }
}

/// The actions of a name are those of the one Action group that has it.
proof fn actions_are_found(lists: Seq<ListView>, name: Seq<char>)
    requires
        forall|i: int, j: int|
            0 <= i < j < lists.len() ==> (#[trigger] lists[i]).name != (#[trigger] lists[j]).name,
    ensures
        !has_list(lists, name) ==> actions_for(lists, name).len() == 0,
        forall|i: int|
            0 <= i < lists.len() && (#[trigger] lists[i]).name == name ==> actions_for(lists, name)
                == lists[i].actions,
    decreases lists.len(),
{
    if lists.len() > 0 {
        let rest = lists.drop_first();
        assert forall|i: int, j: int| 0 <= i < j < rest.len() implies (#[trigger] rest[i]).name != (
        #[trigger] rest[j]).name by {
            assert(lists[i + 1].name != lists[j + 1].name);
        }
        actions_are_found(rest, name);
        if has_list(rest, name) {
            let i = choose|i: int| 0 <= i < rest.len() && (#[trigger] rest[i]).name == name;
            assert(lists[i + 1].name == name);
        }
        if lists[0].name == name {
            assert forall|i: int| 0 <= i < lists.len() && (#[trigger] lists[i]).name
                == name implies actions_for(lists, name) == lists[i].actions by {
                if i > 0 {
                    assert(lists[0].name != lists[i].name);
                }
            }
        } else {
            assert forall|i: int| 0 <= i < lists.len() && (#[trigger] lists[i]).name
                == name implies actions_for(lists, name) == lists[i].actions by {
                assert(rest[i - 1] == lists[i]);
            }
        }
    }
}

/// A rule says what the lines of its groups say: each condition and each action is
/// that of one line, in order; the last window and the last throttle hold, and
/// without one the default window and no throttle.
pub open spec fn says(
    ks: Seq<LineView>,
    rule: RuleView,
    window: Duration,
    floats: FloatsView,
) -> bool {
    let conditions = contents_in(ks, Section::Detection, rule.name);
    let actions = contents_in(ks, Section::Action, rule.name);
    &&& rule.conditions.len() == conditions.len()
    &&& forall|k: int|
        0 <= k < conditions.len() ==> expression_of(#[trigger] conditions[k], floats) == Ok::<
            CondView,
            Seq<char>,
        >(rule.conditions[k])
    &&& rule.actions.len() == actions.len()
    &&& forall|k: int|
        0 <= k < actions.len() ==> action_of(#[trigger] actions[k]) == Ok::<
            ActionView,
            Seq<char>,
        >(rule.actions[k])
    &&& match last_window(windows_in(ks, rule.name)) {
        Some(d) => rule.window == d,
        None => rule.window == window,
    }
    &&& rule.throttle == last_throttle(throttles_in(ks, rule.name))
}

proof fn no_list_no_actions(ks: Seq<LineView>, doc: DocView, name: Seq<char>, floats: FloatsView)
    requires
        doc_fits(ks, doc, floats),
    ensures
        ({
            let texts = contents_in(ks, Section::Action, name);
            let actions = actions_for(doc.lists, name);
            &&& actions.len() == texts.len()
            &&& forall|k: int|
                0 <= k < texts.len() ==> action_of(#[trigger] texts[k]) == Ok::<
                    ActionView,
                    Seq<char>,
                >(actions[k])
        }),
{
    reveal(doc_fits);
    actions_are_found(doc.lists, name);
    let names = doc.lists.map_values(|l: ListView| l.name);
    if has_list(doc.lists, name) {
        let i = choose|i: int| 0 <= i < doc.lists.len() && (#[trigger] doc.lists[i]).name == name;
        assert(list_fits(ks, doc.lists[i]));
    } else {
        if names.contains(name) {
            let i = choose|i: int| 0 <= i < names.len() && names[i] == name;
            assert(doc.lists[i].name == name);
        }
        lines_need_headers(ks, Section::Action, name);
    }
}

/// The rules of a text are those of its Detection groups, in order, and each says
/// what its lines say. A text has rules exactly where each line may follow those
/// before it and each Detection group has an action.
pub proof fn rules_are_groups_of_lines(text: Seq<char>, window: Duration, floats: FloatsView)
    ensures
        ({
            let ks = kinds(text);
            let names = names_in(ks, Section::Detection);
            match source_rules(text, window, floats) {
                Ok(rules) => {
                    &&& all_may_follow(ks, floats)
                    &&& rules.len() == names.len()
                    &&& forall|i: int|
                        0 <= i < rules.len() ==> {
                            &&& (#[trigger] rules[i]).name == names[i]
                            &&& rules[i].actions.len() > 0
                            &&& says(ks, rules[i], window, floats)
                        }
                },
                Err(_) => {
                    ||| !all_may_follow(ks, floats)
                    ||| exists|i: int|
                        0 <= i < names.len() && contents_in(
                            ks,
                            Section::Action,
                            #[trigger] names[i],
                        ).len() == 0
                },
            }
        }),
{
    let ks = kinds(text);
    let names = names_in(ks, Section::Detection);
    sources_are_stepped(text, window, floats);
    documents_fit(ks, floats);
    if let Some(doc) = stepped(ks, floats) {
        reveal(doc_fits);
        groups_make_rules(doc.groups, doc.lists, window);
        match rules_of(doc.groups, doc.lists, window) {
            Ok(rules) => {
                assert(rules + doc.included =~= rules);
                assert forall|i: int| 0 <= i < rules.len() implies {
                    &&& (#[trigger] rules[i]).name == names[i]
                    &&& rules[i].actions.len() > 0
                    &&& says(ks, rules[i], window, floats)
                } by {
                    assert(rules[i] == rule_for(doc.groups[i], doc.lists, window));
                    assert(group_fits(ks, doc.groups[i], floats));
                    no_list_no_actions(ks, doc, rules[i].name, floats);
                }
            },
            Err(_) => {
                let i = choose|i: int|
                    0 <= i < doc.groups.len() && actions_for(
                        doc.lists,
                        (#[trigger] doc.groups[i]).name,
                    ).len() == 0;
                no_list_no_actions(ks, doc, doc.groups[i].name, floats);
                assert(names[i] == doc.groups[i].name);
            },
        }
    }
}

// ---------------------------------------------------------------------
// Messages
// ---------------------------------------------------------------------

/// Why a line may not follow these.
pub open spec fn complaint(ks: Seq<LineView>, line: LineView, floats: FloatsView) -> Seq<char> {
    let s = section_after(ks);
    let inside = group_after(ks) is Some;
    match line {
        LineView::Group(name) => match s {
            Section::Detection => "duplicate Detection group '"@ + name + "'"@,
            Section::Action => "duplicate Action group '"@ + name + "'"@,
            Section::Outside => "group '"@ + name + "' outside any section"@,
        },
        LineView::Window(text) => if duration_of(text) is None {
            "bad window '"@ + text + "'"@
        } else {
            "'window:' only valid inside a Detection group"@
        },
        LineView::Throttle(text) => if throttle_of(text) is None {
            "bad throttle '"@ + text + "'"@
        } else {
            "'throttle:' only valid inside a Detection group"@
        },
        LineView::Content(text) => match s {
            Section::Detection => if inside {
                expression_of(text, floats)->Err_0
            } else {
                "condition outside any Detection group"@
            },
            Section::Action => if inside {
                action_of(text)->Err_0
            } else {
                "action outside any Action group"@
            },
            Section::Outside => "content outside any section"@,
        },
        LineView::Include(None) => "include needs a \"path\""@,
        LineView::Include(Some(_)) => "include has no base directory"@,
        _ => Seq::empty(),
    }
}

/// Lines can be read exactly where each may follow those before it.
pub proof fn stepping_is_following(ks: Seq<LineView>, floats: FloatsView)
    ensures
        stepped(ks, floats) is Some <==> all_may_follow(ks, floats),
{
    documents_fit(ks, floats);
}

/// A line that may not follow is refused with its number and the reason.
pub proof fn refusals_say_why(ks: Seq<LineView>, line: LineView, n: nat, floats: FloatsView)
    requires
        all_may_follow(ks, floats),
        !may_follow(ks, line, floats),
        !(line is Include),
    ensures
        stepped(ks, floats)->0.after_line(n, line, floats) == Err::<DocView, Seq<char>>(
            "line "@ + decimal(n) + ": "@ + complaint(ks, line, floats),
        ),
{
    documents_fit(ks, floats);
    let doc = stepped(ks, floats)->0;
    let longer = ks.push(line);
    assert(longer.drop_last() =~= ks);
    line_fits(longer, doc, floats);
    numbers_only_matter_in_messages(doc, 0, n, line, floats);
    reveal(doc_fits);
}

/// Where a line may not follow those before it, the message names the first such
/// line by its number, counted from one, and says why.
pub proof fn first_wrong_line_is_named(
    text: Seq<char>,
    n: int,
    window: Duration,
    floats: FloatsView,
)
    requires
        0 <= n < kinds(text).len(),
        all_may_follow(kinds(text).take(n), floats),
        !may_follow(kinds(text).take(n), kinds(text)[n], floats),
    ensures
        source_rules(text, window, floats) == Err::<Seq<RuleView>, Seq<char>>(
            "line "@ + decimal((n + 1) as nat) + ": "@ + complaint(
                kinds(text).take(n),
                kinds(text)[n],
                floats,
            ),
        ),
{
    let ks = kinds(text);
    let ls = lines(text);
    let w = World { files: Seq::empty(), floats, window };
    let none: Paths = Set::empty();
    stepping_is_following(ks.take(n), floats);
    reading_is_stepping(w, ls, ks, n, none, none);
    assert(ks[n] == line_of(ls[n]));
    if !(ks[n] is Include) {
        refusals_say_why(ks.take(n), ks[n], (n + 1) as nat, floats);
    }
}

proof fn first_idle_group(
    groups: Seq<GroupView>,
    lists: Seq<ListView>,
    window: Duration,
    i: int,
)
    requires
        0 <= i < groups.len(),
        forall|k: int|
            0 <= k < i ==> actions_for(lists, (#[trigger] groups[k]).name).len() > 0,
        actions_for(lists, groups[i].name).len() == 0,
    ensures
        rules_of(groups, lists, window) == Err::<Seq<RuleView>, Seq<char>>(
            "rule '"@ + groups[i].name
                + "' has a Detection group but no matching Action group (a rule with no actions never produces output)"@,
        ),
    decreases groups.len(),
{
    let rest = groups.drop_last();
    if i < groups.len() - 1 {
        assert forall|k: int| 0 <= k < i implies actions_for(
            lists,
            (#[trigger] rest[k]).name,
        ).len() > 0 by {
            assert(rest[k] == groups[k]);
        }
        first_idle_group(rest, lists, window, i);
    } else {
        groups_make_rules(rest, lists, window);
        if rules_of(rest, lists, window) is Err {
            let k = choose|k: int|
                0 <= k < rest.len() && actions_for(lists, (#[trigger] rest[k]).name).len() == 0;
            assert(rest[k] == groups[k]);
        }
    }
}

/// Where each line is right and a Detection group has no action, the message names
/// the first such group.
pub proof fn first_rule_without_action_is_named(
    text: Seq<char>,
    i: int,
    window: Duration,
    floats: FloatsView,
)
    requires
        all_may_follow(kinds(text), floats),
        0 <= i < names_in(kinds(text), Section::Detection).len(),
        forall|k: int|
            0 <= k < i ==> contents_in(
                kinds(text),
                Section::Action,
                #[trigger] names_in(kinds(text), Section::Detection)[k],
            ).len() > 0,
        contents_in(
            kinds(text),
            Section::Action,
            names_in(kinds(text), Section::Detection)[i],
        ).len() == 0,
    ensures
        source_rules(text, window, floats) == Err::<Seq<RuleView>, Seq<char>>(
            "rule '"@ + names_in(kinds(text), Section::Detection)[i]
                + "' has a Detection group but no matching Action group (a rule with no actions never produces output)"@,
        ),
{
    let ks = kinds(text);
    let ls = lines(text);
    let names = names_in(ks, Section::Detection);
    let w = World { files: Seq::empty(), floats, window };
    let none: Paths = Set::empty();
    documents_fit(ks, floats);
    reading_is_stepping(w, ls, ks, ls.len() as int, none, none);
    assert(ks.take(ls.len() as int) =~= ks);
    let doc = stepped(ks, floats)->0;
    reveal(doc_fits);
    assert forall|k: int| 0 <= k <= i implies names[k] == (#[trigger] doc.groups[k]).name by {}
    assert forall|k: int| 0 <= k < i implies actions_for(
        doc.lists,
        (#[trigger] doc.groups[k]).name,
    ).len() > 0 by {
        no_list_no_actions(ks, doc, doc.groups[k].name, floats);
        assert(contents_in(ks, Section::Action, names[k]).len() > 0);
    }
    no_list_no_actions(ks, doc, doc.groups[i].name, floats);
    first_idle_group(doc.groups, doc.lists, window, i);
}

} // verus!
