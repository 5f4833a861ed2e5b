//! What a line that includes a file adds to the rules of a text.

use crate::ast::RuleView;
use crate::document::{line_of, rules_of, DocView, LineView, Section};
use crate::floats::FloatsView;
use crate::parser::{
    doc_after, file_rules, find_source, loaded, rules_in, source_rules, Paths, RequestView,
    SourceView, StopView, World,
};
use crate::placing::{
    all_may_follow, complaint, kinds, may_follow, names_in, numbers_only_matter_in_messages,
    refusals_say_why, rules_are_groups_of_lines, sources_are_stepped, stepped,
    stepping_is_following,
};
use crate::text::{decimal, lines};
use vstd::prelude::*;

verus! {

/// The files that are done before line `n`, counted from zero, of the file at
/// `from`: each line before it that includes a file has loaded it.
pub open spec fn done_before(
    w: World,
    from: Seq<char>,
    ks: Seq<LineView>,
    n: int,
    stack: Paths,
    done: Paths,
) -> Paths
    decreases n,
{
    if n <= 0 {
        done
    } else {
        let before = done_before(w, from, ks, n - 1, stack, done);
        match ks[n - 1] {
            LineView::Include(Some(path)) => loaded(w, (from, path), stack, before).1,
            _ => before,
        }
    }
}

/// What line `n` loads, where it includes a file.
pub open spec fn loaded_by(
    w: World,
    from: Seq<char>,
    ks: Seq<LineView>,
    n: int,
    stack: Paths,
    done: Paths,
) -> Result<Seq<RuleView>, StopView> {
    match ks[n] {
        LineView::Include(Some(path)) => loaded(
            w,
            (from, path),
            stack,
            done_before(w, from, ks, n, stack, done),
        ).0,
        LineView::Include(None) => Err(StopView::Failed(Seq::empty())),
        _ => Ok(Seq::empty()),
    }
}

/// Each of the first `n` lines that includes a file names one that loads.
pub open spec fn all_load(
    w: World,
    from: Seq<char>,
    ks: Seq<LineView>,
    n: int,
    stack: Paths,
    done: Paths,
) -> bool {
    forall|i: int| 0 <= i < n ==> #[trigger] loaded_by(w, from, ks, i, stack, done) is Ok
}

/// What the first `n` lines load, one after the other.
pub open spec fn brought(
    w: World,
    from: Seq<char>,
    ks: Seq<LineView>,
    n: int,
    stack: Paths,
    done: Paths,
) -> Seq<RuleView>
    decreases n,
{
    if n <= 0 {
        Seq::empty()
    } else {
        brought(w, from, ks, n - 1, stack, done) + loaded_by(
            w,
            from,
            ks,
            n - 1,
            stack,
            done,
        )->Ok_0
    }
}

/// The lines that include no file.
pub open spec fn own_lines(ks: Seq<LineView>) -> Seq<LineView> {
    ks.filter(|k: LineView| !(k is Include))
}

proof fn own_lines_step(ks: Seq<LineView>, n: int)
    requires
        0 <= n < ks.len(),
    ensures
        own_lines(ks.take(n + 1)) == if ks[n] is Include {
            own_lines(ks.take(n))
        } else {
            own_lines(ks.take(n)).push(ks[n])
        },
{
    reveal(Seq::filter);
    assert(ks.take(n + 1).drop_last() =~= ks.take(n));
    assert(ks.take(n + 1).last() == ks[n]);
}

proof fn own_lines_of_none(ks: Seq<LineView>)
    requires
        ks.len() == 0,
    ensures
        own_lines(ks).len() == 0,
{
    reveal(Seq::filter);
}

proof fn stepping_adds_no_rule(ks: Seq<LineView>, floats: FloatsView)
    ensures
        stepped(ks, floats) matches Some(doc) ==> doc.included.len() == 0,
    decreases ks.len(),
{
    if ks.len() > 0 {
        stepping_adds_no_rule(ks.drop_last(), floats);
    }
}

/// A document with other included rules.
spec fn including(doc: DocView, rules: Seq<RuleView>) -> DocView {
    DocView { included: rules, ..doc }
}

proof fn lines_ignore_included(
    doc: DocView,
    rules: Seq<RuleView>,
    n: nat,
    line: LineView,
    floats: FloatsView,
)
    ensures
        match (
            doc.after_line(0, line, floats),
            including(doc, rules).after_line(n, line, floats),
        ) {
            (Ok(one), Ok(other)) => other == including(one, rules),
            (Err(_), Err(_)) => true,
            _ => false,
        },
{
    numbers_only_matter_in_messages(including(doc, rules), 0, n, line, floats);
}

proof fn reading_a_file(
    w: World,
    from: Seq<char>,
    ls: Seq<Seq<char>>,
    ks: Seq<LineView>,
    n: int,
    stack: Paths,
    done: Paths,
)
    requires
        ks == ls.map_values(|l: Seq<char>| line_of(l)),
        0 <= n <= ls.len(),
    ensures
        ({
            let all = doc_after(w, Some(from), ls, 0, DocView::empty(), stack, done);
            let own = stepped(own_lines(ks.take(n)), w.floats);
            if own is Some && all_load(w, from, ks, n, stack, done) {
                all == doc_after(
                    w,
                    Some(from),
                    ls,
                    n,
                    including(own->0, brought(w, from, ks, n, stack, done)),
                    stack,
                    done_before(w, from, ks, n, stack, done),
                )
            } else {
                all.0 is Err
            }
        }),
    decreases n,
{
    if n == 0 {
        own_lines_of_none(ks.take(0));
        assert(stepped(own_lines(ks.take(0)), w.floats) == Some(DocView::empty()));
        assert(including(DocView::empty(), Seq::empty()) == DocView::empty());
    } else {
        let m = n - 1;
        reading_a_file(w, from, ls, ks, m, stack, done);
        own_lines_step(ks, m);
        assert(ks[m] == line_of(ls[m]));
        let before = own_lines(ks.take(m));
        let own = stepped(before, w.floats);
        if own is Some && all_load(w, from, ks, m, stack, done) {
            let doc = including(own->0, brought(w, from, ks, m, stack, done));
            match ks[m] {
                LineView::Include(None) => {
                    assert(loaded_by(w, from, ks, m, stack, done) is Err);
                },
                LineView::Include(Some(path)) => {
                    if loaded_by(w, from, ks, m, stack, done) is Ok {
                        assert(all_load(w, from, ks, n, stack, done));
                        assert(doc.after_include(loaded_by(w, from, ks, m, stack, done)->Ok_0)
                            == including(own->0, brought(w, from, ks, n, stack, done)));
                    }
                },
                line => {
                    lines_ignore_included(own->0, doc.included, n as nat, line, w.floats);
                    assert(before.push(line).drop_last() =~= before);
                    assert(before.push(line).last() == line);
                    assert(loaded_by(w, from, ks, m, stack, done)->Ok_0 =~= Seq::empty());
                    assert(brought(w, from, ks, n, stack, done) =~= doc.included);
                    assert(all_load(w, from, ks, n, stack, done));
                },
            }
        } else if own is None {
            if !(ks[m] is Include) {
                assert(before.push(ks[m]).drop_last() =~= before);
            }
        } else {
            let i = choose|i: int|
                0 <= i < m && !(#[trigger] loaded_by(w, from, ks, i, stack, done) is Ok);
            assert(!all_load(w, from, ks, n, stack, done));
        }
    }
}

/// Loading loses no rule. The rules of a file are those that its text has without
/// the lines that include files, followed by what each of those lines loads, in
/// order. There are rules exactly where that text has rules and each of those
/// lines loads its file; `rest` is any text with the remaining lines.
pub proof fn loading_loses_no_rule(
    w: World,
    from: Seq<char>,
    text: Seq<char>,
    rest: Seq<char>,
    stack: Paths,
    done: Paths,
)
    requires
        kinds(rest) == own_lines(kinds(text)),
    ensures
        ({
            let ks = kinds(text);
            let n = ks.len() as int;
            match (
                rules_in(w, Some(from), text, stack, done),
                source_rules(rest, w.window, w.floats),
            ) {
                ((Ok(rules), after), Ok(own)) => {
                    &&& all_load(w, from, ks, n, stack, done)
                    &&& rules == own + brought(w, from, ks, n, stack, done)
                    &&& after == done_before(w, from, ks, n, stack, done)
                },
                ((Ok(_), _), Err(_)) => false,
                ((Err(_), _), Ok(_)) => !all_load(w, from, ks, n, stack, done),
                ((Err(_), _), Err(_)) => true,
            }
        }),
{
    let ks = kinds(text);
    let ls = lines(text);
    let n = ks.len() as int;
    reading_a_file(w, from, ls, ks, n, stack, done);
    assert(ks.take(n) =~= ks);
    sources_are_stepped(rest, w.window, w.floats);
    stepping_adds_no_rule(own_lines(ks), w.floats);
    if let Some(doc) = stepped(own_lines(ks), w.floats) {
        if let Ok(own) = rules_of(doc.groups, doc.lists, w.window) {
            assert(own + doc.included =~= own);
        }
    }
}

/// The first line that is wrong, or whose file does not load, decides why a file has
/// no rules: a wrong line is named by its number, counted from one, and what went
/// wrong in an included file is reported as it is.
pub proof fn first_failure_is_reported(
    w: World,
    from: Seq<char>,
    text: Seq<char>,
    n: int,
    stack: Paths,
    done: Paths,
)
    requires
        0 <= n < kinds(text).len(),
        all_may_follow(own_lines(kinds(text).take(n)), w.floats),
        all_load(w, from, kinds(text), n, stack, done),
    ensures
        ({
            let ks = kinds(text);
            let before = own_lines(ks.take(n));
            let so_far = done_before(w, from, ks, n, stack, done);
            let head = "line "@ + decimal((n + 1) as nat) + ": "@;
            let result = rules_in(w, Some(from), text, stack, done);
            match ks[n] {
                LineView::Include(None) => result == (
                    Err::<Seq<RuleView>, StopView>(
                        StopView::Failed(head + "include needs a \"path\""@),
                    ),
                    so_far,
                ),
                LineView::Include(Some(path)) => loaded(
                    w,
                    (from, path),
                    stack,
                    so_far,
                ).0 is Err ==> result == loaded(w, (from, path), stack, so_far),
                line => !may_follow(before, line, w.floats) ==> result == (
                    Err::<Seq<RuleView>, StopView>(
                        StopView::Failed(head + complaint(before, line, w.floats)),
                    ),
                    so_far,
                ),
            }
        }),
{
    let ks = kinds(text);
    let ls = lines(text);
    let before = own_lines(ks.take(n));
    stepping_is_following(before, w.floats);
    reading_a_file(w, from, ls, ks, n, stack, done);
    assert(ks[n] == line_of(ls[n]));
    let own = stepped(before, w.floats)->0;
    let doc = including(own, brought(w, from, ks, n, stack, done));
    if !(ks[n] is Include) && !may_follow(before, ks[n], w.floats) {
        let number = (n + 1) as nat;
        refusals_say_why(before, ks[n], number, w.floats);
        same_messages(own, doc.included, number, ks[n], w.floats);
    }
}

proof fn same_messages(
    doc: DocView,
    rules: Seq<RuleView>,
    n: nat,
    line: LineView,
    floats: FloatsView,
)
    ensures
        match (doc.after_line(n, line, floats), including(doc, rules).after_line(n, line, floats)) {
            (Ok(_), Ok(_)) => true,
            (Err(one), Err(other)) => one == other,
            _ => false,
        },
{
}

proof fn brought_grows(
    w: World,
    from: Seq<char>,
    ks: Seq<LineView>,
    n: int,
    i: int,
    k: int,
    stack: Paths,
    done: Paths,
)
    requires
        0 <= i < n,
        0 <= k < loaded_by(w, from, ks, i, stack, done)->Ok_0.len(),
    ensures
        brought(w, from, ks, n, stack, done).contains(
            loaded_by(w, from, ks, i, stack, done)->Ok_0[k],
        ),
    decreases n,
{
    let before = brought(w, from, ks, n - 1, stack, done);
    let all = brought(w, from, ks, n, stack, done);
    let rule = loaded_by(w, from, ks, i, stack, done)->Ok_0[k];
    if i == n - 1 {
        assert(all[before.len() + k] == rule);
    } else {
        brought_grows(w, from, ks, n - 1, i, k, stack, done);
        let j = choose|j: int| 0 <= j < before.len() && before[j] == rule;
        assert(all[j] == rule);
    }
}

/// Every rule that a line loads is among the rules of the file.
pub proof fn included_rules_are_there(
    w: World,
    from: Seq<char>,
    text: Seq<char>,
    rest: Seq<char>,
    i: int,
    k: int,
    stack: Paths,
    done: Paths,
)
    requires
        kinds(rest) == own_lines(kinds(text)),
        0 <= i < kinds(text).len(),
        loaded_by(w, from, kinds(text), i, stack, done) matches Ok(rules) && 0 <= k < rules.len(),
    ensures
        rules_in(w, Some(from), text, stack, done).0 matches Ok(rules) ==> rules.contains(
            loaded_by(w, from, kinds(text), i, stack, done)->Ok_0[k],
        ),
{
    let ks = kinds(text);
    let n = ks.len() as int;
    loading_loses_no_rule(w, from, text, rest, stack, done);
    brought_grows(w, from, ks, n, i, k, stack, done);
    if let Ok(rules) = rules_in(w, Some(from), text, stack, done).0 {
        let own = source_rules(rest, w.window, w.floats)->Ok_0;
        let more = brought(w, from, ks, n, stack, done);
        let rule = loaded_by(w, from, ks, i, stack, done)->Ok_0[k];
        let j = choose|j: int| 0 <= j < more.len() && more[j] == rule;
        assert(rules[own.len() + j] == rule);
    }
}

/// The number of rules that the first `n` lines load.
pub open spec fn count_brought(
    w: World,
    from: Seq<char>,
    ks: Seq<LineView>,
    n: int,
    stack: Paths,
    done: Paths,
) -> nat
    decreases n,
{
    if n <= 0 {
        0
    } else {
        count_brought(w, from, ks, n - 1, stack, done) + loaded_by(
            w,
            from,
            ks,
            n - 1,
            stack,
            done,
        )->Ok_0.len()
    }
}

proof fn brought_is_counted(
    w: World,
    from: Seq<char>,
    ks: Seq<LineView>,
    n: int,
    stack: Paths,
    done: Paths,
)
    ensures
        brought(w, from, ks, n, stack, done).len() == count_brought(
            w,
            from,
            ks,
            n,
            stack,
            done,
        ),
    decreases n,
{
    if n > 0 {
        brought_is_counted(w, from, ks, n - 1, stack, done);
    }
}

/// A file has as many rules as it has Detection groups and as its lines load.
pub proof fn rules_are_counted(
    w: World,
    from: Seq<char>,
    text: Seq<char>,
    rest: Seq<char>,
    stack: Paths,
    done: Paths,
)
    requires
        kinds(rest) == own_lines(kinds(text)),
    ensures
        rules_in(w, Some(from), text, stack, done).0 matches Ok(rules) ==> rules.len()
            == names_in(
            own_lines(kinds(text)),
            Section::Detection,
        ).len() + count_brought(w, from, kinds(text), kinds(text).len() as int, stack, done),
{
    loading_loses_no_rule(w, from, text, rest, stack, done);
    rules_are_groups_of_lines(rest, w.window, w.floats);
    brought_is_counted(w, from, kinds(text), kinds(text).len() as int, stack, done);
}

// ---------------------------------------------------------------------
// Files
// ---------------------------------------------------------------------

/// A file that answers a request is found by it: the first of those that do. None
/// is found only where none answers.
pub proof fn the_first_answer_is_found(files: Seq<SourceView>, ask: RequestView)
    ensures
        match find_source(files, ask) {
            Some(f) => f.request == ask && exists|i: int|
                0 <= i < files.len() && files[i] == f && forall|j: int|
                    0 <= j < i ==> (#[trigger] files[j]).request != ask,
            None => forall|j: int| 0 <= j < files.len() ==> (#[trigger] files[j]).request != ask,
        },
    decreases files.len(),
{
    if files.len() > 0 {
        let rest = files.drop_first();
        the_first_answer_is_found(rest, ask);
        if files[0].request == ask {
            assert(files[0] == find_source(files, ask)->0);
        } else {
            match find_source(rest, ask) {
                Some(f) => {
                    let i = choose|i: int|
                        0 <= i < rest.len() && rest[i] == f && forall|j: int|
                            0 <= j < i ==> (#[trigger] rest[j]).request != ask;
                    assert(files[i + 1] == f);
                    assert forall|j: int| 0 <= j < i + 1 implies (#[trigger] files[j]).request
                        != ask by {
                        if j > 0 {
                            assert(rest[j - 1].request != ask);
                        }
                    }
                },
                None => {
                    assert forall|j: int| 0 <= j < files.len() implies (
                    #[trigger] files[j]).request != ask by {
                        if j > 0 {
                            assert(rest[j - 1].request != ask);
                        }
                    }
                },
            }
        }
    }
}

/// The same of a file that is found and was not read before: its own rules come
/// first, then those of the files that its lines include, whose paths are relative
/// to its own. While it is being read it counts as such, and then as done.
pub proof fn files_load_with_what_they_include(
    w: World,
    ask: RequestView,
    rest: Seq<char>,
    stack: Paths,
    done: Paths,
)
    ensures
        match find_source(w.files, ask) {
            Some(f) => !stack.contains(f.canon) && !done.contains(f.canon) ==> match f.content {
                Ok(text) => kinds(rest) == own_lines(kinds(text)) ==> {
                    let ks = kinds(text);
                    let n = ks.len() as int;
                    let inner = stack.insert(f.canon);
                    let own = source_rules(rest, w.window, w.floats);
                    let loads = all_load(w, f.path, ks, n, inner, done);
                    match loaded(w, ask, stack, done) {
                        (Ok(rules), after) => {
                            &&& loads && own is Ok
                            &&& rules == own->Ok_0 + brought(w, f.path, ks, n, inner, done)
                            &&& after == done_before(w, f.path, ks, n, inner, done).insert(f.canon)
                        },
                        (Err(_), _) => !loads || own is Err,
                    }
                },
                Err(_) => loaded(w, ask, stack, done).0 is Err,
            },
            None => true,
        },
{
    if let Some(f) = find_source(w.files, ask) {
        if let Ok(text) = f.content {
            if kinds(rest) == own_lines(kinds(text)) {
                loading_loses_no_rule(w, f.path, text, rest, stack.insert(f.canon), done);
            }
        }
    }
}

/// A file that includes none, and was not read before, has the rules of its text.
/// One that cannot be read, or has no right text, has none. A file that is missing
/// is asked for.
pub proof fn files_have_the_rules_of_their_text(
    w: World,
    ask: RequestView,
    stack: Paths,
    done: Paths,
)
    ensures
        match find_source(w.files, ask) {
            None => loaded(w, ask, stack, done) == (
                Err::<Seq<RuleView>, StopView>(StopView::Missing(ask)),
                done,
            ),
            Some(f) => !stack.contains(f.canon) && !done.contains(f.canon) ==> match f.content {
                Err(e) => loaded(w, ask, stack, done) == (
                    Err::<Seq<RuleView>, StopView>(
                        StopView::Failed("read "@ + f.path + ": "@ + e),
                    ),
                    done,
                ),
                Ok(text) => (forall|i: int|
                    0 <= i < kinds(text).len() ==> !(#[trigger] kinds(text)[i] is Include)) ==> {
                    let (result, after) = loaded(w, ask, stack, done);
                    &&& after == done.insert(f.canon)
                    &&& match (result, source_rules(text, w.window, w.floats)) {
                        (Ok(one), Ok(other)) => one == other,
                        (Err(StopView::Failed(_)), Err(_)) => true,
                        _ => false,
                    }
                },
            },
        },
{
    if let Some(f) = find_source(w.files, ask) {
        if !stack.contains(f.canon) && !done.contains(f.canon) {
            if let Ok(text) = f.content {
                let ks = kinds(text);
                if forall|i: int| 0 <= i < ks.len() ==> !(#[trigger] ks[i] is Include) {
                    let inner = stack.insert(f.canon);
                    all_lines_are_own(ks);
                    loading_loses_no_rule(w, f.path, text, text, inner, done);
                    nothing_is_brought(w, f.path, ks, ks.len() as int, inner, done);
                    assert forall|i: int| 0 <= i < ks.len() implies !(line_of(
                        #[trigger] lines(text)[i],
                    ) is Include) by {
                        assert(ks[i] == line_of(lines(text)[i]));
                    }
                    plain_lines_fail(w, f.path, lines(text), 0, DocView::empty(), inner, done);
                    if let Ok(own) = source_rules(text, w.window, w.floats) {
                        assert(own + Seq::<RuleView>::empty() =~= own);
                    }
                }
            }
        }
    }
}

/// The file that parsing starts with is asked for by no file, and nothing was read
/// before it: it is not done and not being read, so its own rules are always among
/// those that are loaded.
pub proof fn parsing_starts_from_nothing(w: World, path: Seq<char>, rest: Seq<char>)
    ensures
        ({
            let ask = (Seq::<char>::empty(), path);
            let none: Paths = Set::empty();
            match find_source(w.files, ask) {
                None => file_rules(w, path) == Err::<Seq<RuleView>, StopView>(
                    StopView::Missing(ask),
                ),
                Some(f) => match f.content {
                    Err(e) => file_rules(w, path) == Err::<Seq<RuleView>, StopView>(
                        StopView::Failed("read "@ + f.path + ": "@ + e),
                    ),
                    Ok(text) => kinds(rest) == own_lines(kinds(text)) ==> {
                        let ks = kinds(text);
                        let n = ks.len() as int;
                        let inner = none.insert(f.canon);
                        let own = source_rules(rest, w.window, w.floats);
                        let loads = all_load(w, f.path, ks, n, inner, none);
                        match file_rules(w, path) {
                            Ok(rules) => {
                                &&& loads && own is Ok
                                &&& rules == own->Ok_0 + brought(w, f.path, ks, n, inner, none)
                            },
                            Err(_) => !loads || own is Err,
                        }
                    },
                },
            }
        }),
{
    let none: Paths = Set::empty();
    files_load_with_what_they_include(w, (Seq::empty(), path), rest, none, none);
}

proof fn all_lines_are_own(ks: Seq<LineView>)
    requires
        forall|i: int| 0 <= i < ks.len() ==> !(#[trigger] ks[i] is Include),
    ensures
        own_lines(ks) == ks,
    decreases ks.len(),
{
    reveal(Seq::filter);
    if ks.len() > 0 {
        assert(forall|i: int| 0 <= i < ks.len() - 1 ==> #[trigger] ks.drop_last()[i] == ks[i]);
        all_lines_are_own(ks.drop_last());
        assert(ks.drop_last().push(ks.last()) =~= ks);
    }
}

proof fn nothing_is_brought(
    w: World,
    from: Seq<char>,
    ks: Seq<LineView>,
    n: int,
    stack: Paths,
    done: Paths,
)
    requires
        forall|i: int| 0 <= i < ks.len() ==> !(#[trigger] ks[i] is Include),
        0 <= n <= ks.len(),
    ensures
        all_load(w, from, ks, n, stack, done),
        brought(w, from, ks, n, stack, done) == Seq::<RuleView>::empty(),
        done_before(w, from, ks, n, stack, done) == done,
    decreases n,
{
    if n > 0 {
        nothing_is_brought(w, from, ks, n - 1, stack, done);
        assert(brought(w, from, ks, n, stack, done) =~= Seq::<RuleView>::empty());
    }
}

/// Lines that include no file load none, and fail by themselves.
proof fn plain_lines_fail(
    w: World,
    from: Seq<char>,
    ls: Seq<Seq<char>>,
    n: int,
    doc: DocView,
    stack: Paths,
    done: Paths,
)
    requires
        0 <= n <= ls.len(),
        forall|i: int| 0 <= i < ls.len() ==> !(line_of(#[trigger] ls[i]) is Include),
    ensures
        doc_after(w, Some(from), ls, n, doc, stack, done).1 == done,
        doc_after(w, Some(from), ls, n, doc, stack, done).0 matches Err(stop) ==> stop is Failed,
    decreases ls.len() - n,
{
    if n < ls.len() {
        if let Ok(next) = doc.after_line((n + 1) as nat, line_of(ls[n]), w.floats) {
            plain_lines_fail(w, from, ls, n + 1, next, stack, done);
        }
    }
}

} // verus!
