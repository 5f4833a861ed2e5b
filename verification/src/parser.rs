//! `.waza` parser: turns rule files into rules.
//!
//! The format is YAML-like and tolerates any indentation. Two sections,
//! `Detection` and `Action`, hold named groups. A Detection group is a list of
//! condition lines, any of which suffices, with optional `window:` and
//! `throttle:` directives; the Action group of the same name lists what is done
//! when the rule matches. A line may include another file, whose rules follow
//! those of the including one.
//!
//! ```text
//! - Detection:
//!   - Group1:
//!       window: 10s
//!       throttle: 1/min
//!       - kernel_callback.process_create.pid == 4688
//!       - include "./network.waza"
//! - Action:
//!   - Group1:
//!     - log
//!     - alert "Suspicious process"
//! ```
//!
//! The library reads no file. It is handed the files that were read so far, and
//! where it needs one more it says which.

use crate::ast::{Rule, RuleView};
use crate::directive::secs;
use crate::document::{
    at_line, classify, core_of, failures_ignore_window, finished, groups_make_rules, line_core, line_includes_nothing,
    line_keeps_wf, line_needs_own_floats, line_of, message_at, rule_for, rules_of, Doc, DocView, Line,
    LineView,
};
use crate::floats::{agree, agree_on_parts, FloatTable, FloatsView};
use crate::lexer::{collect_float_texts, float_texts};
use crate::text::{join, lines, split_lines, str_eq, to_chars};
use crate::time::Duration;
use vstd::prelude::*;
use vstd::string::StringExecFns;

verus! {

/// The correlation window, in seconds, of a group that declares none.
pub const DEFAULT_WINDOW: u64 = 5;

/// The correlation window of a group that declares none.
pub fn default_window() -> (d: Duration)
    ensures
        d == secs(DEFAULT_WINDOW as nat),
        d.nanos == 5_000_000_000,
{
    Duration::from_secs(DEFAULT_WINDOW)
}

/// One parse error with line and column, for tools that mark the place.
#[derive(Debug, PartialEq)]
pub struct ParseError {
    pub line: u32,
    pub col: u32,
    pub message: String,
}

impl Clone for ParseError {
    fn clone(&self) -> (r: ParseError)
        ensures
            r.line == self.line,
            r.col == self.col,
            r.message@ == self.message@,
    {
        ParseError { line: self.line, col: self.col, message: self.message.clone() }
    }
}

impl ParseError {
    /// The error as a message.
    pub fn display(&self) -> (r: String)
        ensures
            r@ == at_line(self.line as nat, self.message@),
    {
        message_at(self.line as usize, self.message.as_str())
    }
}

// ---------------------------------------------------------------------
// Files
// ---------------------------------------------------------------------

/// A request for a file: the path of the file that asks for it, and the path that
/// is asked for.
pub type RequestView = (Seq<char>, Seq<char>);

/// A request for a file.
#[derive(Debug, PartialEq)]
pub struct Request {
    /// The path of the file that includes it; empty where no file does.
    pub from: String,
    /// Its path, relative to the directory of the file that includes it.
    pub rel: String,
}

impl DeepView for Request {
    type V = RequestView;

    open spec fn deep_view(&self) -> RequestView {
        (self.from@, self.rel@)
    }
}

/// A file, with text as its characters.
pub struct SourceView {
    pub request: RequestView,
    pub path: Seq<char>,
    pub canon: Seq<char>,
    pub content: Result<Seq<char>, Seq<char>>,
}

/// A file that was read, or could not be.
#[derive(Debug)]
pub struct SourceFile {
    /// The request that it answers.
    pub request: Request,
    /// The path at which it was looked for.
    pub path: String,
    /// Its canonical path: two paths to one file have the same.
    pub canon: String,
    /// Its text, or why it could not be read.
    pub content: Result<String, String>,
}

impl DeepView for SourceFile {
    type V = SourceView;

    open spec fn deep_view(&self) -> SourceView {
        SourceView {
            request: self.request.deep_view(),
            path: self.path@,
            canon: self.canon@,
            content: match self.content {
                Ok(text) => Ok(text@),
                Err(e) => Err(e@),
            },
        }
    }
}

/// The first file that answers a request.
pub open spec fn find_source(files: Seq<SourceView>, ask: RequestView) -> Option<SourceView>
    decreases files.len(),
{
    if files.len() == 0 {
        None
    } else if files[0].request == ask {
        Some(files[0])
    } else {
        find_source(files.drop_first(), ask)
    }
}

/// Why there are no rules, with text as its characters.
pub enum StopView {
    Failed(Seq<char>),
    Missing(RequestView),
}

/// Why there are no rules.
#[derive(Debug, PartialEq)]
pub enum Stop {
    /// The rules are wrong, or a file cannot be read; a message.
    Failed(String),
    /// A file is needed that was not handed over.
    Missing(Request),
}

impl DeepView for Stop {
    type V = StopView;

    open spec fn deep_view(&self) -> StopView {
        match self {
            Stop::Failed(e) => StopView::Failed(e@),
            Stop::Missing(ask) => StopView::Missing(ask.deep_view()),
        }
    }
}

/// What parsing depends on besides the text.
pub struct World {
    pub files: Seq<SourceView>,
    pub floats: FloatsView,
    pub window: Duration,
}

/// Canonical paths.
pub type Paths = Set<Seq<char>>;

/// The canonical paths of the files.
pub open spec fn canons(files: Seq<SourceView>) -> Paths {
    files.map_values(|f: SourceView| f.canon).to_set()
}

/// How many files are not being read.
pub open spec fn room(files: Seq<SourceView>, stack: Paths) -> nat {
    canons(files).difference(stack).len()
}

/// A file that was found has its canonical path among those of the files.
proof fn found_is_there(files: Seq<SourceView>, ask: RequestView)
    ensures
        find_source(files, ask) matches Some(f) ==> canons(files).contains(f.canon),
    decreases files.len(),
{
    if files.len() > 0 {
        let all = files.map_values(|f: SourceView| f.canon);
        if files[0].request == ask {
            assert(all[0] == files[0].canon);
        } else {
            found_is_there(files.drop_first(), ask);
            if let Some(f) = find_source(files, ask) {
                let rest = files.drop_first().map_values(|f: SourceView| f.canon);
                let i = choose|i: int| 0 <= i < rest.len() && rest[i] == f.canon;
                assert(all[i + 1] == f.canon);
            }
        }
    }
}

/// Reading one more file leaves fewer that are not being read.
pub proof fn room_shrinks(files: Seq<SourceView>, ask: RequestView, stack: Paths)
    ensures
        find_source(files, ask) matches Some(f) ==> !stack.contains(f.canon) ==> room(
            files,
            stack.insert(f.canon),
        ) < room(files, stack),
{
    found_is_there(files, ask);
    if let Some(f) = find_source(files, ask) {
        let all = canons(files);
        vstd::seq_lib::seq_to_set_is_finite(files.map_values(|f: SourceView| f.canon));
        assert(all.difference(stack.insert(f.canon)) =~= all.difference(stack).remove(f.canon));
    }
}

// ---------------------------------------------------------------------
// Rules of a file
// ---------------------------------------------------------------------

/// A document or why there is none, and the files that are done.
pub type Read = (Result<DocView, StopView>, Paths);

/// Rules or why there are none, and the files that are done.
pub type Loaded = (Result<Seq<RuleView>, StopView>, Paths);

/// The document after the lines from number `n` on, counted from zero. `base` is
/// the path of the file that the lines are of, `stack` holds the files that are
/// being read.
pub open spec fn doc_after(
    w: World,
    base: Option<Seq<char>>,
    ls: Seq<Seq<char>>,
    n: int,
    doc: DocView,
    stack: Paths,
    done: Paths,
) -> Read
    decreases room(w.files, stack), ls.len() - n,
{
    if 0 <= n < ls.len() {
        match line_of(ls[n]) {
            LineView::Include(None) => (
                Err(StopView::Failed(at_line((n + 1) as nat, "include needs a \"path\""@))),
                done,
            ),
            LineView::Include(Some(path)) => match base {
                None => (
                    Err(
                        StopView::Failed(
                            at_line((n + 1) as nat, "include has no base directory"@),
                        ),
                    ),
                    done,
                ),
                Some(from) => {
                    let (result, done) = loaded(w, (from, path), stack, done);
                    match result {
                        Err(stop) => (Err(stop), done),
                        Ok(rules) => doc_after(
                            w,
                            base,
                            ls,
                            n + 1,
                            doc.after_include(rules),
                            stack,
                            done,
                        ),
                    }
                },
            },
            line => match doc.after_line((n + 1) as nat, line, w.floats) {
                Err(e) => (Err(StopView::Failed(e)), done),
                Ok(doc) => doc_after(w, base, ls, n + 1, doc, stack, done),
            },
        }
    } else {
        (Ok(doc), done)
    }
}

/// The rules of a text.
pub open spec fn rules_in(
    w: World,
    base: Option<Seq<char>>,
    text: Seq<char>,
    stack: Paths,
    done: Paths,
) -> Loaded
    decreases room(w.files, stack), lines(text).len() + 1,
{
    let (result, done) = doc_after(w, base, lines(text), 0, DocView::empty(), stack, done);
    match result {
        Err(stop) => (Err(stop), done),
        Ok(doc) => match finished(doc, w.window) {
            Err(e) => (Err(StopView::Failed(e)), done),
            Ok(rules) => (Ok(rules), done),
        },
    }
}

/// The rules of a file. A file that is being read must not be reached again; one
/// that is done adds nothing. A file that was read is done, also where its text is
/// wrong.
pub open spec fn loaded(w: World, ask: RequestView, stack: Paths, done: Paths) -> Loaded
    decreases room(w.files, stack), 0int,
{
    match find_source(w.files, ask) {
        None => (Err(StopView::Missing(ask)), done),
        Some(f) => if stack.contains(f.canon) {
            (Err(StopView::Failed("circular include: "@ + f.canon)), done)
        } else if done.contains(f.canon) {
            (Ok(Seq::empty()), done)
        } else {
            match f.content {
                Err(e) => (Err(StopView::Failed("read "@ + f.path + ": "@ + e)), done),
                Ok(text) => {
                    proof {
                        room_shrinks(w.files, ask, stack);
                    }
                    let (result, done) = rules_in(
                        w,
                        Some(f.path),
                        text,
                        stack.insert(f.canon),
                        done,
                    );
                    (result, done.insert(f.canon))
                },
            }
        },
    }
}

// ---------------------------------------------------------------------
// Laws of inclusion
// ---------------------------------------------------------------------

/// A file that is being read is not read again.
pub proof fn circular_includes_are_refused(w: World, ask: RequestView, stack: Paths, done: Paths)
    requires
        find_source(w.files, ask) matches Some(f) && stack.contains(f.canon),
    ensures
        loaded(w, ask, stack, done) == (
            Err::<Seq<RuleView>, StopView>(
                StopView::Failed("circular include: "@ + find_source(w.files, ask)->0.canon),
            ),
            done,
        ),
{
}

/// A file gives its rules once: once it was loaded, it adds nothing, by whatever
/// request it is reached.
pub proof fn files_are_included_once(
    w: World,
    ask: RequestView,
    other: RequestView,
    stack: Paths,
    done: Paths,
)
    requires
        find_source(w.files, ask) is Some,
        find_source(w.files, other) is Some,
        find_source(w.files, ask)->0.canon == find_source(w.files, other)->0.canon,
    ensures
        ({
            let (result, after) = loaded(w, ask, stack, done);
            result is Ok ==> loaded(w, other, stack, after) == (
                Ok::<Seq<RuleView>, StopView>(Seq::empty()),
                after,
            )
        }),
{
}

/// What is done stays done, and a file that was loaded is done.
pub proof fn done_files_stay_done(w: World, ask: RequestView, stack: Paths, done: Paths)
    ensures
        done.subset_of(loaded(w, ask, stack, done).1),
        loaded(w, ask, stack, done).0 is Ok ==> find_source(w.files, ask) is Some && loaded(
            w,
            ask,
            stack,
            done,
        ).1.contains(find_source(w.files, ask)->0.canon),
    decreases room(w.files, stack), 0int,
{
    if let Some(f) = find_source(w.files, ask) {
        if !stack.contains(f.canon) && !done.contains(f.canon) {
            if let Ok(text) = f.content {
                room_shrinks(w.files, ask, stack);
                lines_keep_done(
                    w,
                    Some(f.path),
                    lines(text),
                    0,
                    DocView::empty(),
                    stack.insert(f.canon),
                    done,
                );
            }
        }
    }
}

proof fn lines_keep_done(
    w: World,
    base: Option<Seq<char>>,
    ls: Seq<Seq<char>>,
    n: int,
    doc: DocView,
    stack: Paths,
    done: Paths,
)
    requires
        0 <= n,
    ensures
        done.subset_of(doc_after(w, base, ls, n, doc, stack, done).1),
    decreases room(w.files, stack), ls.len() - n,
{
    if n < ls.len() {
        match line_of(ls[n]) {
            LineView::Include(None) => {},
            LineView::Include(Some(path)) => {
                if let Some(from) = base {
                    done_files_stay_done(w, (from, path), stack, done);
                    let (result, after) = loaded(w, (from, path), stack, done);
                    if let Ok(rules) = result {
                        lines_keep_done(w, base, ls, n + 1, doc.after_include(rules), stack, after);
                    }
                }
            },
            line => {
                if let Ok(next) = doc.after_line((n + 1) as nat, line, w.floats) {
                    lines_keep_done(w, base, ls, n + 1, next, stack, done);
                }
            },
        }
    }
}

/// Line `m` includes a file of `set`.
pub open spec fn leads_into(
    w: World,
    base: Option<Seq<char>>,
    ls: Seq<Seq<char>>,
    m: int,
    set: Paths,
) -> bool {
    &&& 0 <= m < ls.len()
    &&& match (line_of(ls[m]), base) {
        (LineView::Include(Some(path)), Some(from)) => match find_source(
            w.files,
            (from, path),
        ) {
            Some(f) => set.contains(f.canon),
            None => false,
        },
        _ => false,
    }
}

/// The file of this request, where it is one of `set`, includes one of `set`.
pub open spec fn turns_back(w: World, set: Paths, ask: RequestView) -> bool {
    match find_source(w.files, ask) {
        Some(f) => set.contains(f.canon) ==> match f.content {
            Ok(text) => exists|m: int|
                leads_into(w, Some(f.path), lines(text), m, set),
            Err(_) => false,
        },
        None => true,
    }
}

/// Each of these files includes one of them, so that following the includes never
/// ends.
pub open spec fn circular(w: World, set: Paths) -> bool {
    forall|ask: RequestView| #[trigger] turns_back(w, set, ask)
}

/// Files that include each other in a circle never load.
pub proof fn circles_never_load(w: World, set: Paths, ask: RequestView, stack: Paths, done: Paths)
    requires
        circular(w, set),
        done.disjoint(set),
    ensures
        find_source(w.files, ask) matches Some(f) ==> set.contains(f.canon) ==> loaded(
            w,
            ask,
            stack,
            done,
        ).0 is Err,
        loaded(w, ask, stack, done).0 is Ok ==> loaded(w, ask, stack, done).1.disjoint(set),
    decreases room(w.files, stack), 0int,
{
    assert(turns_back(w, set, ask));
    if let Some(f) = find_source(w.files, ask) {
        if !stack.contains(f.canon) && !done.contains(f.canon) {
            if let Ok(text) = f.content {
                let base = Some(f.path);
                let m = if set.contains(f.canon) {
                    choose|m: int| leads_into(w, base, lines(text), m, set)
                } else {
                    -1
                };
                room_shrinks(w.files, ask, stack);
                circle_stops_reading(
                    w,
                    set,
                    base,
                    lines(text),
                    0,
                    DocView::empty(),
                    stack.insert(f.canon),
                    done,
                    m,
                );
            }
        }
    }
}

/// A text that leads into a circle is not read to its end.
proof fn circle_stops_reading(
    w: World,
    set: Paths,
    base: Option<Seq<char>>,
    ls: Seq<Seq<char>>,
    n: int,
    doc: DocView,
    stack: Paths,
    done: Paths,
    m: int,
)
    requires
        circular(w, set),
        done.disjoint(set),
        0 <= n,
    ensures
        n <= m && leads_into(w, base, ls, m, set) ==> doc_after(w, base, ls, n, doc, stack, done).0
            is Err,
        doc_after(w, base, ls, n, doc, stack, done).0 is Ok ==> doc_after(
            w,
            base,
            ls,
            n,
            doc,
            stack,
            done,
        ).1.disjoint(set),
    decreases room(w.files, stack), ls.len() - n,
{
    if n < ls.len() {
        match line_of(ls[n]) {
            LineView::Include(None) => {},
            LineView::Include(Some(path)) => {
                if let Some(from) = base {
                    circles_never_load(w, set, (from, path), stack, done);
                    let (result, after) = loaded(w, (from, path), stack, done);
                    if let Ok(rules) = result {
                        circle_stops_reading(
                            w,
                            set,
                            base,
                            ls,
                            n + 1,
                            doc.after_include(rules),
                            stack,
                            after,
                            m,
                        );
                    }
                }
            },
            line => {
                if let Ok(next) = doc.after_line((n + 1) as nat, line, w.floats) {
                    circle_stops_reading(w, set, base, ls, n + 1, next, stack, done, m);
                }
            },
        }
    }
}

/// A file that is found stays found when more files follow.
proof fn found_stays(files: Seq<SourceView>, more: Seq<SourceView>, ask: RequestView)
    ensures
        find_source(files, ask) is Some ==> find_source(files + more, ask) == find_source(
            files,
            ask,
        ),
    decreases files.len(),
{
    if files.len() > 0 {
        found_stays(files.drop_first(), more, ask);
        assert((files + more).drop_first() =~= files.drop_first() + more);
    }
}

/// Handing over more files changes nothing but that a missing one may be found:
/// rules stay the same rules, and a failure stays the same failure.
pub proof fn more_files_change_nothing(
    w: World,
    more: Seq<SourceView>,
    ask: RequestView,
    stack: Paths,
    done: Paths,
)
    ensures
        loaded(w, ask, stack, done).0 matches Err(StopView::Missing(_)) || loaded(
            (World { files: w.files + more, ..w }),
            ask,
            stack,
            done,
        ) == loaded(w, ask, stack, done),
    decreases room(w.files, stack), 0int,
{
    found_stays(w.files, more, ask);
    if let Some(f) = find_source(w.files, ask) {
        if !stack.contains(f.canon) && !done.contains(f.canon) {
            if let Ok(text) = f.content {
                room_shrinks(w.files, ask, stack);
                more_files_keep_lines(
                    w,
                    more,
                    Some(f.path),
                    lines(text),
                    0,
                    DocView::empty(),
                    stack.insert(f.canon),
                    done,
                );
            }
        }
    }
}

proof fn more_files_keep_lines(
    w: World,
    more: Seq<SourceView>,
    base: Option<Seq<char>>,
    ls: Seq<Seq<char>>,
    n: int,
    doc: DocView,
    stack: Paths,
    done: Paths,
)
    requires
        0 <= n,
    ensures
        doc_after(w, base, ls, n, doc, stack, done).0 matches Err(StopView::Missing(_)) || doc_after(
            (World { files: w.files + more, ..w }),
            base,
            ls,
            n,
            doc,
            stack,
            done,
        ) == doc_after(w, base, ls, n, doc, stack, done),
    decreases room(w.files, stack), ls.len() - n,
{
    if n < ls.len() {
        match line_of(ls[n]) {
            LineView::Include(None) => {},
            LineView::Include(Some(path)) => {
                if let Some(from) = base {
                    more_files_change_nothing(w, more, (from, path), stack, done);
                    let (result, after) = loaded(w, (from, path), stack, done);
                    if let Ok(rules) = result {
                        more_files_keep_lines(
                            w,
                            more,
                            base,
                            ls,
                            n + 1,
                            doc.after_include(rules),
                            stack,
                            after,
                        );
                    }
                }
            },
            line => {
                if let Ok(next) = doc.after_line((n + 1) as nat, line, w.floats) {
                    more_files_keep_lines(w, more, base, ls, n + 1, next, stack, done);
                }
            },
        }
    }
}

// ---------------------------------------------------------------------
// Laws of the rules
// ---------------------------------------------------------------------

/// Each of the rules has an action.
pub open spec fn all_act(rules: Seq<RuleView>) -> bool {
    forall|i: int| 0 <= i < rules.len() ==> (#[trigger] rules[i]).actions.len() > 0
}

/// No rule without an action is loaded, from a file or from one that it includes.
pub proof fn loaded_rules_act(w: World, ask: RequestView, stack: Paths, done: Paths)
    ensures
        loaded(w, ask, stack, done).0 matches Ok(rules) ==> all_act(rules),
    decreases room(w.files, stack), 0int,
{
    if let Some(f) = find_source(w.files, ask) {
        if !stack.contains(f.canon) && !done.contains(f.canon) {
            if let Ok(text) = f.content {
                room_shrinks(w.files, ask, stack);
                let base = Some(f.path);
                let ls = lines(text);
                let inner = stack.insert(f.canon);
                included_rules_act(w, base, ls, 0, DocView::empty(), inner, done);
                if let Ok(doc) = doc_after(w, base, ls, 0, DocView::empty(), inner, done).0 {
                    groups_make_rules(doc.groups, doc.lists, w.window);
                }
            }
        }
    }
}

proof fn included_rules_act(
    w: World,
    base: Option<Seq<char>>,
    ls: Seq<Seq<char>>,
    n: int,
    doc: DocView,
    stack: Paths,
    done: Paths,
)
    requires
        all_act(doc.included),
        0 <= n,
    ensures
        doc_after(w, base, ls, n, doc, stack, done).0 matches Ok(after) ==> all_act(
            after.included,
        ),
    decreases room(w.files, stack), ls.len() - n,
{
    if n < ls.len() {
        match line_of(ls[n]) {
            LineView::Include(None) => {},
            LineView::Include(Some(path)) => {
                if let Some(from) = base {
                    loaded_rules_act(w, (from, path), stack, done);
                    let (result, after) = loaded(w, (from, path), stack, done);
                    if let Ok(rules) = result {
                        included_rules_act(
                            w,
                            base,
                            ls,
                            n + 1,
                            doc.after_include(rules),
                            stack,
                            after,
                        );
                    }
                }
            },
            line => {
                line_includes_nothing(doc, (n + 1) as nat, line, w.floats);
                if let Ok(next) = doc.after_line((n + 1) as nat, line, w.floats) {
                    included_rules_act(w, base, ls, n + 1, next, stack, done);
                }
            },
        }
    }
}

/// Reading a text that is of no file needs no file, includes no rule, and keeps
/// the groups apart.
proof fn reading_without_files(
    w: World,
    ls: Seq<Seq<char>>,
    n: int,
    doc: DocView,
    stack: Paths,
    done: Paths,
)
    requires
        doc.wf(),
        0 <= n,
    ensures
        match doc_after(w, None, ls, n, doc, stack, done).0 {
            Ok(after) => after.wf() && after.included == doc.included,
            Err(stop) => stop is Failed,
        },
    decreases ls.len() - n,
{
    if n < ls.len() {
        match line_of(ls[n]) {
            LineView::Include(_) => {},
            line => {
                line_keeps_wf(doc, (n + 1) as nat, line, w.floats);
                line_includes_nothing(doc, (n + 1) as nat, line, w.floats);
                if let Ok(next) = doc.after_line((n + 1) as nat, line, w.floats) {
                    reading_without_files(w, ls, n + 1, next, stack, done);
                }
            },
        }
    }
}

/// The layout of a text means nothing: texts whose lines are the same lines, one by
/// one, have the same rules.
pub proof fn layout_means_nothing(
    w: World,
    base: Option<Seq<char>>,
    one: Seq<char>,
    other: Seq<char>,
    stack: Paths,
    done: Paths,
)
    requires
        lines(one).len() == lines(other).len(),
        forall|n: int|
            0 <= n < lines(one).len() ==> line_of(#[trigger] lines(one)[n]) == line_of(
                lines(other)[n],
            ),
    ensures
        rules_in(w, base, one, stack, done) == rules_in(w, base, other, stack, done),
{
    same_lines_same_doc(w, base, lines(one), lines(other), 0, DocView::empty(), stack, done);
}

proof fn same_lines_same_doc(
    w: World,
    base: Option<Seq<char>>,
    one: Seq<Seq<char>>,
    other: Seq<Seq<char>>,
    n: int,
    doc: DocView,
    stack: Paths,
    done: Paths,
)
    requires
        one.len() == other.len(),
        forall|k: int| 0 <= k < one.len() ==> line_of(#[trigger] one[k]) == line_of(other[k]),
        0 <= n,
    ensures
        doc_after(w, base, one, n, doc, stack, done) == doc_after(
            w,
            base,
            other,
            n,
            doc,
            stack,
            done,
        ),
    decreases one.len() - n,
{
    if n < one.len() {
        assert(line_of(one[n]) == line_of(other[n]));
        match line_of(one[n]) {
            LineView::Include(None) => {},
            LineView::Include(Some(path)) => {
                if let Some(from) = base {
                    let (result, after) = loaded(w, (from, path), stack, done);
                    if let Ok(rules) = result {
                        same_lines_same_doc(
                            w,
                            base,
                            one,
                            other,
                            n + 1,
                            doc.after_include(rules),
                            stack,
                            after,
                        );
                    }
                }
            },
            line => {
                if let Ok(next) = doc.after_line((n + 1) as nat, line, w.floats) {
                    same_lines_same_doc(w, base, one, other, n + 1, next, stack, done);
                }
            },
        }
    }
}

/// A text that is of no file is read the same with any default window.
proof fn reading_ignores_window(
    w: World,
    window: Duration,
    ls: Seq<Seq<char>>,
    n: int,
    doc: DocView,
    stack: Paths,
    done: Paths,
)
    requires
        0 <= n,
    ensures
        doc_after(w, None, ls, n, doc, stack, done) == doc_after(
            (World { window, ..w }),
            None,
            ls,
            n,
            doc,
            stack,
            done,
        ),
    decreases ls.len() - n,
{
    if n < ls.len() {
        match line_of(ls[n]) {
            LineView::Include(_) => {},
            line => {
                if let Ok(next) = doc.after_line((n + 1) as nat, line, w.floats) {
                    reading_ignores_window(w, window, ls, n + 1, next, stack, done);
                }
            },
        }
    }
}

/// A text that is of no file needs no file.
pub proof fn sources_need_no_file(w: World, text: Seq<char>, stack: Paths, done: Paths)
    ensures
        rules_in(w, None, text, stack, done).0 matches Err(stop) ==> stop is Failed,
{
    reading_without_files(w, lines(text), 0, DocView::empty(), stack, done);
}

// ---------------------------------------------------------------------
// Floats
// ---------------------------------------------------------------------

/// The texts of the lines that would be read as numbers with a dot, if a token
/// started there.
pub open spec fn float_texts_of(ls: Seq<Seq<char>>) -> Seq<Seq<char>>
    decreases ls.len(),
{
    if ls.len() == 0 {
        Seq::empty()
    } else {
        float_texts_of(ls.drop_last()) + float_texts(core_of(ls.last()))
    }
}

/// Tables that agree on the texts of all lines agree on those of each.
proof fn agree_on_line(a: FloatsView, b: FloatsView, ls: Seq<Seq<char>>, n: int)
    requires
        agree(a, b, float_texts_of(ls)),
        0 <= n < ls.len(),
    ensures
        agree(a, b, float_texts(core_of(ls[n]))),
    decreases ls.len(),
{
    agree_on_parts(a, b, float_texts_of(ls.drop_last()), float_texts(core_of(ls.last())));
    if n < ls.len() - 1 {
        agree_on_line(a, b, ls.drop_last(), n);
        assert(ls.drop_last()[n] == ls[n]);
    }
}

/// Tables that agree on the numbers of every file.
pub open spec fn agree_on_files(a: FloatsView, b: FloatsView, files: Seq<SourceView>) -> bool {
    forall|i: int|
        0 <= i < files.len() ==> ((#[trigger] files[i]).content matches Ok(text) ==> agree(
            a,
            b,
            float_texts_of(lines(text)),
        ))
}

/// A file that was found is one of the files.
proof fn found_is_one(files: Seq<SourceView>, ask: RequestView)
    ensures
        find_source(files, ask) matches Some(f) ==> exists|i: int|
            0 <= i < files.len() && #[trigger] files[i] == f,
    decreases files.len(),
{
    if files.len() > 0 {
        if files[0].request == ask {
            assert(files[0] == find_source(files, ask)->0);
        } else {
            found_is_one(files.drop_first(), ask);
            if let Some(f) = find_source(files, ask) {
                let i = choose|i: int|
                    0 <= i < files.len() - 1 && #[trigger] files.drop_first()[i] == f;
                assert(files[i + 1] == f);
            }
        }
    }
}

/// The rules of a file depend on the readings of the numbers in the files alone.
pub proof fn files_need_own_floats(
    w: World,
    b: FloatsView,
    ask: RequestView,
    stack: Paths,
    done: Paths,
)
    requires
        agree_on_files(w.floats, b, w.files),
    ensures
        loaded(w, ask, stack, done) == loaded((World { floats: b, ..w }), ask, stack, done),
    decreases room(w.files, stack), 0int,
{
    if let Some(f) = find_source(w.files, ask) {
        if !stack.contains(f.canon) && !done.contains(f.canon) {
            if let Ok(text) = f.content {
                room_shrinks(w.files, ask, stack);
                found_is_one(w.files, ask);
                lines_need_own_floats(
                    w,
                    b,
                    Some(f.path),
                    lines(text),
                    0,
                    DocView::empty(),
                    stack.insert(f.canon),
                    done,
                );
            }
        }
    }
}

proof fn lines_need_own_floats(
    w: World,
    b: FloatsView,
    base: Option<Seq<char>>,
    ls: Seq<Seq<char>>,
    n: int,
    doc: DocView,
    stack: Paths,
    done: Paths,
)
    requires
        agree_on_files(w.floats, b, w.files),
        agree(w.floats, b, float_texts_of(ls)),
        0 <= n,
    ensures
        doc_after(w, base, ls, n, doc, stack, done) == doc_after(
            (World { floats: b, ..w }),
            base,
            ls,
            n,
            doc,
            stack,
            done,
        ),
    decreases room(w.files, stack), ls.len() - n,
{
    if n < ls.len() {
        match line_of(ls[n]) {
            LineView::Include(None) => {},
            LineView::Include(Some(path)) => {
                if let Some(from) = base {
                    files_need_own_floats(w, b, (from, path), stack, done);
                    let (result, after) = loaded(w, (from, path), stack, done);
                    if let Ok(rules) = result {
                        lines_need_own_floats(
                            w,
                            b,
                            base,
                            ls,
                            n + 1,
                            doc.after_include(rules),
                            stack,
                            after,
                        );
                    }
                }
            },
            line => {
                agree_on_line(w.floats, b, ls, n);
                line_needs_own_floats(doc, (n + 1) as nat, ls[n], w.floats, b);
                if let Ok(next) = doc.after_line((n + 1) as nat, line, w.floats) {
                    lines_need_own_floats(w, b, base, ls, n + 1, next, stack, done);
                }
            },
        }
    }
}

/// The texts in a rule file that would be read as numbers with a dot: what a
/// table of floats has to tell for the file to be parsed.
pub fn float_literals(content: &str) -> (r: Vec<String>)
    ensures
        r.deep_view() == float_texts_of(lines(content@)),
{
    let ghost ls = lines(content@);
    let chars = to_chars(content);
    let raws = split_lines(chars.as_slice());
    let mut out: Vec<String> = Vec::new();
    let mut i: usize = 0;
    assert(ls.take(0) =~= Seq::empty());
    assert(out.deep_view() =~= Seq::empty());
    while i < raws.len()
        invariant
            i <= raws@.len(),
            ls.len() == raws@.len(),
            forall|k: int| 0 <= k < raws@.len() ==> (#[trigger] raws@[k])@ == ls[k],
            out.deep_view() == float_texts_of(ls.take(i as int)),
        decreases raws@.len() - i,
    {
        collect_float_texts(line_core(raws[i]), &mut out);
        assert(ls.take(i + 1).drop_last() =~= ls.take(i as int));
        i += 1;
    }
    assert(ls.take(i as int) =~= ls);
    out
}

// ---------------------------------------------------------------------
// The parser
// ---------------------------------------------------------------------

fn contains(paths: &Vec<String>, path: &str) -> (r: bool)
    ensures
        r == paths.deep_view().to_set().contains(path@),
{
    let mut i: usize = 0;
    while i < paths.len()
        invariant
            i <= paths@.len(),
            forall|k: int| 0 <= k < i ==> #[trigger] paths.deep_view()[k] != path@,
        decreases paths@.len() - i,
    {
        if str_eq(paths[i].as_str(), path) {
            assert(paths.deep_view()[i as int] == path@);
            return true;
        }
        i += 1;
    }
    false
}

/// Adding a path to a list adds it to the set of the listed.
proof fn pushed_is_inserted(v: Seq<Seq<char>>, path: Seq<char>)
    ensures
        v.push(path).to_set() == v.to_set().insert(path),
{
    let s = v.push(path);
    assert forall|x: Seq<char>| s.to_set().contains(x) <==> v.to_set().insert(path).contains(x) by {
        if v.contains(x) {
            let i = choose|i: int| 0 <= i < v.len() && v[i] == x;
            assert(s[i] == x);
        }
        if x == path {
            assert(s[v.len() as int] == x);
        }
    }
    assert(s.to_set() =~= v.to_set().insert(path));
}

/// What parsing depends on besides the text.
pub struct Loader<'a> {
    pub files: &'a Vec<SourceFile>,
    pub floats: &'a FloatTable,
    pub window: Duration,
}

impl<'a> Loader<'a> {
    pub open spec fn world(&self) -> World {
        World { files: self.files.deep_view(), floats: self.floats@, window: self.window }
    }

    fn find(&self, from: &str, rel: &str) -> (r: Option<&'a SourceFile>)
        ensures
            r.deep_view() == find_source(self.world().files, (from@, rel@)),
    {
        let files: &'a Vec<SourceFile> = self.files;
        let mut i: usize = 0;
        assert(files.deep_view().skip(0) =~= files.deep_view());
        while i < files.len()
            invariant
                i <= files@.len(),
                files == self.files,
                find_source(files.deep_view(), (from@, rel@)) == find_source(
                    files.deep_view().skip(i as int),
                    (from@, rel@),
                ),
            decreases files@.len() - i,
        {
            assert(files.deep_view().skip(i as int)[0] == files@[i as int].deep_view());
            if str_eq(files[i].request.from.as_str(), from) && str_eq(
                files[i].request.rel.as_str(),
                rel,
            ) {
                return Some(&files[i]);
            }
            assert(files.deep_view().skip(i as int).drop_first() =~= files.deep_view().skip(i + 1));
            i += 1;
        }
        None
    }

    /// Parses the text of the file at `base`, or one that is of no file. `stack`
    /// holds the canonical paths of the files that are being read, `done` those
    /// that have been.
    pub fn parse_str(
        &self,
        content: &str,
        base: Option<String>,
        stack: &mut Vec<String>,
        done: &mut Vec<String>,
    ) -> (r: Result<Vec<Rule>, Stop>)
        ensures
            final(stack)@ == old(stack)@,
            ({
                let (result, after) = rules_in(
                    self.world(),
                    base.deep_view(),
                    content@,
                    old(stack).deep_view().to_set(),
                    old(done).deep_view().to_set(),
                );
                &&& final(done).deep_view().to_set() == after
                &&& match (r, result) {
                    (Ok(rules), Ok(views)) => rules.deep_view() == views,
                    (Err(stop), Err(view)) => stop.deep_view() == view,
                    _ => false,
                }
            }),
            old(done).deep_view().to_set().subset_of(final(done).deep_view().to_set()),
        decreases room(self.world().files, old(stack).deep_view().to_set()), 1int,
    {
        let ghost w = self.world();
        proof {
            lines_keep_done(
                w,
                base.deep_view(),
                lines(content@),
                0,
                DocView::empty(),
                stack.deep_view().to_set(),
                done.deep_view().to_set(),
            );
        }
        let ghost at = stack.deep_view().to_set();
        let ghost ls = lines(content@);
        let ghost all = doc_after(
            w,
            base.deep_view(),
            ls,
            0,
            DocView::empty(),
            at,
            done.deep_view().to_set(),
        );
        let chars = to_chars(content);
        let raws = split_lines(chars.as_slice());
        let mut doc = Doc::new();
        let mut i: usize = 0;
        while i < raws.len()
            invariant
                i <= raws@.len(),
                w == self.world(),
                ls.len() == raws@.len(),
                forall|k: int| 0 <= k < raws@.len() ==> (#[trigger] raws@[k])@ == ls[k],
                doc.deep_view().wf(),
                stack@ == old(stack)@,
                at == old(stack).deep_view().to_set(),
                all == doc_after(
                    w,
                    base.deep_view(),
                    ls,
                    i as int,
                    doc.deep_view(),
                    at,
                    done.deep_view().to_set(),
                ),
                all == doc_after(
                    w,
                    base.deep_view(),
                    lines(content@),
                    0,
                    DocView::empty(),
                    old(stack).deep_view().to_set(),
                    old(done).deep_view().to_set(),
                ),
                old(done).deep_view().to_set().subset_of(all.1),
            decreases raws@.len() - i,
        {
            let n: usize = i + 1;
            let line = classify(raws[i]);
            match line {
                Line::Include(None) => {
                    return Err(Stop::Failed(message_at(n, "include needs a \"path\"")));
                },
                Line::Include(Some(path)) => match &base {
                    None => {
                        return Err(Stop::Failed(message_at(n, "include has no base directory")));
                    },
                    Some(from) => {
                        assert(stack.deep_view() =~= old(stack).deep_view());
                        let rules = self.parse_file_inner(
                            from.as_str(),
                            path.as_str(),
                            stack,
                            done,
                        )?;
                        doc.on_include(rules);
                    },
                },
                line => {
                    match doc.on_line(n, line, self.floats) {
                        Ok(()) => {},
                        Err(e) => {
                            return Err(Stop::Failed(e));
                        },
                    }
                },
            }
            i += 1;
        }
        match doc.finish(self.window) {
            Ok(rules) => Ok(rules),
            Err(e) => Err(Stop::Failed(e)),
        }
    }

    /// Parses the file at `rel`, as the file at `from` asks for it, unless it is
    /// being read or is done.
    pub fn parse_file_inner(
        &self,
        from: &str,
        rel: &str,
        stack: &mut Vec<String>,
        done: &mut Vec<String>,
    ) -> (r: Result<Vec<Rule>, Stop>)
        ensures
            final(stack)@ == old(stack)@,
            ({
                let (result, after) = loaded(
                    self.world(),
                    (from@, rel@),
                    old(stack).deep_view().to_set(),
                    old(done).deep_view().to_set(),
                );
                &&& final(done).deep_view().to_set() == after
                &&& match (r, result) {
                    (Ok(rules), Ok(views)) => rules.deep_view() == views,
                    (Err(stop), Err(view)) => stop.deep_view() == view,
                    _ => false,
                }
            }),
            old(done).deep_view().to_set().subset_of(final(done).deep_view().to_set()),
        decreases room(self.world().files, old(stack).deep_view().to_set()), 0int,
    {
        let file = match self.find(from, rel) {
            Some(file) => file,
            None => {
                return Err(
                    Stop::Missing(Request { from: from.to_string(), rel: rel.to_string() }),
                );
            },
        };
        if contains(stack, file.canon.as_str()) {
            let mut message = "circular include: ".to_string();
            message.append(file.canon.as_str());
            return Err(Stop::Failed(message));
        }
        if contains(done, file.canon.as_str()) {
            let none: Vec<Rule> = Vec::new();
            assert(none.deep_view() =~= Seq::empty());
            return Ok(none);
        }
        let content = match &file.content {
            Ok(text) => text,
            Err(e) => {
                let mut message = join("read ", file.path.as_str(), ": ");
                message.append(e.as_str());
                return Err(Stop::Failed(message));
            },
        };
        let ghost before = stack.deep_view();
        stack.push(file.canon.clone());
        proof {
            assert(stack.deep_view() =~= before.push(file.canon@));
            pushed_is_inserted(before, file.canon@);
            room_shrinks(self.world().files, (from@, rel@), before.to_set());
        }
        let result = self.parse_str(content.as_str(), Some(file.path.clone()), stack, done);
        stack.pop();
        assert(stack@ =~= old(stack)@);
        let ghost finished = done.deep_view();
        done.push(file.canon.clone());
        proof {
            assert(done.deep_view() =~= finished.push(file.canon@));
            pushed_is_inserted(finished, file.canon@);
        }
        result
    }
}

/// The rules of the file at a path that no file asks for, with nothing read
/// before; or why there are none.
pub open spec fn file_rules(w: World, path: Seq<char>) -> Result<Seq<RuleView>, StopView> {
    loaded(w, (Seq::empty(), path), Set::empty(), Set::empty()).0
}

/// The rules of a text that includes no file; or a message.
pub open spec fn source_rules(text: Seq<char>, window: Duration, floats: FloatsView) -> Result<
    Seq<RuleView>,
    Seq<char>,
> {
    let w = World { files: Seq::empty(), floats, window };
    match rules_in(w, None, text, Set::empty(), Set::empty()).0 {
        Ok(rules) => Ok(rules),
        Err(StopView::Failed(e)) => Err(e),
        Err(StopView::Missing(ask)) => Err(ask.1),
    }
}

/// Names of rules differ.
pub open spec fn names_differ(rules: Seq<RuleView>) -> bool {
    forall|i: int, j: int|
        0 <= i < j < rules.len() ==> (#[trigger] rules[i]).name != (#[trigger] rules[j]).name
}

/// The rules of one text have actions, and names of their own. They depend on the
/// readings of the numbers in the text alone.
pub proof fn source_rules_are_sound(text: Seq<char>, window: Duration, a: FloatsView, b: FloatsView)
    ensures
        source_rules(text, window, a) matches Ok(rules) ==> all_act(rules) && names_differ(rules),
        agree(a, b, float_texts_of(lines(text))) ==> source_rules(text, window, a)
            == source_rules(text, window, b),
{
    let w = World { files: Seq::empty(), floats: a, window };
    let ls = lines(text);
    let none: Paths = Set::empty();
    reading_without_files(w, ls, 0, DocView::empty(), none, none);
    if let Ok(doc) = doc_after(w, None, ls, 0, DocView::empty(), none, none).0 {
        groups_make_rules(doc.groups, doc.lists, window);
        if let Ok(rules) = rules_of(doc.groups, doc.lists, window) {
            assert(rules + doc.included =~= rules);
            assert forall|i: int, j: int| 0 <= i < j < rules.len() implies (
            #[trigger] rules[i]).name != (#[trigger] rules[j]).name by {
                assert(doc.groups[i].name != doc.groups[j].name);
            }
        }
    }
    if agree(a, b, float_texts_of(ls)) {
        lines_need_own_floats(w, b, None, ls, 0, DocView::empty(), none, none);
    }
}

/// The same rule with another window.
pub open spec fn with_window(rule: RuleView, window: Duration) -> RuleView {
    RuleView { window, ..rule }
}

/// The default window reaches exactly the rules that declare none: with another
/// default a text has the same rules, but that those have the other window; and a
/// text that is wrong is wrong in the same way.
pub proof fn default_window_fills_gaps(text: Seq<char>, a: Duration, b: Duration, floats: FloatsView)
    ensures
        match (source_rules(text, a, floats), source_rules(text, b, floats)) {
            (Ok(one), Ok(other)) => one.len() == other.len() && forall|i: int|
                0 <= i < one.len() ==> {
                    ||| #[trigger] one[i] == other[i]
                    ||| one[i].window == a && other[i] == with_window(one[i], b)
                },
            (Err(one), Err(other)) => one == other,
            _ => false,
        },
{
    let w = World { files: Seq::empty(), floats, window: a };
    let ls = lines(text);
    let none: Paths = Set::empty();
    reading_without_files(w, ls, 0, DocView::empty(), none, none);
    reading_ignores_window(w, b, ls, 0, DocView::empty(), none, none);
    if let Ok(doc) = doc_after(w, None, ls, 0, DocView::empty(), none, none).0 {
        failures_ignore_window(doc.groups, doc.lists, a, b);
        groups_make_rules(doc.groups, doc.lists, a);
        groups_make_rules(doc.groups, doc.lists, b);
        if let Ok(one) = rules_of(doc.groups, doc.lists, a) {
            let other = rules_of(doc.groups, doc.lists, b)->Ok_0;
            assert(one + doc.included =~= one);
            assert(other + doc.included =~= other);
            assert forall|i: int| 0 <= i < one.len() implies {
                ||| #[trigger] one[i] == other[i]
                ||| one[i].window == a && other[i] == with_window(one[i], b)
            } by {
                assert(one[i] == rule_for(doc.groups[i], doc.lists, a));
                assert(other[i] == rule_for(doc.groups[i], doc.lists, b));
            }
        }
    }
}

/// Parses the `.waza` file at `path`, one of `files`, using `default_window` for
/// the groups that declare no window. Where a file is missing from `files`, its
/// request is returned: with that file added, the call is to be made again.
pub fn parse_file_with_window(
    files: &Vec<SourceFile>,
    path: &str,
    default_window: Duration,
    floats: &FloatTable,
) -> (r: Result<Vec<Rule>, Stop>)
    ensures
        match (
            r,
            file_rules(
                (World { files: files.deep_view(), floats: floats@, window: default_window }),
                path@,
            ),
        ) {
            (Ok(rules), Ok(views)) => rules.deep_view() == views,
            (Err(stop), Err(view)) => stop.deep_view() == view,
            _ => false,
        },
{
    let loader = Loader { files, floats, window: default_window };
    let mut stack: Vec<String> = Vec::new();
    let mut done: Vec<String> = Vec::new();
    assert(stack.deep_view().to_set() =~= Set::empty());
    assert(done.deep_view().to_set() =~= Set::empty());
    let nowhere = "";
    proof {
        reveal_strlit("");
        assert(nowhere@ =~= Seq::empty());
    }
    loader.parse_file_inner(nowhere, path, &mut stack, &mut done)
}

/// Parses the `.waza` file at `path`, one of `files`, with the default window.
pub fn parse_file(files: &Vec<SourceFile>, path: &str, floats: &FloatTable) -> (r: Result<
    Vec<Rule>,
    Stop,
>)
    ensures
        match (
            r,
            file_rules(
                (World {
                    files: files.deep_view(),
                    floats: floats@,
                    window: secs(DEFAULT_WINDOW as nat),
                }),
                path@,
            ),
        ) {
            (Ok(rules), Ok(views)) => rules.deep_view() == views,
            (Err(stop), Err(view)) => stop.deep_view() == view,
            _ => false,
        },
{
    parse_file_with_window(files, path, default_window(), floats)
}

/// Parses a text of rules. It has no directory that paths could be relative to, so
/// it cannot include files: a line that does is an error.
pub fn parse_source(content: &str, default_window: Duration, floats: &FloatTable) -> (r: Result<
    Vec<Rule>,
    String,
>)
    ensures
        match (r, source_rules(content@, default_window, floats@)) {
            (Ok(rules), Ok(views)) => rules.deep_view() == views,
            (Err(e), Err(view)) => e@ == view,
            _ => false,
        },
{
    let files: Vec<SourceFile> = Vec::new();
    assert(files.deep_view() =~= Seq::empty());
    let loader = Loader { files: &files, floats, window: default_window };
    let mut stack: Vec<String> = Vec::new();
    let mut done: Vec<String> = Vec::new();
    assert(stack.deep_view().to_set() =~= Set::empty());
    assert(done.deep_view().to_set() =~= Set::empty());
    match loader.parse_str(content, None, &mut stack, &mut done) {
        Ok(rules) => Ok(rules),
        Err(Stop::Failed(e)) => Err(e),
        Err(Stop::Missing(ask)) => Err(ask.rel),
    }
}

} // verus!
