//! What the tools do: from the state of the editor and the arguments of a call to the
//! actions that are taken, in order, and the reply.
use vstd::prelude::*;

use crate::commands::Command;
use crate::json::get_text_or;
use crate::json::member_from;
use crate::json::text_or;
use crate::json::trees;
use crate::json::Json;
use crate::json::ObjectBuilder;
use crate::json::Tree;
use crate::mcp::catalog::close_all_editors_tool;
use crate::mcp::catalog::close_editor_tool;
use crate::mcp::catalog::control_window_tool;
use crate::mcp::catalog::focus_terminal_tool;
use crate::mcp::catalog::get_active_file_tool;
use crate::mcp::catalog::get_current_selection_tool;
use crate::mcp::catalog::get_diagnostics_tool;
use crate::mcp::catalog::get_latest_selection_tool;
use crate::mcp::catalog::get_open_editors_tool;
use crate::mcp::catalog::get_workspace_folders_tool;
use crate::mcp::catalog::git_commit_tool;
use crate::mcp::catalog::git_stage_all_tool;
use crate::mcp::catalog::git_status_tool;
use crate::mcp::catalog::insert_text_tool;
use crate::mcp::catalog::list_terminals_tool;
use crate::mcp::catalog::list_windows_tool;
use crate::mcp::catalog::new_terminal_tool;
use crate::mcp::catalog::open_file_tool;
use crate::mcp::catalog::rename_terminal_tool;
use crate::mcp::catalog::run_command_tool;
use crate::mcp::catalog::save_active_file_tool;
use crate::mcp::catalog::search_terminal_tool;
use crate::mcp::catalog::search_workspace_tool;
use crate::mcp::catalog::set_commit_message_tool;
use crate::mcp::catalog::stop_voice_tool;
use crate::mcp::catalog::submit_feedback_tool;
use crate::mcp::catalog::terminal_output_tool;
use crate::mcp::catalog::terminal_send_tool;
use crate::mcp::catalog::terminal_send_key_tool;
use crate::mcp::catalog::tool_list;
use crate::mcp::relevance::best_first;
use crate::mcp::relevance::hit_views;
use crate::mcp::relevance::ranker_of;
use crate::mcp::relevance::search_lines;
use crate::mcp::relevance::stream_hits;
use crate::mcp::relevance::Hit;
use crate::mcp::relevance::HitView;
use crate::mcp::relevance::Ranker;
use crate::mcp::remote::WindowInfo;
use crate::paths::base_name;
use crate::paths::file_name;
use crate::paths::join;
use crate::paths::joined_path;
use crate::text::bare_lines;
use crate::text::begins;
use crate::text::capped;
use crate::text::chars_of;
use crate::text::decimal;
use crate::text::ends;
use crate::text::ends_with;
use crate::text::is_white;
use crate::text::lower_ascii;
use crate::text::lowered_ascii;
use crate::text::opt_view;
use crate::text::plain_lines;
use crate::text::same;
use crate::text::strip_prefix;
use crate::text::take_chars;
use crate::text::trim;
use crate::text::trimmed;
use crate::text::views;
use crate::text::white;
use crate::text::write_decimal;

verus! {

/// How grave a diagnostic is.
#[derive(Clone, Copy, PartialEq, Eq, Debug, Structural)]
pub enum Severity {
    Error,
    Warning,
    Info,
    Hint,
}

/// The number of a severity, from 1 for the gravest.
pub open spec fn level(s: Severity) -> u8 {
    match s {
        Severity::Error => 1,
        Severity::Warning => 2,
        Severity::Info => 3,
        Severity::Hint => 4,
    }
}

/// The number of a severity, from 1 for the gravest.
pub fn severity_num(s: Severity) -> (r: u8)
    ensures
        r == level(s),
{
    match s {
        Severity::Error => 1,
        Severity::Warning => 2,
        Severity::Info => 3,
        Severity::Hint => 4,
    }
}

/// What a language server reports of a document.
pub struct Diagnostic {
    pub severity: Severity,
    pub message: String,
    pub source: Option<String>,
    /// Line and character.
    pub start: (u64, u64),
    /// Line and character.
    pub end: (u64, u64),
}

/// An open tab of the editor.
pub struct OpenDoc {
    /// None for tabs that show no file.
    pub path: Option<String>,
    pub name: String,
    pub dirty: bool,
    pub read_only: bool,
    pub diagnostics: Vec<Diagnostic>,
}

/// The active tab, with its text.
pub struct ActiveDoc {
    pub index: usize,
    pub language: String,
    pub text: String,
    /// Line and character of the caret.
    pub caret: (u64, u64),
    pub selected: Option<String>,
    /// Line and character at which the selection starts.
    pub start: (u64, u64),
    /// Line and character at which the selection ends.
    pub end: (u64, u64),
    /// Whether nothing is selected.
    pub empty: bool,
}

/// A tab of the terminal panel.
pub struct TerminalTab {
    /// The process of the shell, once it is known.
    pub id: Option<u64>,
    pub title: String,
}

/// What the tools see of the editor.
pub struct Editor {
    pub cwd: String,
    pub version: String,
    pub docs: Vec<OpenDoc>,
    pub active: Option<ActiveDoc>,
    pub tabs: Vec<TerminalTab>,
    pub active_tab: usize,
    pub has_display: bool,
    pub has_source_control: bool,
}

/// One thing that the editor is made to do.
pub enum Action<T, B> {
    OpenFile { path: T, line: usize },
    SetCommitMessage { text: T },
    InsertText { text: T },
    Run { command: Command },
    StageAll,
    Commit { msg: T, stage_all: bool, push: bool },
    ShowTerminal,
    Paste { tab: usize, text: T },
    /// A key that is sent some milliseconds from now.
    QueueKey { tab: usize, after: u64, bytes: B },
    WriteKey { tab: usize, bytes: B },
    Rename { tab: usize, name: T },
    /// Makes a terminal tab the active one.
    Activate { tab: usize },
    StopVoice,
    /// Closes a tab, asking first where it has unsaved changes.
    Close { index: usize },
    /// Closes every tab without unsaved changes.
    CloseClean,
    Redraw,
}

/// What a call comes to: an answer, an error, or work outside whose outcome decides.
pub enum Reply<T, J, L> {
    Done { value: J },
    Failed { message: T },
    /// Save the active document.
    Save,
    GitStatus,
    /// Read the last lines that a terminal shows.
    ReadTab { tab: usize, lines: usize },
    NewTab { name: Option<T>, focus: bool },
    FocusTab { tab: usize },
    /// Run the GitHub program with these arguments.
    Feedback { arguments: L },
    Windows,
    Control { pid: u64, tool: T, args: J },
    SearchFiles { query: T, root: T, max: usize },
    SearchTab { query: T, tab: usize, max: usize },
}

/// An action by its contents.
pub type ActionView = Action<Seq<char>, Seq<u8>>;

/// A reply by its contents.
pub type ReplyView = Reply<Seq<char>, Tree, Seq<Seq<char>>>;

/// The contents of an action.
pub open spec fn action_view(a: Action<String, Vec<u8>>) -> ActionView {
    match a {
        Action::OpenFile { path, line } => Action::OpenFile { path: path@, line },
        Action::SetCommitMessage { text } => Action::SetCommitMessage { text: text@ },
        Action::InsertText { text } => Action::InsertText { text: text@ },
        Action::Run { command } => Action::Run { command },
        Action::StageAll => Action::StageAll,
        Action::Commit { msg, stage_all, push } => Action::Commit { msg: msg@, stage_all, push },
        Action::ShowTerminal => Action::ShowTerminal,
        Action::Paste { tab, text } => Action::Paste { tab, text: text@ },
        Action::QueueKey { tab, after, bytes } => Action::QueueKey { tab, after, bytes: bytes@ },
        Action::WriteKey { tab, bytes } => Action::WriteKey { tab, bytes: bytes@ },
        Action::Rename { tab, name } => Action::Rename { tab, name: name@ },
        Action::Activate { tab } => Action::Activate { tab },
        Action::StopVoice => Action::StopVoice,
        Action::Close { index } => Action::Close { index },
        Action::CloseClean => Action::CloseClean,
        Action::Redraw => Action::Redraw,
    }
}

/// The contents of actions.
pub open spec fn action_views(v: Seq<Action<String, Vec<u8>>>) -> Seq<ActionView> {
    Seq::new(v.len(), |i: int| action_view(v[i]))
}

/// The contents of a reply.
pub open spec fn reply_view(r: Reply<String, Json, Vec<String>>) -> ReplyView {
    match r {
        Reply::Done { value } => Reply::Done { value: value@ },
        Reply::Failed { message } => Reply::Failed { message: message@ },
        Reply::Save => Reply::Save,
        Reply::GitStatus => Reply::GitStatus,
        Reply::ReadTab { tab, lines } => Reply::ReadTab { tab, lines },
        Reply::NewTab { name, focus } => Reply::NewTab { name: opt_view(name), focus },
        Reply::FocusTab { tab } => Reply::FocusTab { tab },
        Reply::Feedback { arguments } => Reply::Feedback { arguments: views(arguments@) },
        Reply::Windows => Reply::Windows,
        Reply::Control { pid, tool, args } => Reply::Control { pid, tool: tool@, args: args@ },
        Reply::SearchFiles { query, root, max } => Reply::SearchFiles {
            query: query@,
            root: root@,
            max,
        },
        Reply::SearchTab { query, tab, max } => Reply::SearchTab { query: query@, tab, max },
    }
}

/// What a call does: the actions in order, then the reply.
pub struct Step {
    pub actions: Vec<Action<String, Vec<u8>>>,
    pub reply: Reply<String, Json, Vec<String>>,
}

/// What a call does, by its contents.
pub struct StepView {
    pub actions: Seq<ActionView>,
    pub reply: ReplyView,
}

impl View for Step {
    type V = StepView;

    open spec fn view(&self) -> StepView {
        StepView { actions: action_views(self.actions@), reply: reply_view(self.reply) }
    }
}

/// A call that only answers.
pub open spec fn answers(value: Tree) -> StepView {
    StepView { actions: Seq::empty(), reply: Reply::Done { value } }
}

/// A call that only fails.
pub open spec fn fails(message: Seq<char>) -> StepView {
    StepView { actions: Seq::empty(), reply: Reply::Failed { message } }
}

/// A call that does one thing and then answers.
pub open spec fn acts(action: ActionView, value: Tree) -> StepView {
    StepView { actions: seq![action], reply: Reply::Done { value } }
}

/// A call that leaves its answer to work outside.
pub open spec fn asks(reply: ReplyView) -> StepView {
    StepView { actions: Seq::empty(), reply }
}

fn answer(value: Json) -> (r: Step)
    ensures
        r@ == answers(value@),
{
    let s = Step { actions: Vec::new(), reply: Reply::Done { value } };
    assert(s@.actions =~= Seq::<ActionView>::empty());
    s
}

fn fail(message: &str) -> (r: Step)
    ensures
        r@ == fails(message@),
{
    let s = Step { actions: Vec::new(), reply: Reply::Failed { message: message.to_owned() } };
    assert(s@.actions =~= Seq::<ActionView>::empty());
    s
}

fn act(action: Action<String, Vec<u8>>, value: Json) -> (r: Step)
    ensures
        r@ == acts(action_view(action), value@),
{
    let mut actions: Vec<Action<String, Vec<u8>>> = Vec::new();
    actions.push(action);
    let s = Step { actions, reply: Reply::Done { value } };
    assert(s@.actions =~= seq![action_view(action)]);
    s
}

fn ask(reply: Reply<String, Json, Vec<String>>) -> (r: Step)
    ensures
        r@ == asks(reply_view(reply)),
{
    let s = Step { actions: Vec::new(), reply };
    assert(s@.actions =~= Seq::<ActionView>::empty());
    s
}

/// The answer that says that all went well.
pub open spec fn ok_tree() -> Tree {
    Tree::Obj(seq![("ok"@, Tree::Bool(true))])
}

fn ok_json() -> (r: Json)
    ensures
        r@ == ok_tree(),
{
    let mut b = ObjectBuilder::new();
    b.put("ok", Json::Bool(true));
    assert(b@ =~= ok_tree()->Obj_0);
    b.build()
}

/// A text, or null.
pub open spec fn text_tree(o: Option<Seq<char>>) -> Tree {
    match o {
        Some(s) => Tree::Str(s),
        None => Tree::Null,
    }
}

fn text_json(o: &Option<String>) -> (r: Json)
    ensures
        r@ == text_tree(opt_view(*o)),
{
    match o {
        Some(s) => Json::text(s.as_str()),
        None => Json::Null,
    }
}

/// A number, or null.
pub open spec fn id_tree(o: Option<u64>) -> Tree {
    match o {
        Some(n) => Tree::Pos(n),
        None => Tree::Null,
    }
}

fn id_json(o: Option<u64>) -> (r: Json)
    ensures
        r@ == id_tree(o),
{
    match o {
        Some(n) => Json::Pos(n),
        None => Json::Null,
    }
}

/// A place in a document.
pub open spec fn place_tree(p: (u64, u64)) -> Tree {
    Tree::Obj(seq![("line"@, Tree::Pos(p.0)), ("character"@, Tree::Pos(p.1))])
}

fn place_json(p: (u64, u64)) -> (r: Json)
    ensures
        r@ == place_tree(p),
{
    let mut b = ObjectBuilder::new();
    b.put("line", Json::Pos(p.0));
    b.put("character", Json::Pos(p.1));
    assert(b@ =~= place_tree(p)->Obj_0);
    b.build()
}

/// A stretch of a document.
pub open spec fn stretch_tree(a: (u64, u64), b: (u64, u64)) -> Tree {
    Tree::Obj(seq![("start"@, place_tree(a)), ("end"@, place_tree(b))])
}

fn stretch_json(start: (u64, u64), end: (u64, u64)) -> (r: Json)
    ensures
        r@ == stretch_tree(start, end),
{
    let mut b = ObjectBuilder::new();
    b.put("start", place_json(start));
    b.put("end", place_json(end));
    assert(b@ =~= stretch_tree(start, end)->Obj_0);
    b.build()
}

/// The active document, where there is one.
pub open spec fn active_of(e: Editor) -> Option<ActiveDoc> {
    match e.active {
        Some(a) => if a.index < e.docs@.len() {
            Some(a)
        } else {
            None
        },
        None => None,
    }
}

fn active_doc(e: &Editor) -> (r: Option<&ActiveDoc>)
    ensures
        match r {
            Some(a) => active_of(*e) == Some(*a) && a.index < e.docs@.len(),
            None => active_of(*e) is None,
        },
{
    match &e.active {
        Some(a) => {
            if a.index < e.docs.len() {
                Some(a)
            } else {
                None
            }
        },
        None => None,
    }
}

/// The answer of `getWorkspaceFolders`.
pub open spec fn folders_tree(cwd: Seq<char>) -> Tree {
    Tree::Obj(
        seq![
            (
                "folders"@,
                Tree::Arr(
                    seq![
                        Tree::Obj(
                            seq![
                                ("path"@, Tree::Str(cwd)),
                                (
                                    "name"@,
                                    Tree::Str(
                                        match base_name(cwd) {
                                            Some(n) => n,
                                            None => ""@,
                                        },
                                    ),
                                ),
                            ],
                        ),
                    ],
                ),
            ),
        ],
    )
}

fn folders(e: &Editor) -> (r: Json)
    ensures
        r@ == folders_tree(e.cwd@),
{
    let mut f = ObjectBuilder::new();
    f.put_str("path", e.cwd.as_str());
    match file_name(e.cwd.as_str()) {
        Some(n) => f.put_str("name", n.as_str()),
        None => f.put_str("name", ""),
    }
    let ghost fv = f@;
    let mut v: Vec<Json> = Vec::new();
    v.push(f.build());
    assert(trees(v@) =~= seq![Tree::Obj(fv)]);
    let mut b = ObjectBuilder::new();
    b.put("folders", Json::list(v));
    proof {
        let want = folders_tree(e.cwd@)->Obj_0;
        assert(fv =~= want[0].1->Arr_0[0]->Obj_0);
        assert(want[0].1->Arr_0 =~= seq![Tree::Obj(fv)]);
        assert(b@ =~= want);
    }
    b.build()
}

/// What `getOpenEditors` says of a tab.
pub open spec fn editor_tree(d: OpenDoc, active: bool) -> Tree {
    Tree::Obj(
        seq![
            ("filePath"@, text_tree(opt_view(d.path))),
            ("name"@, Tree::Str(d.name@)),
            ("active"@, Tree::Bool(active)),
            ("dirty"@, Tree::Bool(d.dirty)),
        ],
    )
}

/// Whether a tab is the active one.
pub open spec fn is_active(e: Editor, i: int) -> bool {
    match e.active {
        Some(a) => a.index == i,
        None => false,
    }
}

/// The answer of `getOpenEditors`.
pub open spec fn editors_tree(e: Editor) -> Tree {
    Tree::Obj(
        seq![
            (
                "editors"@,
                Tree::Arr(
                    Seq::new(e.docs@.len(), |i: int| editor_tree(e.docs@[i], is_active(e, i))),
                ),
            ),
        ],
    )
}

fn editors(e: &Editor) -> (r: Json)
    ensures
        r@ == editors_tree(*e),
{
    let ghost want = Seq::new(e.docs@.len(), |i: int| editor_tree(e.docs@[i], is_active(*e, i)));
    let mut v: Vec<Json> = Vec::new();
    assert(trees(v@) =~= want.take(0));
    let mut k: usize = 0;
    while k < e.docs.len()
        invariant
            k <= e.docs@.len(),
            want == Seq::new(e.docs@.len(), |i: int| editor_tree(e.docs@[i], is_active(*e, i))),
            trees(v@) == want.take(k as int),
        decreases e.docs.len() - k,
    {
        let d = &e.docs[k];
        let active = match &e.active {
            Some(a) => a.index == k,
            None => false,
        };
        let mut b = ObjectBuilder::new();
        b.put("filePath", text_json(&d.path));
        b.put_str("name", d.name.as_str());
        b.put("active", Json::Bool(active));
        b.put("dirty", Json::Bool(d.dirty));
        assert(b@ =~= editor_tree(*d, active)->Obj_0);
        let ghost so_far = trees(v@);
        let one = b.build();
        let ghost ov = one@;
        v.push(one);
        assert(trees(v@) =~= so_far.push(ov));
        assert(want.take(k + 1) =~= want.take(k as int).push(want[k as int]));
        k = k + 1;
    }
    assert(want.take(k as int) =~= want);
    let mut b = ObjectBuilder::new();
    b.put("editors", Json::list(v));
    assert(b@ =~= editors_tree(*e)->Obj_0);
    b.build()
}

/// The answer of `getCurrentSelection`.
pub open spec fn selection_tree(e: Editor) -> Tree {
    match active_of(e) {
        None => Tree::Obj(seq![("text"@, Tree::Str(""@)), ("isEmpty"@, Tree::Bool(true))]),
        Some(a) => Tree::Obj(
            seq![
                (
                    "text"@,
                    Tree::Str(
                        match a.selected {
                            Some(s) => s@,
                            None => ""@,
                        },
                    ),
                ),
                ("filePath"@, text_tree(opt_view(e.docs@[a.index as int].path))),
                ("isEmpty"@, Tree::Bool(a.empty)),
                ("selection"@, stretch_tree(a.start, a.end)),
            ],
        ),
    }
}

fn selection(e: &Editor) -> (r: Json)
    ensures
        r@ == selection_tree(*e),
{
    let mut b = ObjectBuilder::new();
    match active_doc(e) {
        None => {
            b.put_str("text", "");
            b.put("isEmpty", Json::Bool(true));
        },
        Some(a) => {
            match &a.selected {
                Some(s) => b.put_str("text", s.as_str()),
                None => b.put_str("text", ""),
            }
            b.put("filePath", text_json(&e.docs[a.index].path));
            b.put("isEmpty", Json::Bool(a.empty));
            b.put("selection", stretch_json(a.start, a.end));
        },
    }
    assert(b@ =~= selection_tree(*e)->Obj_0);
    b.build()
}

/// What `getDiagnostics` says of one diagnostic.
pub open spec fn diagnostic_tree(g: Diagnostic) -> Tree {
    Tree::Obj(
        seq![
            ("severity"@, Tree::Pos(level(g.severity) as u64)),
            ("message"@, Tree::Str(g.message@)),
            ("source"@, text_tree(opt_view(g.source))),
            ("range"@, stretch_tree(g.start, g.end)),
        ],
    )
}

/// What `getDiagnostics` says of one document.
pub open spec fn report_tree(d: OpenDoc) -> Tree {
    Tree::Obj(
        seq![
            ("uri"@, text_tree(opt_view(d.path))),
            (
                "diagnostics"@,
                Tree::Arr(
                    Seq::new(d.diagnostics@.len(), |i: int| diagnostic_tree(d.diagnostics@[i])),
                ),
            ),
        ],
    )
}

/// Whether a document is reported: it has diagnostics, and its path, if it has one, ends
/// with what was asked for.
pub open spec fn is_reported(d: OpenDoc, want: Option<Seq<char>>) -> bool {
    d.diagnostics@.len() > 0 && (match (want, d.path) {
        (Some(w), Some(p)) => ends(p@, w) || p@ == w,
        _ => true,
    })
}

/// The reports of the first `n` documents.
pub open spec fn reports(docs: Seq<OpenDoc>, want: Option<Seq<char>>, n: int) -> Seq<Tree>
    decreases n,
{
    if n <= 0 {
        Seq::empty()
    } else if is_reported(docs[n - 1], want) {
        reports(docs, want, n - 1).push(report_tree(docs[n - 1]))
    } else {
        reports(docs, want, n - 1)
    }
}

fn report(d: &OpenDoc) -> (r: Json)
    ensures
        r@ == report_tree(*d),
{
    let ghost want = Seq::new(d.diagnostics@.len(), |i: int| diagnostic_tree(d.diagnostics@[i]));
    let mut v: Vec<Json> = Vec::new();
    assert(trees(v@) =~= want.take(0));
    let mut k: usize = 0;
    while k < d.diagnostics.len()
        invariant
            k <= d.diagnostics@.len(),
            want == Seq::new(d.diagnostics@.len(), |i: int| diagnostic_tree(d.diagnostics@[i])),
            trees(v@) == want.take(k as int),
        decreases d.diagnostics.len() - k,
    {
        let g = &d.diagnostics[k];
        let mut b = ObjectBuilder::new();
        b.put("severity", Json::Pos(severity_num(g.severity) as u64));
        b.put_str("message", g.message.as_str());
        b.put("source", text_json(&g.source));
        b.put("range", stretch_json(g.start, g.end));
        assert(b@ =~= diagnostic_tree(*g)->Obj_0);
        let ghost so_far = trees(v@);
        let one = b.build();
        let ghost ov = one@;
        v.push(one);
        assert(trees(v@) =~= so_far.push(ov));
        assert(want.take(k + 1) =~= want.take(k as int).push(want[k as int]));
        k = k + 1;
    }
    assert(want.take(k as int) =~= want);
    let mut b = ObjectBuilder::new();
    b.put("uri", text_json(&d.path));
    b.put("diagnostics", Json::list(v));
    assert(b@ =~= report_tree(*d)->Obj_0);
    b.build()
}

/// The answer of `getDiagnostics`.
pub open spec fn diagnostics_tree(e: Editor, args: Tree) -> Tree {
    Tree::Obj(
        seq![("files"@, Tree::Arr(reports(e.docs@, args.str_at("uri"@), e.docs@.len() as int)))],
    )
}

fn diagnostics(e: &Editor, args: &Json) -> (r: Json)
    ensures
        r@ == diagnostics_tree(*e, args@),
{
    let want = args.str_at("uri");
    let ghost wv = args@.str_at("uri"@);
    let mut v: Vec<Json> = Vec::new();
    assert(trees(v@) =~= Seq::<Tree>::empty());
    let mut k: usize = 0;
    while k < e.docs.len()
        invariant
            k <= e.docs@.len(),
            wv == args@.str_at("uri"@),
            crate::json::opt_text(want) == wv,
            trees(v@) == reports(e.docs@, wv, k as int),
        decreases e.docs.len() - k,
    {
        let d = &e.docs[k];
        let named = match (want, &d.path) {
            (Some(w), Some(p)) => ends_with(p.as_str(), w) || same(p.as_str(), w),
            _ => true,
        };
        if named && d.diagnostics.len() > 0 {
            let ghost so_far = trees(v@);
            let one = report(d);
            let ghost ov = one@;
            v.push(one);
            assert(trees(v@) =~= so_far.push(ov));
        }
        k = k + 1;
    }
    let mut b = ObjectBuilder::new();
    b.put("files", Json::list(v));
    assert(b@ =~= diagnostics_tree(*e, args@)->Obj_0);
    b.build()
}

/// A number of the arguments, at least 1 and at most what a `usize` holds.
pub open spec fn count_arg(args: Tree, key: Seq<char>, other: u64) -> usize {
    let n = match args.u64_at(key) {
        Some(n) => n,
        None => other,
    };
    if n < 1 {
        1
    } else {
        capped(n as int)
    }
}

fn get_count(args: &Json, key: &str, other: u64) -> (r: usize)
    ensures
        r == count_arg(args@, key@, other),
{
    let n: u64 = match args.u64_at(key) {
        Some(n) => n,
        None => other,
    };
    if n < 1 {
        1
    } else if n > usize::MAX as u64 {
        usize::MAX
    } else {
        n as usize
    }
}

/// The step of `openFile`.
pub open spec fn open_step(args: Tree) -> StepView {
    match args.str_at("filePath"@) {
        Some(path) => acts(
            Action::OpenFile { path, line: count_arg(args, "line"@, 1) },
            Tree::Obj(seq![("ok"@, Tree::Bool(true)), ("filePath"@, Tree::Str(path))]),
        ),
        None => fails("openFile requires filePath"@),
    }
}

fn open_file(args: &Json) -> (r: Step)
    ensures
        r@ == open_step(args@),
{
    match args.str_at("filePath") {
        Some(path) => {
            let line: usize = get_count(args, "line", 1);
            let mut b = ObjectBuilder::new();
            b.put("ok", Json::Bool(true));
            b.put_str("filePath", path);
            assert(b@ =~= seq![("ok"@, Tree::Bool(true)), ("filePath"@, Tree::Str(path@))]);
            act(Action::OpenFile { path: path.to_owned(), line }, b.build())
        },
        None => fail("openFile requires filePath"),
    }
}

/// The step of `setCommitMessage`.
pub open spec fn message_step(e: Editor, args: Tree) -> StepView {
    if e.has_display && e.has_source_control {
        acts(
            Action::SetCommitMessage { text: text_or(args.get("message"@), ""@) },
            ok_tree(),
        )
    } else {
        fails("source control panel not available"@)
    }
}

fn set_message(e: &Editor, args: &Json) -> (r: Step)
    ensures
        r@ == message_step(*e, args@),
{
    if e.has_display && e.has_source_control {
        let text = get_text_or(args.get("message"), "");
        act(Action::SetCommitMessage { text }, ok_json())
    } else {
        fail("source control panel not available")
    }
}

/// The answer of `getActiveFile`.
pub open spec fn active_tree(e: Editor) -> Tree {
    match active_of(e) {
        None => Tree::Obj(seq![("open"@, Tree::Bool(false))]),
        Some(a) => Tree::Obj(
            seq![
                ("open"@, Tree::Bool(true)),
                ("path"@, text_tree(opt_view(e.docs@[a.index as int].path))),
                ("name"@, Tree::Str(e.docs@[a.index as int].name@)),
                ("language"@, Tree::Str(a.language@)),
                ("dirty"@, Tree::Bool(e.docs@[a.index as int].dirty)),
                ("cursor"@, place_tree(a.caret)),
                ("text"@, Tree::Str(a.text@)),
            ],
        ),
    }
}

fn active_file(e: &Editor) -> (r: Json)
    ensures
        r@ == active_tree(*e),
{
    let mut b = ObjectBuilder::new();
    match active_doc(e) {
        None => {
            b.put("open", Json::Bool(false));
        },
        Some(a) => {
            let d = &e.docs[a.index];
            b.put("open", Json::Bool(true));
            b.put("path", text_json(&d.path));
            b.put_str("name", d.name.as_str());
            b.put_str("language", a.language.as_str());
            b.put("dirty", Json::Bool(d.dirty));
            b.put("cursor", place_json(a.caret));
            b.put_str("text", a.text.as_str());
        },
    }
    assert(b@ =~= active_tree(*e)->Obj_0);
    b.build()
}

/// The step of `insertText`.
pub open spec fn insert_step(e: Editor, args: Tree) -> StepView {
    match args.str_at("text"@) {
        None => fails("insertText requires text"@),
        Some(text) => match active_of(e) {
            None => fails("no active document"@),
            Some(a) => if e.has_display && !e.docs@[a.index as int].read_only {
                acts(Action::InsertText { text }, ok_tree())
            } else {
                fails("active document is read-only"@)
            },
        },
    }
}

fn insert_text(e: &Editor, args: &Json) -> (r: Step)
    ensures
        r@ == insert_step(*e, args@),
{
    match args.str_at("text") {
        None => fail("insertText requires text"),
        Some(text) => match active_doc(e) {
            None => fail("no active document"),
            Some(a) => {
                if e.has_display && !e.docs[a.index].read_only {
                    act(Action::InsertText { text: text.to_owned() }, ok_json())
                } else {
                    fail("active document is read-only")
                }
            },
        },
    }
}

/// The command that a name stands for.
pub open spec fn command_named(id: Seq<char>) -> Option<Command> {
    if id == "save"@ {
        Some(Command::Save)
    } else if id == "find"@ {
        Some(Command::Find)
    } else if id == "undo"@ {
        Some(Command::Undo)
    } else if id == "redo"@ {
        Some(Command::Redo)
    } else if id == "selectAll"@ {
        Some(Command::SelectAll)
    } else if id == "formatDocument"@ {
        Some(Command::FormatDocument)
    } else if id == "toggleSidebar"@ {
        Some(Command::ToggleSidebar)
    } else if id == "toggleTerminal"@ {
        Some(Command::ToggleTerminal)
    } else if id == "newFile"@ {
        Some(Command::NewFile)
    } else if id == "toggleLineComment"@ {
        Some(Command::ToggleLineComment)
    } else if id == "gotoDefinition"@ {
        Some(Command::GotoDefinition)
    } else if id == "gotoReferences"@ {
        Some(Command::GotoReferences)
    } else if id == "nextProblem"@ {
        Some(Command::NextProblem)
    } else if id == "prevProblem"@ {
        Some(Command::PrevProblem)
    } else if id == "renameSymbol"@ {
        Some(Command::RenameSymbol)
    } else if id == "nextEditor"@ {
        Some(Command::NextEditor)
    } else if id == "prevEditor"@ {
        Some(Command::PrevEditor)
    } else if id == "markdownPreview"@ {
        Some(Command::MarkdownPreview)
    } else if id == "openSettings"@ {
        Some(Command::OpenSettings)
    } else {
        None
    }
}

fn command_of(id: &str) -> (r: Option<Command>)
    ensures
        r == command_named(id@),
{
    if same(id, "save") {
        Some(Command::Save)
    } else if same(id, "find") {
        Some(Command::Find)
    } else if same(id, "undo") {
        Some(Command::Undo)
    } else if same(id, "redo") {
        Some(Command::Redo)
    } else if same(id, "selectAll") {
        Some(Command::SelectAll)
    } else if same(id, "formatDocument") {
        Some(Command::FormatDocument)
    } else if same(id, "toggleSidebar") {
        Some(Command::ToggleSidebar)
    } else if same(id, "toggleTerminal") {
        Some(Command::ToggleTerminal)
    } else if same(id, "newFile") {
        Some(Command::NewFile)
    } else if same(id, "toggleLineComment") {
        Some(Command::ToggleLineComment)
    } else if same(id, "gotoDefinition") {
        Some(Command::GotoDefinition)
    } else if same(id, "gotoReferences") {
        Some(Command::GotoReferences)
    } else if same(id, "nextProblem") {
        Some(Command::NextProblem)
    } else if same(id, "prevProblem") {
        Some(Command::PrevProblem)
    } else if same(id, "renameSymbol") {
        Some(Command::RenameSymbol)
    } else if same(id, "nextEditor") {
        Some(Command::NextEditor)
    } else if same(id, "prevEditor") {
        Some(Command::PrevEditor)
    } else if same(id, "markdownPreview") {
        Some(Command::MarkdownPreview)
    } else if same(id, "openSettings") {
        Some(Command::OpenSettings)
    } else {
        None
    }
}

/// The step of `runCommand`.
pub open spec fn command_step(args: Tree) -> StepView {
    let id = text_or(args.get("command"@), ""@);
    match command_named(id) {
        Some(command) => acts(Action::Run { command }, ok_tree()),
        None => fails("unknown command: "@ + id),
    }
}

fn run_command(args: &Json) -> (r: Step)
    ensures
        r@ == command_step(args@),
{
    let id = get_text_or(args.get("command"), "");
    match command_of(id.as_str()) {
        Some(command) => act(Action::Run { command }, ok_json()),
        None => {
            let mut m = "unknown command: ".to_owned();
            m.append(id.as_str());
            fail(m.as_str())
        },
    }
}

/// A truth value of the arguments.
pub open spec fn flag(args: Tree, key: Seq<char>, other: bool) -> bool {
    match args.bool_at(key) {
        Some(b) => b,
        None => other,
    }
}

fn get_flag(args: &Json, key: &str, other: bool) -> (r: bool)
    ensures
        r == flag(args@, key@, other),
{
    match args.bool_at(key) {
        Some(b) => b,
        None => other,
    }
}

/// The step of `gitCommit`.
pub open spec fn commit_step(args: Tree) -> StepView {
    match args.str_at("message"@) {
        Some(msg) => acts(
            Action::Commit {
                msg,
                stage_all: flag(args, "stageAll"@, false),
                push: flag(args, "push"@, false),
            },
            ok_tree(),
        ),
        None => fails("gitCommit requires message"@),
    }
}

fn commit(args: &Json) -> (r: Step)
    ensures
        r@ == commit_step(args@),
{
    match args.str_at("message") {
        Some(msg) => {
            let stage_all = get_flag(args, "stageAll", false);
            let push = get_flag(args, "push", false);
            act(Action::Commit { msg: msg.to_owned(), stage_all, push }, ok_json())
        },
        None => fail("gitCommit requires message"),
    }
}

/// The first tab with an id, from the `k`-th on.
pub open spec fn tab_with_id(tabs: Seq<TerminalTab>, id: u64, k: int) -> Option<usize>
    decreases tabs.len() - k,
{
    if k >= tabs.len() {
        None
    } else if tabs[k].id == Some(id) {
        Some(k as usize)
    } else {
        tab_with_id(tabs, id, k + 1)
    }
}

/// The terminal that a call is for: by its id, else by its place, else the active one.
pub open spec fn target(e: Editor, args: Tree) -> Result<usize, Seq<char>> {
    match args.u64_at("id"@) {
        Some(id) => match tab_with_id(e.tabs@, id, 0) {
            Some(i) => Ok(i),
            None => Err("no terminal with id "@ + decimal(id as nat)),
        },
        None => match args.u64_at("index"@) {
            Some(i) => if i < e.tabs@.len() {
                Ok(i as usize)
            } else {
                Err("no terminal at index "@ + decimal(i as nat))
            },
            None => Ok(e.active_tab),
        },
    }
}

fn numbered(text: &str, n: u64) -> (r: String)
    ensures
        r@ == text@ + decimal(n as nat),
{
    let mut s = text.to_owned();
    s.append(write_decimal(n).as_str());
    s
}

/// The terminal that a call is for: by its id, else by its place, else the active one.
pub fn target_tab(e: &Editor, args: &Json) -> (r: Result<usize, String>)
    ensures
        match r {
            Ok(i) => target(*e, args@) == Ok::<usize, Seq<char>>(i),
            Err(m) => target(*e, args@) == Err::<usize, Seq<char>>(m@),
        },
{
    match args.u64_at("id") {
        Some(id) => {
            let n: usize = e.tabs.len();
            let mut k: usize = 0;
            while k < n
                invariant
                    n == e.tabs@.len(),
                    k <= n,
                    args@.u64_at("id"@) == Some(id),
                    tab_with_id(e.tabs@, id, k as int) == tab_with_id(e.tabs@, id, 0),
                decreases n - k,
            {
                if let Some(x) = e.tabs[k].id {
                    if x == id {
                        return Ok(k);
                    }
                }
                k = k + 1;
            }
            Err(numbered("no terminal with id ", id))
        },
        None => match args.u64_at("index") {
            Some(i) => {
                if i < e.tabs.len() as u64 {
                    Ok(i as usize)
                } else {
                    Err(numbered("no terminal at index ", i))
                }
            },
            None => Ok(e.active_tab),
        },
    }
}

/// The id of a tab.
pub open spec fn tab_id(e: Editor, tab: usize) -> Option<u64> {
    if tab < e.tabs@.len() {
        e.tabs@[tab as int].id
    } else {
        None
    }
}

fn id_of(e: &Editor, tab: usize) -> (r: Option<u64>)
    ensures
        r == tab_id(*e, tab),
{
    if tab < e.tabs.len() {
        e.tabs[tab].id
    } else {
        None
    }
}

/// What stands behind `ctrl-`, `ctrl+` or `^`.
pub open spec fn ctrl_rest(k: Seq<char>) -> Option<Seq<char>> {
    if begins(k, "ctrl-"@) {
        Some(k.skip("ctrl-"@.len() as int))
    } else if begins(k, "ctrl+"@) {
        Some(k.skip("ctrl+"@.len() as int))
    } else if begins(k, "^"@) {
        Some(k.skip("^"@.len() as int))
    } else {
        None
    }
}

/// The bytes of a key by its name alone.
pub open spec fn named_key(k: Seq<char>) -> Option<Seq<u8>> {
    if k == "enter"@ || k == "return"@ || k == "cr"@ {
        Some(seq![13u8])
    } else if k == "escape"@ || k == "esc"@ {
        Some(seq![27u8])
    } else if k == "tab"@ {
        Some(seq![9u8])
    } else if k == "backspace"@ || k == "bs"@ {
        Some(seq![127u8])
    } else if k == "space"@ {
        Some(seq![32u8])
    } else if k == "up"@ {
        Some(seq![27u8, 91u8, 65u8])
    } else if k == "down"@ {
        Some(seq![27u8, 91u8, 66u8])
    } else if k == "right"@ {
        Some(seq![27u8, 91u8, 67u8])
    } else if k == "left"@ {
        Some(seq![27u8, 91u8, 68u8])
    } else {
        None
    }
}

/// The bytes that a terminal expects for a key, whatever the case of its name. A letter
/// with control is its place in the alphabet.
pub open spec fn key_code(key: Seq<char>) -> Option<Seq<u8>> {
    let k = lowered_ascii(trimmed(key));
    match ctrl_rest(k) {
        Some(rest) => if rest.len() == 0 {
            None
        } else if rest.len() == 1 && 'a' <= rest[0] && rest[0] <= 'z' {
            Some(seq![(rest[0] as int - 96) as u8])
        } else {
            named_key(k)
        },
        None => named_key(k),
    }
}

fn bytes_named(k: &str) -> (r: Option<Vec<u8>>)
    ensures
        match r {
            Some(b) => named_key(k@) == Some(b@),
            None => named_key(k@) is None,
        },
{
    let mut v: Vec<u8> = Vec::new();
    if same(k, "enter") || same(k, "return") || same(k, "cr") {
        v.push(13);
        assert(v@ =~= seq![13u8]);
    } else if same(k, "escape") || same(k, "esc") {
        v.push(27);
        assert(v@ =~= seq![27u8]);
    } else if same(k, "tab") {
        v.push(9);
        assert(v@ =~= seq![9u8]);
    } else if same(k, "backspace") || same(k, "bs") {
        v.push(127);
        assert(v@ =~= seq![127u8]);
    } else if same(k, "space") {
        v.push(32);
        assert(v@ =~= seq![32u8]);
    } else if same(k, "up") {
        v.push(27);
        v.push(91);
        v.push(65);
        assert(v@ =~= seq![27u8, 91u8, 65u8]);
    } else if same(k, "down") {
        v.push(27);
        v.push(91);
        v.push(66);
        assert(v@ =~= seq![27u8, 91u8, 66u8]);
    } else if same(k, "right") {
        v.push(27);
        v.push(91);
        v.push(67);
        assert(v@ =~= seq![27u8, 91u8, 67u8]);
    } else if same(k, "left") {
        v.push(27);
        v.push(91);
        v.push(68);
        assert(v@ =~= seq![27u8, 91u8, 68u8]);
    } else {
        return None;
    }
    Some(v)
}

fn strip_ctrl(k: &str) -> (r: Option<String>)
    ensures
        opt_view(r) == ctrl_rest(k@),
{
    match strip_prefix(k, "ctrl-") {
        Some(rest) => Some(rest),
        None => match strip_prefix(k, "ctrl+") {
            Some(rest) => Some(rest),
            None => strip_prefix(k, "^"),
        },
    }
}

/// The bytes that a terminal expects for a key; none where the name is unknown.
pub fn key_bytes(key: &str) -> (r: Option<Vec<u8>>)
    ensures
        match r {
            Some(b) => key_code(key@) == Some(b@),
            None => key_code(key@) is None,
        },
{
    let bare = trim(key);
    let k = lower_ascii(bare.as_str());
    match strip_ctrl(k.as_str()) {
        Some(rest) => {
            let v = chars_of(rest.as_str());
            if v.len() == 0 {
                return None;
            }
            if v.len() == 1 && 'a' <= v[0] && v[0] <= 'z' {
                let c: u8 = v[0] as u8;
                let mut out: Vec<u8> = Vec::new();
                out.push(c - 96);
                assert(out@ =~= seq![(rest@[0] as int - 96) as u8]);
                return Some(out);
            }
            bytes_named(k.as_str())
        },
        None => bytes_named(k.as_str()),
    }
}

/// The keys that `terminalSend` presses; an error where one is not a text.
pub open spec fn keys_arg(args: Tree) -> Option<Seq<Seq<char>>> {
    match args.list_at("keys"@) {
        Some(v) => if forall|i: int| 0 <= i < v.len() ==> (#[trigger] v[i]).as_str() is Some {
            Some(Seq::new(v.len(), |i: int| v[i].as_str()->0))
        } else {
            None
        },
        None => if flag(args, "enter"@, true) {
            Some(seq!["enter"@])
        } else {
            Some(Seq::empty())
        },
    }
}

/// When the `k`-th key is sent, in milliseconds from now.
pub open spec fn delay(k: int) -> u64 {
    if 60 + 20 * k <= u64::MAX {
        (60 + 20 * k) as u64
    } else {
        u64::MAX
    }
}

/// The keys before the first unknown one, from the `k`-th on, as actions: the first after
/// 60 milliseconds, each further one 20 later. With them the unknown key, if there is one.
pub open spec fn key_actions(tab: usize, keys: Seq<Seq<char>>, n: int) -> (
    Seq<ActionView>,
    Option<Seq<char>>,
)
    decreases n,
{
    if n <= 0 {
        (Seq::empty(), None)
    } else {
        let (before, bad) = key_actions(tab, keys, n - 1);
        if bad is Some {
            (before, bad)
        } else {
            match key_code(keys[n - 1]) {
                Some(bytes) => (
                    before.push(
                        Action::QueueKey { tab, after: delay(n - 1), bytes },
                    ),
                    None,
                ),
                None => (before, Some(keys[n - 1])),
            }
        }
    }
}

/// The texts of a list, as values.
pub open spec fn text_trees(v: Seq<Seq<char>>) -> Seq<Tree> {
    Seq::new(v.len(), |i: int| Tree::Str(v[i]))
}

/// The step of `terminalSend`: the text is pasted, and the keys that submit it follow.
pub open spec fn send_step(e: Editor, args: Tree) -> StepView {
    match args.str_at("text"@) {
        None => fails("terminalSend requires text"@),
        Some(text) => match target(e, args) {
            Err(message) => StepView {
                actions: seq![Action::ShowTerminal],
                reply: Reply::Failed { message },
            },
            Ok(tab) => {
                let pasted = seq![Action::ShowTerminal, Action::Paste { tab, text }];
                match keys_arg(args) {
                    None => StepView {
                        actions: pasted,
                        reply: Reply::Failed { message: "keys entries must be strings"@ },
                    },
                    Some(keys) => {
                        let (queued, bad) = key_actions(tab, keys, keys.len() as int);
                        match bad {
                            Some(key) => StepView {
                                actions: pasted + queued,
                                reply: Reply::Failed { message: "unknown key: "@ + key },
                            },
                            None => StepView {
                                actions: (pasted + queued).push(Action::Redraw),
                                reply: Reply::Done {
                                    value: Tree::Obj(
                                        seq![
                                            ("ok"@, Tree::Bool(true)),
                                            ("id"@, id_tree(tab_id(e, tab))),
                                            ("text"@, Tree::Str(text)),
                                            ("keys"@, Tree::Arr(text_trees(keys))),
                                        ],
                                    ),
                                },
                            },
                        }
                    },
                }
            },
        },
    }
}

fn get_keys(args: &Json) -> (r: Option<Vec<String>>)
    ensures
        match r {
            Some(v) => keys_arg(args@) == Some(views(v@)),
            None => keys_arg(args@) is None,
        },
{
    let mut out: Vec<String> = Vec::new();
    match args.list_at("keys") {
        Some(v) => {
            let ghost tv = trees(v@);
            let ghost want = Seq::new(tv.len(), |i: int| tv[i].as_str()->0);
            assert(views(out@) =~= want.take(0));
            let mut k: usize = 0;
            while k < v.len()
                invariant
                    k <= v@.len(),
                    tv == trees(v@),
                    args@.list_at("keys"@) == Some(tv),
                    want == Seq::new(tv.len(), |i: int| tv[i].as_str()->0),
                    views(out@) == want.take(k as int),
                    forall|i: int| 0 <= i < k ==> (#[trigger] tv[i]).as_str() is Some,
                decreases v.len() - k,
            {
                assert(tv[k as int] == v@[k as int]@);
                match v[k].as_str() {
                    Some(s) => {
                        let ghost so_far = views(out@);
                        out.push(s.to_owned());
                        assert(views(out@) =~= so_far.push(s@));
                        assert(want.take(k + 1) =~= want.take(k as int).push(want[k as int]));
                    },
                    None => {
                        return None;
                    },
                }
                k = k + 1;
            }
            assert(want.take(k as int) =~= want);
        },
        None => {
            if get_flag(args, "enter", true) {
                out.push("enter".to_owned());
                assert(views(out@) =~= seq!["enter"@]);
            } else {
                assert(views(out@) =~= Seq::<Seq<char>>::empty());
            }
        },
    }
    Some(out)
}

fn text_list(v: &Vec<String>) -> (r: Json)
    ensures
        r@ == Tree::Arr(text_trees(views(v@))),
{
    let ghost want = text_trees(views(v@));
    let mut out: Vec<Json> = Vec::new();
    assert(trees(out@) =~= want.take(0));
    let mut k: usize = 0;
    while k < v.len()
        invariant
            k <= v@.len(),
            want == text_trees(views(v@)),
            trees(out@) == want.take(k as int),
        decreases v.len() - k,
    {
        let ghost so_far = trees(out@);
        out.push(Json::text(v[k].as_str()));
        assert(trees(out@) =~= so_far.push(want[k as int]));
        assert(want.take(k + 1) =~= want.take(k as int).push(want[k as int]));
        k = k + 1;
    }
    assert(want.take(k as int) =~= want);
    Json::list(out)
}

fn push_action(v: &mut Vec<Action<String, Vec<u8>>>, a: Action<String, Vec<u8>>)
    ensures
        action_views(final(v)@) == action_views(old(v)@).push(action_view(a)),
{
    let ghost so_far = action_views(v@);
    v.push(a);
    assert(action_views(v@) =~= so_far.push(action_view(a)));
}

fn prefixed(text: &str, rest: &str) -> (r: String)
    ensures
        r@ == text@ + rest@,
{
    let mut s = text.to_owned();
    s.append(rest);
    s
}

#[verifier::rlimit(30)]
fn terminal_send(e: &Editor, args: &Json) -> (r: Step)
    ensures
        r@ == send_step(*e, args@),
{
    let text = match args.str_at("text") {
        Some(t) => t,
        None => {
            return fail("terminalSend requires text");
        },
    };
    let mut actions: Vec<Action<String, Vec<u8>>> = Vec::new();
    push_action(&mut actions, Action::ShowTerminal);
    assert(action_views(actions@) =~= seq![ActionView::ShowTerminal]);
    let tab: usize = match target_tab(e, args) {
        Ok(i) => i,
        Err(message) => {
            return Step { actions, reply: Reply::Failed { message } };
        },
    };
    push_action(&mut actions, Action::Paste { tab, text: text.to_owned() });
    let ghost pasted = seq![ActionView::ShowTerminal, ActionView::Paste { tab, text: text@ }];
    assert(action_views(actions@) =~= pasted);
    let keys = match get_keys(args) {
        Some(k) => k,
        None => {
            return Step {
                actions,
                reply: Reply::Failed { message: "keys entries must be strings".to_owned() },
            };
        },
    };
    let ghost kv = views(keys@);
    let n: usize = keys.len();
    let mut k: usize = 0;
    let mut after: u64 = 60;
    assert(pasted + key_actions(tab, kv, 0).0 =~= pasted);
    while k < n
        invariant
            k <= n,
            n == keys@.len(),
            kv == views(keys@),
            keys_arg(args@) == Some(kv),
            args@.str_at("text"@) == Some(text@),
            target(*e, args@) == Ok::<usize, Seq<char>>(tab),
            pasted == seq![ActionView::ShowTerminal, ActionView::Paste { tab, text: text@ }],
            after == delay(k as int),
            key_actions(tab, kv, k as int).1 is None,
            action_views(actions@) == pasted + key_actions(tab, kv, k as int).0,
        decreases n - k,
    {
        match key_bytes(keys[k].as_str()) {
            Some(bytes) => {
                let ghost so_far = key_actions(tab, kv, k as int).0;
                let ghost one = ActionView::QueueKey { tab, after, bytes: bytes@ };
                push_action(&mut actions, Action::QueueKey { tab, after, bytes });
                assert((pasted + so_far).push(one) =~= pasted + so_far.push(one));
            },
            None => {
                let message = prefixed("unknown key: ", keys[k].as_str());
                proof {
                    lemma_bad_key(tab, kv, k + 1, n as int);
                }
                return Step { actions, reply: Reply::Failed { message } };
            },
        }
        after = if after <= u64::MAX - 20 {
            after + 20
        } else {
            u64::MAX
        };
        k = k + 1;
    }
    push_action(&mut actions, Action::Redraw);
    let mut b = ObjectBuilder::new();
    b.put("ok", Json::Bool(true));
    b.put("id", id_json(id_of(e, tab)));
    b.put_str("text", text);
    b.put("keys", text_list(&keys));
    assert(b@ =~= seq![
        ("ok"@, Tree::Bool(true)),
        ("id"@, id_tree(tab_id(*e, tab))),
        ("text"@, Tree::Str(text@)),
        ("keys"@, Tree::Arr(text_trees(kv))),
    ]);
    Step { actions, reply: Reply::Done { value: b.build() } }
}

proof fn lemma_bad_key(tab: usize, keys: Seq<Seq<char>>, k: int, n: int)
    requires
        0 <= k <= n,
        key_actions(tab, keys, k).1 is Some,
    ensures
        key_actions(tab, keys, n) == key_actions(tab, keys, k),
    decreases n - k,
{
    if k < n {
        lemma_bad_key(tab, keys, k, n - 1);
    }
}

/// The step of `terminalSendKey`.
pub open spec fn key_step(e: Editor, args: Tree) -> StepView {
    match args.str_at("key"@) {
        None => fails("terminalSendKey requires key"@),
        Some(key) => match key_code(key) {
            None => fails("unknown key: "@ + key),
            Some(bytes) => match target(e, args) {
                Err(message) => StepView {
                    actions: seq![Action::ShowTerminal],
                    reply: Reply::Failed { message },
                },
                Ok(tab) => StepView {
                    actions: seq![
                        Action::ShowTerminal,
                        Action::WriteKey { tab, bytes },
                        Action::Redraw,
                    ],
                    reply: Reply::Done {
                        value: Tree::Obj(
                            seq![
                                ("ok"@, Tree::Bool(true)),
                                ("id"@, id_tree(tab_id(e, tab))),
                                ("key"@, Tree::Str(key)),
                            ],
                        ),
                    },
                },
            },
        },
    }
}

fn send_key(e: &Editor, args: &Json) -> (r: Step)
    ensures
        r@ == key_step(*e, args@),
{
    let key = match args.str_at("key") {
        Some(k) => k,
        None => {
            return fail("terminalSendKey requires key");
        },
    };
    let bytes = match key_bytes(key) {
        Some(b) => b,
        None => {
            return fail(prefixed("unknown key: ", key).as_str());
        },
    };
    let ghost bv = bytes@;
    let mut actions: Vec<Action<String, Vec<u8>>> = Vec::new();
    push_action(&mut actions, Action::ShowTerminal);
    assert(action_views(actions@) =~= seq![ActionView::ShowTerminal]);
    let tab: usize = match target_tab(e, args) {
        Ok(i) => i,
        Err(message) => {
            return Step { actions, reply: Reply::Failed { message } };
        },
    };
    push_action(&mut actions, Action::WriteKey { tab, bytes });
    push_action(&mut actions, Action::Redraw);
    assert(action_views(actions@) =~= seq![
        ActionView::ShowTerminal,
        ActionView::WriteKey { tab, bytes: bv },
        ActionView::Redraw,
    ]);
    let mut b = ObjectBuilder::new();
    b.put("ok", Json::Bool(true));
    b.put("id", id_json(id_of(e, tab)));
    b.put_str("key", key);
    assert(b@ =~= seq![
        ("ok"@, Tree::Bool(true)),
        ("id"@, id_tree(tab_id(*e, tab))),
        ("key"@, Tree::Str(key@)),
    ]);
    Step { actions, reply: Reply::Done { value: b.build() } }
}

/// The step of a call that is for a terminal, once that is known.
pub open spec fn on_target(e: Editor, args: Tree, reply: spec_fn(usize) -> StepView) -> StepView {
    match target(e, args) {
        Ok(tab) => reply(tab),
        Err(message) => fails(message),
    }
}

/// The step of `terminalOutput`.
pub open spec fn output_step(e: Editor, args: Tree) -> StepView {
    on_target(
        e,
        args,
        |tab: usize|
            asks(
                Reply::ReadTab {
                    tab,
                    lines: match args.u64_at("lines"@) {
                        Some(n) => capped(n as int),
                        None => usize::MAX,
                    },
                },
            ),
    )
}

fn read_output(e: &Editor, args: &Json) -> (r: Step)
    ensures
        r@ == output_step(*e, args@),
{
    match target_tab(e, args) {
        Ok(tab) => {
            let lines: usize = match args.u64_at("lines") {
                Some(n) => {
                    if n > usize::MAX as u64 {
                        usize::MAX
                    } else {
                        n as usize
                    }
                },
                None => usize::MAX,
            };
            ask(Reply::ReadTab { tab, lines })
        },
        Err(message) => fail(message.as_str()),
    }
}

/// The answer of `terminalOutput`, once the terminal was read.
pub open spec fn output_tree(e: Editor, tab: usize, output: Seq<char>) -> Tree {
    Tree::Obj(
        seq![
            ("id"@, id_tree(tab_id(e, tab))),
            ("index"@, Tree::Pos(tab as u64)),
            ("output"@, Tree::Str(output)),
        ],
    )
}

/// The answer of `terminalOutput`, once the terminal was read.
pub fn finish_output(e: &Editor, tab: usize, output: &str) -> (r: Json)
    ensures
        r@ == output_tree(*e, tab, output@),
{
    let mut b = ObjectBuilder::new();
    b.put("id", id_json(id_of(e, tab)));
    b.put("index", Json::Pos(tab as u64));
    b.put_str("output", output);
    assert(b@ =~= output_tree(*e, tab, output@)->Obj_0);
    b.build()
}

/// The step of `newTerminal`.
pub open spec fn new_tab_step(args: Tree) -> StepView {
    StepView {
        actions: seq![Action::ShowTerminal],
        reply: Reply::NewTab { name: args.str_at("name"@), focus: flag(args, "focus"@, true) },
    }
}

fn new_tab(args: &Json) -> (r: Step)
    ensures
        r@ == new_tab_step(args@),
{
    let focus = get_flag(args, "focus", true);
    let name = match args.str_at("name") {
        Some(s) => Some(s.to_owned()),
        None => None,
    };
    let mut actions: Vec<Action<String, Vec<u8>>> = Vec::new();
    push_action(&mut actions, Action::ShowTerminal);
    let s = Step { actions, reply: Reply::NewTab { name, focus } };
    assert(s@.actions =~= new_tab_step(args@).actions);
    s
}

/// What follows once a terminal was made at `index`: it gets its name, and without focus
/// the tab that was active before is active again.
pub open spec fn made_tab_step(
    name: Option<Seq<char>>,
    focus: bool,
    previous: usize,
    index: usize,
    id: Option<u64>,
) -> StepView {
    let named = match name {
        Some(n) => seq![ActionView::Rename { tab: index, name: n }],
        None => Seq::empty(),
    };
    let back = if focus {
        Seq::empty()
    } else {
        seq![ActionView::Activate { tab: previous }]
    };
    StepView {
        actions: (named + back).push(Action::Redraw),
        reply: Reply::Done {
            value: Tree::Obj(
                seq![
                    ("ok"@, Tree::Bool(true)),
                    ("id"@, id_tree(id)),
                    ("index"@, Tree::Pos(index as u64)),
                ],
            ),
        },
    }
}

/// What follows once a terminal was made at `index`.
pub fn finish_new_tab(
    name: &Option<String>,
    focus: bool,
    previous: usize,
    index: usize,
    id: Option<u64>,
) -> (r: Step)
    ensures
        r@ == made_tab_step(opt_view(*name), focus, previous, index, id),
{
    let mut actions: Vec<Action<String, Vec<u8>>> = Vec::new();
    if let Some(n) = name {
        push_action(&mut actions, Action::Rename { tab: index, name: n.as_str().to_owned() });
    }
    if !focus {
        push_action(&mut actions, Action::Activate { tab: previous });
    }
    push_action(&mut actions, Action::Redraw);
    let mut b = ObjectBuilder::new();
    b.put("ok", Json::Bool(true));
    b.put("id", id_json(id));
    b.put("index", Json::Pos(index as u64));
    let ghost bv = b@;
    let s = Step { actions, reply: Reply::Done { value: b.build() } };
    proof {
        let want = made_tab_step(opt_view(*name), focus, previous, index, id);
        assert(bv =~= want.reply->value->Obj_0);
        assert(s@.actions =~= want.actions);
    }
    s
}

/// The step of `focusTerminal`.
pub open spec fn focus_step(e: Editor, args: Tree) -> StepView {
    on_target(e, args, |tab: usize| asks(Reply::FocusTab { tab }))
}

fn focus_tab(e: &Editor, args: &Json) -> (r: Step)
    ensures
        r@ == focus_step(*e, args@),
{
    match target_tab(e, args) {
        Ok(tab) => ask(Reply::FocusTab { tab }),
        Err(message) => fail(message.as_str()),
    }
}

/// What follows once a tab was focused, or was gone.
pub open spec fn focused_step(e: Editor, tab: usize, focused: bool) -> StepView {
    if focused {
        acts(
            Action::Redraw,
            Tree::Obj(seq![("ok"@, Tree::Bool(true)), ("id"@, id_tree(tab_id(e, tab)))]),
        )
    } else {
        fails("terminal no longer exists"@)
    }
}

fn ok_with_id(e: &Editor, tab: usize) -> (r: Json)
    ensures
        r@ == Tree::Obj(seq![("ok"@, Tree::Bool(true)), ("id"@, id_tree(tab_id(*e, tab)))]),
{
    let mut b = ObjectBuilder::new();
    b.put("ok", Json::Bool(true));
    b.put("id", id_json(id_of(e, tab)));
    assert(b@ =~= seq![("ok"@, Tree::Bool(true)), ("id"@, id_tree(tab_id(*e, tab)))]);
    b.build()
}

/// What follows once a tab was focused, or was gone.
pub fn finish_focus(e: &Editor, tab: usize, focused: bool) -> (r: Step)
    ensures
        r@ == focused_step(*e, tab, focused),
{
    if focused {
        act(Action::Redraw, ok_with_id(e, tab))
    } else {
        fail("terminal no longer exists")
    }
}

/// The words of the first `n` characters, parted by white space, and the word that has begun.
pub open spec fn spaced_to(s: Seq<char>, n: int) -> (Seq<char>, bool)
    decreases n,
{
    if n <= 0 {
        (Seq::empty(), false)
    } else {
        let (out, gap) = spaced_to(s, n - 1);
        if is_white(s[n - 1]) {
            (out, true)
        } else if gap && out.len() > 0 {
            (out.push(' ').push(s[n - 1]), false)
        } else {
            (out.push(s[n - 1]), false)
        }
    }
}

/// The words of a text with one blank between them.
pub open spec fn squeezed(s: Seq<char>) -> Seq<char> {
    spaced_to(s, s.len() as int).0
}

fn squeeze(s: &str) -> (r: String)
    ensures
        r@ == squeezed(s@),
{
    let v = chars_of(s);
    let mut out = String::new();
    let mut gap = false;
    let mut k: usize = 0;
    while k < v.len()
        invariant
            k <= v@.len(),
            (out@, gap) == spaced_to(v@, k as int),
        decreases v.len() - k,
    {
        if white(v[k]) {
            gap = true;
        } else {
            if gap && !out.as_str().is_empty() {
                out.push(' ');
            }
            out.push(v[k]);
            gap = false;
        }
        k = k + 1;
    }
    out
}

/// The body of an issue.
pub open spec fn issue_body(message: Seq<char>, version: Seq<char>) -> Seq<char> {
    message + "\n\n---\n_Filed via Aether's submitFeedback MCP tool \u{2014} aether v"@ + version + "_"@
}

/// The title of an issue: the one given, or the first 80 characters of the message.
pub open spec fn issue_title(args: Tree, message: Seq<char>) -> Seq<char> {
    match args.str_at("title"@) {
        Some(t) => t,
        None => {
            let words = squeezed(message);
            "[feedback] "@ + words.take(
                if 80 <= words.len() {
                    80
                } else {
                    words.len() as int
                },
            )
        },
    }
}

/// The arguments of the GitHub program.
pub open spec fn feedback_args(args: Tree, message: Seq<char>, version: Seq<char>) -> Seq<Seq<char>> {
    match args.u64_at("issue"@) {
        Some(n) => seq![
            "issue"@,
            "comment"@,
            decimal(n as nat),
            "--repo"@,
            "actuallyroy/aether-editor"@,
            "--body"@,
            issue_body(message, version),
        ],
        None => seq![
            "issue"@,
            "create"@,
            "--repo"@,
            "actuallyroy/aether-editor"@,
            "--title"@,
            issue_title(args, message),
            "--body"@,
            issue_body(message, version),
        ],
    }
}

/// The step of `submitFeedback`.
pub open spec fn feedback_step(e: Editor, args: Tree) -> StepView {
    match args.str_at("message"@) {
        Some(message) => asks(
            Reply::Feedback { arguments: feedback_args(args, message, e.version@) },
        ),
        None => fails("submitFeedback requires message"@),
    }
}

fn push_text(v: &mut Vec<String>, s: &str)
    ensures
        views(final(v)@) == views(old(v)@).push(s@),
{
    let ghost so_far = views(v@);
    v.push(s.to_owned());
    assert(views(v@) =~= so_far.push(s@));
}

fn feedback(e: &Editor, args: &Json) -> (r: Step)
    ensures
        r@ == feedback_step(*e, args@),
{
    let message = match args.str_at("message") {
        Some(m) => m,
        None => {
            return fail("submitFeedback requires message");
        },
    };
    let mut body = message.to_owned();
    body.append("\n\n---\n_Filed via Aether's submitFeedback MCP tool \u{2014} aether v");
    body.append(e.version.as_str());
    body.append("_");
    let mut v: Vec<String> = Vec::new();
    push_text(&mut v, "issue");
    match args.u64_at("issue") {
        Some(n) => {
            push_text(&mut v, "comment");
            push_text(&mut v, write_decimal(n).as_str());
            push_text(&mut v, "--repo");
            push_text(&mut v, "actuallyroy/aether-editor");
        },
        None => {
            let title: String = match args.str_at("title") {
                Some(t) => t.to_owned(),
                None => {
                    let words = squeeze(message);
                    let start = take_chars(words.as_str(), 80);
                    prefixed("[feedback] ", start.as_str())
                },
            };
            push_text(&mut v, "create");
            push_text(&mut v, "--repo");
            push_text(&mut v, "actuallyroy/aether-editor");
            push_text(&mut v, "--title");
            push_text(&mut v, title.as_str());
        },
    }
    push_text(&mut v, "--body");
    push_text(&mut v, body.as_str());
    assert(views(v@) =~= feedback_args(args@, message@, e.version@));
    ask(Reply::Feedback { arguments: v })
}

/// How running a program went.
pub enum ProgramRun {
    /// It succeeded; what it wrote.
    Succeeded(String),
    /// It failed; what it wrote about that.
    Failed(String),
    /// It could not be run; why.
    NotRun(String),
}

/// The answer of `submitFeedback`.
pub open spec fn feedback_result(run: ProgramRun) -> Result<Tree, Seq<char>> {
    match run {
        ProgramRun::Succeeded(text) => {
            let lines = bare_lines(trimmed(text@));
            let url = if lines.len() > 0 {
                lines.last()
            } else {
                ""@
            };
            Ok(Tree::Obj(seq![("ok"@, Tree::Bool(true)), ("url"@, Tree::Str(url))]))
        },
        ProgramRun::Failed(text) => Err("gh failed: "@ + trimmed(text@)),
        ProgramRun::NotRun(why) => Err(
            "could not run gh \u{2014} is the GitHub CLI installed and authenticated (`gh auth login`)? "@
                + why@,
        ),
    }
}

/// The answer of `submitFeedback`, once the program was run.
pub fn finish_feedback(run: &ProgramRun) -> (r: Result<Json, String>)
    ensures
        match r {
            Ok(j) => feedback_result(*run) == Ok::<Tree, Seq<char>>(j@),
            Err(m) => feedback_result(*run) == Err::<Tree, Seq<char>>(m@),
        },
{
    match run {
        ProgramRun::Succeeded(text) => {
            let bare = trim(text.as_str());
            let lines = plain_lines(bare.as_str());
            let n: usize = lines.len();
            let ghost lv = views(lines@);
            assert(lv.len() == n);
            let mut b = ObjectBuilder::new();
            b.put("ok", Json::Bool(true));
            if n > 0 {
                assert(lv[n - 1] == lines@[n - 1]@);
                b.put_str("url", lines[n - 1].as_str());
            } else {
                b.put_str("url", "");
            }
            let ghost bv = b@;
            proof {
                let want = feedback_result(*run)->Ok_0;
                assert(bv =~= want->Obj_0);
            }
            Ok(b.build())
        },
        ProgramRun::Failed(text) => {
            let bare = trim(text.as_str());
            Err(prefixed("gh failed: ", bare.as_str()))
        },
        ProgramRun::NotRun(why) => Err(
            prefixed(
                "could not run gh \u{2014} is the GitHub CLI installed and authenticated (`gh auth login`)? ",
                why.as_str(),
            ),
        ),
    }
}

/// What `listTerminals` says of a tab.
pub open spec fn tab_tree(e: Editor, i: int) -> Tree {
    Tree::Obj(
        seq![
            ("id"@, id_tree(e.tabs@[i].id)),
            ("index"@, Tree::Pos(i as u64)),
            ("title"@, Tree::Str(e.tabs@[i].title@)),
            ("active"@, Tree::Bool(i == e.active_tab)),
        ],
    )
}

/// The answer of `listTerminals`.
pub open spec fn terminals_tree(e: Editor) -> Tree {
    Tree::Obj(
        seq![("terminals"@, Tree::Arr(Seq::new(e.tabs@.len(), |i: int| tab_tree(e, i))))],
    )
}

fn terminals(e: &Editor) -> (r: Json)
    ensures
        r@ == terminals_tree(*e),
{
    let ghost want = Seq::new(e.tabs@.len(), |i: int| tab_tree(*e, i));
    let mut v: Vec<Json> = Vec::new();
    assert(trees(v@) =~= want.take(0));
    let mut k: usize = 0;
    while k < e.tabs.len()
        invariant
            k <= e.tabs@.len(),
            want == Seq::new(e.tabs@.len(), |i: int| tab_tree(*e, i)),
            trees(v@) == want.take(k as int),
        decreases e.tabs.len() - k,
    {
        let mut b = ObjectBuilder::new();
        b.put("id", id_json(e.tabs[k].id));
        b.put("index", Json::Pos(k as u64));
        b.put_str("title", e.tabs[k].title.as_str());
        b.put("active", Json::Bool(k == e.active_tab));
        assert(b@ =~= tab_tree(*e, k as int)->Obj_0);
        let ghost so_far = trees(v@);
        let one = b.build();
        let ghost ov = one@;
        v.push(one);
        assert(trees(v@) =~= so_far.push(ov));
        assert(want.take(k + 1) =~= want.take(k as int).push(want[k as int]));
        k = k + 1;
    }
    assert(want.take(k as int) =~= want);
    let mut b = ObjectBuilder::new();
    b.put("terminals", Json::list(v));
    assert(b@ =~= terminals_tree(*e)->Obj_0);
    b.build()
}

/// The step of `renameTerminal`.
pub open spec fn rename_step(e: Editor, args: Tree) -> StepView {
    match args.str_at("name"@) {
        Some(name) => on_target(
            e,
            args,
            |tab: usize|
                acts(
                    Action::Rename { tab, name },
                    Tree::Obj(seq![("ok"@, Tree::Bool(true)), ("id"@, id_tree(tab_id(e, tab)))]),
                ),
        ),
        None => fails("renameTerminal requires name"@),
    }
}

fn rename(e: &Editor, args: &Json) -> (r: Step)
    ensures
        r@ == rename_step(*e, args@),
{
    match args.str_at("name") {
        Some(name) => match target_tab(e, args) {
            Ok(tab) => act(Action::Rename { tab, name: name.to_owned() }, ok_with_id(e, tab)),
            Err(message) => fail(message.as_str()),
        },
        None => fail("renameTerminal requires name"),
    }
}

/// The answer of `listWindows`.
pub open spec fn windows_tree(v: Seq<WindowInfo>) -> Tree {
    Tree::Obj(
        seq![
            (
                "windows"@,
                Tree::Arr(
                    Seq::new(
                        v.len(),
                        |i: int|
                            Tree::Obj(
                                seq![
                                    ("pid"@, Tree::Pos(v[i].pid)),
                                    ("workspace"@, Tree::Str(v[i].workspace@)),
                                ],
                            ),
                    ),
                ),
            ),
        ],
    )
}

/// The answer of `listWindows`, once the other windows are known.
pub fn finish_windows(windows: &Vec<WindowInfo>) -> (r: Json)
    ensures
        r@ == windows_tree(windows@),
{
    let ghost want = windows_tree(windows@)->Obj_0[0].1->Arr_0;
    let mut v: Vec<Json> = Vec::new();
    assert(trees(v@) =~= want.take(0));
    let mut k: usize = 0;
    while k < windows.len()
        invariant
            k <= windows@.len(),
            want == windows_tree(windows@)->Obj_0[0].1->Arr_0,
            trees(v@) == want.take(k as int),
        decreases windows.len() - k,
    {
        let mut b = ObjectBuilder::new();
        b.put("pid", Json::Pos(windows[k].pid));
        b.put_str("workspace", windows[k].workspace.as_str());
        assert(b@ =~= want[k as int]->Obj_0);
        let ghost so_far = trees(v@);
        let one = b.build();
        let ghost ov = one@;
        v.push(one);
        assert(trees(v@) =~= so_far.push(ov));
        assert(want.take(k + 1) =~= want.take(k as int).push(want[k as int]));
        k = k + 1;
    }
    assert(want.take(k as int) =~= want);
    let mut b = ObjectBuilder::new();
    b.put("windows", Json::list(v));
    assert(b@ =~= windows_tree(windows@)->Obj_0);
    b.build()
}

/// The step of `controlWindow`.
pub open spec fn control_step(args: Tree) -> StepView {
    match args.u64_at("pid"@) {
        None => fails("controlWindow requires pid"@),
        Some(pid) => match args.str_at("tool"@) {
            None => fails("controlWindow requires tool"@),
            Some(tool) => asks(
                Reply::Control {
                    pid,
                    tool,
                    args: match args.get("arguments"@) {
                        Some(a) => a,
                        None => Tree::Obj(Seq::empty()),
                    },
                },
            ),
        },
    }
}

fn control(args: &Json) -> (r: Step)
    ensures
        r@ == control_step(args@),
{
    let pid: u64 = match args.u64_at("pid") {
        Some(p) => p,
        None => {
            return fail("controlWindow requires pid");
        },
    };
    let tool = match args.str_at("tool") {
        Some(t) => t,
        None => {
            return fail("controlWindow requires tool");
        },
    };
    let inner = match args.get("arguments") {
        Some(a) => a.copy(),
        None => ObjectBuilder::new().build(),
    };
    ask(Reply::Control { pid, tool: tool.to_owned(), args: inner })
}

/// The first window of a process, from the `k`-th on.
pub open spec fn window_with_pid(v: Seq<WindowInfo>, pid: u64, k: int) -> Option<usize>
    decreases v.len() - k,
{
    if k >= v.len() {
        None
    } else if v[k].pid == pid {
        Some(k as usize)
    } else {
        window_with_pid(v, pid, k + 1)
    }
}

/// The window that `controlWindow` drives.
pub fn pick_window(windows: &Vec<WindowInfo>, pid: u64) -> (r: Result<usize, String>)
    ensures
        match r {
            Ok(i) => i < windows@.len() && window_with_pid(windows@, pid, 0) == Some(i),
            Err(m) => window_with_pid(windows@, pid, 0) is None && m@
                == "no running window with pid "@ + decimal(pid as nat),
        },
{
    let n: usize = windows.len();
    let mut k: usize = 0;
    while k < n
        invariant
            n == windows@.len(),
            k <= n,
            window_with_pid(windows@, pid, k as int) == window_with_pid(windows@, pid, 0),
        decreases n - k,
    {
        if windows[k].pid == pid {
            return Ok(k);
        }
        k = k + 1;
    }
    Err(numbered("no running window with pid ", pid))
}

/// The step of `stopVoice`.
pub open spec fn stop_step() -> StepView {
    StepView {
        actions: seq![Action::StopVoice, Action::Redraw],
        reply: Reply::Done { value: ok_tree() },
    }
}

fn stop_voice() -> (r: Step)
    ensures
        r@ == stop_step(),
{
    let mut actions: Vec<Action<String, Vec<u8>>> = Vec::new();
    push_action(&mut actions, Action::StopVoice);
    push_action(&mut actions, Action::Redraw);
    let s = Step { actions, reply: Reply::Done { value: ok_json() } };
    assert(s@.actions =~= stop_step().actions);
    s
}

/// Whether a tab is the one meant by the end of a path: its own path or its name ends so.
pub open spec fn is_meant(d: OpenDoc, path: Seq<char>) -> bool {
    (match d.path {
        Some(p) => ends(p@, path),
        None => false,
    }) || ends(d.name@, path)
}

/// The first tab that is meant, from the `k`-th on.
pub open spec fn doc_meant(docs: Seq<OpenDoc>, path: Seq<char>, k: int) -> Option<usize>
    decreases docs.len() - k,
{
    if k >= docs.len() {
        None
    } else if is_meant(docs[k], path) {
        Some(k as usize)
    } else {
        doc_meant(docs, path, k + 1)
    }
}

/// The tab that `closeEditor` closes.
pub open spec fn doc_target(e: Editor, args: Tree) -> Result<usize, Seq<char>> {
    match args.str_at("filePath"@) {
        Some(path) => match doc_meant(e.docs@, path, 0) {
            Some(i) => Ok(i),
            None => Err("no open editor matches "@ + path),
        },
        None => match args.u64_at("index"@) {
            Some(i) => if i < e.docs@.len() {
                Ok(i as usize)
            } else {
                Err("no editor at index "@ + decimal(i as nat))
            },
            None => match e.active {
                Some(a) => Ok(a.index),
                None => Err("no active editor"@),
            },
        },
    }
}

fn find_doc(e: &Editor, args: &Json) -> (r: Result<usize, String>)
    ensures
        match r {
            Ok(i) => doc_target(*e, args@) == Ok::<usize, Seq<char>>(i),
            Err(m) => doc_target(*e, args@) == Err::<usize, Seq<char>>(m@),
        },
{
    match args.str_at("filePath") {
        Some(path) => {
            let n: usize = e.docs.len();
            let mut k: usize = 0;
            while k < n
                invariant
                    n == e.docs@.len(),
                    k <= n,
                    args@.str_at("filePath"@) == Some(path@),
                    doc_meant(e.docs@, path@, k as int) == doc_meant(e.docs@, path@, 0),
                decreases n - k,
            {
                let d = &e.docs[k];
                let by_path = match &d.path {
                    Some(p) => ends_with(p.as_str(), path),
                    None => false,
                };
                if by_path || ends_with(d.name.as_str(), path) {
                    return Ok(k);
                }
                k = k + 1;
            }
            Err(prefixed("no open editor matches ", path))
        },
        None => match args.u64_at("index") {
            Some(i) => {
                if i < e.docs.len() as u64 {
                    Ok(i as usize)
                } else {
                    Err(numbered("no editor at index ", i))
                }
            },
            None => match &e.active {
                Some(a) => Ok(a.index),
                None => Err("no active editor".to_owned()),
            },
        },
    }
}

/// The step of `closeEditor`.
pub open spec fn close_step(e: Editor, args: Tree) -> StepView {
    if args.get("filePath"@) is None && args.get("index"@) is None && e.docs@.len() == 0 {
        answers(
            Tree::Obj(
                seq![("ok"@, Tree::Bool(true)), ("note"@, Tree::Str("no editors are open"@))],
            ),
        )
    } else {
        match doc_target(e, args) {
            Ok(index) => acts(
                Action::Close { index },
                Tree::Obj(
                    seq![("ok"@, Tree::Bool(true)), ("closed"@, Tree::Pos(index as u64))],
                ),
            ),
            Err(message) => fails(message),
        }
    }
}

fn close_editor(e: &Editor, args: &Json) -> (r: Step)
    ensures
        r@ == close_step(*e, args@),
{
    let mut b = ObjectBuilder::new();
    b.put("ok", Json::Bool(true));
    if args.get("filePath").is_none() && args.get("index").is_none() && e.docs.len() == 0 {
        b.put_str("note", "no editors are open");
        assert(b@ =~= seq![("ok"@, Tree::Bool(true)), ("note"@, Tree::Str("no editors are open"@))]);
        return answer(b.build());
    }
    match find_doc(e, args) {
        Ok(index) => {
            b.put("closed", Json::Pos(index as u64));
            assert(b@ =~= seq![("ok"@, Tree::Bool(true)), ("closed"@, Tree::Pos(index as u64))]);
            act(Action::Close { index }, b.build())
        },
        Err(message) => fail(message.as_str()),
    }
}

/// The number of the first `n` tabs with unsaved changes.
pub open spec fn dirty_count(docs: Seq<OpenDoc>, n: int) -> int
    decreases n,
{
    if n <= 0 {
        0
    } else {
        dirty_count(docs, n - 1) + (if docs[n - 1].dirty {
            1int
        } else {
            0
        })
    }
}

/// The step of `closeAllEditors`: tabs without unsaved changes close at once, and the first
/// of the others asks.
pub open spec fn close_all_step(e: Editor) -> StepView {
    let dirty = dirty_count(e.docs@, e.docs@.len() as int);
    StepView {
        actions: (if dirty > 0 {
            seq![ActionView::CloseClean, ActionView::Close { index: 0 }]
        } else {
            seq![ActionView::CloseClean]
        }).push(Action::Redraw),
        reply: Reply::Done {
            value: Tree::Obj(
                seq![("ok"@, Tree::Bool(true)), ("dirtyRemaining"@, Tree::Pos(dirty as u64))],
            ),
        },
    }
}

fn close_all(e: &Editor) -> (r: Step)
    ensures
        r@ == close_all_step(*e),
{
    let mut dirty: u64 = 0;
    let mut k: usize = 0;
    while k < e.docs.len()
        invariant
            k <= e.docs@.len(),
            dirty <= k,
            dirty == dirty_count(e.docs@, k as int),
        decreases e.docs.len() - k,
    {
        if e.docs[k].dirty {
            dirty = dirty + 1;
        }
        k = k + 1;
    }
    let mut actions: Vec<Action<String, Vec<u8>>> = Vec::new();
    push_action(&mut actions, Action::CloseClean);
    if dirty > 0 {
        push_action(&mut actions, Action::Close { index: 0 });
    }
    push_action(&mut actions, Action::Redraw);
    let mut b = ObjectBuilder::new();
    b.put("ok", Json::Bool(true));
    b.put("dirtyRemaining", Json::Pos(dirty));
    let ghost bv = b@;
    let s = Step { actions, reply: Reply::Done { value: b.build() } };
    proof {
        let want = close_all_step(*e);
        assert(bv =~= want.reply->value->Obj_0);
        assert(s@.actions =~= want.actions);
    }
    s
}

/// A score in tenths, as a number with one digit behind the point. Scores are whole tenths
/// throughout, so that two of them tie exactly where they are equal; the digits that a binary
/// fraction of the same score has further behind the point are not written.
pub open spec fn score_tree(tenths: usize) -> Tree {
    Tree::Real(decimal((tenths / 10) as nat) + "."@ + decimal((tenths % 10) as nat))
}

fn score_json(tenths: usize) -> (r: Json)
    ensures
        r@ == score_tree(tenths),
{
    let mut s = write_decimal((tenths / 10) as u64);
    s.append(".");
    s.append(write_decimal((tenths % 10) as u64).as_str());
    Json::Real(s)
}

/// What `searchWorkspace` says of a hit.
pub open spec fn file_hit_tree(h: HitView) -> Tree {
    Tree::Obj(
        seq![
            ("filePath"@, Tree::Str(h.file)),
            ("line"@, Tree::Pos(h.line as u64)),
            ("score"@, score_tree(h.score)),
            ("text"@, Tree::Str(h.text)),
        ],
    )
}

/// What `searchTerminal` says of a hit.
pub open spec fn line_hit_tree(h: HitView) -> Tree {
    Tree::Obj(
        seq![
            ("line"@, Tree::Pos(h.line as u64)),
            ("score"@, score_tree(h.score)),
            ("text"@, Tree::Str(h.text)),
        ],
    )
}

/// The first hits, `max` at most.
pub open spec fn hit_trees(hits: Seq<HitView>, max: usize, files: bool) -> Seq<Tree> {
    Seq::new(
        (if hits.len() <= max {
            hits.len()
        } else {
            max as nat
        }),
        |i: int|
            if files {
                file_hit_tree(hits[i])
            } else {
                line_hit_tree(hits[i])
            },
    )
}

fn hit_list(hits: &Vec<Hit>, max: usize, files: bool) -> (r: Json)
    ensures
        r@ == Tree::Arr(hit_trees(hit_views(hits@), max, files)),
{
    let ghost hv = hit_views(hits@);
    let ghost want = hit_trees(hv, max, files);
    let mut v: Vec<Json> = Vec::new();
    assert(trees(v@) =~= want.take(0));
    let mut k: usize = 0;
    while k < hits.len() && k < max
        invariant
            k <= hits@.len(),
            k <= max,
            hv == hit_views(hits@),
            want == hit_trees(hv, max, files),
            trees(v@) == want.take(k as int),
        decreases hits.len() - k,
    {
        let h = &hits[k];
        assert(hv[k as int] == h@);
        let mut b = ObjectBuilder::new();
        if files {
            b.put_str("filePath", h.file.as_str());
        }
        b.put("line", Json::Pos(h.line as u64));
        b.put("score", score_json(h.score));
        b.put_str("text", h.text.as_str());
        assert(b@ =~= want[k as int]->Obj_0);
        let ghost so_far = trees(v@);
        let one = b.build();
        let ghost ov = one@;
        v.push(one);
        assert(trees(v@) =~= so_far.push(ov));
        assert(want.take(k + 1) =~= want.take(k as int).push(want[k as int]));
        k = k + 1;
    }
    assert(want.take(k as int) =~= want);
    Json::list(v)
}

/// The answer of `searchWorkspace`.
pub open spec fn files_found_tree(query: Seq<char>, hits: Seq<HitView>, max: usize, truncated: bool) -> Tree {
    Tree::Obj(
        seq![
            ("query"@, Tree::Str(query)),
            ("results"@, Tree::Arr(hit_trees(hits, max, true))),
            ("truncated"@, Tree::Bool(truncated)),
        ],
    )
}

/// The answer of `searchWorkspace`, once the files were scanned.
pub fn finish_search_files(query: &str, hits: &Vec<Hit>, max: usize, truncated: bool) -> (r: Json)
    ensures
        r@ == files_found_tree(query@, hit_views(hits@), max, truncated),
{
    let mut b = ObjectBuilder::new();
    b.put_str("query", query);
    b.put("results", hit_list(hits, max, true));
    b.put("truncated", Json::Bool(truncated));
    assert(b@ =~= files_found_tree(query@, hit_views(hits@), max, truncated)->Obj_0);
    b.build()
}

/// Whether a query looks for nothing.
pub open spec fn says_nothing(query: Seq<char>) -> bool {
    ranker_of(query).terms.len() == 0 && ranker_of(query).phrases.len() == 0
}

/// The step of `searchWorkspace`.
pub open spec fn search_files_step(e: Editor, args: Tree) -> StepView {
    match args.str_at("query"@) {
        None => fails("searchWorkspace requires query"@),
        Some(query) => if says_nothing(query) {
            answers(files_found_tree(query, Seq::empty(), 1, false))
        } else {
            asks(
                Reply::SearchFiles {
                    query,
                    root: match args.str_at("path"@) {
                        Some(p) => joined_path(e.cwd@, p),
                        None => e.cwd@,
                    },
                    max: count_arg(args, "maxResults"@, 30),
                },
            )
        },
    }
}

fn search_files(e: &Editor, args: &Json) -> (r: Step)
    ensures
        r@ == search_files_step(*e, args@),
{
    let query = match args.str_at("query") {
        Some(q) => q,
        None => {
            return fail("searchWorkspace requires query");
        },
    };
    if Ranker::new(query).is_empty() {
        let none: Vec<Hit> = Vec::new();
        assert(hit_views(none@) =~= Seq::<HitView>::empty());
        return answer(finish_search_files(query, &none, 1, false));
    }
    let root: String = match args.str_at("path") {
        Some(p) => join(e.cwd.as_str(), p),
        None => e.cwd.as_str().to_owned(),
    };
    let max: usize = get_count(args, "maxResults", 30);
    ask(Reply::SearchFiles { query: query.to_owned(), root, max })
}

/// The step of `searchTerminal`.
pub open spec fn search_tab_step(e: Editor, args: Tree) -> StepView {
    match args.str_at("query"@) {
        None => fails("searchTerminal requires query"@),
        Some(query) => on_target(
            e,
            args,
            |tab: usize|
                asks(
                    Reply::SearchTab { query, tab, max: count_arg(args, "maxResults"@, 20) },
                ),
        ),
    }
}

fn search_tab(e: &Editor, args: &Json) -> (r: Step)
    ensures
        r@ == search_tab_step(*e, args@),
{
    match args.str_at("query") {
        None => fail("searchTerminal requires query"),
        Some(query) => match target_tab(e, args) {
            Ok(tab) => {
                let max: usize = get_count(args, "maxResults", 20);
                ask(Reply::SearchTab { query: query.to_owned(), tab, max })
            },
            Err(message) => fail(message.as_str()),
        },
    }
}

/// The answer of `searchTerminal`.
pub open spec fn lines_found_tree(e: Editor, query: Seq<char>, tab: usize, max: usize, output: Seq<char>) -> Tree {
    let lines = bare_lines(output);
    let hits = if says_nothing(query) {
        Seq::empty()
    } else {
        best_first(stream_hits(ranker_of(query), lines, lines.len() as int))
    };
    Tree::Obj(
        seq![
            ("query"@, Tree::Str(query)),
            ("id"@, id_tree(tab_id(e, tab))),
            ("results"@, Tree::Arr(hit_trees(hits, max, false))),
        ],
    )
}

/// The answer of `searchTerminal`, once the terminal was read.
pub fn finish_search_tab(e: &Editor, query: &str, tab: usize, max: usize, output: &str) -> (r: Json)
    ensures
        r@ == lines_found_tree(*e, query@, tab, max, output@),
{
    let ranker = Ranker::new(query);
    let hits: Vec<Hit> = if ranker.is_empty() {
        let none: Vec<Hit> = Vec::new();
        assert(hit_views(none@) =~= Seq::<HitView>::empty());
        none
    } else {
        let lines = plain_lines(output);
        assert(views(lines@).len() == lines@.len());
        search_lines(&lines, &ranker)
    };
    let mut b = ObjectBuilder::new();
    b.put_str("query", query);
    b.put("id", id_json(id_of(e, tab)));
    b.put("results", hit_list(&hits, max, false));
    assert(b@ =~= lines_found_tree(*e, query@, tab, max, output@)->Obj_0);
    b.build()
}

/// The step of `saveActiveFile`.
pub open spec fn save_step(e: Editor) -> StepView {
    match active_of(e) {
        Some(_) => asks(Reply::Save),
        None => fails("no active document"@),
    }
}

fn save(e: &Editor) -> (r: Step)
    ensures
        r@ == save_step(*e),
{
    match active_doc(e) {
        Some(_) => ask(Reply::Save),
        None => fail("no active document"),
    }
}

/// The answer of `saveActiveFile`, once it was tried.
pub fn finish_save(error: Option<&str>) -> (r: Result<Json, String>)
    ensures
        match (error, r) {
            (None, Ok(j)) => j@ == ok_tree(),
            (Some(e), Err(m)) => m@ == "save failed: "@ + e@,
            _ => false,
        },
{
    match error {
        None => Ok(ok_json()),
        Some(e) => Err(prefixed("save failed: ", e)),
    }
}

/// A changed path of the working tree.
pub struct Change {
    pub staged: char,
    pub worktree: char,
    pub path: String,
}

/// What `gitStatus` says of a change.
pub open spec fn change_tree(c: Change) -> Tree {
    Tree::Obj(
        seq![
            ("staged"@, Tree::Str(seq![c.staged])),
            ("worktree"@, Tree::Str(seq![c.worktree])),
            ("path"@, Tree::Str(c.path@)),
        ],
    )
}

/// The answer of `gitStatus`.
pub open spec fn status_tree(branch: Option<Seq<char>>, changes: Seq<Change>) -> Tree {
    Tree::Obj(
        seq![
            ("branch"@, text_tree(branch)),
            ("changes"@, Tree::Arr(Seq::new(changes.len(), |i: int| change_tree(changes[i])))),
        ],
    )
}

fn one_char(c: char) -> (r: Json)
    ensures
        r@ == Tree::Str(seq![c]),
{
    let mut s = String::new();
    s.push(c);
    assert(s@ =~= seq![c]);
    Json::Str(s)
}

/// The answer of `gitStatus`, once the repository was asked.
pub fn finish_status(branch: &Option<String>, changes: &Vec<Change>) -> (r: Json)
    ensures
        r@ == status_tree(opt_view(*branch), changes@),
{
    let ghost want = Seq::new(changes@.len(), |i: int| change_tree(changes@[i]));
    let mut v: Vec<Json> = Vec::new();
    assert(trees(v@) =~= want.take(0));
    let mut k: usize = 0;
    while k < changes.len()
        invariant
            k <= changes@.len(),
            want == Seq::new(changes@.len(), |i: int| change_tree(changes@[i])),
            trees(v@) == want.take(k as int),
        decreases changes.len() - k,
    {
        let mut b = ObjectBuilder::new();
        b.put("staged", one_char(changes[k].staged));
        b.put("worktree", one_char(changes[k].worktree));
        b.put_str("path", changes[k].path.as_str());
        assert(b@ =~= change_tree(changes@[k as int])->Obj_0);
        let ghost so_far = trees(v@);
        let one = b.build();
        let ghost ov = one@;
        v.push(one);
        assert(trees(v@) =~= so_far.push(ov));
        assert(want.take(k + 1) =~= want.take(k as int).push(want[k as int]));
        k = k + 1;
    }
    assert(want.take(k as int) =~= want);
    let mut b = ObjectBuilder::new();
    b.put("branch", text_json(branch));
    b.put("changes", Json::list(v));
    assert(b@ =~= status_tree(opt_view(*branch), changes@)->Obj_0);
    b.build()
}

/// What a call of a tool does.
pub open spec fn step_of(e: Editor, name: Seq<char>, args: Tree) -> StepView {
    if name == "getWorkspaceFolders"@ {
        answers(folders_tree(e.cwd@))
    } else if name == "getOpenEditors"@ {
        answers(editors_tree(e))
    } else if name == "getCurrentSelection"@ || name == "getLatestSelection"@ {
        answers(selection_tree(e))
    } else if name == "getDiagnostics"@ {
        answers(diagnostics_tree(e, args))
    } else if name == "openFile"@ {
        open_step(args)
    } else if name == "setCommitMessage"@ {
        message_step(e, args)
    } else if name == "getActiveFile"@ {
        answers(active_tree(e))
    } else if name == "insertText"@ {
        insert_step(e, args)
    } else if name == "saveActiveFile"@ {
        save_step(e)
    } else if name == "runCommand"@ {
        command_step(args)
    } else if name == "gitStatus"@ {
        asks(Reply::GitStatus)
    } else if name == "gitStageAll"@ {
        acts(Action::StageAll, ok_tree())
    } else if name == "gitCommit"@ {
        commit_step(args)
    } else if name == "terminalSend"@ {
        send_step(e, args)
    } else if name == "terminalSendKey"@ {
        key_step(e, args)
    } else if name == "terminalOutput"@ {
        output_step(e, args)
    } else if name == "newTerminal"@ {
        new_tab_step(args)
    } else if name == "focusTerminal"@ {
        focus_step(e, args)
    } else if name == "submitFeedback"@ {
        feedback_step(e, args)
    } else if name == "listTerminals"@ {
        answers(terminals_tree(e))
    } else if name == "renameTerminal"@ {
        rename_step(e, args)
    } else if name == "listWindows"@ {
        asks(Reply::Windows)
    } else if name == "controlWindow"@ {
        control_step(args)
    } else if name == "stopVoice"@ {
        stop_step()
    } else if name == "closeEditor"@ {
        close_step(e, args)
    } else if name == "closeAllEditors"@ {
        close_all_step(e)
    } else if name == "searchWorkspace"@ {
        search_files_step(e, args)
    } else if name == "searchTerminal"@ {
        search_tab_step(e, args)
    } else {
        fails("unknown tool: "@ + name)
    }
}

/// Runs one tool against the editor: the actions to take, in order, and the reply.
pub fn execute(e: &Editor, name: &str, args: &Json) -> (r: Step)
    ensures
        r@ == step_of(*e, name@, args@),
{
    if same(name, "getWorkspaceFolders") {
        answer(folders(e))
    } else if same(name, "getOpenEditors") {
        answer(editors(e))
    } else if same(name, "getCurrentSelection") || same(name, "getLatestSelection") {
        answer(selection(e))
    } else if same(name, "getDiagnostics") {
        answer(diagnostics(e, args))
    } else if same(name, "openFile") {
        open_file(args)
    } else if same(name, "setCommitMessage") {
        set_message(e, args)
    } else if same(name, "getActiveFile") {
        answer(active_file(e))
    } else if same(name, "insertText") {
        insert_text(e, args)
    } else if same(name, "saveActiveFile") {
        save(e)
    } else if same(name, "runCommand") {
        run_command(args)
    } else if same(name, "gitStatus") {
        ask(Reply::GitStatus)
    } else if same(name, "gitStageAll") {
        act(Action::StageAll, ok_json())
    } else if same(name, "gitCommit") {
        commit(args)
    } else if same(name, "terminalSend") {
        terminal_send(e, args)
    } else if same(name, "terminalSendKey") {
        send_key(e, args)
    } else if same(name, "terminalOutput") {
        read_output(e, args)
    } else if same(name, "newTerminal") {
        new_tab(args)
    } else if same(name, "focusTerminal") {
        focus_tab(e, args)
    } else if same(name, "submitFeedback") {
        feedback(e, args)
    } else if same(name, "listTerminals") {
        answer(terminals(e))
    } else if same(name, "renameTerminal") {
        rename(e, args)
    } else if same(name, "listWindows") {
        ask(Reply::Windows)
    } else if same(name, "controlWindow") {
        control(args)
    } else if same(name, "stopVoice") {
        stop_voice()
    } else if same(name, "closeEditor") {
        close_editor(e, args)
    } else if same(name, "closeAllEditors") {
        close_all(e)
    } else if same(name, "searchWorkspace") {
        search_files(e, args)
    } else if same(name, "searchTerminal") {
        search_tab(e, args)
    } else {
        fail(prefixed("unknown tool: ", name).as_str())
    }
}

/// Whether a tool of this name is run.
pub open spec fn is_run(name: Seq<char>) -> bool {
    name == "getWorkspaceFolders"@
        || name == "getOpenEditors"@
        || name == "getCurrentSelection"@
        || name == "getLatestSelection"@
        || name == "getDiagnostics"@
        || name == "openFile"@
        || name == "setCommitMessage"@
        || name == "getActiveFile"@
        || name == "insertText"@
        || name == "saveActiveFile"@
        || name == "runCommand"@
        || name == "gitStatus"@
        || name == "gitCommit"@
        || name == "gitStageAll"@
        || name == "terminalSend"@
        || name == "terminalSendKey"@
        || name == "terminalOutput"@
        || name == "newTerminal"@
        || name == "focusTerminal"@
        || name == "listTerminals"@
        || name == "submitFeedback"@
        || name == "renameTerminal"@
        || name == "listWindows"@
        || name == "controlWindow"@
        || name == "stopVoice"@
        || name == "closeEditor"@
        || name == "closeAllEditors"@
        || name == "searchWorkspace"@
        || name == "searchTerminal"@
}

/// The name under which a tool is listed.
pub open spec fn listed_name(i: int) -> Option<Seq<char>> {
    tool_list()[i].str_at("name"@)
}

proof fn lemma_listed_names()
    ensures
        tool_list().len() == 29,
        listed_name(0) == Some("getWorkspaceFolders"@),
        listed_name(1) == Some("getOpenEditors"@),
        listed_name(2) == Some("getCurrentSelection"@),
        listed_name(3) == Some("getLatestSelection"@),
        listed_name(4) == Some("getDiagnostics"@),
        listed_name(5) == Some("openFile"@),
        listed_name(6) == Some("setCommitMessage"@),
        listed_name(7) == Some("getActiveFile"@),
        listed_name(8) == Some("insertText"@),
        listed_name(9) == Some("saveActiveFile"@),
        listed_name(10) == Some("runCommand"@),
        listed_name(11) == Some("gitStatus"@),
        listed_name(12) == Some("gitCommit"@),
        listed_name(13) == Some("gitStageAll"@),
        listed_name(14) == Some("terminalSend"@),
        listed_name(15) == Some("terminalSendKey"@),
        listed_name(16) == Some("terminalOutput"@),
        listed_name(17) == Some("newTerminal"@),
        listed_name(18) == Some("focusTerminal"@),
        listed_name(19) == Some("listTerminals"@),
        listed_name(20) == Some("submitFeedback"@),
        listed_name(21) == Some("renameTerminal"@),
        listed_name(22) == Some("listWindows"@),
        listed_name(23) == Some("controlWindow"@),
        listed_name(24) == Some("stopVoice"@),
        listed_name(25) == Some("closeEditor"@),
        listed_name(26) == Some("closeAllEditors"@),
        listed_name(27) == Some("searchWorkspace"@),
        listed_name(28) == Some("searchTerminal"@),
{
    assert(listed_name(0) == Some("getWorkspaceFolders"@)) by {
        let m = get_workspace_folders_tool()->Obj_0;
        assert(m[0] == ("name"@, Tree::Str("getWorkspaceFolders"@)));
        assert(member_from(m, "name"@, 0) == 0);
    }
    assert(listed_name(1) == Some("getOpenEditors"@)) by {
        let m = get_open_editors_tool()->Obj_0;
        assert(m[0] == ("name"@, Tree::Str("getOpenEditors"@)));
        assert(member_from(m, "name"@, 0) == 0);
    }
    assert(listed_name(2) == Some("getCurrentSelection"@)) by {
        let m = get_current_selection_tool()->Obj_0;
        assert(m[0] == ("name"@, Tree::Str("getCurrentSelection"@)));
        assert(member_from(m, "name"@, 0) == 0);
    }
    assert(listed_name(3) == Some("getLatestSelection"@)) by {
        let m = get_latest_selection_tool()->Obj_0;
        assert(m[0] == ("name"@, Tree::Str("getLatestSelection"@)));
        assert(member_from(m, "name"@, 0) == 0);
    }
    assert(listed_name(4) == Some("getDiagnostics"@)) by {
        let m = get_diagnostics_tool()->Obj_0;
        assert(m[0] == ("name"@, Tree::Str("getDiagnostics"@)));
        assert(member_from(m, "name"@, 0) == 0);
    }
    assert(listed_name(5) == Some("openFile"@)) by {
        let m = open_file_tool()->Obj_0;
        assert(m[0] == ("name"@, Tree::Str("openFile"@)));
        assert(member_from(m, "name"@, 0) == 0);
    }
    assert(listed_name(6) == Some("setCommitMessage"@)) by {
        let m = set_commit_message_tool()->Obj_0;
        assert(m[0] == ("name"@, Tree::Str("setCommitMessage"@)));
        assert(member_from(m, "name"@, 0) == 0);
    }
    assert(listed_name(7) == Some("getActiveFile"@)) by {
        let m = get_active_file_tool()->Obj_0;
        assert(m[0] == ("name"@, Tree::Str("getActiveFile"@)));
        assert(member_from(m, "name"@, 0) == 0);
    }
    assert(listed_name(8) == Some("insertText"@)) by {
        let m = insert_text_tool()->Obj_0;
        assert(m[0] == ("name"@, Tree::Str("insertText"@)));
        assert(member_from(m, "name"@, 0) == 0);
    }
    assert(listed_name(9) == Some("saveActiveFile"@)) by {
        let m = save_active_file_tool()->Obj_0;
        assert(m[0] == ("name"@, Tree::Str("saveActiveFile"@)));
        assert(member_from(m, "name"@, 0) == 0);
    }
    assert(listed_name(10) == Some("runCommand"@)) by {
        let m = run_command_tool()->Obj_0;
        assert(m[0] == ("name"@, Tree::Str("runCommand"@)));
        assert(member_from(m, "name"@, 0) == 0);
    }
    assert(listed_name(11) == Some("gitStatus"@)) by {
        let m = git_status_tool()->Obj_0;
        assert(m[0] == ("name"@, Tree::Str("gitStatus"@)));
        assert(member_from(m, "name"@, 0) == 0);
    }
    assert(listed_name(12) == Some("gitCommit"@)) by {
        let m = git_commit_tool()->Obj_0;
        assert(m[0] == ("name"@, Tree::Str("gitCommit"@)));
        assert(member_from(m, "name"@, 0) == 0);
    }
    assert(listed_name(13) == Some("gitStageAll"@)) by {
        let m = git_stage_all_tool()->Obj_0;
        assert(m[0] == ("name"@, Tree::Str("gitStageAll"@)));
        assert(member_from(m, "name"@, 0) == 0);
    }
    assert(listed_name(14) == Some("terminalSend"@)) by {
        let m = terminal_send_tool()->Obj_0;
        assert(m[0] == ("name"@, Tree::Str("terminalSend"@)));
        assert(member_from(m, "name"@, 0) == 0);
    }
    assert(listed_name(15) == Some("terminalSendKey"@)) by {
        let m = terminal_send_key_tool()->Obj_0;
        assert(m[0] == ("name"@, Tree::Str("terminalSendKey"@)));
        assert(member_from(m, "name"@, 0) == 0);
    }
    assert(listed_name(16) == Some("terminalOutput"@)) by {
        let m = terminal_output_tool()->Obj_0;
        assert(m[0] == ("name"@, Tree::Str("terminalOutput"@)));
        assert(member_from(m, "name"@, 0) == 0);
    }
    assert(listed_name(17) == Some("newTerminal"@)) by {
        let m = new_terminal_tool()->Obj_0;
        assert(m[0] == ("name"@, Tree::Str("newTerminal"@)));
        assert(member_from(m, "name"@, 0) == 0);
    }
    assert(listed_name(18) == Some("focusTerminal"@)) by {
        let m = focus_terminal_tool()->Obj_0;
        assert(m[0] == ("name"@, Tree::Str("focusTerminal"@)));
        assert(member_from(m, "name"@, 0) == 0);
    }
    assert(listed_name(19) == Some("listTerminals"@)) by {
        let m = list_terminals_tool()->Obj_0;
        assert(m[0] == ("name"@, Tree::Str("listTerminals"@)));
        assert(member_from(m, "name"@, 0) == 0);
    }
    assert(listed_name(20) == Some("submitFeedback"@)) by {
        let m = submit_feedback_tool()->Obj_0;
        assert(m[0] == ("name"@, Tree::Str("submitFeedback"@)));
        assert(member_from(m, "name"@, 0) == 0);
    }
    assert(listed_name(21) == Some("renameTerminal"@)) by {
        let m = rename_terminal_tool()->Obj_0;
        assert(m[0] == ("name"@, Tree::Str("renameTerminal"@)));
        assert(member_from(m, "name"@, 0) == 0);
    }
    assert(listed_name(22) == Some("listWindows"@)) by {
        let m = list_windows_tool()->Obj_0;
        assert(m[0] == ("name"@, Tree::Str("listWindows"@)));
        assert(member_from(m, "name"@, 0) == 0);
    }
    assert(listed_name(23) == Some("controlWindow"@)) by {
        let m = control_window_tool()->Obj_0;
        assert(m[0] == ("name"@, Tree::Str("controlWindow"@)));
        assert(member_from(m, "name"@, 0) == 0);
    }
    assert(listed_name(24) == Some("stopVoice"@)) by {
        let m = stop_voice_tool()->Obj_0;
        assert(m[0] == ("name"@, Tree::Str("stopVoice"@)));
        assert(member_from(m, "name"@, 0) == 0);
    }
    assert(listed_name(25) == Some("closeEditor"@)) by {
        let m = close_editor_tool()->Obj_0;
        assert(m[0] == ("name"@, Tree::Str("closeEditor"@)));
        assert(member_from(m, "name"@, 0) == 0);
    }
    assert(listed_name(26) == Some("closeAllEditors"@)) by {
        let m = close_all_editors_tool()->Obj_0;
        assert(m[0] == ("name"@, Tree::Str("closeAllEditors"@)));
        assert(member_from(m, "name"@, 0) == 0);
    }
    assert(listed_name(27) == Some("searchWorkspace"@)) by {
        let m = search_workspace_tool()->Obj_0;
        assert(m[0] == ("name"@, Tree::Str("searchWorkspace"@)));
        assert(member_from(m, "name"@, 0) == 0);
    }
    assert(listed_name(28) == Some("searchTerminal"@)) by {
        let m = search_terminal_tool()->Obj_0;
        assert(m[0] == ("name"@, Tree::Str("searchTerminal"@)));
        assert(member_from(m, "name"@, 0) == 0);
    }
}

/// Whether a call ends in the error for a tool that there is none of.
pub open spec fn is_unknown(s: StepView) -> bool {
    match s.reply {
        Reply::Failed { message } => begins(message, "unknown tool: "@),
        _ => false,
    }
}

proof fn lemma_other_text(message: Seq<char>, k: int)
    requires
        0 <= k < 14,
        k < message.len(),
        message[k] != "unknown tool: "@[k],
    ensures
        !begins(message, "unknown tool: "@),
{
    reveal_strlit("unknown tool: ");
    if begins(message, "unknown tool: "@) {
        assert(message.subrange(0, 14)[k] == message[k]);
    }
}

proof fn lemma_target_errors(e: Editor, args: Tree)
    ensures
        target(e, args) matches Err(message) ==> !begins(message, "unknown tool: "@),
        doc_target(e, args) matches Err(message) ==> !begins(message, "unknown tool: "@),
{
    reveal_strlit("unknown tool: ");
    reveal_strlit("no terminal with id ");
    reveal_strlit("no terminal at index ");
    reveal_strlit("no open editor matches ");
    reveal_strlit("no editor at index ");
    reveal_strlit("no active editor");
    if let Err(message) = target(e, args) {
        assert(message[0] == 'n');
        lemma_other_text(message, 0);
    }
    if let Err(message) = doc_target(e, args) {
        assert(message[0] == 'n');
        lemma_other_text(message, 0);
    }
}

proof fn lemma_plain_errors(e: Editor, args: Tree)
    ensures
        !is_unknown(open_step(args)),
        !is_unknown(message_step(e, args)),
        !is_unknown(insert_step(e, args)),
        !is_unknown(save_step(e)),
        !is_unknown(commit_step(args)),
        !is_unknown(feedback_step(e, args)),
        !is_unknown(control_step(args)),
        !is_unknown(search_files_step(e, args)),
{
    reveal_strlit("unknown tool: ");
    reveal_strlit("openFile requires filePath");
    lemma_other_text("openFile requires filePath"@, 0);
    reveal_strlit("source control panel not available");
    lemma_other_text("source control panel not available"@, 0);
    reveal_strlit("insertText requires text");
    lemma_other_text("insertText requires text"@, 0);
    reveal_strlit("no active document");
    lemma_other_text("no active document"@, 0);
    reveal_strlit("active document is read-only");
    lemma_other_text("active document is read-only"@, 0);
    reveal_strlit("gitCommit requires message");
    lemma_other_text("gitCommit requires message"@, 0);
    reveal_strlit("submitFeedback requires message");
    lemma_other_text("submitFeedback requires message"@, 0);
    reveal_strlit("controlWindow requires pid");
    lemma_other_text("controlWindow requires pid"@, 0);
    reveal_strlit("controlWindow requires tool");
    lemma_other_text("controlWindow requires tool"@, 0);
    reveal_strlit("searchWorkspace requires query");
    lemma_other_text("searchWorkspace requires query"@, 0);
}

proof fn lemma_key_errors(e: Editor, args: Tree)
    ensures
        !is_unknown(command_step(args)),
        !is_unknown(send_step(e, args)),
        !is_unknown(key_step(e, args)),
{
    reveal_strlit("unknown tool: ");
    reveal_strlit("unknown command: ");
    reveal_strlit("unknown key: ");
    reveal_strlit("terminalSend requires text");
    reveal_strlit("keys entries must be strings");
    reveal_strlit("terminalSendKey requires key");
    lemma_other_text("terminalSend requires text"@, 0);
    lemma_other_text("keys entries must be strings"@, 0);
    lemma_other_text("terminalSendKey requires key"@, 0);
    lemma_target_errors(e, args);
    assert forall|text: Seq<char>| !begins(#[trigger] ("unknown command: "@ + text), "unknown tool: "@) by {
        lemma_other_text("unknown command: "@ + text, 8);
    }
    assert forall|text: Seq<char>| !begins(#[trigger] ("unknown key: "@ + text), "unknown tool: "@) by {
        lemma_other_text("unknown key: "@ + text, 8);
    }
}

proof fn lemma_target_steps(e: Editor, args: Tree)
    ensures
        !is_unknown(output_step(e, args)),
        !is_unknown(focus_step(e, args)),
        !is_unknown(rename_step(e, args)),
        !is_unknown(search_tab_step(e, args)),
        !is_unknown(close_step(e, args)),
{
    lemma_target_errors(e, args);
    reveal_strlit("unknown tool: ");
    reveal_strlit("renameTerminal requires name");
    reveal_strlit("searchTerminal requires query");
    lemma_other_text("renameTerminal requires name"@, 0);
    lemma_other_text("searchTerminal requires query"@, 0);
}

/// A tool that is listed is run: whatever its arguments, the call does not end in the error for a
/// tool that there is none of.
pub proof fn law_listed_tools_are_known(e: Editor, name: Seq<char>, args: Tree)
    requires
        is_run(name),
    ensures
        !is_unknown(step_of(e, name, args)),
{
    lemma_plain_errors(e, args);
    lemma_key_errors(e, args);
    lemma_target_steps(e, args);
}

/// Nor does it end so once the work outside is done: no error of saving, of focusing a terminal, of
/// feedback, or of looking for a window reads like that one.
pub proof fn law_finished_tools_are_known(e: Editor, tab: usize, focused: bool, run: ProgramRun, pid: u64, why: Seq<char>)
    ensures
        !is_unknown(focused_step(e, tab, focused)),
        feedback_result(run) matches Err(message) ==> !begins(message, "unknown tool: "@),
        !begins("no running window with pid "@ + decimal(pid as nat), "unknown tool: "@),
        !begins("save failed: "@ + why, "unknown tool: "@),
{
    reveal_strlit("unknown tool: ");
    reveal_strlit("terminal no longer exists");
    reveal_strlit("gh failed: ");
    reveal_strlit("could not run gh \u{2014} is the GitHub CLI installed and authenticated (`gh auth login`)? ");
    reveal_strlit("no running window with pid ");
    reveal_strlit("save failed: ");
    lemma_other_text("terminal no longer exists"@, 0);
    lemma_other_text("no running window with pid "@ + decimal(pid as nat), 0);
    lemma_other_text("save failed: "@ + why, 0);
    if let Err(message) = feedback_result(run) {
        assert(message[0] == 'g' || message[0] == 'c');
        lemma_other_text(message, 0);
    }
}

/// The tools that are run are those that are listed, no more and no fewer; a call of any
/// other name fails.
pub proof fn law_listed_tools_are_run(e: Editor, name: Seq<char>, args: Tree)
    ensures
        is_run(name) <==> exists|i: int|
            0 <= i < tool_list().len() && #[trigger] listed_name(i) == Some(name),
        !is_run(name) ==> step_of(e, name, args) == fails("unknown tool: "@ + name),
{
    lemma_listed_names();
    if is_run(name) {
        let i = if name == "getWorkspaceFolders"@ {
            0int
        } else if name == "getOpenEditors"@ {
            1int
        } else if name == "getCurrentSelection"@ {
            2int
        } else if name == "getLatestSelection"@ {
            3int
        } else if name == "getDiagnostics"@ {
            4int
        } else if name == "openFile"@ {
            5int
        } else if name == "setCommitMessage"@ {
            6int
        } else if name == "getActiveFile"@ {
            7int
        } else if name == "insertText"@ {
            8int
        } else if name == "saveActiveFile"@ {
            9int
        } else if name == "runCommand"@ {
            10int
        } else if name == "gitStatus"@ {
            11int
        } else if name == "gitCommit"@ {
            12int
        } else if name == "gitStageAll"@ {
            13int
        } else if name == "terminalSend"@ {
            14int
        } else if name == "terminalSendKey"@ {
            15int
        } else if name == "terminalOutput"@ {
            16int
        } else if name == "newTerminal"@ {
            17int
        } else if name == "focusTerminal"@ {
            18int
        } else if name == "listTerminals"@ {
            19int
        } else if name == "submitFeedback"@ {
            20int
        } else if name == "renameTerminal"@ {
            21int
        } else if name == "listWindows"@ {
            22int
        } else if name == "controlWindow"@ {
            23int
        } else if name == "stopVoice"@ {
            24int
        } else if name == "closeEditor"@ {
            25int
        } else if name == "closeAllEditors"@ {
            26int
        } else if name == "searchWorkspace"@ {
            27int
        } else {
            28int
        };
        assert(listed_name(i) == Some(name));
    }
}

proof fn lemma_tool_names(e: Editor, args: Tree)
    ensures
        step_of(e, "getWorkspaceFolders"@, args) == answers(folders_tree(e.cwd@)),
        step_of(e, "getOpenEditors"@, args) == answers(editors_tree(e)),
        step_of(e, "getCurrentSelection"@, args) == answers(selection_tree(e)),
        step_of(e, "getLatestSelection"@, args) == answers(selection_tree(e)),
        step_of(e, "getDiagnostics"@, args) == answers(diagnostics_tree(e, args)),
        step_of(e, "openFile"@, args) == open_step(args),
        step_of(e, "setCommitMessage"@, args) == message_step(e, args),
        step_of(e, "getActiveFile"@, args) == answers(active_tree(e)),
        step_of(e, "insertText"@, args) == insert_step(e, args),
        step_of(e, "saveActiveFile"@, args) == save_step(e),
        step_of(e, "runCommand"@, args) == command_step(args),
        step_of(e, "gitStatus"@, args) == asks(Reply::GitStatus),
        step_of(e, "gitStageAll"@, args) == acts(Action::StageAll, ok_tree()),
        step_of(e, "gitCommit"@, args) == commit_step(args),
        step_of(e, "terminalSend"@, args) == send_step(e, args),
        step_of(e, "terminalSendKey"@, args) == key_step(e, args),
        step_of(e, "terminalOutput"@, args) == output_step(e, args),
        step_of(e, "newTerminal"@, args) == new_tab_step(args),
        step_of(e, "focusTerminal"@, args) == focus_step(e, args),
        step_of(e, "submitFeedback"@, args) == feedback_step(e, args),
        step_of(e, "listTerminals"@, args) == answers(terminals_tree(e)),
        step_of(e, "renameTerminal"@, args) == rename_step(e, args),
        step_of(e, "listWindows"@, args) == asks(Reply::Windows),
        step_of(e, "controlWindow"@, args) == control_step(args),
        step_of(e, "stopVoice"@, args) == stop_step(),
        step_of(e, "closeEditor"@, args) == close_step(e, args),
        step_of(e, "closeAllEditors"@, args) == close_all_step(e),
        step_of(e, "searchWorkspace"@, args) == search_files_step(e, args),
        step_of(e, "searchTerminal"@, args) == search_tab_step(e, args),
{
    reveal_strlit("getWorkspaceFolders");
    reveal_strlit("getOpenEditors");
    reveal_strlit("getCurrentSelection");
    reveal_strlit("getLatestSelection");
    reveal_strlit("getDiagnostics");
    reveal_strlit("openFile");
    reveal_strlit("setCommitMessage");
    reveal_strlit("getActiveFile");
    reveal_strlit("insertText");
    reveal_strlit("saveActiveFile");
    reveal_strlit("runCommand");
    reveal_strlit("gitStatus");
    reveal_strlit("gitStageAll");
    reveal_strlit("gitCommit");
    reveal_strlit("terminalSend");
    reveal_strlit("terminalSendKey");
    reveal_strlit("terminalOutput");
    reveal_strlit("newTerminal");
    reveal_strlit("focusTerminal");
    reveal_strlit("submitFeedback");
    reveal_strlit("listTerminals");
    reveal_strlit("renameTerminal");
    reveal_strlit("listWindows");
    reveal_strlit("controlWindow");
    reveal_strlit("stopVoice");
    reveal_strlit("closeEditor");
    reveal_strlit("closeAllEditors");
    reveal_strlit("searchWorkspace");
    reveal_strlit("searchTerminal");
    assert("getWorkspaceFolders"@.len() == 19);
    assert("getOpenEditors"@.len() == 14);
    assert("getCurrentSelection"@.len() == 19);
    assert("getLatestSelection"@.len() == 18);
    assert("getDiagnostics"@.len() == 14);
    assert("openFile"@.len() == 8);
    assert("setCommitMessage"@.len() == 16);
    assert("getActiveFile"@.len() == 13);
    assert("insertText"@.len() == 10);
    assert("saveActiveFile"@.len() == 14);
    assert("runCommand"@.len() == 10);
    assert("gitStatus"@.len() == 9);
    assert("gitStageAll"@.len() == 11);
    assert("gitCommit"@.len() == 9);
    assert("terminalSend"@.len() == 12);
    assert("terminalSendKey"@.len() == 15);
    assert("terminalOutput"@.len() == 14);
    assert("newTerminal"@.len() == 11);
    assert("focusTerminal"@.len() == 13);
    assert("submitFeedback"@.len() == 14);
    assert("listTerminals"@.len() == 13);
    assert("renameTerminal"@.len() == 14);
    assert("listWindows"@.len() == 11);
    assert("controlWindow"@.len() == 13);
    assert("stopVoice"@.len() == 9);
    assert("closeEditor"@.len() == 11);
    assert("closeAllEditors"@.len() == 15);
    assert("searchWorkspace"@.len() == 15);
    assert("searchTerminal"@.len() == 14);
    assert("getWorkspaceFolders"@[3] == 'W' && "getCurrentSelection"@[3] == 'C');
    assert("getOpenEditors"@[3] == 'O' && "getDiagnostics"@[3] == 'D');
    assert("getOpenEditors"@[0] == 'g' && "saveActiveFile"@[0] == 's');
    assert("getOpenEditors"@[0] == 'g' && "terminalOutput"@[0] == 't');
    assert("getOpenEditors"@[0] == 'g' && "submitFeedback"@[0] == 's');
    assert("getOpenEditors"@[0] == 'g' && "renameTerminal"@[0] == 'r');
    assert("getOpenEditors"@[0] == 'g' && "searchTerminal"@[0] == 's');
    assert("getDiagnostics"@[0] == 'g' && "saveActiveFile"@[0] == 's');
    assert("getDiagnostics"@[0] == 'g' && "terminalOutput"@[0] == 't');
    assert("getDiagnostics"@[0] == 'g' && "submitFeedback"@[0] == 's');
    assert("getDiagnostics"@[0] == 'g' && "renameTerminal"@[0] == 'r');
    assert("getDiagnostics"@[0] == 'g' && "searchTerminal"@[0] == 's');
    assert("getActiveFile"@[0] == 'g' && "focusTerminal"@[0] == 'f');
    assert("getActiveFile"@[0] == 'g' && "listTerminals"@[0] == 'l');
    assert("getActiveFile"@[0] == 'g' && "controlWindow"@[0] == 'c');
    assert("insertText"@[0] == 'i' && "runCommand"@[0] == 'r');
    assert("saveActiveFile"@[0] == 's' && "terminalOutput"@[0] == 't');
    assert("saveActiveFile"@[1] == 'a' && "submitFeedback"@[1] == 'u');
    assert("saveActiveFile"@[0] == 's' && "renameTerminal"@[0] == 'r');
    assert("saveActiveFile"@[1] == 'a' && "searchTerminal"@[1] == 'e');
    assert("gitStatus"@[3] == 'S' && "gitCommit"@[3] == 'C');
    assert("gitStatus"@[0] == 'g' && "stopVoice"@[0] == 's');
    assert("gitStageAll"@[0] == 'g' && "newTerminal"@[0] == 'n');
    assert("gitStageAll"@[0] == 'g' && "listWindows"@[0] == 'l');
    assert("gitStageAll"@[0] == 'g' && "closeEditor"@[0] == 'c');
    assert("gitCommit"@[0] == 'g' && "stopVoice"@[0] == 's');
    assert("terminalSendKey"@[0] == 't' && "closeAllEditors"@[0] == 'c');
    assert("terminalSendKey"@[0] == 't' && "searchWorkspace"@[0] == 's');
    assert("terminalOutput"@[0] == 't' && "submitFeedback"@[0] == 's');
    assert("terminalOutput"@[0] == 't' && "renameTerminal"@[0] == 'r');
    assert("terminalOutput"@[0] == 't' && "searchTerminal"@[0] == 's');
    assert("newTerminal"@[0] == 'n' && "listWindows"@[0] == 'l');
    assert("newTerminal"@[0] == 'n' && "closeEditor"@[0] == 'c');
    assert("focusTerminal"@[0] == 'f' && "listTerminals"@[0] == 'l');
    assert("focusTerminal"@[0] == 'f' && "controlWindow"@[0] == 'c');
    assert("submitFeedback"@[0] == 's' && "renameTerminal"@[0] == 'r');
    assert("submitFeedback"@[1] == 'u' && "searchTerminal"@[1] == 'e');
    assert("listTerminals"@[0] == 'l' && "controlWindow"@[0] == 'c');
    assert("renameTerminal"@[0] == 'r' && "searchTerminal"@[0] == 's');
    assert("listWindows"@[0] == 'l' && "closeEditor"@[0] == 'c');
    assert("closeAllEditors"@[0] == 'c' && "searchWorkspace"@[0] == 's');
}

/// The open editors are told in the order of their tabs, each with its path, its name, whether it
/// is the active one and whether it has unsaved changes.
pub proof fn law_editors_are_told(e: Editor, args: Tree, i: int)
    requires
        0 <= i < e.docs@.len(),
    ensures
        ({
            let step = step_of(e, "getOpenEditors"@, args);
            let list = step.reply->value.list_at("editors"@);
            &&& step.actions.len() == 0
            &&& step.reply is Done
            &&& list is Some
            &&& list->0.len() == e.docs@.len()
            &&& list->0[i].get("filePath"@) == Some(
                match e.docs@[i].path {
                    Some(p) => Tree::Str(p@),
                    None => Tree::Null,
                },
            )
            &&& list->0[i].get("name"@) == Some(Tree::Str(e.docs@[i].name@))
            &&& list->0[i].get("active"@) == Some(
                Tree::Bool(e.active is Some && e.active->0.index == i),
            )
            &&& list->0[i].get("dirty"@) == Some(Tree::Bool(e.docs@[i].dirty))
        }),
{
    lemma_tool_names(e, args);
    let top = editors_tree(e);
    assert(top->Obj_0[0].0 == "editors"@);
    crate::json::lemma_get_at(top->Obj_0, "editors"@, 0);
    reveal_strlit("filePath");
    reveal_strlit("name");
    reveal_strlit("active");
    reveal_strlit("dirty");
    assert("filePath"@.len() == 8);
    assert("name"@.len() == 4);
    assert("active"@.len() == 6);
    assert("dirty"@.len() == 5);
    let m = editor_tree(e.docs@[i], is_active(e, i))->Obj_0;
    assert(m[0].0 == "filePath"@);
    assert(m[1].0 == "name"@);
    assert(m[2].0 == "active"@);
    assert(m[3].0 == "dirty"@);
    crate::json::lemma_get_at(m, "filePath"@, 0);
    crate::json::lemma_get_at(m, "name"@, 1);
    crate::json::lemma_get_at(m, "active"@, 2);
    crate::json::lemma_get_at(m, "dirty"@, 3);
}

proof fn lemma_place(p: (u64, u64))
    ensures
        place_tree(p).get("line"@) == Some(Tree::Pos(p.0)),
        place_tree(p).get("character"@) == Some(Tree::Pos(p.1)),
{
    reveal_strlit("line");
    reveal_strlit("character");
    assert("line"@.len() == 4);
    assert("character"@.len() == 9);
    let m = place_tree(p)->Obj_0;
    assert(m[0].0 == "line"@);
    assert(m[1].0 == "character"@);
    crate::json::lemma_get_at(m, "line"@, 0);
    crate::json::lemma_get_at(m, "character"@, 1);
}

/// Whether a value tells where something starts and ends, by line and character.
pub open spec fn tells_stretch(t: Option<Tree>, a: (u64, u64), b: (u64, u64)) -> bool {
    &&& t is Some
    &&& t->0.get("start"@) is Some
    &&& t->0.get("start"@)->0.get("line"@) == Some(Tree::Pos(a.0))
    &&& t->0.get("start"@)->0.get("character"@) == Some(Tree::Pos(a.1))
    &&& t->0.get("end"@) is Some
    &&& t->0.get("end"@)->0.get("line"@) == Some(Tree::Pos(b.0))
    &&& t->0.get("end"@)->0.get("character"@) == Some(Tree::Pos(b.1))
}

proof fn lemma_stretch(a: (u64, u64), b: (u64, u64))
    ensures
        tells_stretch(Some(stretch_tree(a, b)), a, b),
{
    lemma_place(a);
    lemma_place(b);
    reveal_strlit("start");
    reveal_strlit("end");
    assert("start"@.len() == 5);
    assert("end"@.len() == 3);
    let m = stretch_tree(a, b)->Obj_0;
    assert(m[0].0 == "start"@);
    assert(m[1].0 == "end"@);
    crate::json::lemma_get_at(m, "start"@, 0);
    crate::json::lemma_get_at(m, "end"@, 1);
}

/// The selection is told with its text, its file and its place; without an active document there
/// is none.
pub proof fn law_selection_is_told(e: Editor, args: Tree)
    requires
        e.active is Some ==> e.active->0.index < e.docs@.len(),
    ensures
        step_of(e, "getLatestSelection"@, args) == step_of(e, "getCurrentSelection"@, args),
        ({
            let step = step_of(e, "getCurrentSelection"@, args);
            let v = step.reply->value;
            &&& step.actions.len() == 0
            &&& step.reply is Done
            &&& match e.active {
                None => v.get("text"@) == Some(Tree::Str(Seq::empty())) && v.get("isEmpty"@) == Some(
                    Tree::Bool(true),
                ) && v.get("filePath"@) is None,
                Some(a) => v.get("text"@) == Some(
                    Tree::Str(
                        match a.selected {
                            Some(s) => s@,
                            None => Seq::empty(),
                        },
                    ),
                ) && v.get("filePath"@) == Some(
                    match e.docs@[a.index as int].path {
                        Some(p) => Tree::Str(p@),
                        None => Tree::Null,
                    },
                ) && v.get("isEmpty"@) == Some(Tree::Bool(a.empty)) && tells_stretch(
                    v.get("selection"@),
                    a.start,
                    a.end,
                ),
            }
        }),
{
    lemma_tool_names(e, args);
    reveal_strlit("text");
    reveal_strlit("filePath");
    reveal_strlit("isEmpty");
    reveal_strlit("selection");
    reveal_strlit("");
    assert("text"@.len() == 4);
    assert("filePath"@.len() == 8);
    assert("isEmpty"@.len() == 7);
    assert("selection"@.len() == 9);
    assert(""@ =~= Seq::<char>::empty());
    let v = selection_tree(e);
    let m = v->Obj_0;
    match e.active {
        None => {
            assert(m[0].0 == "text"@ && m[1].0 == "isEmpty"@ && m.len() == 2);
            crate::json::lemma_get_at(m, "text"@, 0);
            crate::json::lemma_get_at(m, "isEmpty"@, 1);
            crate::json::law_lookup_gives_the_first_member(v, "filePath"@, Tree::Null);
        },
        Some(a) => {
            lemma_stretch(a.start, a.end);
            assert(m[0].0 == "text"@);
            assert(m[1].0 == "filePath"@);
            assert(m[2].0 == "isEmpty"@);
            assert(m[3].0 == "selection"@);
            crate::json::lemma_get_at(m, "text"@, 0);
            crate::json::lemma_get_at(m, "filePath"@, 1);
            crate::json::lemma_get_at(m, "isEmpty"@, 2);
            crate::json::lemma_get_at(m, "selection"@, 3);
        },
    }
}

/// The active file is told with its text, its language and where the caret stands; without one
/// that is said.
pub proof fn law_active_file_is_told(e: Editor, args: Tree)
    requires
        e.active is Some ==> e.active->0.index < e.docs@.len(),
    ensures
        ({
            let step = step_of(e, "getActiveFile"@, args);
            let v = step.reply->value;
            &&& step.actions.len() == 0
            &&& step.reply is Done
            &&& v.get("open"@) == Some(Tree::Bool(e.active is Some))
            &&& match e.active {
                None => v.get("text"@) is None,
                Some(a) => v.get("path"@) == Some(
                    match e.docs@[a.index as int].path {
                        Some(p) => Tree::Str(p@),
                        None => Tree::Null,
                    },
                ) && v.get("name"@) == Some(Tree::Str(e.docs@[a.index as int].name@)) && v.get(
                    "language"@,
                ) == Some(Tree::Str(a.language@)) && v.get("dirty"@) == Some(
                    Tree::Bool(e.docs@[a.index as int].dirty),
                ) && v.get("text"@) == Some(Tree::Str(a.text@)) && v.get("cursor"@) is Some && v.get(
                    "cursor"@,
                )->0.get("line"@) == Some(Tree::Pos(a.caret.0)) && v.get("cursor"@)->0.get(
                    "character"@,
                ) == Some(Tree::Pos(a.caret.1)),
            }
        }),
{
    lemma_tool_names(e, args);
    reveal_strlit("open");
    reveal_strlit("path");
    reveal_strlit("name");
    reveal_strlit("language");
    reveal_strlit("dirty");
    reveal_strlit("cursor");
    reveal_strlit("text");
    assert("open"@.len() == 4);
    assert("path"@.len() == 4);
    assert("name"@.len() == 4);
    assert("language"@.len() == 8);
    assert("dirty"@.len() == 5);
    assert("cursor"@.len() == 6);
    assert("text"@.len() == 4);
    assert("open"@[0] == 'o' && "path"@[0] == 'p');
    assert("open"@[0] == 'o' && "name"@[0] == 'n');
    assert("open"@[0] == 'o' && "text"@[0] == 't');
    assert("path"@[0] == 'p' && "name"@[0] == 'n');
    assert("path"@[0] == 'p' && "text"@[0] == 't');
    assert("name"@[0] == 'n' && "text"@[0] == 't');
    let v = active_tree(e);
    let m = v->Obj_0;
    assert(m[0].0 == "open"@);
    crate::json::lemma_get_at(m, "open"@, 0);
    match e.active {
        None => crate::json::law_lookup_gives_the_first_member(v, "text"@, Tree::Null),
        Some(a) => {
            lemma_place(a.caret);
            assert(m[0].0 == "open"@);
            assert(m[1].0 == "path"@);
            assert(m[2].0 == "name"@);
            assert(m[3].0 == "language"@);
            assert(m[4].0 == "dirty"@);
            assert(m[5].0 == "cursor"@);
            assert(m[6].0 == "text"@);
            crate::json::lemma_get_at(m, "open"@, 0);
            crate::json::lemma_get_at(m, "path"@, 1);
            crate::json::lemma_get_at(m, "name"@, 2);
            crate::json::lemma_get_at(m, "language"@, 3);
            crate::json::lemma_get_at(m, "dirty"@, 4);
            crate::json::lemma_get_at(m, "cursor"@, 5);
            crate::json::lemma_get_at(m, "text"@, 6);
        },
    }
}

/// Whether a value tells a finding: how grave it is, from one for an error to four for a hint, what
/// it says, who says it and where.
pub open spec fn tells_finding(t: Tree, g: Diagnostic) -> bool {
    &&& t.get("severity"@) == Some(
        Tree::Pos(
            match g.severity {
                Severity::Error => 1,
                Severity::Warning => 2,
                Severity::Info => 3,
                Severity::Hint => 4,
            },
        ),
    )
    &&& t.get("message"@) == Some(Tree::Str(g.message@))
    &&& t.get("source"@) == Some(
        match g.source {
            Some(s) => Tree::Str(s@),
            None => Tree::Null,
        },
    )
    &&& tells_stretch(t.get("range"@), g.start, g.end)
}

proof fn lemma_finding(g: Diagnostic)
    ensures
        tells_finding(diagnostic_tree(g), g),
{
    lemma_stretch(g.start, g.end);
    reveal_strlit("severity");
    reveal_strlit("message");
    reveal_strlit("source");
    reveal_strlit("range");
    assert("severity"@.len() == 8);
    assert("message"@.len() == 7);
    assert("source"@.len() == 6);
    assert("range"@.len() == 5);
    let m = diagnostic_tree(g)->Obj_0;
    assert(m[0].0 == "severity"@);
    assert(m[1].0 == "message"@);
    assert(m[2].0 == "source"@);
    assert(m[3].0 == "range"@);
    crate::json::lemma_get_at(m, "severity"@, 0);
    crate::json::lemma_get_at(m, "message"@, 1);
    crate::json::lemma_get_at(m, "source"@, 2);
    crate::json::lemma_get_at(m, "range"@, 3);
}

/// Whether a value tells the findings of a document, all of them and in order.
#[verifier::opaque]
pub open spec fn tells_findings(t: Tree, d: OpenDoc) -> bool {
    let list = t.list_at("diagnostics"@);
    &&& t.get("uri"@) == Some(
        match d.path {
            Some(p) => Tree::Str(p@),
            None => Tree::Null,
        },
    )
    &&& list is Some
    &&& list->0.len() == d.diagnostics@.len()
    &&& forall|i: int|
        0 <= i < d.diagnostics@.len() ==> tells_finding(#[trigger] list->0[i], d.diagnostics@[i])
}

proof fn lemma_findings(d: OpenDoc)
    ensures
        tells_findings(report_tree(d), d),
{
    reveal(tells_findings);
    reveal_strlit("uri");
    reveal_strlit("diagnostics");
    assert("uri"@.len() == 3);
    assert("diagnostics"@.len() == 11);
    let m = report_tree(d)->Obj_0;
    assert(m[0].0 == "uri"@);
    assert(m[1].0 == "diagnostics"@);
    crate::json::lemma_get_at(m, "uri"@, 0);
    crate::json::lemma_get_at(m, "diagnostics"@, 1);
    let list = report_tree(d).list_at("diagnostics"@);
    assert forall|i: int| 0 <= i < d.diagnostics@.len() implies tells_finding(
        #[trigger] list->0[i],
        d.diagnostics@[i],
    ) by {
        lemma_finding(d.diagnostics@[i]);
    }
}

/// Whether the findings of a document are asked for: it has some, and where the end of a path is
/// given its own path, if it has one, ends so.
pub open spec fn is_asked_for(d: OpenDoc, want: Option<Seq<char>>) -> bool {
    &&& d.diagnostics@.len() > 0
    &&& want is None || d.path is None || ends(d.path->0@, want->0)
}

/// Whether the findings of each of the first `n` documents that is asked for are told, and nothing
/// else is.
pub open spec fn all_told(
    files: Seq<Tree>,
    docs: Seq<OpenDoc>,
    want: Option<Seq<char>>,
    n: int,
) -> bool {
    &&& forall|i: int|
        0 <= i < n && is_asked_for(#[trigger] docs[i], want) ==> exists|k: int|
            0 <= k < files.len() && tells_findings(#[trigger] files[k], docs[i])
    &&& forall|k: int| 0 <= k < files.len() ==> tells_one(#[trigger] files[k], docs, want, n)
}

/// Whether a value tells the findings of one of the first `n` documents that is asked for.
pub open spec fn tells_one(t: Tree, docs: Seq<OpenDoc>, want: Option<Seq<char>>, n: int) -> bool {
    exists|i: int|
        0 <= i < n && is_asked_for(#[trigger] docs[i], want) && tells_findings(t, docs[i])
}

proof fn lemma_asked_for(d: OpenDoc, want: Option<Seq<char>>)
    ensures
        is_reported(d, want) == is_asked_for(d, want),
{
    if let Some(w) = want {
        if let Some(p) = d.path {
            if p@ == w {
                assert(p@.subrange(0, p@.len() as int) =~= p@);
                assert(ends(p@, w));
            }
        }
    }
}

proof fn lemma_report_of(docs: Seq<OpenDoc>, want: Option<Seq<char>>, n: int, i: int) -> (k: int)
    requires
        0 <= i < n <= docs.len(),
        is_asked_for(docs[i], want),
    ensures
        0 <= k < reports(docs, want, n).len(),
        tells_findings(reports(docs, want, n)[k], docs[i]),
    decreases n,
{
    if i == n - 1 {
        lemma_asked_for(docs[i], want);
        lemma_findings(docs[i]);
        reports(docs, want, n - 1).len() as int
    } else {
        lemma_report_of(docs, want, n - 1, i)
    }
}

proof fn lemma_reported_by(docs: Seq<OpenDoc>, want: Option<Seq<char>>, n: int, k: int) -> (i: int)
    requires
        0 <= n <= docs.len(),
        0 <= k < reports(docs, want, n).len(),
    ensures
        0 <= i < n,
        is_asked_for(docs[i], want),
        tells_findings(reports(docs, want, n)[k], docs[i]),
    decreases n,
{
    if k < reports(docs, want, n - 1).len() {
        lemma_reported_by(docs, want, n - 1, k)
    } else {
        lemma_asked_for(docs[n - 1], want);
        lemma_findings(docs[n - 1]);
        n - 1
    }
}

proof fn lemma_reports(docs: Seq<OpenDoc>, want: Option<Seq<char>>, n: int)
    requires
        0 <= n <= docs.len(),
    ensures
        all_told(reports(docs, want, n), docs, want, n),
{
    let files = reports(docs, want, n);
    assert forall|i: int| 0 <= i < n && is_asked_for(#[trigger] docs[i], want) implies exists|k: int|
        0 <= k < files.len() && tells_findings(#[trigger] files[k], docs[i]) by {
        let k = lemma_report_of(docs, want, n, i);
        assert(tells_findings(files[k], docs[i]));
    }
    assert forall|k: int| 0 <= k < files.len() implies tells_one(
        #[trigger] files[k],
        docs,
        want,
        n,
    ) by {
        let i = lemma_reported_by(docs, want, n, k);
        assert(is_asked_for(docs[i], want) && tells_findings(files[k], docs[i]));
    }
}

/// The findings of every open document that has any are told, those of one alone where its path
/// ends as asked; no document without findings is told.
pub proof fn law_findings_are_told(e: Editor, args: Tree)
    ensures
        ({
            let step = step_of(e, "getDiagnostics"@, args);
            let files = step.reply->value.list_at("files"@);
            let want = args.str_at("uri"@);
            &&& step.actions.len() == 0
            &&& step.reply is Done
            &&& files is Some
            &&& all_told(files->0, e.docs@, want, e.docs@.len() as int)
        }),
{
    let want = args.str_at("uri"@);
    assert(step_of(e, "getDiagnostics"@, args) == answers(diagnostics_tree(e, args))) by {
        lemma_tool_names(e, args);
    }
    let top = diagnostics_tree(e, args);
    assert(top->Obj_0[0].0 == "files"@);
    crate::json::lemma_get_at(top->Obj_0, "files"@, 0);
    lemma_reports(e.docs@, want, e.docs@.len() as int);
}

/// Opening a file takes its path and its line as they were given, the first line where none is;
/// without a path nothing is opened.
pub proof fn law_files_are_opened_as_asked(e: Editor, args: Tree, path: Seq<char>, line: u64)
    ensures
        args.get("filePath"@) == Some(Tree::Str(path)) && args.get("line"@) == Some(Tree::Pos(line))
            && 1 <= line <= usize::MAX ==> step_of(e, "openFile"@, args).actions == seq![
            ActionView::OpenFile { path, line: line as usize },
        ],
        args.get("filePath"@) == Some(Tree::Str(path)) && args.get("line"@) is None ==> step_of(
            e,
            "openFile"@,
            args,
        ).actions == seq![ActionView::OpenFile { path, line: 1 }],
        args.get("filePath"@) == Some(Tree::Str(path)) ==> step_of(e, "openFile"@, args).reply is Done
            && step_of(e, "openFile"@, args).reply->value.get("filePath"@) == Some(Tree::Str(path)),
        args.get("filePath"@) is None ==> step_of(e, "openFile"@, args).actions.len() == 0 && step_of(
            e,
            "openFile"@,
            args,
        ).reply is Failed,
{
    lemma_tool_names(e, args);
    reveal_strlit("ok");
    reveal_strlit("filePath");
    assert("ok"@.len() == 2);
    assert("filePath"@.len() == 8);
    if args.get("filePath"@) == Some(Tree::Str(path)) {
        let m = open_step(args).reply->value->Obj_0;
        assert(m[0].0 == "ok"@ && m[1].0 == "filePath"@);
        crate::json::lemma_get_at(m, "filePath"@, 1);
    }
}

/// Text goes into the active document only where there is one that can be changed; otherwise
/// nothing is done and the call fails.
pub proof fn law_text_goes_into_the_active_document(e: Editor, args: Tree, text: Seq<char>)
    requires
        args.get("text"@) == Some(Tree::Str(text)),
    ensures
        ({
            let step = step_of(e, "insertText"@, args);
            let open = e.active is Some && e.active->0.index < e.docs@.len() && e.has_display
                && !e.docs@[e.active->0.index as int].read_only;
            &&& open ==> step.actions == seq![ActionView::InsertText { text }] && step.reply is Done
            &&& !open ==> step.actions.len() == 0 && step.reply is Failed
        }),
{
    lemma_tool_names(e, args);
}

/// A commit takes the message as it was given, and stages or pushes only where that is asked for;
/// without a message nothing is committed.
pub proof fn law_commits_do_what_is_asked(e: Editor, args: Tree, msg: Seq<char>, stage: bool, push: bool)
    ensures
        args.get("message"@) == Some(Tree::Str(msg)) && args.get("stageAll"@) == Some(
            Tree::Bool(stage),
        ) && args.get("push"@) == Some(Tree::Bool(push)) ==> step_of(e, "gitCommit"@, args).actions
            == seq![ActionView::Commit { msg, stage_all: stage, push }],
        args.get("message"@) == Some(Tree::Str(msg)) && args.get("stageAll"@) is None && args.get(
            "push"@,
        ) is None ==> step_of(e, "gitCommit"@, args).actions == seq![
            ActionView::Commit { msg, stage_all: false, push: false },
        ],
        args.get("message"@) is None ==> step_of(e, "gitCommit"@, args).actions.len() == 0
            && step_of(e, "gitCommit"@, args).reply is Failed,
        args.get("message"@) == Some(Tree::Str(msg)) && e.has_display && e.has_source_control
            ==> step_of(e, "setCommitMessage"@, args).actions == seq![
            ActionView::SetCommitMessage { text: msg },
        ],
        !e.has_display || !e.has_source_control ==> step_of(e, "setCommitMessage"@, args).actions.len()
            == 0 && step_of(e, "setCommitMessage"@, args).reply is Failed,
        step_of(e, "gitStageAll"@, args).actions == seq![ActionView::StageAll],
        step_of(e, "gitStatus"@, args).reply is GitStatus,
        step_of(e, "listWindows"@, args).reply is Windows,
        step_of(e, "stopVoice"@, args).actions == seq![ActionView::StopVoice, ActionView::Redraw],
        step_of(e, "saveActiveFile"@, args).reply is Save <==> e.active is Some
            && e.active->0.index < e.docs@.len(),
        step_of(e, "saveActiveFile"@, args).actions.len() == 0,
{
    lemma_tool_names(e, args);
}

/// A command is run under its own name, and nothing is run under a name that is none.
pub proof fn law_commands_run_under_their_names(e: Editor, args: Tree, id: Seq<char>)
    requires
        args.get("command"@) == Some(Tree::Str(id)),
    ensures
        ({
            let step = step_of(e, "runCommand"@, args);
            &&& id == "save"@ ==> step.actions == seq![ActionView::Run { command: Command::Save }]
            &&& id == "find"@ ==> step.actions == seq![ActionView::Run { command: Command::Find }]
            &&& id == "undo"@ ==> step.actions == seq![ActionView::Run { command: Command::Undo }]
            &&& id == "redo"@ ==> step.actions == seq![ActionView::Run { command: Command::Redo }]
            &&& id == "selectAll"@ ==> step.actions == seq![ActionView::Run { command: Command::SelectAll }]
            &&& id == "formatDocument"@ ==> step.actions == seq![ActionView::Run { command: Command::FormatDocument }]
            &&& id == "toggleSidebar"@ ==> step.actions == seq![ActionView::Run { command: Command::ToggleSidebar }]
            &&& id == "toggleTerminal"@ ==> step.actions == seq![ActionView::Run { command: Command::ToggleTerminal }]
            &&& id == "newFile"@ ==> step.actions == seq![ActionView::Run { command: Command::NewFile }]
            &&& id == "toggleLineComment"@ ==> step.actions == seq![ActionView::Run { command: Command::ToggleLineComment }]
            &&& id == "gotoDefinition"@ ==> step.actions == seq![ActionView::Run { command: Command::GotoDefinition }]
            &&& id == "gotoReferences"@ ==> step.actions == seq![ActionView::Run { command: Command::GotoReferences }]
            &&& id == "nextProblem"@ ==> step.actions == seq![ActionView::Run { command: Command::NextProblem }]
            &&& id == "prevProblem"@ ==> step.actions == seq![ActionView::Run { command: Command::PrevProblem }]
            &&& id == "renameSymbol"@ ==> step.actions == seq![ActionView::Run { command: Command::RenameSymbol }]
            &&& id == "nextEditor"@ ==> step.actions == seq![ActionView::Run { command: Command::NextEditor }]
            &&& id == "prevEditor"@ ==> step.actions == seq![ActionView::Run { command: Command::PrevEditor }]
            &&& id == "markdownPreview"@ ==> step.actions == seq![ActionView::Run { command: Command::MarkdownPreview }]
            &&& id == "openSettings"@ ==> step.actions == seq![ActionView::Run { command: Command::OpenSettings }]
            &&& step.actions.len() > 0 ==> step.reply is Done
            &&& step.actions.len() == 0 ==> step.reply is Failed && ends(
                step.reply->message,
                id,
            )
        }),
{
    lemma_tool_names(e, args);
    reveal_strlit("save");
    reveal_strlit("find");
    reveal_strlit("undo");
    reveal_strlit("redo");
    reveal_strlit("selectAll");
    reveal_strlit("formatDocument");
    reveal_strlit("toggleSidebar");
    reveal_strlit("toggleTerminal");
    reveal_strlit("newFile");
    reveal_strlit("toggleLineComment");
    reveal_strlit("gotoDefinition");
    reveal_strlit("gotoReferences");
    reveal_strlit("nextProblem");
    reveal_strlit("prevProblem");
    reveal_strlit("renameSymbol");
    reveal_strlit("nextEditor");
    reveal_strlit("prevEditor");
    reveal_strlit("markdownPreview");
    reveal_strlit("openSettings");
    assert("save"@.len() == 4);
    assert("find"@.len() == 4);
    assert("undo"@.len() == 4);
    assert("redo"@.len() == 4);
    assert("selectAll"@.len() == 9);
    assert("formatDocument"@.len() == 14);
    assert("toggleSidebar"@.len() == 13);
    assert("toggleTerminal"@.len() == 14);
    assert("newFile"@.len() == 7);
    assert("toggleLineComment"@.len() == 17);
    assert("gotoDefinition"@.len() == 14);
    assert("gotoReferences"@.len() == 14);
    assert("nextProblem"@.len() == 11);
    assert("prevProblem"@.len() == 11);
    assert("renameSymbol"@.len() == 12);
    assert("nextEditor"@.len() == 10);
    assert("prevEditor"@.len() == 10);
    assert("markdownPreview"@.len() == 15);
    assert("openSettings"@.len() == 12);
    assert("save"@[0] == 's' && "find"@[0] == 'f');
    assert("save"@[0] == 's' && "undo"@[0] == 'u');
    assert("save"@[0] == 's' && "redo"@[0] == 'r');
    assert("find"@[0] == 'f' && "undo"@[0] == 'u');
    assert("find"@[0] == 'f' && "redo"@[0] == 'r');
    assert("undo"@[0] == 'u' && "redo"@[0] == 'r');
    assert("formatDocument"@[0] == 'f' && "toggleTerminal"@[0] == 't');
    assert("formatDocument"@[0] == 'f' && "gotoDefinition"@[0] == 'g');
    assert("formatDocument"@[0] == 'f' && "gotoReferences"@[0] == 'g');
    assert("toggleTerminal"@[0] == 't' && "gotoDefinition"@[0] == 'g');
    assert("toggleTerminal"@[0] == 't' && "gotoReferences"@[0] == 'g');
    assert("gotoDefinition"@[4] == 'D' && "gotoReferences"@[4] == 'R');
    assert("nextProblem"@[0] == 'n' && "prevProblem"@[0] == 'p');
    assert("renameSymbol"@[0] == 'r' && "openSettings"@[0] == 'o');
    assert("nextEditor"@[0] == 'n' && "prevEditor"@[0] == 'p');
    let text = "unknown command: "@ + id;
    assert(text.subrange(text.len() - id.len(), text.len() as int) =~= id);
}

proof fn lemma_tab_with_id(tabs: Seq<TerminalTab>, id: u64, k: int)
    requires
        0 <= k <= tabs.len() <= usize::MAX,
    ensures
        match tab_with_id(tabs, id, k) {
            Some(i) => k <= i < tabs.len() && tabs[i as int].id == Some(id) && forall|j: int|
                k <= j < i ==> (#[trigger] tabs[j]).id != Some(id),
            None => forall|j: int| k <= j < tabs.len() ==> (#[trigger] tabs[j]).id != Some(id),
        },
    decreases tabs.len() - k,
{
    if k < tabs.len() && tabs[k].id != Some(id) {
        lemma_tab_with_id(tabs, id, k + 1);
    }
}

/// A terminal is meant by its process, or else by its place, or else it is the active one; a
/// process or a place that there is none of is an error.
pub proof fn law_terminals_are_meant(e: Editor, args: Tree, id: u64, at: u64)
    requires
        e.tabs@.len() <= usize::MAX,
    ensures
        args.get("id"@) == Some(Tree::Pos(id)) ==> match target(e, args) {
            Ok(i) => i < e.tabs@.len() && e.tabs@[i as int].id == Some(id),
            Err(_) => forall|j: int| 0 <= j < e.tabs@.len() ==> (#[trigger] e.tabs@[j]).id != Some(id),
        },
        args.get("id"@) is None && args.get("index"@) == Some(Tree::Pos(at)) ==> match target(e, args) {
            Ok(i) => i == at && at < e.tabs@.len(),
            Err(_) => at >= e.tabs@.len(),
        },
        args.get("id"@) is None && args.get("index"@) is None ==> target(e, args)
            == Ok::<usize, Seq<char>>(e.active_tab),
{
    lemma_tab_with_id(e.tabs@, id, 0);
}

proof fn lemma_key_actions(tab: usize, keys: Seq<Seq<char>>, n: int)
    requires
        0 <= n <= keys.len(),
        keys.len() < 0x1000_0000,
    ensures
        ({
            let (queued, bad) = key_actions(tab, keys, n);
            &&& queued.len() <= n
            &&& bad is None ==> queued.len() == n && forall|i: int|
                0 <= i < n ==> key_code(#[trigger] keys[i]) is Some && queued[i] == (
                ActionView::QueueKey {
                    tab,
                    after: (60 + 20 * i) as u64,
                    bytes: key_code(keys[i])->0,
                })
            &&& bad is Some ==> exists|i: int|
                0 <= i < n && #[trigger] keys[i] == bad->0 && key_code(keys[i]) is None && i
                    == queued.len()
        }),
    decreases n,
{
    if n > 0 {
        lemma_key_actions(tab, keys, n - 1);
        let (before, worse) = key_actions(tab, keys, n - 1);
        let (queued, bad) = key_actions(tab, keys, n);
        if worse is None {
            if key_code(keys[n - 1]) is Some {
                assert forall|i: int| 0 <= i < n implies key_code(#[trigger] keys[i]) is Some
                    && queued[i] == (ActionView::QueueKey {
                    tab,
                    after: (60 + 20 * i) as u64,
                    bytes: key_code(keys[i])->0,
                }) by {
                    if i < n - 1 {
                        assert(queued[i] == before[i]);
                    }
                }
            } else {
                assert(keys[n - 1] == bad->0);
            }
        } else {
            let i = choose|i: int|
                0 <= i < n - 1 && #[trigger] keys[i] == worse->0 && key_code(keys[i]) is None && i
                    == before.len();
            assert(keys[i] == bad->0);
        }
    }
}

/// Text that is sent to a terminal is pasted there as it is, in the terminal that is meant, and
/// each key behind it is queued twenty milliseconds after the one before, the first after sixty.
pub proof fn law_sent_text_is_pasted(
    e: Editor,
    args: Tree,
    text: Seq<char>,
    tab: usize,
    keys: Seq<Tree>,
    i: int,
)
    requires
        args.get("text"@) == Some(Tree::Str(text)),
        target(e, args) == Ok::<usize, Seq<char>>(tab),
        args.get("keys"@) == Some(Tree::Arr(keys)),
        keys.len() < 0x1000_0000,
        forall|k: int|
            0 <= k < keys.len() ==> (#[trigger] keys[k]) is Str && key_code(keys[k]->Str_0) is Some,
        0 <= i < keys.len(),
    ensures
        ({
            let step = step_of(e, "terminalSend"@, args);
            &&& step.reply is Done
            &&& step.actions.len() == keys.len() + 3
            &&& step.actions[0] == ActionView::ShowTerminal
            &&& step.actions[1] == (ActionView::Paste { tab, text })
            &&& step.actions[2 + i] == (ActionView::QueueKey {
                tab,
                after: (60 + 20 * i) as u64,
                bytes: key_code(keys[i]->Str_0)->0,
            })
            &&& step.actions.last() == ActionView::Redraw
        }),
{
    lemma_tool_names(e, args);
    let names = Seq::new(keys.len(), |k: int| keys[k].as_str()->0);
    assert forall|k: int| 0 <= k < keys.len() implies (#[trigger] keys[k]).as_str() is Some by {
        assert(keys[k] is Str);
    }
    assert(keys_arg(args) == Some(names));
    lemma_key_actions(tab, names, names.len() as int);
    let (queued, bad) = key_actions(tab, names, names.len() as int);
    if bad is Some {
        let k = choose|k: int|
            0 <= k < names.len() && #[trigger] names[k] == bad->0 && key_code(names[k]) is None && k
                == queued.len();
        assert(keys[k] is Str);
        assert(false);
    }
    assert(names[i] == keys[i]->Str_0);
}

/// Without keys the enter key follows the text, unless that is declined.
pub proof fn law_enter_follows_the_text(e: Editor, args: Tree, text: Seq<char>, tab: usize)
    requires
        args.get("text"@) == Some(Tree::Str(text)),
        target(e, args) == Ok::<usize, Seq<char>>(tab),
        args.get("keys"@) is None,
    ensures
        args.get("enter"@) == Some(Tree::Bool(false)) ==> step_of(e, "terminalSend"@, args).actions
            == seq![
            ActionView::ShowTerminal,
            ActionView::Paste { tab, text },
            ActionView::Redraw,
        ],
        args.get("enter"@) is None || args.get("enter"@) == Some(Tree::Bool(true)) ==> step_of(
            e,
            "terminalSend"@,
            args,
        ).actions == seq![
            ActionView::ShowTerminal,
            ActionView::Paste { tab, text },
            ActionView::QueueKey { tab, after: 60, bytes: seq![13u8] },
            ActionView::Redraw,
        ],
{
    assert(step_of(e, "terminalSend"@, args) == send_step(e, args)) by {
        lemma_tool_names(e, args);
    }
    assert(key_code("enter"@) == Some(seq![13u8])) by {
        law_keys_have_their_bytes('a');
    }
    let none = Seq::<Seq<char>>::empty();
    let enter = seq!["enter"@];
    let pasted = seq![ActionView::ShowTerminal, ActionView::Paste { tab, text }];
    assert(key_actions(tab, enter, 0) == (Seq::<ActionView>::empty(), None::<Seq<char>>));
    if args.get("enter"@) == Some(Tree::Bool(false)) {
        assert(keys_arg(args) == Some(none));
        assert(key_actions(tab, none, 0) == (Seq::<ActionView>::empty(), None::<Seq<char>>));
        assert(pasted + Seq::<ActionView>::empty() =~= pasted);
        assert(pasted.push(ActionView::Redraw) =~= seq![
            ActionView::ShowTerminal,
            ActionView::Paste { tab, text },
            ActionView::Redraw,
        ]);
    } else if args.get("enter"@) is None || args.get("enter"@) == Some(Tree::Bool(true)) {
        assert(keys_arg(args) == Some(enter));
        let key = ActionView::QueueKey { tab, after: 60, bytes: seq![13u8] };
        assert(key_actions(tab, enter, 1).1 is None);
        assert(key_actions(tab, enter, 1).0 =~= seq![key]);
        assert((pasted + seq![key]).push(ActionView::Redraw) =~= seq![
            ActionView::ShowTerminal,
            ActionView::Paste { tab, text },
            key,
            ActionView::Redraw,
        ]);
    }
}

proof fn lemma_no_edges(k: Seq<char>)
    requires
        k.len() > 0,
        !is_white(k[0]),
        !is_white(k.last()),
    ensures
        trimmed(k) == k,
{
    crate::text::law_trimming_takes_white_space_only(k);
    let (a, b) = choose|a: Seq<char>, b: Seq<char>|
        crate::text::is_blank(a) && crate::text::is_blank(b) && k == #[trigger] (a + trimmed(k) + b);
    if a.len() > 0 {
        assert(is_white(a[0]));
        assert(k[0] == a[0]);
    }
    if b.len() > 0 {
        assert(is_white(b[b.len() - 1]));
        assert(k[k.len() - 1] == b[b.len() - 1]);
    }
    assert(trimmed(k) =~= k);
}

proof fn lemma_plain_key(k: Seq<char>)
    requires
        k.len() > 1,
        forall|i: int| 0 <= i < k.len() ==> 'a' <= #[trigger] k[i] && k[i] <= 'z',
    ensures
        lowered_ascii(trimmed(k)) == k,
        ctrl_rest(k) is None,
{
    lemma_no_edges(k);
    assert(lowered_ascii(k) =~= k);
    reveal_strlit("ctrl-");
    reveal_strlit("ctrl+");
    reveal_strlit("^");
    if begins(k, "ctrl-"@) {
        assert(k.subrange(0, 5)[4] == k[4]);
    }
    if begins(k, "ctrl+"@) {
        assert(k.subrange(0, 5)[4] == k[4]);
    }
    if begins(k, "^"@) {
        assert(k.subrange(0, 1)[0] == k[0]);
    }
}

/// A key by its name gives the bytes that a terminal expects of it, and a letter with control its
/// place in the alphabet.
pub proof fn law_keys_have_their_bytes(c: char)
    requires
        'a' <= c && c <= 'z',
    ensures
        key_code("enter"@) == Some(seq![13u8]),
        key_code("return"@) == Some(seq![13u8]),
        key_code("cr"@) == Some(seq![13u8]),
        key_code("escape"@) == Some(seq![27u8]),
        key_code("esc"@) == Some(seq![27u8]),
        key_code("tab"@) == Some(seq![9u8]),
        key_code("backspace"@) == Some(seq![127u8]),
        key_code("bs"@) == Some(seq![127u8]),
        key_code("space"@) == Some(seq![32u8]),
        key_code("up"@) == Some(seq![27u8, 91u8, 65u8]),
        key_code("down"@) == Some(seq![27u8, 91u8, 66u8]),
        key_code("right"@) == Some(seq![27u8, 91u8, 67u8]),
        key_code("left"@) == Some(seq![27u8, 91u8, 68u8]),
        key_code(seq!['c', 't', 'r', 'l', '-', c]) == Some(seq![(c as int - 'a' as int + 1) as u8]),
        key_code(seq!['c', 't', 'r', 'l', '+', c]) == Some(seq![(c as int - 'a' as int + 1) as u8]),
        key_code(seq!['^', c]) == Some(seq![(c as int - 'a' as int + 1) as u8]),
{
    reveal_strlit("enter");
    reveal_strlit("return");
    reveal_strlit("cr");
    reveal_strlit("escape");
    reveal_strlit("esc");
    reveal_strlit("tab");
    reveal_strlit("backspace");
    reveal_strlit("bs");
    reveal_strlit("space");
    reveal_strlit("up");
    reveal_strlit("down");
    reveal_strlit("right");
    reveal_strlit("left");
    assert("enter"@.len() == 5);
    assert("return"@.len() == 6);
    assert("cr"@.len() == 2);
    assert("escape"@.len() == 6);
    assert("esc"@.len() == 3);
    assert("tab"@.len() == 3);
    assert("backspace"@.len() == 9);
    assert("bs"@.len() == 2);
    assert("space"@.len() == 5);
    assert("up"@.len() == 2);
    assert("down"@.len() == 4);
    assert("right"@.len() == 5);
    assert("left"@.len() == 4);
    assert("enter"@[0] == 'e' && "space"@[0] == 's');
    assert("enter"@[0] == 'e' && "right"@[0] == 'r');
    assert("return"@[0] == 'r' && "escape"@[0] == 'e');
    assert("cr"@[0] == 'c' && "bs"@[0] == 'b');
    assert("cr"@[0] == 'c' && "up"@[0] == 'u');
    assert("esc"@[0] == 'e' && "tab"@[0] == 't');
    assert("bs"@[0] == 'b' && "up"@[0] == 'u');
    assert("space"@[0] == 's' && "right"@[0] == 'r');
    assert("down"@[0] == 'd' && "left"@[0] == 'l');
    lemma_plain_key("enter"@);
    lemma_plain_key("return"@);
    lemma_plain_key("cr"@);
    lemma_plain_key("escape"@);
    lemma_plain_key("esc"@);
    lemma_plain_key("tab"@);
    lemma_plain_key("backspace"@);
    lemma_plain_key("bs"@);
    lemma_plain_key("space"@);
    lemma_plain_key("up"@);
    lemma_plain_key("down"@);
    lemma_plain_key("right"@);
    lemma_plain_key("left"@);
    lemma_control_key(seq!['c', 't', 'r', 'l', '-', c], c);
    lemma_control_key(seq!['c', 't', 'r', 'l', '+', c], c);
    lemma_control_key(seq!['^', c], c);
}

proof fn lemma_control_key(k: Seq<char>, c: char)
    requires
        'a' <= c && c <= 'z',
        k == seq!['c', 't', 'r', 'l', '-', c] || k == seq!['c', 't', 'r', 'l', '+', c] || k == seq![
            '^',
            c,
        ],
    ensures
        key_code(k) == Some(seq![(c as int - 'a' as int + 1) as u8]),
{
    lemma_no_edges(k);
    assert(lowered_ascii(k) =~= k);
    assert(ctrl_rest(k) == Some(seq![c])) by {
        reveal_strlit("ctrl-");
        reveal_strlit("ctrl+");
        reveal_strlit("^");
        if k == seq!['c', 't', 'r', 'l', '-', c] {
            assert(k.subrange(0, 5) =~= "ctrl-"@);
            assert(k.skip(5) =~= seq![c]);
        } else if k == seq!['c', 't', 'r', 'l', '+', c] {
            assert(k.subrange(0, 5) =~= "ctrl+"@);
            assert(k.subrange(0, 5)[4] == '+' && "ctrl-"@[4] == '-');
            assert(k.skip(5) =~= seq![c]);
        } else {
            assert(k.subrange(0, 1) =~= "^"@);
            assert(k.len() == 2);
            assert(k.skip(1) =~= seq![c]);
        }
    }
}

/// The terminals are told in order, each with its process, its place, its title and whether it is
/// the active one.
pub proof fn law_terminals_are_told(e: Editor, args: Tree, i: int)
    requires
        0 <= i < e.tabs@.len() <= u64::MAX,
    ensures
        ({
            let step = step_of(e, "listTerminals"@, args);
            let list = step.reply->value.list_at("terminals"@);
            &&& step.actions.len() == 0
            &&& step.reply is Done
            &&& list is Some
            &&& list->0.len() == e.tabs@.len()
            &&& list->0[i].get("id"@) == Some(
                match e.tabs@[i].id {
                    Some(n) => Tree::Pos(n),
                    None => Tree::Null,
                },
            )
            &&& list->0[i].get("index"@) == Some(Tree::Pos(i as u64))
            &&& list->0[i].get("title"@) == Some(Tree::Str(e.tabs@[i].title@))
            &&& list->0[i].get("active"@) == Some(Tree::Bool(i == e.active_tab))
        }),
{
    assert(step_of(e, "listTerminals"@, args) == answers(terminals_tree(e))) by {
        lemma_tool_names(e, args);
    }
    let top = terminals_tree(e);
    assert(top->Obj_0[0].0 == "terminals"@);
    crate::json::lemma_get_at(top->Obj_0, "terminals"@, 0);
    reveal_strlit("id");
    reveal_strlit("index");
    reveal_strlit("title");
    reveal_strlit("active");
    assert("id"@.len() == 2);
    assert("index"@.len() == 5);
    assert("title"@.len() == 5);
    assert("active"@.len() == 6);
    assert("index"@[0] == 'i' && "title"@[0] == 't');
    let m = tab_tree(e, i)->Obj_0;
    assert(m[0].0 == "id"@);
    assert(m[1].0 == "index"@);
    assert(m[2].0 == "title"@);
    assert(m[3].0 == "active"@);
    crate::json::lemma_get_at(m, "id"@, 0);
    crate::json::lemma_get_at(m, "index"@, 1);
    crate::json::lemma_get_at(m, "title"@, 2);
    crate::json::lemma_get_at(m, "active"@, 3);
}

/// A key is written at once to the terminal that is meant, which is shown; an unknown key is not
/// written, and nothing is shown for it.
pub proof fn law_keys_are_written(e: Editor, args: Tree, key: Seq<char>)
    requires
        args.get("key"@) == Some(Tree::Str(key)),
    ensures
        ({
            let step = step_of(e, "terminalSendKey"@, args);
            &&& key_code(key) is None ==> step.actions.len() == 0 && step.reply is Failed
            &&& key_code(key) matches Some(bytes) ==> match target(e, args) {
                Ok(tab) => step.actions == seq![
                    ActionView::ShowTerminal,
                    ActionView::WriteKey { tab, bytes },
                    ActionView::Redraw,
                ] && step.reply is Done,
                Err(message) => step.actions == seq![ActionView::ShowTerminal] && step.reply == (
                ReplyView::Failed { message }),
            }
        }),
{
    assert(step_of(e, "terminalSendKey"@, args) == key_step(e, args)) by {
        lemma_tool_names(e, args);
    }
}

/// What names a terminal reaches the terminal that is meant: reading takes as many lines as asked,
/// or all; renaming takes the name as it is; focusing and searching go there too. Where none is
/// meant, each fails with the reason.
pub proof fn law_calls_reach_the_terminal(e: Editor, args: Tree, name: Seq<char>, lines: u64, most: u64)
    requires
        lines <= usize::MAX,
        1 <= most <= usize::MAX,
    ensures
        target(e, args) matches Ok(tab) ==> ({
            &&& args.get("lines"@) == Some(Tree::Pos(lines)) ==> step_of(e, "terminalOutput"@, args).reply
                == (ReplyView::ReadTab { tab, lines: lines as usize })
            &&& args.get("lines"@) is None ==> step_of(e, "terminalOutput"@, args).reply == (
            ReplyView::ReadTab { tab, lines: usize::MAX })
            &&& step_of(e, "focusTerminal"@, args).reply == (ReplyView::FocusTab { tab })
            &&& args.get("name"@) == Some(Tree::Str(name)) ==> step_of(e, "renameTerminal"@, args).actions
                == seq![ActionView::Rename { tab, name }]
            &&& args.get("query"@) == Some(Tree::Str(name)) && args.get("maxResults"@) == Some(
                Tree::Pos(most),
            ) ==> step_of(e, "searchTerminal"@, args).reply == (ReplyView::SearchTab {
                query: name,
                tab,
                max: most as usize,
            })
            &&& args.get("query"@) == Some(Tree::Str(name)) && args.get("maxResults"@) is None
                ==> step_of(e, "searchTerminal"@, args).reply == (ReplyView::SearchTab {
                query: name,
                tab,
                max: 20,
            })
        }),
        target(e, args) matches Err(message) ==> ({
            &&& step_of(e, "terminalOutput"@, args).reply == (ReplyView::Failed { message })
            &&& step_of(e, "focusTerminal"@, args).reply == (ReplyView::Failed { message })
        }),
        args.get("name"@) is None ==> step_of(e, "renameTerminal"@, args).actions.len() == 0
            && step_of(e, "renameTerminal"@, args).reply is Failed,
{
    assert(step_of(e, "terminalOutput"@, args) == output_step(e, args)) by {
        lemma_tool_names(e, args);
    }
    assert(step_of(e, "focusTerminal"@, args) == focus_step(e, args)) by {
        lemma_tool_names(e, args);
    }
    assert(step_of(e, "renameTerminal"@, args) == rename_step(e, args)) by {
        lemma_tool_names(e, args);
    }
    assert(step_of(e, "searchTerminal"@, args) == search_tab_step(e, args)) by {
        lemma_tool_names(e, args);
    }
}

/// A new terminal is shown, bears the name that was asked for and comes to the front unless that is
/// declined; then the one before comes back.
pub proof fn law_new_terminals_are_made_as_asked(e: Editor, args: Tree, name: Seq<char>, focus: bool, before: usize, at: usize, id: u64)
    requires
        at <= u64::MAX,
    ensures
        step_of(e, "newTerminal"@, args).actions == seq![ActionView::ShowTerminal],
        args.get("name"@) == Some(Tree::Str(name)) && args.get("focus"@) == Some(Tree::Bool(focus))
            ==> step_of(e, "newTerminal"@, args).reply == (ReplyView::NewTab {
            name: Some(name),
            focus,
        }),
        args.get("name"@) is None && args.get("focus"@) is None ==> step_of(e, "newTerminal"@, args).reply
            == (ReplyView::NewTab { name: None, focus: true }),
        made_tab_step(Some(name), true, before, at, Some(id)).actions == seq![
            ActionView::Rename { tab: at, name },
            ActionView::Redraw,
        ],
        made_tab_step(Some(name), false, before, at, Some(id)).actions == seq![
            ActionView::Rename { tab: at, name },
            ActionView::Activate { tab: before },
            ActionView::Redraw,
        ],
        made_tab_step(None, true, before, at, Some(id)).actions == seq![ActionView::Redraw],
        made_tab_step(None, false, before, at, Some(id)).actions == seq![
            ActionView::Activate { tab: before },
            ActionView::Redraw,
        ],
        made_tab_step(None, focus, before, at, Some(id)).reply is Done,
        made_tab_step(None, focus, before, at, Some(id)).reply->value.get("id"@) == Some(
            Tree::Pos(id),
        ),
        made_tab_step(None, focus, before, at, Some(id)).reply->value.get("index"@) == Some(
            Tree::Pos(at as u64),
        ),
{
    assert(step_of(e, "newTerminal"@, args) == new_tab_step(args)) by {
        lemma_tool_names(e, args);
    }
    let a = made_tab_step(Some(name), true, before, at, Some(id)).actions;
    assert(a =~= seq![ActionView::Rename { tab: at, name }, ActionView::Redraw]);
    let b = made_tab_step(Some(name), false, before, at, Some(id)).actions;
    assert(b =~= seq![
        ActionView::Rename { tab: at, name },
        ActionView::Activate { tab: before },
        ActionView::Redraw,
    ]);
    let c = made_tab_step(None, true, before, at, Some(id)).actions;
    assert(c =~= seq![ActionView::Redraw]);
    let d = made_tab_step(None, false, before, at, Some(id)).actions;
    assert(d =~= seq![ActionView::Activate { tab: before }, ActionView::Redraw]);
    reveal_strlit("ok");
    reveal_strlit("id");
    reveal_strlit("index");
    assert("ok"@.len() == 2);
    assert("id"@.len() == 2);
    assert("index"@.len() == 5);
    assert("ok"@[0] == 'o' && "id"@[0] == 'i');
    let m = made_tab_step(None, focus, before, at, Some(id)).reply->value->Obj_0;
    assert(m[0].0 == "ok"@);
    assert(m[1].0 == "id"@);
    assert(m[2].0 == "index"@);
    crate::json::lemma_get_at(m, "ok"@, 0);
    crate::json::lemma_get_at(m, "id"@, 1);
    crate::json::lemma_get_at(m, "index"@, 2);
}

/// What was read of a terminal is told as it is, with the terminal that it was read of.
pub proof fn law_output_is_told(e: Editor, tab: usize, output: Seq<char>)
    requires
        tab < e.tabs@.len(),
        tab <= u64::MAX,
    ensures
        output_tree(e, tab, output).get("output"@) == Some(Tree::Str(output)),
        output_tree(e, tab, output).get("index"@) == Some(Tree::Pos(tab as u64)),
        output_tree(e, tab, output).get("id"@) == Some(
            match e.tabs@[tab as int].id {
                Some(n) => Tree::Pos(n),
                None => Tree::Null,
            },
        ),
        focused_step(e, tab, true).reply is Done,
        focused_step(e, tab, false).reply is Failed,
{
    reveal_strlit("id");
    reveal_strlit("index");
    reveal_strlit("output");
    assert("id"@.len() == 2);
    assert("index"@.len() == 5);
    assert("output"@.len() == 6);
    let m = output_tree(e, tab, output)->Obj_0;
    assert(m[0].0 == "id"@);
    assert(m[1].0 == "index"@);
    assert(m[2].0 == "output"@);
    crate::json::lemma_get_at(m, "id"@, 0);
    crate::json::lemma_get_at(m, "index"@, 1);
    crate::json::lemma_get_at(m, "output"@, 2);
}

/// The windows are told in order, each with its process and its folder.
pub proof fn law_windows_are_told(v: Seq<WindowInfo>, i: int)
    requires
        0 <= i < v.len(),
    ensures
        windows_tree(v).list_at("windows"@) is Some,
        windows_tree(v).list_at("windows"@)->0.len() == v.len(),
        windows_tree(v).list_at("windows"@)->0[i].get("pid"@) == Some(Tree::Pos(v[i].pid)),
        windows_tree(v).list_at("windows"@)->0[i].get("workspace"@) == Some(
            Tree::Str(v[i].workspace@),
        ),
{
    let top = windows_tree(v);
    assert(top->Obj_0[0].0 == "windows"@);
    crate::json::lemma_get_at(top->Obj_0, "windows"@, 0);
    reveal_strlit("pid");
    reveal_strlit("workspace");
    assert("pid"@.len() == 3);
    assert("workspace"@.len() == 9);
    let m = top.list_at("windows"@)->0[i]->Obj_0;
    assert(m[0].0 == "pid"@);
    assert(m[1].0 == "workspace"@);
    crate::json::lemma_get_at(m, "pid"@, 0);
    crate::json::lemma_get_at(m, "workspace"@, 1);
}

proof fn lemma_window_with_pid(v: Seq<WindowInfo>, pid: u64, k: int)
    requires
        0 <= k <= v.len() <= usize::MAX,
    ensures
        match window_with_pid(v, pid, k) {
            Some(i) => k <= i < v.len() && v[i as int].pid == pid,
            None => forall|j: int| k <= j < v.len() ==> (#[trigger] v[j]).pid != pid,
        },
    decreases v.len() - k,
{
    if k < v.len() && v[k].pid != pid {
        lemma_window_with_pid(v, pid, k + 1);
    }
}

/// A call for another window goes to the window of that process, under the tool and with the
/// arguments that it names; without them with none.
pub proof fn law_windows_are_controlled(e: Editor, args: Tree, v: Seq<WindowInfo>, pid: u64, tool: Seq<char>, given: Tree)
    requires
        v.len() <= usize::MAX,
    ensures
        match window_with_pid(v, pid, 0) {
            Some(i) => i < v.len() && v[i as int].pid == pid,
            None => forall|j: int| 0 <= j < v.len() ==> (#[trigger] v[j]).pid != pid,
        },
        args.get("pid"@) == Some(Tree::Pos(pid)) && args.get("tool"@) == Some(Tree::Str(tool))
            && args.get("arguments"@) == Some(given) ==> step_of(e, "controlWindow"@, args).reply == (
        ReplyView::Control { pid, tool, args: given }),
        args.get("pid"@) == Some(Tree::Pos(pid)) && args.get("tool"@) == Some(Tree::Str(tool))
            && args.get("arguments"@) is None ==> step_of(e, "controlWindow"@, args).reply == (
        ReplyView::Control { pid, tool, args: Tree::Obj(Seq::empty()) }),
        args.get("pid"@) is None || args.get("tool"@) is None ==> step_of(e, "controlWindow"@, args).reply is Failed,
{
    assert(step_of(e, "controlWindow"@, args) == control_step(args)) by {
        lemma_tool_names(e, args);
    }
    lemma_window_with_pid(v, pid, 0);
}

/// The state of the repository is told with its branch and every change in order: what is staged,
/// what is not, and the path.
pub proof fn law_changes_are_told(branch: Option<Seq<char>>, changes: Seq<Change>, i: int)
    requires
        0 <= i < changes.len(),
    ensures
        status_tree(branch, changes).get("branch"@) == Some(
            match branch {
                Some(b) => Tree::Str(b),
                None => Tree::Null,
            },
        ),
        status_tree(branch, changes).list_at("changes"@) is Some,
        status_tree(branch, changes).list_at("changes"@)->0.len() == changes.len(),
        status_tree(branch, changes).list_at("changes"@)->0[i].get("staged"@) == Some(
            Tree::Str(seq![changes[i].staged]),
        ),
        status_tree(branch, changes).list_at("changes"@)->0[i].get("worktree"@) == Some(
            Tree::Str(seq![changes[i].worktree]),
        ),
        status_tree(branch, changes).list_at("changes"@)->0[i].get("path"@) == Some(
            Tree::Str(changes[i].path@),
        ),
{
    reveal_strlit("staged");
    reveal_strlit("worktree");
    reveal_strlit("path");
    reveal_strlit("branch");
    reveal_strlit("changes");
    assert("staged"@.len() == 6);
    assert("worktree"@.len() == 8);
    assert("path"@.len() == 4);
    assert("branch"@.len() == 6);
    assert("changes"@.len() == 7);
    let m = status_tree(branch, changes)->Obj_0;
    assert(m[0].0 == "branch"@);
    assert(m[1].0 == "changes"@);
    crate::json::lemma_get_at(m, "branch"@, 0);
    crate::json::lemma_get_at(m, "changes"@, 1);
    let c = change_tree(changes[i])->Obj_0;
    assert(c[0].0 == "staged"@);
    assert(c[1].0 == "worktree"@);
    assert(c[2].0 == "path"@);
    crate::json::lemma_get_at(c, "staged"@, 0);
    crate::json::lemma_get_at(c, "worktree"@, 1);
    crate::json::lemma_get_at(c, "path"@, 2);
}

proof fn lemma_doc_meant(docs: Seq<OpenDoc>, path: Seq<char>, k: int)
    requires
        0 <= k <= docs.len() <= usize::MAX,
    ensures
        match doc_meant(docs, path, k) {
            Some(i) => k <= i < docs.len() && (docs[i as int].path is Some && ends(
                docs[i as int].path->0@,
                path,
            ) || ends(docs[i as int].name@, path)),
            None => forall|j: int|
                k <= j < docs.len() ==> !((#[trigger] docs[j]).path is Some && ends(
                    docs[j].path->0@,
                    path,
                )) && !ends(docs[j].name@, path),
        },
    decreases docs.len() - k,
{
    if k < docs.len() && !is_meant(docs[k], path) {
        lemma_doc_meant(docs, path, k + 1);
    }
}

/// An editor is closed by the end of its path or of its name, or else by its place, or else it is
/// the active one; where none is meant nothing is closed and the call fails.
pub proof fn law_editors_are_closed_as_asked(e: Editor, args: Tree, path: Seq<char>, at: u64)
    requires
        0 < e.docs@.len() <= usize::MAX,
    ensures
        ({
            let step = step_of(e, "closeEditor"@, args);
            &&& args.get("filePath"@) == Some(Tree::Str(path)) ==> match step.reply {
                Reply::Done { .. } => step.actions.len() == 1 && (step.actions[0] matches Action::Close {
                    index,
                } && index < e.docs@.len() && (e.docs@[index as int].path is Some && ends(
                    e.docs@[index as int].path->0@,
                    path,
                ) || ends(e.docs@[index as int].name@, path))),
                Reply::Failed { .. } => step.actions.len() == 0 && forall|j: int|
                    0 <= j < e.docs@.len() ==> !((#[trigger] e.docs@[j]).path is Some && ends(
                        e.docs@[j].path->0@,
                        path,
                    )) && !ends(e.docs@[j].name@, path),
                _ => false,
            }
            &&& args.get("filePath"@) is None && args.get("index"@) == Some(Tree::Pos(at)) ==> if at
                < e.docs@.len() {
                step.actions == seq![ActionView::Close { index: at as usize }] && step.reply is Done
            } else {
                step.actions.len() == 0 && step.reply is Failed
            }
            &&& args.get("filePath"@) is None && args.get("index"@) is None ==> match e.active {
                Some(a) => step.actions == seq![ActionView::Close { index: a.index }]
                    && step.reply is Done,
                None => step.actions.len() == 0 && step.reply is Failed,
            }
        }),
{
    assert(step_of(e, "closeEditor"@, args) == close_step(e, args)) by {
        lemma_tool_names(e, args);
    }
    lemma_doc_meant(e.docs@, path, 0);
}

proof fn lemma_dirty_count(docs: Seq<OpenDoc>, n: int)
    requires
        0 <= n <= docs.len(),
    ensures
        0 <= dirty_count(docs, n) <= n,
        dirty_count(docs, n) == docs.take(n).filter(|d: OpenDoc| d.dirty).len(),
        dirty_count(docs, n) == 0 <==> forall|i: int| 0 <= i < n ==> !(#[trigger] docs[i]).dirty,
    decreases n,
{
    reveal(Seq::filter);
    if n > 0 {
        lemma_dirty_count(docs, n - 1);
        assert(docs.take(n).drop_last() =~= docs.take(n - 1));
        assert(docs.take(n).last() == docs[n - 1]);
    }
}

/// Closing all editors closes those without unsaved changes and tells how many others there are;
/// only where there is one is the user asked.
pub proof fn law_closing_all_spares_unsaved_changes(e: Editor, args: Tree)
    requires
        e.docs@.len() <= u64::MAX,
    ensures
        ({
            let step = step_of(e, "closeAllEditors"@, args);
            let dirty = e.docs@.filter(|d: OpenDoc| d.dirty).len();
            &&& step.reply is Done
            &&& step.reply->value.get("dirtyRemaining"@) == Some(Tree::Pos(dirty as u64))
            &&& step.actions[0] == ActionView::CloseClean
            &&& dirty == 0 ==> step.actions == seq![ActionView::CloseClean, ActionView::Redraw]
            &&& dirty > 0 ==> step.actions == seq![
                ActionView::CloseClean,
                ActionView::Close { index: 0 },
                ActionView::Redraw,
            ]
        }),
{
    assert(step_of(e, "closeAllEditors"@, args) == close_all_step(e)) by {
        lemma_tool_names(e, args);
    }
    lemma_dirty_count(e.docs@, e.docs@.len() as int);
    assert(e.docs@.take(e.docs@.len() as int) =~= e.docs@);
    let step = close_all_step(e);
    let dirty = e.docs@.filter(|d: OpenDoc| d.dirty).len();
    if dirty == 0 {
        assert(step.actions =~= seq![ActionView::CloseClean, ActionView::Redraw]);
    } else {
        assert(step.actions =~= seq![
            ActionView::CloseClean,
            ActionView::Close { index: 0 },
            ActionView::Redraw,
        ]);
    }
    reveal_strlit("ok");
    reveal_strlit("dirtyRemaining");
    assert("ok"@.len() == 2);
    assert("dirtyRemaining"@.len() == 14);
    let m = step.reply->value->Obj_0;
    assert(m[0].0 == "ok"@);
    assert(m[1].0 == "dirtyRemaining"@);
    crate::json::lemma_get_at(m, "ok"@, 0);
    crate::json::lemma_get_at(m, "dirtyRemaining"@, 1);
}

/// A search of the files takes the query as it is, below the folder that was asked for or the
/// workspace, for thirty results unless another number is given; a query that says nothing is
/// answered at once, with no result.
pub proof fn law_searches_are_asked_as_given(e: Editor, args: Tree, query: Seq<char>, path: Seq<char>, most: u64)
    requires
        args.get("query"@) == Some(Tree::Str(query)),
        1 <= most <= usize::MAX,
    ensures
        ({
            let step = step_of(e, "searchWorkspace"@, args);
            &&& step.actions.len() == 0
            &&& says_nothing(query) ==> step.reply is Done
            &&& !says_nothing(query) ==> step.reply is SearchFiles
            &&& !says_nothing(query) && args.get("path"@) is None && args.get("maxResults"@) is None
                ==> step.reply == (ReplyView::SearchFiles { query, root: e.cwd@, max: 30 })
            &&& !says_nothing(query) && args.get("path"@) == Some(Tree::Str(path)) && args.get(
                "maxResults"@,
            ) == Some(Tree::Pos(most)) ==> step.reply == (ReplyView::SearchFiles {
                query,
                root: joined_path(e.cwd@, path),
                max: most as usize,
            })
        }),
{
    assert(step_of(e, "searchWorkspace"@, args) == search_files_step(e, args)) by {
        lemma_tool_names(e, args);
    }
}

/// What was found is told in the order of the hits, as many as were asked for at most: of files
/// the path, and in both cases the line, the text and the score in tenths.
pub proof fn law_hits_are_told(query: Seq<char>, hits: Seq<HitView>, max: usize, cut: bool, i: int)
    requires
        0 <= i < hits.len(),
        i < max,
        hits[i].line <= u64::MAX,
    ensures
        ({
            let t = files_found_tree(query, hits, max, cut);
            let list = t.list_at("results"@);
            &&& t.get("query"@) == Some(Tree::Str(query))
            &&& t.get("truncated"@) == Some(Tree::Bool(cut))
            &&& list is Some
            &&& list->0.len() == if hits.len() <= max {
                hits.len()
            } else {
                max as nat
            }
            &&& list->0[i].get("filePath"@) == Some(Tree::Str(hits[i].file))
            &&& list->0[i].get("line"@) == Some(Tree::Pos(hits[i].line as u64))
            &&& list->0[i].get("text"@) == Some(Tree::Str(hits[i].text))
            &&& list->0[i].get("score"@) == Some(
                Tree::Real(
                    decimal((hits[i].score / 10) as nat) + seq!['.'] + decimal(
                        (hits[i].score % 10) as nat,
                    ),
                ),
            )
            &&& hit_trees(hits, max, false)[i].get("line"@) == Some(Tree::Pos(hits[i].line as u64))
            &&& hit_trees(hits, max, false)[i].get("text"@) == Some(Tree::Str(hits[i].text))
            &&& hit_trees(hits, max, false)[i].get("score"@) == list->0[i].get("score"@)
        }),
{
    reveal_strlit(".");
    assert("."@ =~= seq!['.']);
    reveal_strlit("filePath");
    reveal_strlit("line");
    reveal_strlit("score");
    reveal_strlit("text");
    reveal_strlit("query");
    reveal_strlit("results");
    reveal_strlit("truncated");
    assert("filePath"@.len() == 8);
    assert("line"@.len() == 4);
    assert("score"@.len() == 5);
    assert("text"@.len() == 4);
    assert("line"@[0] == 'l' && "text"@[0] == 't');
    assert("query"@.len() == 5);
    assert("results"@.len() == 7);
    assert("truncated"@.len() == 9);
    let m = files_found_tree(query, hits, max, cut)->Obj_0;
    assert(m[0].0 == "query"@);
    assert(m[1].0 == "results"@);
    assert(m[2].0 == "truncated"@);
    crate::json::lemma_get_at(m, "query"@, 0);
    crate::json::lemma_get_at(m, "results"@, 1);
    crate::json::lemma_get_at(m, "truncated"@, 2);
    let f = file_hit_tree(hits[i])->Obj_0;
    assert(f[0].0 == "filePath"@);
    assert(f[1].0 == "line"@);
    assert(f[2].0 == "score"@);
    assert(f[3].0 == "text"@);
    crate::json::lemma_get_at(f, "filePath"@, 0);
    crate::json::lemma_get_at(f, "line"@, 1);
    crate::json::lemma_get_at(f, "score"@, 2);
    crate::json::lemma_get_at(f, "text"@, 3);
    let l = line_hit_tree(hits[i])->Obj_0;
    assert(l[0].0 == "line"@);
    assert(l[1].0 == "score"@);
    assert(l[2].0 == "text"@);
    crate::json::lemma_get_at(l, "line"@, 0);
    crate::json::lemma_get_at(l, "score"@, 1);
    crate::json::lemma_get_at(l, "text"@, 2);
}

/// Feedback becomes a new issue, or a comment where one is named, with the message as it is at the
/// front of its body.
pub proof fn law_feedback_carries_the_message(e: Editor, args: Tree, message: Seq<char>, issue: u64, title: Seq<char>)
    requires
        args.get("message"@) == Some(Tree::Str(message)),
    ensures
        ({
            let step = step_of(e, "submitFeedback"@, args);
            &&& step.actions.len() == 0
            &&& step.reply is Feedback
            &&& begins(step.reply->arguments.last(), message)
            &&& args.get("issue"@) == Some(Tree::Pos(issue)) ==> step.reply->arguments[1]
                == "comment"@ && step.reply->arguments[2] == decimal(issue as nat)
            &&& args.get("issue"@) is None ==> step.reply->arguments[1] == "create"@
            &&& args.get("issue"@) is None && args.get("title"@) == Some(Tree::Str(title))
                ==> step.reply->arguments[4] == "--title"@ && step.reply->arguments[5] == title
        }),
{
    assert(step_of(e, "submitFeedback"@, args) == feedback_step(e, args)) by {
        lemma_tool_names(e, args);
    }
    let body = issue_body(message, e.version@);
    assert(body.subrange(0, message.len() as int) =~= message);
    let all = feedback_args(args, message, e.version@);
    assert(all.last() == body);
}

proof fn lemma_spaced(s: Seq<char>, n: int)
    requires
        0 <= n <= s.len(),
    ensures
        ({
            let (out, gap) = spaced_to(s, n);
            &&& gap <==> n > 0 && is_white(s[n - 1])
            &&& out.len() > 0 ==> !is_white(out[0]) && !is_white(out.last())
            &&& forall|i: int, j: int|
                0 <= i && j == i + 1 && j < out.len() ==> !(is_white(#[trigger] out[i]) && is_white(
                    #[trigger] out[j],
                ))
            &&& forall|i: int| 0 <= i < out.len() && is_white(#[trigger] out[i]) ==> out[i] == ' '
        }),
    decreases n,
{
    if n > 0 {
        lemma_spaced(s, n - 1);
    }
}

/// The words of a text are told with one blank between two of them, and none around them.
pub proof fn law_words_stand_one_blank_apart(s: Seq<char>, i: int)
    requires
        0 <= i < squeezed(s).len(),
    ensures
        !is_white(squeezed(s)[0]),
        !is_white(squeezed(s).last()),
        is_white(squeezed(s)[i]) ==> squeezed(s)[i] == ' ' && i + 1 < squeezed(s).len() && !is_white(
            squeezed(s)[i + 1],
        ),
{
    lemma_spaced(s, s.len() as int);
}

} // verus!
