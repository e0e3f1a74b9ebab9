//! The tools that the server offers, as they are listed to a client.
use vstd::prelude::*;

use crate::json::Json;
use crate::json::ObjectBuilder;
use crate::json::Tree;
use crate::json::trees;

verus! {

/// A tool: its name, what it does, and the schema of its arguments.
pub open spec fn tool_tree(name: Seq<char>, desc: Seq<char>, schema: Tree) -> Tree {
    Tree::Obj(
        seq![
            ("name"@, Tree::Str(name)),
            ("description"@, Tree::Str(desc)),
            ("inputSchema"@, schema),
        ],
    )
}

fn tool(name: &str, desc: &str, schema: Json) -> (r: Json)
    ensures
        r@ == tool_tree(name@, desc@, schema@),
{
    let mut b = ObjectBuilder::new();
    b.put_str("name", name);
    b.put_str("description", desc);
    b.put("inputSchema", schema);
    assert(b@ =~= tool_tree(name@, desc@, schema@)->Obj_0);
    b.build()
}

/// The schema of an argument of a type, described or not.
pub open spec fn kind_tree(kind: Seq<char>) -> Tree {
    Tree::Obj(seq![("type"@, Tree::Str(kind))])
}

/// The schema of an argument of a type, with what it means.
pub open spec fn arg_tree(kind: Seq<char>, desc: Seq<char>) -> Tree {
    Tree::Obj(seq![("type"@, Tree::Str(kind)), ("description"@, Tree::Str(desc))])
}

/// The schema of a list of texts, with what it means.
pub open spec fn texts_tree(desc: Seq<char>) -> Tree {
    Tree::Obj(
        seq![
            ("type"@, Tree::Str("array"@)),
            ("items"@, kind_tree("string"@)),
            ("description"@, Tree::Str(desc)),
        ],
    )
}

fn kind(name: &str) -> (r: Json)
    ensures
        r@ == kind_tree(name@),
{
    let mut b = ObjectBuilder::new();
    b.put_str("type", name);
    assert(b@ =~= kind_tree(name@)->Obj_0);
    b.build()
}

fn arg(kind: &str, desc: &str) -> (r: Json)
    ensures
        r@ == arg_tree(kind@, desc@),
{
    let mut b = ObjectBuilder::new();
    b.put_str("type", kind);
    b.put_str("description", desc);
    assert(b@ =~= arg_tree(kind@, desc@)->Obj_0);
    b.build()
}

fn texts(desc: &str) -> (r: Json)
    ensures
        r@ == texts_tree(desc@),
{
    let mut b = ObjectBuilder::new();
    b.put_str("type", "array");
    b.put("items", kind("string"));
    b.put_str("description", desc);
    assert(b@ =~= texts_tree(desc@)->Obj_0);
    b.build()
}

/// The schema of arguments none of which must be there.
pub open spec fn open_schema(props: Seq<(Seq<char>, Tree)>) -> Tree {
    Tree::Obj(seq![("type"@, Tree::Str("object"@)), ("properties"@, Tree::Obj(props))])
}

/// The schema of arguments some of which must be there.
pub open spec fn strict_schema(props: Seq<(Seq<char>, Tree)>, required: Seq<Tree>) -> Tree {
    Tree::Obj(
        seq![
            ("type"@, Tree::Str("object"@)),
            ("properties"@, Tree::Obj(props)),
            ("required"@, Tree::Arr(required)),
        ],
    )
}

fn open_form(props: ObjectBuilder) -> (r: Json)
    ensures
        r@ == open_schema(props@),
{
    let ghost pv = props@;
    let mut b = ObjectBuilder::new();
    b.put_str("type", "object");
    b.put("properties", props.build());
    assert(b@ =~= open_schema(pv)->Obj_0);
    b.build()
}

fn strict_form(props: ObjectBuilder, required: Vec<Json>) -> (r: Json)
    ensures
        r@ == strict_schema(props@, trees(required@)),
{
    let ghost pv = props@;
    let ghost rv = trees(required@);
    let mut b = ObjectBuilder::new();
    b.put_str("type", "object");
    b.put("properties", props.build());
    b.put("required", Json::list(required));
    assert(b@ =~= strict_schema(pv, rv)->Obj_0);
    b.build()
}

/// The tool `getWorkspaceFolders`.
pub open spec fn get_workspace_folders_tool() -> Tree {
    tool_tree(
        "getWorkspaceFolders"@,
        "Get the workspace folder paths currently open in the IDE"@,
        open_schema(
            Seq::empty(),
        ),
    )
}

fn make_get_workspace_folders() -> (r: Json)
    ensures
        r@ == get_workspace_folders_tool(),
{
    let p = ObjectBuilder::new();
    tool(
        "getWorkspaceFolders",
        "Get the workspace folder paths currently open in the IDE",
        open_form(p),
    )
}

/// The tool `getOpenEditors`.
pub open spec fn get_open_editors_tool() -> Tree {
    tool_tree(
        "getOpenEditors"@,
        "Get information about the currently open editor tabs"@,
        open_schema(
            Seq::empty(),
        ),
    )
}

fn make_get_open_editors() -> (r: Json)
    ensures
        r@ == get_open_editors_tool(),
{
    let p = ObjectBuilder::new();
    tool(
        "getOpenEditors",
        "Get information about the currently open editor tabs",
        open_form(p),
    )
}

/// The tool `getCurrentSelection`.
pub open spec fn get_current_selection_tool() -> Tree {
    tool_tree(
        "getCurrentSelection"@,
        "Get the current text selection in the active editor"@,
        open_schema(
            Seq::empty(),
        ),
    )
}

fn make_get_current_selection() -> (r: Json)
    ensures
        r@ == get_current_selection_tool(),
{
    let p = ObjectBuilder::new();
    tool(
        "getCurrentSelection",
        "Get the current text selection in the active editor",
        open_form(p),
    )
}

/// The tool `getLatestSelection`.
pub open spec fn get_latest_selection_tool() -> Tree {
    tool_tree(
        "getLatestSelection"@,
        "Get the most recent text selection (even if focus moved)"@,
        open_schema(
            Seq::empty(),
        ),
    )
}

fn make_get_latest_selection() -> (r: Json)
    ensures
        r@ == get_latest_selection_tool(),
{
    let p = ObjectBuilder::new();
    tool(
        "getLatestSelection",
        "Get the most recent text selection (even if focus moved)",
        open_form(p),
    )
}

/// The tool `getDiagnostics`.
pub open spec fn get_diagnostics_tool() -> Tree {
    tool_tree(
        "getDiagnostics"@,
        "Get language diagnostics (errors/warnings) from the IDE"@,
        open_schema(
            seq![
                ("uri"@, arg_tree("string"@, "Optional file path/URI; omit for all open files."@)),
            ],
        ),
    )
}

fn make_get_diagnostics() -> (r: Json)
    ensures
        r@ == get_diagnostics_tool(),
{
    let mut p = ObjectBuilder::new();
    p.put("uri", arg("string", "Optional file path/URI; omit for all open files."));
    assert(p@ =~= seq![
        ("uri"@, arg_tree("string"@, "Optional file path/URI; omit for all open files."@)),
    ]);
    tool(
        "getDiagnostics",
        "Get language diagnostics (errors/warnings) from the IDE",
        open_form(p),
    )
}

/// The tool `openFile`.
pub open spec fn open_file_tool() -> Tree {
    tool_tree(
        "openFile"@,
        "Open a file in the editor and optionally place the cursor at a line"@,
        strict_schema(
            seq![
                ("filePath"@, arg_tree("string"@, "Path to the file to open"@)),
                ("line"@, arg_tree("number"@, "1-based line to place the caret"@)),
            ],
            seq![Tree::Str("filePath"@)],
        ),
    )
}

fn make_open_file() -> (r: Json)
    ensures
        r@ == open_file_tool(),
{
    let mut p = ObjectBuilder::new();
    p.put("filePath", arg("string", "Path to the file to open"));
    p.put("line", arg("number", "1-based line to place the caret"));
    assert(p@ =~= seq![
        ("filePath"@, arg_tree("string"@, "Path to the file to open"@)),
        ("line"@, arg_tree("number"@, "1-based line to place the caret"@)),
    ]);
    let mut required: Vec<Json> = Vec::new();
    required.push(Json::text("filePath"));
    assert(trees(required@) =~= seq![Tree::Str("filePath"@)]);
    tool(
        "openFile",
        "Open a file in the editor and optionally place the cursor at a line",
        strict_form(p, required),
    )
}

/// The tool `setCommitMessage`.
pub open spec fn set_commit_message_tool() -> Tree {
    tool_tree(
        "setCommitMessage"@,
        "Set the text in Aether's Source Control commit message box"@,
        strict_schema(
            seq![
                ("message"@, arg_tree("string"@, "Commit message text to place in the box"@)),
            ],
            seq![Tree::Str("message"@)],
        ),
    )
}

fn make_set_commit_message() -> (r: Json)
    ensures
        r@ == set_commit_message_tool(),
{
    let mut p = ObjectBuilder::new();
    p.put("message", arg("string", "Commit message text to place in the box"));
    assert(p@ =~= seq![
        ("message"@, arg_tree("string"@, "Commit message text to place in the box"@)),
    ]);
    let mut required: Vec<Json> = Vec::new();
    required.push(Json::text("message"));
    assert(trees(required@) =~= seq![Tree::Str("message"@)]);
    tool(
        "setCommitMessage",
        "Set the text in Aether's Source Control commit message box",
        strict_form(p, required),
    )
}

/// The tool `getActiveFile`.
pub open spec fn get_active_file_tool() -> Tree {
    tool_tree(
        "getActiveFile"@,
        "Get the active editor's path, language, full text, and cursor position"@,
        open_schema(
            Seq::empty(),
        ),
    )
}

fn make_get_active_file() -> (r: Json)
    ensures
        r@ == get_active_file_tool(),
{
    let p = ObjectBuilder::new();
    tool(
        "getActiveFile",
        "Get the active editor's path, language, full text, and cursor position",
        open_form(p),
    )
}

/// The tool `insertText`.
pub open spec fn insert_text_tool() -> Tree {
    tool_tree(
        "insertText"@,
        "Insert text at the cursor in the active editor (replaces the selection if any)"@,
        strict_schema(
            seq![
                ("text"@, kind_tree("string"@)),
            ],
            seq![Tree::Str("text"@)],
        ),
    )
}

fn make_insert_text() -> (r: Json)
    ensures
        r@ == insert_text_tool(),
{
    let mut p = ObjectBuilder::new();
    p.put("text", kind("string"));
    assert(p@ =~= seq![
        ("text"@, kind_tree("string"@)),
    ]);
    let mut required: Vec<Json> = Vec::new();
    required.push(Json::text("text"));
    assert(trees(required@) =~= seq![Tree::Str("text"@)]);
    tool(
        "insertText",
        "Insert text at the cursor in the active editor (replaces the selection if any)",
        strict_form(p, required),
    )
}

/// The tool `saveActiveFile`.
pub open spec fn save_active_file_tool() -> Tree {
    tool_tree(
        "saveActiveFile"@,
        "Save the active editor to disk"@,
        open_schema(
            Seq::empty(),
        ),
    )
}

fn make_save_active_file() -> (r: Json)
    ensures
        r@ == save_active_file_tool(),
{
    let p = ObjectBuilder::new();
    tool(
        "saveActiveFile",
        "Save the active editor to disk",
        open_form(p),
    )
}

/// The tool `runCommand`.
pub open spec fn run_command_tool() -> Tree {
    tool_tree(
        "runCommand"@,
        "Run a named editor command. One of: save, find, undo, redo, selectAll, formatDocument, toggleSidebar, toggleTerminal, newFile, toggleLineComment, gotoDefinition, gotoReferences, nextProblem, prevProblem, renameSymbol, nextEditor, prevEditor, markdownPreview, openSettings"@,
        strict_schema(
            seq![
                ("command"@, kind_tree("string"@)),
            ],
            seq![Tree::Str("command"@)],
        ),
    )
}

fn make_run_command() -> (r: Json)
    ensures
        r@ == run_command_tool(),
{
    let mut p = ObjectBuilder::new();
    p.put("command", kind("string"));
    assert(p@ =~= seq![
        ("command"@, kind_tree("string"@)),
    ]);
    let mut required: Vec<Json> = Vec::new();
    required.push(Json::text("command"));
    assert(trees(required@) =~= seq![Tree::Str("command"@)]);
    tool(
        "runCommand",
        "Run a named editor command. One of: save, find, undo, redo, selectAll, formatDocument, toggleSidebar, toggleTerminal, newFile, toggleLineComment, gotoDefinition, gotoReferences, nextProblem, prevProblem, renameSymbol, nextEditor, prevEditor, markdownPreview, openSettings",
        strict_form(p, required),
    )
}

/// The tool `gitStatus`.
pub open spec fn git_status_tool() -> Tree {
    tool_tree(
        "gitStatus"@,
        "Get the working-tree git status (staged/worktree status per path)"@,
        open_schema(
            Seq::empty(),
        ),
    )
}

fn make_git_status() -> (r: Json)
    ensures
        r@ == git_status_tool(),
{
    let p = ObjectBuilder::new();
    tool(
        "gitStatus",
        "Get the working-tree git status (staged/worktree status per path)",
        open_form(p),
    )
}

/// The tool `gitCommit`.
pub open spec fn git_commit_tool() -> Tree {
    tool_tree(
        "gitCommit"@,
        "Commit staged changes (or everything with stageAll) with a message"@,
        strict_schema(
            seq![
                ("message"@, kind_tree("string"@)),
                ("stageAll"@, arg_tree("boolean"@, "Stage all changes first (default false)"@)),
                ("push"@, arg_tree("boolean"@, "Push after committing (default false)"@)),
            ],
            seq![Tree::Str("message"@)],
        ),
    )
}

fn make_git_commit() -> (r: Json)
    ensures
        r@ == git_commit_tool(),
{
    let mut p = ObjectBuilder::new();
    p.put("message", kind("string"));
    p.put("stageAll", arg("boolean", "Stage all changes first (default false)"));
    p.put("push", arg("boolean", "Push after committing (default false)"));
    assert(p@ =~= seq![
        ("message"@, kind_tree("string"@)),
        ("stageAll"@, arg_tree("boolean"@, "Stage all changes first (default false)"@)),
        ("push"@, arg_tree("boolean"@, "Push after committing (default false)"@)),
    ]);
    let mut required: Vec<Json> = Vec::new();
    required.push(Json::text("message"));
    assert(trees(required@) =~= seq![Tree::Str("message"@)]);
    tool(
        "gitCommit",
        "Commit staged changes (or everything with stageAll) with a message",
        strict_form(p, required),
    )
}

/// The tool `gitStageAll`.
pub open spec fn git_stage_all_tool() -> Tree {
    tool_tree(
        "gitStageAll"@,
        "Stage all working-tree changes"@,
        open_schema(
            Seq::empty(),
        ),
    )
}

fn make_git_stage_all() -> (r: Json)
    ensures
        r@ == git_stage_all_tool(),
{
    let p = ObjectBuilder::new();
    tool(
        "gitStageAll",
        "Stage all working-tree changes",
        open_form(p),
    )
}

/// The tool `terminalSend`.
pub open spec fn terminal_send_tool() -> Tree {
    tool_tree(
        "terminalSend"@,
        "Send text to a terminal, then submit it — in one call. The text is pasted (so TUIs receive it intact), then a follow-up key is pressed: by default Enter, or pass `keys` for a custom sequence (e.g. [\"enter\"], [\"down\",\"enter\"], [\"ctrl-c\"]). Set enter:false to send text with no keypress. Targets a terminal by stable `id` (preferred), `index`, or the focused terminal; doesn't change which terminal is focused."@,
        strict_schema(
            seq![
                ("text"@, kind_tree("string"@)),
                ("keys"@, texts_tree("Keys pressed after the text, in order (e.g. [\"enter\"]). Overrides `enter`. Names: ctrl-a..ctrl-z, enter, escape, tab, backspace, up, down, left, right."@)),
                ("enter"@, arg_tree("boolean"@, "Press Enter after the text when `keys` is omitted (default true)"@)),
                ("id"@, arg_tree("number"@, "Stable terminal id (preferred)"@)),
                ("index"@, arg_tree("number"@, "Tab position index (fallback); omit for the focused terminal"@)),
            ],
            seq![Tree::Str("text"@)],
        ),
    )
}

fn make_terminal_send() -> (r: Json)
    ensures
        r@ == terminal_send_tool(),
{
    let mut p = ObjectBuilder::new();
    p.put("text", kind("string"));
    p.put("keys", texts("Keys pressed after the text, in order (e.g. [\"enter\"]). Overrides `enter`. Names: ctrl-a..ctrl-z, enter, escape, tab, backspace, up, down, left, right."));
    p.put("enter", arg("boolean", "Press Enter after the text when `keys` is omitted (default true)"));
    p.put("id", arg("number", "Stable terminal id (preferred)"));
    p.put("index", arg("number", "Tab position index (fallback); omit for the focused terminal"));
    assert(p@ =~= seq![
        ("text"@, kind_tree("string"@)),
        ("keys"@, texts_tree("Keys pressed after the text, in order (e.g. [\"enter\"]). Overrides `enter`. Names: ctrl-a..ctrl-z, enter, escape, tab, backspace, up, down, left, right."@)),
        ("enter"@, arg_tree("boolean"@, "Press Enter after the text when `keys` is omitted (default true)"@)),
        ("id"@, arg_tree("number"@, "Stable terminal id (preferred)"@)),
        ("index"@, arg_tree("number"@, "Tab position index (fallback); omit for the focused terminal"@)),
    ]);
    let mut required: Vec<Json> = Vec::new();
    required.push(Json::text("text"));
    assert(trees(required@) =~= seq![Tree::Str("text"@)]);
    tool(
        "terminalSend",
        "Send text to a terminal, then submit it — in one call. The text is pasted (so TUIs receive it intact), then a follow-up key is pressed: by default Enter, or pass `keys` for a custom sequence (e.g. [\"enter\"], [\"down\",\"enter\"], [\"ctrl-c\"]). Set enter:false to send text with no keypress. Targets a terminal by stable `id` (preferred), `index`, or the focused terminal; doesn't change which terminal is focused.",
        strict_form(p, required),
    )
}

/// The tool `terminalSendKey`.
pub open spec fn terminal_send_key_tool() -> Tree {
    tool_tree(
        "terminalSendKey"@,
        "Send a control key / keypress to a terminal (use this to stop a process — `ctrl-c` — not terminalSend, which would type the text literally). Supports: ctrl-a..ctrl-z, enter, escape, tab, backspace, up, down, left, right. Target by stable `id` (preferred), `index`, or the focused terminal."@,
        strict_schema(
            seq![
                ("key"@, arg_tree("string"@, "e.g. \"ctrl-c\", \"enter\", \"up\""@)),
                ("id"@, arg_tree("number"@, "Stable terminal id (preferred)"@)),
                ("index"@, arg_tree("number"@, "Tab position index (fallback); omit for the focused terminal"@)),
            ],
            seq![Tree::Str("key"@)],
        ),
    )
}

fn make_terminal_send_key() -> (r: Json)
    ensures
        r@ == terminal_send_key_tool(),
{
    let mut p = ObjectBuilder::new();
    p.put("key", arg("string", "e.g. \"ctrl-c\", \"enter\", \"up\""));
    p.put("id", arg("number", "Stable terminal id (preferred)"));
    p.put("index", arg("number", "Tab position index (fallback); omit for the focused terminal"));
    assert(p@ =~= seq![
        ("key"@, arg_tree("string"@, "e.g. \"ctrl-c\", \"enter\", \"up\""@)),
        ("id"@, arg_tree("number"@, "Stable terminal id (preferred)"@)),
        ("index"@, arg_tree("number"@, "Tab position index (fallback); omit for the focused terminal"@)),
    ]);
    let mut required: Vec<Json> = Vec::new();
    required.push(Json::text("key"));
    assert(trees(required@) =~= seq![Tree::Str("key"@)]);
    tool(
        "terminalSendKey",
        "Send a control key / keypress to a terminal (use this to stop a process — `ctrl-c` — not terminalSend, which would type the text literally). Supports: ctrl-a..ctrl-z, enter, escape, tab, backspace, up, down, left, right. Target by stable `id` (preferred), `index`, or the focused terminal.",
        strict_form(p, required),
    )
}

/// The tool `terminalOutput`.
pub open spec fn terminal_output_tool() -> Tree {
    tool_tree(
        "terminalOutput"@,
        "Read the text a terminal is showing (history + visible screen), so you can see a command's output or an interactive session's reply. Omit `lines` for the full buffer, or pass it for just the last N lines. Target by stable `id` (preferred), `index`, or the focused terminal."@,
        open_schema(
            seq![
                ("lines"@, arg_tree("number"@, "Last N lines (partial); omit for the full buffer"@)),
                ("id"@, arg_tree("number"@, "Stable terminal id (preferred)"@)),
                ("index"@, arg_tree("number"@, "Tab position index (fallback); omit for the focused terminal"@)),
            ],
        ),
    )
}

fn make_terminal_output() -> (r: Json)
    ensures
        r@ == terminal_output_tool(),
{
    let mut p = ObjectBuilder::new();
    p.put("lines", arg("number", "Last N lines (partial); omit for the full buffer"));
    p.put("id", arg("number", "Stable terminal id (preferred)"));
    p.put("index", arg("number", "Tab position index (fallback); omit for the focused terminal"));
    assert(p@ =~= seq![
        ("lines"@, arg_tree("number"@, "Last N lines (partial); omit for the full buffer"@)),
        ("id"@, arg_tree("number"@, "Stable terminal id (preferred)"@)),
        ("index"@, arg_tree("number"@, "Tab position index (fallback); omit for the focused terminal"@)),
    ]);
    tool(
        "terminalOutput",
        "Read the text a terminal is showing (history + visible screen), so you can see a command's output or an interactive session's reply. Omit `lines` for the full buffer, or pass it for just the last N lines. Target by stable `id` (preferred), `index`, or the focused terminal.",
        open_form(p),
    )
}

/// The tool `newTerminal`.
pub open spec fn new_terminal_tool() -> Tree {
    tool_tree(
        "newTerminal"@,
        "Create a new terminal tab (starts in the workspace root). Returns its stable `id` (use it for later terminalSend/terminalOutput/etc.) and index. Does not steal focus unless `focus` is true."@,
        open_schema(
            seq![
                ("name"@, arg_tree("string"@, "Optional title for the new tab"@)),
                ("focus"@, arg_tree("boolean"@, "Make the new tab active (default true)"@)),
            ],
        ),
    )
}

fn make_new_terminal() -> (r: Json)
    ensures
        r@ == new_terminal_tool(),
{
    let mut p = ObjectBuilder::new();
    p.put("name", arg("string", "Optional title for the new tab"));
    p.put("focus", arg("boolean", "Make the new tab active (default true)"));
    assert(p@ =~= seq![
        ("name"@, arg_tree("string"@, "Optional title for the new tab"@)),
        ("focus"@, arg_tree("boolean"@, "Make the new tab active (default true)"@)),
    ]);
    tool(
        "newTerminal",
        "Create a new terminal tab (starts in the workspace root). Returns its stable `id` (use it for later terminalSend/terminalOutput/etc.) and index. Does not steal focus unless `focus` is true.",
        open_form(p),
    )
}

/// The tool `focusTerminal`.
pub open spec fn focus_terminal_tool() -> Tree {
    tool_tree(
        "focusTerminal"@,
        "Focus a terminal tab (shows the panel and makes it active). Target by stable `id` (preferred) or `index`."@,
        open_schema(
            seq![
                ("id"@, arg_tree("number"@, "Stable terminal id (preferred)"@)),
                ("index"@, arg_tree("number"@, "Tab position index (fallback)"@)),
            ],
        ),
    )
}

fn make_focus_terminal() -> (r: Json)
    ensures
        r@ == focus_terminal_tool(),
{
    let mut p = ObjectBuilder::new();
    p.put("id", arg("number", "Stable terminal id (preferred)"));
    p.put("index", arg("number", "Tab position index (fallback)"));
    assert(p@ =~= seq![
        ("id"@, arg_tree("number"@, "Stable terminal id (preferred)"@)),
        ("index"@, arg_tree("number"@, "Tab position index (fallback)"@)),
    ]);
    tool(
        "focusTerminal",
        "Focus a terminal tab (shows the panel and makes it active). Target by stable `id` (preferred) or `index`.",
        open_form(p),
    )
}

/// The tool `listTerminals`.
pub open spec fn list_terminals_tool() -> Tree {
    tool_tree(
        "listTerminals"@,
        "List the terminal tabs (stable id, index, title, active). The `id` is the shell's process id — stable across reordering, MCP reconnects, and Aether restarts; use it for later calls (`index` is positional and shifts)."@,
        open_schema(
            Seq::empty(),
        ),
    )
}

fn make_list_terminals() -> (r: Json)
    ensures
        r@ == list_terminals_tool(),
{
    let p = ObjectBuilder::new();
    tool(
        "listTerminals",
        "List the terminal tabs (stable id, index, title, active). The `id` is the shell's process id — stable across reordering, MCP reconnects, and Aether restarts; use it for later calls (`index` is positional and shifts).",
        open_form(p),
    )
}

/// The tool `submitFeedback`.
pub open spec fn submit_feedback_tool() -> Tree {
    tool_tree(
        "submitFeedback"@,
        "File feedback about Aether (this IDE / the aether-ide MCP) as a GitHub issue on actuallyroy/aether-editor, authored under the user's account via their `gh` CLI. Use for bugs, missing tools, or surprising behavior in Aether itself. Pass `issue` to comment on an existing issue instead of opening a new one."@,
        strict_schema(
            seq![
                ("message"@, arg_tree("string"@, "The feedback — be specific: what you tried, what happened, what you expected."@)),
                ("title"@, arg_tree("string"@, "Optional issue title (new issues only; auto-derived from the message otherwise)"@)),
                ("issue"@, arg_tree("number"@, "Comment on this existing issue number instead of opening a new one"@)),
            ],
            seq![Tree::Str("message"@)],
        ),
    )
}

fn make_submit_feedback() -> (r: Json)
    ensures
        r@ == submit_feedback_tool(),
{
    let mut p = ObjectBuilder::new();
    p.put("message", arg("string", "The feedback — be specific: what you tried, what happened, what you expected."));
    p.put("title", arg("string", "Optional issue title (new issues only; auto-derived from the message otherwise)"));
    p.put("issue", arg("number", "Comment on this existing issue number instead of opening a new one"));
    assert(p@ =~= seq![
        ("message"@, arg_tree("string"@, "The feedback — be specific: what you tried, what happened, what you expected."@)),
        ("title"@, arg_tree("string"@, "Optional issue title (new issues only; auto-derived from the message otherwise)"@)),
        ("issue"@, arg_tree("number"@, "Comment on this existing issue number instead of opening a new one"@)),
    ]);
    let mut required: Vec<Json> = Vec::new();
    required.push(Json::text("message"));
    assert(trees(required@) =~= seq![Tree::Str("message"@)]);
    tool(
        "submitFeedback",
        "File feedback about Aether (this IDE / the aether-ide MCP) as a GitHub issue on actuallyroy/aether-editor, authored under the user's account via their `gh` CLI. Use for bugs, missing tools, or surprising behavior in Aether itself. Pass `issue` to comment on an existing issue instead of opening a new one.",
        strict_form(p, required),
    )
}

/// The tool `renameTerminal`.
pub open spec fn rename_terminal_tool() -> Tree {
    tool_tree(
        "renameTerminal"@,
        "Rename a terminal tab. Target by stable `id` (preferred), `index`, or the focused tab."@,
        strict_schema(
            seq![
                ("name"@, arg_tree("string"@, "New tab title"@)),
                ("id"@, arg_tree("number"@, "Stable terminal id (preferred)"@)),
                ("index"@, arg_tree("number"@, "Tab position index (fallback); omits to the active tab"@)),
            ],
            seq![Tree::Str("name"@)],
        ),
    )
}

fn make_rename_terminal() -> (r: Json)
    ensures
        r@ == rename_terminal_tool(),
{
    let mut p = ObjectBuilder::new();
    p.put("name", arg("string", "New tab title"));
    p.put("id", arg("number", "Stable terminal id (preferred)"));
    p.put("index", arg("number", "Tab position index (fallback); omits to the active tab"));
    assert(p@ =~= seq![
        ("name"@, arg_tree("string"@, "New tab title"@)),
        ("id"@, arg_tree("number"@, "Stable terminal id (preferred)"@)),
        ("index"@, arg_tree("number"@, "Tab position index (fallback); omits to the active tab"@)),
    ]);
    let mut required: Vec<Json> = Vec::new();
    required.push(Json::text("name"));
    assert(trees(required@) =~= seq![Tree::Str("name"@)]);
    tool(
        "renameTerminal",
        "Rename a terminal tab. Target by stable `id` (preferred), `index`, or the focused tab.",
        strict_form(p, required),
    )
}

/// The tool `listWindows`.
pub open spec fn list_windows_tool() -> Tree {
    tool_tree(
        "listWindows"@,
        "List every OTHER running Aether window (each editing a different workspace), found via the same discovery mechanism agents use to connect. Returns each window's `pid` (pass to controlWindow/stopWindowVoice) and its workspace path. Use this to find/control a different Aether window from this one."@,
        open_schema(
            Seq::empty(),
        ),
    )
}

fn make_list_windows() -> (r: Json)
    ensures
        r@ == list_windows_tool(),
{
    let p = ObjectBuilder::new();
    tool(
        "listWindows",
        "List every OTHER running Aether window (each editing a different workspace), found via the same discovery mechanism agents use to connect. Returns each window's `pid` (pass to controlWindow/stopWindowVoice) and its workspace path. Use this to find/control a different Aether window from this one.",
        open_form(p),
    )
}

/// The tool `controlWindow`.
pub open spec fn control_window_tool() -> Tree {
    tool_tree(
        "controlWindow"@,
        "Run any other Aether MCP tool (openFile, closeEditor, gitStatus, insertText, searchWorkspace, etc.) against a DIFFERENT Aether window instead of this one — full remote control, same tool names/args as calling them locally. Get `pid` from listWindows first."@,
        strict_schema(
            seq![
                ("pid"@, arg_tree("number"@, "Target window's pid, from listWindows"@)),
                ("tool"@, arg_tree("string"@, "Tool name to run there (e.g. \"openFile\", \"gitStatus\")"@)),
                ("arguments"@, arg_tree("object"@, "Arguments for that tool, same shape as calling it directly"@)),
            ],
            seq![Tree::Str("pid"@), Tree::Str("tool"@)],
        ),
    )
}

fn make_control_window() -> (r: Json)
    ensures
        r@ == control_window_tool(),
{
    let mut p = ObjectBuilder::new();
    p.put("pid", arg("number", "Target window's pid, from listWindows"));
    p.put("tool", arg("string", "Tool name to run there (e.g. \"openFile\", \"gitStatus\")"));
    p.put("arguments", arg("object", "Arguments for that tool, same shape as calling it directly"));
    assert(p@ =~= seq![
        ("pid"@, arg_tree("number"@, "Target window's pid, from listWindows"@)),
        ("tool"@, arg_tree("string"@, "Tool name to run there (e.g. \"openFile\", \"gitStatus\")"@)),
        ("arguments"@, arg_tree("object"@, "Arguments for that tool, same shape as calling it directly"@)),
    ]);
    let mut required: Vec<Json> = Vec::new();
    required.push(Json::text("pid"));
    required.push(Json::text("tool"));
    assert(trees(required@) =~= seq![Tree::Str("pid"@), Tree::Str("tool"@)]);
    tool(
        "controlWindow",
        "Run any other Aether MCP tool (openFile, closeEditor, gitStatus, insertText, searchWorkspace, etc.) against a DIFFERENT Aether window instead of this one — full remote control, same tool names/args as calling them locally. Get `pid` from listWindows first.",
        strict_form(p, required),
    )
}

/// The tool `stopVoice`.
pub open spec fn stop_voice_tool() -> Tree {
    tool_tree(
        "stopVoice"@,
        "Stop THIS window's own active voice call, if any (no-op if none is active). To stop another window's call, use controlWindow with tool: \"stopVoice\"."@,
        open_schema(
            Seq::empty(),
        ),
    )
}

fn make_stop_voice() -> (r: Json)
    ensures
        r@ == stop_voice_tool(),
{
    let p = ObjectBuilder::new();
    tool(
        "stopVoice",
        "Stop THIS window's own active voice call, if any (no-op if none is active). To stop another window's call, use controlWindow with tool: \"stopVoice\".",
        open_form(p),
    )
}

/// The tool `closeEditor`.
pub open spec fn close_editor_tool() -> Tree {
    tool_tree(
        "closeEditor"@,
        "Close an editor tab. Target by `filePath` (matches the end of the path) or `index`; omit both to close the active tab. Unsaved changes prompt the normal Save/Don't Save/Cancel dialog instead of closing immediately."@,
        open_schema(
            seq![
                ("filePath"@, arg_tree("string"@, "Path (or suffix of one) of the open tab to close"@)),
                ("index"@, arg_tree("number"@, "Tab position index"@)),
            ],
        ),
    )
}

fn make_close_editor() -> (r: Json)
    ensures
        r@ == close_editor_tool(),
{
    let mut p = ObjectBuilder::new();
    p.put("filePath", arg("string", "Path (or suffix of one) of the open tab to close"));
    p.put("index", arg("number", "Tab position index"));
    assert(p@ =~= seq![
        ("filePath"@, arg_tree("string"@, "Path (or suffix of one) of the open tab to close"@)),
        ("index"@, arg_tree("number"@, "Tab position index"@)),
    ]);
    tool(
        "closeEditor",
        "Close an editor tab. Target by `filePath` (matches the end of the path) or `index`; omit both to close the active tab. Unsaved changes prompt the normal Save/Don't Save/Cancel dialog instead of closing immediately.",
        open_form(p),
    )
}

/// The tool `closeAllEditors`.
pub open spec fn close_all_editors_tool() -> Tree {
    tool_tree(
        "closeAllEditors"@,
        "Close every open editor tab. Clean tabs close immediately; the first dirty tab (if any) prompts the Save/Don't Save/Cancel dialog and the rest are left open until that's resolved."@,
        open_schema(
            Seq::empty(),
        ),
    )
}

fn make_close_all_editors() -> (r: Json)
    ensures
        r@ == close_all_editors_tool(),
{
    let p = ObjectBuilder::new();
    tool(
        "closeAllEditors",
        "Close every open editor tab. Clean tabs close immediately; the first dirty tab (if any) prompts the Save/Don't Save/Cancel dialog and the rest are left open until that's resolved.",
        open_form(p),
    )
}

/// The tool `searchWorkspace`.
pub open spec fn search_workspace_tool() -> Tree {
    tool_tree(
        "searchWorkspace"@,
        "Relevance-ranked search across every file in the workspace (respects the same ignore rules as the file tree — .git, node_modules, target, etc. skipped). Not literal grep: plain words are ranked by relevance (common words matter less, rare/repeated terms matter more); wrap an exact phrase or identifier in \"double quotes\" for a required exact match, boosted above word-scored hits. Use this over openFile+reading text when you don't already know which file has what you're after."@,
        strict_schema(
            seq![
                ("query"@, arg_tree("string"@, "Words and/or \"quoted phrases\""@)),
                ("path"@, arg_tree("string"@, "Optional subdirectory (relative to the workspace root) to restrict the search to"@)),
                ("maxResults"@, arg_tree("number"@, "Cap on ranked hits returned (default 30)"@)),
            ],
            seq![Tree::Str("query"@)],
        ),
    )
}

fn make_search_workspace() -> (r: Json)
    ensures
        r@ == search_workspace_tool(),
{
    let mut p = ObjectBuilder::new();
    p.put("query", arg("string", "Words and/or \"quoted phrases\""));
    p.put("path", arg("string", "Optional subdirectory (relative to the workspace root) to restrict the search to"));
    p.put("maxResults", arg("number", "Cap on ranked hits returned (default 30)"));
    assert(p@ =~= seq![
        ("query"@, arg_tree("string"@, "Words and/or \"quoted phrases\""@)),
        ("path"@, arg_tree("string"@, "Optional subdirectory (relative to the workspace root) to restrict the search to"@)),
        ("maxResults"@, arg_tree("number"@, "Cap on ranked hits returned (default 30)"@)),
    ]);
    let mut required: Vec<Json> = Vec::new();
    required.push(Json::text("query"));
    assert(trees(required@) =~= seq![Tree::Str("query"@)]);
    tool(
        "searchWorkspace",
        "Relevance-ranked search across every file in the workspace (respects the same ignore rules as the file tree — .git, node_modules, target, etc. skipped). Not literal grep: plain words are ranked by relevance (common words matter less, rare/repeated terms matter more); wrap an exact phrase or identifier in \"double quotes\" for a required exact match, boosted above word-scored hits. Use this over openFile+reading text when you don't already know which file has what you're after.",
        strict_form(p, required),
    )
}

/// The tool `searchTerminal`.
pub open spec fn search_terminal_tool() -> Tree {
    tool_tree(
        "searchTerminal"@,
        "Relevance-ranked search over one terminal's full scrollback (history + visible screen) — for finding a specific past command/error/line in a long session without reading the whole buffer. Same ranking as searchWorkspace: plain words ranked by relevance, \"quoted phrases\" required exact + boosted. Target by stable `id` (preferred), `index`, or the focused terminal."@,
        strict_schema(
            seq![
                ("query"@, arg_tree("string"@, "Words and/or \"quoted phrases\""@)),
                ("id"@, arg_tree("number"@, "Stable terminal id (preferred)"@)),
                ("index"@, arg_tree("number"@, "Tab position index (fallback); omit for the focused terminal"@)),
                ("maxResults"@, arg_tree("number"@, "Cap on ranked hits returned (default 20)"@)),
            ],
            seq![Tree::Str("query"@)],
        ),
    )
}

fn make_search_terminal() -> (r: Json)
    ensures
        r@ == search_terminal_tool(),
{
    let mut p = ObjectBuilder::new();
    p.put("query", arg("string", "Words and/or \"quoted phrases\""));
    p.put("id", arg("number", "Stable terminal id (preferred)"));
    p.put("index", arg("number", "Tab position index (fallback); omit for the focused terminal"));
    p.put("maxResults", arg("number", "Cap on ranked hits returned (default 20)"));
    assert(p@ =~= seq![
        ("query"@, arg_tree("string"@, "Words and/or \"quoted phrases\""@)),
        ("id"@, arg_tree("number"@, "Stable terminal id (preferred)"@)),
        ("index"@, arg_tree("number"@, "Tab position index (fallback); omit for the focused terminal"@)),
        ("maxResults"@, arg_tree("number"@, "Cap on ranked hits returned (default 20)"@)),
    ]);
    let mut required: Vec<Json> = Vec::new();
    required.push(Json::text("query"));
    assert(trees(required@) =~= seq![Tree::Str("query"@)]);
    tool(
        "searchTerminal",
        "Relevance-ranked search over one terminal's full scrollback (history + visible screen) — for finding a specific past command/error/line in a long session without reading the whole buffer. Same ranking as searchWorkspace: plain words ranked by relevance, \"quoted phrases\" required exact + boosted. Target by stable `id` (preferred), `index`, or the focused terminal.",
        strict_form(p, required),
    )
}

/// The tools that the server offers, in the order in which they are listed.
pub open spec fn tool_list() -> Seq<Tree> {
    seq![
        get_workspace_folders_tool(),
        get_open_editors_tool(),
        get_current_selection_tool(),
        get_latest_selection_tool(),
        get_diagnostics_tool(),
        open_file_tool(),
        set_commit_message_tool(),
        get_active_file_tool(),
        insert_text_tool(),
        save_active_file_tool(),
        run_command_tool(),
        git_status_tool(),
        git_commit_tool(),
        git_stage_all_tool(),
        terminal_send_tool(),
        terminal_send_key_tool(),
        terminal_output_tool(),
        new_terminal_tool(),
        focus_terminal_tool(),
        list_terminals_tool(),
        submit_feedback_tool(),
        rename_terminal_tool(),
        list_windows_tool(),
        control_window_tool(),
        stop_voice_tool(),
        close_editor_tool(),
        close_all_editors_tool(),
        search_workspace_tool(),
        search_terminal_tool(),
    ]
}

/// The tools that the server offers.
pub fn list() -> (r: Json)
    ensures
        r@ == Tree::Arr(tool_list()),
{
    let mut v: Vec<Json> = Vec::new();
    v.push(make_get_workspace_folders());
    v.push(make_get_open_editors());
    v.push(make_get_current_selection());
    v.push(make_get_latest_selection());
    v.push(make_get_diagnostics());
    v.push(make_open_file());
    v.push(make_set_commit_message());
    v.push(make_get_active_file());
    v.push(make_insert_text());
    v.push(make_save_active_file());
    v.push(make_run_command());
    v.push(make_git_status());
    v.push(make_git_commit());
    v.push(make_git_stage_all());
    v.push(make_terminal_send());
    v.push(make_terminal_send_key());
    v.push(make_terminal_output());
    v.push(make_new_terminal());
    v.push(make_focus_terminal());
    v.push(make_list_terminals());
    v.push(make_submit_feedback());
    v.push(make_rename_terminal());
    v.push(make_list_windows());
    v.push(make_control_window());
    v.push(make_stop_voice());
    v.push(make_close_editor());
    v.push(make_close_all_editors());
    v.push(make_search_workspace());
    v.push(make_search_terminal());
    assert(trees(v@) =~= tool_list());
    Json::list(v)
}

/// The arguments that a tool asks for, if it names any.
pub open spec fn asks_for(t: Tree) -> Option<Seq<Tree>> {
    match t.get("inputSchema"@) {
        Some(s) => s.list_at("required"@),
        None => None,
    }
}

proof fn lemma_asks_for(name: Seq<char>, desc: Seq<char>, props: Seq<(Seq<char>, Tree)>, required: Seq<Tree>)
    ensures
        asks_for(tool_tree(name, desc, strict_schema(props, required))) == Some(required),
        asks_for(tool_tree(name, desc, open_schema(props))) is None,
{
    reveal_strlit("name");
    reveal_strlit("description");
    reveal_strlit("inputSchema");
    reveal_strlit("type");
    reveal_strlit("properties");
    reveal_strlit("required");
    assert("name"@.len() == 4);
    assert("description"@.len() == 11);
    assert("inputSchema"@.len() == 11);
    assert("description"@[0] == 'd' && "inputSchema"@[0] == 'i');
    assert("type"@.len() == 4);
    assert("properties"@.len() == 10);
    assert("required"@.len() == 8);
    let m = tool_tree(name, desc, strict_schema(props, required))->Obj_0;
    assert(m[0].0 == "name"@);
    assert(m[1].0 == "description"@);
    assert(m[2].0 == "inputSchema"@);
    crate::json::lemma_get_at(m, "name"@, 0);
    crate::json::lemma_get_at(m, "description"@, 1);
    crate::json::lemma_get_at(m, "inputSchema"@, 2);
    let s = strict_schema(props, required)->Obj_0;
    assert(s[0].0 == "type"@);
    assert(s[1].0 == "properties"@);
    assert(s[2].0 == "required"@);
    crate::json::lemma_get_at(s, "type"@, 0);
    crate::json::lemma_get_at(s, "properties"@, 1);
    crate::json::lemma_get_at(s, "required"@, 2);
    let n = tool_tree(name, desc, open_schema(props))->Obj_0;
    assert(n[0].0 == "name"@);
    assert(n[1].0 == "description"@);
    assert(n[2].0 == "inputSchema"@);
    crate::json::lemma_get_at(n, "name"@, 0);
    crate::json::lemma_get_at(n, "description"@, 1);
    crate::json::lemma_get_at(n, "inputSchema"@, 2);
    crate::json::law_lookup_gives_the_first_member(open_schema(props), "required"@, Tree::Null);
}

/// Each tool asks for the arguments without which it cannot work, and for no others.
pub proof fn law_tools_ask_for_what_they_need()
    ensures
        asks_for(get_workspace_folders_tool()) is None,
        asks_for(get_open_editors_tool()) is None,
        asks_for(get_current_selection_tool()) is None,
        asks_for(get_latest_selection_tool()) is None,
        asks_for(get_diagnostics_tool()) is None,
        asks_for(open_file_tool()) == Some(seq![Tree::Str("filePath"@)]),
        asks_for(set_commit_message_tool()) == Some(seq![Tree::Str("message"@)]),
        asks_for(get_active_file_tool()) is None,
        asks_for(insert_text_tool()) == Some(seq![Tree::Str("text"@)]),
        asks_for(save_active_file_tool()) is None,
        asks_for(run_command_tool()) == Some(seq![Tree::Str("command"@)]),
        asks_for(git_status_tool()) is None,
        asks_for(git_commit_tool()) == Some(seq![Tree::Str("message"@)]),
        asks_for(git_stage_all_tool()) is None,
        asks_for(terminal_send_tool()) == Some(seq![Tree::Str("text"@)]),
        asks_for(terminal_send_key_tool()) == Some(seq![Tree::Str("key"@)]),
        asks_for(terminal_output_tool()) is None,
        asks_for(new_terminal_tool()) is None,
        asks_for(focus_terminal_tool()) is None,
        asks_for(list_terminals_tool()) is None,
        asks_for(submit_feedback_tool()) == Some(seq![Tree::Str("message"@)]),
        asks_for(rename_terminal_tool()) == Some(seq![Tree::Str("name"@)]),
        asks_for(list_windows_tool()) is None,
        asks_for(control_window_tool()) == Some(seq![Tree::Str("pid"@), Tree::Str("tool"@)]),
        asks_for(stop_voice_tool()) is None,
        asks_for(close_editor_tool()) is None,
        asks_for(close_all_editors_tool()) is None,
        asks_for(search_workspace_tool()) == Some(seq![Tree::Str("query"@)]),
        asks_for(search_terminal_tool()) == Some(seq![Tree::Str("query"@)]),
{
    assert forall|name: Seq<char>, desc: Seq<char>, props: Seq<(Seq<char>, Tree)>, required: Seq<Tree>| asks_for(
        #[trigger] tool_tree(name, desc, strict_schema(props, required)),
    ) == Some(required) by {
        lemma_asks_for(name, desc, props, required);
    }
    assert forall|name: Seq<char>, desc: Seq<char>, props: Seq<(Seq<char>, Tree)>| asks_for(
        #[trigger] tool_tree(name, desc, open_schema(props)),
    ) is None by {
        lemma_asks_for(name, desc, props, Seq::empty());
    }
}

} // verus!
