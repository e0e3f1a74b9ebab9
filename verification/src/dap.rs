//! A client of the Debug Adapter Protocol: what it sends, and what it makes of what the
//! adapter sends.
use vstd::prelude::*;

use std::collections::HashMap;

use crate::json::get_list;
use crate::json::get_text_or;
use crate::json::get_texts;
use crate::json::get_whole_or;
use crate::json::get_wholes;
use crate::json::list_or_none;
use crate::json::text_or;
use crate::json::texts_in;
use crate::json::trees;
use crate::json::under;
use crate::json::under_key;
use crate::json::whole_or;
use crate::json::wholes_in;
use crate::json::Json;
use crate::json::ObjectBuilder;
use crate::json::Tree;
use crate::paths::base_name;
use crate::paths::file_name;
use crate::text::same;
use crate::text::views;

verus! {

broadcast use vstd::std_specs::hash::group_hash_axioms;

/// One frame of the call stack.
pub struct StackFrame {
    pub id: i64,
    pub name: String,
    pub path: Option<String>,
    pub line: i64,
}

/// A scope of variables of a stack frame.
pub struct Scope {
    pub name: String,
    pub var_ref: i64,
}

/// A variable; `var_ref` is what its children are fetched by, 0 where it has none.
pub struct Variable {
    pub name: String,
    pub value: String,
    pub var_ref: i64,
}

/// What the adapter tells the editor.
pub enum DebugEvent {
    Initialized,
    Configured,
    Stopped { thread_id: i64, reason: String },
    Continued,
    Output { category: String, text: String },
    Terminated,
    Log { text: String },
    BreakpointsVerified { path: String, lines: Vec<i64> },
    StackTrace { frames: Vec<StackFrame> },
    Threads { ids: Vec<i64> },
    Scopes { scopes: Vec<Scope> },
    Variables { var_ref: i64, vars: Vec<Variable> },
    RunInTerminal { seq: i64, cwd: String, args: Vec<String> },
}

/// A stack frame by its text.
pub struct FrameView {
    pub id: i64,
    pub name: Seq<char>,
    pub path: Option<Seq<char>>,
    pub line: i64,
}

/// What the adapter tells the editor, by its text.
#[verifier::ext_equal]
pub enum EventView {
    Initialized,
    Configured,
    Stopped { thread_id: i64, reason: Seq<char> },
    Continued,
    Output { category: Seq<char>, text: Seq<char> },
    Terminated,
    Log { text: Seq<char> },
    BreakpointsVerified { path: Seq<char>, lines: Seq<i64> },
    StackTrace { frames: Seq<FrameView> },
    Threads { ids: Seq<i64> },
    Scopes { scopes: Seq<(Seq<char>, i64)> },
    Variables { var_ref: i64, vars: Seq<(Seq<char>, Seq<char>, i64)> },
    RunInTerminal { seq: i64, cwd: Seq<char>, args: Seq<Seq<char>> },
}

impl View for StackFrame {
    type V = FrameView;

    open spec fn view(&self) -> FrameView {
        FrameView {
            id: self.id,
            name: self.name@,
            path: match self.path {
                Some(p) => Some(p@),
                None => None,
            },
            line: self.line,
        }
    }
}

/// Frames by their text.
pub open spec fn frame_views(v: Seq<StackFrame>) -> Seq<FrameView> {
    Seq::new(v.len(), |i: int| v[i]@)
}

/// Scopes by their text.
pub open spec fn scope_views(v: Seq<Scope>) -> Seq<(Seq<char>, i64)> {
    Seq::new(v.len(), |i: int| (v[i].name@, v[i].var_ref))
}

/// Variables by their text.
pub open spec fn variable_views(v: Seq<Variable>) -> Seq<(Seq<char>, Seq<char>, i64)> {
    Seq::new(v.len(), |i: int| (v[i].name@, v[i].value@, v[i].var_ref))
}

impl View for DebugEvent {
    type V = EventView;

    open spec fn view(&self) -> EventView {
        match self {
            DebugEvent::Initialized => EventView::Initialized,
            DebugEvent::Configured => EventView::Configured,
            DebugEvent::Stopped { thread_id, reason } => EventView::Stopped {
                thread_id: *thread_id,
                reason: reason@,
            },
            DebugEvent::Continued => EventView::Continued,
            DebugEvent::Output { category, text } => EventView::Output {
                category: category@,
                text: text@,
            },
            DebugEvent::Terminated => EventView::Terminated,
            DebugEvent::Log { text } => EventView::Log { text: text@ },
            DebugEvent::BreakpointsVerified { path, lines } => EventView::BreakpointsVerified {
                path: path@,
                lines: lines@,
            },
            DebugEvent::StackTrace { frames } => EventView::StackTrace {
                frames: frame_views(frames@),
            },
            DebugEvent::Threads { ids } => EventView::Threads { ids: ids@ },
            DebugEvent::Scopes { scopes } => EventView::Scopes { scopes: scope_views(scopes@) },
            DebugEvent::Variables { var_ref, vars } => EventView::Variables {
                var_ref: *var_ref,
                vars: variable_views(vars@),
            },
            DebugEvent::RunInTerminal { seq, cwd, args } => EventView::RunInTerminal {
                seq: *seq,
                cwd: cwd@,
                args: views(args@),
            },
        }
    }
}

/// Events by their text.
pub open spec fn event_views(v: Seq<DebugEvent>) -> Seq<EventView> {
    Seq::new(v.len(), |i: int| v[i]@)
}

/// A debug session's side of the protocol.
pub struct DapClient {
    next_seq: i64,
    pending: HashMap<i64, &'static str>,
    var_refs: HashMap<i64, i64>,
}

/// What a client remembers: the number of its next message, the command of each request
/// it sent, and what each pending request for variables asked for.
#[verifier::ext_equal]
pub struct Session {
    pub next_seq: i64,
    pub pending: Map<i64, &'static str>,
    pub var_refs: Map<i64, i64>,
}

impl View for DapClient {
    type V = Session;

    closed spec fn view(&self) -> Session {
        Session { next_seq: self.next_seq, pending: self.pending@, var_refs: self.var_refs@ }
    }
}

/// A request as it is sent.
pub open spec fn request_of(seq: i64, command: Seq<char>, arguments: Tree) -> Tree {
    Tree::Obj(
        seq![
            ("seq"@, Tree::whole(seq)),
            ("type"@, Tree::Str("request"@)),
            ("command"@, Tree::Str(command)),
            ("arguments"@, arguments),
        ],
    )
}

/// The client after a request.
pub open spec fn requested(s: Session, command: &'static str) -> Session {
    Session {
        next_seq: (s.next_seq + 1) as i64,
        pending: s.pending.insert(s.next_seq, command),
        var_refs: s.var_refs,
    }
}

/// Arguments that name one number.
pub open spec fn one_number(key: Seq<char>, n: i64) -> Tree {
    Tree::Obj(seq![(key, Tree::whole(n))])
}

/// The arguments that ask for breakpoints.
pub open spec fn breakpoint_arguments(path: Seq<char>, lines: Seq<i64>) -> Tree {
    Tree::Obj(
        seq![
            (
                "source"@,
                Tree::Obj(
                    seq![
                        ("path"@, Tree::Str(path)),
                        (
                            "name"@,
                            Tree::Str(
                                match base_name(path) {
                                    Some(n) => n,
                                    None => Seq::empty(),
                                },
                            ),
                        ),
                    ],
                ),
            ),
            (
                "breakpoints"@,
                Tree::Arr(Seq::new(lines.len(), |i: int| one_number("line"@, lines[i]))),
            ),
            ("lines"@, Tree::Arr(Seq::new(lines.len(), |i: int| Tree::whole(lines[i])))),
        ],
    )
}

/// The arguments of the first request.
pub open spec fn initialize_arguments() -> Tree {
    Tree::Obj(
        seq![
            ("clientID"@, Tree::Str("aether"@)),
            ("clientName"@, Tree::Str("Aether"@)),
            ("adapterID"@, Tree::Str("aether"@)),
            ("pathFormat"@, Tree::Str("path"@)),
            ("linesStartAt1"@, Tree::Bool(true)),
            ("columnsStartAt1"@, Tree::Bool(true)),
            ("supportsRunInTerminalRequest"@, Tree::Bool(true)),
            ("supportsVariableType"@, Tree::Bool(true)),
            ("locale"@, Tree::Str("en"@)),
        ],
    )
}

fn number_argument(key: &str, n: i64) -> (r: Json)
    ensures
        r@ == one_number(key@, n),
{
    let mut b = ObjectBuilder::new();
    b.put(key, Json::whole(n));
    assert(b@ =~= seq![(key@, Tree::whole(n))]);
    b.build()
}

fn no_arguments() -> (r: Json)
    ensures
        r@ == Tree::Obj(Seq::empty()),
{
    ObjectBuilder::new().build()
}

impl DapClient {
    /// A client that has sent nothing.
    pub fn new() -> (r: DapClient)
        ensures
            r@.next_seq == 1,
            r@.pending == Map::<i64, &'static str>::empty(),
            r@.var_refs == Map::<i64, i64>::empty(),
    {
        DapClient { next_seq: 1, pending: HashMap::new(), var_refs: HashMap::new() }
    }

    /// A request, recorded under its number. Returns the number and the message to send.
    fn request(&mut self, command: &'static str, arguments: Json) -> (r: (i64, Json))
        requires
            old(self)@.next_seq < i64::MAX,
        ensures
            r.0 == old(self)@.next_seq,
            r.1@ == request_of(old(self)@.next_seq, command@, arguments@),
            final(self)@ == requested(old(self)@, command),
    {
        let seq: i64 = self.next_seq;
        self.next_seq = self.next_seq + 1;
        self.pending.insert(seq, command);
        let mut b = ObjectBuilder::new();
        b.put("seq", Json::whole(seq));
        b.put_str("type", "request");
        b.put_str("command", command);
        b.put("arguments", arguments);
        assert(b@ =~= request_of(seq, command@, arguments@)->Obj_0);
        assert(self@ =~= requested(old(self)@, command));
        (seq, b.build())
    }

    /// The reply to a request of the adapter, such as to run something in a terminal.
    pub fn reply(&mut self, request_seq: i64, command: &str, success: bool, body: Json) -> (r: Json)
        requires
            old(self)@.next_seq < i64::MAX,
        ensures
            r@ == Tree::Obj(
                seq![
                    ("seq"@, Tree::whole(old(self)@.next_seq)),
                    ("type"@, Tree::Str("response"@)),
                    ("request_seq"@, Tree::whole(request_seq)),
                    ("success"@, Tree::Bool(success)),
                    ("command"@, Tree::Str(command@)),
                    ("body"@, body@),
                ],
            ),
            final(self)@ == (Session { next_seq: (old(self)@.next_seq + 1) as i64, ..old(self)@ }),
    {
        let seq: i64 = self.next_seq;
        self.next_seq = self.next_seq + 1;
        let mut b = ObjectBuilder::new();
        b.put("seq", Json::whole(seq));
        b.put_str("type", "response");
        b.put("request_seq", Json::whole(request_seq));
        b.put("success", Json::Bool(success));
        b.put_str("command", command);
        b.put("body", body);
        assert(b@ =~= seq![
            ("seq"@, Tree::whole(seq)),
            ("type"@, Tree::Str("response"@)),
            ("request_seq"@, Tree::whole(request_seq)),
            ("success"@, Tree::Bool(success)),
            ("command"@, Tree::Str(command@)),
            ("body"@, body@),
        ]);
        b.build()
    }

    /// The first request: what the client is and can do.
    pub fn initialize(&mut self) -> (r: Json)
        requires
            old(self)@.next_seq < i64::MAX,
        ensures
            r@ == request_of(old(self)@.next_seq, "initialize"@, initialize_arguments()),
            final(self)@ == requested(old(self)@, "initialize"),
    {
        let mut b = ObjectBuilder::new();
        b.put_str("clientID", "aether");
        b.put_str("clientName", "Aether");
        b.put_str("adapterID", "aether");
        b.put_str("pathFormat", "path");
        b.put("linesStartAt1", Json::Bool(true));
        b.put("columnsStartAt1", Json::Bool(true));
        b.put("supportsRunInTerminalRequest", Json::Bool(true));
        b.put("supportsVariableType", Json::Bool(true));
        b.put_str("locale", "en");
        assert(b@ =~= initialize_arguments()->Obj_0);
        self.request("initialize", b.build()).1
    }

    /// Launches with the arguments of the configuration, as they are.
    pub fn launch(&mut self, args: Json) -> (r: Json)
        requires
            old(self)@.next_seq < i64::MAX,
        ensures
            r@ == request_of(old(self)@.next_seq, "launch"@, args@),
            final(self)@ == requested(old(self)@, "launch"),
    {
        self.request("launch", args).1
    }

    /// Attaches with the arguments of the configuration, as they are.
    pub fn attach(&mut self, args: Json) -> (r: Json)
        requires
            old(self)@.next_seq < i64::MAX,
        ensures
            r@ == request_of(old(self)@.next_seq, "attach"@, args@),
            final(self)@ == requested(old(self)@, "attach"),
    {
        self.request("attach", args).1
    }

    /// Sets the breakpoints of a file.
    pub fn set_breakpoints(&mut self, path: &str, lines: &Vec<i64>) -> (r: Json)
        requires
            old(self)@.next_seq < i64::MAX,
        ensures
            r@ == request_of(
                old(self)@.next_seq,
                "setBreakpoints"@,
                breakpoint_arguments(path@, lines@),
            ),
            final(self)@ == requested(old(self)@, "setBreakpoints"),
    {
        let name = match file_name(path) {
            Some(n) => n,
            None => String::new(),
        };
        let mut source = ObjectBuilder::new();
        source.put_str("path", path);
        source.put_str("name", name.as_str());
        let ghost want = breakpoint_arguments(path@, lines@)->Obj_0;
        assert(source@ =~= want[0].1->Obj_0);
        let mut marks: Vec<Json> = Vec::new();
        let mut plain: Vec<Json> = Vec::new();
        let mut k: usize = 0;
        while k < lines.len()
            invariant
                k <= lines@.len(),
                want == breakpoint_arguments(path@, lines@)->Obj_0,
                trees(marks@) == want[1].1->Arr_0.take(k as int),
                trees(plain@) == want[2].1->Arr_0.take(k as int),
            decreases lines.len() - k,
        {
            let ghost m = trees(marks@);
            let ghost p = trees(plain@);
            marks.push(number_argument("line", lines[k]));
            plain.push(Json::whole(lines[k]));
            assert(trees(marks@) =~= m.push(one_number("line"@, lines@[k as int])));
            assert(trees(plain@) =~= p.push(Tree::whole(lines@[k as int])));
            assert(want[1].1->Arr_0.take(k + 1) =~= m.push(one_number("line"@, lines@[k as int])));
            assert(want[2].1->Arr_0.take(k + 1) =~= p.push(Tree::whole(lines@[k as int])));
            k = k + 1;
        }
        assert(want[1].1->Arr_0.take(k as int) =~= want[1].1->Arr_0);
        assert(want[2].1->Arr_0.take(k as int) =~= want[2].1->Arr_0);
        let mut b = ObjectBuilder::new();
        b.put("source", source.build());
        b.put("breakpoints", Json::list(marks));
        b.put("lines", Json::list(plain));
        assert(b@ =~= want);
        self.request("setBreakpoints", b.build()).1
    }

    /// Tells the adapter that the configuration is complete.
    pub fn configuration_done(&mut self) -> (r: Json)
        requires
            old(self)@.next_seq < i64::MAX,
        ensures
            r@ == request_of(
                old(self)@.next_seq,
                "configurationDone"@,
                Tree::Obj(Seq::empty()),
            ),
            final(self)@ == requested(old(self)@, "configurationDone"),
    {
        self.request("configurationDone", no_arguments()).1
    }

    /// Lets a thread run on.
    pub fn continue_(&mut self, thread_id: i64) -> (r: Json)
        requires
            old(self)@.next_seq < i64::MAX,
        ensures
            r@ == request_of(
                old(self)@.next_seq,
                "continue"@,
                one_number("threadId"@, thread_id),
            ),
            final(self)@ == requested(old(self)@, "continue"),
    {
        self.request("continue", number_argument("threadId", thread_id)).1
    }

    /// Pauses a thread.
    pub fn pause(&mut self, thread_id: i64) -> (r: Json)
        requires
            old(self)@.next_seq < i64::MAX,
        ensures
            r@ == request_of(old(self)@.next_seq, "pause"@, one_number("threadId"@, thread_id)),
            final(self)@ == requested(old(self)@, "pause"),
    {
        self.request("pause", number_argument("threadId", thread_id)).1
    }

    /// Asks for the threads.
    pub fn threads(&mut self) -> (r: Json)
        requires
            old(self)@.next_seq < i64::MAX,
        ensures
            r@ == request_of(old(self)@.next_seq, "threads"@, Tree::Obj(Seq::empty())),
            final(self)@ == requested(old(self)@, "threads"),
    {
        self.request("threads", no_arguments()).1
    }

    /// Steps over.
    pub fn next(&mut self, thread_id: i64) -> (r: Json)
        requires
            old(self)@.next_seq < i64::MAX,
        ensures
            r@ == request_of(old(self)@.next_seq, "next"@, one_number("threadId"@, thread_id)),
            final(self)@ == requested(old(self)@, "next"),
    {
        self.request("next", number_argument("threadId", thread_id)).1
    }

    /// Steps in.
    pub fn step_in(&mut self, thread_id: i64) -> (r: Json)
        requires
            old(self)@.next_seq < i64::MAX,
        ensures
            r@ == request_of(old(self)@.next_seq, "stepIn"@, one_number("threadId"@, thread_id)),
            final(self)@ == requested(old(self)@, "stepIn"),
    {
        self.request("stepIn", number_argument("threadId", thread_id)).1
    }

    /// Steps out.
    pub fn step_out(&mut self, thread_id: i64) -> (r: Json)
        requires
            old(self)@.next_seq < i64::MAX,
        ensures
            r@ == request_of(
                old(self)@.next_seq,
                "stepOut"@,
                one_number("threadId"@, thread_id),
            ),
            final(self)@ == requested(old(self)@, "stepOut"),
    {
        self.request("stepOut", number_argument("threadId", thread_id)).1
    }

    /// Asks for the topmost frames of a thread.
    pub fn stack_trace(&mut self, thread_id: i64) -> (r: Json)
        requires
            old(self)@.next_seq < i64::MAX,
        ensures
            r@ == request_of(
                old(self)@.next_seq,
                "stackTrace"@,
                Tree::Obj(
                    seq![
                        ("threadId"@, Tree::whole(thread_id)),
                        ("startFrame"@, Tree::Pos(0)),
                        ("levels"@, Tree::Pos(20)),
                    ],
                ),
            ),
            final(self)@ == requested(old(self)@, "stackTrace"),
    {
        let mut b = ObjectBuilder::new();
        b.put("threadId", Json::whole(thread_id));
        b.put("startFrame", Json::Pos(0));
        b.put("levels", Json::Pos(20));
        assert(b@ =~= seq![
            ("threadId"@, Tree::whole(thread_id)),
            ("startFrame"@, Tree::Pos(0)),
            ("levels"@, Tree::Pos(20)),
        ]);
        self.request("stackTrace", b.build()).1
    }

    /// Asks for the scopes of a frame.
    pub fn scopes(&mut self, frame_id: i64) -> (r: Json)
        requires
            old(self)@.next_seq < i64::MAX,
        ensures
            r@ == request_of(old(self)@.next_seq, "scopes"@, one_number("frameId"@, frame_id)),
            final(self)@ == requested(old(self)@, "scopes"),
    {
        self.request("scopes", number_argument("frameId", frame_id)).1
    }

    /// Asks for the variables under a reference, and remembers which it was: the answer
    /// does not repeat it.
    pub fn variables(&mut self, var_ref: i64) -> (r: Json)
        requires
            old(self)@.next_seq < i64::MAX,
        ensures
            r@ == request_of(
                old(self)@.next_seq,
                "variables"@,
                one_number("variablesReference"@, var_ref),
            ),
            final(self)@ == (Session {
                var_refs: old(self)@.var_refs.insert(old(self)@.next_seq, var_ref),
                ..requested(old(self)@, "variables")
            }),
    {
        let (seq, msg) = self.request("variables", number_argument("variablesReference", var_ref));
        self.var_refs.insert(seq, var_ref);
        msg
    }

    /// Ends the session, and what is debugged with it.
    pub fn disconnect(&mut self) -> (r: Json)
        requires
            old(self)@.next_seq < i64::MAX,
        ensures
            r@ == request_of(
                old(self)@.next_seq,
                "disconnect"@,
                Tree::Obj(seq![("terminateDebuggee"@, Tree::Bool(true))]),
            ),
            final(self)@ == requested(old(self)@, "disconnect"),
    {
        let mut b = ObjectBuilder::new();
        b.put("terminateDebuggee", Json::Bool(true));
        assert(b@ =~= seq![("terminateDebuggee"@, Tree::Bool(true))]);
        self.request("disconnect", b.build()).1
    }

    /// Takes a message of the adapter: routes responses by their command, passes events
    /// on, and hands on what the adapter asks for. Returns what the editor is told.
    pub fn handle_message(&mut self, msg: &Json) -> (r: Vec<DebugEvent>)
        ensures
            event_views(r@) == told(msg@, old(self)@.var_refs),
            final(self)@ == (Session { var_refs: refs_after(msg@, old(self)@.var_refs), ..old(self)@ }),
    {
        proof {
            reveal_strlit("event");
            reveal_strlit("response");
            reveal_strlit("request");
            assert("event"@.len() != "response"@.len());
            assert("request"@.len() != "response"@.len());
        }
        let out: Vec<DebugEvent> = Vec::new();
        assert(event_views(out@) =~= Seq::<EventView>::empty());
        match msg.str_at("type") {
            Some(k) => if same(k, "event") {
                handle_event(msg)
            } else if same(k, "response") {
                self.handle_response(msg)
            } else if same(k, "request") {
                handle_reverse_request(msg)
            } else {
                out
            },
            None => out,
        }
    }

    fn handle_response(&mut self, msg: &Json) -> (r: Vec<DebugEvent>)
        ensures
            event_views(r@) == response_told(msg@, old(self)@.var_refs),
            final(self)@ == (Session {
                var_refs: response_refs(msg@, old(self)@.var_refs),
                ..old(self)@
            }),
    {
        let ghost refs = self@.var_refs;
        let command = get_text_or(msg.get("command"), "");
        let body = msg.get("body");
        let success = match msg.bool_at("success") {
            Some(b) => b,
            None => false,
        };
        let mut out: Vec<DebugEvent> = Vec::new();
        if !success {
            if let Some(m) = msg.str_at("message") {
                let mut text = command.clone();
                text.append(" failed: ");
                text.append(m);
                out.push(DebugEvent::Log { text });
            }
        }
        let ghost head = event_views(out@);
        assert(head =~= failure_log(msg@));
        let c = command.as_str();
        if same(c, "initialize") {
            out.push(DebugEvent::Initialized);
        } else if same(c, "setBreakpoints") {
            let lines: Vec<i64> = match get_list(under_key(body, "breakpoints")) {
                Some(v) => get_wholes(v, "line"),
                None => Vec::new(),
            };
            out.push(DebugEvent::BreakpointsVerified { path: String::new(), lines });
        } else if same(c, "stackTrace") {
            let frames: Vec<StackFrame> = match get_list(under_key(body, "stackFrames")) {
                Some(v) => read_frames(v),
                None => Vec::new(),
            };
            assert(frame_views(frames@) =~= frames_in(
                list_or_none(under(msg@.get("body"@), "stackFrames"@)),
            ));
            out.push(DebugEvent::StackTrace { frames });
        } else if same(c, "threads") {
            let ids: Vec<i64> = match get_list(under_key(body, "threads")) {
                Some(v) => get_wholes(v, "id"),
                None => Vec::new(),
            };
            out.push(DebugEvent::Threads { ids });
        } else if same(c, "scopes") {
            let scopes: Vec<Scope> = match get_list(under_key(body, "scopes")) {
                Some(v) => read_scopes(v),
                None => Vec::new(),
            };
            assert(scope_views(scopes@) =~= scopes_in(
                list_or_none(under(msg@.get("body"@), "scopes"@)),
            ));
            out.push(DebugEvent::Scopes { scopes });
        } else if same(c, "variables") {
            let vars: Vec<Variable> = match get_list(under_key(body, "variables")) {
                Some(v) => read_variables(v),
                None => Vec::new(),
            };
            assert(variable_views(vars@) =~= variables_in(
                list_or_none(under(msg@.get("body"@), "variables"@)),
            ));
            let seq: i64 = get_whole_or(msg.get("request_seq"), 0);
            let var_ref: i64 = match self.var_refs.remove(&seq) {
                Some(n) => n,
                None => 0,
            };
            assert(self.var_refs@ =~= refs.remove(seq));
            out.push(DebugEvent::Variables { var_ref, vars });
        }
        proof {
            lemma_commands_apart();
        }
        assert(self@ =~= (Session { var_refs: response_refs(msg@, refs), ..old(self)@ }));
        assert(event_views(out@) =~= response_told(msg@, refs));
        out
    }
}

/// What the editor is told of a message.
pub open spec fn told(msg: Tree, refs: Map<i64, i64>) -> Seq<EventView> {
    match msg.str_at("type"@) {
        Some(t) => if t == "event"@ {
            event_told(msg)
        } else if t == "response"@ {
            response_told(msg, refs)
        } else if t == "request"@ {
            request_told(msg)
        } else {
            Seq::empty()
        },
        None => Seq::empty(),
    }
}

/// The pending requests for variables after a message.
pub open spec fn refs_after(msg: Tree, refs: Map<i64, i64>) -> Map<i64, i64> {
    if msg.str_at("type"@) == Some("response"@) {
        response_refs(msg, refs)
    } else {
        refs
    }
}

/// What the editor is told of an event.
pub open spec fn event_told(msg: Tree) -> Seq<EventView> {
    let body = msg.get("body"@);
    let e = text_or(msg.get("event"@), ""@);
    if e == "initialized"@ {
        seq![EventView::Configured]
    } else if e == "stopped"@ {
        seq![
            EventView::Stopped {
                thread_id: whole_or(under(body, "threadId"@), 0),
                reason: text_or(under(body, "reason"@), ""@),
            },
        ]
    } else if e == "continued"@ {
        seq![EventView::Continued]
    } else if e == "output"@ {
        seq![
            EventView::Output {
                category: text_or(under(body, "category"@), "console"@),
                text: text_or(under(body, "output"@), ""@),
            },
        ]
    } else if e == "terminated"@ || e == "exited"@ {
        seq![EventView::Terminated]
    } else {
        Seq::empty()
    }
}

fn handle_event(msg: &Json) -> (r: Vec<DebugEvent>)
    ensures
        event_views(r@) == event_told(msg@),
{
    let body = msg.get("body");
    let event = get_text_or(msg.get("event"), "");
    let e = event.as_str();
    let mut out: Vec<DebugEvent> = Vec::new();
    if same(e, "initialized") {
        out.push(DebugEvent::Configured);
    } else if same(e, "stopped") {
        let thread_id: i64 = get_whole_or(under_key(body, "threadId"), 0);
        let reason = get_text_or(under_key(body, "reason"), "");
        out.push(DebugEvent::Stopped { thread_id, reason });
    } else if same(e, "continued") {
        out.push(DebugEvent::Continued);
    } else if same(e, "output") {
        let category = get_text_or(under_key(body, "category"), "console");
        let text = get_text_or(under_key(body, "output"), "");
        out.push(DebugEvent::Output { category, text });
    } else if same(e, "terminated") || same(e, "exited") {
        out.push(DebugEvent::Terminated);
    }
    assert(event_views(out@) =~= event_told(msg@));
    out
}

/// The log line of a response that reports a failure with a reason.
pub open spec fn failure_log(msg: Tree) -> Seq<EventView> {
    let failed = msg.bool_at("success"@) != Some(true);
    match msg.str_at("message"@) {
        Some(m) if failed => seq![
            EventView::Log {
                text: text_or(msg.get("command"@), ""@) + " failed: "@ + m,
            },
        ],
        _ => Seq::empty(),
    }
}

/// The frames of a list.
pub open spec fn frames_in(v: Seq<Tree>) -> Seq<FrameView> {
    Seq::new(
        v.len(),
        |i: int|
            FrameView {
                id: whole_or(v[i].get("id"@), 0),
                name: text_or(v[i].get("name"@), ""@),
                path: match under(v[i].get("source"@), "path"@) {
                    Some(t) => t.as_str(),
                    None => None,
                },
                line: whole_or(v[i].get("line"@), 0),
            },
    )
}

/// The scopes of a list.
pub open spec fn scopes_in(v: Seq<Tree>) -> Seq<(Seq<char>, i64)> {
    Seq::new(
        v.len(),
        |i: int|
            (text_or(v[i].get("name"@), ""@), whole_or(v[i].get("variablesReference"@), 0)),
    )
}

/// The variables of a list.
pub open spec fn variables_in(v: Seq<Tree>) -> Seq<(Seq<char>, Seq<char>, i64)> {
    Seq::new(
        v.len(),
        |i: int|
            (
                text_or(v[i].get("name"@), ""@),
                text_or(v[i].get("value"@), ""@),
                whole_or(v[i].get("variablesReference"@), 0),
            ),
    )
}

/// What the editor is told of a response. Variables are told with the reference that the
/// request with that number asked for.
pub open spec fn response_told(msg: Tree, refs: Map<i64, i64>) -> Seq<EventView> {
    let c = text_or(msg.get("command"@), ""@);
    let body = msg.get("body"@);
    let head = failure_log(msg);
    if c == "initialize"@ {
        head.push(EventView::Initialized)
    } else if c == "setBreakpoints"@ {
        head.push(
            EventView::BreakpointsVerified {
                path: Seq::empty(),
                lines: wholes_in(list_or_none(under(body, "breakpoints"@)), "line"@),
            },
        )
    } else if c == "stackTrace"@ {
        head.push(
            EventView::StackTrace { frames: frames_in(list_or_none(under(body, "stackFrames"@))) },
        )
    } else if c == "threads"@ {
        head.push(
            EventView::Threads { ids: wholes_in(list_or_none(under(body, "threads"@)), "id"@) },
        )
    } else if c == "scopes"@ {
        head.push(EventView::Scopes { scopes: scopes_in(list_or_none(under(body, "scopes"@))) })
    } else if c == "variables"@ {
        let seq = whole_or(msg.get("request_seq"@), 0);
        head.push(
            EventView::Variables {
                var_ref: if refs.dom().contains(seq) {
                    refs[seq]
                } else {
                    0
                },
                vars: variables_in(list_or_none(under(body, "variables"@))),
            },
        )
    } else {
        head
    }
}

/// The pending requests for variables after a response.
pub open spec fn response_refs(msg: Tree, refs: Map<i64, i64>) -> Map<i64, i64> {
    if text_or(msg.get("command"@), ""@) == "variables"@ {
        refs.remove(whole_or(msg.get("request_seq"@), 0))
    } else {
        refs
    }
}

fn read_frames(v: &Vec<Json>) -> (r: Vec<StackFrame>)
    ensures
        frame_views(r@) == frames_in(trees(v@)),
{
    let ghost want = frames_in(trees(v@));
    let mut out: Vec<StackFrame> = Vec::new();
    let mut k: usize = 0;
    while k < v.len()
        invariant
            k <= v@.len(),
            want == frames_in(trees(v@)),
            frame_views(out@) == want.take(k as int),
        decreases v.len() - k,
    {
        let f = &v[k];
        assert(trees(v@)[k as int] == f@);
        let path: Option<String> = match under_key(f.get("source"), "path") {
            Some(j) => match j.as_str() {
                Some(s) => Some(s.to_owned()),
                None => None,
            },
            None => None,
        };
        let one = StackFrame {
            id: get_whole_or(f.get("id"), 0),
            name: get_text_or(f.get("name"), ""),
            path,
            line: get_whole_or(f.get("line"), 0),
        };
        let ghost before = frame_views(out@);
        assert(one@ == want[k as int]);
        out.push(one);
        assert(frame_views(out@) =~= before.push(want[k as int]));
        assert(want.take(k + 1) =~= want.take(k as int).push(want[k as int]));
        k = k + 1;
    }
    assert(want.take(k as int) =~= want);
    out
}

fn read_scopes(v: &Vec<Json>) -> (r: Vec<Scope>)
    ensures
        scope_views(r@) == scopes_in(trees(v@)),
{
    let ghost want = scopes_in(trees(v@));
    let mut out: Vec<Scope> = Vec::new();
    let mut k: usize = 0;
    while k < v.len()
        invariant
            k <= v@.len(),
            want == scopes_in(trees(v@)),
            scope_views(out@) == want.take(k as int),
        decreases v.len() - k,
    {
        let s = &v[k];
        assert(trees(v@)[k as int] == s@);
        let one = Scope {
            name: get_text_or(s.get("name"), ""),
            var_ref: get_whole_or(s.get("variablesReference"), 0),
        };
        let ghost before = scope_views(out@);
        out.push(one);
        assert(scope_views(out@) =~= before.push(want[k as int]));
        assert(want.take(k + 1) =~= want.take(k as int).push(want[k as int]));
        k = k + 1;
    }
    assert(want.take(k as int) =~= want);
    out
}

fn read_variables(v: &Vec<Json>) -> (r: Vec<Variable>)
    ensures
        variable_views(r@) == variables_in(trees(v@)),
{
    let ghost want = variables_in(trees(v@));
    let mut out: Vec<Variable> = Vec::new();
    let mut k: usize = 0;
    while k < v.len()
        invariant
            k <= v@.len(),
            want == variables_in(trees(v@)),
            variable_views(out@) == want.take(k as int),
        decreases v.len() - k,
    {
        let x = &v[k];
        assert(trees(v@)[k as int] == x@);
        let one = Variable {
            name: get_text_or(x.get("name"), ""),
            value: get_text_or(x.get("value"), ""),
            var_ref: get_whole_or(x.get("variablesReference"), 0),
        };
        let ghost before = variable_views(out@);
        out.push(one);
        assert(variable_views(out@) =~= before.push(want[k as int]));
        assert(want.take(k + 1) =~= want.take(k as int).push(want[k as int]));
        k = k + 1;
    }
    assert(want.take(k as int) =~= want);
    out
}

/// What the editor is told of a request that the adapter makes.
pub open spec fn request_told(msg: Tree) -> Seq<EventView> {
    let args = msg.get("arguments"@);
    if text_or(msg.get("command"@), ""@) == "runInTerminal"@ {
        seq![
            EventView::RunInTerminal {
                seq: whole_or(msg.get("seq"@), 0),
                cwd: text_or(under(args, "cwd"@), ""@),
                args: texts_in(list_or_none(under(args, "args"@))),
            },
        ]
    } else {
        Seq::empty()
    }
}

fn handle_reverse_request(msg: &Json) -> (r: Vec<DebugEvent>)
    ensures
        event_views(r@) == request_told(msg@),
{
    let mut out: Vec<DebugEvent> = Vec::new();
    let command = get_text_or(msg.get("command"), "");
    if same(command.as_str(), "runInTerminal") {
        let args = msg.get("arguments");
        let argv: Vec<String> = match get_list(under_key(args, "args")) {
            Some(v) => get_texts(v),
            None => Vec::new(),
        };
        assert(views(argv@) =~= texts_in(list_or_none(under(msg@.get("arguments"@), "args"@))));
        out.push(
            DebugEvent::RunInTerminal {
                seq: get_whole_or(msg.get("seq"), 0),
                cwd: get_text_or(under_key(args, "cwd"), ""),
                args: argv,
            },
        );
    }
    assert(event_views(out@) =~= request_told(msg@));
    out
}

/// Whether every number a client has used is below its next one.
pub open spec fn numbers_used_below(s: Session) -> bool {
    &&& forall|n: i64| #[trigger] s.pending.dom().contains(n) ==> n < s.next_seq
    &&& forall|n: i64| #[trigger] s.var_refs.dom().contains(n) ==> n < s.next_seq
}

/// A request takes a number that no request had before, so no answer can be taken for
/// another's.
pub proof fn law_requests_are_numbered_apart(s: Session, command: &'static str)
    requires
        numbers_used_below(s),
        s.next_seq < i64::MAX,
    ensures
        !s.pending.dom().contains(s.next_seq),
        !s.var_refs.dom().contains(s.next_seq),
        numbers_used_below(requested(s, command)),
        requested(s, command).next_seq == s.next_seq + 1,
{
}

/// The answer to a request for variables is told with the reference that was asked for,
/// and only once: a second answer with that number has none.
pub proof fn law_variables_are_attributed_once(refs: Map<i64, i64>, seq: i64, var_ref: i64, msg: Tree)
    requires
        msg.str_at("command"@) == Some("variables"@),
        msg.i64_at("request_seq"@) == Some(seq),
    ensures
        response_told(msg, refs.insert(seq, var_ref)).last() == (EventView::Variables {
            var_ref,
            vars: variables_in(list_or_none(under(msg.get("body"@), "variables"@))),
        }),
        response_told(msg, response_refs(msg, refs.insert(seq, var_ref))).last()
            == (EventView::Variables {
            var_ref: 0,
            vars: variables_in(list_or_none(under(msg.get("body"@), "variables"@))),
        }),
{
    lemma_commands_apart();
}

proof fn lemma_commands_apart()
    ensures
        "initialize"@ != "variables"@,
        "setBreakpoints"@ != "variables"@,
        "stackTrace"@ != "variables"@,
        "threads"@ != "variables"@,
        "scopes"@ != "variables"@,
{
    reveal_strlit("variables");
    reveal_strlit("initialize");
    reveal_strlit("setBreakpoints");
    reveal_strlit("stackTrace");
    reveal_strlit("threads");
    reveal_strlit("scopes");
    let n = "variables"@.len();
    assert("initialize"@.len() != n);
    assert("setBreakpoints"@.len() != n);
    assert("stackTrace"@.len() != n);
    assert("threads"@.len() != n);
    assert("scopes"@.len() != n);
}

proof fn lemma_all_commands_apart()
    ensures
        "initialize"@ != "setBreakpoints"@,
        "initialize"@ != "stackTrace"@,
        "initialize"@ != "threads"@,
        "initialize"@ != "scopes"@,
        "initialize"@ != "variables"@,
        "setBreakpoints"@ != "stackTrace"@,
        "setBreakpoints"@ != "threads"@,
        "setBreakpoints"@ != "scopes"@,
        "setBreakpoints"@ != "variables"@,
        "stackTrace"@ != "threads"@,
        "stackTrace"@ != "scopes"@,
        "stackTrace"@ != "variables"@,
        "threads"@ != "scopes"@,
        "threads"@ != "variables"@,
        "scopes"@ != "variables"@,
{
    reveal_strlit("initialize");
    reveal_strlit("setBreakpoints");
    reveal_strlit("stackTrace");
    reveal_strlit("threads");
    reveal_strlit("scopes");
    reveal_strlit("variables");
    assert("initialize"@.len() != "setBreakpoints"@.len());
    assert("initialize"@[0] != "stackTrace"@[0]);
    assert("initialize"@.len() != "threads"@.len());
    assert("initialize"@.len() != "scopes"@.len());
    assert("initialize"@.len() != "variables"@.len());
    assert("setBreakpoints"@.len() != "stackTrace"@.len());
    assert("setBreakpoints"@.len() != "threads"@.len());
    assert("setBreakpoints"@.len() != "scopes"@.len());
    assert("setBreakpoints"@.len() != "variables"@.len());
    assert("stackTrace"@.len() != "threads"@.len());
    assert("stackTrace"@.len() != "scopes"@.len());
    assert("stackTrace"@.len() != "variables"@.len());
    assert("threads"@.len() != "scopes"@.len());
    assert("threads"@.len() != "variables"@.len());
    assert("scopes"@.len() != "variables"@.len());
}

proof fn lemma_events_apart()
    ensures
        "initialized"@ != "stopped"@,
        "initialized"@ != "continued"@,
        "initialized"@ != "output"@,
        "initialized"@ != "terminated"@,
        "initialized"@ != "exited"@,
        "stopped"@ != "continued"@,
        "stopped"@ != "output"@,
        "stopped"@ != "terminated"@,
        "stopped"@ != "exited"@,
        "continued"@ != "output"@,
        "continued"@ != "terminated"@,
        "continued"@ != "exited"@,
        "output"@ != "terminated"@,
        "output"@ != "exited"@,
        "terminated"@ != "exited"@,
{
    reveal_strlit("initialized");
    reveal_strlit("stopped");
    reveal_strlit("continued");
    reveal_strlit("output");
    reveal_strlit("terminated");
    reveal_strlit("exited");
    assert("initialized"@.len() != "stopped"@.len());
    assert("initialized"@.len() != "continued"@.len());
    assert("initialized"@.len() != "output"@.len());
    assert("initialized"@.len() != "terminated"@.len());
    assert("initialized"@.len() != "exited"@.len());
    assert("stopped"@.len() != "continued"@.len());
    assert("stopped"@.len() != "output"@.len());
    assert("stopped"@.len() != "terminated"@.len());
    assert("stopped"@.len() != "exited"@.len());
    assert("continued"@.len() != "output"@.len());
    assert("continued"@.len() != "terminated"@.len());
    assert("continued"@.len() != "exited"@.len());
    assert("output"@.len() != "terminated"@.len());
    assert("output"@[0] != "exited"@[0]);
    assert("terminated"@.len() != "exited"@.len());
}

/// Whether a message is the answer to a command, with a body.
pub open spec fn answers(msg: Tree, command: Seq<char>, body: Tree) -> bool {
    &&& msg.get("type"@) == Some(Tree::Str("response"@))
    &&& msg.get("command"@) == Some(Tree::Str(command))
    &&& msg.get("body"@) == Some(body)
}

/// Whether a message is an event, with a body.
pub open spec fn announces(msg: Tree, event: Seq<char>, body: Tree) -> bool {
    &&& msg.get("type"@) == Some(Tree::Str("event"@))
    &&& msg.get("event"@) == Some(Tree::Str(event))
    &&& msg.get("body"@) == Some(body)
}

proof fn lemma_kinds_apart()
    ensures
        "event"@ != "response"@,
        "event"@ != "request"@,
        "response"@ != "request"@,
{
    reveal_strlit("event");
    reveal_strlit("response");
    reveal_strlit("request");
    assert("event"@.len() == 5 && "response"@.len() == 8 && "request"@.len() == 7);
}

/// Each variable of an answer is told with its own name, its own value and its own reference,
/// and there are as many as the answer lists. They belong to the reference that the request with
/// the answer's number asked for.
pub proof fn law_variables_are_told_as_listed(
    msg: Tree,
    refs: Map<i64, i64>,
    body: Tree,
    list: Seq<Tree>,
    i: int,
    name: Seq<char>,
    value: Seq<char>,
    var_ref: i64,
    seq: i64,
)
    requires
        answers(msg, "variables"@, body),
        msg.get("request_seq"@) == Some(Tree::whole(seq)),
        body.get("variables"@) == Some(Tree::Arr(list)),
        0 <= i < list.len(),
        list[i].get("name"@) == Some(Tree::Str(name)),
        list[i].get("value"@) == Some(Tree::Str(value)),
        list[i].get("variablesReference"@) == Some(Tree::whole(var_ref)),
    ensures
        told(msg, refs).last() matches EventView::Variables { var_ref: of, vars } && {
            &&& vars.len() == list.len()
            &&& vars[i] == (name, value, var_ref)
            &&& refs.dom().contains(seq) ==> of == refs[seq]
            &&& !refs.dom().contains(seq) ==> of == 0
        },
{
    lemma_all_commands_apart();
    lemma_kinds_apart();
}

/// Each scope of an answer is told with its own name and its own reference, as many as listed.
pub proof fn law_scopes_are_told_as_listed(
    msg: Tree,
    refs: Map<i64, i64>,
    body: Tree,
    list: Seq<Tree>,
    i: int,
    name: Seq<char>,
    var_ref: i64,
)
    requires
        answers(msg, "scopes"@, body),
        body.get("scopes"@) == Some(Tree::Arr(list)),
        0 <= i < list.len(),
        list[i].get("name"@) == Some(Tree::Str(name)),
        list[i].get("variablesReference"@) == Some(Tree::whole(var_ref)),
    ensures
        told(msg, refs).last() matches EventView::Scopes { scopes } && {
            &&& scopes.len() == list.len()
            &&& scopes[i] == (name, var_ref)
        },
{
    lemma_all_commands_apart();
    lemma_kinds_apart();
}

/// Each frame of an answer is told with its own number, name, line and file, in the order of the
/// stack; a frame without a file is told without one.
pub proof fn law_frames_are_told_as_listed(
    msg: Tree,
    refs: Map<i64, i64>,
    body: Tree,
    list: Seq<Tree>,
    i: int,
    id: i64,
    name: Seq<char>,
    line: i64,
    source: Tree,
    path: Seq<char>,
)
    requires
        answers(msg, "stackTrace"@, body),
        body.get("stackFrames"@) == Some(Tree::Arr(list)),
        0 <= i < list.len(),
        list[i].get("id"@) == Some(Tree::whole(id)),
        list[i].get("name"@) == Some(Tree::Str(name)),
        list[i].get("line"@) == Some(Tree::whole(line)),
    ensures
        told(msg, refs).last() matches EventView::StackTrace { frames } && {
            &&& frames.len() == list.len()
            &&& frames[i].id == id
            &&& frames[i].name == name
            &&& frames[i].line == line
            &&& list[i].get("source"@) == Some(source) && source.get("path"@) == Some(Tree::Str(path))
                ==> frames[i].path == Some(path)
            &&& list[i].get("source"@) is None ==> frames[i].path is None
        },
{
    lemma_all_commands_apart();
    lemma_kinds_apart();
}

/// An answer to a request for threads tells the number of each, and one to a request for
/// breakpoints the lines at which they were set; nothing else is told of them.
pub proof fn law_threads_and_lines_are_told(msg: Tree, refs: Map<i64, i64>, body: Tree, list: Seq<Tree>, ids: Seq<i64>)
    requires
        list.len() == ids.len(),
        forall|i: int| 0 <= i < list.len() ==> (#[trigger] list[i]).get("id"@) == Some(Tree::whole(ids[i])),
        forall|i: int|
            0 <= i < list.len() ==> (#[trigger] list[i]).get("line"@) == Some(Tree::whole(ids[i])),
    ensures
        answers(msg, "threads"@, body) && body.get("threads"@) == Some(Tree::Arr(list)) ==> told(
            msg,
            refs,
        ).last() == (EventView::Threads { ids }),
        answers(msg, "setBreakpoints"@, body) && body.get("breakpoints"@) == Some(Tree::Arr(list))
            ==> told(msg, refs).last() == (EventView::BreakpointsVerified {
            path: Seq::empty(),
            lines: ids,
        }),
{
    lemma_all_commands_apart();
    lemma_kinds_apart();
    lemma_wholes(list, "id"@, ids);
    lemma_wholes(list, "line"@, ids);
}

proof fn lemma_wholes(list: Seq<Tree>, key: Seq<char>, ids: Seq<i64>)
    requires
        list.len() == ids.len(),
        forall|i: int| 0 <= i < list.len() ==> (#[trigger] list[i]).get(key) == Some(Tree::whole(ids[i])),
    ensures
        wholes_in(list, key) == ids,
    decreases list.len(),
{
    if list.len() > 0 {
        let front = list.drop_last();
        assert forall|i: int| 0 <= i < front.len() implies (#[trigger] front[i]).get(key) == Some(
            Tree::whole(ids.drop_last()[i]),
        ) by {
            assert(front[i] == list[i]);
        }
        lemma_wholes(front, key, ids.drop_last());
        assert(list[list.len() - 1].get(key) == Some(Tree::whole(ids.last())));
        assert(ids.drop_last().push(ids.last()) =~= ids);
    } else {
        assert(wholes_in(list, key) =~= ids);
    }
}

/// What an event of the adapter is told as: where a thread stopped and why, that it goes on,
/// what the program wrote, that it has ended, or that the adapter waits to be configured.
pub proof fn law_events_are_told(msg: Tree, refs: Map<i64, i64>, body: Tree, thread: i64, text: Seq<char>, other: Seq<char>)
    ensures
        announces(msg, "stopped"@, body) && body.get("threadId"@) == Some(Tree::whole(thread)) && body.get(
            "reason"@,
        ) == Some(Tree::Str(text)) ==> told(msg, refs) == seq![
            EventView::Stopped { thread_id: thread, reason: text },
        ],
        announces(msg, "output"@, body) && body.get("category"@) == Some(Tree::Str(other)) && body.get(
            "output"@,
        ) == Some(Tree::Str(text)) ==> told(msg, refs) == seq![
            EventView::Output { category: other, text },
        ],
        announces(msg, "output"@, body) && body.get("category"@) is None && body.get("output"@) == Some(
            Tree::Str(text),
        ) ==> told(msg, refs) == seq![EventView::Output { category: "console"@, text }],
        announces(msg, "continued"@, body) ==> told(msg, refs) == seq![EventView::Continued],
        announces(msg, "terminated"@, body) ==> told(msg, refs) == seq![EventView::Terminated],
        announces(msg, "exited"@, body) ==> told(msg, refs) == seq![EventView::Terminated],
        announces(msg, "initialized"@, body) ==> told(msg, refs) == seq![EventView::Configured],
        refs_after(msg, refs) == refs || msg.get("type"@) == Some(Tree::Str("response"@)),
{
    lemma_events_apart();
    lemma_kinds_apart();
}

/// A request of the adapter to run a program in a terminal is told with its number, its folder
/// and its words; other requests are not told.
pub proof fn law_terminal_requests_are_told(msg: Tree, refs: Map<i64, i64>, args: Tree, seq: i64, cwd: Seq<char>, words: Seq<Seq<char>>)
    requires
        msg.get("type"@) == Some(Tree::Str("request"@)),
        msg.get("seq"@) == Some(Tree::whole(seq)),
        msg.get("arguments"@) == Some(args),
        args.get("cwd"@) == Some(Tree::Str(cwd)),
        args.get("args"@) == Some(Tree::Arr(Seq::new(words.len(), |i: int| Tree::Str(words[i])))),
    ensures
        msg.get("command"@) == Some(Tree::Str("runInTerminal"@)) ==> told(msg, refs) == seq![
            EventView::RunInTerminal { seq, cwd, args: words },
        ],
        msg.str_at("command"@) != Some("runInTerminal"@) ==> told(msg, refs).len() == 0,
{
    lemma_kinds_apart();
    crate::json::law_texts_of_a_list(words);
    reveal_strlit("");
    reveal_strlit("runInTerminal");
    assert(""@.len() == 0 && "runInTerminal"@.len() == 13);
}

/// A request that failed with a reason is logged with its command and the reason, ahead of
/// anything else; one that succeeded is not logged. A message of no known kind tells nothing.
pub proof fn law_failures_are_logged(msg: Tree, refs: Map<i64, i64>, command: Seq<char>, reason: Seq<char>, i: int)
    requires
        msg.get("type"@) == Some(Tree::Str("response"@)),
        msg.get("command"@) == Some(Tree::Str(command)),
        msg.get("message"@) == Some(Tree::Str(reason)),
    ensures
        msg.get("success"@) == Some(Tree::Bool(false)) ==> told(msg, refs).len() > 0 && told(msg, refs)[0]
            == (EventView::Log { text: command + " failed: "@ + reason }),
        msg.get("success"@) == Some(Tree::Bool(true)) && 0 <= i < told(msg, refs).len() ==> !(told(
            msg,
            refs,
        )[i] is Log),
{
    lemma_kinds_apart();
}

/// A message that is neither an event nor an answer nor a request tells nothing.
pub proof fn law_unknown_messages_tell_nothing(msg: Tree, refs: Map<i64, i64>)
    requires
        msg.str_at("type"@) != Some("event"@),
        msg.str_at("type"@) != Some("response"@),
        msg.str_at("type"@) != Some("request"@),
    ensures
        told(msg, refs).len() == 0,
        refs_after(msg, refs) == refs,
{
}

/// The answer to the first request tells that the adapter is there.
pub proof fn law_first_answer_is_told(msg: Tree, refs: Map<i64, i64>, body: Tree)
    requires
        answers(msg, "initialize"@, body),
    ensures
        told(msg, refs).last() == EventView::Initialized,
        refs_after(msg, refs) == refs,
{
    lemma_all_commands_apart();
    lemma_kinds_apart();
}

/// A request carries its number, its kind, its command and its arguments.
pub proof fn law_requests_carry_what_they_ask(seq: i64, command: Seq<char>, arguments: Tree)
    ensures
        ({
            let r = request_of(seq, command, arguments);
            &&& r.i64_at("seq"@) == Some(seq)
            &&& r.str_at("type"@) == Some("request"@)
            &&& r.str_at("command"@) == Some(command)
            &&& r.get("arguments"@) == Some(arguments)
        }),
{
    reveal_strlit("seq");
    reveal_strlit("type");
    reveal_strlit("command");
    reveal_strlit("arguments");
    assert("seq"@.len() == 3 && "type"@.len() == 4 && "command"@.len() == 7 && "arguments"@.len() == 9);
    let m = request_of(seq, command, arguments)->Obj_0;
    crate::json::lemma_get_at(m, "seq"@, 0);
    crate::json::lemma_get_at(m, "type"@, 1);
    crate::json::lemma_get_at(m, "command"@, 2);
    crate::json::lemma_get_at(m, "arguments"@, 3);
}

/// A request for breakpoints names the file, by its path and by its last component, and every
/// line at which one is wanted, in order.
pub proof fn law_breakpoints_name_file_and_lines(path: Seq<char>, lines: Seq<i64>, name: Seq<char>, i: int)
    requires
        base_name(path) == Some(name),
        0 <= i < lines.len(),
    ensures
        ({
            let a = breakpoint_arguments(path, lines);
            &&& under(a.get("source"@), "path"@) == Some(Tree::Str(path))
            &&& under(a.get("source"@), "name"@) == Some(Tree::Str(name))
            &&& list_or_none(a.get("breakpoints"@)).len() == lines.len()
            &&& list_or_none(a.get("breakpoints"@))[i].i64_at("line"@) == Some(lines[i])
            &&& list_or_none(a.get("lines"@)).len() == lines.len()
            &&& list_or_none(a.get("lines"@))[i].as_i64() == Some(lines[i])
        }),
{
    reveal_strlit("source");
    reveal_strlit("breakpoints");
    reveal_strlit("lines");
    reveal_strlit("path");
    reveal_strlit("name");
    assert("source"@.len() == 6 && "breakpoints"@.len() == 11 && "lines"@.len() == 5);
    assert("path"@[0] == 'p' && "name"@[0] == 'n');
    let m = breakpoint_arguments(path, lines)->Obj_0;
    crate::json::lemma_get_at(m, "source"@, 0);
    crate::json::lemma_get_at(m, "breakpoints"@, 1);
    crate::json::lemma_get_at(m, "lines"@, 2);
    let s = m[0].1->Obj_0;
    crate::json::lemma_get_at(s, "path"@, 0);
    crate::json::lemma_get_at(s, "name"@, 1);
    let one = one_number("line"@, lines[i])->Obj_0;
    crate::json::lemma_get_at(one, "line"@, 0);
}

} // verus!
