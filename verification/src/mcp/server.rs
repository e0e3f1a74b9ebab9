//! The server's side of a connection: which ports are tried, who may connect, and what a
//! message is answered.
use vstd::prelude::*;
use vstd::string::StringSliceAdditionalSpecFns;

use crate::json::get_list;
use crate::json::get_text_or;
use crate::json::list_or_none;
use crate::json::opt_tree;
use crate::json::parse;
use crate::json::printed;
use crate::json::read;
use crate::json::text_or;
use crate::json::trees;
use crate::json::under;
use crate::json::under_key;
use crate::json::Json;
use crate::json::ObjectBuilder;
use crate::json::plain;
use crate::json::reads_as;
use crate::json::Tree;
use crate::json::MAX_DEPTH;
use crate::mcp::catalog::list;
use crate::mcp::catalog::tool_list;
use crate::text::decimal;
use crate::text::same;
use crate::text::write_decimal;

verus! {

/// The version of the protocol that is spoken.
pub open spec fn protocol_version() -> Seq<char> {
    "2024-11-05"@
}

/// The hash of the first `n` bytes.
pub open spec fn hash_of(bytes: Seq<u8>, n: int) -> u64
    decreases n,
{
    if n <= 0 {
        1469598103934665603u64
    } else {
        (hash_of(bytes, n - 1) ^ (bytes[n - 1] as u64)).wrapping_mul(1099511628211u64)
    }
}

/// The port that a seed stands for, from 10000 on.
pub open spec fn port_of_seed(bytes: Seq<u8>) -> u16 {
    (10000 + hash_of(bytes, bytes.len() as int) % 55536) as u16
}

fn hash(bytes: &Vec<u8>) -> (r: u64)
    ensures
        r == hash_of(bytes@, bytes@.len() as int),
{
    let mut h: u64 = 1469598103934665603;
    let mut k: usize = 0;
    while k < bytes.len()
        invariant
            k <= bytes@.len(),
            h == hash_of(bytes@, k as int),
        decreases bytes.len() - k,
    {
        h = (h ^ (bytes[k] as u64)).wrapping_mul(1099511628211);
        k = k + 1;
    }
    h
}

/// The digits of a number, as bytes.
pub open spec fn digit_bytes(n: nat) -> Seq<u8>
    decreases n,
{
    if n < 10 {
        seq![(48 + n) as u8]
    } else {
        digit_bytes(n / 10).push((48 + n % 10) as u8)
    }
}

fn push_digits(bytes: &mut Vec<u8>, n: u16)
    ensures
        final(bytes)@ == old(bytes)@ + digit_bytes(n as nat),
    decreases n,
{
    let ghost before = bytes@;
    if n >= 10 {
        push_digits(bytes, n / 10);
    }
    let ghost head = bytes@;
    bytes.push(48u8 + (n % 10) as u8);
    assert(bytes@ =~= before + digit_bytes(n as nat)) by {
        if n < 10 {
            assert(head == before);
        }
    }
}

/// The seed behind a seed whose port was taken: it and the digits of the port.
pub open spec fn next_seed(bytes: Seq<u8>) -> Seq<u8> {
    bytes + digit_bytes(port_of_seed(bytes) as nat)
}

/// The `k`-th seed.
pub open spec fn seed_at(bytes: Seq<u8>, k: int) -> Seq<u8>
    decreases k,
{
    if k <= 0 {
        bytes
    } else {
        next_seed(seed_at(bytes, k - 1))
    }
}

/// How many ports are tried.
pub const MAX_PORTS: usize = 32;

/// The ports that are tried, in order, for the bytes of a token.
pub fn candidate_ports(token: &str) -> (r: Vec<u16>)
    ensures
        r@.len() == MAX_PORTS,
        forall|k: int|
            0 <= k < MAX_PORTS ==> #[trigger] r@[k] == port_of_seed(
                seed_at(token.spec_bytes(), k),
            ),
{
    let ghost start = token.spec_bytes();
    let mut seed: Vec<u8> = Vec::new();
    let all = token.as_bytes();
    let n: usize = all.len();
    let mut i: usize = 0;
    while i < n
        invariant
            n == all@.len(),
            i <= n,
            seed@ == all@.take(i as int),
        decreases n - i,
    {
        seed.push(all[i]);
        assert(all@.take(i + 1) =~= all@.take(i as int).push(all@[i as int]));
        i = i + 1;
    }
    assert(all@.take(i as int) =~= all@);
    let mut out: Vec<u16> = Vec::new();
    let mut k: usize = 0;
    while k < MAX_PORTS
        invariant
            k <= MAX_PORTS,
            out@.len() == k,
            seed@ == seed_at(start, k as int),
            forall|j: int| 0 <= j < k ==> #[trigger] out@[j] == port_of_seed(seed_at(start, j)),
        decreases MAX_PORTS - k,
    {
        let port: u16 = 10000 + (hash(&seed) % 55536) as u16;
        out.push(port);
        push_digits(&mut seed, port);
        assert(seed@ == next_seed(seed_at(start, k as int)));
        k = k + 1;
    }
    out
}

/// Every port that is tried lies in the range in which clients look.
pub proof fn law_ports_in_range(seed: Seq<u8>)
    ensures
        10000 <= port_of_seed(seed) <= 65535,
{
}

/// Whether a connection may be made: it shows the token.
pub fn authorized(header: Option<&str>, token: &str) -> (r: bool)
    ensures
        r == match header {
            Some(h) => h@ == token@,
            None => false,
        },
{
    match header {
        Some(h) => same(h, token),
        None => false,
    }
}

/// What a message asks for.
pub enum Incoming<T, J> {
    /// Nothing is sent.
    Nothing,
    /// This is sent.
    Answer { value: J },
    /// The terminals are listed first; see `initialize_reply`.
    Initialize { id: J },
    /// A tool is run first; see `call_reply`.
    Call { id: J, name: T, args: J },
    /// A tool is run, and nothing is sent.
    Run { name: T, args: J },
}

/// What a message asks for, by its contents.
pub type IncomingView = Incoming<Seq<char>, Tree>;

/// The contents of what a message asks for.
pub open spec fn incoming_view(i: Incoming<String, Json>) -> IncomingView {
    match i {
        Incoming::Nothing => Incoming::Nothing,
        Incoming::Answer { value } => Incoming::Answer { value: value@ },
        Incoming::Initialize { id } => Incoming::Initialize { id: id@ },
        Incoming::Call { id, name, args } => Incoming::Call { id: id@, name: name@, args: args@ },
        Incoming::Run { name, args } => Incoming::Run { name: name@, args: args@ },
    }
}

/// A value, or null.
pub open spec fn or_null(o: Option<Tree>) -> Tree {
    match o {
        Some(t) => t,
        None => Tree::Null,
    }
}

fn copy_or_null(o: Option<&Json>) -> (r: Json)
    ensures
        r@ == or_null(opt_tree(o)),
{
    match o {
        Some(j) => j.copy(),
        None => Json::Null,
    }
}

/// The answer with a result.
pub open spec fn result_tree(id: Tree, result: Tree) -> Tree {
    Tree::Obj(seq![("jsonrpc"@, Tree::Str("2.0"@)), ("id"@, id), ("result"@, result)])
}

/// The answer with an error.
pub open spec fn error_tree(id: Tree, code: i64, message: Seq<char>) -> Tree {
    Tree::Obj(
        seq![
            ("jsonrpc"@, Tree::Str("2.0"@)),
            ("id"@, id),
            (
                "error"@,
                Tree::Obj(seq![("code"@, Tree::whole(code)), ("message"@, Tree::Str(message))]),
            ),
        ],
    )
}

fn ok_result(id: Json, result: Json) -> (r: Json)
    ensures
        r@ == result_tree(id@, result@),
{
    let mut b = ObjectBuilder::new();
    b.put_str("jsonrpc", "2.0");
    b.put("id", id);
    b.put("result", result);
    assert(b@ =~= result_tree(id@, result@)->Obj_0);
    b.build()
}

fn err_result(id: Json, code: i64, message: &str) -> (r: Json)
    ensures
        r@ == error_tree(id@, code, message@),
{
    let mut e = ObjectBuilder::new();
    e.put("code", Json::whole(code));
    e.put_str("message", message);
    assert(e@ =~= seq![("code"@, Tree::whole(code)), ("message"@, Tree::Str(message@))]);
    let mut b = ObjectBuilder::new();
    b.put_str("jsonrpc", "2.0");
    b.put("id", id);
    b.put("error", e.build());
    assert(b@ =~= error_tree(id@, code, message@)->Obj_0);
    b.build()
}

/// What a message asks for. One without an id gets no answer: a tool that it names is run, and
/// nothing else is done.
pub open spec fn incoming(req: Tree) -> IncomingView {
    let id = or_null(req.get("id"@));
    let method = text_or(req.get("method"@), ""@);
    let params = req.get("params"@);
    if req.get("id"@) is None {
        if method == "tools/call"@ {
            Incoming::Run {
                name: text_or(under(params, "name"@), ""@),
                args: or_null(under(params, "arguments"@)),
            }
        } else {
            Incoming::Nothing
        }
    } else if method == "initialize"@ {
        Incoming::Initialize { id }
    } else if method == "notifications/initialized"@ {
        Incoming::Nothing
    } else if method == "ping"@ {
        Incoming::Answer { value: result_tree(id, Tree::Obj(Seq::empty())) }
    } else if method == "tools/list"@ {
        Incoming::Answer {
            value: result_tree(id, Tree::Obj(seq![("tools"@, Tree::Arr(tool_list()))])),
        }
    } else if method == "tools/call"@ {
        Incoming::Call {
            id,
            name: text_or(under(params, "name"@), ""@),
            args: or_null(under(params, "arguments"@)),
        }
    } else {
        Incoming::Answer { value: error_tree(id, -32601i64 as i64, "method not found"@) }
    }
}

/// What a message asks for.
pub fn classify(req: &Json) -> (r: Incoming<String, Json>)
    ensures
        incoming_view(r) == incoming(req@),
{
    let id = copy_or_null(req.get("id"));
    let method = get_text_or(req.get("method"), "");
    let m = method.as_str();
    let params = req.get("params");
    if req.get("id").is_none() {
        if same(m, "tools/call") {
            let name = get_text_or(under_key(params, "name"), "");
            let args = copy_or_null(under_key(params, "arguments"));
            Incoming::Run { name, args }
        } else {
            Incoming::Nothing
        }
    } else if same(m, "initialize") {
        Incoming::Initialize { id }
    } else if same(m, "notifications/initialized") {
        Incoming::Nothing
    } else if same(m, "ping") {
        Incoming::Answer { value: ok_result(id, ObjectBuilder::new().build()) }
    } else if same(m, "tools/list") {
        let mut b = ObjectBuilder::new();
        b.put("tools", list());
        assert(b@ =~= seq![("tools"@, Tree::Arr(tool_list()))]);
        Incoming::Answer { value: ok_result(id, b.build()) }
    } else if same(m, "tools/call") {
        let name = get_text_or(under_key(params, "name"), "");
        let args = copy_or_null(under_key(params, "arguments"));
        Incoming::Call { id, name, args }
    } else {
        Incoming::Answer { value: err_result(id, -32601, "method not found") }
    }
}

/// What the text of a message asks for: nothing where it is not JSON.
pub fn dispatch(text: &str) -> (r: Incoming<String, Json>)
    ensures
        incoming_view(r) == (match read(text@) {
            Some(req) => incoming(req),
            None => Incoming::Nothing,
        }),
{
    match parse(text) {
        Some(req) => classify(&req),
        None => Incoming::Nothing,
    }
}

/// What a client is told first.
pub open spec fn greeting() -> Seq<char> {
    "Aether IDE (aether-ide). You can drive the editor and its integrated terminals. Terminals are addressed by a STABLE `id` (not position) \u{2014} pass it to terminalSend / terminalSendKey / terminalOutput / focusTerminal. terminalSend pastes text then presses Enter by default. Call listTerminals anytime to refresh.\n\n"@
}

/// How one terminal is told to a client.
pub open spec fn terminal_line(t: Tree) -> Seq<char> {
    "\n  - id "@ + (match t.u64_at("id"@) {
        Some(n) => decimal(n as nat),
        None => "?"@,
    }) + ": \""@ + text_or(t.get("title"@), "shell"@) + "\""@ + (if t.bool_at("active"@) == Some(
        true,
    ) {
        " (focused)"@
    } else {
        ""@
    })
}

/// How the first `n` terminals are told.
pub open spec fn terminal_lines(v: Seq<Tree>, n: int) -> Seq<char>
    decreases n,
{
    if n <= 0 {
        Seq::empty()
    } else {
        terminal_lines(v, n - 1) + terminal_line(v[n - 1])
    }
}

/// What a client is told when it connects: how terminals are addressed, and which there are.
pub open spec fn instructions(terminals: Option<Tree>) -> Seq<char> {
    let v = list_or_none(under(terminals, "terminals"@));
    greeting() + (if v.len() == 0 {
        "Open terminals: none yet (use newTerminal to create one)."@
    } else {
        "Open terminals:"@ + terminal_lines(v, v.len() as int)
    })
}

fn push_line(s: &mut String, t: &Json)
    ensures
        final(s)@ == old(s)@ + terminal_line(t@),
{
    let ghost before = s@;
    s.append("\n  - id ");
    match t.u64_at("id") {
        Some(n) => s.append(write_decimal(n).as_str()),
        None => s.append("?"),
    }
    s.append(": \"");
    s.append(get_text_or(t.get("title"), "shell").as_str());
    s.append("\"");
    let active = match t.bool_at("active") {
        Some(b) => b,
        None => false,
    };
    if active {
        s.append(" (focused)");
    } else {
        s.append("");
    }
    assert(s@ =~= before + terminal_line(t@));
}

/// What a client is told when it connects. `terminals` is the answer of `listTerminals`,
/// where it came.
pub fn startup_instructions(terminals: Option<&Json>) -> (r: String)
    ensures
        r@ == instructions(opt_tree(terminals)),
{
    let mut s = "Aether IDE (aether-ide). You can drive the editor and its integrated terminals. Terminals are addressed by a STABLE `id` (not position) \u{2014} pass it to terminalSend / terminalSendKey / terminalOutput / focusTerminal. terminalSend pastes text then presses Enter by default. Call listTerminals anytime to refresh.\n\n".to_owned();
    match get_list(under_key(terminals, "terminals")) {
        Some(v) => {
            let ghost tv = trees(v@);
            let n: usize = v.len();
            assert(tv.len() == n);
            if n == 0 {
                s.append("Open terminals: none yet (use newTerminal to create one).");
                return s;
            }
            s.append("Open terminals:");
            let ghost head = s@;
            let mut k: usize = 0;
            assert(head + terminal_lines(tv, 0) =~= head);
            while k < n
                invariant
                    k <= n,
                    n == v@.len(),
                    tv == trees(v@),
                    s@ == head + terminal_lines(tv, k as int),
                decreases n - k,
            {
                assert(tv[k as int] == v@[k as int]@);
                push_line(&mut s, &v[k]);
                assert(head + terminal_lines(tv, k as int) + terminal_line(tv[k as int]) =~= head + (
                terminal_lines(tv, k as int) + terminal_line(tv[k as int])));
                k = k + 1;
            }
            assert(s@ =~= greeting() + ("Open terminals:"@ + terminal_lines(tv, n as int)));
        },
        None => {
            s.append("Open terminals: none yet (use newTerminal to create one).");
        },
    }
    s
}

/// The answer to `initialize`.
pub open spec fn welcome(id: Tree, version: Seq<char>, terminals: Option<Tree>) -> Tree {
    result_tree(
        id,
        Tree::Obj(
            seq![
                ("protocolVersion"@, Tree::Str(protocol_version())),
                (
                    "capabilities"@,
                    Tree::Obj(
                        seq![("tools"@, Tree::Obj(seq![("listChanged"@, Tree::Bool(false))]))],
                    ),
                ),
                (
                    "serverInfo"@,
                    Tree::Obj(
                        seq![("name"@, Tree::Str("Aether"@)), ("version"@, Tree::Str(version))],
                    ),
                ),
                ("instructions"@, Tree::Str(instructions(terminals))),
            ],
        ),
    )
}

/// The answer to `initialize`, once the terminals are known.
pub fn initialize_reply(id: Json, version: &str, terminals: Option<&Json>) -> (r: Json)
    ensures
        r@ == welcome(id@, version@, opt_tree(terminals)),
{
    let mut c = ObjectBuilder::new();
    c.put("listChanged", Json::Bool(false));
    assert(c@ =~= seq![("listChanged"@, Tree::Bool(false))]);
    let mut t = ObjectBuilder::new();
    t.put("tools", c.build());
    assert(t@ =~= seq![("tools"@, Tree::Obj(seq![("listChanged"@, Tree::Bool(false))]))]);
    let mut i = ObjectBuilder::new();
    i.put_str("name", "Aether");
    i.put_str("version", version);
    assert(i@ =~= seq![("name"@, Tree::Str("Aether"@)), ("version"@, Tree::Str(version@))]);
    let mut b = ObjectBuilder::new();
    b.put_str("protocolVersion", "2024-11-05");
    b.put("capabilities", t.build());
    b.put("serverInfo", i.build());
    b.put_str("instructions", startup_instructions(terminals).as_str());
    assert(b@ =~= welcome(id@, version@, opt_tree(terminals))->Obj_0[2].1->Obj_0);
    ok_result(id, b.build())
}

/// The answer to `tools/call`: one piece of text.
pub open spec fn called(id: Tree, text: Seq<char>, failed: bool) -> Tree {
    result_tree(
        id,
        Tree::Obj(
            seq![
                (
                    "content"@,
                    Tree::Arr(
                        seq![
                            Tree::Obj(
                                seq![("type"@, Tree::Str("text"@)), ("text"@, Tree::Str(text))],
                            ),
                        ],
                    ),
                ),
                ("isError"@, Tree::Bool(failed)),
            ],
        ),
    )
}

/// The text of a tool's answer: a text as it is, anything else as JSON.
pub open spec fn payload(t: Tree) -> Seq<char> {
    match t {
        Tree::Str(s) => s,
        _ => printed(t),
    }
}

fn content_reply(id: Json, text: &str, failed: bool) -> (r: Json)
    ensures
        r@ == called(id@, text@, failed),
{
    let mut c = ObjectBuilder::new();
    c.put_str("type", "text");
    c.put_str("text", text);
    assert(c@ =~= seq![("type"@, Tree::Str("text"@)), ("text"@, Tree::Str(text@))]);
    let ghost cv = c@;
    let mut v: Vec<Json> = Vec::new();
    v.push(c.build());
    assert(trees(v@) =~= seq![Tree::Obj(cv)]);
    let mut b = ObjectBuilder::new();
    b.put("content", Json::list(v));
    b.put("isError", Json::Bool(failed));
    assert(b@ =~= called(id@, text@, failed)->Obj_0[2].1->Obj_0);
    ok_result(id, b.build())
}

/// The answer to `tools/call`, once the tool was run.
pub fn call_reply(id: Json, result: &Result<Json, String>) -> (r: Json)
    ensures
        r@ == match result {
            Ok(value) => called(id@, payload(value@), false),
            Err(message) => called(id@, message@, true),
        },
        result matches Ok(value) ==> !(value@ is Str) && plain(value@, MAX_DEPTH as int)
            ==> reads_as(payload(value@), value@),
{
    match result {
        Ok(value) => match value {
            Json::Str(s) => content_reply(id, s.as_str(), false),
            _ => {
                let text = value.to_text();
                content_reply(id, text.as_str(), false)
            },
        },
        Err(message) => content_reply(id, message.as_str(), true),
    }
}

/// Every answer carries the id of its request.
pub proof fn law_answers_carry_the_id(
    req: Tree,
    version: Seq<char>,
    terminals: Option<Tree>,
    text: Seq<char>,
    failed: bool,
)
    ensures
        match incoming(req) {
            Incoming::Nothing => true,
            Incoming::Answer { value } => req.get("id"@) is Some && value.get("id"@) == req.get("id"@),
            Incoming::Initialize { id } => req.get("id"@) is Some && welcome(
                id,
                version,
                terminals,
            ).get("id"@) == req.get("id"@),
            Incoming::Call { id, name, args } => req.get("id"@) is Some && called(
                id,
                text,
                failed,
            ).get("id"@) == req.get("id"@),
            Incoming::Run { name, args } => true,
        },
{
    reveal_strlit("jsonrpc");
    reveal_strlit("id");
    let id = or_null(req.get("id"@));
    assert("jsonrpc"@.len() == 7 && "id"@.len() == 2);
    assert forall|v: Tree| #[trigger] result_tree(id, v).get("id"@) == Some(id) by {
        let m = result_tree(id, v)->Obj_0;
        assert(m[0].0 != "id"@);
        assert(m[1].0 == "id"@);
        assert(crate::json::member_from(m, "id"@, 1) == 1);
        assert(crate::json::member_from(m, "id"@, 0) == 1);
    }
    assert forall|c: i64, t: Seq<char>| #[trigger] error_tree(id, c, t).get("id"@) == Some(id) by {
        let m = error_tree(id, c, t)->Obj_0;
        assert(m[0].0 != "id"@);
        assert(m[1].0 == "id"@);
        assert(crate::json::member_from(m, "id"@, 1) == 1);
        assert(crate::json::member_from(m, "id"@, 0) == 1);
    }
}

/// A message without an id is never answered.
pub proof fn law_notifications_are_not_answered(req: Tree)
    requires
        req.get("id"@) is None,
    ensures
        incoming(req) is Nothing || incoming(req) is Run,
{
}

/// A request with an id is always answered, unless it only says that the client is ready.
pub proof fn law_requests_are_answered(req: Tree)
    requires
        req.get("id"@) is Some,
        text_or(req.get("method"@), ""@) != "notifications/initialized"@,
    ensures
        !(incoming(req) is Nothing) && !(incoming(req) is Run),
{
}

proof fn lemma_result(id: Tree, v: Tree)
    ensures
        result_tree(id, v).get("jsonrpc"@) == Some(Tree::Str("2.0"@)),
        result_tree(id, v).get("result"@) == Some(v),
{
    reveal_strlit("jsonrpc");
    reveal_strlit("id");
    reveal_strlit("result");
    assert("jsonrpc"@.len() == 7);
    assert("id"@.len() == 2);
    assert("result"@.len() == 6);
    let m = result_tree(id, v)->Obj_0;
    assert(m[0].0 == "jsonrpc"@);
    assert(m[1].0 == "id"@);
    assert(m[2].0 == "result"@);
    crate::json::lemma_get_at(m, "jsonrpc"@, 0);
    crate::json::lemma_get_at(m, "id"@, 1);
    crate::json::lemma_get_at(m, "result"@, 2);
}

proof fn lemma_error(id: Tree, code: i64, message: Seq<char>)
    ensures
        error_tree(id, code, message).get("result"@) is None,
        error_tree(id, code, message).get("error"@) is Some,
        error_tree(id, code, message).get("error"@)->0.get("code"@) == Some(Tree::whole(code)),
        error_tree(id, code, message).get("error"@)->0.get("message"@) == Some(Tree::Str(message)),
{
    reveal_strlit("jsonrpc");
    reveal_strlit("id");
    reveal_strlit("error");
    reveal_strlit("code");
    reveal_strlit("message");
    reveal_strlit("result");
    assert("jsonrpc"@.len() == 7);
    assert("id"@.len() == 2);
    assert("error"@.len() == 5);
    assert("result"@.len() == 6);
    assert("code"@.len() == 4);
    assert("message"@.len() == 7);
    let m = error_tree(id, code, message)->Obj_0;
    assert(m[0].0 == "jsonrpc"@);
    assert(m[1].0 == "id"@);
    assert(m[2].0 == "error"@);
    crate::json::lemma_get_at(m, "jsonrpc"@, 0);
    crate::json::lemma_get_at(m, "id"@, 1);
    crate::json::lemma_get_at(m, "error"@, 2);
    let c = m[2].1->Obj_0;
    assert(c[0].0 == "code"@);
    assert(c[1].0 == "message"@);
    crate::json::lemma_get_at(c, "code"@, 0);
    crate::json::lemma_get_at(c, "message"@, 1);
    crate::json::law_lookup_gives_the_first_member(
        error_tree(id, code, message),
        "result"@,
        Tree::Null,
    );
}

/// A request is answered by what it asks for: a ping with an empty result, a list of the tools with
/// the tools, a call with the tool and the arguments that it names; any other method is an error.
pub proof fn law_methods_are_answered(
    req: Tree,
    id: Tree,
    method: Seq<char>,
    name: Seq<char>,
    args: Tree,
)
    requires
        req.get("id"@) == Some(id),
        req.get("method"@) == Some(Tree::Str(method)),
    ensures
        method == "initialize"@ ==> incoming(req) == (IncomingView::Initialize { id }),
        method == "ping"@ ==> match incoming(req) {
            Incoming::Answer { value } => value.get("result"@) == Some(Tree::Obj(Seq::empty())),
            _ => false,
        },
        method == "tools/list"@ ==> match incoming(req) {
            Incoming::Answer { value } => value.get("result"@) is Some && value.get(
                "result"@,
            )->0.list_at("tools"@) == Some(tool_list()),
            _ => false,
        },
        method == "tools/call"@ && req.get("params"@) is Some && req.get("params"@)->0.get("name"@)
            == Some(Tree::Str(name)) && req.get("params"@)->0.get("arguments"@) == Some(args)
            ==> incoming(req) == (IncomingView::Call { id, name, args }),
        method != "initialize"@ && method != "notifications/initialized"@ && method != "ping"@
            && method != "tools/list"@ && method != "tools/call"@ ==> match incoming(req) {
            Incoming::Answer { value } => value.get("result"@) is None && value.get("error"@) is Some
                && value.get("error"@)->0.get("code"@) == Some(Tree::Neg((-32601) as i64)),
            _ => false,
        },
{
    reveal_strlit("initialize");
    reveal_strlit("notifications/initialized");
    reveal_strlit("ping");
    reveal_strlit("tools/list");
    reveal_strlit("tools/call");
    assert("initialize"@.len() == 10);
    assert("notifications/initialized"@.len() == 25);
    assert("ping"@.len() == 4);
    assert("tools/list"@.len() == 10);
    assert("tools/call"@.len() == 10);
    assert("initialize"@[0] == 'i' && "tools/list"@[0] == 't');
    assert("initialize"@[0] == 'i' && "tools/call"@[0] == 't');
    assert("tools/list"@[6] == 'l' && "tools/call"@[6] == 'c');
    lemma_result(id, Tree::Obj(Seq::empty()));
    let tools = Tree::Obj(seq![("tools"@, Tree::Arr(tool_list()))]);
    lemma_result(id, tools);
    assert(tools->Obj_0[0].0 == "tools"@);
    crate::json::lemma_get_at(tools->Obj_0, "tools"@, 0);
    lemma_error(id, -32601i64 as i64, "method not found"@);
}

/// A call without an id runs the tool that it names and is not answered.
pub proof fn law_calls_without_an_id_are_run(req: Tree, name: Seq<char>, args: Tree)
    requires
        req.get("id"@) is None,
        req.get("method"@) == Some(Tree::Str("tools/call"@)),
        req.get("params"@) is Some,
        req.get("params"@)->0.get("name"@) == Some(Tree::Str(name)),
        req.get("params"@)->0.get("arguments"@) == Some(args),
    ensures
        incoming(req) == (IncomingView::Run { name, args }),
{
}

/// What a tool gives back is the text of the answer, marked as an error exactly where it failed; a
/// text is given as it is.
pub proof fn law_results_are_told(id: Tree, text: Seq<char>, failed: bool)
    ensures
        payload(Tree::Str(text)) == text,
        called(id, text, failed).get("jsonrpc"@) == Some(Tree::Str("2.0"@)),
        called(id, text, failed).get("result"@) is Some,
        called(id, text, failed).get("result"@)->0.get("isError"@) == Some(Tree::Bool(failed)),
        ({
            let content = called(id, text, failed).get("result"@)->0.list_at("content"@);
            &&& content is Some
            &&& content->0.len() == 1
            &&& content->0[0].get("type"@) == Some(Tree::Str("text"@))
            &&& content->0[0].get("text"@) == Some(Tree::Str(text))
        }),
{
    let one = Tree::Obj(seq![("type"@, Tree::Str("text"@)), ("text"@, Tree::Str(text))]);
    let v = Tree::Obj(
        seq![("content"@, Tree::Arr(seq![one])), ("isError"@, Tree::Bool(failed))],
    );
    lemma_result(id, v);
    reveal_strlit("content");
    reveal_strlit("isError");
    reveal_strlit("type");
    reveal_strlit("text");
    assert("content"@.len() == 7);
    assert("isError"@.len() == 7);
    assert("content"@[0] == 'c' && "isError"@[0] == 'i');
    assert("type"@.len() == 4);
    assert("text"@.len() == 4);
    assert("type"@[1] == 'y' && "text"@[1] == 'e');
    let m = v->Obj_0;
    assert(m[0].0 == "content"@);
    assert(m[1].0 == "isError"@);
    crate::json::lemma_get_at(m, "content"@, 0);
    crate::json::lemma_get_at(m, "isError"@, 1);
    let o = one->Obj_0;
    assert(o[0].0 == "type"@);
    assert(o[1].0 == "text"@);
    crate::json::lemma_get_at(o, "type"@, 0);
    crate::json::lemma_get_at(o, "text"@, 1);
}

/// The first answer tells the protocol, the editor's name and its version, and what the terminals
/// are.
pub proof fn law_editor_introduces_itself(id: Tree, version: Seq<char>, terminals: Option<Tree>)
    ensures
        ({
            let r = welcome(id, version, terminals).get("result"@);
            &&& r is Some
            &&& r->0.get("protocolVersion"@) == Some(Tree::Str("2024-11-05"@))
            &&& r->0.get("serverInfo"@) is Some
            &&& r->0.get("serverInfo"@)->0.get("name"@) == Some(Tree::Str("Aether"@))
            &&& r->0.get("serverInfo"@)->0.get("version"@) == Some(Tree::Str(version))
            &&& r->0.get("instructions"@) == Some(Tree::Str(instructions(terminals)))
        }),
{
    let v = welcome(id, version, terminals)->Obj_0[2].1;
    lemma_result(id, v);
    reveal_strlit("protocolVersion");
    reveal_strlit("capabilities");
    reveal_strlit("serverInfo");
    reveal_strlit("instructions");
    reveal_strlit("name");
    reveal_strlit("version");
    assert("protocolVersion"@.len() == 15);
    assert("capabilities"@.len() == 12);
    assert("serverInfo"@.len() == 10);
    assert("instructions"@.len() == 12);
    assert("capabilities"@[0] == 'c' && "instructions"@[0] == 'i');
    assert("name"@.len() == 4);
    assert("version"@.len() == 7);
    let m = v->Obj_0;
    assert(m[0].0 == "protocolVersion"@);
    assert(m[1].0 == "capabilities"@);
    assert(m[2].0 == "serverInfo"@);
    assert(m[3].0 == "instructions"@);
    crate::json::lemma_get_at(m, "protocolVersion"@, 0);
    crate::json::lemma_get_at(m, "capabilities"@, 1);
    crate::json::lemma_get_at(m, "serverInfo"@, 2);
    crate::json::lemma_get_at(m, "instructions"@, 3);
    let n = m[2].1->Obj_0;
    assert(n[0].0 == "name"@);
    assert(n[1].0 == "version"@);
    crate::json::lemma_get_at(n, "name"@, 0);
    crate::json::lemma_get_at(n, "version"@, 1);
}

proof fn lemma_terminal_lines(v: Seq<Tree>, n: int, i: int)
    requires
        0 <= i < n <= v.len(),
    ensures
        crate::text::holds(terminal_lines(v, n), terminal_line(v[i])),
    decreases n,
{
    let all = terminal_lines(v, n);
    let before = terminal_lines(v, n - 1);
    let line = terminal_line(v[i]);
    if i == n - 1 {
        assert(all.subrange(before.len() as int, before.len() as int + line.len()) =~= line);
        assert(crate::text::occurs_at(all, line, before.len() as int));
    } else {
        lemma_terminal_lines(v, n - 1, i);
        let k = choose|k: int| crate::text::occurs_at(before, line, k);
        assert(all.subrange(k, k + line.len()) =~= before.subrange(k, k + line.len()));
        assert(crate::text::occurs_at(all, line, k));
    }
}

/// Every open terminal is told with its id and its title on a line of its own, and the focused one
/// is marked.
pub proof fn law_open_terminals_are_told(terminals: Tree, v: Seq<Tree>, i: int, n: u64, title: Seq<char>)
    requires
        terminals.get("terminals"@) == Some(Tree::Arr(v)),
        0 <= i < v.len(),
        v[i].get("id"@) == Some(Tree::Pos(n)),
        v[i].get("title"@) == Some(Tree::Str(title)),
    ensures
        crate::text::holds(
            instructions(Some(terminals)),
            "\n  - id "@ + decimal(n as nat) + ": \""@ + title + "\""@,
        ),
        v[i].get("active"@) == Some(Tree::Bool(true)) ==> crate::text::holds(
            instructions(Some(terminals)),
            "\n  - id "@ + decimal(n as nat) + ": \""@ + title + "\""@ + " (focused)"@,
        ),
{
    let all = instructions(Some(terminals));
    let lines = terminal_lines(v, v.len() as int);
    let line = terminal_line(v[i]);
    lemma_terminal_lines(v, v.len() as int, i);
    let k = choose|k: int| crate::text::occurs_at(lines, line, k);
    let front = greeting() + "Open terminals:"@;
    assert(all =~= front + lines);
    let at = front.len() + k;
    assert(all.subrange(at, at + line.len()) =~= lines.subrange(k, k + line.len()));
    let short = "\n  - id "@ + decimal(n as nat) + ": \""@ + title + "\""@;
    assert(line.take(short.len() as int) =~= short);
    assert(all.subrange(at, at + short.len()) =~= short) by {
        assert(all.subrange(at, at + short.len()) =~= all.subrange(at, at + line.len()).take(
            short.len() as int,
        ));
    }
    assert(crate::text::occurs_at(all, short, at));
    assert(crate::text::occurs_at(all, line, at));
}

/// The port of a seed goes by the FNV hash of its bytes.
pub proof fn law_ports_go_by_the_hash(bytes: Seq<u8>, b: u8)
    ensures
        hash_of(bytes, 0) == 1469598103934665603u64,
        hash_of(bytes.push(b), bytes.len() as int + 1) == (hash_of(bytes, bytes.len() as int) ^ (b as u64)).wrapping_mul(
            1099511628211u64,
        ),
        port_of_seed(bytes) == 10000 + hash_of(bytes, bytes.len() as int) % 55536,
        MAX_PORTS == 32,
{
    lemma_hash_front(bytes, b, bytes.len() as int);
}

proof fn lemma_hash_front(bytes: Seq<u8>, b: u8, n: int)
    requires
        0 <= n <= bytes.len(),
    ensures
        hash_of(bytes.push(b), n) == hash_of(bytes, n),
    decreases n,
{
    if n > 0 {
        lemma_hash_front(bytes, b, n - 1);
        assert(bytes.push(b)[n - 1] == bytes[n - 1]);
    }
}

} // verus!
