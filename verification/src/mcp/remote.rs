//! One window drives another: which windows there are, what is sent to one, and what its
//! answer means.
use vstd::prelude::*;

use crate::json::parse;
use crate::json::printed;
use crate::json::read;
use crate::json::text_or;
use crate::json::get_text_or;
use crate::json::list_or_none;
use crate::json::get_list;
use crate::json::opt_tree;
use crate::json::trees;
use crate::json::under;
use crate::json::under_key;
use crate::json::Json;
use crate::json::ObjectBuilder;
use crate::json::Tree;
use crate::json::lemma_get_at;
use crate::json::lemma_member_place;
use crate::json::member_from;
use crate::json::reads_as;
use crate::json::same_value;
use crate::mcp::server::called;
use crate::mcp::server::incoming;
use crate::mcp::server::payload;
use crate::mcp::server::Incoming;
use crate::mcp::discovery::lock_name;
use crate::mcp::discovery::lock_tells;
use crate::mcp::discovery::owner_of;
use crate::mcp::proxy::law_lock_is_named_after_its_port;
use crate::mcp::proxy::lock_port;
use crate::mcp::proxy::port_of;
use crate::mcp::proxy::LockFile;
use crate::paths::joined_path;
use crate::text::same;

verus! {

/// A window that can be driven.
pub struct WindowInfo {
    pub pid: u64,
    pub port: u16,
    pub token: String,
    pub workspace: String,
}

/// A window by its text.
pub struct WindowView {
    pub pid: u64,
    pub port: int,
    pub token: Seq<char>,
    pub workspace: Seq<char>,
}

impl View for WindowInfo {
    type V = WindowView;

    open spec fn view(&self) -> WindowView {
        WindowView {
            pid: self.pid,
            port: self.port as int,
            token: self.token@,
            workspace: self.workspace@,
        }
    }
}

/// Windows by their text.
pub open spec fn window_views(v: Seq<WindowInfo>) -> Seq<WindowView> {
    Seq::new(v.len(), |i: int| v[i]@)
}

/// The first folder of a lock file, or none.
pub open spec fn first_folder(t: Tree) -> Seq<char> {
    let folders = list_or_none(t.get("workspaceFolders"@));
    if folders.len() > 0 {
        text_or(Some(folders[0]), ""@)
    } else {
        ""@
    }
}

/// The window of a lock file: one of ours, of another process that is alive.
pub open spec fn window_of(path: Seq<char>, text: Seq<char>, alive: bool, exclude: u32) -> Option<
    WindowView,
> {
    match read(text) {
        Some(t) => if t.str_at("ideName"@) == Some("Aether"@) && t.u64_at("pid"@) is Some && t.u64_at(
            "pid"@,
        )->0 != exclude as u64 && alive && port_of(path) is Some && t.str_at("authToken"@) is Some {
            Some(
                WindowView {
                    pid: t.u64_at("pid"@)->0,
                    port: port_of(path)->0,
                    token: t.str_at("authToken"@)->0,
                    workspace: first_folder(t),
                },
            )
        } else {
            None
        },
        None => None,
    }
}

/// The windows of the first `k` lock files.
pub open spec fn windows_in(locks: Seq<LockFile>, alive: Seq<bool>, exclude: u32, k: int) -> Seq<
    WindowView,
>
    decreases k,
{
    if k <= 0 {
        Seq::empty()
    } else {
        let before = windows_in(locks, alive, exclude, k - 1);
        match window_of(locks[k - 1].path@, locks[k - 1].text@, alive[k - 1], exclude) {
            Some(w) => before.push(w),
            None => before,
        }
    }
}

fn read_window(lock: &LockFile, alive: bool, exclude_pid: u32) -> (r: Option<WindowInfo>)
    ensures
        match r {
            Some(w) => window_of(lock.path@, lock.text@, alive, exclude_pid) == Some(w@),
            None => window_of(lock.path@, lock.text@, alive, exclude_pid) is None,
        },
{
    let j = match parse(lock.text.as_str()) {
        Some(j) => j,
        None => {
            return None;
        },
    };
    let ours = match j.str_at("ideName") {
        Some(name) => same(name, "Aether"),
        None => false,
    };
    let pid: u64 = match j.u64_at("pid") {
        Some(p) => p,
        None => {
            return None;
        },
    };
    if !ours || pid == exclude_pid as u64 || !alive {
        return None;
    }
    let port: u16 = match lock_port(lock.path.as_str()) {
        Some(p) => p,
        None => {
            return None;
        },
    };
    let token = match j.str_at("authToken") {
        Some(t) => t,
        None => {
            return None;
        },
    };
    let workspace: String = match get_list(j.get("workspaceFolders")) {
        Some(v) => if v.len() > 0 {
            assert(trees(v@)[0] == v@[0]@);
            get_text_or(Some(&v[0]), "")
        } else {
            "".to_owned()
        },
        None => "".to_owned(),
    };
    Some(WindowInfo { pid, port, token: token.to_owned(), workspace })
}

/// Every other live window. `alive` says of each lock file whether its process lives.
pub fn list_windows(locks: &Vec<LockFile>, alive: &Vec<bool>, exclude_pid: u32) -> (r: Vec<WindowInfo>)
    requires
        locks@.len() == alive@.len(),
    ensures
        window_views(r@) == windows_in(locks@, alive@, exclude_pid, locks@.len() as int),
{
    let mut out: Vec<WindowInfo> = Vec::new();
    assert(window_views(out@) =~= Seq::<WindowView>::empty());
    let mut k: usize = 0;
    while k < locks.len()
        invariant
            k <= locks@.len(),
            locks@.len() == alive@.len(),
            window_views(out@) == windows_in(locks@, alive@, exclude_pid, k as int),
        decreases locks.len() - k,
    {
        let ghost before = window_views(out@);
        if let Some(w) = read_window(&locks[k], alive[k], exclude_pid) {
            out.push(w);
            assert(window_views(out@) =~= before.push(w@));
        }
        k = k + 1;
    }
    out
}

/// A window that has written its lock file is listed by every other one while its process
/// lives, with its port, its token and its folder.
pub proof fn law_other_windows_are_listed(
    dir: Seq<char>,
    port: u16,
    pid: u32,
    workspace: Seq<char>,
    token: Seq<char>,
    locks: Seq<LockFile>,
    alive: Seq<bool>,
    exclude: u32,
    k: int,
)
    requires
        0 <= k < locks.len(),
        locks.len() == alive.len(),
        locks[k].path@ == joined_path(dir, lock_name(port)),
        owner_of(locks[k].text@) == Some(pid as u64),
        lock_tells(locks[k].text@, token, seq![Tree::Str(workspace)]),
        alive[k],
        pid != exclude,
    ensures
        windows_in(locks, alive, exclude, locks.len() as int).contains(
            (WindowView { pid: pid as u64, port: port as int, token, workspace }),
        ),
{
    law_lock_is_named_after_its_port(dir, port);
    let w = WindowView { pid: pid as u64, port: port as int, token, workspace };
    assert(window_of(locks[k].path@, locks[k].text@, alive[k], exclude) == Some(w));
    lemma_listed(locks, alive, exclude, k, locks.len() as int, w);
}

proof fn lemma_listed(
    locks: Seq<LockFile>,
    alive: Seq<bool>,
    exclude: u32,
    k: int,
    n: int,
    w: WindowView,
)
    requires
        0 <= k < n <= locks.len(),
        window_of(locks[k].path@, locks[k].text@, alive[k], exclude) == Some(w),
    ensures
        windows_in(locks, alive, exclude, n).contains(w),
    decreases n,
{
    let before = windows_in(locks, alive, exclude, n - 1);
    let all = windows_in(locks, alive, exclude, n);
    if k < n - 1 {
        lemma_listed(locks, alive, exclude, k, n - 1, w);
        let i = choose|i: int| 0 <= i < before.len() && before[i] == w;
        assert(all[i] == w);
    } else {
        assert(all[before.len() as int] == w);
    }
}

/// The request that runs a tool in another window.
pub open spec fn tool_request(tool: Seq<char>, args: Tree) -> Tree {
    Tree::Obj(
        seq![
            ("jsonrpc"@, Tree::Str("2.0"@)),
            ("id"@, Tree::Pos(1)),
            ("method"@, Tree::Str("tools/call"@)),
            ("params"@, Tree::Obj(seq![("name"@, Tree::Str(tool)), ("arguments"@, args)])),
        ],
    )
}

/// The text of the request that runs a tool in another window.
pub fn remote_request(tool: &str, args: Json) -> (r: String)
    ensures
        r@ == printed(tool_request(tool@, args@)),
{
    let mut p = ObjectBuilder::new();
    p.put_str("name", tool);
    p.put("arguments", args);
    assert(p@ =~= seq![("name"@, Tree::Str(tool@)), ("arguments"@, args@)]);
    let mut b = ObjectBuilder::new();
    b.put_str("jsonrpc", "2.0");
    b.put("id", Json::Pos(1));
    b.put_str("method", "tools/call");
    b.put("params", p.build());
    assert(b@ =~= tool_request(tool@, args@)->Obj_0);
    b.build().to_text()
}

/// What came back from another window: `None` where a message is not the answer.
pub enum RemoteReply {
    NotOurs,
    Failed(String),
    Done(Json),
}

/// The text of a tool's answer: that of its first piece of content.
pub open spec fn answer_text(result: Option<Tree>) -> Seq<char> {
    let content = list_or_none(under(result, "content"@));
    if content.len() > 0 {
        text_or(content[0].get("text"@), ""@)
    } else {
        ""@
    }
}

/// Whether `r` is what a message of the other window means.
pub open spec fn is_reply(r: RemoteReply, msg: Option<Tree>) -> bool {
    match msg {
        Some(t) => if t.i64_at("id"@) != Some(1i64) {
            r is NotOurs
        } else if t.get("error"@) is Some {
            r matches RemoteReply::Failed(m) && m@ == text_or(
                under(t.get("error"@), "message"@),
                "remote error"@,
            )
        } else {
            let result = t.get("result"@);
            let text = answer_text(result);
            let failed = match under(result, "isError"@) {
                Some(b) => b.as_bool() == Some(true),
                None => false,
            };
            if failed {
                r matches RemoteReply::Failed(m) && m@ == text
            } else {
                r matches RemoteReply::Done(j) && j@ == match read(text) {
                    Some(v) => v,
                    None => Tree::Str(text),
                }
            }
        },
        None => r is NotOurs,
    }
}

/// What a text of the other window means: the tool's answer is JSON in a text, or just a
/// text.
pub fn remote_reply(text: &str) -> (r: RemoteReply)
    ensures
        is_reply(r, read(text@)),
{
    match parse(text) {
        Some(j) => reply_of(&j),
        None => RemoteReply::NotOurs,
    }
}

/// What a message of the other window means.
pub fn reply_of(j: &Json) -> (r: RemoteReply)
    ensures
        is_reply(r, Some(j@)),
{
    let ours = match j.i64_at("id") {
        Some(n) => n == 1,
        None => false,
    };
    if !ours {
        return RemoteReply::NotOurs;
    }
    if let Some(e) = j.get("error") {
        return RemoteReply::Failed(get_text_or(e.get("message"), "remote error"));
    }
    let result = j.get("result");
    let failed = match under_key(result, "isError") {
        Some(b) => match b.as_bool() {
            Some(x) => x,
            None => false,
        },
        None => false,
    };
    let text: String = match get_list(under_key(result, "content")) {
        Some(v) => if v.len() > 0 {
            assert(trees(v@)[0] == v@[0]@);
            get_text_or(v[0].get("text"), "")
        } else {
            "".to_owned()
        },
        None => "".to_owned(),
    };
    assert(text@ == answer_text(opt_tree(result)));
    if failed {
        RemoteReply::Failed(text)
    } else {
        match parse(text.as_str()) {
            Some(v) => RemoteReply::Done(v),
            None => RemoteReply::Done(Json::Str(text)),
        }
    }
}

/// The request that runs a tool in another window asks the server there for that tool with
/// those arguments.
pub proof fn law_remote_call_reaches_the_tool(tool: Seq<char>, args: Tree)
    ensures
        incoming(tool_request(tool, args)) == (Incoming::<Seq<char>, Tree>::Call {
            id: Tree::Pos(1),
            name: tool,
            args,
        }),
{
    reveal_strlit("jsonrpc");
    reveal_strlit("id");
    reveal_strlit("method");
    reveal_strlit("params");
    reveal_strlit("name");
    reveal_strlit("arguments");
    reveal_strlit("initialize");
    reveal_strlit("notifications/initialized");
    reveal_strlit("ping");
    reveal_strlit("tools/list");
    reveal_strlit("tools/call");
    assert("jsonrpc"@.len() == 7 && "id"@.len() == 2 && "method"@.len() == 6 && "params"@.len() == 6
        && "name"@.len() == 4 && "arguments"@.len() == 9);
    assert("method"@[0] != "params"@[0]);
    assert("tools/call"@.len() == 10 && "initialize"@.len() == 10 && "tools/list"@.len() == 10
        && "ping"@.len() == 4 && "notifications/initialized"@.len() == 25);
    assert("tools/call"@[0] != "initialize"@[0]);
    assert("tools/call"@[6] != "tools/list"@[6]);
    let m = tool_request(tool, args)->Obj_0;
    lemma_get_at(m, "id"@, 1);
    lemma_get_at(m, "method"@, 2);
    lemma_get_at(m, "params"@, 3);
    let p = m[3].1->Obj_0;
    lemma_get_at(p, "name"@, 0);
    lemma_get_at(p, "arguments"@, 1);
}

/// What a tool gave in another window is what the caller gets: a failure with its message, and
/// a result that is read back from its text, or is that text.
pub proof fn law_remote_reply_is_the_result(r: RemoteReply, text: Seq<char>, failed: bool)
    requires
        is_reply(r, Some(called(Tree::Pos(1), text, failed))),
    ensures
        if failed {
            r matches RemoteReply::Failed(m) && m@ == text
        } else {
            r matches RemoteReply::Done(j) && j@ == match read(text) {
                Some(v) => v,
                None => Tree::Str(text),
            }
        },
{
    reveal_strlit("jsonrpc");
    reveal_strlit("id");
    reveal_strlit("result");
    reveal_strlit("error");
    reveal_strlit("content");
    reveal_strlit("isError");
    reveal_strlit("type");
    reveal_strlit("text");
    assert("jsonrpc"@.len() == 7 && "id"@.len() == 2 && "result"@.len() == 6 && "error"@.len() == 5
        && "content"@.len() == 7 && "isError"@.len() == 7 && "type"@.len() == 4 && "text"@.len()
        == 4);
    assert("content"@[0] != "isError"@[0]);
    assert("type"@[1] != "text"@[1]);
    let t = called(Tree::Pos(1), text, failed);
    let m = t->Obj_0;
    lemma_get_at(m, "id"@, 1);
    lemma_get_at(m, "result"@, 2);
    lemma_member_place(m, "error"@);
    let k = member_from(m, "error"@, 0);
    if k < m.len() {
        assert(m[k].0.len() == 5);
    }
    let b = m[2].1->Obj_0;
    lemma_get_at(b, "content"@, 0);
    lemma_get_at(b, "isError"@, 1);
    let c = b[0].1->Arr_0[0]->Obj_0;
    lemma_get_at(c, "text"@, 1);
}

/// A result that is no text comes back as the same value.
pub proof fn law_remote_value_survives(r: RemoteReply, value: Tree)
    requires
        !(value is Str),
        reads_as(payload(value), value),
        is_reply(r, Some(called(Tree::Pos(1), payload(value), false))),
    ensures
        r matches RemoteReply::Done(j) && same_value(value, j@),
{
    law_remote_reply_is_the_result(r, payload(value), false);
}

/// A lock file tells another window: its process, its port, its token and its first folder. One of
/// this window, of a process that is gone or of another program tells none.
pub proof fn law_locks_tell_their_windows(
    path: Seq<char>,
    text: Seq<char>,
    t: Tree,
    pid: u64,
    port: int,
    token: Seq<char>,
    name: Seq<char>,
    folder: Seq<char>,
    rest: Seq<Tree>,
    exclude: u32,
)
    requires
        read(text) == Some(t),
        t.get("ideName"@) == Some(Tree::Str(name)),
        t.get("pid"@) == Some(Tree::Pos(pid)),
        t.get("authToken"@) == Some(Tree::Str(token)),
        t.get("workspaceFolders"@) == Some(Tree::Arr(seq![Tree::Str(folder)] + rest)),
        port_of(path) == Some(port),
    ensures
        name == "Aether"@ && pid != exclude ==> window_of(path, text, true, exclude) == Some(
            WindowView { pid, port, token, workspace: folder },
        ),
        pid == exclude ==> window_of(path, text, true, exclude) is None,
        window_of(path, text, false, exclude) is None,
        name != "Aether"@ ==> window_of(path, text, true, exclude) is None,
{
    assert((seq![Tree::Str(folder)] + rest)[0] == Tree::Str(folder));
}

} // verus!
