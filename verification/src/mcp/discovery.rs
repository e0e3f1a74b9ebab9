//! The lock file by which a window is found: what it says, and when it is stale.
use vstd::prelude::*;

use crate::json::lemma_get_at;
use crate::json::lemma_same_member;
use crate::json::parse;
use crate::json::plain;
use crate::json::printed;
use crate::json::read;
use crate::json::reads_as;
use crate::json::same_value;
use crate::json::trees;
use crate::json::Json;
use crate::json::ObjectBuilder;
use crate::json::Tree;
use crate::json::MAX_DEPTH;
use crate::text::decimal;
use crate::text::hex;
use crate::text::write_decimal;
use crate::text::write_hex;

verus! {

/// The name of the lock file for a port.
pub open spec fn lock_name(port: u16) -> Seq<char> {
    decimal(port as nat) + ".lock"@
}

/// The name of the lock file for a port.
pub fn lock_file_name(port: u16) -> (r: String)
    ensures
        r@ == lock_name(port),
{
    let mut out = write_decimal(port as u64);
    out.append(".lock");
    out
}

/// What a lock file says of a window.
pub open spec fn lock_of(pid: u32, workspace: Seq<char>, windows: bool, token: Seq<char>) -> Tree {
    Tree::Obj(
        seq![
            ("pid"@, Tree::Pos(pid as u64)),
            ("workspaceFolders"@, Tree::Arr(seq![Tree::Str(workspace)])),
            ("ideName"@, Tree::Str("Aether"@)),
            ("transport"@, Tree::Str("ws"@)),
            ("runningInWindows"@, Tree::Bool(windows)),
            ("authToken"@, Tree::Str(token)),
        ],
    )
}

/// What a lock file says of a window.
pub fn lock_body(pid: u32, workspace: &str, windows: bool, token: &str) -> (r: Json)
    ensures
        r@ == lock_of(pid, workspace@, windows, token@),
{
    let folders = vec![Json::text(workspace)];
    assert(trees(folders@) =~= seq![Tree::Str(workspace@)]);
    let mut b = ObjectBuilder::new();
    b.put("pid", Json::Pos(pid as u64));
    b.put("workspaceFolders", Json::list(folders));
    b.put_str("ideName", "Aether");
    b.put_str("transport", "ws");
    b.put("runningInWindows", Json::Bool(windows));
    b.put_str("authToken", token);
    assert(b@ =~= lock_of(pid, workspace@, windows, token@)->Obj_0);
    b.build()
}

/// What a client learns from the text of a lock file: that it is ours, the token, and the
/// folders.
pub open spec fn lock_tells(text: Seq<char>, token: Seq<char>, folders: Seq<Tree>) -> bool {
    match read(text) {
        Some(t) => {
            &&& t.str_at("ideName"@) == Some("Aether"@)
            &&& t.str_at("authToken"@) == Some(token)
            &&& t.get("workspaceFolders"@) == Some(Tree::Arr(folders))
        },
        None => false,
    }
}

/// The text of a lock file. The process, the token and the folder are read back from it.
pub fn write_lock(pid: u32, workspace: &str, windows: bool, token: &str) -> (r: String)
    ensures
        r@ == printed(lock_of(pid, workspace@, windows, token@)),
        owner_of(r@) == Some(pid as u64),
        lock_tells(r@, token@, seq![Tree::Str(workspace@)]),
{
    let r = lock_body(pid, workspace, windows, token).to_text();
    proof {
        lemma_lock_survives(pid, workspace@, windows, token@, r@);
    }
    r
}

proof fn lemma_lock_survives(
    pid: u32,
    workspace: Seq<char>,
    windows: bool,
    token: Seq<char>,
    text: Seq<char>,
)
    requires
        plain(lock_of(pid, workspace, windows, token), MAX_DEPTH as int) ==> reads_as(
            text,
            lock_of(pid, workspace, windows, token),
        ),
    ensures
        owner_of(text) == Some(pid as u64),
        lock_tells(text, token, seq![Tree::Str(workspace)]),
{
    reveal_strlit("pid");
    reveal_strlit("workspaceFolders");
    reveal_strlit("ideName");
    reveal_strlit("transport");
    reveal_strlit("runningInWindows");
    reveal_strlit("authToken");
    assert("pid"@.len() == 3 && "workspaceFolders"@.len() == 16 && "ideName"@.len() == 7
        && "transport"@.len() == 9 && "runningInWindows"@.len() == 16 && "authToken"@.len() == 9);
    assert("workspaceFolders"@[0] != "runningInWindows"@[0]);
    assert("transport"@[0] != "authToken"@[0]);
    let t = lock_of(pid, workspace, windows, token);
    let m = t->Obj_0;
    let folders = seq![Tree::Str(workspace)];
    assert(m[1].1 == Tree::Arr(folders));
    assert forall|i: int| 0 <= i < folders.len() implies plain(
        #[trigger] folders[i],
        MAX_DEPTH - 2,
    ) by {
        assert(folders[i] == Tree::Str(workspace));
    }
    assert(plain(m[1].1, MAX_DEPTH - 1));
    assert forall|i: int| 0 <= i < m.len() implies plain((#[trigger] m[i]).1, MAX_DEPTH - 1) by {}
    assert(plain(t, MAX_DEPTH as int));
    let x = read(text)->0;
    lemma_get_at(m, "pid"@, 0);
    lemma_get_at(m, "workspaceFolders"@, 1);
    lemma_get_at(m, "ideName"@, 2);
    lemma_get_at(m, "authToken"@, 5);
    lemma_same_member(t, x, "pid"@);
    lemma_same_member(t, x, "workspaceFolders"@);
    lemma_same_member(t, x, "ideName"@);
    lemma_same_member(t, x, "authToken"@);
    let f = x.get("workspaceFolders"@)->0->Arr_0;
    assert(same_value(folders[0], f[0]));
    assert(f =~= folders);
}

/// The process that a lock file belongs to; none where the text is malformed.
pub open spec fn owner_of(text: Seq<char>) -> Option<u64> {
    match read(text) {
        Some(t) => t.u64_at("pid"@),
        None => None,
    }
}

/// The process that a lock file belongs to; none where the text is malformed.
pub fn lock_owner(text: &str) -> (r: Option<u64>)
    ensures
        r == owner_of(text@),
{
    match parse(text) {
        Some(j) => j.u64_at("pid"),
        None => None,
    }
}

/// Whether a lock file is to be removed: it names no process, or a dead one.
pub fn is_stale(owner: Option<u64>, alive: bool) -> (r: bool)
    ensures
        r == (owner is None || !alive),
{
    match owner {
        Some(_) => !alive,
        None => true,
    }
}

/// The token that two numbers make.
pub fn token_text(a: u64, b: u64) -> (r: String)
    ensures
        r@ == hex(a as nat, 16) + "-"@ + hex(b as nat, 16),
{
    let mut out = write_hex(a, 16);
    out.append("-");
    let second = write_hex(b, 16);
    out.append(second.as_str());
    out
}

} // verus!
