//! How the bridge is made known to the agents: an entry in the settings of each.
use vstd::prelude::*;

use crate::json::law_set_member_sets_only_it;
use crate::json::lemma_same_value_reflexive;
use crate::json::lemma_set_member_is_plain;
use crate::json::member_from;
use crate::json::members;
use crate::json::parse;
use crate::json::plain;
use crate::json::printed_pretty;
use crate::json::read;
use crate::json::same_value;
use crate::json::set_member;
use crate::json::trees;
use crate::json::with_member;
use crate::json::Json;
use crate::json::MAX_DEPTH;
use crate::json::ObjectBuilder;
use crate::json::Tree;
use crate::text::chars_of;
use crate::text::ends;
use crate::text::ends_with;
use crate::text::find_place;
use crate::text::lemma_place_of;
use crate::text::place_of;
use crate::text::lemma_replaced_lacks;
use crate::text::occurs_at;
use crate::text::replace;
use crate::text::replaced;
use crate::text::same;
use crate::text::text_of;

verus! {

/// The entry of the bridge: a program that speaks over its standard streams.
pub open spec fn entry_tree(exe: Seq<char>) -> Tree {
    Tree::Obj(
        seq![
            ("type"@, Tree::Str("stdio"@)),
            ("command"@, Tree::Str(exe)),
            ("args"@, Tree::Arr(seq![Tree::Str("--mcp"@)])),
        ],
    )
}

fn entry(exe: &str) -> (r: Json)
    ensures
        r@ == entry_tree(exe@),
{
    let mut args: Vec<Json> = Vec::new();
    args.push(Json::text("--mcp"));
    assert(trees(args@) =~= seq![Tree::Str("--mcp"@)]);
    let mut b = ObjectBuilder::new();
    b.put_str("type", "stdio");
    b.put_str("command", exe);
    b.put("args", Json::list(args));
    assert(b@ =~= entry_tree(exe@)->Obj_0);
    b.build()
}

/// The members of an object below a name; none where there is none, and nothing where what
/// is there is no object.
pub open spec fn object_at(m: Seq<(Seq<char>, Tree)>, key: Seq<char>) -> Option<
    Seq<(Seq<char>, Tree)>,
> {
    match Tree::Obj(m).get(key) {
        Some(Tree::Obj(n)) => Some(n),
        Some(_) => None,
        None => Some(Seq::empty()),
    }
}

/// The settings with the entry of the bridge under `projects`, the workspace and
/// `mcpServers`. Nothing where the entry is there already or something on the way is no
/// object.
pub open spec fn registered(root: Tree, workspace: Seq<char>, exe: Seq<char>) -> Option<Tree> {
    match root {
        Tree::Obj(m) => match object_at(m, "projects"@) {
            Some(projects) => match object_at(projects, workspace) {
                Some(project) => match object_at(project, "mcpServers"@) {
                    Some(servers) => {
                        let there = Tree::Obj(servers).get("aether"@);
                        if there is Some && same_value(there->0, entry_tree(exe)) {
                            None
                        } else {
                            let s = with_member(servers, "aether"@, entry_tree(exe));
                            let p = with_member(project, "mcpServers"@, Tree::Obj(s));
                            let ps = with_member(projects, workspace, Tree::Obj(p));
                            Some(Tree::Obj(with_member(m, "projects"@, Tree::Obj(ps))))
                        }
                    },
                    None => None,
                },
                None => None,
            },
            None => None,
        },
        _ => None,
    }
}

fn copy_members(m: &Vec<(String, Json)>) -> (r: Vec<(String, Json)>)
    ensures
        members(r@) == members(m@),
{
    let ghost want = members(m@);
    let mut out: Vec<(String, Json)> = Vec::new();
    assert(members(out@) =~= want.take(0));
    let mut k: usize = 0;
    while k < m.len()
        invariant
            k <= m@.len(),
            want == members(m@),
            members(out@) == want.take(k as int),
        decreases m.len() - k,
    {
        let ghost so_far = members(out@);
        let one = m[k].1.copy();
        out.push((m[k].0.clone(), one));
        assert(members(out@) =~= so_far.push(want[k as int]));
        assert(want.take(k + 1) =~= want.take(k as int).push(want[k as int]));
        k = k + 1;
    }
    assert(want.take(k as int) =~= want);
    out
}

fn find_object(m: &Vec<(String, Json)>, key: &str) -> (r: Option<Vec<(String, Json)>>)
    ensures
        match r {
            Some(v) => object_at(members(m@), key@) == Some(members(v@)),
            None => object_at(members(m@), key@) is None,
        },
{
    let ghost mv = members(m@);
    let n: usize = m.len();
    let mut k: usize = 0;
    while k < n
        invariant
            n == m@.len(),
            k <= n,
            mv == members(m@),
            member_from(mv, key@, k as int) == member_from(mv, key@, 0),
        decreases n - k,
    {
        if same(m[k].0.as_str(), key) {
            assert(mv[k as int] == (m@[k as int].0@, m@[k as int].1@));
            return match &m[k].1 {
                Json::Obj(v) => {
                    proof {
                        assert(m@[k as int].1@->Obj_0 =~= members(v@));
                    }
                    Some(copy_members(v))
                },
                _ => None,
            };
        }
        k = k + 1;
    }
    let none: Vec<(String, Json)> = Vec::new();
    assert(members(none@) =~= Seq::<(Seq<char>, Tree)>::empty());
    Some(none)
}

/// The settings with the entry of the bridge; nothing where they are to stay as they are.
pub fn register(root: &Json, workspace: &str, exe: &str) -> (r: Option<Json>)
    ensures
        match r {
            Some(j) => registered(root@, workspace@, exe@) == Some(j@),
            None => registered(root@, workspace@, exe@) is None,
        },
{
    let m = match root {
        Json::Obj(v) => {
            proof {
                assert(root@->Obj_0 =~= members(v@));
            }
            v
        },
        _ => {
            return None;
        },
    };
    let projects = match find_object(m, "projects") {
        Some(v) => v,
        None => {
            return None;
        },
    };
    let project = match find_object(&projects, workspace) {
        Some(v) => v,
        None => {
            return None;
        },
    };
    let servers = match find_object(&project, "mcpServers") {
        Some(v) => v,
        None => {
            return None;
        },
    };
    let new = entry(exe);
    let table = Json::object(servers);
    if let Some(there) = table.get("aether") {
        if there.same(&new) {
            return None;
        }
    }
    let mut servers = match table {
        Json::Obj(v) => {
            proof {
                assert(table@->Obj_0 =~= members(v@));
            }
            v
        },
        _ => {
            return None;
        },
    };
    set_member(&mut servers, "aether", new);
    let mut project = project;
    set_member(&mut project, "mcpServers", Json::object(servers));
    let mut projects = projects;
    set_member(&mut projects, workspace, Json::object(project));
    let mut root = copy_members(m);
    set_member(&mut root, "projects", Json::object(projects));
    Some(Json::object(root))
}

/// What is written to the settings, whose text is `None` where there are none, and read back.
/// Nothing is written over a text that is not JSON.
pub fn register_claude(text: Option<&str>, workspace: &str, exe: &str) -> (r: Option<String>)
    ensures
        match r {
            Some(s) => {
                let root = settings_of(crate::json::opt_text(text));
                &&& root is Some
                &&& registered(root->0, workspace@, exe@) is Some
                &&& s@ == printed_pretty(registered(root->0, workspace@, exe@)->0)
                &&& crate::json::reads_as(s@, registered(root->0, workspace@, exe@)->0)
            },
            None => {
                let root = settings_of(crate::json::opt_text(text));
                root is None || registered(root->0, workspace@, exe@) is None
            },
        },
{
    let root = match text {
        Some(t) => match parse(t) {
            Some(j) => j,
            None => {
                return None;
            },
        },
        None => ObjectBuilder::new().build(),
    };
    match register(&root, workspace, exe) {
        Some(j) => {
            proof {
                lemma_registered_is_plain(root@, workspace@, exe@);
            }
            Some(j.to_pretty())
        },
        None => None,
    }
}

proof fn lemma_object_is_plain(m: Seq<(Seq<char>, Tree)>, key: Seq<char>, depth: int)
    requires
        plain(Tree::Obj(m), depth),
        object_at(m, key) is Some,
        depth > 1,
    ensures
        plain(Tree::Obj(object_at(m, key)->0), depth - 1),
{
    crate::json::lemma_plain_members(m, depth);
    crate::json::lemma_member_place(m, key);
    let k = member_from(m, key, 0);
    if k < m.len() {
        assert(plain(m[k].1, depth - 1));
    } else {
        let none = Tree::Obj(Seq::empty());
        assert(plain(none, depth - 1));
    }
}

proof fn lemma_registered_is_plain(root: Tree, workspace: Seq<char>, exe: Seq<char>)
    requires
        plain(root, MAX_DEPTH as int),
        registered(root, workspace, exe) is Some,
    ensures
        plain(registered(root, workspace, exe)->0, MAX_DEPTH as int),
{
    let d = MAX_DEPTH as int;
    let m = root->Obj_0;
    let projects = object_at(m, "projects"@)->0;
    let project = object_at(projects, workspace)->0;
    let servers = object_at(project, "mcpServers"@)->0;
    lemma_object_is_plain(m, "projects"@, d);
    lemma_object_is_plain(projects, workspace, d - 1);
    lemma_object_is_plain(project, "mcpServers"@, d - 2);
    lemma_entry_is_plain(exe, d - 4);
    let s = with_member(servers, "aether"@, entry_tree(exe));
    let p = with_member(project, "mcpServers"@, Tree::Obj(s));
    let ps = with_member(projects, workspace, Tree::Obj(p));
    lemma_set_member_is_plain(servers, "aether"@, entry_tree(exe), d - 3);
    lemma_set_member_is_plain(project, "mcpServers"@, Tree::Obj(s), d - 2);
    lemma_set_member_is_plain(projects, workspace, Tree::Obj(p), d - 1);
    lemma_set_member_is_plain(m, "projects"@, Tree::Obj(ps), d);
}

proof fn lemma_entry_is_plain(exe: Seq<char>, depth: int)
    requires
        depth >= 2,
    ensures
        plain(entry_tree(exe), depth),
{
    reveal_strlit("type");
    reveal_strlit("command");
    reveal_strlit("args");
    let e = entry_tree(exe)->Obj_0;
    assert("type"@[0] == 't' && "command"@[0] == 'c' && "args"@[0] == 'a');
    assert forall|i: int| 0 <= i < e.len() implies plain((#[trigger] e[i]).1, depth - 1) by {
        if i == 2 {
            let v = e[2].1->Arr_0;
            assert forall|j: int| 0 <= j < v.len() implies plain(#[trigger] v[j], depth - 2) by {}
        }
    }
}

/// The settings that a text holds: none yet where there is no text, and none that can be read
/// where it is not JSON.
pub open spec fn settings_of(text: Option<Seq<char>>) -> Option<Tree> {
    match text {
        Some(t) => read(t),
        None => Some(Tree::Obj(Seq::empty())),
    }
}

/// Registering twice changes nothing the second time.
pub proof fn law_register_is_idempotent(root: Tree, workspace: Seq<char>, exe: Seq<char>)
    requires
        registered(root, workspace, exe) is Some,
    ensures
        registered(registered(root, workspace, exe)->0, workspace, exe) is None,
{
    let m = root->Obj_0;
    let projects = object_at(m, "projects"@)->0;
    let project = object_at(projects, workspace)->0;
    let servers = object_at(project, "mcpServers"@)->0;
    let s = with_member(servers, "aether"@, entry_tree(exe));
    let p = with_member(project, "mcpServers"@, Tree::Obj(s));
    let ps = with_member(projects, workspace, Tree::Obj(p));
    law_set_member_sets_only_it(m, "projects"@, Tree::Obj(ps), ""@);
    law_set_member_sets_only_it(projects, workspace, Tree::Obj(p), ""@);
    law_set_member_sets_only_it(project, "mcpServers"@, Tree::Obj(s), ""@);
    law_set_member_sets_only_it(servers, "aether"@, entry_tree(exe), ""@);
    reveal_strlit("type");
    reveal_strlit("command");
    reveal_strlit("args");
    let e = entry_tree(exe)->Obj_0;
    assert("type"@[0] == 't' && "command"@[0] == 'c' && "args"@[0] == 'a');
    assert forall|i: int| 0 <= i < e.len() implies crate::json::names_distinct((#[trigger] e[i]).1) by {
        if i == 2 {
            let v = e[2].1->Arr_0;
            assert forall|j: int| 0 <= j < v.len() implies crate::json::names_distinct(
                #[trigger] v[j],
            ) by {}
        }
    }
    assert(crate::json::names_distinct(entry_tree(exe)));
    lemma_same_value_reflexive(entry_tree(exe));
}

/// Registering sets the entry of the bridge and leaves every other setting as it was: those
/// beside `projects`, other projects, other settings of the project, and other servers.
pub proof fn law_register_keeps_the_rest(
    root: Tree,
    workspace: Seq<char>,
    exe: Seq<char>,
    other: Seq<char>,
)
    requires
        registered(root, workspace, exe) is Some,
    ensures
        ({
            let new = registered(root, workspace, exe)->0;
            let projects = object_at(root->Obj_0, "projects"@)->0;
            let project = object_at(projects, workspace)->0;
            let servers = object_at(project, "mcpServers"@)->0;
            let new_projects = object_at(new->Obj_0, "projects"@)->0;
            let new_project = object_at(new_projects, workspace)->0;
            let new_servers = object_at(new_project, "mcpServers"@)->0;
            &&& other != "projects"@ ==> new.get(other) == root.get(other)
            &&& other != workspace ==> Tree::Obj(new_projects).get(other) == Tree::Obj(projects).get(
                other,
            )
            &&& other != "mcpServers"@ ==> Tree::Obj(new_project).get(other) == Tree::Obj(
                project,
            ).get(other)
            &&& other != "aether"@ ==> Tree::Obj(new_servers).get(other) == Tree::Obj(servers).get(
                other,
            )
            &&& Tree::Obj(new_servers).get("aether"@) == Some(entry_tree(exe))
        }),
{
    let m = root->Obj_0;
    let projects = object_at(m, "projects"@)->0;
    let project = object_at(projects, workspace)->0;
    let servers = object_at(project, "mcpServers"@)->0;
    let s = with_member(servers, "aether"@, entry_tree(exe));
    let p = with_member(project, "mcpServers"@, Tree::Obj(s));
    let ps = with_member(projects, workspace, Tree::Obj(p));
    law_set_member_sets_only_it(m, "projects"@, Tree::Obj(ps), other);
    law_set_member_sets_only_it(projects, workspace, Tree::Obj(p), other);
    law_set_member_sets_only_it(project, "mcpServers"@, Tree::Obj(s), other);
    law_set_member_sets_only_it(servers, "aether"@, entry_tree(exe), other);
}

proof fn lemma_place_is(s: Seq<char>, p: Seq<char>, k: int, at: int)
    requires
        0 <= k <= at <= s.len(),
        at < s.len() ==> occurs_at(s, p, at),
        forall|j: int| k <= j < at ==> !occurs_at(s, p, j),
    ensures
        place_of(s, p, k) == at,
    decreases at - k,
{
    if k < at {
        lemma_place_is(s, p, k + 1, at);
    }
}

/// The head of the bridge's section.
pub open spec fn section_head() -> Seq<char> {
    "[mcp_servers.aether]"@
}

/// The path of a program inside quotes.
pub open spec fn quoted(exe: Seq<char>) -> Seq<char> {
    replaced(replaced(exe, "\\"@, "\\\\"@), "\""@, "\\\""@)
}

/// The section of the bridge.
pub open spec fn section(exe: Seq<char>) -> Seq<char> {
    section_head() + "\ncommand = \""@ + quoted(exe) + "\"\nargs = [\"--mcp\"]\n"@
}

/// What parts the section from the settings before it.
pub open spec fn gap(text: Seq<char>) -> Seq<char> {
    if text.len() == 0 || ends(text, "\n\n"@) {
        ""@
    } else if ends(text, "\n"@) {
        "\n"@
    } else {
        "\n\n"@
    }
}

/// The settings with the section of the bridge: in place of one that is there, up to the
/// head of the next, or at the end.
pub open spec fn with_section(text: Seq<char>, exe: Seq<char>) -> Seq<char> {
    let start = place_of(text, section_head(), 0);
    if start < text.len() {
        let line = place_of(text, "\n["@, start + 1);
        let end = if line < text.len() {
            line + 1
        } else {
            text.len() as int
        };
        text.subrange(0, start) + section(exe) + text.subrange(end, text.len() as int)
    } else {
        text + gap(text) + section(exe)
    }
}

fn write_section(exe: &str) -> (r: String)
    ensures
        r@ == section(exe@),
{
    proof {
        reveal_strlit("\\");
        reveal_strlit("\"");
    }
    let once = replace(exe, "\\", "\\\\");
    let twice = replace(once.as_str(), "\"", "\\\"");
    let mut s = "[mcp_servers.aether]".to_owned();
    s.append("\ncommand = \"");
    s.append(twice.as_str());
    s.append("\"\nargs = [\"--mcp\"]\n");
    s
}

/// What is written to the settings; nothing where they already say so.
pub fn register_codex(text: &str, exe: &str) -> (r: Option<String>)
    ensures
        match r {
            Some(s) => s@ == with_section(text@, exe@) && s@ != text@,
            None => with_section(text@, exe@) == text@,
        },
{
    let v = chars_of(text);
    let n: usize = v.len();
    let part = write_section(exe);
    let start: usize = find_place(&v, "[mcp_servers.aether]", 0);
    let new: String = if start < n {
        let line: usize = find_place(&v, "\n[", start + 1);
        let end: usize = if line < n {
            line + 1
        } else {
            n
        };
        let mut s = text_of(&v, 0, start);
        s.append(part.as_str());
        s.append(text_of(&v, end, n).as_str());
        s
    } else {
        let mut s = text.to_owned();
        if n == 0 || ends_with(text, "\n\n") {
            s.append("");
        } else if ends_with(text, "\n") {
            s.append("\n");
        } else {
            s.append("\n\n");
        }
        s.append(part.as_str());
        s
    };
    assert(new@ == with_section(text@, exe@));
    if same(new.as_str(), text) {
        None
    } else {
        Some(new)
    }
}

proof fn lemma_section(exe: Seq<char>)
    requires
        forall|j: int| 0 <= j < exe.len() ==> exe[j] != '\n',
    ensures
        section(exe).len() > 20,
        section_head().len() == 20,
        section(exe).subrange(0, 20) == section_head(),
        section_head()[0] == '[',
        forall|j: int|
            0 < j < 20 ==> #[trigger] section_head()[j] != '[' && section_head()[j] != '\n',
        section(exe).last() == '\n',
        forall|j: int|
            0 <= j < section(exe).len() - 1 && #[trigger] section(exe)[j] == '\n' ==> section(
                exe,
            )[j + 1] != '[',
{
    reveal_strlit("[mcp_servers.aether]");
    reveal_strlit("\ncommand = \"");
    reveal_strlit("\"\nargs = [\"--mcp\"]\n");
    reveal_strlit("\\");
    reveal_strlit("\\\\");
    reveal_strlit("\"");
    reveal_strlit("\\\"");
    lemma_replaced_lacks(exe, "\\"@, "\\\\"@, 0, '\n');
    lemma_replaced_lacks(replaced(exe, "\\"@, "\\\\"@), "\""@, "\\\""@, 0, '\n');
    let h = section_head();
    let a = "\ncommand = \""@;
    let q = quoted(exe);
    let b = "\"\nargs = [\"--mcp\"]\n"@;
    let s = section(exe);
    assert(h.len() == 20 && a.len() == 12 && b.len() == 19);
    assert(s.subrange(0, 20) =~= h);
    assert forall|j: int| 0 <= j < s.len() - 1 && #[trigger] s[j] == '\n' implies s[j + 1] != '[' by {
        if j < 20 {
            assert(s[j] == h[j]);
        } else if j < 32 {
            assert(s[j] == a[j - 20]);
            assert(j == 20);
            assert(s[21] == a[1]);
        } else if j < 32 + q.len() {
            assert(s[j] == q[j - 32]);
        } else {
            let k = j - 32 - q.len();
            assert(s[j] == b[k]);
            assert(k == 1);
            assert(s[j + 1] == b[2]);
        }
    }
}

/// Settings that hold the section hold it unchanged after registering again, for a program
/// whose path has no line break.
pub proof fn law_section_is_idempotent(text: Seq<char>, exe: Seq<char>)
    requires
        forall|j: int| 0 <= j < exe.len() ==> exe[j] != '\n',
    ensures
        with_section(with_section(text, exe), exe) == with_section(text, exe),
{
    lemma_section(exe);
    reveal_strlit("\n[");
    reveal_strlit("");
    reveal_strlit("\n");
    reveal_strlit("\n\n");
    let h = section_head();
    let sec = section(exe);
    let new = with_section(text, exe);
    let start = place_of(text, h, 0);
    lemma_place_of(text, h, 0);
    let (pre, post) = if start < text.len() {
        let line = place_of(text, "\n["@, start + 1);
        lemma_place_of(text, "\n["@, start + 1);
        let end = if line < text.len() {
            line + 1
        } else {
            text.len() as int
        };
        if line < text.len() {
            assert(text.subrange(line, line + 2)[1] == '[');
        }
        (text.subrange(0, start), text.subrange(end, text.len() as int))
    } else {
        (text + gap(text), Seq::empty())
    };
    assert(new =~= pre + sec + post);
    assert(post.len() > 0 ==> post[0] == '[');
    let at = pre.len() as int;
    assert(new.subrange(at, at + 20) =~= h) by {
        assert forall|j: int| 0 <= j < 20 implies new[at + j] == h[j] by {
            assert(sec.subrange(0, 20)[j] == sec[j]);
        }
    }
    assert(occurs_at(new, h, at));
    assert forall|k: int| 0 <= k < at implies !occurs_at(new, h, k) by {
        if occurs_at(new, h, k) {
            if k + 20 > at {
                assert(new.subrange(k, k + 20)[at - k] == new[at]);
                assert(new[at] == sec[0] && sec.subrange(0, 20)[0] == '[');
                assert(false);
            } else if k + 20 <= text.len() && (start >= text.len() || k + 20 <= start) {
                assert(new.subrange(k, k + 20) =~= text.subrange(k, k + 20));
                assert(occurs_at(text, h, k));
                assert(false);
            } else {
                let g = gap(text);
                let j = at - 1;
                assert(pre[j] == '\n');
                if k + 20 == at {
                    assert(new.subrange(k, k + 20)[19] == new[j]);
                    assert(false);
                } else {
                    assert(g.len() == 2 && k + 20 == at - 1);
                    assert(new.subrange(k, k + 20)[19] == new[j - 1]);
                    assert(pre[j - 1] == '\n');
                    assert(false);
                }
            }
        }
    }
    lemma_place_is(new, h, 0, at);
    let cut = at + sec.len() - 1;
    let want = if post.len() > 0 {
        cut
    } else {
        new.len() as int
    };
    if post.len() > 0 {
        assert(new.subrange(cut, cut + 2) =~= "\n["@);
    }
    assert forall|k: int| at + 1 <= k < want implies !occurs_at(new, "\n["@, k) by {
        if occurs_at(new, "\n["@, k) {
            assert(new.subrange(k, k + 2)[0] == new[k]);
            assert(new.subrange(k, k + 2)[1] == new[k + 1]);
            assert(new[k] == sec[k - at]);
            assert(new[k + 1] == sec[k - at + 1]);
            assert(false);
        }
    }
    lemma_place_is(new, "\n["@, at + 1, want);
    assert(new.subrange(0, at) =~= pre);
    if post.len() > 0 {
        assert(new.subrange(want + 1, new.len() as int) =~= post);
    } else {
        assert(new.subrange(new.len() as int, new.len() as int) =~= post);
    }
}

/// Whether the section of the bridge stands in a text from `start` up to `end`: from the first
/// place of its header to the next line that begins a section, or to the end of the text.
pub open spec fn is_section(text: Seq<char>, start: int, end: int) -> bool {
    &&& 0 <= start < end <= text.len()
    &&& occurs_at(text, section_head(), start)
    &&& forall|k: int| 0 <= k < start ==> !(#[trigger] occurs_at(text, section_head(), k))
    &&& end < text.len() ==> text[end - 1] == '\n' && text[end] == '['
    &&& forall|k: int|
        start < k < end - 1 ==> !(#[trigger] text[k] == '\n' && text[k + 1] == '[')
}

/// Registering touches nothing outside the section of the bridge: the section is replaced where
/// it stands, what stood before it and behind it is still there; and where there is none, the
/// whole text is still there, and the section stands behind it.
pub proof fn law_section_keeps_the_rest(text: Seq<char>, exe: Seq<char>)
    ensures
        (exists|start: int, end: int| #[trigger]
            is_section(text, start, end) && with_section(text, exe) == text.subrange(0, start)
                + section(exe) + text.subrange(end, text.len() as int)) || ((forall|k: int|
            0 <= k < text.len() ==> !(#[trigger] occurs_at(text, section_head(), k))) && with_section(
            text,
            exe,
        ) == text + gap(text) + section(exe)),
{
    let start = place_of(text, section_head(), 0);
    lemma_place_of(text, section_head(), 0);
    if start < text.len() {
        let line = place_of(text, "\n["@, start + 1);
        lemma_place_of(text, "\n["@, start + 1);
        let end = if line < text.len() {
            line + 1
        } else {
            text.len() as int
        };
        assert(with_section(text, exe) =~= text.subrange(0, start) + section(exe) + text.subrange(
            end,
            text.len() as int,
        ));
        reveal_strlit("\n[");
        assert forall|k: int| start < k < end - 1 implies !(#[trigger] text[k] == '\n' && text[k + 1]
            == '[') by {
            if text[k] == '\n' && text[k + 1] == '[' {
                assert(text.subrange(k, k + 2) =~= "\n["@);
                assert(occurs_at(text, "\n["@, k));
            }
        }
        if end < text.len() {
            assert(text.subrange(line, line + 2)[0] == '\n' && text.subrange(line, line + 2)[1] == '[');
        }
        assert(is_section(text, start, end));
    } else {
        assert(with_section(text, exe) =~= text + gap(text) + section(exe));
    }
}

/// The entry of the editor runs its own program with the mark of a tool server.
pub proof fn law_entry_runs_the_editor(exe: Seq<char>)
    ensures
        entry_tree(exe).get("type"@) == Some(Tree::Str("stdio"@)),
        entry_tree(exe).get("command"@) == Some(Tree::Str(exe)),
        entry_tree(exe).get("args"@) == Some(Tree::Arr(seq![Tree::Str("--mcp"@)])),
{
    reveal_strlit("type");
    reveal_strlit("command");
    reveal_strlit("args");
    assert("type"@.len() == 4);
    assert("command"@.len() == 7);
    assert("args"@.len() == 4);
    assert("type"@[0] == 't' && "args"@[0] == 'a');
    let m = entry_tree(exe)->Obj_0;
    assert(m[0].0 == "type"@);
    assert(m[1].0 == "command"@);
    assert(m[2].0 == "args"@);
    crate::json::lemma_get_at(m, "type"@, 0);
    crate::json::lemma_get_at(m, "command"@, 1);
    crate::json::lemma_get_at(m, "args"@, 2);
}

/// The section of the editor is found by its head and runs the program that it names.
pub proof fn law_section_names_the_program(exe: Seq<char>)
    requires
        !exe.contains('\\'),
        !exe.contains('"'),
    ensures
        crate::text::begins(section(exe), "[mcp_servers.aether]"@),
        crate::text::holds(section(exe), "command = \""@ + exe + "\""@),
        ends(section(exe), "args = [\"--mcp\"]\n"@),
{
    reveal_strlit("\\");
    reveal_strlit("\"");
    reveal_strlit("[mcp_servers.aether]");
    reveal_strlit("\ncommand = \"");
    reveal_strlit("command = \"");
    reveal_strlit("\"\nargs = [\"--mcp\"]\n");
    reveal_strlit("args = [\"--mcp\"]\n");
    assert("\\"@ =~= seq!['\\']);
    assert("\""@ =~= seq!['"']);
    lemma_lacks(exe, '\\', "\\\\"@, 0);
    assert(exe.skip(0) =~= exe);
    lemma_lacks(exe, '"', "\\\""@, 0);
    assert(quoted(exe) == exe);
    let s = section(exe);
    let head = "[mcp_servers.aether]"@;
    assert(s.subrange(0, head.len() as int) =~= head);
    let part = "command = \""@ + exe + "\""@;
    let at = head.len() as int + 1;
    assert(s.subrange(at, at + part.len()) =~= part);
    assert(crate::text::occurs_at(s, part, at));
    let tail = "args = [\"--mcp\"]\n"@;
    assert(s.subrange(s.len() - tail.len(), s.len() as int) =~= tail);
}

proof fn lemma_lacks(s: Seq<char>, c: char, w: Seq<char>, i: int)
    requires
        0 <= i <= s.len(),
        !s.contains(c),
    ensures
        crate::text::replaced_from(s, seq![c], w, i) == s.skip(i),
    decreases s.len() - i,
{
    if i < s.len() {
        if occurs_at(s, seq![c], i) {
            assert(s.subrange(i, i + 1)[0] == s[i]);
        }
        lemma_lacks(s, c, w, i + 1);
        assert(seq![s[i]] + s.skip(i + 1) =~= s.skip(i));
    } else {
        assert(s.skip(i) =~= Seq::<char>::empty());
    }
}

} // verus!
