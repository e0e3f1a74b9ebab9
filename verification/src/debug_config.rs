//! Debug launch configurations.
//!
//! A configuration names a debug type, which stands for an adapter program, a request,
//! and arguments that are handed to the adapter as they are. They are read from
//! `launch.json` files; without one they are made up from the active file.
use vstd::prelude::*;

use crate::json::members;
use crate::json::opt_text;
use crate::json::parse;
use crate::json::read;
use crate::json::text_or;
use crate::json::trees;
use crate::json::Json;
use crate::json::ObjectBuilder;
use crate::json::Tree;
use crate::paths::extension;
use crate::paths::extension_of;
use crate::text::chars_of;
use crate::text::find_char;
use crate::text::find_place;
use crate::text::lowercase;
use crate::text::place_of;
use crate::text::prefix_at;
use crate::text::occurs_at;
use crate::text::same;
use crate::text::to_lower;
use crate::text::views;

verus! {

/// Whether the adapter starts a program or joins a running one.
#[derive(Clone, Copy, PartialEq, Eq, Debug, Structural)]
pub enum Request {
    Launch,
    Attach,
}

/// How to reach the adapter process.
pub struct AdapterSpec {
    pub program: String,
    pub args: Vec<String>,
    /// What is shown where the adapter cannot be started.
    pub install_hint: &'static str,
}

/// One way to start debugging.
pub struct LaunchConfig {
    pub name: String,
    pub request: Request,
    pub adapter: AdapterSpec,
    /// Handed to the adapter: everything of the configuration but its name, type and
    /// request, with the working directory filled in.
    pub args: Json,
}

/// The programs that were found on this machine.
pub struct Programs {
    pub python: String,
    pub netcoredbg: String,
}

/// An adapter by its text.
#[verifier::ext_equal]
pub struct AdapterView {
    pub program: Seq<char>,
    pub args: Seq<Seq<char>>,
    pub install_hint: Seq<char>,
}

/// A configuration by its text.
#[verifier::ext_equal]
pub struct ConfigView {
    pub name: Seq<char>,
    pub request: Request,
    pub adapter: AdapterView,
    pub args: Tree,
}

impl View for AdapterSpec {
    type V = AdapterView;

    open spec fn view(&self) -> AdapterView {
        AdapterView {
            program: self.program@,
            args: views(self.args@),
            install_hint: self.install_hint@,
        }
    }
}

impl View for LaunchConfig {
    type V = ConfigView;

    open spec fn view(&self) -> ConfigView {
        ConfigView {
            name: self.name@,
            request: self.request,
            adapter: self.adapter@,
            args: self.args@,
        }
    }
}

/// Configurations by their text.
pub open spec fn config_views(v: Seq<LaunchConfig>) -> Seq<ConfigView> {
    Seq::new(v.len(), |i: int| v[i]@)
}

/// The interpreters to try, in order: that of the active virtual environment, then those
/// on the path.
pub fn python_candidates(venv: Option<&str>) -> (r: Vec<String>)
    ensures
        views(r@) == match venv {
            Some(v) => seq![v@ + "/bin/python"@, "python3"@, "python"@],
            None => seq!["python3"@, "python"@],
        },
{
    let mut out: Vec<String> = Vec::new();
    if let Some(v) = venv {
        let mut p = v.to_owned();
        p.append("/bin/python");
        out.push(p);
    }
    out.push("python3".to_owned());
    out.push("python".to_owned());
    assert(views(out@) =~= match venv {
        Some(v) => seq![v@ + "/bin/python"@, "python3"@, "python"@],
        None => seq!["python3"@, "python"@],
    });
    out
}

/// Position of the first interpreter, from `k` on, that has the debugger.
pub open spec fn first_ready(ready: Seq<bool>, k: int) -> int
    decreases ready.len() - k,
{
    if k >= ready.len() {
        ready.len() as int
    } else if ready[k] {
        k
    } else {
        first_ready(ready, k + 1)
    }
}

/// Picks the first interpreter that has the debugger installed; `python3` where none has.
pub fn resolve_python(candidates: &Vec<String>, ready: &Vec<bool>) -> (r: String)
    requires
        candidates@.len() == ready@.len(),
    ensures
        ({
            let k = first_ready(ready@, 0);
            r@ == if k < ready@.len() {
                candidates@[k]@
            } else {
                "python3"@
            }
        }),
{
    let mut k: usize = 0;
    while k < ready.len()
        invariant
            k <= ready@.len(),
            candidates@.len() == ready@.len(),
            first_ready(ready@, k as int) == first_ready(ready@, 0),
        decreases ready.len() - k,
    {
        if ready[k] {
            return candidates[k].clone();
        }
        k = k + 1;
    }
    "python3".to_owned()
}

/// Picks the managed copy of an adapter where there is one, else its bare name.
pub fn resolve_managed(name: &str, managed: Option<&str>) -> (r: String)
    ensures
        r@ == match managed {
            Some(p) => p@,
            None => name@,
        },
{
    match managed {
        Some(p) => p.to_owned(),
        None => name.to_owned(),
    }
}

/// What to do where the Python debugger is missing.
pub open spec fn python_hint() -> Seq<char> {
    "The Python debugger isn't installed for this interpreter.\n\nInstall it:  python3 -m pip install debugpy\n(or activate a venv that has debugpy before launching Aether)"@
}

/// What to do where the .NET debugger is missing.
pub open spec fn dotnet_hint() -> Seq<char> {
    "The .NET debugger (netcoredbg) isn't installed.\n\nGet it from https://github.com/Samsung/netcoredbg/releases and unpack it to ~/.aether/netcoredbg/, or put it on PATH."@
}

/// The adapter for a debug type written in lower case.
pub open spec fn adapter_of(t: Seq<char>, python: Seq<char>, netcoredbg: Seq<char>) -> Option<
    AdapterView,
> {
    if t == "python"@ || t == "debugpy"@ {
        Some(
            AdapterView {
                program: python,
                args: seq!["-m"@, "debugpy.adapter"@],
                install_hint: python_hint(),
            },
        )
    } else if t == "coreclr"@ || t == "netcoredbg"@ || t == "dotnet"@ {
        Some(
            AdapterView {
                program: netcoredbg,
                args: seq!["--interpreter=vscode"@],
                install_hint: dotnet_hint(),
            },
        )
    } else if t == "lldb"@ || t == "codelldb"@ {
        Some(
            AdapterView {
                program: "lldb-dap"@,
                args: Seq::empty(),
                install_hint: "Install lldb-dap (ships with recent LLVM) and put it on PATH."@,
            },
        )
    } else if t == "node"@ || t == "pwa-node"@ {
        Some(
            AdapterView {
                program: "js-debug-adapter"@,
                args: Seq::empty(),
                install_hint: "Install vscode-js-debug's js-debug-adapter and put it on PATH."@,
            },
        )
    } else {
        None
    }
}

/// The adapter for a debug type, in any case.
pub fn adapter_for(debug_type: &str, programs: &Programs) -> (r: Option<AdapterSpec>)
    ensures
        match r {
            Some(a) => adapter_of(
                lowercase(debug_type@),
                programs.python@,
                programs.netcoredbg@,
            ) == Some(a@),
            None => adapter_of(
                lowercase(debug_type@),
                programs.python@,
                programs.netcoredbg@,
            ) is None,
        },
{
    let low = to_lower(debug_type);
    let t = low.as_str();
    if same(t, "python") || same(t, "debugpy") {
        Some(python_spec(programs))
    } else if same(t, "coreclr") || same(t, "netcoredbg") || same(t, "dotnet") {
        let args = vec!["--interpreter=vscode".to_owned()];
        assert(views(args@) =~= seq!["--interpreter=vscode"@]);
        Some(
            AdapterSpec {
                program: programs.netcoredbg.clone(),
                args,
                install_hint: "The .NET debugger (netcoredbg) isn't installed.\n\nGet it from https://github.com/Samsung/netcoredbg/releases and unpack it to ~/.aether/netcoredbg/, or put it on PATH.",
            },
        )
    } else if same(t, "lldb") || same(t, "codelldb") {
        let args: Vec<String> = Vec::new();
        assert(views(args@) =~= Seq::<Seq<char>>::empty());
        Some(
            AdapterSpec {
                program: "lldb-dap".to_owned(),
                args,
                install_hint: "Install lldb-dap (ships with recent LLVM) and put it on PATH.",
            },
        )
    } else if same(t, "node") || same(t, "pwa-node") {
        let args: Vec<String> = Vec::new();
        assert(views(args@) =~= Seq::<Seq<char>>::empty());
        Some(
            AdapterSpec {
                program: "js-debug-adapter".to_owned(),
                args,
                install_hint: "Install vscode-js-debug's js-debug-adapter and put it on PATH.",
            },
        )
    } else {
        None
    }
}

fn python_spec(programs: &Programs) -> (r: AdapterSpec)
    ensures
        Some(r@) == adapter_of("python"@, programs.python@, programs.netcoredbg@),
        r@.program == programs.python@,
        r@.args == seq!["-m"@, "debugpy.adapter"@],
        r@.install_hint == python_hint(),
{
    let args = vec!["-m".to_owned(), "debugpy.adapter".to_owned()];
    assert(views(args@) =~= seq!["-m"@, "debugpy.adapter"@]);
    AdapterSpec {
        program: programs.python.clone(),
        args,
        install_hint: "The Python debugger isn't installed for this interpreter.\n\nInstall it:  python3 -m pip install debugpy\n(or activate a venv that has debugpy before launching Aether)",
    }
}

/// The Python adapter, for attaching where there is no configuration.
pub fn python_adapter(programs: &Programs) -> (r: AdapterSpec)
    ensures
        Some(r@) == adapter_of("python"@, programs.python@, programs.netcoredbg@),
{
    python_spec(programs)
}

/// The text `s[i..]` with the workspace filled in for `${workspaceFolder}`, and the active file for
/// `${file}` where one is active. What was filled in is not looked at again.
pub open spec fn filled_text(s: Seq<char>, ws: Seq<char>, file: Option<Seq<char>>, i: int) -> Seq<char>
    decreases s.len() - i,
{
    if i >= s.len() {
        Seq::empty()
    } else if i + 18 <= s.len() && occurs_at(s, "${workspaceFolder}"@, i) {
        ws + filled_text(s, ws, file, i + 18)
    } else if file is Some && i + 7 <= s.len() && occurs_at(s, "${file}"@, i) {
        file->0 + filled_text(s, ws, file, i + 7)
    } else {
        seq![s[i]] + filled_text(s, ws, file, i + 1)
    }
}

/// The text with what its variables stand for.
fn fill_text(s: &str, ws: &str, file: Option<&str>) -> (r: String)
    ensures
        r@ == filled_text(s@, ws@, opt_text(file), 0),
{
    proof {
        reveal_strlit("${workspaceFolder}");
        reveal_strlit("${file}");
    }
    let v = chars_of(s);
    let n: usize = v.len();
    let ghost f = opt_text(file);
    let mut out = String::new();
    let mut i: usize = 0;
    assert(out@ + filled_text(v@, ws@, f, 0) =~= filled_text(v@, ws@, f, 0));
    while i < n
        invariant
            n == v@.len(),
            i <= n,
            v@ == s@,
            f == opt_text(file),
            "${workspaceFolder}"@.len() == 18,
            "${file}"@.len() == 7,
            out@ + filled_text(v@, ws@, f, i as int) == filled_text(v@, ws@, f, 0),
        decreases n - i,
    {
        let ghost before = out@;
        if prefix_at(&v, i, "${workspaceFolder}") {
            out.append(ws);
            assert(out@ + filled_text(v@, ws@, f, i + 18) =~= before + (ws@ + filled_text(
                v@,
                ws@,
                f,
                i + 18,
            )));
            i = i + 18;
        } else {
            match file {
                Some(name) if prefix_at(&v, i, "${file}") => {
                    out.append(name);
                    assert(out@ + filled_text(v@, ws@, f, i + 7) =~= before + (name@ + filled_text(
                        v@,
                        ws@,
                        f,
                        i + 7,
                    )));
                    i = i + 7;
                },
                _ => {
                    out.push(v[i]);
                    assert(out@ + filled_text(v@, ws@, f, i + 1) =~= before + (seq![v@[i as int]]
                        + filled_text(v@, ws@, f, i + 1)));
                    i = i + 1;
                },
            }
        }
    }
    assert(out@ + Seq::<char>::empty() =~= out@);
    out
}

/// A text without a dollar sign stays as it is.
pub proof fn law_text_without_variables_stays(s: Seq<char>, ws: Seq<char>, file: Option<Seq<char>>, i: int)
    requires
        0 <= i <= s.len(),
        !s.contains('$'),
    ensures
        filled_text(s, ws, file, i) == s.skip(i),
    decreases s.len() - i,
{
    if i < s.len() {
        reveal_strlit("${workspaceFolder}");
        reveal_strlit("${file}");
        assert(s.contains(s[i]));
        assert("${workspaceFolder}"@[0] == '$' && "${file}"@[0] == '$');
        if occurs_at(s, "${workspaceFolder}"@, i) {
            assert(s.subrange(i, i + 18)[0] == '$');
        }
        if occurs_at(s, "${file}"@, i) {
            assert(s.subrange(i, i + 7)[0] == '$');
        }
        law_text_without_variables_stays(s, ws, file, i + 1);
        assert(s.skip(i) =~= seq![s[i]] + s.skip(i + 1));
    }
}

/// A value with the workspace and the active file filled in, in every text in it.
pub open spec fn filled(t: Tree, ws: Seq<char>, file: Option<Seq<char>>) -> Tree
    decreases t,
{
    match t {
        Tree::Str(s) => Tree::Str(filled_text(s, ws, file, 0)),
        Tree::Arr(v) => Tree::Arr(
            Seq::new(
                v.len(),
                |i: int|
                    if 0 <= i < v.len() {
                        filled(v[i], ws, file)
                    } else {
                        Tree::Null
                    },
            ),
        ),
        Tree::Obj(m) => Tree::Obj(
            Seq::new(
                m.len(),
                |i: int|
                    if 0 <= i < m.len() {
                        (m[i].0, filled(m[i].1, ws, file))
                    } else {
                        (Seq::empty(), Tree::Null)
                    },
            ),
        ),
        _ => t,
    }
}

/// Fills the workspace in for `${workspaceFolder}` and the active file for `${file}`, in every
/// text of a value. Where no file is active, `${file}` stays.
pub fn substitute(v: &Json, ws: &str, file: Option<&str>) -> (r: Json)
    ensures
        r@ == filled(v@, ws@, opt_text(file)),
    decreases v,
{
    match v {
        Json::Str(s) => Json::Str(fill_text(s.as_str(), ws, file)),
        Json::Arr(a) => {
            let mut out: Vec<Json> = Vec::new();
            let ghost want = filled(v@, ws@, opt_text(file))->Arr_0;
            let mut k: usize = 0;
            while k < a.len()
                invariant
                    k <= a@.len(),
                    *v == Json::Arr(*a),
                    want == filled(v@, ws@, opt_text(file))->Arr_0,
                    want.len() == a@.len(),
                    trees(out@) == want.take(k as int),
                decreases a.len() - k,
            {
                let ghost before = trees(out@);
                assert(decreases_to!(*v => (*v)->Arr_0));
                assert(decreases_to!(a@ => a@[k as int]));
                let one = substitute(&a[k], ws, file);
                out.push(one);
                assert(want[k as int] == filled(a@[k as int]@, ws@, opt_text(file)));
                assert(trees(out@) =~= before.push(want[k as int]));
                k = k + 1;
            }
            assert(want.take(k as int) =~= want);
            Json::list(out)
        },
        Json::Obj(m) => {
            let mut out: Vec<(String, Json)> = Vec::new();
            let ghost want = filled(v@, ws@, opt_text(file))->Obj_0;
            let mut k: usize = 0;
            while k < m.len()
                invariant
                    k <= m@.len(),
                    *v == Json::Obj(*m),
                    want == filled(v@, ws@, opt_text(file))->Obj_0,
                    want.len() == m@.len(),
                    members(out@) == want.take(k as int),
                decreases m.len() - k,
            {
                let ghost before = members(out@);
                assert(decreases_to!(*v => (*v)->Obj_0));
                assert(decreases_to!(m@ => m@[k as int]));
                assert(decreases_to!(m@[k as int] => m@[k as int].1));
                let one = substitute(&m[k].1, ws, file);
                out.push((m[k].0.clone(), one));
                assert(want[k as int] == (m@[k as int].0@, filled(m@[k as int].1@, ws@, opt_text(file))));
                assert(members(out@) =~= before.push(want[k as int]));
                k = k + 1;
            }
            assert(want.take(k as int) =~= want);
            Json::object(out)
        },
        other => other.copy(),
    }
}

/// Whether a member is for the editor alone.
pub open spec fn for_editor(key: Seq<char>) -> bool {
    key == "name"@ || key == "type"@ || key == "request"@
}

/// The members that are handed to the adapter, filled in.
pub open spec fn forwarded(m: Seq<(Seq<char>, Tree)>, ws: Seq<char>, file: Option<Seq<char>>) -> Seq<
    (Seq<char>, Tree),
>
    decreases m.len(),
{
    if m.len() == 0 {
        Seq::empty()
    } else {
        let before = forwarded(m.drop_last(), ws, file);
        if for_editor(m.last().0) {
            before
        } else {
            before.push((m.last().0, filled(m.last().1, ws, file)))
        }
    }
}

/// The request that a configuration makes.
pub open spec fn request_of(t: Tree) -> Request {
    if t.str_at("request"@) == Some("attach"@) {
        Request::Attach
    } else {
        Request::Launch
    }
}

/// The configuration that an entry of a `launch.json` is; none without a known type.
pub open spec fn config_of(
    t: Tree,
    ws: Seq<char>,
    file: Option<Seq<char>>,
    python: Seq<char>,
    netcoredbg: Seq<char>,
) -> Option<ConfigView> {
    match (t, t.str_at("type"@)) {
        (Tree::Obj(m), Some(ty)) => match adapter_of(lowercase(ty), python, netcoredbg) {
            Some(adapter) => {
                let request = request_of(t);
                let args = forwarded(m, ws, file);
                let full = if request == Request::Launch && Tree::Obj(args).get("cwd"@) is None {
                    args.push(("cwd"@, Tree::Str(ws)))
                } else {
                    args
                };
                Some(
                    ConfigView {
                        name: text_or(t.get("name"@), "Debug"@),
                        request,
                        adapter,
                        args: Tree::Obj(full),
                    },
                )
            },
            None => None,
        },
        _ => None,
    }
}

/// Reads one entry of a `launch.json`.
pub fn from_json(v: &Json, ws: &str, file: Option<&str>, programs: &Programs) -> (r: Option<LaunchConfig>)
    ensures
        match r {
            Some(c) => config_of(v@, ws@, opt_text(file), programs.python@, programs.netcoredbg@) == Some(c@),
            None => config_of(v@, ws@, opt_text(file), programs.python@, programs.netcoredbg@) is None,
        },
{
    let m: &Vec<(String, Json)> = match v {
        Json::Obj(m) => m,
        _ => {
            return None;
        },
    };
    assert(v@->Obj_0 =~= members(m@));
    let ty = match v.str_at("type") {
        Some(t) => t,
        None => {
            return None;
        },
    };
    let adapter = match adapter_for(ty, programs) {
        Some(a) => a,
        None => {
            return None;
        },
    };
    let name = match v.str_at("name") {
        Some(n) => n.to_owned(),
        None => "Debug".to_owned(),
    };
    let request = match v.str_at("request") {
        Some(q) => if same(q, "attach") {
            Request::Attach
        } else {
            Request::Launch
        },
        None => Request::Launch,
    };
    let ghost mv = members(m@);
    let mut args: Vec<(String, Json)> = Vec::new();
    assert(members(args@) =~= Seq::<(Seq<char>, Tree)>::empty());
    let mut k: usize = 0;
    while k < m.len()
        invariant
            k <= m@.len(),
            mv == members(m@),
            members(args@) == forwarded(mv.take(k as int), ws@, opt_text(file)),
        decreases m.len() - k,
    {
        assert(mv.take(k + 1).drop_last() =~= mv.take(k as int));
        assert(mv.take(k + 1).last() == mv[k as int]);
        let key = m[k].0.as_str();
        let ghost before = members(args@);
        if !same(key, "name") && !same(key, "type") && !same(key, "request") {
            let val = substitute(&m[k].1, ws, file);
            args.push((m[k].0.clone(), val));
            assert(members(args@) =~= before.push((key@, filled(m@[k as int].1@, ws@, opt_text(file)))));
        }
        k = k + 1;
    }
    assert(mv.take(k as int) =~= mv);
    let mut whole = Json::object(args);
    if request == Request::Launch && whole.get("cwd").is_none() {
        let ghost before = members(args@);
        if let Json::Obj(mut inner) = whole {
            assert(Json::Obj(inner)@->Obj_0 =~= members(inner@));
            inner.push(("cwd".to_owned(), Json::text(ws)));
            assert(members(inner@) =~= before.push(("cwd"@, Tree::Str(ws@))));
            whole = Json::object(inner);
        } else {
            whole = Json::Null;
            assert(false);
        }
    }
    Some(LaunchConfig { name, request, adapter, args: whole })
}

/// The configurations among the entries of a list.
pub open spec fn configs_in(
    v: Seq<Tree>,
    ws: Seq<char>,
    file: Option<Seq<char>>,
    python: Seq<char>,
    netcoredbg: Seq<char>,
) -> Seq<ConfigView>
    decreases v.len(),
{
    if v.len() == 0 {
        Seq::empty()
    } else {
        let before = configs_in(v.drop_last(), ws, file, python, netcoredbg);
        match config_of(v.last(), ws, file, python, netcoredbg) {
            Some(c) => before.push(c),
            None => before,
        }
    }
}

/// What follows the comment that starts at `s[i..]`, a line comment where `line`: the line feed
/// that ends it, or what stands behind its closing mark; the end where it is not closed.
pub open spec fn comment_end(s: Seq<char>, i: int, line: bool) -> int {
    let k = if line {
        find_char(s, '\n', i + 2)
    } else {
        place_of(s, "*/"@, i + 2) + 2
    };
    if i < k <= s.len() {
        k
    } else {
        s.len() as int
    }
}

/// The text `s[i..]` without its comments, of which there are none inside quotes; `quoted` says
/// whether it starts inside quotes. A backslash inside quotes keeps the character behind it.
pub open spec fn uncommented(s: Seq<char>, i: int, quoted: bool) -> Seq<char>
    decreases s.len() - i,
{
    if i >= s.len() {
        Seq::empty()
    } else if quoted && s[i] == '\\' && i + 1 < s.len() {
        seq![s[i], s[i + 1]] + uncommented(s, i + 2, true)
    } else if !quoted && s[i] == '/' && i + 1 < s.len() && (s[i + 1] == '/' || s[i + 1] == '*') {
        uncommented(s, comment_end(s, i, s[i + 1] == '/'), false)
    } else {
        seq![s[i]] + uncommented(s, i + 1, (s[i] == '"') != quoted)
    }
}

/// A settings text without its comments.
pub fn strip_jsonc(text: &str) -> (r: String)
    ensures
        r@ == uncommented(text@, 0, false),
{
    let v = chars_of(text);
    let n: usize = v.len();
    let mut out = String::new();
    let mut i: usize = 0;
    let mut quoted: bool = false;
    assert(out@ + uncommented(v@, 0, false) =~= uncommented(v@, 0, false));
    while i < n
        invariant
            n == v@.len(),
            i <= n,
            v@ == text@,
            out@ + uncommented(v@, i as int, quoted) == uncommented(v@, 0, false),
        decreases n - i,
    {
        let ghost before = out@;
        let c = v[i];
        if quoted && c == '\\' && i + 1 < n {
            out.push(c);
            out.push(v[i + 1]);
            assert(out@ + uncommented(v@, i + 2, true) =~= before + (seq![c, v@[i + 1]] + uncommented(
                v@,
                i + 2,
                true,
            )));
            i = i + 2;
        } else if !quoted && c == '/' && i + 1 < n && (v[i + 1] == '/' || v[i + 1] == '*') {
            i = skip_comment(&v, i);
        } else {
            out.push(c);
            let now: bool = (c == '"') != quoted;
            assert(out@ + uncommented(v@, i + 1, now) =~= before + (seq![c] + uncommented(
                v@,
                i + 1,
                now,
            )));
            quoted = now;
            i = i + 1;
        }
    }
    assert(out@ + Seq::<char>::empty() =~= out@);
    out
}

/// Where the comment that starts at `i` ends.
fn skip_comment(v: &Vec<char>, i: usize) -> (r: usize)
    requires
        i + 1 < v@.len(),
    ensures
        r == comment_end(v@, i as int, v@[i + 1] == '/'),
        i < r <= v@.len(),
{
    let n: usize = v.len();
    if v[i + 1] == '/' {
        let mut k: usize = i + 2;
        while k < n && v[k] != '\n'
            invariant
                n == v@.len(),
                i + 2 <= k <= n,
                find_char(v@, '\n', k as int) == find_char(v@, '\n', i + 2),
            decreases n - k,
        {
            k = k + 1;
        }
        k
    } else {
        let k: usize = find_place(v, "*/", i + 2);
        proof {
            reveal_strlit("*/");
            crate::text::lemma_place_of(v@, "*/"@, i + 2);
        }
        if k < n {
            k + 2
        } else {
            n
        }
    }
}

/// A text without a slash has no comments and stays as it is.
pub proof fn law_text_without_comments_stays(s: Seq<char>, i: int, quoted: bool)
    requires
        0 <= i <= s.len(),
        !s.contains('/'),
    ensures
        uncommented(s, i, quoted) == s.skip(i),
    decreases s.len() - i,
{
    if i < s.len() {
        assert(s.contains(s[i]));
        if quoted && s[i] == '\\' && i + 1 < s.len() {
            law_text_without_comments_stays(s, i + 2, true);
            assert(s.skip(i) =~= seq![s[i], s[i + 1]] + s.skip(i + 2));
        } else {
            law_text_without_comments_stays(s, i + 1, (s[i] == '"') != quoted);
            assert(s.skip(i) =~= seq![s[i]] + s.skip(i + 1));
        }
    }
}

/// The configurations of a `launch.json` text, which may have comments; none where it is not
/// JSON.
pub open spec fn configs_of_text(
    text: Seq<char>,
    ws: Seq<char>,
    file: Option<Seq<char>>,
    python: Seq<char>,
    netcoredbg: Seq<char>,
) -> Seq<ConfigView> {
    match read(uncommented(text, 0, false)) {
        Some(t) => match t.list_at("configurations"@) {
            Some(v) => configs_in(v, ws, file, python, netcoredbg),
            None => Seq::empty(),
        },
        None => Seq::empty(),
    }
}

/// Reads the configurations of a parsed `launch.json`.
pub fn configs_from(v: &Json, ws: &str, file: Option<&str>, programs: &Programs) -> (r: Vec<LaunchConfig>)
    ensures
        config_views(r@) == match v@.list_at("configurations"@) {
            Some(l) => configs_in(l, ws@, opt_text(file), programs.python@, programs.netcoredbg@),
            None => Seq::empty(),
        },
{
    let mut out: Vec<LaunchConfig> = Vec::new();
    assert(config_views(out@) =~= Seq::<ConfigView>::empty());
    match v.list_at("configurations") {
        Some(l) => {
            let ghost tv = trees(l@);
            let mut k: usize = 0;
            while k < l.len()
                invariant
                    k <= l@.len(),
                    tv == trees(l@),
                    config_views(out@) == configs_in(
                        tv.take(k as int),
                        ws@,
                        opt_text(file),
                        programs.python@,
                        programs.netcoredbg@,
                    ),
                decreases l.len() - k,
            {
                assert(tv.take(k + 1).drop_last() =~= tv.take(k as int));
                assert(tv.take(k + 1).last() == l@[k as int]@);
                let ghost before = config_views(out@);
                if let Some(c) = from_json(&l[k], ws, file, programs) {
                    out.push(c);
                    assert(config_views(out@) =~= before.push(c@));
                }
                k = k + 1;
            }
            assert(tv.take(k as int) =~= tv);
        },
        None => {},
    }
    out
}

/// The configurations of the first text, from the `k`-th on, that has any.
pub open spec fn first_configs(
    texts: Seq<Seq<char>>,
    k: int,
    ws: Seq<char>,
    file: Option<Seq<char>>,
    python: Seq<char>,
    netcoredbg: Seq<char>,
) -> Seq<ConfigView>
    decreases texts.len() - k,
{
    if k >= texts.len() {
        Seq::empty()
    } else {
        let c = configs_of_text(texts[k], ws, file, python, netcoredbg);
        if c.len() > 0 {
            c
        } else {
            first_configs(texts, k + 1, ws, file, python, netcoredbg)
        }
    }
}

/// Configurations made up from the active file: a Python file can be launched, or
/// attached to.
pub open spec fn made_up(file: Option<Seq<char>>, ws: Seq<char>, python: Seq<char>) -> Seq<
    ConfigView,
> {
    match file {
        Some(f) => if extension_of(f) == Some("py"@) {
            let adapter = AdapterView {
                program: python,
                args: seq!["-m"@, "debugpy.adapter"@],
                install_hint: python_hint(),
            };
            seq![
                ConfigView {
                    name: "Python: Launch current file"@,
                    request: Request::Launch,
                    adapter,
                    args: Tree::Obj(
                        seq![
                            ("program"@, Tree::Str(f)),
                            ("cwd"@, Tree::Str(ws)),
                            ("console"@, Tree::Str("internalConsole"@)),
                            ("stopOnEntry"@, Tree::Bool(false)),
                            ("justMyCode"@, Tree::Bool(true)),
                        ],
                    ),
                },
                ConfigView {
                    name: "Python: Attach (127.0.0.1:5678)"@,
                    request: Request::Attach,
                    adapter,
                    args: Tree::Obj(
                        seq![
                            (
                                "connect"@,
                                Tree::Obj(
                                    seq![
                                        ("host"@, Tree::Str("127.0.0.1"@)),
                                        ("port"@, Tree::Pos(5678)),
                                    ],
                                ),
                            ),
                        ],
                    ),
                },
            ]
        } else {
            Seq::empty()
        },
        None => Seq::empty(),
    }
}

/// Makes configurations up from the active file.
pub fn synthesize(ws: &str, active_file: Option<&str>, programs: &Programs) -> (r: Vec<LaunchConfig>)
    ensures
        config_views(r@) == made_up(opt_text(active_file), ws@, programs.python@),
{
    let mut out: Vec<LaunchConfig> = Vec::new();
    let is_python = match active_file {
        Some(f) => match extension(f) {
            Some(e) => same(e.as_str(), "py"),
            None => false,
        },
        None => false,
    };
    if is_python {
        if let Some(f) = active_file {
            let mut a = ObjectBuilder::new();
            a.put_str("program", f);
            a.put_str("cwd", ws);
            a.put_str("console", "internalConsole");
            a.put("stopOnEntry", Json::Bool(false));
            a.put("justMyCode", Json::Bool(true));
            let ghost want = made_up(Some(f@), ws@, programs.python@);
            assert(a@ =~= want[0].args->Obj_0);
            let mut c = ObjectBuilder::new();
            c.put_str("host", "127.0.0.1");
            c.put("port", Json::Pos(5678));
            assert(c@ =~= want[1].args->Obj_0[0].1->Obj_0);
            let mut b = ObjectBuilder::new();
            b.put("connect", c.build());
            assert(b@ =~= want[1].args->Obj_0);
            out.push(
                LaunchConfig {
                    name: "Python: Launch current file".to_owned(),
                    request: Request::Launch,
                    adapter: python_spec(programs),
                    args: a.build(),
                },
            );
            out.push(
                LaunchConfig {
                    name: "Python: Attach (127.0.0.1:5678)".to_owned(),
                    request: Request::Attach,
                    adapter: python_spec(programs),
                    args: b.build(),
                },
            );
            assert(config_views(out@)[0] =~= want[0]);
            assert(config_views(out@)[1] =~= want[1]);
        }
    }
    assert(config_views(out@) =~= made_up(opt_text(active_file), ws@, programs.python@));
    out
}

/// The configurations of a workspace: those of the first `launch.json` text that has any,
/// else those made up from the active file. The texts are in the order in which they
/// count.
pub fn load(ws: &str, texts: &Vec<String>, active_file: Option<&str>, programs: &Programs) -> (r: Vec<
    LaunchConfig,
>)
    ensures
        ({
            let found = first_configs(
                views(texts@),
                0,
                ws@,
                opt_text(active_file),
                programs.python@,
                programs.netcoredbg@,
            );
            config_views(r@) == if found.len() > 0 {
                found
            } else {
                made_up(opt_text(active_file), ws@, programs.python@)
            }
        }),
{
    let mut k: usize = 0;
    while k < texts.len()
        invariant
            k <= texts@.len(),
            first_configs(views(texts@), k as int, ws@, opt_text(active_file), programs.python@, programs.netcoredbg@)
                == first_configs(views(texts@), 0, ws@, opt_text(active_file), programs.python@, programs.netcoredbg@),
        decreases texts.len() - k,
    {
        assert(views(texts@)[k as int] == texts@[k as int]@);
        if let Some(v) = parse(strip_jsonc(texts[k].as_str()).as_str()) {
            let out = configs_from(&v, ws, active_file, programs);
            if out.len() > 0 {
                assert(config_views(out@).len() > 0);
                return out;
            }
            assert(config_views(out@).len() == 0);
        }
        k = k + 1;
    }
    synthesize(ws, active_file, programs)
}

/// Each kind of program is debugged by its adapter: Python by debugpy of the interpreter, .NET by
/// netcoredbg, native programs by lldb-dap and scripts by the one for JavaScript.
pub proof fn law_programs_have_their_adapters(python: Seq<char>, netcoredbg: Seq<char>)
    ensures
        adapter_of("python"@, python, netcoredbg) is Some,
        adapter_of("python"@, python, netcoredbg)->0.program == python,
        adapter_of("python"@, python, netcoredbg)->0.args == seq!["-m"@, "debugpy.adapter"@],
        adapter_of("debugpy"@, python, netcoredbg) == adapter_of("python"@, python, netcoredbg),
        adapter_of("coreclr"@, python, netcoredbg) is Some,
        adapter_of("coreclr"@, python, netcoredbg)->0.program == netcoredbg,
        adapter_of("coreclr"@, python, netcoredbg)->0.args == seq!["--interpreter=vscode"@],
        adapter_of("netcoredbg"@, python, netcoredbg) == adapter_of("coreclr"@, python, netcoredbg),
        adapter_of("dotnet"@, python, netcoredbg) == adapter_of("coreclr"@, python, netcoredbg),
        adapter_of("lldb"@, python, netcoredbg) is Some,
        adapter_of("lldb"@, python, netcoredbg)->0.program == "lldb-dap"@,
        adapter_of("codelldb"@, python, netcoredbg) == adapter_of("lldb"@, python, netcoredbg),
        adapter_of("node"@, python, netcoredbg) is Some,
        adapter_of("node"@, python, netcoredbg)->0.program == "js-debug-adapter"@,
        adapter_of("pwa-node"@, python, netcoredbg) == adapter_of("node"@, python, netcoredbg),
{
    reveal_strlit("python");
    reveal_strlit("debugpy");
    reveal_strlit("coreclr");
    reveal_strlit("netcoredbg");
    reveal_strlit("dotnet");
    reveal_strlit("lldb");
    reveal_strlit("codelldb");
    reveal_strlit("node");
    reveal_strlit("pwa-node");
    assert("python"@.len() == 6);
    assert("debugpy"@.len() == 7);
    assert("coreclr"@.len() == 7);
    assert("netcoredbg"@.len() == 10);
    assert("dotnet"@.len() == 6);
    assert("lldb"@.len() == 4);
    assert("codelldb"@.len() == 8);
    assert("node"@.len() == 4);
    assert("pwa-node"@.len() == 8);
    assert("python"@[0] == 'p' && "dotnet"@[0] == 'd');
    assert("debugpy"@[0] == 'd' && "coreclr"@[0] == 'c');
    assert("lldb"@[0] == 'l' && "node"@[0] == 'n');
    assert("codelldb"@[0] == 'c' && "pwa-node"@[0] == 'p');
}

proof fn lemma_filled_tail(a: Seq<char>, b: Seq<char>, ws: Seq<char>, file: Option<Seq<char>>, k: int)
    requires
        0 <= k <= b.len(),
    ensures
        filled_text(a + b, ws, file, a.len() + k) == filled_text(b, ws, file, k),
    decreases b.len() - k,
{
    if k < b.len() {
        let s = a + b;
        let at = a.len() + k;
        reveal_strlit("${workspaceFolder}");
        reveal_strlit("${file}");
        assert("${workspaceFolder}"@.len() == 18 && "${file}"@.len() == 7);
        assert(s[at] == b[k]);
        if k + 18 <= b.len() {
            assert(s.subrange(at, at + 18) =~= b.subrange(k, k + 18));
            lemma_filled_tail(a, b, ws, file, k + 18);
        }
        if k + 7 <= b.len() {
            assert(s.subrange(at, at + 7) =~= b.subrange(k, k + 7));
            lemma_filled_tail(a, b, ws, file, k + 7);
        }
        lemma_filled_tail(a, b, ws, file, k + 1);
    }
}

/// The variables of a text stand for the workspace and for the open file; without an open file that
/// variable stays, as does every other character.
pub proof fn law_variables_are_filled_in(rest: Seq<char>, ws: Seq<char>, file: Seq<char>, c: char)
    requires
        c != '$',
    ensures
        filled_text("${workspaceFolder}"@ + rest, ws, Some(file), 0) == ws + filled_text(
            rest,
            ws,
            Some(file),
            0,
        ),
        filled_text("${file}"@ + rest, ws, Some(file), 0) == file + filled_text(
            rest,
            ws,
            Some(file),
            0,
        ),
        filled_text("${workspaceFolder}"@ + rest, ws, None, 0) == ws + filled_text(rest, ws, None, 0),
        filled_text(seq![c] + rest, ws, Some(file), 0) == seq![c] + filled_text(
            rest,
            ws,
            Some(file),
            0,
        ),
        filled_text(Seq::empty(), ws, Some(file), 0) == Seq::<char>::empty(),
{
    reveal_strlit("${workspaceFolder}");
    reveal_strlit("${file}");
    let w = "${workspaceFolder}"@;
    let f = "${file}"@;
    assert((w + rest).subrange(0, 18) =~= w);
    assert((f + rest).subrange(0, 7) =~= f);
    assert(w[2] == 'w' && f[2] == 'f');
    if 18 <= (f + rest).len() {
        assert((f + rest).subrange(0, 18)[2] == 'f');
    }
    lemma_filled_tail(w, rest, ws, Some(file), 0);
    lemma_filled_tail(f, rest, ws, Some(file), 0);
    lemma_filled_tail(w, rest, ws, None, 0);
    lemma_filled_tail(seq![c], rest, ws, Some(file), 0);
    let s = seq![c] + rest;
    if 18 <= s.len() {
        assert(s.subrange(0, 18)[0] == c && w[0] == '$');
    }
    if 7 <= s.len() {
        assert(s.subrange(0, 7)[0] == c && f[0] == '$');
    }
}

proof fn lemma_forwarded(m: Seq<(Seq<char>, Tree)>, ws: Seq<char>, file: Option<Seq<char>>)
    ensures
        forall|i: int|
            0 <= i < m.len() && (#[trigger] m[i]).0 != "name"@ && m[i].0 != "type"@ && m[i].0
                != "request"@ ==> forwarded(m, ws, file).contains((m[i].0, filled(m[i].1, ws, file))),
        forall|k: int|
            0 <= k < forwarded(m, ws, file).len() ==> (#[trigger] forwarded(m, ws, file)[k]).0
                != "name"@ && forwarded(m, ws, file)[k].0 != "type"@ && forwarded(m, ws, file)[k].0
                != "request"@,
    decreases m.len(),
{
    if m.len() > 0 {
        let front = m.drop_last();
        lemma_forwarded(front, ws, file);
        let before = forwarded(front, ws, file);
        let all = forwarded(m, ws, file);
        assert(forall|k: int| 0 <= k < before.len() ==> all[k] == before[k]);
        assert forall|i: int|
            0 <= i < m.len() && (#[trigger] m[i]).0 != "name"@ && m[i].0 != "type"@ && m[i].0
                != "request"@ implies all.contains((m[i].0, filled(m[i].1, ws, file))) by {
            let e = (m[i].0, filled(m[i].1, ws, file));
            if i < front.len() {
                assert(front[i] == m[i]);
                let k = choose|k: int| 0 <= k < before.len() && before[k] == e;
                assert(all[k] == e);
            } else {
                assert(all[all.len() - 1] == e);
            }
        }
    }
}

/// An adapter is handed everything of a configuration but its name, its type and its request, with
/// the variables filled in, and for a launch the workspace as working directory where none is given.
pub proof fn law_configurations_are_handed_on(
    m: Seq<(Seq<char>, Tree)>,
    ws: Seq<char>,
    file: Option<Seq<char>>,
    python: Seq<char>,
    netcoredbg: Seq<char>,
    i: int,
)
    requires
        config_of(Tree::Obj(m), ws, file, python, netcoredbg) is Some,
        0 <= i < m.len(),
    ensures
        ({
            let c = config_of(Tree::Obj(m), ws, file, python, netcoredbg)->0;
            let args = c.args->Obj_0;
            &&& c.args is Obj
            &&& m[i].0 != "name"@ && m[i].0 != "type"@ && m[i].0 != "request"@ ==> args.contains(
                (m[i].0, filled(m[i].1, ws, file)),
            )
            &&& forall|k: int|
                0 <= k < args.len() ==> (#[trigger] args[k]).0 != "name"@ && args[k].0 != "type"@
                    && args[k].0 != "request"@
            &&& c.request is Attach <==> Tree::Obj(m).get("request"@) == Some(Tree::Str("attach"@))
            &&& Tree::Obj(m).get("name"@) matches Some(Tree::Str(n)) ==> c.name == n
            &&& c.request is Launch ==> c.args.get("cwd"@) is Some
            &&& c.request is Launch && (forall|k: int| 0 <= k < m.len() ==> (#[trigger] m[k]).0 != "cwd"@)
                ==> c.args.get("cwd"@) == Some(Tree::Str(ws))
        }),
{
    reveal_strlit("name");
    reveal_strlit("type");
    reveal_strlit("request");
    reveal_strlit("cwd");
    assert("name"@.len() == 4);
    assert("type"@.len() == 4);
    assert("request"@.len() == 7);
    assert("cwd"@.len() == 3);
    assert("name"@[0] == 'n' && "type"@[0] == 't');
    let c = config_of(Tree::Obj(m), ws, file, python, netcoredbg)->0;
    let args = forwarded(m, ws, file);
    lemma_forwarded(m, ws, file);
    let full = c.args->Obj_0;
    assert(forall|k: int| 0 <= k < args.len() ==> full[k] == args[k]);
    if m[i].0 != "name"@ && m[i].0 != "type"@ && m[i].0 != "request"@ {
        let e = (m[i].0, filled(m[i].1, ws, file));
        let k = choose|k: int| 0 <= k < args.len() && args[k] == e;
        assert(full[k] == e);
    }
    crate::json::law_lookup_gives_the_first_member(Tree::Obj(args), "cwd"@, Tree::Null);
    if c.request is Launch && Tree::Obj(args).get("cwd"@) is None {
        assert(full[args.len() as int].0 == "cwd"@);
        crate::json::lemma_get_at(full, "cwd"@, args.len() as int);
    }
    if forall|k: int| 0 <= k < m.len() ==> (#[trigger] m[k]).0 != "cwd"@ {
        lemma_forwarded_lacks(m, ws, file);
    }
}

proof fn lemma_forwarded_lacks(m: Seq<(Seq<char>, Tree)>, ws: Seq<char>, file: Option<Seq<char>>)
    requires
        forall|k: int| 0 <= k < m.len() ==> (#[trigger] m[k]).0 != "cwd"@,
    ensures
        Tree::Obj(forwarded(m, ws, file)).get("cwd"@) is None,
        forall|k: int|
            0 <= k < forwarded(m, ws, file).len() ==> (#[trigger] forwarded(m, ws, file)[k]).0
                != "cwd"@,
    decreases m.len(),
{
    if m.len() > 0 {
        let front = m.drop_last();
        assert forall|k: int| 0 <= k < front.len() implies (#[trigger] front[k]).0 != "cwd"@ by {
            assert(front[k] == m[k]);
        }
        lemma_forwarded_lacks(front, ws, file);
        assert(m[m.len() - 1].0 != "cwd"@);
    }
    crate::json::law_lookup_gives_the_first_member(
        Tree::Obj(forwarded(m, ws, file)),
        "cwd"@,
        Tree::Null,
    );
}

proof fn lemma_uncommented_tail(a: Seq<char>, b: Seq<char>, k: int, quoted: bool)
    requires
        0 <= k <= b.len(),
    ensures
        uncommented(a + b, a.len() + k, quoted) == uncommented(b, k, quoted),
    decreases b.len() - k,
{
    let s = a + b;
    let at = a.len() + k;
    if k < b.len() {
        assert(s[at] == b[k]);
        if k + 1 < b.len() {
            assert(s[at + 1] == b[k + 1]);
        }
        if quoted && b[k] == '\\' && k + 1 < b.len() {
            lemma_uncommented_tail(a, b, k + 2, true);
        } else if !quoted && b[k] == '/' && k + 1 < b.len() && (b[k + 1] == '/' || b[k + 1] == '*') {
            lemma_comment_end_tail(a, b, k, b[k + 1] == '/');
            let e = comment_end(b, k, b[k + 1] == '/');
            lemma_uncommented_tail(a, b, e, false);
        } else {
            lemma_uncommented_tail(a, b, k + 1, (b[k] == '"') != quoted);
        }
    }
}

proof fn lemma_find_char_tail(a: Seq<char>, b: Seq<char>, c: char, k: int)
    requires
        0 <= k,
    ensures
        find_char(a + b, c, a.len() + k) == a.len() + find_char(b, c, k) || k > b.len(),
    decreases b.len() - k,
{
    if k < b.len() {
        assert((a + b)[a.len() + k] == b[k]);
        lemma_find_char_tail(a, b, c, k + 1);
    }
}

proof fn lemma_place_of_tail(a: Seq<char>, b: Seq<char>, p: Seq<char>, k: int)
    requires
        0 <= k <= b.len(),
    ensures
        place_of(a + b, p, a.len() + k) == a.len() + place_of(b, p, k),
    decreases b.len() - k,
{
    if k < b.len() {
        let s = a + b;
        let at = a.len() + k;
        if k + p.len() <= b.len() {
            assert(s.subrange(at, at + p.len()) =~= b.subrange(k, k + p.len()));
        }
        lemma_place_of_tail(a, b, p, k + 1);
    }
}

proof fn lemma_comment_end_tail(a: Seq<char>, b: Seq<char>, k: int, line: bool)
    requires
        0 <= k,
        k + 1 < b.len(),
    ensures
        comment_end(a + b, a.len() + k, line) == a.len() + comment_end(b, k, line),
        k < comment_end(b, k, line) <= b.len(),
{
    lemma_find_char_tail(a, b, '\n', k + 2);
    lemma_place_of_tail(a, b, "*/"@, k + 2);
}

/// A comment to the end of a line is left out up to the line break, one between its marks with
/// them; what stands before and behind is read for itself.
pub proof fn law_comments_are_left_out(c: Seq<char>, rest: Seq<char>)
    requires
        !c.contains('\n'),
        !c.contains('*'),
    ensures
        uncommented(seq!['/', '/'] + c + seq!['\n'] + rest, 0, false) == seq!['\n'] + uncommented(
            rest,
            0,
            false,
        ),
        uncommented(seq!['/', '*'] + c + seq!['*', '/'] + rest, 0, false) == uncommented(
            rest,
            0,
            false,
        ),
{
    let front = seq!['/', '/'] + c;
    let s = front + seq!['\n'] + rest;
    assert(s =~= front + (seq!['\n'] + rest));
    lemma_finds(s, '\n', 2, front.len() as int);
    assert(comment_end(s, 0, true) == front.len());
    let tail = seq!['\n'] + rest;
    lemma_uncommented_tail(front, tail, 0, false);
    lemma_uncommented_tail(seq!['\n'], rest, 0, false);
    assert(tail[0] == '\n');
    reveal_strlit("*/");
    let open = seq!['/', '*'] + c + seq!['*', '/'];
    let z = open + rest;
    let end = 2 + c.len();
    assert(z.subrange(end as int, end as int + 2) =~= "*/"@);
    lemma_places(z, "*/"@, 2, end as int);
    assert(comment_end(z, 0, false) == end + 2);
    lemma_uncommented_tail(open, rest, 0, false);
}

proof fn lemma_finds(s: Seq<char>, c: char, k: int, at: int)
    requires
        0 <= k <= at < s.len(),
        s[at] == c,
        forall|j: int| k <= j < at ==> s[j] != c,
    ensures
        find_char(s, c, k) == at,
    decreases at - k,
{
    if k < at {
        lemma_finds(s, c, k + 1, at);
    }
}

proof fn lemma_places(s: Seq<char>, p: Seq<char>, k: int, at: int)
    requires
        0 <= k <= at < s.len(),
        occurs_at(s, p, at),
        p.len() > 0,
        forall|j: int| k <= j < at ==> s[j] != p[0],
    ensures
        place_of(s, p, k) == at,
    decreases at - k,
{
    if k < at {
        if occurs_at(s, p, k) {
            assert(s.subrange(k, k + p.len())[0] == s[k]);
        }
        lemma_places(s, p, k + 1, at);
    }
}

/// What looks like a comment inside a quoted text is part of the text.
pub proof fn law_quoted_texts_stay(t: Seq<char>, rest: Seq<char>)
    requires
        !t.contains('"'),
        !t.contains('\\'),
    ensures
        uncommented(seq!['"'] + t + seq!['"'] + rest, 0, false) == seq!['"'] + t + seq!['"'] + uncommented(
            rest,
            0,
            false,
        ),
{
    let s = seq!['"'] + t + seq!['"'] + rest;
    assert(s[0] == '"');
    lemma_quoted(t, rest, 0);
    let back = uncommented(rest, 0, false);
    assert(t.skip(0) =~= t);
    assert(seq!['"'] + (t + seq!['"'] + back) =~= seq!['"'] + t + seq!['"'] + back);
}

proof fn lemma_quoted(t: Seq<char>, rest: Seq<char>, k: int)
    requires
        !t.contains('"'),
        !t.contains('\\'),
        0 <= k <= t.len(),
    ensures
        uncommented(seq!['"'] + t + seq!['"'] + rest, k + 1, true) == t.skip(k) + seq!['"'] + uncommented(
            rest,
            0,
            false,
        ),
    decreases t.len() - k,
{
    let s = seq!['"'] + t + seq!['"'] + rest;
    let back = uncommented(rest, 0, false);
    if k < t.len() {
        assert(s[k + 1] == t[k]);
        assert(t.contains(t[k]));
        lemma_quoted(t, rest, k + 1);
        assert(seq![t[k]] + (t.skip(k + 1) + seq!['"'] + back) =~= t.skip(k) + seq!['"'] + back);
    } else {
        assert(s[k + 1] == '"');
        let front = seq!['"'] + t + seq!['"'];
        lemma_uncommented_tail(front, rest, 0, false);
        assert(t.skip(k) + seq!['"'] + back =~= seq!['"'] + back);
    }
}

/// The first file that has a configuration gives them all; where none has, the open Python file can
/// be launched, and a running program attached to.
pub proof fn law_first_file_with_configurations_counts(
    texts: Seq<Seq<char>>,
    k: int,
    at: int,
    ws: Seq<char>,
    file: Option<Seq<char>>,
    python: Seq<char>,
    netcoredbg: Seq<char>,
)
    requires
        0 <= k <= at <= texts.len(),
        forall|j: int|
            k <= j < at ==> configs_of_text(#[trigger] texts[j], ws, file, python, netcoredbg).len() == 0,
        at < texts.len() ==> configs_of_text(texts[at], ws, file, python, netcoredbg).len() > 0,
    ensures
        at < texts.len() ==> first_configs(texts, k, ws, file, python, netcoredbg) == configs_of_text(
            texts[at],
            ws,
            file,
            python,
            netcoredbg,
        ),
        at == texts.len() ==> first_configs(texts, k, ws, file, python, netcoredbg).len() == 0,
    decreases at - k,
{
    if k < at {
        assert(configs_of_text(texts[k], ws, file, python, netcoredbg).len() == 0);
        law_first_file_with_configurations_counts(
            texts,
            k + 1,
            at,
            ws,
            file,
            python,
            netcoredbg,
        );
    }
}

} // verus!
