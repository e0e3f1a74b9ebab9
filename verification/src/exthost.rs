//! The extension host: what is said to it, what it says, and the registry of extensions.
//!
//! The host is a process of its own that speaks newline-delimited JSON-RPC.
use vstd::prelude::*;

use crate::json::get_list;
use crate::json::get_text_or;
use crate::json::get_texts;
use crate::json::list_or_none;
use crate::json::members;
use crate::json::opt_tree;
use crate::json::parse;
use crate::json::read;
use crate::json::text_or;
use crate::json::texts_in;
use crate::json::trees;
use crate::json::under;
use crate::json::under_key;
use crate::json::Json;
use crate::json::ObjectBuilder;
use crate::json::Tree;
use crate::paths::join;
use crate::paths::joined_path;
use crate::text::begins;
use crate::text::chars_of;
use crate::text::decimal;
use crate::text::hex;
use crate::text::same;
use crate::text::starts_with;
use crate::text::text_of;
use crate::text::trim;
use crate::text::trim_start_matches;
use crate::text::trimmed;
use crate::text::views;
use crate::text::without_leading;
use crate::text::write_decimal;
use crate::text::write_hex;

verus! {

/// Whether a message is the host's greeting with the token it was given.
pub open spec fn is_greeting(msg: Tree, token: Seq<char>) -> bool {
    &&& msg.str_at("method"@) == Some("host/ready"@)
    &&& match under(msg.get("params"@), "token"@) {
        Some(t) => t.as_str() == Some(token),
        None => false,
    }
}

/// Whether the first line that came is the host's greeting with the token it was given.
/// Anything else is not trusted.
pub fn handshake(line: &str, token: &str) -> (r: bool)
    ensures
        r == (match read(trimmed(line@)) {
            Some(msg) => is_greeting(msg, token@),
            None => false,
        }),
{
    let t = trim(line);
    match parse(t.as_str()) {
        Some(msg) => greets(&msg, token),
        None => false,
    }
}

/// Whether a message is the host's greeting with the token it was given.
pub fn greets(msg: &Json, token: &str) -> (r: bool)
    ensures
        r == is_greeting(msg@, token@),
{
    let ready = match msg.str_at("method") {
        Some(m) => same(m, "host/ready"),
        None => false,
    };
    let known = match under_key(msg.get("params"), "token") {
        Some(t) => match t.as_str() {
            Some(s) => same(s, token),
            None => false,
        },
        None => false,
    };
    ready && known
}

/// The message of a later line: none where it is blank or not JSON.
pub fn inbound(line: &str) -> (r: Option<Json>)
    ensures
        opt_tree(match r {
            Some(j) => Some(&j),
            None => None,
        }) == if trimmed(line@).len() == 0 {
            None
        } else {
            read(trimmed(line@))
        },
{
    let t = trim(line);
    if t.as_str().is_empty() {
        return None;
    }
    parse(t.as_str())
}

/// A notification.
pub open spec fn notification(method: Seq<char>, params: Tree) -> Tree {
    Tree::Obj(
        seq![
            ("jsonrpc"@, Tree::Str("2.0"@)),
            ("method"@, Tree::Str(method)),
            ("params"@, params),
        ],
    )
}

/// A request.
pub open spec fn call(id: i64, method: Seq<char>, params: Tree) -> Tree {
    Tree::Obj(
        seq![
            ("jsonrpc"@, Tree::Str("2.0"@)),
            ("id"@, Tree::whole(id)),
            ("method"@, Tree::Str(method)),
            ("params"@, params),
        ],
    )
}

/// The editor's side of the connection: it numbers its requests.
pub struct ExtHost {
    next_id: i64,
}

impl View for ExtHost {
    type V = i64;

    closed spec fn view(&self) -> i64 {
        self.next_id
    }
}

/// The number after `n`; the numbers go round.
pub open spec fn after(n: i64) -> i64 {
    if n < i64::MAX {
        (n + 1) as i64
    } else {
        i64::MIN
    }
}

fn one_text(key: &str, value: &str) -> (r: Json)
    ensures
        r@ == Tree::Obj(seq![(key@, Tree::Str(value@))]),
{
    let mut b = ObjectBuilder::new();
    b.put_str(key, value);
    assert(b@ =~= seq![(key@, Tree::Str(value@))]);
    b.build()
}

impl ExtHost {
    /// A connection on which nothing was asked.
    pub fn new() -> (r: ExtHost)
        ensures
            r@ == 1,
    {
        ExtHost { next_id: 1 }
    }

    /// A notification to the host.
    pub fn notify(&self, method: &str, params: Json) -> (r: Json)
        ensures
            r@ == notification(method@, params@),
    {
        let mut b = ObjectBuilder::new();
        b.put_str("jsonrpc", "2.0");
        b.put_str("method", method);
        b.put("params", params);
        assert(b@ =~= notification(method@, params@)->Obj_0);
        b.build()
    }

    /// A request to the host: its number, by which the answer is known, and the message.
    pub fn request(&mut self, method: &str, params: Json) -> (r: (i64, Json))
        ensures
            r.0 == old(self)@,
            r.1@ == call(old(self)@, method@, params@),
            final(self)@ == after(old(self)@),
    {
        let id: i64 = self.next_id;
        self.next_id = if id < i64::MAX {
            id + 1
        } else {
            i64::MIN
        };
        let mut b = ObjectBuilder::new();
        b.put_str("jsonrpc", "2.0");
        b.put("id", Json::whole(id));
        b.put_str("method", method);
        b.put("params", params);
        assert(b@ =~= call(id, method@, params@)->Obj_0);
        (id, b.build())
    }

    /// The answer to a request of the host, under its own id.
    pub fn respond(&self, id: &Json, result: Json) -> (r: Json)
        ensures
            r@ == Tree::Obj(
                seq![("jsonrpc"@, Tree::Str("2.0"@)), ("id"@, id@), ("result"@, result@)],
            ),
    {
        let mut b = ObjectBuilder::new();
        b.put_str("jsonrpc", "2.0");
        b.put("id", id.copy());
        b.put("result", result);
        assert(b@ =~= seq![("jsonrpc"@, Tree::Str("2.0"@)), ("id"@, id@), ("result"@, result@)]);
        b.build()
    }

    /// The answer to a request of the host that cannot be met.
    pub fn respond_err(&self, id: &Json, message: &str) -> (r: Json)
        ensures
            r@ == Tree::Obj(
                seq![
                    ("jsonrpc"@, Tree::Str("2.0"@)),
                    ("id"@, id@),
                    (
                        "error"@,
                        Tree::Obj(
                            seq![
                                ("code"@, Tree::Neg(-32601i64)),
                                ("message"@, Tree::Str(message@)),
                            ],
                        ),
                    ),
                ],
            ),
    {
        let mut e = ObjectBuilder::new();
        e.put("code", Json::Neg(-32601));
        e.put_str("message", message);
        assert(e@ =~= seq![("code"@, Tree::Neg(-32601i64)), ("message"@, Tree::Str(message@))]);
        let mut b = ObjectBuilder::new();
        b.put_str("jsonrpc", "2.0");
        b.put("id", id.copy());
        b.put("error", e.build());
        assert(b@ =~= seq![
            ("jsonrpc"@, Tree::Str("2.0"@)),
            ("id"@, id@),
            (
                "error"@,
                Tree::Obj(
                    seq![("code"@, Tree::Neg(-32601i64)), ("message"@, Tree::Str(message@))],
                ),
            ),
        ]);
        b.build()
    }

    /// Tells the host the workspace; the root must be absolute.
    pub fn init(&self, root: &str) -> (r: Json)
        ensures
            r@ == notification("host/init"@, Tree::Obj(seq![("root"@, Tree::Str(root@))])),
    {
        self.notify("host/init", one_text("root", root))
    }

    /// Asks the host to start an extension.
    pub fn activate(&mut self, ext_path: &str) -> (r: (i64, Json))
        ensures
            r.0 == old(self)@,
            r.1@ == call(
                old(self)@,
                "activate"@,
                Tree::Obj(seq![("extensionPath"@, Tree::Str(ext_path@))]),
            ),
            final(self)@ == after(old(self)@),
    {
        self.request("activate", one_text("extensionPath", ext_path))
    }

    /// Tells the host that a document was opened.
    pub fn did_open(&self, uri: &str, language_id: &str, version: i32, text: &str) -> (r: Json)
        ensures
            r@ == notification(
                "workspace/didOpenTextDocument"@,
                Tree::Obj(
                    seq![
                        ("uri"@, Tree::Str(uri@)),
                        ("languageId"@, Tree::Str(language_id@)),
                        ("version"@, Tree::whole(version as i64)),
                        ("text"@, Tree::Str(text@)),
                    ],
                ),
            ),
    {
        let mut b = ObjectBuilder::new();
        b.put_str("uri", uri);
        b.put_str("languageId", language_id);
        b.put("version", Json::whole(version as i64));
        b.put_str("text", text);
        assert(b@ =~= seq![
            ("uri"@, Tree::Str(uri@)),
            ("languageId"@, Tree::Str(language_id@)),
            ("version"@, Tree::whole(version as i64)),
            ("text"@, Tree::Str(text@)),
        ]);
        self.notify("workspace/didOpenTextDocument", b.build())
    }

    /// Tells the host that a document was edited.
    pub fn did_change(&self, uri: &str, version: i32, text: &str) -> (r: Json)
        ensures
            r@ == notification(
                "workspace/didChangeTextDocument"@,
                Tree::Obj(
                    seq![
                        ("uri"@, Tree::Str(uri@)),
                        ("version"@, Tree::whole(version as i64)),
                        ("text"@, Tree::Str(text@)),
                    ],
                ),
            ),
    {
        let mut b = ObjectBuilder::new();
        b.put_str("uri", uri);
        b.put("version", Json::whole(version as i64));
        b.put_str("text", text);
        assert(b@ =~= seq![
            ("uri"@, Tree::Str(uri@)),
            ("version"@, Tree::whole(version as i64)),
            ("text"@, Tree::Str(text@)),
        ]);
        self.notify("workspace/didChangeTextDocument", b.build())
    }

    /// Asks a provider for what to show at a place.
    pub fn request_hover(&mut self, provider_id: i64, uri: &str, line: u32, character: u32) -> (r: (
        i64,
        Json,
    ))
        ensures
            r.0 == old(self)@,
            r.1@ == call(
                old(self)@,
                "hover/provide"@,
                Tree::Obj(
                    seq![
                        ("providerId"@, Tree::whole(provider_id)),
                        ("uri"@, Tree::Str(uri@)),
                        ("line"@, Tree::Pos(line as u64)),
                        ("character"@, Tree::Pos(character as u64)),
                    ],
                ),
            ),
            final(self)@ == after(old(self)@),
    {
        let mut b = ObjectBuilder::new();
        b.put("providerId", Json::whole(provider_id));
        b.put_str("uri", uri);
        b.put("line", Json::Pos(line as u64));
        b.put("character", Json::Pos(character as u64));
        assert(b@ =~= seq![
            ("providerId"@, Tree::whole(provider_id)),
            ("uri"@, Tree::Str(uri@)),
            ("line"@, Tree::Pos(line as u64)),
            ("character"@, Tree::Pos(character as u64)),
        ]);
        self.request("hover/provide", b.build())
    }

    /// Tells the host which editor is active.
    pub fn did_change_active(&self, uri: &str, language_id: &str) -> (r: Json)
        ensures
            r@ == notification(
                "editor/didChangeActive"@,
                Tree::Obj(
                    seq![("uri"@, Tree::Str(uri@)), ("languageId"@, Tree::Str(language_id@))],
                ),
            ),
    {
        let mut b = ObjectBuilder::new();
        b.put_str("uri", uri);
        b.put_str("languageId", language_id);
        assert(b@ =~= seq![("uri"@, Tree::Str(uri@)), ("languageId"@, Tree::Str(language_id@))]);
        self.notify("editor/didChangeActive", b.build())
    }

    /// Tells the host that a document was saved.
    pub fn did_save(&self, uri: &str) -> (r: Json)
        ensures
            r@ == notification(
                "workspace/didSaveTextDocument"@,
                Tree::Obj(seq![("uri"@, Tree::Str(uri@))]),
            ),
    {
        self.notify("workspace/didSaveTextDocument", one_text("uri", uri))
    }

    /// Runs a command that an extension registered.
    pub fn invoke_command(&mut self, command: &str) -> (r: (i64, Json))
        ensures
            r.0 == old(self)@,
            r.1@ == call(
                old(self)@,
                "command/invoke"@,
                Tree::Obj(
                    seq![("command"@, Tree::Str(command@)), ("args"@, Tree::Arr(Seq::empty()))],
                ),
            ),
            final(self)@ == after(old(self)@),
    {
        let none: Vec<Json> = Vec::new();
        assert(trees(none@) =~= Seq::<Tree>::empty());
        let mut b = ObjectBuilder::new();
        b.put_str("command", command);
        b.put("args", Json::list(none));
        assert(b@ =~= seq![
            ("command"@, Tree::Str(command@)),
            ("args"@, Tree::Arr(Seq::empty())),
        ]);
        self.request("command/invoke", b.build())
    }
}

/// One toolbar button that an extension puts at the right end of the tab bar.
pub struct TitleButton {
    pub command: String,
    /// When it is shown, as the extension wrote it.
    pub when: String,
    /// The dark variant of its icon, where that is a file.
    pub icon: Option<String>,
    pub title: String,
}

/// An extension that has code to run.
pub struct ExtInfo {
    pub path: String,
    pub name: String,
    pub activation_events: Vec<String>,
    /// Command ids and their titles.
    pub commands: Vec<(String, String)>,
    /// View ids and their names.
    pub views: Vec<(String, String)>,
    pub title_buttons: Vec<TitleButton>,
}

/// A button by its text.
pub struct ButtonView {
    pub command: Seq<char>,
    pub when: Seq<char>,
    pub icon: Option<Seq<char>>,
    pub title: Seq<char>,
}

/// An extension by its text.
#[verifier::ext_equal]
pub struct InfoView {
    pub path: Seq<char>,
    pub name: Seq<char>,
    pub activation_events: Seq<Seq<char>>,
    pub commands: Seq<(Seq<char>, Seq<char>)>,
    pub views: Seq<(Seq<char>, Seq<char>)>,
    pub title_buttons: Seq<ButtonView>,
}

impl View for TitleButton {
    type V = ButtonView;

    open spec fn view(&self) -> ButtonView {
        ButtonView {
            command: self.command@,
            when: self.when@,
            icon: match self.icon {
                Some(p) => Some(p@),
                None => None,
            },
            title: self.title@,
        }
    }
}

/// Pairs by their text.
pub open spec fn pair_views(v: Seq<(String, String)>) -> Seq<(Seq<char>, Seq<char>)> {
    Seq::new(v.len(), |i: int| (v[i].0@, v[i].1@))
}

/// Buttons by their text.
pub open spec fn button_views(v: Seq<TitleButton>) -> Seq<ButtonView> {
    Seq::new(v.len(), |i: int| v[i]@)
}

impl View for ExtInfo {
    type V = InfoView;

    open spec fn view(&self) -> InfoView {
        InfoView {
            path: self.path@,
            name: self.name@,
            activation_events: views(self.activation_events@),
            commands: pair_views(self.commands@),
            views: pair_views(self.views@),
            title_buttons: button_views(self.title_buttons@),
        }
    }
}

/// Extensions by their text.
pub open spec fn info_views(v: Seq<ExtInfo>) -> Seq<InfoView> {
    Seq::new(v.len(), |i: int| v[i]@)
}

/// A text in the extension's language: `%key%` stands for what the language file has
/// under `key`.
pub open spec fn localized(s: Seq<char>, nls: Option<Tree>) -> Seq<char> {
    if s.len() >= 2 && s[0] == '%' && s.last() == '%' {
        match nls {
            Some(t) => match t.str_at(s.subrange(1, s.len() - 1)) {
                Some(text) => text,
                None => s,
            },
            None => s,
        }
    } else {
        s
    }
}

fn localize(s: &str, nls: Option<&Json>) -> (r: String)
    ensures
        r@ == localized(s@, opt_tree(nls)),
{
    let v = chars_of(s);
    let n: usize = v.len();
    if n >= 2 && v[0] == '%' && v[n - 1] == '%' {
        if let Some(t) = nls {
            let key = text_of(&v, 1, n - 1);
            if let Some(text) = t.str_at(key.as_str()) {
                return text.to_owned();
            }
        }
    }
    s.to_owned()
}

/// The command that an entry declares, with its title.
pub open spec fn command_of(c: Tree, nls: Option<Tree>) -> Option<(Seq<char>, Seq<char>)> {
    match c.str_at("command"@) {
        Some(cmd) => Some((cmd, localized(text_or(c.get("title"@), cmd), nls))),
        None => None,
    }
}

/// The commands that the entries of a list declare.
pub open spec fn commands_in(v: Seq<Tree>, nls: Option<Tree>) -> Seq<(Seq<char>, Seq<char>)>
    decreases v.len(),
{
    if v.len() == 0 {
        Seq::empty()
    } else {
        let before = commands_in(v.drop_last(), nls);
        match command_of(v.last(), nls) {
            Some(c) => before.push(c),
            None => before,
        }
    }
}

fn read_commands(v: &Vec<Json>, nls: Option<&Json>) -> (r: Vec<(String, String)>)
    ensures
        pair_views(r@) == commands_in(trees(v@), opt_tree(nls)),
{
    let ghost tv = trees(v@);
    let mut out: Vec<(String, String)> = Vec::new();
    assert(pair_views(out@) =~= Seq::<(Seq<char>, Seq<char>)>::empty());
    let mut k: usize = 0;
    while k < v.len()
        invariant
            k <= v@.len(),
            tv == trees(v@),
            pair_views(out@) == commands_in(tv.take(k as int), opt_tree(nls)),
        decreases v.len() - k,
    {
        assert(tv.take(k + 1).drop_last() =~= tv.take(k as int));
        assert(tv.take(k + 1).last() == v@[k as int]@);
        let c = &v[k];
        let ghost before = pair_views(out@);
        if let Some(cmd) = c.str_at("command") {
            let title = get_text_or(c.get("title"), cmd);
            let shown = localize(title.as_str(), nls);
            out.push((cmd.to_owned(), shown));
            assert(pair_views(out@) =~= before.push((cmd@, shown@)));
        }
        k = k + 1;
    }
    assert(tv.take(k as int) =~= tv);
    out
}

/// The view that an entry declares, with its name; an empty name is as good as none.
pub open spec fn view_of(t: Tree, nls: Option<Tree>) -> Option<(Seq<char>, Seq<char>)> {
    match t.str_at("id"@) {
        Some(id) => {
            let name = match t.str_at("name"@) {
                Some(n) => if n.len() > 0 {
                    n
                } else {
                    id
                },
                None => id,
            };
            Some((id, localized(name, nls)))
        },
        None => None,
    }
}

/// The views that the entries of a list declare.
pub open spec fn views_in(v: Seq<Tree>, nls: Option<Tree>) -> Seq<(Seq<char>, Seq<char>)>
    decreases v.len(),
{
    if v.len() == 0 {
        Seq::empty()
    } else {
        let before = views_in(v.drop_last(), nls);
        match view_of(v.last(), nls) {
            Some(c) => before.push(c),
            None => before,
        }
    }
}

/// The views of all containers, in order.
pub open spec fn all_views(m: Seq<(Seq<char>, Tree)>, nls: Option<Tree>) -> Seq<
    (Seq<char>, Seq<char>),
>
    decreases m.len(),
{
    if m.len() == 0 {
        Seq::empty()
    } else {
        all_views(m.drop_last(), nls) + views_in(list_or_none(Some(m.last().1)), nls)
    }
}

fn add_views(out: &mut Vec<(String, String)>, v: &Vec<Json>, nls: Option<&Json>)
    ensures
        pair_views(final(out)@) == pair_views(old(out)@) + views_in(trees(v@), opt_tree(nls)),
{
    let ghost tv = trees(v@);
    let ghost start = pair_views(out@);
    let mut k: usize = 0;
    assert(start + Seq::<(Seq<char>, Seq<char>)>::empty() =~= start);
    while k < v.len()
        invariant
            k <= v@.len(),
            tv == trees(v@),
            pair_views(out@) == start + views_in(tv.take(k as int), opt_tree(nls)),
        decreases v.len() - k,
    {
        assert(tv.take(k + 1).drop_last() =~= tv.take(k as int));
        assert(tv.take(k + 1).last() == v@[k as int]@);
        let t = &v[k];
        let ghost before = pair_views(out@);
        if let Some(id) = t.str_at("id") {
            let name: String = match t.str_at("name") {
                Some(n) => if !n.is_empty() {
                    n.to_owned()
                } else {
                    id.to_owned()
                },
                None => id.to_owned(),
            };
            let shown = localize(name.as_str(), nls);
            out.push((id.to_owned(), shown));
            assert(pair_views(out@) =~= before.push((id@, shown@)));
            assert(before.push((id@, shown@)) =~= start + views_in(
                tv.take(k as int),
                opt_tree(nls),
            ).push((id@, shown@)));
        }
        k = k + 1;
    }
    assert(tv.take(k as int) =~= tv);
}

fn read_views(m: &Vec<(String, Json)>, nls: Option<&Json>) -> (r: Vec<(String, String)>)
    ensures
        pair_views(r@) == all_views(members(m@), opt_tree(nls)),
{
    let ghost mv = members(m@);
    let mut out: Vec<(String, String)> = Vec::new();
    assert(pair_views(out@) =~= Seq::<(Seq<char>, Seq<char>)>::empty());
    let mut k: usize = 0;
    while k < m.len()
        invariant
            k <= m@.len(),
            mv == members(m@),
            pair_views(out@) == all_views(mv.take(k as int), opt_tree(nls)),
        decreases m.len() - k,
    {
        assert(mv.take(k + 1).drop_last() =~= mv.take(k as int));
        assert(mv.take(k + 1).last() == mv[k as int]);
        let ghost before = pair_views(out@);
        match get_list(Some(&m[k].1)) {
            Some(v) => {
                add_views(&mut out, v, nls);
            },
            None => {
                assert(before + Seq::<(Seq<char>, Seq<char>)>::empty() =~= before);
            },
        }
        k = k + 1;
    }
    assert(mv.take(k as int) =~= mv);
    out
}

/// The first entry, from the `k`-th on, that declares a command.
pub open spec fn declaration(v: Seq<Tree>, command: Seq<char>, k: int) -> Option<Tree>
    decreases v.len() - k,
{
    if k >= v.len() {
        None
    } else if v[k].str_at("command"@) == Some(command) {
        Some(v[k])
    } else {
        declaration(v, command, k + 1)
    }
}

fn find_declaration<'a>(v: &'a Vec<Json>, command: &str) -> (r: Option<&'a Json>)
    ensures
        opt_tree(r) == declaration(trees(v@), command@, 0),
{
    let mut k: usize = 0;
    while k < v.len()
        invariant
            k <= v@.len(),
            declaration(trees(v@), command@, k as int) == declaration(trees(v@), command@, 0),
        decreases v.len() - k,
    {
        assert(trees(v@)[k as int] == v@[k as int]@);
        if let Some(c) = v[k].str_at("command") {
            if same(c, command) {
                return Some(&v[k]);
            }
        }
        k = k + 1;
    }
    None
}

/// Where the icon of a command is: the dark one of a pair, or the only one. Named
/// symbols are no files.
pub open spec fn icon_of(declared: Option<Tree>, dir: Seq<char>) -> Option<Seq<char>> {
    match under(declared, "icon"@) {
        Some(i) => {
            let rel = match i.str_at("dark"@) {
                Some(d) => Some(d),
                None => i.as_str(),
            };
            match rel {
                Some(s) => if begins(s, "$("@) {
                    None
                } else {
                    Some(joined_path(dir, without_leading(s, "./"@)))
                },
                None => None,
            }
        },
        None => None,
    }
}

fn find_icon(declared: Option<&Json>, dir: &str) -> (r: Option<String>)
    ensures
        (match r {
            Some(s) => Some(s@),
            None => None,
        }) == icon_of(opt_tree(declared), dir@),
{
    proof {
        reveal_strlit("./");
    }
    match under_key(declared, "icon") {
        Some(i) => {
            let rel = match i.str_at("dark") {
                Some(d) => Some(d),
                None => i.as_str(),
            };
            match rel {
                Some(s) => if starts_with(s, "$(") {
                    None
                } else {
                    let t = trim_start_matches(s, "./");
                    Some(join(dir, t.as_str()))
                },
                None => None,
            }
        },
        None => None,
    }
}

/// The button that a menu entry declares; only those of the navigation group are shown.
pub open spec fn button_of(
    item: Tree,
    commands: Seq<Tree>,
    dir: Seq<char>,
    nls: Option<Tree>,
) -> Option<ButtonView> {
    match (item.str_at("command"@), item.str_at("group"@)) {
        (Some(command), Some(group)) => if begins(group, "navigation"@) {
            let declared = declaration(commands, command, 0);
            Some(
                ButtonView {
                    command,
                    when: text_or(item.get("when"@), ""@),
                    icon: icon_of(declared, dir),
                    title: localized(text_or(under(declared, "title"@), command), nls),
                },
            )
        } else {
            None
        },
        _ => None,
    }
}

/// The buttons that the entries of a menu declare.
pub open spec fn buttons_in(
    v: Seq<Tree>,
    commands: Seq<Tree>,
    dir: Seq<char>,
    nls: Option<Tree>,
) -> Seq<ButtonView>
    decreases v.len(),
{
    if v.len() == 0 {
        Seq::empty()
    } else {
        let before = buttons_in(v.drop_last(), commands, dir, nls);
        match button_of(v.last(), commands, dir, nls) {
            Some(b) => before.push(b),
            None => before,
        }
    }
}

fn read_button(item: &Json, commands: &Vec<Json>, dir: &str, nls: Option<&Json>) -> (r: Option<
    TitleButton,
>)
    ensures
        match r {
            Some(b) => button_of(item@, trees(commands@), dir@, opt_tree(nls)) == Some(b@),
            None => button_of(item@, trees(commands@), dir@, opt_tree(nls)) is None,
        },
{
    let command = match item.str_at("command") {
        Some(c) => c,
        None => {
            return None;
        },
    };
    let group = match item.str_at("group") {
        Some(g) => g,
        None => {
            return None;
        },
    };
    if !starts_with(group, "navigation") {
        return None;
    }
    let declared = find_declaration(commands, command);
    let title = get_text_or(under_key(declared, "title"), command);
    Some(
        TitleButton {
            command: command.to_owned(),
            when: get_text_or(item.get("when"), ""),
            icon: find_icon(declared, dir),
            title: localize(title.as_str(), nls),
        },
    )
}

fn read_buttons(v: &Vec<Json>, commands: &Vec<Json>, dir: &str, nls: Option<&Json>) -> (r: Vec<
    TitleButton,
>)
    ensures
        button_views(r@) == buttons_in(trees(v@), trees(commands@), dir@, opt_tree(nls)),
{
    let ghost tv = trees(v@);
    let mut out: Vec<TitleButton> = Vec::new();
    assert(button_views(out@) =~= Seq::<ButtonView>::empty());
    let mut k: usize = 0;
    while k < v.len()
        invariant
            k <= v@.len(),
            tv == trees(v@),
            button_views(out@) == buttons_in(
                tv.take(k as int),
                trees(commands@),
                dir@,
                opt_tree(nls),
            ),
        decreases v.len() - k,
    {
        assert(tv.take(k + 1).drop_last() =~= tv.take(k as int));
        assert(tv.take(k + 1).last() == v@[k as int]@);
        let ghost before = button_views(out@);
        if let Some(b) = read_button(&v[k], commands, dir, nls) {
            out.push(b);
            assert(button_views(out@) =~= before.push(b@));
        }
        k = k + 1;
    }
    assert(tv.take(k as int) =~= tv);
    out
}

/// The extension that a manifest declares; none without code to run.
pub open spec fn info_of(path: Seq<char>, pkg: Tree, nls: Option<Tree>) -> Option<InfoView> {
    let gives = pkg.get("contributes"@);
    let commands = list_or_none(under(gives, "commands"@));
    if pkg.str_at("main"@) is None {
        None
    } else {
        Some(
            InfoView {
                path,
                name: text_or(pkg.get("name"@), "ext"@),
                activation_events: texts_in(list_or_none(pkg.get("activationEvents"@))),
                commands: commands_in(commands, nls),
                views: match under(gives, "views"@) {
                    Some(Tree::Obj(m)) => all_views(m, nls),
                    _ => Seq::empty(),
                },
                title_buttons: buttons_in(
                    list_or_none(under(under(gives, "menus"@), "editor/title"@)),
                    commands,
                    path,
                    nls,
                ),
            },
        )
    }
}

/// Reads the extension in the directory `path` from its manifest and language file.
pub fn read_manifest(path: &str, pkg: &Json, nls: Option<&Json>) -> (r: Option<ExtInfo>)
    ensures
        match r {
            Some(e) => info_of(path@, pkg@, opt_tree(nls)) == Some(e@),
            None => info_of(path@, pkg@, opt_tree(nls)) is None,
        },
{
    if pkg.str_at("main").is_none() {
        return None;
    }
    let gives = pkg.get("contributes");
    let nothing: Vec<Json> = Vec::new();
    assert(trees(nothing@) =~= Seq::<Tree>::empty());
    let declared: &Vec<Json> = match get_list(under_key(gives, "commands")) {
        Some(v) => v,
        None => &nothing,
    };
    let activation_events: Vec<String> = match get_list(pkg.get("activationEvents")) {
        Some(v) => get_texts(v),
        None => Vec::new(),
    };
    assert(views(activation_events@) =~= texts_in(list_or_none(pkg@.get("activationEvents"@))));
    let shown: Vec<(String, String)> = match under_key(gives, "views") {
        Some(Json::Obj(m)) => {
            assert(Json::Obj(*m)@->Obj_0 =~= members(m@));
            read_views(m, nls)
        },
        _ => Vec::new(),
    };
    let menu: &Vec<Json> = match get_list(under_key(under_key(gives, "menus"), "editor/title")) {
        Some(v) => v,
        None => &nothing,
    };
    let e = ExtInfo {
        path: path.to_owned(),
        name: get_text_or(pkg.get("name"), "ext"),
        activation_events,
        commands: read_commands(declared, nls),
        views: shown,
        title_buttons: read_buttons(menu, declared, path, nls),
    };
    assert(Some(e@) =~= info_of(path@, pkg@, opt_tree(nls)));
    Some(e)
}

/// What was found in a directory that may hold an extension: the texts of its
/// `package.json` and `package.nls.json`, where they could be read.
pub struct Found {
    pub path: String,
    pub package: Option<String>,
    pub nls: Option<String>,
}

/// The extension that was found, if it is one.
pub open spec fn info_of_found(f: Found) -> Option<InfoView> {
    match f.package {
        Some(text) => match read(text@) {
            Some(pkg) => info_of(
                f.path@,
                pkg,
                match f.nls {
                    Some(t) => read(t@),
                    None => None,
                },
            ),
            None => None,
        },
        None => None,
    }
}

/// The extensions among what was found.
pub open spec fn infos_in(v: Seq<Found>) -> Seq<InfoView>
    decreases v.len(),
{
    if v.len() == 0 {
        Seq::empty()
    } else {
        let before = infos_in(v.drop_last());
        match info_of_found(v.last()) {
            Some(i) => before.push(i),
            None => before,
        }
    }
}

/// Reads the extensions among what was found: those with a manifest that names code to
/// run.
pub fn discover(found: &Vec<Found>) -> (r: Vec<ExtInfo>)
    ensures
        info_views(r@) == infos_in(found@),
{
    let mut out: Vec<ExtInfo> = Vec::new();
    assert(info_views(out@) =~= Seq::<InfoView>::empty());
    let mut k: usize = 0;
    while k < found.len()
        invariant
            k <= found@.len(),
            info_views(out@) == infos_in(found@.take(k as int)),
        decreases found.len() - k,
    {
        assert(found@.take(k + 1).drop_last() =~= found@.take(k as int));
        let f = &found[k];
        let ghost before = info_views(out@);
        if let Some(text) = &f.package {
            if let Some(pkg) = parse(text.as_str()) {
                let nls: Option<Json> = match &f.nls {
                    Some(t) => parse(t.as_str()),
                    None => None,
                };
                let one = match &nls {
                    Some(j) => read_manifest(f.path.as_str(), &pkg, Some(j)),
                    None => read_manifest(f.path.as_str(), &pkg, None),
                };
                if let Some(e) = one {
                    out.push(e);
                    assert(info_views(out@) =~= before.push(e@));
                }
            }
        }
        k = k + 1;
    }
    assert(found@.take(k as int) =~= found@);
    out
}

/// Where the host script is looked for: in the directory of the executable and the two
/// above it, in the current directory, beside the executable that a launcher points back
/// to, and where it is installed.
pub fn script_candidates(
    exe_dir: Option<&str>,
    up: Option<&str>,
    up2: Option<&str>,
    cwd: Option<&str>,
    canonical_dir: Option<&str>,
) -> (r: Vec<String>)
    ensures
        views(r@) == at_dir(exe_dir, "ext-host/main.js"@) + at_dir(up, "ext-host/main.js"@) + at_dir(
            up2,
            "ext-host/main.js"@,
        ) + at_dir(cwd, "ext-host/main.js"@) + at_dir(canonical_dir, "ext-host/main.js"@) + at_dir(
            up,
            "share/aether/ext-host/main.js"@,
        ) + seq!["/usr/share/aether/ext-host/main.js"@],
{
    let mut out: Vec<String> = Vec::new();
    assert(views(out@) =~= Seq::<Seq<char>>::empty());
    add_at(&mut out, exe_dir, "ext-host/main.js");
    add_at(&mut out, up, "ext-host/main.js");
    add_at(&mut out, up2, "ext-host/main.js");
    add_at(&mut out, cwd, "ext-host/main.js");
    add_at(&mut out, canonical_dir, "ext-host/main.js");
    add_at(&mut out, up, "share/aether/ext-host/main.js");
    let ghost before = views(out@);
    out.push("/usr/share/aether/ext-host/main.js".to_owned());
    assert(views(out@) =~= before + seq!["/usr/share/aether/ext-host/main.js"@]);
    assert(views(out@) =~= at_dir(exe_dir, "ext-host/main.js"@) + at_dir(up, "ext-host/main.js"@)
        + at_dir(up2, "ext-host/main.js"@) + at_dir(cwd, "ext-host/main.js"@) + at_dir(
        canonical_dir,
        "ext-host/main.js"@,
    ) + at_dir(up, "share/aether/ext-host/main.js"@) + seq!["/usr/share/aether/ext-host/main.js"@]);
    out
}

/// The path `rel` in a directory, where there is one.
pub open spec fn at_dir(dir: Option<&str>, rel: Seq<char>) -> Seq<Seq<char>> {
    match dir {
        Some(d) => seq![joined_path(d@, rel)],
        None => Seq::empty(),
    }
}

fn add_at(out: &mut Vec<String>, dir: Option<&str>, rel: &str)
    ensures
        views(final(out)@) == views(old(out)@) + at_dir(dir, rel@),
{
    let ghost before = views(out@);
    if let Some(d) = dir {
        let p = join(d, rel);
        out.push(p);
        assert(views(out@) =~= before + seq![p@]);
    } else {
        assert(before + Seq::<Seq<char>>::empty() =~= before);
    }
}

/// Position of the first place that exists, from `k` on.
pub open spec fn first_there(there: Seq<bool>, k: int) -> int
    decreases there.len() - k,
{
    if k >= there.len() {
        there.len() as int
    } else if there[k] {
        k
    } else {
        first_there(there, k + 1)
    }
}

/// The first candidate that exists.
pub fn host_script(candidates: &Vec<String>, there: &Vec<bool>) -> (r: Option<String>)
    requires
        candidates@.len() == there@.len(),
    ensures
        ({
            let k = first_there(there@, 0);
            match r {
                Some(p) => k < there@.len() && p@ == candidates@[k]@,
                None => k == there@.len(),
            }
        }),
{
    let mut k: usize = 0;
    while k < there.len()
        invariant
            k <= there@.len(),
            candidates@.len() == there@.len(),
            first_there(there@, k as int) == first_there(there@, 0),
        decreases there.len() - k,
    {
        if there[k] {
            return Some(candidates[k].clone());
        }
        k = k + 1;
    }
    None
}

/// The directory of a path that ends in a name: what stands before the last slash.
pub open spec fn directory_of(p: Seq<char>) -> Seq<char> {
    let k = crate::paths::last_char(p, '/', p.len() as int);
    if k < 0 {
        Seq::empty()
    } else if k == 0 {
        "/"@
    } else {
        p.subrange(0, k)
    }
}

/// The directory of the bundled extensions: that of the host script.
pub fn bundled_extensions_dir(script: Option<&str>) -> (r: Option<String>)
    ensures
        match (r, script) {
            (Some(d), Some(p)) => d@ == directory_of(p@),
            (None, None) => true,
            _ => false,
        },
{
    match script {
        Some(p) => {
            let v = chars_of(p);
            let n: usize = v.len();
            let mut k: usize = n;
            while k > 0 && v[k - 1] != '/'
                invariant
                    n == v@.len(),
                    k <= n,
                    crate::paths::last_char(v@, '/', k as int) == crate::paths::last_char(
                        v@,
                        '/',
                        n as int,
                    ),
                decreases k,
            {
                k = k - 1;
            }
            if k == 0 {
                assert(directory_of(p@) =~= Seq::<char>::empty());
                Some(String::new())
            } else if k == 1 {
                Some("/".to_owned())
            } else {
                Some(text_of(&v, 0, k - 1))
            }
        },
        None => None,
    }
}

/// Two numbers as thirty-two hexadecimal digits: the token of a host.
pub fn token_text(a: u64, b: u64) -> (r: String)
    ensures
        r@ == hex(a as nat, 16) + hex(b as nat, 16),
{
    let mut out = write_hex(a, 16);
    let second = write_hex(b, 16);
    out.append(second.as_str());
    out
}

/// The magnitude of a number.
pub open spec fn magnitude(n: i64) -> nat {
    if n < 0 {
        (-n) as nat
    } else {
        n as nat
    }
}

/// The name of the file through which a web view hands over its frames.
pub fn frame_file(pid: u32, instance_id: i64) -> (r: String)
    ensures
        r@ == "/dev/shm/aether-wv-"@ + decimal(pid as nat) + "-"@ + decimal(magnitude(instance_id)),
{
    let mut out = "/dev/shm/aether-wv-".to_owned();
    let p = write_decimal(pid as u64);
    out.append(p.as_str());
    out.append("-");
    let m: u64 = if instance_id == i64::MIN {
        9223372036854775808u64
    } else if instance_id < 0 {
        (-instance_id) as u64
    } else {
        instance_id as u64
    };
    let n = write_decimal(m);
    out.append(n.as_str());
    out
}

/// The first message to a web view.
pub open spec fn view_init(
    title: Seq<char>,
    embed: bool,
    shm: Seq<char>,
    roots: Seq<Seq<char>>,
) -> Tree {
    Tree::Obj(
        seq![
            ("cmd"@, Tree::Str("init"@)),
            ("title"@, Tree::Str(title)),
            ("width"@, Tree::Pos(520)),
            ("height"@, Tree::Pos(760)),
            ("embed"@, Tree::Bool(embed)),
            ("shm"@, Tree::Str(shm)),
            ("roots"@, Tree::Arr(Seq::new(roots.len(), |i: int| Tree::Str(roots[i])))),
        ],
    )
}

/// The message that tells a web view its place.
pub open spec fn bounds_tree(x: i32, y: i32, w: u32, h: u32, zoom: Tree) -> Tree {
    Tree::Obj(
        seq![
            ("cmd"@, Tree::Str("bounds"@)),
            ("x"@, Tree::whole(x as i64)),
            ("y"@, Tree::whole(y as i64)),
            ("w"@, Tree::Pos(w as u64)),
            ("h"@, Tree::Pos(h as u64)),
            ("zoom"@, zoom),
        ],
    )
}

/// The message that shows or hides a web view.
pub open spec fn visible_tree(value: bool) -> Tree {
    Tree::Obj(seq![("cmd"@, Tree::Str("visible"@)), ("value"@, Tree::Bool(value))])
}

/// The message that gives a web view its page.
pub open spec fn html_tree(html: Seq<char>) -> Tree {
    Tree::Obj(seq![("cmd"@, Tree::Str("html"@)), ("html"@, Tree::Str(html))])
}

/// The message that hands data to the page of a web view.
pub open spec fn post_tree(data: Tree) -> Tree {
    Tree::Obj(seq![("cmd"@, Tree::Str("post"@)), ("data"@, data)])
}

/// A web view in a process of its own.
pub struct WebviewProc {
    pub instance_id: i64,
    pub view_id: String,
    pub title: String,
    /// The file through which it hands over its frames.
    pub shm_path: String,
    /// The display that it draws on, where it is embedded.
    pub display: u32,
}

impl WebviewProc {
    /// A web view of an extension, started by a process.
    pub fn start(view_id: &str, instance_id: i64, title: &str, pid: u32, display: u32) -> (r:
        WebviewProc)
        ensures
            r.instance_id == instance_id,
            r.view_id@ == view_id@,
            r.title@ == title@,
            r.shm_path@ == "/dev/shm/aether-wv-"@ + decimal(pid as nat) + "-"@ + decimal(
                magnitude(instance_id),
            ),
            r.display == display,
    {
        WebviewProc {
            instance_id,
            view_id: view_id.to_owned(),
            title: title.to_owned(),
            shm_path: frame_file(pid, instance_id),
            display,
        }
    }

    /// The first message to a web view: its title, its size, whether it is embedded, the file
    /// for its frames, and the directories it may read.
    pub fn init_message(&self, embed: bool, roots: &Vec<String>) -> (r: Json)
        ensures
            r@ == view_init(self.title@, embed, self.shm_path@, views(roots@)),
    {
        let ghost want = view_init(self.title@, embed, self.shm_path@, views(roots@))->Obj_0[6].1->Arr_0;
        let mut list: Vec<Json> = Vec::new();
        let mut k: usize = 0;
        while k < roots.len()
            invariant
                k <= roots@.len(),
                want == Seq::new(views(roots@).len(), |i: int| Tree::Str(views(roots@)[i])),
                trees(list@) == want.take(k as int),
            decreases roots.len() - k,
        {
            let ghost before = trees(list@);
            list.push(Json::text(roots[k].as_str()));
            assert(trees(list@) =~= before.push(want[k as int]));
            assert(want.take(k + 1) =~= want.take(k as int).push(want[k as int]));
            k = k + 1;
        }
        assert(want.take(k as int) =~= want);
        let mut b = ObjectBuilder::new();
        b.put_str("cmd", "init");
        b.put_str("title", self.title.as_str());
        b.put("width", Json::Pos(520));
        b.put("height", Json::Pos(760));
        b.put("embed", Json::Bool(embed));
        b.put_str("shm", self.shm_path.as_str());
        b.put("roots", Json::list(list));
        assert(b@ =~= view_init(self.title@, embed, self.shm_path@, views(roots@))->Obj_0);
        b.build()
    }

    /// A motion of the pointer, for a web view. Places are numbers, whole or not.
    pub fn input_motion(&self, x: Json, y: Json, state: u32) -> (r: Json)
        ensures
            r@ == Tree::Obj(
                seq![
                    ("cmd"@, Tree::Str("input"@)),
                    ("kind"@, Tree::Str("motion"@)),
                    ("x"@, x@),
                    ("y"@, y@),
                    ("state"@, Tree::Pos(state as u64)),
                ],
            ),
    {
        let mut b = ObjectBuilder::new();
        b.put_str("cmd", "input");
        b.put_str("kind", "motion");
        b.put("x", x);
        b.put("y", y);
        b.put("state", Json::Pos(state as u64));
        assert(b@ =~= seq![
            ("cmd"@, Tree::Str("input"@)),
            ("kind"@, Tree::Str("motion"@)),
            ("x"@, x@),
            ("y"@, y@),
            ("state"@, Tree::Pos(state as u64)),
        ]);
        b.build()
    }

    /// A mouse button, for a web view.
    pub fn input_button(&self, x: Json, y: Json, button: u32, press: bool, state: u32) -> (r: Json)
        ensures
            r@ == Tree::Obj(
                seq![
                    ("cmd"@, Tree::Str("input"@)),
                    ("kind"@, Tree::Str("button"@)),
                    ("x"@, x@),
                    ("y"@, y@),
                    ("button"@, Tree::Pos(button as u64)),
                    ("press"@, Tree::Bool(press)),
                    ("state"@, Tree::Pos(state as u64)),
                ],
            ),
    {
        let mut b = ObjectBuilder::new();
        b.put_str("cmd", "input");
        b.put_str("kind", "button");
        b.put("x", x);
        b.put("y", y);
        b.put("button", Json::Pos(button as u64));
        b.put("press", Json::Bool(press));
        b.put("state", Json::Pos(state as u64));
        assert(b@ =~= seq![
            ("cmd"@, Tree::Str("input"@)),
            ("kind"@, Tree::Str("button"@)),
            ("x"@, x@),
            ("y"@, y@),
            ("button"@, Tree::Pos(button as u64)),
            ("press"@, Tree::Bool(press)),
            ("state"@, Tree::Pos(state as u64)),
        ]);
        b.build()
    }

    /// A turn of the wheel, for a web view.
    pub fn input_scroll(&self, x: Json, y: Json, dx: Json, dy: Json, state: u32) -> (r: Json)
        ensures
            r@ == Tree::Obj(
                seq![
                    ("cmd"@, Tree::Str("input"@)),
                    ("kind"@, Tree::Str("scroll"@)),
                    ("x"@, x@),
                    ("y"@, y@),
                    ("dx"@, dx@),
                    ("dy"@, dy@),
                    ("state"@, Tree::Pos(state as u64)),
                ],
            ),
    {
        let mut b = ObjectBuilder::new();
        b.put_str("cmd", "input");
        b.put_str("kind", "scroll");
        b.put("x", x);
        b.put("y", y);
        b.put("dx", dx);
        b.put("dy", dy);
        b.put("state", Json::Pos(state as u64));
        assert(b@ =~= seq![
            ("cmd"@, Tree::Str("input"@)),
            ("kind"@, Tree::Str("scroll"@)),
            ("x"@, x@),
            ("y"@, y@),
            ("dx"@, dx@),
            ("dy"@, dy@),
            ("state"@, Tree::Pos(state as u64)),
        ]);
        b.build()
    }

    /// A key, for a web view.
    pub fn input_key(&self, keyval: u32, press: bool, state: u32) -> (r: Json)
        ensures
            r@ == Tree::Obj(
                seq![
                    ("cmd"@, Tree::Str("input"@)),
                    ("kind"@, Tree::Str("key"@)),
                    ("keyval"@, Tree::Pos(keyval as u64)),
                    ("press"@, Tree::Bool(press)),
                    ("state"@, Tree::Pos(state as u64)),
                ],
            ),
    {
        let mut b = ObjectBuilder::new();
        b.put_str("cmd", "input");
        b.put_str("kind", "key");
        b.put("keyval", Json::Pos(keyval as u64));
        b.put("press", Json::Bool(press));
        b.put("state", Json::Pos(state as u64));
        assert(b@ =~= seq![
            ("cmd"@, Tree::Str("input"@)),
            ("kind"@, Tree::Str("key"@)),
            ("keyval"@, Tree::Pos(keyval as u64)),
            ("press"@, Tree::Bool(press)),
            ("state"@, Tree::Pos(state as u64)),
        ]);
        b.build()
    }

    /// Where a docked web view stands; the zoom is that of the editor.
    pub fn set_bounds(&self, x: i32, y: i32, w: u32, h: u32, zoom: Json) -> (r: Json)
        ensures
            r@ == bounds_tree(x, y, w, h, zoom@),
    {
        let mut b = ObjectBuilder::new();
        b.put_str("cmd", "bounds");
        b.put("x", Json::whole(x as i64));
        b.put("y", Json::whole(y as i64));
        b.put("w", Json::Pos(w as u64));
        b.put("h", Json::Pos(h as u64));
        b.put("zoom", zoom);
        assert(b@ =~= seq![
            ("cmd"@, Tree::Str("bounds"@)),
            ("x"@, Tree::whole(x as i64)),
            ("y"@, Tree::whole(y as i64)),
            ("w"@, Tree::Pos(w as u64)),
            ("h"@, Tree::Pos(h as u64)),
            ("zoom"@, zoom@),
        ]);
        b.build()
    }

    /// Shows or hides a web view.
    pub fn set_visible(&self, value: bool) -> (r: Json)
        ensures
            r@ == visible_tree(value),
    {
        let mut b = ObjectBuilder::new();
        b.put_str("cmd", "visible");
        b.put("value", Json::Bool(value));
        assert(b@ =~= seq![("cmd"@, Tree::Str("visible"@)), ("value"@, Tree::Bool(value))]);
        b.build()
    }

    /// The page of a web view.
    pub fn set_html(&self, html: &str) -> (r: Json)
        ensures
            r@ == html_tree(html@),
    {
        let mut b = ObjectBuilder::new();
        b.put_str("cmd", "html");
        b.put_str("html", html);
        assert(b@ =~= seq![("cmd"@, Tree::Str("html"@)), ("html"@, Tree::Str(html@))]);
        b.build()
    }

    /// A message to the page of a web view.
    pub fn post(&self, data: &Json) -> (r: Json)
        ensures
            r@ == post_tree(data@),
    {
        let mut b = ObjectBuilder::new();
        b.put_str("cmd", "post");
        b.put("data", data.copy());
        assert(b@ =~= seq![("cmd"@, Tree::Str("post"@)), ("data"@, data@)]);
        b.build()
    }
}

/// A text between percent signs is looked up among the translations and stands for what is found
/// there; every other text, and one that is not found, stays as it is.
pub proof fn law_texts_are_translated(key: Seq<char>, text: Seq<char>, nls: Tree)
    ensures
        nls.get(key) == Some(Tree::Str(text)) ==> localized(
            seq!['%'] + key + seq!['%'],
            Some(nls),
        ) == text,
        nls.get(key) is None ==> localized(seq!['%'] + key + seq!['%'], Some(nls)) == seq!['%'] + key
            + seq!['%'],
        localized(text, None) == text,
        text.len() > 0 && text[0] != '%' ==> localized(text, Some(nls)) == text,
{
    let s = seq!['%'] + key + seq!['%'];
    assert(s.subrange(1, s.len() - 1) =~= key);
}

proof fn lemma_commands(v: Seq<Tree>, nls: Option<Tree>)
    ensures
        commands_in(v, nls).len() <= v.len(),
        forall|i: int|
            0 <= i < v.len() && (#[trigger] v[i]).str_at("command"@) is Some ==> exists|k: int|
                0 <= k < commands_in(v, nls).len() && (#[trigger] commands_in(v, nls)[k]).0 == v[i].str_at(
                    "command"@,
                )->0 && commands_in(v, nls)[k].1 == localized(
                    text_or(v[i].get("title"@), v[i].str_at("command"@)->0),
                    nls,
                ),
        forall|k: int|
            0 <= k < commands_in(v, nls).len() ==> exists|i: int|
                0 <= i < v.len() && (#[trigger] v[i]).str_at("command"@) == Some(
                    (#[trigger] commands_in(v, nls)[k]).0,
                ),
    decreases v.len(),
{
    if v.len() > 0 {
        let front = v.drop_last();
        lemma_commands(front, nls);
        let before = commands_in(front, nls);
        let all = commands_in(v, nls);
        assert(forall|k: int| 0 <= k < before.len() ==> all[k] == before[k]);
        assert forall|i: int| 0 <= i < v.len() && (#[trigger] v[i]).str_at("command"@) is Some implies exists|k: int|
            0 <= k < all.len() && (#[trigger] all[k]).0 == v[i].str_at("command"@)->0 && all[k].1
                == localized(text_or(v[i].get("title"@), v[i].str_at("command"@)->0), nls) by {
            if i < front.len() {
                assert(front[i] == v[i]);
                let k = choose|k: int|
                    0 <= k < before.len() && (#[trigger] before[k]).0 == v[i].str_at("command"@)->0
                        && before[k].1 == localized(
                        text_or(v[i].get("title"@), v[i].str_at("command"@)->0),
                        nls,
                    );
                assert(all[k] == before[k]);
            } else {
                assert(all[all.len() - 1].0 == v[i].str_at("command"@)->0);
            }
        }
        assert forall|k: int| 0 <= k < all.len() implies exists|i: int|
            0 <= i < v.len() && (#[trigger] v[i]).str_at("command"@) == Some((#[trigger] all[k]).0) by {
            if k < before.len() {
                let i = choose|i: int|
                    0 <= i < front.len() && (#[trigger] front[i]).str_at("command"@) == Some(before[k].0);
                assert(v[i] == front[i]);
            } else {
                assert(v[v.len() - 1].str_at("command"@) == Some(all[k].0));
            }
        }
    }
}

/// An extension gives the commands that its manifest lists, each under its title, or under its own
/// name where it has none; what names no command is passed over.
pub proof fn law_listed_commands_are_given(
    path: Seq<char>,
    pkg: Tree,
    nls: Option<Tree>,
    v: Seq<Tree>,
    i: int,
    command: Seq<char>,
    title: Seq<char>,
)
    requires
        pkg.str_at("main"@) is Some,
        pkg.get("contributes"@) is Some,
        pkg.get("contributes"@)->0.get("commands"@) == Some(Tree::Arr(v)),
        0 <= i < v.len(),
        v[i].get("command"@) == Some(Tree::Str(command)),
    ensures
        info_of(path, pkg, nls) is Some,
        v[i].get("title"@) == Some(Tree::Str(title)) ==> info_of(path, pkg, nls)->0.commands.contains(
            (command, localized(title, nls)),
        ),
        v[i].get("title"@) is None ==> info_of(path, pkg, nls)->0.commands.contains(
            (command, localized(command, nls)),
        ),
        info_of(path, pkg, nls)->0.commands.len() <= v.len(),
        forall|k: int|
            0 <= k < info_of(path, pkg, nls)->0.commands.len() ==> exists|j: int|
                0 <= j < v.len() && (#[trigger] v[j]).str_at("command"@) == Some(
                    (#[trigger] info_of(path, pkg, nls)->0.commands[k]).0,
                ),
{
    lemma_commands(v, nls);
    let all = commands_in(v, nls);
    assert(info_of(path, pkg, nls)->0.commands == all);
    assert(v[i].str_at("command"@) is Some);
    let k = choose|k: int|
        0 <= k < all.len() && (#[trigger] all[k]).0 == v[i].str_at("command"@)->0 && all[k].1
            == localized(text_or(v[i].get("title"@), v[i].str_at("command"@)->0), nls);
    assert(all[k] == (all[k].0, all[k].1));
}

/// An extension without a main file is none; one that has it bears its own name and the events that
/// it starts on, in order.
pub proof fn law_extensions_are_told(
    path: Seq<char>,
    pkg: Tree,
    nls: Option<Tree>,
    name: Seq<char>,
    events: Seq<Tree>,
)
    requires
        pkg.get("name"@) == Some(Tree::Str(name)),
        pkg.get("activationEvents"@) == Some(Tree::Arr(events)),
    ensures
        pkg.get("main"@) is None ==> info_of(path, pkg, nls) is None,
        pkg.str_at("main"@) is Some ==> info_of(path, pkg, nls) is Some,
        pkg.str_at("main"@) is Some ==> info_of(path, pkg, nls)->0.path == path,
        pkg.str_at("main"@) is Some ==> info_of(path, pkg, nls)->0.name == name,
        pkg.str_at("main"@) is Some ==> info_of(path, pkg, nls)->0.activation_events == texts_in(
            events,
        ),
{
}

/// A view bears its name, or its id where the name is empty or missing.
pub proof fn law_views_are_named(v: Tree, rest: Seq<Tree>, id: Seq<char>, name: Seq<char>)
    requires
        v.get("id"@) == Some(Tree::Str(id)),
        name.len() > 0,
    ensures
        v.get("name"@) == Some(Tree::Str(name)) ==> views_in(rest.push(v), None) == views_in(
            rest,
            None,
        ).push((id, name)),
        v.get("name"@) is None || v.get("name"@) == Some(Tree::Str(Seq::empty())) ==> views_in(
            rest.push(v),
            None,
        ) == views_in(rest, None).push((id, id)),
{
    assert(rest.push(v).drop_last() =~= rest);
}

proof fn lemma_declaration(v: Seq<Tree>, command: Seq<char>, k: int)
    requires
        0 <= k <= v.len(),
    ensures
        match declaration(v, command, k) {
            Some(t) => exists|i: int|
                k <= i < v.len() && #[trigger] v[i] == t && t.str_at("command"@) == Some(command),
            None => forall|i: int|
                k <= i < v.len() ==> (#[trigger] v[i]).str_at("command"@) != Some(command),
        },
    decreases v.len() - k,
{
    if k < v.len() {
        if v[k].str_at("command"@) == Some(command) {
            assert(v[k] == declaration(v, command, k)->0);
        } else {
            lemma_declaration(v, command, k + 1);
        }
    }
}

/// A button of the title bar is one that stands among the navigation; it runs its command, shows
/// the title that the command was declared with and is shown as its condition says.
pub proof fn law_buttons_stand_in_the_navigation(
    item: Tree,
    commands: Seq<Tree>,
    dir: Seq<char>,
    command: Seq<char>,
    group: Seq<char>,
    when: Seq<char>,
)
    requires
        item.get("command"@) == Some(Tree::Str(command)),
        item.get("group"@) == Some(Tree::Str(group)),
    ensures
        !begins(group, "navigation"@) ==> button_of(item, commands, dir, None) is None,
        begins(group, "navigation"@) ==> match button_of(item, commands, dir, None) {
            Some(b) => {
                &&& b.command == command
                &&& item.get("when"@) == Some(Tree::Str(when)) ==> b.when == when
                &&& item.get("when"@) is None ==> b.when.len() == 0
                &&& (forall|i: int|
                    0 <= i < commands.len() ==> (#[trigger] commands[i]).str_at("command"@) != Some(
                        command,
                    )) ==> b.title == command && b.icon is None
                &&& (exists|i: int|
                    0 <= i < commands.len() && (#[trigger] commands[i]).str_at("command"@) == Some(
                        command,
                    )) ==> exists|i: int|
                    0 <= i < commands.len() && (#[trigger] commands[i]).str_at("command"@) == Some(
                        command,
                    ) && (commands[i].str_at("title"@) matches Some(t) ==> b.title == t)
            },
            None => false,
        },
{
    reveal_strlit("");
    lemma_declaration(commands, command, 0);
    if let Some(t) = declaration(commands, command, 0) {
        let i = choose|i: int|
            0 <= i < commands.len() && #[trigger] commands[i] == t && t.str_at("command"@) == Some(
                command,
            );
        assert(commands[i].str_at("command"@) == Some(command));
    }
}

/// The icon of a command is its dark variant, or its only one, below the folder of the extension;
/// one of the built-in icons is no file.
pub proof fn law_icons_are_files_of_the_extension(
    declared: Tree,
    icon: Tree,
    dir: Seq<char>,
    s: Seq<char>,
)
    requires
        declared.get("icon"@) == Some(icon),
        icon.get("dark"@) == Some(Tree::Str(s)) || icon == Tree::Str(s),
        s.len() > 0,
        s[0] != '.',
    ensures
        s[0] != '$' ==> icon_of(Some(declared), dir) == Some(joined_path(dir, s)),
        s.len() > 1 && s[0] == '$' && s[1] == '(' ==> icon_of(Some(declared), dir) is None,
{
    reveal_strlit("$(");
    reveal_strlit("./");
    if begins(s, "./"@) {
        assert(s.subrange(0, 2)[0] == s[0]);
    }
    assert(without_leading(s, "./"@) == s);
    if begins(s, "$("@) {
        assert(s.subrange(0, 2)[0] == s[0]);
    }
    if s.len() > 1 && s[0] == '$' && s[1] == '(' {
        assert(s.subrange(0, 2) =~= "$("@);
    }
}

/// Every folder with a readable manifest of an extension gives that extension, and no other does.
pub proof fn law_extensions_are_found(v: Seq<Found>)
    ensures
        infos_in(v).len() <= v.len(),
        forall|i: int|
            0 <= i < v.len() && info_of_found(#[trigger] v[i]) is Some ==> infos_in(v).contains(
                info_of_found(v[i])->0,
            ),
        forall|k: int|
            0 <= k < infos_in(v).len() ==> exists|i: int|
                0 <= i < v.len() && info_of_found(#[trigger] v[i]) == Some(#[trigger] infos_in(v)[k]),
    decreases v.len(),
{
    if v.len() > 0 {
        let front = v.drop_last();
        law_extensions_are_found(front);
        let before = infos_in(front);
        let all = infos_in(v);
        assert(forall|k: int| 0 <= k < before.len() ==> all[k] == before[k]);
        assert forall|i: int| 0 <= i < v.len() && info_of_found(#[trigger] v[i]) is Some implies all.contains(
            info_of_found(v[i])->0,
        ) by {
            if i < front.len() {
                assert(front[i] == v[i]);
                let k = choose|k: int| 0 <= k < before.len() && before[k] == info_of_found(v[i])->0;
                assert(all[k] == before[k]);
            } else {
                assert(all[all.len() - 1] == info_of_found(v[i])->0);
            }
        }
        assert forall|k: int| 0 <= k < all.len() implies exists|i: int|
            0 <= i < v.len() && info_of_found(#[trigger] v[i]) == Some(#[trigger] all[k]) by {
            if k < before.len() {
                let i = choose|i: int|
                    0 <= i < front.len() && info_of_found(#[trigger] front[i]) == Some(before[k]);
                assert(v[i] == front[i]);
            } else {
                assert(info_of_found(v[v.len() - 1]) == Some(all[k]));
            }
        }
    }
}

/// The first place that is there is taken.
pub proof fn law_first_place_is_taken(there: Seq<bool>, k: int)
    requires
        0 <= k <= there.len(),
    ensures
        k <= first_there(there, k) <= there.len(),
        first_there(there, k) < there.len() ==> there[first_there(there, k)],
        forall|j: int| k <= j < first_there(there, k) ==> !#[trigger] there[j],
    decreases there.len() - k,
{
    if k < there.len() && !there[k] {
        law_first_place_is_taken(there, k + 1);
    }
}

/// A message to the host names its method and carries what it says; a request also carries its
/// number, and the numbers follow each other.
pub proof fn law_messages_carry_what_they_say(id: i64, method: Seq<char>, params: Tree)
    ensures
        notification(method, params).get("method"@) == Some(Tree::Str(method)),
        notification(method, params).get("params"@) == Some(params),
        notification(method, params).get("id"@) is None,
        call(id, method, params).get("method"@) == Some(Tree::Str(method)),
        call(id, method, params).get("params"@) == Some(params),
        call(id, method, params).get("id"@) == Some(
            if id >= 0 {
                Tree::Pos(id as u64)
            } else {
                Tree::Neg(id)
            },
        ),
        id < i64::MAX ==> after(id) == id + 1,
{
    reveal_strlit("jsonrpc");
    reveal_strlit("id");
    reveal_strlit("method");
    reveal_strlit("params");
    assert("jsonrpc"@.len() == 7);
    assert("id"@.len() == 2);
    assert("method"@.len() == 6);
    assert("params"@.len() == 6);
    assert("method"@[0] == 'm' && "params"@[0] == 'p');
    let m = notification(method, params)->Obj_0;
    assert(m[0].0 == "jsonrpc"@);
    assert(m[1].0 == "method"@);
    assert(m[2].0 == "params"@);
    crate::json::lemma_get_at(m, "jsonrpc"@, 0);
    crate::json::lemma_get_at(m, "method"@, 1);
    crate::json::lemma_get_at(m, "params"@, 2);
    let c = call(id, method, params)->Obj_0;
    assert(c[0].0 == "jsonrpc"@);
    assert(c[1].0 == "id"@);
    assert(c[2].0 == "method"@);
    assert(c[3].0 == "params"@);
    crate::json::lemma_get_at(c, "jsonrpc"@, 0);
    crate::json::lemma_get_at(c, "id"@, 1);
    crate::json::lemma_get_at(c, "method"@, 2);
    crate::json::lemma_get_at(c, "params"@, 3);
    crate::json::law_lookup_gives_the_first_member(
        notification(method, params),
        "id"@,
        Tree::Null,
    );
}

/// The host is greeted only by the one who knows the token.
pub proof fn law_greetings_carry_the_token(msg: Tree, params: Tree, token: Seq<char>, other: Seq<char>)
    requires
        msg.get("method"@) == Some(Tree::Str("host/ready"@)),
        msg.get("params"@) == Some(params),
        params.get("token"@) == Some(Tree::Str(token)),
    ensures
        is_greeting(msg, token),
        other != token ==> !is_greeting(msg, other),
{
}

/// The folder of a path is what stands before its last slash.
pub proof fn law_folders_end_at_the_last_slash(dir: Seq<char>, name: Seq<char>)
    requires
        !name.contains('/'),
        dir.len() > 0,
    ensures
        directory_of(dir.push('/') + name) == dir,
        directory_of(name) == Seq::<char>::empty(),
{
    lemma_last_slash(dir, name, name.len() as int);
    lemma_no_slash(name, name.len() as int);
    let p = dir.push('/') + name;
    assert(p.subrange(0, dir.len() as int) =~= dir);
}

proof fn lemma_last_slash(dir: Seq<char>, name: Seq<char>, n: int)
    requires
        !name.contains('/'),
        0 <= n <= name.len(),
    ensures
        crate::paths::last_char(dir.push('/') + name, '/', dir.len() + 1 + n) == dir.len(),
    decreases n,
{
    let p = dir.push('/') + name;
    if n > 0 {
        assert(p[dir.len() + n] == name[n - 1]);
        lemma_last_slash(dir, name, n - 1);
    } else {
        assert(p[dir.len() as int] == '/');
    }
}

proof fn lemma_no_slash(name: Seq<char>, n: int)
    requires
        !name.contains('/'),
        0 <= n <= name.len(),
    ensures
        crate::paths::last_char(name, '/', n) == -1,
    decreases n,
{
    if n > 0 {
        assert(name[n - 1] != '/');
        lemma_no_slash(name, n - 1);
    }
}

} // verus!
