//! The pages of extensions: what their host is told, what they send, and what they are served.

use crate::exthost::bounds_tree;
use crate::exthost::html_tree;
use crate::exthost::post_tree;
use crate::exthost::view_init;
use crate::exthost::visible_tree;
use crate::json::get_list;
use crate::json::get_text_or;
use crate::json::get_texts;
use crate::json::lemma_get_at;
use crate::json::lemma_member_place;
use crate::json::list_or_none;
use crate::json::member_from;
use crate::json::parse;
use crate::json::printed;
use crate::json::read;
use crate::json::text_or;
use crate::json::texts_in;
use crate::json::Json;
use crate::json::ObjectBuilder;
use crate::json::Tree;
use crate::paths;
use crate::paths::extension_of;
use crate::paths::is_under;
use crate::paths::leads_under;
use crate::text::blank;
use crate::text::is_blank;
use crate::text::lemma_replaced_clears;
use crate::text::lemma_replaced_lacks;
use crate::text::opt_view;
use crate::text::replace;
use crate::text::replaced;
use crate::text::same;
use crate::text::trim;
use crate::text::trimmed;
use crate::text::views;
use crate::text::write_signed;
use crate::text::signed_decimal;
use vstd::prelude::*;

verus! {

/// The page before an extension has given one.
pub open spec fn blank_page() -> Seq<char> {
    "<html><body style='background:#1e1e1e'></body></html>"@
}

/// What the host of a page is told when it starts, as contents.
pub struct InitView {
    pub title: Seq<char>,
    pub width: i32,
    pub height: i32,
    pub roots: Seq<Seq<char>>,
    pub embed: bool,
    pub shm: Option<Seq<char>>,
    pub theme_js: Seq<char>,
}

/// What the host of a page is told when it starts.
pub struct Init {
    pub title: String,
    pub width: i32,
    pub height: i32,
    pub roots: Vec<String>,
    pub embed: bool,
    pub shm: Option<String>,
    pub theme_js: String,
}

impl View for Init {
    type V = InitView;

    open spec fn view(&self) -> InitView {
        InitView {
            title: self.title@,
            width: self.width,
            height: self.height,
            roots: views(self.roots@),
            embed: self.embed,
            shm: opt_view(self.shm),
            theme_js: self.theme_js@,
        }
    }
}

/// A whole number of a message cut to thirty-two bits, or what stands in for one that is
/// missing.
pub open spec fn short_or(v: Tree, key: Seq<char>, other: i64) -> i32 {
    match v.i64_at(key) {
        Some(n) => n as i32,
        None => other as i32,
    }
}

fn get_short_or(v: &Json, key: &str, other: i64) -> (r: i32)
    ensures
        r == short_or(v@, key@, other),
{
    match v.i64_at(key) {
        Some(n) => #[verifier::truncate] (n as i32),
        None => #[verifier::truncate] (other as i32),
    }
}

/// A truth value of a message, or what stands in for one that is missing.
pub open spec fn flag_or(v: Tree, key: Seq<char>, other: bool) -> bool {
    match v.bool_at(key) {
        Some(b) => b,
        None => other,
    }
}

fn get_flag_or(v: &Json, key: &str, other: bool) -> (r: bool)
    ensures
        r == flag_or(v@, key@, other),
{
    match v.bool_at(key) {
        Some(b) => b,
        None => other,
    }
}

/// What a message tells the host when it starts.
pub open spec fn init_of(v: Tree) -> InitView {
    InitView {
        title: text_or(v.get("title"@), "Aether Webview"@),
        width: short_or(v, "width"@, 480),
        height: short_or(v, "height"@, 720),
        roots: texts_in(list_or_none(v.get("roots"@))),
        embed: flag_or(v, "embed"@, false),
        shm: v.str_at("shm"@),
        theme_js: text_or(v.get("themeJs"@), ""@),
    }
}

/// Reads what the host is told when it starts.
pub fn read_init(v: &Json) -> (r: Init)
    ensures
        r@ == init_of(v@),
{
    let roots: Vec<String> = match get_list(v.get("roots")) {
        Some(a) => get_texts(a),
        None => {
            let none: Vec<Json> = Vec::new();
            assert(crate::json::trees(none@) =~= Seq::<Tree>::empty());
            get_texts(&none)
        },
    };
    Init {
        title: get_text_or(v.get("title"), "Aether Webview"),
        width: get_short_or(v, "width", 480),
        height: get_short_or(v, "height", 720),
        roots,
        embed: get_flag_or(v, "embed", false),
        shm: match v.str_at("shm") {
            Some(s) => Some(s.to_owned()),
            None => None,
        },
        theme_js: get_text_or(v.get("themeJs"), ""),
    }
}

/// Reads the first line that the host is told; one that is malformed tells nothing.
pub fn parse_init(line: &str) -> (r: Init)
    ensures
        r@ == init_of(
            match read(trimmed(line@)) {
                Some(v) => v,
                None => Tree::Null,
            },
        ),
{
    match parse(trim(line).as_str()) {
        Some(v) => read_init(&v),
        None => read_init(&Json::Null),
    }
}

/// What a page sends: texts of type `T`, data of type `J`.
pub enum PageEvent<T, J> {
    /// The user pressed inside the page.
    Focus,
    /// The pointer over the page changed.
    Cursor { value: T },
    /// The page reports an error or a warning.
    Console { kind: T, msg: T },
    /// The page sends something to its extension.
    Message { data: J },
}

/// What a page sends, as contents.
pub type Sent = PageEvent<Seq<char>, Tree>;

impl View for PageEvent<String, Json> {
    type V = Sent;

    open spec fn view(&self) -> Sent {
        match *self {
            PageEvent::Focus => PageEvent::Focus,
            PageEvent::Cursor { value } => PageEvent::Cursor { value: value@ },
            PageEvent::Console { kind, msg } => PageEvent::Console { kind: kind@, msg: msg@ },
            PageEvent::Message { data } => PageEvent::Message { data: data@ },
        }
    }
}

/// What a page sends: marked messages are for the editor, all others for the extension.
pub open spec fn routed(data: Tree) -> Sent {
    if data.get("__aetherFocus"@) is Some {
        PageEvent::Focus
    } else if data.str_at("__aetherCursor"@) is Some {
        PageEvent::Cursor { value: data.str_at("__aetherCursor"@)->0 }
    } else if data.str_at("__aetherConsole"@) is Some {
        PageEvent::Console {
            kind: data.str_at("__aetherConsole"@)->0,
            msg: text_or(data.get("msg"@), ""@),
        }
    } else {
        PageEvent::Message { data }
    }
}

/// The data of a body; one that is malformed is a text.
pub open spec fn body_data(body: Seq<char>) -> Tree {
    match read(body) {
        Some(v) => v,
        None => Tree::Str(body),
    }
}

/// Tells what a page sends.
pub fn route(data: Json) -> (r: PageEvent<String, Json>)
    ensures
        r@ == routed(data@),
{
    if data.get("__aetherFocus").is_some() {
        return PageEvent::Focus;
    }
    if let Some(c) = data.str_at("__aetherCursor") {
        return PageEvent::Cursor { value: c.to_owned() };
    }
    if let Some(k) = data.str_at("__aetherConsole") {
        return PageEvent::Console { kind: k.to_owned(), msg: get_text_or(data.get("msg"), "") };
    }
    PageEvent::Message { data }
}

/// Tells what a page sends in a body.
pub fn route_body(body: &str) -> (r: PageEvent<String, Json>)
    ensures
        r@ == routed(body_data(body@)),
{
    match parse(body) {
        Some(v) => route(v),
        None => route(Json::text(body)),
    }
}

/// What the host reports of what a page sent.
pub open spec fn report_tree(e: Sent) -> Tree {
    match e {
        PageEvent::Focus => Tree::Obj(seq![("event"@, Tree::Str("focus"@))]),
        PageEvent::Cursor { value } => Tree::Obj(
            seq![("event"@, Tree::Str("cursor"@)), ("value"@, Tree::Str(value))],
        ),
        PageEvent::Console { kind, msg } => Tree::Obj(
            seq![
                ("event"@, Tree::Str("console"@)),
                ("kind"@, Tree::Str(kind)),
                ("msg"@, Tree::Str(msg)),
            ],
        ),
        PageEvent::Message { data } => Tree::Obj(
            seq![("event"@, Tree::Str("message"@)), ("data"@, data)],
        ),
    }
}

/// What the host reports of what a page sent.
pub fn report(e: PageEvent<String, Json>) -> (r: Json)
    ensures
        r@ == report_tree(e@),
{
    let ghost want = report_tree(e@)->Obj_0;
    let mut b = ObjectBuilder::new();
    match e {
        PageEvent::Focus => {
            b.put_str("event", "focus");
        },
        PageEvent::Cursor { value } => {
            b.put_str("event", "cursor");
            b.put_str("value", value.as_str());
        },
        PageEvent::Console { kind, msg } => {
            b.put_str("event", "console");
            b.put_str("kind", kind.as_str());
            b.put_str("msg", msg.as_str());
        },
        PageEvent::Message { data } => {
            b.put_str("event", "message");
            b.put("data", data);
        },
    }
    assert(b@ =~= want);
    b.build()
}

/// What the host reports when the page is up.
pub open spec fn ready_tree(xid: u64) -> Tree {
    Tree::Obj(seq![("event"@, Tree::Str("ready"@)), ("xid"@, Tree::Pos(xid))])
}

/// What the host reports when the page is up.
pub fn ready(xid: u64) -> (r: Json)
    ensures
        r@ == ready_tree(xid),
{
    let mut b = ObjectBuilder::new();
    b.put_str("event", "ready");
    b.put("xid", Json::Pos(xid));
    assert(b@ =~= ready_tree(xid)->Obj_0);
    b.build()
}

/// What the host reports when its window was closed.
pub open spec fn closed_tree() -> Tree {
    Tree::Obj(seq![("event"@, Tree::Str("closed"@))])
}

/// What the host reports when its window was closed.
pub fn closed_report() -> (r: Json)
    ensures
        r@ == closed_tree(),
{
    let mut b = ObjectBuilder::new();
    b.put_str("event", "closed");
    assert(b@ =~= closed_tree()->Obj_0);
    b.build()
}

/// A line of the host's output.
pub fn out_line(v: &Json) -> (r: String)
    ensures
        r@ == printed(v@).push('\n'),
{
    let mut s = v.to_text();
    s.push('\n');
    s
}

/// What a page inside the editor's own window brings about: a report of type `J`, or a line of
/// type `T` in the log.
pub enum ChildReport<T, J> {
    Emit { report: J },
    Log { line: T },
    Ignore,
}

impl View for ChildReport<String, Json> {
    type V = ChildReport<Seq<char>, Tree>;

    open spec fn view(&self) -> ChildReport<Seq<char>, Tree> {
        match *self {
            ChildReport::Emit { report } => ChildReport::Emit { report: report@ },
            ChildReport::Log { line } => ChildReport::Log { line: line@ },
            ChildReport::Ignore => ChildReport::Ignore,
        }
    }
}

/// What a page inside the editor's own window brings about: its focus is not ours to give, and
/// its console goes to the log.
pub open spec fn child_reported(instance: i64, e: Sent) -> ChildReport<Seq<char>, Tree> {
    match e {
        PageEvent::Focus => ChildReport::Ignore,
        PageEvent::Console { kind, msg } => ChildReport::Log {
            line: "[webview:"@ + signed_decimal(instance as int) + " "@ + kind + "] "@ + msg,
        },
        _ => ChildReport::Emit { report: report_tree(e) },
    }
}

/// Tells what a page inside the editor's own window brings about.
pub fn child_report(instance: i64, e: PageEvent<String, Json>) -> (r: ChildReport<String, Json>)
    ensures
        r@ == child_reported(instance, e@),
{
    match e {
        PageEvent::Focus => ChildReport::Ignore,
        PageEvent::Console { kind, msg } => {
            let mut line = "[webview:".to_owned();
            line.append(write_signed(instance).as_str());
            line.append(" ");
            line.append(kind.as_str());
            line.append("] ");
            line.append(msg.as_str());
            ChildReport::Log { line }
        },
        _ => ChildReport::Emit { report: report(e) },
    }
}

/// The type of a file with an extension.
pub open spec fn mime_of(ext: Seq<char>) -> Seq<char> {
    if ext == "js"@ || ext == "mjs"@ {
        "text/javascript"@
    } else if ext == "css"@ {
        "text/css"@
    } else if ext == "html"@ {
        "text/html"@
    } else if ext == "svg"@ {
        "image/svg+xml"@
    } else if ext == "png"@ {
        "image/png"@
    } else if ext == "woff"@ || ext == "woff2"@ {
        "font/woff2"@
    } else if ext == "json"@ {
        "application/json"@
    } else {
        "application/octet-stream"@
    }
}

/// The type of a file with an extension.
pub fn mime_for(ext: &str) -> (r: &'static str)
    ensures
        r@ == mime_of(ext@),
{
    if same(ext, "js") || same(ext, "mjs") {
        "text/javascript"
    } else if same(ext, "css") {
        "text/css"
    } else if same(ext, "html") {
        "text/html"
    } else if same(ext, "svg") {
        "image/svg+xml"
    } else if same(ext, "png") {
        "image/png"
    } else if same(ext, "woff") || same(ext, "woff2") {
        "font/woff2"
    } else if same(ext, "json") {
        "application/json"
    } else {
        "application/octet-stream"
    }
}

/// What is served for an address.
#[derive(Clone, Copy, Debug)]
pub enum Resource {
    /// The page itself.
    Page,
    /// The file at the path, as a type.
    File { mime: &'static str },
    /// Nothing: no root of the page holds the path.
    Refused,
}

/// Whether a path lies under one of the roots of a page, and leads under it: one that goes up
/// out of the root does not.
pub open spec fn is_allowed(path: Seq<char>, roots: Seq<Seq<char>>) -> bool {
    exists|i: int|
        0 <= i < roots.len() && is_under(path, #[trigger] roots[i]) && leads_under(path, roots[i])
}

/// Tells what is served for an address: its host, and the path. Only files under a root of the
/// page are served.
pub fn resource(host: Option<&str>, path: &str, roots: &Vec<String>) -> (r: Resource)
    ensures
        match r {
            Resource::Page => host is Some && host->0@ == "page"@,
            Resource::File { mime } => {
                &&& host is None || host->0@ != "page"@
                &&& is_allowed(path@, views(roots@))
                &&& mime@ == mime_of(
                    match extension_of(path@) {
                        Some(e) => e,
                        None => ""@,
                    },
                )
            },
            Resource::Refused => (host is None || host->0@ != "page"@) && !is_allowed(
                path@,
                views(roots@),
            ),
        },
{
    if let Some(h) = host {
        if same(h, "page") {
            return Resource::Page;
        }
    }
    let mut k: usize = 0;
    while k < roots.len()
        invariant
            k <= roots@.len(),
            host is None || host->0@ != "page"@,
            forall|i: int|
                0 <= i < k ==> !(is_under(path@, #[trigger] views(roots@)[i]) && leads_under(
                    path@,
                    views(roots@)[i],
                )),
        decreases roots.len() - k,
    {
        let root = roots[k].as_str();
        if paths::starts_with(path, root) && paths::leads_to(path, root) {
            assert(is_under(path@, views(roots@)[k as int]));
            let mime: &'static str = match paths::extension(path) {
                Some(e) => mime_for(e.as_str()),
                None => mime_for(""),
            };
            return Resource::File { mime };
        }
        assert(views(roots@)[k as int] == root@);
        k = k + 1;
    }
    Resource::Refused
}

/// Data as it can stand inside a script: two line separators that JSON allows and a script does
/// not are escaped.
pub open spec fn inlined(text: Seq<char>) -> Seq<char> {
    replaced(
        replaced(text, seq!['\u{2028}'], "\\u2028"@),
        seq!['\u{2029}'],
        "\\u2029"@,
    )
}

/// The script that hands data to a page.
pub open spec fn post_text(data: Tree) -> Seq<char> {
    "window.dispatchEvent(new MessageEvent('message', { data: "@ + inlined(printed(data))
        + " }));"@
}

fn inline(text: &str) -> (r: String)
    ensures
        r@ == inlined(text@),
{
    proof {
        reveal_strlit("\u{2028}");
        reveal_strlit("\u{2029}");
        assert("\u{2028}"@ =~= seq!['\u{2028}']);
        assert("\u{2029}"@ =~= seq!['\u{2029}']);
    }
    let once = replace(text, "\u{2028}", "\\u2028");
    replace(once.as_str(), "\u{2029}", "\\u2029")
}

/// The script that hands data to a page as a `message` event.
pub fn post_script(data: &Json) -> (r: String)
    ensures
        r@ == post_text(data@),
{
    let mut s = "window.dispatchEvent(new MessageEvent('message', { data: ".to_owned();
    s.append(inline(data.to_text().as_str()).as_str());
    s.append(" }));");
    s
}

/// Data inside a script holds neither of the separators that would end its line.
pub proof fn law_inlined_data_stays_on_its_line(text: Seq<char>)
    ensures
        forall|j: int|
            0 <= j < inlined(text).len() ==> inlined(text)[j] != '\u{2028}' && inlined(text)[j]
                != '\u{2029}',
{
    reveal_strlit("\\u2028");
    reveal_strlit("\\u2029");
    let once = replaced(text, seq!['\u{2028}'], "\\u2028"@);
    lemma_replaced_clears(text, '\u{2028}', "\\u2028"@, 0);
    lemma_replaced_lacks(once, seq!['\u{2029}'], "\\u2029"@, 0, '\u{2028}');
    lemma_replaced_clears(once, '\u{2029}', "\\u2029"@, 0);
}

/// What the host is told to do: texts of type `T`, data of type `J`.
pub enum HostCmd<T, J> {
    /// Show a page.
    Html { html: T },
    /// Hand data to the page.
    Post { data: J },
    /// Take a place, and a zoom where one is given.
    Bounds { x: i32, y: i32, w: i32, h: i32, zoom: Option<J> },
    /// Show or hide the window.
    Visible { value: bool },
    /// End.
    Quit,
    /// Nothing that the host knows.
    Unknown,
}

/// What the host is told to do, as contents.
pub type Told = HostCmd<Seq<char>, Tree>;

impl View for HostCmd<String, Json> {
    type V = Told;

    open spec fn view(&self) -> Told {
        match *self {
            HostCmd::Html { html } => HostCmd::Html { html: html@ },
            HostCmd::Post { data } => HostCmd::Post { data: data@ },
            HostCmd::Bounds { x, y, w, h, zoom } => HostCmd::Bounds {
                x,
                y,
                w,
                h,
                zoom: match zoom {
                    Some(z) => Some(z@),
                    None => None,
                },
            },
            HostCmd::Visible { value } => HostCmd::Visible { value },
            HostCmd::Quit => HostCmd::Quit,
            HostCmd::Unknown => HostCmd::Unknown,
        }
    }
}

/// A length of at least one.
pub open spec fn at_least_one(n: i32) -> i32 {
    if n < 1 {
        1
    } else {
        n
    }
}

/// A member that is a number.
pub open spec fn number_at(v: Tree, key: Seq<char>) -> Option<Tree> {
    match v.get(key) {
        Some(Tree::Pos(n)) => Some(Tree::Pos(n)),
        Some(Tree::Neg(n)) => Some(Tree::Neg(n)),
        Some(Tree::Real(n)) => Some(Tree::Real(n)),
        _ => None,
    }
}

/// What a message tells the host to do.
pub open spec fn told_by(v: Tree) -> Told {
    let cmd = v.str_at("cmd"@);
    if cmd == Some("html"@) {
        match v.str_at("html"@) {
            Some(html) => HostCmd::Html { html },
            None => HostCmd::Unknown,
        }
    } else if cmd == Some("post"@) {
        HostCmd::Post {
            data: match v.get("data"@) {
                Some(d) => d,
                None => Tree::Null,
            },
        }
    } else if cmd == Some("bounds"@) {
        HostCmd::Bounds {
            x: short_or(v, "x"@, 0),
            y: short_or(v, "y"@, 0),
            w: at_least_one(short_or(v, "w"@, 0)),
            h: at_least_one(short_or(v, "h"@, 0)),
            zoom: number_at(v, "zoom"@),
        }
    } else if cmd == Some("visible"@) {
        HostCmd::Visible { value: flag_or(v, "value"@, true) }
    } else if cmd == Some("quit"@) {
        HostCmd::Quit
    } else {
        HostCmd::Unknown
    }
}

fn one_or_more(n: i32) -> (r: i32)
    ensures
        r == at_least_one(n),
{
    if n < 1 {
        1
    } else {
        n
    }
}

fn get_number(v: &Json, key: &str) -> (r: Option<Json>)
    ensures
        crate::json::opt_tree(
            match r {
                Some(j) => Some(&j),
                None => None,
            },
        ) == number_at(v@, key@),
{
    match v.get(key) {
        Some(n) => match n {
            Json::Pos(_) | Json::Neg(_) | Json::Real(_) => Some(n.copy()),
            _ => None,
        },
        None => None,
    }
}

/// Reads what the host is told to do.
pub fn command_of(v: &Json) -> (r: HostCmd<String, Json>)
    ensures
        r@ == told_by(v@),
{
    let cmd = match v.str_at("cmd") {
        Some(c) => c,
        None => return HostCmd::Unknown,
    };
    if same(cmd, "html") {
        match v.str_at("html") {
            Some(html) => HostCmd::Html { html: html.to_owned() },
            None => HostCmd::Unknown,
        }
    } else if same(cmd, "post") {
        HostCmd::Post {
            data: match v.get("data") {
                Some(d) => d.copy(),
                None => Json::Null,
            },
        }
    } else if same(cmd, "bounds") {
        HostCmd::Bounds {
            x: get_short_or(v, "x", 0),
            y: get_short_or(v, "y", 0),
            w: one_or_more(get_short_or(v, "w", 0)),
            h: one_or_more(get_short_or(v, "h", 0)),
            zoom: get_number(v, "zoom"),
        }
    } else if same(cmd, "visible") {
        HostCmd::Visible { value: get_flag_or(v, "value", true) }
    } else if same(cmd, "quit") {
        HostCmd::Quit
    } else {
        HostCmd::Unknown
    }
}

/// Reads a line that the host is told; one that is blank or malformed tells nothing.
pub fn command_line(line: &str) -> (r: Option<HostCmd<String, Json>>)
    ensures
        match r {
            Some(c) => !is_blank(line@) && read(line@) is Some && c@ == told_by(read(line@)->0),
            None => is_blank(line@) || read(line@) is None,
        },
{
    if blank(line) {
        return None;
    }
    match parse(line) {
        Some(v) => Some(command_of(&v)),
        None => None,
    }
}

/// What the host does for a command: scripts of type `T`.
pub enum HostAction<T> {
    /// Load the page anew.
    Load,
    /// Run a script in the page.
    Run { script: T },
    /// Take a size; where the window stands does not matter.
    Size { w: i32, h: i32 },
    /// Take a place and a size, visible and above the editor.
    Place { x: i32, y: i32, w: i32, h: i32 },
    /// Show the window above the editor.
    Present,
    /// Hide the window.
    Hide,
    /// End.
    Quit,
    /// Do nothing.
    Nothing,
}

impl View for HostAction<String> {
    type V = HostAction<Seq<char>>;

    open spec fn view(&self) -> HostAction<Seq<char>> {
        match *self {
            HostAction::Load => HostAction::Load,
            HostAction::Run { script } => HostAction::Run { script: script@ },
            HostAction::Size { w, h } => HostAction::Size { w, h },
            HostAction::Place { x, y, w, h } => HostAction::Place { x, y, w, h },
            HostAction::Present => HostAction::Present,
            HostAction::Hide => HostAction::Hide,
            HostAction::Quit => HostAction::Quit,
            HostAction::Nothing => HostAction::Nothing,
        }
    }
}

/// What a host does for a command. One whose page is drawn by the editor has no window that the
/// user sees: only its size matters.
pub open spec fn acted(embed: bool, c: Told) -> HostAction<Seq<char>> {
    match c {
        HostCmd::Html { .. } => HostAction::Load,
        HostCmd::Post { data } => HostAction::Run { script: post_text(data) },
        HostCmd::Bounds { x, y, w, h, .. } => if embed {
            HostAction::Size { w, h }
        } else {
            HostAction::Place { x, y, w, h }
        },
        HostCmd::Visible { value } => if embed {
            HostAction::Nothing
        } else if value {
            HostAction::Present
        } else {
            HostAction::Hide
        },
        HostCmd::Quit => HostAction::Quit,
        HostCmd::Unknown => HostAction::Nothing,
    }
}

/// The host of a page: whether the editor draws it, and the page.
pub struct Host {
    pub embed: bool,
    pub page: String,
}

impl Host {
    /// A host with a blank page.
    pub fn new(embed: bool) -> (r: Host)
        ensures
            r.embed == embed,
            r.page@ == blank_page(),
    {
        Host {
            embed,
            page: "<html><body style='background:#1e1e1e'></body></html>".to_owned(),
        }
    }

    /// Takes a command: what is to be done for it. A page that is given is kept.
    pub fn step(&mut self, c: &HostCmd<String, Json>) -> (r: HostAction<String>)
        ensures
            r@ == acted(old(self).embed, c@),
            final(self).embed == old(self).embed,
            final(self).page@ == match c@ {
                HostCmd::Html { html } => html,
                _ => old(self).page@,
            },
    {
        match c {
            HostCmd::Html { html } => {
                self.page = html.as_str().to_owned();
                HostAction::Load
            },
            HostCmd::Post { data } => HostAction::Run { script: post_script(data) },
            HostCmd::Bounds { x, y, w, h, .. } => if self.embed {
                HostAction::Size { w: *w, h: *h }
            } else {
                HostAction::Place { x: *x, y: *y, w: *w, h: *h }
            },
            HostCmd::Visible { value } => if self.embed {
                HostAction::Nothing
            } else if *value {
                HostAction::Present
            } else {
                HostAction::Hide
            },
            HostCmd::Quit => HostAction::Quit,
            HostCmd::Unknown => HostAction::Nothing,
        }
    }
}

/// A page inside the editor's own window.
pub struct ChildWebview {
    pub instance_id: i64,
    pub view_id: String,
    pub title: String,
    pub page_html: String,
}

impl ChildWebview {
    /// A blank page inside the editor's own window.
    pub fn create(view_id: &str, instance_id: i64, title: &str) -> (r: ChildWebview)
        ensures
            r.instance_id == instance_id,
            r.view_id@ == view_id@,
            r.title@ == title@,
            r.page_html@ == blank_page(),
    {
        ChildWebview {
            instance_id,
            view_id: view_id.to_owned(),
            title: title.to_owned(),
            page_html: "<html><body style='background:#1e1e1e'></body></html>".to_owned(),
        }
    }

    /// Keeps the page that is served from then on.
    pub fn set_html(&mut self, html: &str)
        ensures
            final(self).page_html@ == html@,
            final(self).instance_id == old(self).instance_id,
            final(self).view_id@ == old(self).view_id@,
            final(self).title@ == old(self).title@,
    {
        self.page_html = html.to_owned();
    }

    /// The script that hands data to the page.
    pub fn post(&self, data: &Json) -> (r: String)
        ensures
            r@ == post_text(data@),
    {
        post_script(data)
    }

    /// Where the page stands over a pane of the editor, and its size. Where the system counts
    /// from the lower edge, the place is counted from the lower edge of the window.
    pub fn set_bounds(
        &self,
        x: i32,
        y: i32,
        w: u32,
        h: u32,
        win_h: u32,
        from_below: bool,
    ) -> (r: (i32, i32, u32, u32))
        requires
            from_below ==> win_h <= i32::MAX && h <= i32::MAX && i32::MIN <= win_h - y <= i32::MAX
                && i32::MIN <= win_h - y - h,
        ensures
            r.0 == x,
            r.1 == if from_below {
                win_h - y - h
            } else {
                y as int
            },
            r.2 == if w < 1 {
                1
            } else {
                w
            },
            r.3 == if h < 1 {
                1
            } else {
                h
            },
    {
        let top: i32 = if from_below {
            win_h as i32 - y - h as i32
        } else {
            y
        };
        (
            x,
            top,
            if w < 1 {
                1
            } else {
                w
            },
            if h < 1 {
                1
            } else {
                h
            },
        )
    }
}

/// What an editor writes when it starts a host is what the host is told.
pub proof fn law_host_is_told_what_was_written(
    title: Seq<char>,
    embed: bool,
    shm: Seq<char>,
    roots: Seq<Seq<char>>,
)
    ensures
        init_of(view_init(title, embed, shm, roots)) == (InitView {
            title,
            width: 520,
            height: 760,
            roots,
            embed,
            shm: Some(shm),
            theme_js: ""@,
        }),
{
    lemma_key_lengths();
    let t = view_init(title, embed, shm, roots);
    let m = t->Obj_0;
    lemma_get_at(m, "title"@, 1);
    lemma_get_at(m, "width"@, 2);
    lemma_get_at(m, "height"@, 3);
    lemma_get_at(m, "embed"@, 4);
    lemma_get_at(m, "shm"@, 5);
    lemma_get_at(m, "roots"@, 6);
    lemma_member_place(m, "themeJs"@);
    let k = member_from(m, "themeJs"@, 0);
    if k < m.len() {
        assert(m[k].0.len() == 7);
    }
    lemma_texts(roots, roots.len() as int);
    let all = Seq::new(roots.len(), |i: int| Tree::Str(roots[i]));
    assert(all.take(roots.len() as int) =~= all);
    assert(roots.take(roots.len() as int) =~= roots);
}

proof fn lemma_texts(roots: Seq<Seq<char>>, n: int)
    requires
        0 <= n <= roots.len(),
    ensures
        texts_in(Seq::new(roots.len(), |i: int| Tree::Str(roots[i])).take(n)) == roots.take(n),
    decreases n,
{
    let all = Seq::new(roots.len(), |i: int| Tree::Str(roots[i]));
    if n > 0 {
        lemma_texts(roots, n - 1);
        assert(all.take(n).drop_last() =~= all.take(n - 1));
        assert(all.take(n).last() == Tree::Str(roots[n - 1]));
        assert(roots.take(n) =~= roots.take(n - 1).push(roots[n - 1]));
    } else {
        assert(roots.take(0) =~= Seq::<Seq<char>>::empty());
    }
}

proof fn lemma_key_lengths()
    ensures
        "cmd"@.len() == 3,
        "title"@.len() == 5,
        "width"@.len() == 5,
        "width"@[0] != "title"@[0],
        "height"@.len() == 6,
        "embed"@.len() == 5,
        "embed"@[0] != "title"@[0],
        "embed"@[0] != "width"@[0],
        "shm"@.len() == 3,
        "shm"@[0] != "cmd"@[0],
        "roots"@.len() == 5,
        "roots"@[0] != "title"@[0],
        "roots"@[0] != "width"@[0],
        "roots"@[0] != "embed"@[0],
        "themeJs"@.len() == 7,
        "html"@.len() == 4,
        "post"@.len() == 4,
        "html"@[0] != "post"@[0],
        "bounds"@.len() == 6,
        "visible"@.len() == 7,
        "data"@.len() == 4,
        "value"@.len() == 5,
        "x"@.len() == 1,
        "y"@.len() == 1,
        "w"@.len() == 1,
        "h"@.len() == 1,
        "x"@[0] == 'x',
        "y"@[0] == 'y',
        "w"@[0] == 'w',
        "h"@[0] == 'h',
        "zoom"@.len() == 4,
{
    reveal_strlit("cmd");
    reveal_strlit("title");
    reveal_strlit("width");
    reveal_strlit("height");
    reveal_strlit("embed");
    reveal_strlit("shm");
    reveal_strlit("roots");
    reveal_strlit("themeJs");
    reveal_strlit("html");
    reveal_strlit("post");
    reveal_strlit("bounds");
    reveal_strlit("visible");
    reveal_strlit("data");
    reveal_strlit("value");
    reveal_strlit("x");
    reveal_strlit("y");
    reveal_strlit("w");
    reveal_strlit("h");
    reveal_strlit("zoom");
}

/// What an editor tells a host is what the host does: the page, the data, whether it shows, and
/// a place of at least one pixel.
pub proof fn law_host_understands_the_editor(
    html: Seq<char>,
    data: Tree,
    value: bool,
    x: i32,
    y: i32,
    w: u32,
    h: u32,
    zoom: Tree,
)
    requires
        0 < w <= i32::MAX,
        0 < h <= i32::MAX,
        zoom is Pos || zoom is Neg || zoom is Real,
    ensures
        told_by(html_tree(html)) == (HostCmd::<Seq<char>, Tree>::Html { html }),
        told_by(post_tree(data)) == (HostCmd::<Seq<char>, Tree>::Post { data }),
        told_by(visible_tree(value)) == (HostCmd::<Seq<char>, Tree>::Visible { value }),
        told_by(bounds_tree(x, y, w, h, zoom)) == (HostCmd::<Seq<char>, Tree>::Bounds {
            x,
            y,
            w: w as i32,
            h: h as i32,
            zoom: Some(zoom),
        }),
{
    lemma_key_lengths();
    lemma_get_at(html_tree(html)->Obj_0, "cmd"@, 0);
    lemma_get_at(html_tree(html)->Obj_0, "html"@, 1);
    lemma_get_at(post_tree(data)->Obj_0, "cmd"@, 0);
    lemma_get_at(post_tree(data)->Obj_0, "data"@, 1);
    lemma_get_at(visible_tree(value)->Obj_0, "cmd"@, 0);
    lemma_get_at(visible_tree(value)->Obj_0, "value"@, 1);
    let b = bounds_tree(x, y, w, h, zoom)->Obj_0;
    lemma_get_at(b, "cmd"@, 0);
    lemma_get_at(b, "x"@, 1);
    lemma_get_at(b, "y"@, 2);
    lemma_get_at(b, "w"@, 3);
    lemma_get_at(b, "h"@, 4);
    lemma_get_at(b, "zoom"@, 5);
}

/// What a page sends goes to its extension as it is, unless it is one of the page's own reports.
pub proof fn law_messages_go_through(data: Tree, kind: Seq<char>, msg: Seq<char>)
    ensures
        data.get("__aetherFocus"@) is None && data.get("__aetherCursor"@) is None && data.get(
            "__aetherConsole"@,
        ) is None ==> routed(data) == (Sent::Message { data }),
        data.get("__aetherFocus"@) is Some ==> routed(data) is Focus,
        data.get("__aetherFocus"@) is None && data.get("__aetherCursor"@) == Some(Tree::Str(kind))
            ==> routed(data) == (Sent::Cursor { value: kind }),
        data.get("__aetherFocus"@) is None && data.get("__aetherCursor"@) is None && data.get(
            "__aetherConsole"@,
        ) == Some(Tree::Str(kind)) && data.get("msg"@) == Some(Tree::Str(msg)) ==> routed(data) == (
        Sent::Console { kind, msg }),
{
}

/// A report names its event and carries what the page sent.
pub proof fn law_reports_carry_what_was_sent(data: Tree, value: Seq<char>, kind: Seq<char>, msg: Seq<char>)
    ensures
        report_tree(Sent::Focus).get("event"@) == Some(Tree::Str("focus"@)),
        report_tree(Sent::Cursor { value }).get("event"@) == Some(Tree::Str("cursor"@)),
        report_tree(Sent::Cursor { value }).get("value"@) == Some(Tree::Str(value)),
        report_tree(Sent::Console { kind, msg }).get("event"@) == Some(Tree::Str("console"@)),
        report_tree(Sent::Console { kind, msg }).get("kind"@) == Some(Tree::Str(kind)),
        report_tree(Sent::Console { kind, msg }).get("msg"@) == Some(Tree::Str(msg)),
        report_tree(Sent::Message { data }).get("event"@) == Some(Tree::Str("message"@)),
        report_tree(Sent::Message { data }).get("data"@) == Some(data),
{
    reveal_strlit("event");
    reveal_strlit("value");
    reveal_strlit("kind");
    reveal_strlit("msg");
    reveal_strlit("data");
    assert("event"@.len() == 5);
    assert("value"@.len() == 5);
    assert("kind"@.len() == 4);
    assert("msg"@.len() == 3);
    assert("data"@.len() == 4);
    assert("event"@[0] == 'e' && "value"@[0] == 'v');
    assert("kind"@[0] == 'k' && "data"@[0] == 'd');
    let f = report_tree(Sent::Focus)->Obj_0;
    assert(f[0].0 == "event"@);
    crate::json::lemma_get_at(f, "event"@, 0);
    let c = report_tree(Sent::Cursor { value })->Obj_0;
    assert(c[0].0 == "event"@);
    assert(c[1].0 == "value"@);
    crate::json::lemma_get_at(c, "event"@, 0);
    crate::json::lemma_get_at(c, "value"@, 1);
    let k = report_tree(Sent::Console { kind, msg })->Obj_0;
    assert(k[0].0 == "event"@);
    assert(k[1].0 == "kind"@);
    assert(k[2].0 == "msg"@);
    crate::json::lemma_get_at(k, "event"@, 0);
    crate::json::lemma_get_at(k, "kind"@, 1);
    crate::json::lemma_get_at(k, "msg"@, 2);
    let m = report_tree(Sent::Message { data })->Obj_0;
    assert(m[0].0 == "event"@);
    assert(m[1].0 == "data"@);
    crate::json::lemma_get_at(m, "event"@, 0);
    crate::json::lemma_get_at(m, "data"@, 1);
}

/// A page inside the editor does not report its focus, and what its console says is logged with the
/// page that said it; all else is reported as it is.
pub proof fn law_children_report_the_rest(instance: i64, e: Sent)
    ensures
        e is Focus ==> child_reported(instance, e) is Ignore,
        e is Cursor || e is Message ==> child_reported(instance, e) == (ChildReport::<
            Seq<char>,
            Tree,
        >::Emit { report: report_tree(e) }),
        e matches PageEvent::Console { kind, msg } ==> match child_reported(instance, e) {
            ChildReport::Log { line } => crate::text::ends(line, msg),
            _ => false,
        },
{
    if let PageEvent::Console { kind, msg } = e {
        let line = "[webview:"@ + signed_decimal(instance as int) + " "@ + kind + "] "@ + msg;
        assert(line.subrange(line.len() - msg.len(), line.len() as int) =~= msg);
    }
}

/// What is not said of a page is what is usual: 480 by 720, in a window of its own.
pub proof fn law_pages_start_as_usual(v: Tree, title: Seq<char>)
    requires
        v.get("width"@) is None,
        v.get("height"@) is None,
        v.get("embed"@) is None,
        v.get("shm"@) is None,
        v.get("title"@) == Some(Tree::Str(title)),
    ensures
        init_of(v).width == 480,
        init_of(v).height == 720,
        !init_of(v).embed,
        init_of(v).shm is None,
        init_of(v).title == title,
{
}

/// A page is shown where it was told: one inside the editor takes its size, one in a window its
/// place as well, and only the latter is shown and hidden.
pub proof fn law_pages_do_as_told(html: Seq<char>, data: Tree, x: i32, y: i32, w: i32, h: i32, value: bool)
    ensures
        acted(true, HostCmd::Html { html }) is Load,
        acted(false, HostCmd::Html { html }) is Load,
        acted(true, Told::Bounds { x, y, w, h, zoom: None }) == (HostAction::<Seq<char>>::Size { w, h }),
        acted(false, Told::Bounds { x, y, w, h, zoom: None }) == (HostAction::<Seq<char>>::Place {
            x,
            y,
            w,
            h,
        }),
        acted(true, Told::Visible { value }) is Nothing,
        acted(false, Told::Visible { value: true }) is Present,
        acted(false, Told::Visible { value: false }) is Hide,
        acted(true, Told::Quit) is Quit,
        acted(false, Told::Quit) is Quit,
        acted(false, HostCmd::Post { data }) matches HostAction::Run { script } && crate::text::holds(
            script,
            inlined(printed(data)),
        ),
{
    let script = post_text(data);
    let front = "window.dispatchEvent(new MessageEvent('message', { data: "@;
    let part = inlined(printed(data));
    assert(script.subrange(front.len() as int, front.len() as int + part.len()) =~= part);
    assert(crate::text::occurs_at(script, part, front.len() as int));
}

/// A size of nothing is one of a pixel.
pub proof fn law_pages_have_a_size(v: Tree)
    requires
        v.get("cmd"@) == Some(Tree::Str("bounds"@)),
        v.get("w"@) is None,
        v.get("h"@) is None,
    ensures
        told_by(v) is Bounds,
        told_by(v)->w == 1,
        told_by(v)->h == 1,
{
    reveal_strlit("bounds");
    reveal_strlit("html");
    reveal_strlit("post");
    assert("bounds"@.len() == 6 && "html"@.len() == 4 && "post"@.len() == 4);
}

/// Files are given out by the type that their ending tells.
pub proof fn law_endings_tell_the_type()
    ensures
        mime_of("js"@) == "text/javascript"@,
        mime_of("mjs"@) == "text/javascript"@,
        mime_of("css"@) == "text/css"@,
        mime_of("html"@) == "text/html"@,
        mime_of("svg"@) == "image/svg+xml"@,
        mime_of("png"@) == "image/png"@,
        mime_of("woff"@) == "font/woff2"@,
        mime_of("woff2"@) == "font/woff2"@,
        mime_of("json"@) == "application/json"@,
{
    reveal_strlit("js");
    reveal_strlit("mjs");
    reveal_strlit("css");
    reveal_strlit("html");
    reveal_strlit("svg");
    reveal_strlit("png");
    reveal_strlit("woff");
    reveal_strlit("woff2");
    reveal_strlit("json");
    assert("js"@.len() == 2);
    assert("mjs"@.len() == 3);
    assert("css"@.len() == 3);
    assert("html"@.len() == 4);
    assert("svg"@.len() == 3);
    assert("png"@.len() == 3);
    assert("woff"@.len() == 4);
    assert("woff2"@.len() == 5);
    assert("json"@.len() == 4);
    assert("mjs"@[0] == 'm' && "css"@[0] == 'c');
    assert("mjs"@[0] == 'm' && "svg"@[0] == 's');
    assert("mjs"@[0] == 'm' && "png"@[0] == 'p');
    assert("css"@[0] == 'c' && "svg"@[0] == 's');
    assert("css"@[0] == 'c' && "png"@[0] == 'p');
    assert("html"@[0] == 'h' && "woff"@[0] == 'w');
    assert("html"@[0] == 'h' && "json"@[0] == 'j');
    assert("svg"@[0] == 's' && "png"@[0] == 'p');
    assert("woff"@[0] == 'w' && "json"@[0] == 'j');
}

} // verus!
