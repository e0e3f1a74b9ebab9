//! A voice call with a realtime model: what is said to the service and what is heard from it.

use crate::audio::base64_text;
use crate::audio::decode_samples;
use crate::audio::encode_samples;
use crate::audio::sample_bytes;
use crate::audio::wire_samples;
use crate::json::opt_text;
use crate::json::parse;
use crate::json::printed;
use crate::json::read;
use crate::json::text_or;
use crate::json::trees;
use crate::json::under;
use crate::json::under_key;
use crate::json::get_text_or;
use crate::json::Json;
use crate::json::ObjectBuilder;
use crate::json::Tree;
use crate::mcp::catalog::list;
use crate::mcp::catalog::tool_list;
use crate::text::before_char;
use crate::text::blank;
use crate::text::cut_before;
use crate::text::from_utf8_lossy;
use crate::text::is_blank;
use crate::text::lossy_text;
use crate::text::same;
use crate::text::trim;
use crate::text::trim_end_char;
use crate::text::trim_start_matches;
use crate::text::trimmed;
use crate::text::views;
use crate::text::without_leading;
use crate::text::without_trailing;
use vstd::prelude::*;

verus! {

/// A setting of the environment, or what stands in for one that is missing or blank.
pub open spec fn set_or(value: Option<Seq<char>>, other: Seq<char>) -> Seq<char> {
    match value {
        Some(v) => if is_blank(v) {
            other
        } else {
            v
        },
        None => other,
    }
}

fn chosen(value: Option<&str>, other: &str) -> (r: String)
    ensures
        r@ == set_or(opt_text(value), other@),
{
    match value {
        Some(v) => if blank(v) {
            other.to_owned()
        } else {
            v.to_owned()
        },
        None => other.to_owned(),
    }
}

/// The deployment of the model that is called.
pub fn deployment(set: Option<&str>) -> (r: String)
    ensures
        r@ == set_or(opt_text(set), "gpt-realtime-2.1-mini"@),
{
    chosen(set, "gpt-realtime-2.1-mini")
}

/// The name of the resource that an endpoint belongs to: what stands before its first dot.
pub open spec fn resource_of(endpoint: Seq<char>) -> Seq<char> {
    before_char(without_leading(endpoint, "https://"@), '.')
}

/// The name of the resource: the one that was set, or that of the endpoint.
pub fn resource_name(set: Option<&str>, endpoint: &str) -> (r: String)
    ensures
        r@ == set_or(opt_text(set), resource_of(endpoint@)),
{
    proof {
        reveal_strlit("https://");
    }
    let host = trim_start_matches(endpoint, "https://");
    let name = cut_before(host.as_str(), '.');
    chosen(set, name.as_str())
}

/// The group of the resource.
pub fn resource_group(set: Option<&str>) -> (r: String)
    ensures
        r@ == set_or(opt_text(set), "openai"@),
{
    chosen(set, "openai")
}

/// For how many seconds a key is used before it is asked for again.
pub const KEY_SECONDS: u64 = 2700;

/// Whether a key that was got so many seconds ago is still used.
pub fn key_is_fresh(age: u64) -> (r: bool)
    ensures
        r == (age < KEY_SECONDS),
{
    age < KEY_SECONDS
}

/// The arguments with which the command line of the service tells the key of a resource.
pub open spec fn key_arguments(name: Seq<char>, group: Seq<char>) -> Seq<Seq<char>> {
    seq![
        "cognitiveservices"@,
        "account"@,
        "keys"@,
        "list"@,
        "--name"@,
        name,
        "--resource-group"@,
        group,
        "--query"@,
        "key1"@,
        "-o"@,
        "tsv"@,
    ]
}

/// The arguments with which the command line of the service tells the key of a resource.
pub fn key_args(name: &str, group: &str) -> (r: Vec<String>)
    ensures
        views(r@) == key_arguments(name@, group@),
{
    let mut v: Vec<String> = Vec::new();
    v.push("cognitiveservices".to_owned());
    v.push("account".to_owned());
    v.push("keys".to_owned());
    v.push("list".to_owned());
    v.push("--name".to_owned());
    v.push(name.to_owned());
    v.push("--resource-group".to_owned());
    v.push(group.to_owned());
    v.push("--query".to_owned());
    v.push("key1".to_owned());
    v.push("-o".to_owned());
    v.push("tsv".to_owned());
    assert(views(v@) =~= key_arguments(name@, group@));
    v
}

/// What the command line of the service told: the key, or why there is none.
pub open spec fn key_reply(success: bool, out: Seq<char>, err: Seq<char>) -> Result<
    Seq<char>,
    Seq<char>,
> {
    if !success {
        Err("az cognitiveservices account keys list failed (run `az login`): "@ + trimmed(err))
    } else if trimmed(out).len() == 0 {
        Err("az returned an empty API key"@)
    } else {
        Ok(trimmed(out))
    }
}

/// The content of an outcome.
pub open spec fn outcome_view(r: Result<String, String>) -> Result<Seq<char>, Seq<char>> {
    match r {
        Ok(s) => Ok(s@),
        Err(e) => Err(e@),
    }
}

/// Reads what the command line of the service told.
pub fn read_key(success: bool, out: &Vec<u8>, err: &Vec<u8>) -> (r: Result<String, String>)
    ensures
        outcome_view(r) == key_reply(success, lossy_text(out@), lossy_text(err@)),
{
    let out_text = from_utf8_lossy(out);
    let err_text = from_utf8_lossy(err);
    key_from(success, out_text.as_str(), err_text.as_str())
}

/// Reads what the command line of the service told, as texts.
pub fn key_from(success: bool, out: &str, err: &str) -> (r: Result<String, String>)
    ensures
        outcome_view(r) == key_reply(success, out@, err@),
{
    if !success {
        let mut m = "az cognitiveservices account keys list failed (run `az login`): ".to_owned();
        m.append(trim(err).as_str());
        return Err(m);
    }
    let key = trim(out);
    if key.as_str().is_empty() {
        Err("az returned an empty API key".to_owned())
    } else {
        Ok(key)
    }
}

/// The address of the call.
pub open spec fn call_address(endpoint: Seq<char>, deployment: Seq<char>) -> Seq<char> {
    "wss://"@ + without_trailing(without_leading(endpoint, "https://"@), '/')
        + "/openai/realtime?api-version=2024-10-01-preview&deployment="@ + deployment
}

/// The address of the call to a deployment at an endpoint.
pub fn realtime_url(endpoint: &str, deployment: &str) -> (r: String)
    ensures
        r@ == call_address(endpoint@, deployment@),
{
    proof {
        reveal_strlit("https://");
    }
    let host = trim_end_char(trim_start_matches(endpoint, "https://").as_str(), '/');
    let mut r = "wss://".to_owned();
    r.append(host.as_str());
    r.append("/openai/realtime?api-version=2024-10-01-preview&deployment=");
    r.append(deployment);
    r
}

/// A member, or what stands in for one that is missing.
pub open spec fn tree_or(o: Option<Tree>, other: Tree) -> Tree {
    match o {
        Some(t) => t,
        None => other,
    }
}

/// The schema of a tool without arguments.
pub open spec fn no_arguments() -> Tree {
    Tree::Obj(seq![("type"@, Tree::Str("object"@)), ("properties"@, Tree::Obj(Seq::empty()))])
}

/// A tool as the service wants it: flat, its schema as parameters.
pub open spec fn session_tool(t: Tree) -> Tree {
    Tree::Obj(
        seq![
            ("type"@, Tree::Str("function"@)),
            ("name"@, tree_or(t.get("name"@), Tree::Null)),
            ("description"@, tree_or(t.get("description"@), Tree::Null)),
            ("parameters"@, tree_or(t.get("inputSchema"@), no_arguments())),
        ],
    )
}

/// The tools as the service wants them.
pub open spec fn session_tools(tools: Seq<Tree>) -> Seq<Tree> {
    Seq::new(tools.len(), |i: int| session_tool(tools[i]))
}

fn copy_or(o: Option<&Json>, other: Json) -> (r: Json)
    ensures
        r@ == tree_or(crate::json::opt_tree(o), other@),
{
    match o {
        Some(j) => j.copy(),
        None => other,
    }
}

fn empty_schema() -> (r: Json)
    ensures
        r@ == no_arguments(),
{
    let mut b = ObjectBuilder::new();
    b.put_str("type", "object");
    let none = ObjectBuilder::new();
    b.put("properties", none.build());
    assert(b@ =~= no_arguments()->Obj_0);
    b.build()
}

fn one_tool(t: &Json) -> (r: Json)
    ensures
        r@ == session_tool(t@),
{
    let mut b = ObjectBuilder::new();
    b.put_str("type", "function");
    b.put("name", copy_or(t.get("name"), Json::Null));
    b.put("description", copy_or(t.get("description"), Json::Null));
    b.put("parameters", copy_or(t.get("inputSchema"), empty_schema()));
    assert(b@ =~= session_tool(t@)->Obj_0);
    b.build()
}

/// The tools that a list names, as the service wants them.
pub fn flat_tools(tools: &Json) -> (r: Json)
    ensures
        r@ == Tree::Arr(session_tools(crate::json::list_or_none(Some(tools@)))),
{
    let mut out: Vec<Json> = Vec::new();
    let ghost all = crate::json::list_or_none(Some(tools@));
    let ghost want = session_tools(all);
    assert(trees(out@) =~= want.take(0));
    if let Some(v) = tools.as_list() {
        let mut k: usize = 0;
        while k < v.len()
            invariant
                k <= v@.len(),
                all == trees(v@),
                want == session_tools(all),
                trees(out@) == want.take(k as int),
            decreases v.len() - k,
        {
            let one = one_tool(&v[k]);
            let ghost so_far = trees(out@);
            let ghost ov = one@;
            assert(all[k as int] == v@[k as int]@);
            out.push(one);
            assert(trees(out@) =~= so_far.push(ov));
            assert(want.take(k + 1) =~= want.take(k as int).push(want[k as int]));
            k = k + 1;
        }
        assert(want.take(k as int) =~= want);
    } else {
        assert(want.take(0) =~= want);
    }
    Json::list(out)
}

/// The tools that the model may call: all that the server offers.
pub fn tools_for_session() -> (r: Json)
    ensures
        r@ == Tree::Arr(session_tools(tool_list())),
{
    flat_tools(&list())
}

/// What the call asks for when it begins.
pub open spec fn session_tree() -> Tree {
    Tree::Obj(
        seq![
            ("type"@, Tree::Str("session.update"@)),
            (
                "session"@,
                Tree::Obj(
                    seq![
                        (
                            "modalities"@,
                            Tree::Arr(seq![Tree::Str("audio"@), Tree::Str("text"@)]),
                        ),
                        ("voice"@, Tree::Str("alloy"@)),
                        ("input_audio_format"@, Tree::Str("pcm16"@)),
                        ("output_audio_format"@, Tree::Str("pcm16"@)),
                        (
                            "input_audio_transcription"@,
                            Tree::Obj(seq![("model"@, Tree::Str("whisper-1"@))]),
                        ),
                        (
                            "turn_detection"@,
                            Tree::Obj(
                                seq![
                                    ("type"@, Tree::Str("server_vad"@)),
                                    ("interrupt_response"@, Tree::Bool(true)),
                                ],
                            ),
                        ),
                        ("tools"@, Tree::Arr(session_tools(tool_list()))),
                        ("tool_choice"@, Tree::Str("auto"@)),
                    ],
                ),
            ),
        ],
    )
}

/// What the call asks for when it begins: speech both ways, the service itself telling when the
/// user has spoken, and the tools.
pub fn session_update() -> (r: Json)
    ensures
        r@ == session_tree(),
{
    let ghost inner = session_tree()->Obj_0[1].1->Obj_0;
    let mut kinds: Vec<Json> = Vec::new();
    kinds.push(Json::text("audio"));
    kinds.push(Json::text("text"));
    assert(trees(kinds@) =~= seq![Tree::Str("audio"@), Tree::Str("text"@)]);
    let mut model = ObjectBuilder::new();
    model.put_str("model", "whisper-1");
    assert(model@ =~= inner[4].1->Obj_0);
    let mut turns = ObjectBuilder::new();
    turns.put_str("type", "server_vad");
    turns.put("interrupt_response", Json::Bool(true));
    assert(turns@ =~= inner[5].1->Obj_0);
    let mut s = ObjectBuilder::new();
    s.put("modalities", Json::list(kinds));
    s.put_str("voice", "alloy");
    s.put_str("input_audio_format", "pcm16");
    s.put_str("output_audio_format", "pcm16");
    s.put("input_audio_transcription", model.build());
    s.put("turn_detection", turns.build());
    s.put("tools", tools_for_session());
    s.put_str("tool_choice", "auto");
    assert(s@ =~= inner);
    let mut b = ObjectBuilder::new();
    b.put_str("type", "session.update");
    b.put("session", s.build());
    assert(b@ =~= session_tree()->Obj_0);
    b.build()
}

/// What the user interface tells the call.
#[derive(Clone, Copy, PartialEq, Eq, Debug, Structural)]
pub enum VoiceCmd {
    /// End the call.
    Stop,
}

/// The call as the user interface holds it: whether it is up, and what it was told and has not
/// taken yet.
pub struct VoiceHandle {
    pub connected: bool,
    pub commands: Vec<VoiceCmd>,
}

impl VoiceHandle {
    /// A call that is not up yet.
    pub fn new() -> (r: VoiceHandle)
        ensures
            !r.connected,
            r.commands@.len() == 0,
    {
        VoiceHandle { connected: false, commands: Vec::new() }
    }

    /// Tells the call to end.
    pub fn stop(&mut self)
        ensures
            final(self).connected == old(self).connected,
            final(self).commands@ == old(self).commands@.push(VoiceCmd::Stop),
    {
        self.commands.push(VoiceCmd::Stop);
    }

    /// Whether the call is up.
    pub fn is_connected(&self) -> (r: bool)
        ensures
            r == self.connected,
    {
        self.connected
    }
}

/// What was heard from the service: texts of type `T`, arguments of type `J`, samples of type
/// `S`.
pub enum VoiceEvent<T, J, S> {
    /// The model calls a tool.
    Call { call_id: T, name: T, args: J },
    /// The model speaks.
    Audio { samples: S },
    /// More of what the model says, as text.
    AssistantText { words: T },
    /// What the user said, as text; a last piece is `done`.
    UserText { heard: T, done: bool },
    /// The user speaks: what is still to be played is dropped.
    SpeechStarted,
    /// The model is done.
    AssistantDone,
    /// The service reports an error.
    Failed { message: T },
    /// Nothing that matters here.
    Nothing,
}

/// What was heard, as contents.
pub type Heard = VoiceEvent<Seq<char>, Tree, Seq<i16>>;

impl View for VoiceEvent<String, Json, Vec<i16>> {
    type V = Heard;

    open spec fn view(&self) -> Heard {
        match *self {
            VoiceEvent::Call { call_id, name, args } => VoiceEvent::Call {
                call_id: call_id@,
                name: name@,
                args: args@,
            },
            VoiceEvent::Audio { samples } => VoiceEvent::Audio { samples: samples@ },
            VoiceEvent::AssistantText { words } => VoiceEvent::AssistantText { words: words@ },
            VoiceEvent::UserText { heard, done } => VoiceEvent::UserText { heard: heard@, done },
            VoiceEvent::SpeechStarted => VoiceEvent::SpeechStarted,
            VoiceEvent::AssistantDone => VoiceEvent::AssistantDone,
            VoiceEvent::Failed { message } => VoiceEvent::Failed { message: message@ },
            VoiceEvent::Nothing => VoiceEvent::Nothing,
        }
    }
}

/// The arguments that a text holds; none where it is malformed.
pub open spec fn arguments_of(text: Seq<char>) -> Tree {
    tree_or(read(text), Tree::Obj(Seq::empty()))
}

/// The kind of a message.
pub open spec fn kind_of(v: Tree) -> Seq<char> {
    match v.str_at("type"@) {
        Some(k) => k,
        None => ""@,
    }
}

/// What a message of the service means.
pub open spec fn event_of(v: Tree) -> Heard {
    let kind = kind_of(v);
    if kind == "response.function_call_arguments.done"@ {
        match (v.str_at("call_id"@), v.str_at("name"@)) {
            (Some(call_id), Some(name)) => VoiceEvent::Call {
                call_id,
                name,
                args: arguments_of(text_or(v.get("arguments"@), "{}"@)),
            },
            _ => VoiceEvent::Nothing,
        }
    } else if kind == "response.audio.delta"@ {
        match v.str_at("delta"@) {
            Some(d) => match wire_samples(d) {
                Some(samples) => VoiceEvent::Audio { samples },
                None => VoiceEvent::Nothing,
            },
            None => VoiceEvent::Nothing,
        }
    } else if kind == "response.audio_transcript.delta"@ || kind == "response.text.delta"@ {
        match v.str_at("delta"@) {
            Some(words) => VoiceEvent::AssistantText { words },
            None => VoiceEvent::Nothing,
        }
    } else if kind == "conversation.item.input_audio_transcription.delta"@ {
        match v.str_at("delta"@) {
            Some(heard) => VoiceEvent::UserText { heard, done: false },
            None => VoiceEvent::Nothing,
        }
    } else if kind == "conversation.item.input_audio_transcription.completed"@ {
        VoiceEvent::UserText { heard: text_or(v.get("transcript"@), ""@), done: true }
    } else if kind == "input_audio_buffer.speech_started"@ {
        VoiceEvent::SpeechStarted
    } else if kind == "response.done"@ {
        VoiceEvent::AssistantDone
    } else if kind == "error"@ {
        VoiceEvent::Failed {
            message: text_or(
                under(v.get("error"@), "message"@),
                "unknown Realtime API error"@,
            ),
        }
    } else {
        VoiceEvent::Nothing
    }
}

fn read_arguments(text: &str) -> (r: Json)
    ensures
        r@ == arguments_of(text@),
{
    match parse(text) {
        Some(j) => j,
        None => {
            let none = ObjectBuilder::new();
            none.build()
        },
    }
}

/// What a message of the service means.
pub fn handle_event(v: &Json) -> (r: VoiceEvent<String, Json, Vec<i16>>)
    ensures
        r@ == event_of(v@),
{
    let kind = match v.str_at("type") {
        Some(k) => k,
        None => "",
    };
    if same(kind, "response.function_call_arguments.done") {
        match (v.str_at("call_id"), v.str_at("name")) {
            (Some(call_id), Some(name)) => {
                let text = get_text_or(v.get("arguments"), "{}");
                let args = read_arguments(text.as_str());
                VoiceEvent::Call { call_id: call_id.to_owned(), name: name.to_owned(), args }
            },
            _ => VoiceEvent::Nothing,
        }
    } else if same(kind, "response.audio.delta") {
        match v.str_at("delta") {
            Some(d) => match decode_samples(d) {
                Some(samples) => VoiceEvent::Audio { samples },
                None => VoiceEvent::Nothing,
            },
            None => VoiceEvent::Nothing,
        }
    } else if same(kind, "response.audio_transcript.delta") || same(kind, "response.text.delta") {
        match v.str_at("delta") {
            Some(d) => VoiceEvent::AssistantText { words: d.to_owned() },
            None => VoiceEvent::Nothing,
        }
    } else if same(kind, "conversation.item.input_audio_transcription.delta") {
        match v.str_at("delta") {
            Some(d) => VoiceEvent::UserText { heard: d.to_owned(), done: false },
            None => VoiceEvent::Nothing,
        }
    } else if same(kind, "conversation.item.input_audio_transcription.completed") {
        VoiceEvent::UserText { heard: get_text_or(v.get("transcript"), ""), done: true }
    } else if same(kind, "input_audio_buffer.speech_started") {
        VoiceEvent::SpeechStarted
    } else if same(kind, "response.done") {
        VoiceEvent::AssistantDone
    } else if same(kind, "error") {
        VoiceEvent::Failed {
            message: get_text_or(
                under_key(v.get("error"), "message"),
                "unknown Realtime API error",
            ),
        }
    } else {
        VoiceEvent::Nothing
    }
}

/// The request for a response.
pub open spec fn create_tree() -> Tree {
    Tree::Obj(seq![("type"@, Tree::Str("response.create"@))])
}

fn create_message() -> (r: Json)
    ensures
        r@ == create_tree(),
{
    let mut b = ObjectBuilder::new();
    b.put_str("type", "response.create");
    assert(b@ =~= create_tree()->Obj_0);
    b.build()
}

/// The text of what a tool gave.
pub open spec fn output_text(result: Result<Tree, Seq<char>>) -> Seq<char> {
    match result {
        Ok(v) => printed(v),
        Err(e) => printed(Tree::Obj(seq![("error"@, Tree::Str(e))])),
    }
}

/// The message that hands what a tool gave to the model.
pub open spec fn output_tree(call_id: Seq<char>, result: Result<Tree, Seq<char>>) -> Tree {
    Tree::Obj(
        seq![
            ("type"@, Tree::Str("conversation.item.create"@)),
            (
                "item"@,
                Tree::Obj(
                    seq![
                        ("type"@, Tree::Str("function_call_output"@)),
                        ("call_id"@, Tree::Str(call_id)),
                        ("output"@, Tree::Str(output_text(result))),
                    ],
                ),
            ),
        ],
    )
}

/// The content of what a tool gave.
pub open spec fn result_view(r: Result<Json, String>) -> Result<Tree, Seq<char>> {
    match r {
        Ok(v) => Ok(v@),
        Err(e) => Err(e@),
    }
}

fn output_message(call_id: &str, result: &Result<Json, String>) -> (r: Json)
    ensures
        r@ == output_tree(call_id@, result_view(*result)),
{
    let text = match result {
        Ok(v) => v.to_text(),
        Err(e) => {
            let mut b = ObjectBuilder::new();
            b.put_str("error", e.as_str());
            assert(b@ =~= seq![("error"@, Tree::Str(e@))]);
            b.build().to_text()
        },
    };
    let ghost want = output_tree(call_id@, result_view(*result))->Obj_0;
    let mut item = ObjectBuilder::new();
    item.put_str("type", "function_call_output");
    item.put_str("call_id", call_id);
    item.put_str("output", text.as_str());
    assert(item@ =~= want[1].1->Obj_0);
    let mut b = ObjectBuilder::new();
    b.put_str("type", "conversation.item.create");
    b.put("item", item.build());
    assert(b@ =~= want);
    b.build()
}

/// The message that carries sound to the service.
pub open spec fn append_tree(samples: Seq<i16>) -> Tree {
    Tree::Obj(
        seq![
            ("type"@, Tree::Str("input_audio_buffer.append"@)),
            ("audio"@, Tree::Str(base64_text(sample_bytes(samples)))),
        ],
    )
}

/// Takes the sound that waits to be sent, as the message that carries it; nothing is sent where
/// nothing waits. The service reads the same samples back from the message.
pub fn flush_outgoing(waiting: &mut Vec<i16>) -> (r: Option<Json>)
    requires
        old(waiting)@.len() <= usize::MAX / 8,
    ensures
        final(waiting)@.len() == 0,
        match r {
            Some(m) => {
                &&& old(waiting)@.len() > 0
                &&& m@ == append_tree(old(waiting)@)
                &&& wire_samples(m@->Obj_0[1].1->Str_0) == Some(old(waiting)@)
            },
            None => old(waiting)@.len() == 0,
        },
{
    if waiting.len() == 0 {
        return None;
    }
    let ghost samples = waiting@;
    let text = encode_samples(waiting);
    waiting.clear();
    let mut b = ObjectBuilder::new();
    b.put_str("type", "input_audio_buffer.append");
    b.put_str("audio", text.as_str());
    assert(b@ =~= append_tree(samples)->Obj_0);
    Some(b.build())
}

/// Where the call stands: whether the service is making a response, and whether another was put
/// off until it is done.
#[derive(Clone, Copy, PartialEq, Eq, Debug, Structural)]
pub struct Turn {
    pub active: bool,
    pub put_off: bool,
}

/// What a message of a kind does to the turn, and whether a response is asked for.
pub open spec fn after_kind(t: Turn, kind: Seq<char>) -> (Turn, bool) {
    if kind == "response.created"@ {
        ((Turn { active: true, put_off: t.put_off }), false)
    } else if kind == "response.done"@ {
        if t.put_off {
            ((Turn { active: true, put_off: false }), true)
        } else {
            ((Turn { active: false, put_off: false }), false)
        }
    } else {
        (t, false)
    }
}

/// What the result of a tool does to the turn, and whether a response is asked for.
pub open spec fn after_result(t: Turn) -> (Turn, bool) {
    if t.active {
        ((Turn { active: true, put_off: true }), false)
    } else {
        ((Turn { active: true, put_off: t.put_off }), true)
    }
}

/// How a tool that was called stands.
pub enum Poll {
    /// It is done.
    Ready { result: Result<Json, String> },
    /// It still runs.
    Waiting,
    /// It will never answer.
    Gone,
}

/// What the tools that were called bring, taken one after the other: the calls that still
/// wait, the messages for the service, and the turn.
pub open spec fn polled(
    calls: Seq<Seq<char>>,
    polls: Seq<Poll>,
    t: Turn,
    n: int,
) -> (Seq<Seq<char>>, Seq<Tree>, Turn)
    decreases n,
{
    if n <= 0 {
        (Seq::empty(), Seq::empty(), t)
    } else {
        let (left, sent, turn) = polled(calls, polls, t, n - 1);
        match polls[n - 1] {
            Poll::Ready { result } => {
                let (next, asks) = after_result(turn);
                let with_output = sent.push(output_tree(calls[n - 1], result_view(result)));
                (
                    left,
                    if asks {
                        with_output.push(create_tree())
                    } else {
                        with_output
                    },
                    next,
                )
            },
            Poll::Waiting => (left.push(calls[n - 1]), sent, turn),
            Poll::Gone => (left, sent, turn),
        }
    }
}

/// A call: its turn, and the tools that the model has called and that have not answered.
pub struct Session {
    pub turn: Turn,
    pub calls: Vec<String>,
}

impl Session {
    /// A call that just began.
    pub fn new() -> (r: Session)
        ensures
            r.turn == (Turn { active: false, put_off: false }),
            r.calls@.len() == 0,
    {
        Session { turn: Turn { active: false, put_off: false }, calls: Vec::new() }
    }

    /// Takes a message of the service: what it means, and the request for a response where one
    /// is due. A tool that the model calls waits from then on.
    pub fn take(&mut self, v: &Json) -> (r: (VoiceEvent<String, Json, Vec<i16>>, Option<Json>))
        ensures
            r.0@ == event_of(v@),
            final(self).turn == after_kind(old(self).turn, kind_of(v@)).0,
            match r.1 {
                Some(m) => after_kind(old(self).turn, kind_of(v@)).1 && m@ == create_tree(),
                None => !after_kind(old(self).turn, kind_of(v@)).1,
            },
            views(final(self).calls@) == match event_of(v@) {
                VoiceEvent::Call { call_id, .. } => views(old(self).calls@).push(call_id),
                _ => views(old(self).calls@),
            },
    {
        let kind = match v.str_at("type") {
            Some(k) => k,
            None => "",
        };
        let mut ask: Option<Json> = None;
        if same(kind, "response.created") {
            self.turn = Turn { active: true, put_off: self.turn.put_off };
        } else if same(kind, "response.done") {
            if self.turn.put_off {
                self.turn = Turn { active: true, put_off: false };
                ask = Some(create_message());
            } else {
                self.turn = Turn { active: false, put_off: false };
            }
        }
        let event = handle_event(v);
        let ghost before = views(self.calls@);
        if let VoiceEvent::Call { call_id, .. } = &event {
            self.calls.push(call_id.as_str().to_owned());
            assert(views(self.calls@) =~= before.push(call_id@));
        }
        (event, ask)
    }

    /// Takes a message of the service as text; a malformed one means nothing.
    pub fn take_text(&mut self, text: &str) -> (r: (
        VoiceEvent<String, Json, Vec<i16>>,
        Option<Json>,
    ))
        ensures
            match read(text@) {
                Some(v) => {
                    &&& r.0@ == event_of(v)
                    &&& final(self).turn == after_kind(old(self).turn, kind_of(v)).0
                    &&& match r.1 {
                        Some(m) => after_kind(old(self).turn, kind_of(v)).1 && m@ == create_tree(),
                        None => !after_kind(old(self).turn, kind_of(v)).1,
                    }
                    &&& views(final(self).calls@) == match event_of(v) {
                        VoiceEvent::Call { call_id, .. } => views(old(self).calls@).push(call_id),
                        _ => views(old(self).calls@),
                    }
                },
                None => r.0 is Nothing && r.1 is None && *final(self) == *old(self),
            },
    {
        match parse(text) {
            Some(v) => self.take(&v),
            None => (VoiceEvent::Nothing, None),
        }
    }

    /// Takes what the tools that were called bring; the messages for the service.
    pub fn poll(&mut self, polls: &Vec<Poll>) -> (r: Vec<Json>)
        requires
            polls@.len() == old(self).calls@.len(),
        ensures
            (views(final(self).calls@), trees(r@), final(self).turn) == polled(
                views(old(self).calls@),
                polls@,
                old(self).turn,
                polls@.len() as int,
            ),
    {
        let ghost calls = views(self.calls@);
        let ghost t = self.turn;
        let mut left: Vec<String> = Vec::new();
        let mut sent: Vec<Json> = Vec::new();
        assert(views(left@) =~= Seq::<Seq<char>>::empty());
        assert(trees(sent@) =~= Seq::<Tree>::empty());
        let mut k: usize = 0;
        while k < polls.len()
            invariant
                k <= polls@.len(),
                polls@.len() == self.calls@.len(),
                calls == views(self.calls@),
                (views(left@), trees(sent@), self.turn) == polled(calls, polls@, t, k as int),
            decreases polls.len() - k,
        {
            assert(calls[k as int] == self.calls@[k as int]@);
            let ghost lv = views(left@);
            let ghost sv = trees(sent@);
            match &polls[k] {
                Poll::Ready { result } => {
                    let out = output_message(self.calls[k].as_str(), result);
                    let ghost ov = out@;
                    sent.push(out);
                    assert(trees(sent@) =~= sv.push(ov));
                    if self.turn.active {
                        self.turn = Turn { active: true, put_off: true };
                    } else {
                        self.turn = Turn { active: true, put_off: self.turn.put_off };
                        let ask = create_message();
                        let ghost av = ask@;
                        sent.push(ask);
                        assert(trees(sent@) =~= sv.push(ov).push(av));
                    }
                },
                Poll::Waiting => {
                    left.push(self.calls[k].as_str().to_owned());
                    assert(views(left@) =~= lv.push(calls[k as int]));
                },
                Poll::Gone => {},
            }
            k = k + 1;
        }
        self.calls = left;
        sent
    }
}

/// Whether a turn can be: a response is put off only while another is being made.
pub open spec fn turn_is_sound(t: Turn) -> bool {
    t.put_off ==> t.active
}

/// A response is asked for only when none is being made, and then one is; one that was put off
/// is asked for as soon as the other is done. So the service never sees a second request while
/// it makes a response, and none that is due is lost.
pub proof fn law_one_response_at_a_time(t: Turn, kind: Seq<char>)
    requires
        turn_is_sound(t),
    ensures
        turn_is_sound(after_kind(t, kind).0),
        turn_is_sound(after_result(t).0),
        after_result(t).1 == !t.active,
        after_result(t).1 ==> after_result(t).0.active,
        !after_result(t).1 ==> after_result(t).0.put_off,
        after_kind(t, kind).1 ==> kind == "response.done"@ && after_kind(t, kind).0.active,
        t.put_off && kind == "response.done"@ ==> after_kind(t, kind).1,
{
    reveal_strlit("response.created");
    reveal_strlit("response.done");
    assert("response.created"@.len() == 16 && "response.done"@.len() == 13);
}

/// How many of the messages ask for a response.
pub open spec fn asked(sent: Seq<Tree>) -> nat
    decreases sent.len(),
{
    if sent.len() == 0 {
        0
    } else {
        asked(sent.drop_last()) + (if sent.last() == create_tree() {
            1nat
        } else {
            0nat
        })
    }
}

/// However many tools answer at once, at most one response is asked for, and none while one is
/// being made.
pub proof fn law_results_ask_at_most_once(
    calls: Seq<Seq<char>>,
    polls: Seq<Poll>,
    t: Turn,
    n: int,
)
    requires
        0 <= n <= polls.len(),
        calls.len() == polls.len(),
    ensures
        asked(polled(calls, polls, t, n).1) <= 1,
        t.active ==> asked(polled(calls, polls, t, n).1) == 0 && polled(
            calls,
            polls,
            t,
            n,
        ).2.active,
        asked(polled(calls, polls, t, n).1) == 1 ==> polled(calls, polls, t, n).2.active,
    decreases n,
{
    if n > 0 {
        law_results_ask_at_most_once(calls, polls, t, n - 1);
        let (left, sent, turn) = polled(calls, polls, t, n - 1);
        if let Poll::Ready { result } = polls[n - 1] {
            let out = output_tree(calls[n - 1], result_view(result));
            assert(out->Obj_0.len() == 2 && create_tree()->Obj_0.len() == 1);
            assert(sent.push(out).drop_last() =~= sent);
            assert(asked(sent.push(out)) == asked(sent));
            let more = sent.push(out).push(create_tree());
            assert(more.drop_last() =~= sent.push(out));
            assert(asked(more) == asked(sent) + 1);
        }
    }
}

/// What the service says is heard as what it is: a call of a tool with its id, its name and its
/// arguments, pieces of what was said with their words, and an error with its message.
pub proof fn law_events_are_heard(v: Tree, kind: Seq<char>, a: Seq<char>, b: Seq<char>, args: Seq<char>)
    requires
        v.get("type"@) == Some(Tree::Str(kind)),
    ensures
        kind == "response.function_call_arguments.done"@ && v.get("call_id"@) == Some(Tree::Str(a))
            && v.get("name"@) == Some(Tree::Str(b)) && v.get("arguments"@) == Some(Tree::Str(args))
            ==> match event_of(v) {
            VoiceEvent::Call { call_id, name, args: given } => call_id == a && name == b && (read(
                args,
            ) matches Some(t) ==> given == t),
            _ => false,
        },
        (kind == "response.audio_transcript.delta"@ || kind == "response.text.delta"@) && v.get(
            "delta"@,
        ) == Some(Tree::Str(a)) ==> event_of(v) == (Heard::AssistantText { words: a }),
        kind == "conversation.item.input_audio_transcription.delta"@ && v.get("delta"@) == Some(
            Tree::Str(a),
        ) ==> event_of(v) == (Heard::UserText { heard: a, done: false }),
        kind == "conversation.item.input_audio_transcription.completed"@ && v.get("transcript"@)
            == Some(Tree::Str(a)) ==> event_of(v) == (Heard::UserText { heard: a, done: true }),
        kind == "input_audio_buffer.speech_started"@ ==> event_of(v) is SpeechStarted,
        kind == "response.done"@ ==> event_of(v) is AssistantDone,
        kind == "error"@ && v.get("error"@) is Some && v.get("error"@)->0.get("message"@) == Some(
            Tree::Str(a),
        ) ==> event_of(v) == (Heard::Failed { message: a }),
{
    reveal_strlit("response.function_call_arguments.done");
    reveal_strlit("response.audio.delta");
    reveal_strlit("response.audio_transcript.delta");
    reveal_strlit("response.text.delta");
    reveal_strlit("conversation.item.input_audio_transcription.delta");
    reveal_strlit("conversation.item.input_audio_transcription.completed");
    reveal_strlit("input_audio_buffer.speech_started");
    reveal_strlit("response.done");
    reveal_strlit("error");
    assert("response.function_call_arguments.done"@.len() == 37);
    assert("response.audio.delta"@.len() == 20);
    assert("response.audio_transcript.delta"@.len() == 31);
    assert("response.text.delta"@.len() == 19);
    assert("conversation.item.input_audio_transcription.delta"@.len() == 49);
    assert("conversation.item.input_audio_transcription.completed"@.len() == 53);
    assert("input_audio_buffer.speech_started"@.len() == 33);
    assert("response.done"@.len() == 13);
    assert("error"@.len() == 5);
}

/// A piece of sound is heard as the samples that its text holds, and not at all where it holds
/// none.
pub proof fn law_sound_is_heard(v: Tree, delta: Seq<char>)
    requires
        v.get("type"@) == Some(Tree::Str("response.audio.delta"@)),
        v.get("delta"@) == Some(Tree::Str(delta)),
    ensures
        wire_samples(delta) matches Some(samples) ==> event_of(v) == (Heard::Audio { samples }),
        wire_samples(delta) is None ==> event_of(v) is Nothing,
{
    reveal_strlit("response.audio.delta");
    reveal_strlit("response.function_call_arguments.done");
    assert("response.audio.delta"@.len() == 20);
    assert("response.function_call_arguments.done"@.len() == 37);
}

/// The tools are offered to the model under their names, with their descriptions and what they
/// take.
pub proof fn law_tools_are_offered(tools: Seq<Tree>, i: int, name: Tree, about: Tree, schema: Tree)
    requires
        0 <= i < tools.len(),
        tools[i].get("name"@) == Some(name),
        tools[i].get("description"@) == Some(about),
        tools[i].get("inputSchema"@) == Some(schema),
    ensures
        session_tools(tools).len() == tools.len(),
        session_tools(tools)[i].get("type"@) == Some(Tree::Str("function"@)),
        session_tools(tools)[i].get("name"@) == Some(name),
        session_tools(tools)[i].get("description"@) == Some(about),
        session_tools(tools)[i].get("parameters"@) == Some(schema),
{
    reveal_strlit("type");
    reveal_strlit("name");
    reveal_strlit("description");
    reveal_strlit("parameters");
    assert("type"@.len() == 4);
    assert("name"@.len() == 4);
    assert("description"@.len() == 11);
    assert("parameters"@.len() == 10);
    assert("type"@[0] == 't' && "name"@[0] == 'n');
    let m = session_tool(tools[i])->Obj_0;
    assert(m[0].0 == "type"@);
    assert(m[1].0 == "name"@);
    assert(m[2].0 == "description"@);
    assert(m[3].0 == "parameters"@);
    crate::json::lemma_get_at(m, "type"@, 0);
    crate::json::lemma_get_at(m, "name"@, 1);
    crate::json::lemma_get_at(m, "description"@, 2);
    crate::json::lemma_get_at(m, "parameters"@, 3);
}

/// What a tool gave back goes to the model under the id of the call.
pub proof fn law_outputs_carry_the_call(call_id: Seq<char>, v: Tree, e: Seq<char>)
    ensures
        ({
            let item = output_tree(call_id, Ok(v)).get("item"@);
            &&& item is Some
            &&& item->0.get("call_id"@) == Some(Tree::Str(call_id))
            &&& item->0.get("output"@) == Some(Tree::Str(printed(v)))
        }),
        ({
            let item = output_tree(call_id, Err(e)).get("item"@);
            &&& item is Some
            &&& item->0.get("call_id"@) == Some(Tree::Str(call_id))
            &&& item->0.get("output"@) == Some(
                Tree::Str(printed(Tree::Obj(seq![("error"@, Tree::Str(e))]))),
            )
        }),
{
    reveal_strlit("type");
    reveal_strlit("call_id");
    reveal_strlit("output");
    reveal_strlit("item");
    assert("type"@.len() == 4);
    assert("call_id"@.len() == 7);
    assert("output"@.len() == 6);
    assert("type"@.len() == 4);
    assert("item"@.len() == 4);
    assert("type"@[0] == 't' && "item"@[0] == 'i');
    let m = output_tree(call_id, Ok(v))->Obj_0;
    assert(m[0].0 == "type"@);
    assert(m[1].0 == "item"@);
    crate::json::lemma_get_at(m, "type"@, 0);
    crate::json::lemma_get_at(m, "item"@, 1);
    let n = m[1].1->Obj_0;
    assert(n[0].0 == "type"@);
    assert(n[1].0 == "call_id"@);
    assert(n[2].0 == "output"@);
    crate::json::lemma_get_at(n, "type"@, 0);
    crate::json::lemma_get_at(n, "call_id"@, 1);
    crate::json::lemma_get_at(n, "output"@, 2);
    let o = output_tree(call_id, Err(e))->Obj_0;
    assert(o[0].0 == "type"@);
    assert(o[1].0 == "item"@);
    crate::json::lemma_get_at(o, "type"@, 0);
    crate::json::lemma_get_at(o, "item"@, 1);
    let q = o[1].1->Obj_0;
    assert(q[0].0 == "type"@);
    assert(q[1].0 == "call_id"@);
    assert(q[2].0 == "output"@);
    crate::json::lemma_get_at(q, "type"@, 0);
    crate::json::lemma_get_at(q, "call_id"@, 1);
    crate::json::lemma_get_at(q, "output"@, 2);
}

/// Every call that is done is answered under its id and no longer waited for; those that still run
/// are, in order; those that will never answer are given up.
pub proof fn law_finished_calls_are_answered(
    calls: Seq<Seq<char>>,
    polls: Seq<Poll>,
    t: Turn,
    n: int,
)
    requires
        0 <= n <= polls.len(),
        calls.len() == polls.len(),
    ensures
        forall|i: int|
            0 <= i < n && (#[trigger] polls[i]) is Ready ==> polled(calls, polls, t, n).1.contains(
                output_tree(calls[i], result_view(polls[i]->result)),
            ),
        forall|i: int|
            0 <= i < n && (#[trigger] polls[i]) is Waiting ==> polled(calls, polls, t, n).0.contains(
                calls[i],
            ),
        (forall|i: int| 0 <= i < n ==> !((#[trigger] polls[i]) is Waiting)) ==> polled(
            calls,
            polls,
            t,
            n,
        ).0.len() == 0,
        (forall|i: int| 0 <= i < n ==> !((#[trigger] polls[i]) is Ready)) ==> polled(
            calls,
            polls,
            t,
            n,
        ).1.len() == 0,
    decreases n,
{
    if n > 0 {
        law_finished_calls_are_answered(calls, polls, t, n - 1);
        let (left, sent, turn) = polled(calls, polls, t, n - 1);
        let (left2, sent2, turn2) = polled(calls, polls, t, n);
        assert(forall|k: int| 0 <= k < left.len() ==> left2[k] == left[k]);
        assert(forall|k: int| 0 <= k < sent.len() ==> sent2[k] == sent[k]);
        assert forall|i: int| 0 <= i < n && (#[trigger] polls[i]) is Ready implies sent2.contains(
            output_tree(calls[i], result_view(polls[i]->result)),
        ) by {
            let e = output_tree(calls[i], result_view(polls[i]->result));
            if i < n - 1 {
                let k = choose|k: int| 0 <= k < sent.len() && sent[k] == e;
                assert(sent2[k] == e);
            } else {
                assert(sent2[sent.len() as int] == e);
            }
        }
        assert forall|i: int| 0 <= i < n && (#[trigger] polls[i]) is Waiting implies left2.contains(
            calls[i],
        ) by {
            if i < n - 1 {
                let k = choose|k: int| 0 <= k < left.len() && left[k] == calls[i];
                assert(left2[k] == calls[i]);
            } else {
                assert(left2[left.len() as int] == calls[i]);
            }
        }
    }
}

/// A key is what the program wrote, without the white space around it; a failure, or nothing
/// written, is an error.
pub proof fn law_keys_are_what_was_written(out: Seq<char>, err: Seq<char>)
    ensures
        key_reply(false, out, err) is Err,
        trimmed(out).len() > 0 ==> key_reply(true, out, err) == Ok::<Seq<char>, Seq<char>>(
            trimmed(out),
        ),
        trimmed(out).len() == 0 ==> key_reply(true, out, err) is Err,
        KEY_SECONDS == 2700,
{
}

/// What is set counts, unless it is blank.
pub proof fn law_settings_count(v: Seq<char>, other: Seq<char>)
    ensures
        !is_blank(v) ==> set_or(Some(v), other) == v,
        is_blank(v) ==> set_or(Some(v), other) == other,
        set_or(None, other) == other,
{
}

} // verus!
