use aether::dap::{DapClient, DebugEvent, Scope, StackFrame, Variable};
use aether::debug_config::{
    adapter_for, from_json, load, python_adapter, python_candidates, resolve_managed,
    resolve_python, strip_jsonc, substitute, Programs, Request,
};
use aether::framing::{frame, next_message, Inbound};
use aether::json::{parse, Json};
use aether::ui::debug_panel::{DebugHit, DebugPanel, RowAct, Session};
use aether::ui::Intent;

fn programs() -> Programs {
    Programs { python: "/venv/bin/python".to_string(), netcoredbg: "netcoredbg".to_string() }
}

fn json(t: &str) -> Json {
    parse(t).expect("json")
}

#[test]
fn requests_are_numbered_and_answers_attributed() {
    let mut c = DapClient::new();
    assert_eq!(c.initialize().i64_at("seq"), Some(1));
    let b = c.set_breakpoints("/w/a.py", &vec![3, 5]);
    assert_eq!(b.i64_at("seq"), Some(2));
    let source = b.get("arguments").and_then(|a| a.get("source")).expect("source");
    assert_eq!(source.str_at("name"), Some("a.py"));
    let v = c.variables(44);
    let seq = v.i64_at("seq").expect("seq");
    let answer = json(&format!(
        "{{\"type\":\"response\",\"command\":\"variables\",\"success\":true,\"request_seq\":{seq},\"body\":{{\"variables\":[{{\"name\":\"x\",\"value\":\"1\"}}]}}}}"
    ));
    let events = c.handle_message(&answer);
    assert!(matches!(&events[0], DebugEvent::Variables { var_ref: 44, vars } if vars[0].name == "x"));
    // A second answer to the same request belongs to nothing.
    let events = c.handle_message(&answer);
    assert!(matches!(&events[0], DebugEvent::Variables { var_ref: 0, .. }));
}

#[test]
fn messages_become_events() {
    let mut c = DapClient::new();
    let mut one = |t: &str| c.handle_message(&json(t));
    assert!(matches!(one("{\"type\":\"event\",\"event\":\"initialized\"}")[0], DebugEvent::Configured));
    assert!(matches!(
        &one("{\"type\":\"event\",\"event\":\"stopped\",\"body\":{\"threadId\":7,\"reason\":\"step\"}}")[0],
        DebugEvent::Stopped { thread_id: 7, reason } if reason == "step"
    ));
    assert!(matches!(
        &one("{\"type\":\"event\",\"event\":\"output\",\"body\":{\"output\":\"hi\"}}")[0],
        DebugEvent::Output { category, text } if category == "console" && text == "hi"
    ));
    assert!(matches!(one("{\"type\":\"event\",\"event\":\"exited\"}")[0], DebugEvent::Terminated));
    let failed = one("{\"type\":\"response\",\"command\":\"initialize\",\"success\":false,\"message\":\"no\"}");
    assert!(matches!(&failed[0], DebugEvent::Log { text } if text == "initialize failed: no"));
    assert!(matches!(failed[1], DebugEvent::Initialized));
    let frames = one("{\"type\":\"response\",\"command\":\"stackTrace\",\"success\":true,\"body\":{\"stackFrames\":[{\"id\":1,\"name\":\"f\",\"line\":9,\"source\":{\"path\":\"/a\"}}]}}");
    assert!(matches!(&frames[0], DebugEvent::StackTrace { frames } if frames[0].line == 9));
    let run = one("{\"type\":\"request\",\"seq\":5,\"command\":\"runInTerminal\",\"arguments\":{\"cwd\":\"/w\",\"args\":[\"ls\"]}}");
    assert!(matches!(&run[0], DebugEvent::RunInTerminal { seq: 5, cwd, args } if cwd == "/w" && args == &vec!["ls".to_string()]));
    assert!(one("{\"type\":\"nothing\"}").is_empty());
    let r = c.reply(5, "runInTerminal", true, Json::Null);
    assert_eq!(r.i64_at("request_seq"), Some(5));
}

#[test]
fn adapters_are_found_by_type() {
    let p = programs();
    assert_eq!(adapter_for("Python", &p).expect("python").program, "/venv/bin/python");
    assert_eq!(adapter_for("lldb", &p).expect("lldb").program, "lldb-dap");
    assert!(adapter_for("cobol", &p).is_none());
    let c = python_candidates(Some("/venv"));
    assert_eq!(c, vec!["/venv/bin/python", "python3", "python"]);
    assert_eq!(resolve_python(&c, &vec![false, false, true]), "python");
    assert_eq!(resolve_python(&c, &vec![false, false, false]), "python3");
    assert_eq!(resolve_managed("netcoredbg", None), "netcoredbg");
    assert_eq!(resolve_managed("netcoredbg", Some("/h/netcoredbg")), "/h/netcoredbg");
}

#[test]
fn a_configuration_keeps_its_arguments() {
    let v = json("{\"name\":\"Run\",\"type\":\"python\",\"request\":\"launch\",\"program\":\"${workspaceFolder}/a.py\"}");
    let c = from_json(&v, "/w", Some("/w/a.py"), &programs()).expect("a configuration");
    assert_eq!(c.name, "Run");
    assert_eq!(c.request, Request::Launch);
    assert_eq!(c.args.str_at("program"), Some("/w/a.py"));
    assert_eq!(c.args.str_at("cwd"), Some("/w"));
    assert!(c.args.get("type").is_none());
    let v = json("{\"type\":\"python\",\"request\":\"attach\"}");
    let c = from_json(&v, "/w", Some("/w/a.py"), &programs()).expect("a configuration");
    assert_eq!((c.name.as_str(), c.request), ("Debug", Request::Attach));
    assert!(c.args.get("cwd").is_none());
    assert!(from_json(&json("{\"type\":\"cobol\"}"), "/w", None, &programs()).is_none());
    let s = substitute(&json("[\"${workspaceFolder}\", {\"k\": \"${workspaceFolder} ${file}\"}, 3]"), "/w", Some("/w/a.py"));
    assert_eq!(s.to_text(), "[\"/w\",{\"k\":\"/w /w/a.py\"},3]");
    // What was filled in is not looked at again, and without a file its variable stays.
    let s = substitute(&json("\"${workspaceFolder}:${file}\""), "/${file}", Some("/f"));
    assert_eq!(s.to_text(), "\"/${file}:/f\"");
    let s = substitute(&json("\"${workspaceFolder}:${file}\""), "/w", None);
    assert_eq!(s.to_text(), "\"/w:${file}\"");
}

#[test]
fn configurations_are_read_or_made_up() {
    let texts = vec![
        "broken".to_string(),
        "{\"configurations\":[{\"type\":\"lldb\",\"name\":\"N\"}]}".to_string(),
    ];
    let c = load("/w", &texts, Some("/w/a.py"), &programs());
    assert_eq!(c.len(), 1);
    assert_eq!(c[0].name, "N");
    let texts = vec!["{\"configurations\":[{\"type\":\"lldb\",\"program\":\"${file}\"}]}".to_string()];
    let c = load("/w", &texts, Some("/w/a.rs"), &programs());
    assert_eq!(c[0].args.str_at("program"), Some("/w/a.rs"));
    let c = load("/w", &texts, None, &programs());
    assert_eq!(c[0].args.str_at("program"), Some("${file}"));
    let c = load("/w", &vec![], Some("/w/a.py"), &programs());
    assert_eq!(c.len(), 2);
    assert_eq!(c[0].name, "Python: Launch current file");
    assert_eq!(c[1].request, Request::Attach);
    assert!(load("/w", &vec![], Some("/w/a.rs"), &programs()).is_empty());
    assert!(load("/w", &vec![], None, &programs()).is_empty());
}

fn variable(name: &str, var_ref: i64) -> Variable {
    Variable { name: name.to_string(), value: "v".to_string(), var_ref }
}

#[test]
fn the_panel_loads_a_variable_once() {
    let mut p = DebugPanel::new();
    p.set_session(Session::Stopped);
    p.set_stopped(vec![StackFrame { id: 8, name: "f".to_string(), path: None, line: 1 }]);
    p.set_scopes(&vec![Scope { name: "Locals".to_string(), var_ref: 1 }]);
    assert_eq!(p.pending_scope_refs(), vec![1]);
    p.set_children(1, &vec![variable("x", 2), variable("y", 0)]);
    assert!(p.pending_scope_refs().is_empty());
    assert_eq!(p.toggle_var(2), Some(2));
    p.set_children(2, &vec![variable("z", 0)]);
    let open = p.rows().len();
    assert_eq!(p.toggle_var(2), None);
    assert_eq!(p.rows().len(), open - 1);
    assert_eq!(p.toggle_var(2), None);
    assert_eq!(p.rows().len(), open);
}

#[test]
fn the_panel_turns_presses_into_intents() {
    let mut p = DebugPanel::new();
    p.set_stopped(vec![StackFrame { id: 8, name: "f".to_string(), path: None, line: 1 }]);
    p.set_session(Session::Stopped);
    let at = p.rows().iter().position(|r| r.act == RowAct::SelectFrame(8)).expect("the frame");
    let (taken, intent) = p.on_press(DebugHit::Row(at));
    assert!(taken);
    assert!(matches!(intent, Some(Intent::DebugSelectFrame { id: 8 })));
    assert!(!p.on_press(DebugHit::Outside).0);
}

#[test]
fn requests_carry_their_command_and_thread() {
    let mut c = DapClient::new();
    let done = c.configuration_done();
    assert_eq!(done.to_text(), json("{\"seq\":1,\"type\":\"request\",\"command\":\"configurationDone\",\"arguments\":{}}").to_text());
    let sent = [c.continue_(7), c.next(7), c.step_in(7), c.step_out(7), c.stack_trace(7)];
    let commands = ["continue", "next", "stepIn", "stepOut", "stackTrace"];
    for (k, m) in sent.iter().enumerate() {
        assert_eq!(m.str_at("command"), Some(commands[k]));
        assert_eq!(m.i64_at("seq"), Some(k as i64 + 2));
        assert_eq!(m.get("arguments").and_then(|a| a.i64_at("threadId")), Some(7));
    }
    let frames = sent[4].get("arguments").expect("arguments");
    assert_eq!((frames.i64_at("startFrame"), frames.i64_at("levels")), (Some(0), Some(20)));
}

#[test]
fn the_panel_names_the_selected_configuration() {
    let mut p = DebugPanel::new();
    assert_eq!(p.config_label(), "No Configurations");
    assert_eq!(p.hint(), "Add a .vscode/launch.json, or open a file to debug.");
    let named = |n: &str| {
        let v = json(&format!("{{\"name\":\"{n}\",\"type\":\"python\",\"request\":\"launch\"}}"));
        from_json(&v, "/w", Some("/w/a.py"), &programs()).expect("a configuration")
    };
    p.set_configs(vec![named("One"), named("Two")]);
    p.selected = 1;
    assert_eq!(p.config_label(), "Two");
    assert_eq!(p.hint(), "Click \u{25b7} to start debugging.");
    // The selected one is gone: the first takes its place.
    p.set_configs(vec![named("Only")]);
    assert_eq!((p.selected, p.config_label().as_str()), (0, "Only"));
    assert_eq!(python_adapter(&programs()).program, "/venv/bin/python");
}

#[test]
fn comments_are_left_out_of_settings() {
    assert_eq!(strip_jsonc("{ // one\n \"a\": /* two\n */ 1 }"), "{ \n \"a\":  1 }");
    assert_eq!(strip_jsonc("\"http://x /* y */\" // z"), "\"http://x /* y */\" ");
    assert_eq!(strip_jsonc("\"a\\\"//b\"//c\nd"), "\"a\\\"//b\"\nd");
    assert_eq!(strip_jsonc("1 / 2 /* open"), "1 / 2 ");
    assert_eq!(strip_jsonc("/*/ still */x"), "x");
    assert_eq!(strip_jsonc("no comments \\"), "no comments \\");
    let texts = vec!["// mine\n{\"configurations\":[/* one */{\"type\":\"lldb\",\"name\":\"N\"}]}".to_string()];
    assert_eq!(load("/w", &texts, None, &programs())[0].name, "N");
}

#[test]
fn messages_are_framed_and_read_back() {
    assert_eq!(frame("{}"), b"Content-Length: 2\r\n\r\n{}".to_vec());
    assert_eq!(frame("\"\u{e9}\""), "Content-Length: 4\r\n\r\n\"\u{e9}\"".as_bytes().to_vec());
    let mut bytes = frame("{\"seq\":12}");
    let whole = bytes.len();
    bytes.extend(b"Content-Length: 1\r\n\r\n".to_vec());
    match next_message(&bytes) {
        Inbound::Message { value, used } => {
            assert_eq!(value.i64_at("seq"), Some(12));
            assert_eq!(used, whole);
        }
        _ => panic!("a message has come"),
    }
    for n in 0..whole {
        assert!(matches!(next_message(&bytes[..n].to_vec()), Inbound::More), "{n} bytes");
    }
    let other = b"Content-Type: x\r\nContent-Length:  2 \r\n\r\n[]rest".to_vec();
    assert!(matches!(next_message(&other), Inbound::Message { used: 42, .. }));
}

#[test]
fn what_is_no_message_ends_the_stream() {
    let end = |bytes: &[u8]| matches!(next_message(&bytes.to_vec()), Inbound::End);
    assert!(end(b"\r\n"));
    assert!(end(b"Content-Type: x\r\n\r\n{}"));
    assert!(end(b"Content-Length: many\r\n\r\n{}"));
    assert!(end(b"Content-Length: 1\r\n\r\n{"));
    assert!(end(b"Content-Length: 1\r\n\r\n\xff"));
    assert!(end(b"Content-Length: 0\r\n\r\n"));
}
