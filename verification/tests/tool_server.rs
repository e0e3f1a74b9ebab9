use aether::json::{parse, Json};
use aether::mcp::agents::{register_claude, register_codex};
use aether::mcp::catalog::list;
use aether::mcp::discovery::{is_stale, lock_file_name, lock_owner, token_text, write_lock};
use aether::mcp::proxy::{ends_turn, find_server, is_request, lock_port, LockFile};
use aether::mcp::remote::{list_windows, remote_reply, remote_request, RemoteReply};
use aether::mcp::server::{
    authorized, call_reply, candidate_ports, dispatch, initialize_reply, startup_instructions,
    Incoming,
};
use aether::mcp::McpServer;

fn lock(port: u16, pid: u32, ws: &str, token: &str) -> LockFile {
    LockFile {
        path: format!("/home/me/ide/{}", lock_file_name(port)),
        text: write_lock(pid, ws, false, token),
    }
}

#[test]
fn a_lock_tells_its_window() {
    let l = lock(40123, 77, "/w", "tok");
    assert!(l.path.ends_with("/40123.lock"));
    assert_eq!(lock_port(&l.path), Some(40123));
    assert_eq!(lock_owner(&l.text), Some(77));
    assert_eq!(lock_owner("broken"), None);
    assert_eq!(lock_port("/x/70000.lock"), None);
    assert!(is_stale(None, true) && is_stale(Some(1), false) && !is_stale(Some(1), true));
    assert_eq!(token_text(1, 2), "0000000000000001-0000000000000002");
    let s = McpServer { port: 5, token: "t".to_string() };
    let (name, body) = s.set_workspace(9, "/other", true);
    assert_eq!(name, "5.lock");
    assert_eq!(body.bool_at("runningInWindows"), Some(true));
    assert_eq!(body.str_at("authToken"), Some("t"));
}

#[test]
fn the_longest_folder_that_holds_the_directory_wins() {
    let locks = vec![
        lock(1, 1, "/home", "outer"),
        lock(2, 2, "/home/me/proj", "inner"),
        lock(3, 3, "/elsewhere", "other"),
    ];
    assert_eq!(find_server(&locks, "/home/me/proj/src"), Some((2, "inner".to_string())));
    assert_eq!(find_server(&locks, "/home/me/project"), Some((1, "outer".to_string())));
    assert_eq!(find_server(&locks, "/tmp"), Some((1, "outer".to_string())));
    assert_eq!(find_server(&vec![], "/tmp"), None);
    let foreign = LockFile { path: "/i/4.lock".to_string(), text: "{\"ideName\":\"Other\",\"authToken\":\"x\"}".to_string() };
    assert_eq!(find_server(&vec![foreign], "/tmp"), None);
    let alone = vec![lock(9, 1, "/w", "t")];
    assert_eq!(find_server(&alone, "/nowhere"), Some((9, "t".to_string())));
}

#[test]
fn exchanges_end_with_the_answer() {
    assert!(is_request("{\"id\":1}"));
    assert!(!is_request("{\"id\":null}"));
    assert!(!is_request("broken"));
    assert!(ends_turn("{\"id\":1,\"result\":{}}"));
    assert!(!ends_turn("{\"method\":\"notify\"}"));
    assert!(ends_turn("broken"));
}

#[test]
fn ports_follow_from_the_token() {
    let a = candidate_ports("token");
    assert_eq!(a.len(), 32);
    assert_eq!(a, candidate_ports("token"));
    assert_ne!(a, candidate_ports("other"));
    assert!(a.iter().all(|p| *p >= 10000));
    assert!(authorized(Some("t"), "t"));
    assert!(!authorized(Some("x"), "t"));
    assert!(!authorized(None, "t"));
}

#[test]
fn messages_are_answered() {
    assert!(matches!(dispatch("broken"), Incoming::Nothing));
    assert!(matches!(dispatch("{\"method\":\"initialize\",\"id\":1}"), Incoming::Initialize { .. }));
    assert!(matches!(dispatch("{\"method\":\"notifications/initialized\"}"), Incoming::Nothing));
    match dispatch("{\"method\":\"ping\",\"id\":\"p\"}") {
        Incoming::Answer { value } => {
            assert_eq!(value.to_text(), "{\"id\":\"p\",\"jsonrpc\":\"2.0\",\"result\":{}}")
        }
        _ => panic!("an answer"),
    }
    match dispatch("{\"method\":\"tools/list\",\"id\":2}") {
        Incoming::Answer { value } => {
            let tools = value.get("result").and_then(|r| r.get("tools")).expect("tools");
            assert_eq!(tools.as_list().map(|t| t.len()), Some(29));
            assert!(tools.same(&list()));
        }
        _ => panic!("an answer"),
    }
    match dispatch("{\"method\":\"what\",\"id\":2}") {
        Incoming::Answer { value } => {
            assert_eq!(value.get("error").and_then(|e| e.i64_at("code")), Some(-32601))
        }
        _ => panic!("an answer"),
    }
    assert!(matches!(dispatch("{\"method\":\"what\"}"), Incoming::Nothing));
    for method in ["initialize", "ping", "tools/list"] {
        assert!(matches!(dispatch(&format!("{{\"method\":\"{method}\"}}")), Incoming::Nothing));
    }
    assert!(matches!(
        dispatch("{\"method\":\"tools/call\",\"params\":{\"name\":\"stopVoice\"}}"),
        Incoming::Run { name, .. } if name == "stopVoice"
    ));
}

#[test]
fn a_client_is_welcomed() {
    let r = initialize_reply(Json::whole(4), "0.1.0", None);
    assert_eq!(r.i64_at("id"), Some(4));
    let result = r.get("result").expect("result");
    assert_eq!(result.str_at("protocolVersion"), Some("2024-11-05"));
    assert_eq!(
        result.get("serverInfo").and_then(|s| s.str_at("version")),
        Some("0.1.0")
    );
    assert!(!startup_instructions(None).is_empty());
}

#[test]
fn a_call_in_another_window_gives_its_result() {
    let text = remote_request("getActiveFile", parse("{\"a\":1}").unwrap());
    match dispatch(&text) {
        Incoming::Call { id, name, args } => {
            assert_eq!(name, "getActiveFile");
            assert_eq!(args.i64_at("a"), Some(1));
            let value = parse("{\"open\":true,\"n\":[1,2]}").unwrap();
            let reply = call_reply(id.copy(), &Ok(value.copy())).to_text();
            match remote_reply(&reply) {
                RemoteReply::Done(j) => assert!(j.same(&value)),
                _ => panic!("a result"),
            }
            let reply = call_reply(id.copy(), &Ok(Json::text("plain words"))).to_text();
            assert!(matches!(remote_reply(&reply), RemoteReply::Done(j) if j.as_str() == Some("plain words")));
            let reply = call_reply(id, &Err("no file".to_string())).to_text();
            assert!(matches!(remote_reply(&reply), RemoteReply::Failed(m) if m == "no file"));
        }
        _ => panic!("a call"),
    }
    assert!(matches!(remote_reply("{\"id\":2}"), RemoteReply::NotOurs));
    assert!(matches!(remote_reply("broken"), RemoteReply::NotOurs));
    assert!(matches!(
        remote_reply("{\"id\":1,\"error\":{}}"),
        RemoteReply::Failed(m) if m == "remote error"
    ));
}

#[test]
fn other_windows_are_listed() {
    let mut other = lock(6, 60, "/c", "t");
    other.text = other.text.replacen("\"Aether\"", "\"Other\"", 1);
    let locks = vec![lock(4, 40, "/a", "first"), lock(5, 50, "/n", "second"), other];
    let alive = vec![true, true, true];
    let seen = list_windows(&locks, &alive, 50);
    assert_eq!(seen.len(), 1);
    assert_eq!((seen[0].pid, seen[0].port), (40, 4));
    assert_eq!((seen[0].token.as_str(), seen[0].workspace.as_str()), ("first", "/a"));
    let both: Vec<u64> = list_windows(&locks, &alive, 1).iter().map(|w| w.pid).collect();
    assert_eq!(both, vec![40, 50]);
    let none = list_windows(&locks, &vec![false, false, false], 1);
    assert!(none.is_empty());
}

#[test]
fn registering_twice_changes_nothing() {
    let first = register_claude(Some("{\"theme\":\"dark\"}"), "/w", "/bin/aether").expect("changed");
    let j = parse(&first).expect("json");
    assert_eq!(j.str_at("theme"), Some("dark"));
    let entry = j
        .get("projects")
        .and_then(|p| p.get("/w"))
        .and_then(|w| w.get("mcpServers"))
        .and_then(|m| m.get("aether"))
        .expect("the entry");
    assert_eq!(entry.str_at("command"), Some("/bin/aether"));
    assert!(register_claude(Some(&first), "/w", "/bin/aether").is_none());
    assert!(register_claude(Some(&first), "/w", "/bin/other").is_some());
    assert!(register_claude(Some("[]"), "/w", "/bin/aether").is_none());
    assert!(register_claude(Some("{broken"), "/w", "/bin/aether").is_none());
    assert!(register_claude(None, "/w", "/bin/aether").is_some());
}

#[test]
fn a_section_is_replaced_in_place() {
    let old = "model = \"x\"\n\n[mcp_servers.aether]\ncommand = \"old\"\nargs = []\n[other]\nk = 1\n";
    let new = register_codex(old, "C:\\a \"b\"").expect("changed");
    assert_eq!(
        new,
        "model = \"x\"\n\n[mcp_servers.aether]\ncommand = \"C:\\\\a \\\"b\\\"\"\nargs = [\"--mcp\"]\n[other]\nk = 1\n"
    );
    assert!(register_codex(&new, "C:\\a \"b\"").is_none());
    assert_eq!(
        register_codex("k = 1", "/a").expect("changed"),
        "k = 1\n\n[mcp_servers.aether]\ncommand = \"/a\"\nargs = [\"--mcp\"]\n"
    );
}
