use aether::exthost::{
    bundled_extensions_dir, discover, handshake, host_script, inbound, script_candidates,
    token_text, ExtHost, Found, WebviewProc,
};
use aether::json::Json;

#[test]
fn a_host_shows_the_token() {
    let line = "{\"method\":\"host/ready\",\"params\":{\"token\":\"t\"}}";
    assert!(handshake(line, "t"));
    assert!(!handshake(line, "other"));
    assert!(!handshake("broken", "t"));
    assert!(inbound("  ").is_none());
    assert!(inbound("broken").is_none());
    assert!(inbound(" [1]\n").is_some());
    assert_eq!(token_text(1, 255), "000000000000000100000000000000ff");
}

#[test]
fn requests_are_numbered_from_one() {
    let mut h = ExtHost::new();
    let (id, m) = h.activate("/e");
    assert_eq!(id, 1);
    assert_eq!(m.i64_at("id"), Some(1));
    assert_eq!(h.invoke_command("c").0, 2);
    let (id, m) = h.request_hover(3, "file:///a", 4, 5);
    assert_eq!(id, 3);
    assert_eq!(m.str_at("jsonrpc"), Some("2.0"));
    assert!(h.did_save("file:///a").get("id").is_none());
    let e = h.respond_err(&Json::whole(9), "no");
    assert_eq!(e.get("error").and_then(|e| e.i64_at("code")), Some(-32601));
}

#[test]
fn extensions_with_code_are_found() {
    let package = r#"{
        "name": "tool", "main": "./out.js", "activationEvents": ["*", 3],
        "contributes": {
            "commands": [
                {"command": "tool.run", "title": "%run%", "icon": {"light": "l.svg", "dark": "./d.svg"}},
                {"command": "tool.bare"}
            ],
            "views": {"side": [{"id": "v1", "name": ""}, {"id": "v2", "name": "View"}]},
            "menus": {"editor/title": [
                {"command": "tool.run", "group": "navigation@1", "when": "editorLangId == markdown"},
                {"command": "tool.bare", "group": "other"}
            ]}
        }
    }"#;
    let found = vec![
        Found {
            path: "/x/tool".to_string(),
            package: Some(package.to_string()),
            nls: Some("{\"run\": \"Run it\"}".to_string()),
        },
        Found { path: "/x/theme".to_string(), package: Some("{\"name\":\"t\"}".to_string()), nls: None },
        Found { path: "/x/none".to_string(), package: None, nls: None },
    ];
    let out = discover(&found);
    assert_eq!(out.len(), 1);
    let e = &out[0];
    assert_eq!(e.name, "tool");
    assert_eq!(e.activation_events, vec!["*"]);
    assert_eq!(
        e.commands,
        vec![
            ("tool.run".to_string(), "Run it".to_string()),
            ("tool.bare".to_string(), "tool.bare".to_string())
        ]
    );
    assert_eq!(
        e.views,
        vec![("v1".to_string(), "v1".to_string()), ("v2".to_string(), "View".to_string())]
    );
    assert_eq!(e.title_buttons.len(), 1);
    let b = &e.title_buttons[0];
    assert_eq!(b.icon.as_deref(), Some("/x/tool/d.svg"));
    assert_eq!((b.title.as_str(), b.when.as_str()), ("Run it", "editorLangId == markdown"));
}

#[test]
fn the_script_is_looked_for_in_order() {
    let c = script_candidates(Some("/opt/a/bin"), Some("/opt/a"), Some("/opt"), Some("/cwd"), None);
    assert_eq!(c[0], "/opt/a/bin/ext-host/main.js");
    assert_eq!(c.last().map(|s| s.as_str()), Some("/usr/share/aether/ext-host/main.js"));
    let mut there = vec![false; c.len()];
    assert_eq!(host_script(&c, &there), None);
    there[1] = true;
    there[3] = true;
    assert_eq!(host_script(&c, &there), Some(c[1].clone()));
    assert_eq!(bundled_extensions_dir(Some("/opt/a/ext-host/main.js")), Some("/opt/a/ext-host".to_string()));
    assert_eq!(bundled_extensions_dir(None), None);
}

#[test]
fn documents_are_announced() {
    let h = ExtHost::new();
    let open = h.did_open("file:///a", "rust", 1, "fn");
    assert_eq!(
        open.to_text(),
        "{\"jsonrpc\":\"2.0\",\"method\":\"workspace/didOpenTextDocument\",\"params\":{\"languageId\":\"rust\",\"text\":\"fn\",\"uri\":\"file:///a\",\"version\":1}}"
    );
    let change = h.did_change("file:///a", 2, "fn f");
    assert_eq!(change.str_at("method"), Some("workspace/didChangeTextDocument"));
    assert_eq!(change.get("params").and_then(|p| p.i64_at("version")), Some(2));
    let active = h.did_change_active("file:///a", "rust");
    assert_eq!(active.str_at("method"), Some("editor/didChangeActive"));
    let answer = h.respond(&Json::whole(4), Json::text("ok"));
    assert_eq!((answer.i64_at("id"), answer.str_at("result")), (Some(4), Some("ok")));
}

#[test]
fn input_is_told_to_the_view() {
    let v = WebviewProc::start("view", 1, "Panel", 77, 95);
    let at = || Json::whole(3);
    let motion = v.input_motion(at(), at(), 0);
    assert_eq!((motion.str_at("cmd"), motion.str_at("kind")), (Some("input"), Some("motion")));
    let button = v.input_button(at(), at(), 1, true, 4);
    assert_eq!((button.u64_at("button"), button.bool_at("press")), (Some(1), Some(true)));
    let scroll = v.input_scroll(at(), at(), Json::whole(0), Json::whole(-1), 0);
    assert_eq!((scroll.i64_at("dx"), scroll.i64_at("dy")), (Some(0), Some(-1)));
    let key = v.input_key(65, false, 0);
    assert_eq!(key.to_text(), "{\"cmd\":\"input\",\"keyval\":65,\"kind\":\"key\",\"press\":false,\"state\":0}");
}
