use aether::commands::Command;
use aether::json::{parse, Json};
use aether::mcp::catalog::list;
use aether::mcp::relevance::{
    extract_phrases, is_stopword, search_lines, tokenize, Hit, Ranker, Scan,
};
use aether::mcp::remote::WindowInfo;
use aether::mcp::tools::{
    execute, finish_feedback, finish_focus, finish_new_tab, finish_output, finish_save,
    finish_search_files, finish_search_tab, finish_status, finish_windows, key_bytes, pick_window,
    severity_num, target_tab, Action, ActiveDoc, Change, Diagnostic, Editor, OpenDoc, ProgramRun,
    Reply, Severity, Step, TerminalTab,
};

fn doc(path: &str, dirty: bool) -> OpenDoc {
    OpenDoc {
        path: Some(path.to_string()),
        name: path.rsplit('/').next().unwrap().to_string(),
        dirty,
        read_only: false,
        diagnostics: vec![],
    }
}

fn editor() -> Editor {
    let mut first = doc("/w/a.rs", false);
    first.diagnostics.push(Diagnostic {
        severity: Severity::Warning,
        message: "unused".to_string(),
        source: Some("rustc".to_string()),
        start: (1, 2),
        end: (1, 5),
    });
    Editor {
        cwd: "/w".to_string(),
        version: "0.1.0".to_string(),
        docs: vec![first, doc("/w/b.rs", true)],
        active: Some(ActiveDoc {
            index: 0,
            language: "rust".to_string(),
            text: "fn main() {}".to_string(),
            caret: (0, 3),
            selected: Some("main".to_string()),
            start: (0, 3),
            end: (0, 7),
            empty: false,
        }),
        tabs: vec![
            TerminalTab { id: Some(11), title: "sh".to_string() },
            TerminalTab { id: Some(22), title: "top".to_string() },
        ],
        active_tab: 1,
        has_display: true,
        has_source_control: true,
    }
}

fn call(name: &str, args: &str) -> Step {
    execute(&editor(), name, &parse(args).expect("json"))
}

fn done(s: Step) -> Json {
    match s.reply {
        Reply::Done { value } => value,
        _ => panic!("a result"),
    }
}

fn failed(s: Step) -> String {
    match s.reply {
        Reply::Failed { message } => message,
        _ => panic!("a failure"),
    }
}

#[test]
fn every_listed_tool_is_run() {
    let tools = list();
    for t in tools.as_list().expect("tools") {
        let name = t.str_at("name").expect("name");
        let s = call(name, "{}");
        if let Reply::Failed { message } = s.reply {
            assert!(!message.starts_with("unknown tool"), "{name}: {message}");
        }
    }
    assert_eq!(failed(call("nonsense", "{}")), "unknown tool: nonsense");
}

#[test]
fn the_editor_is_described() {
    let v = done(call("getWorkspaceFolders", "{}"));
    assert_eq!(v.to_text(), "{\"folders\":[{\"name\":\"w\",\"path\":\"/w\"}]}");
    let v = done(call("getOpenEditors", "{}"));
    let editors = v.list_at("editors").expect("editors");
    assert_eq!(editors[0].bool_at("active"), Some(true));
    assert_eq!(editors[1].bool_at("dirty"), Some(true));
    let v = done(call("getActiveFile", "{}"));
    assert_eq!(v.str_at("language"), Some("rust"));
    let v = done(call("getCurrentSelection", "{}"));
    assert_eq!(v.str_at("text"), Some("main"));
    let v = done(call("getDiagnostics", "{\"uri\":\"a.rs\"}"));
    let files = v.list_at("files").expect("files");
    assert_eq!(files.len(), 1);
    assert_eq!(files[0].list_at("diagnostics").unwrap()[0].i64_at("severity"), Some(2));
    let v = done(call("getDiagnostics", "{\"uri\":\"b.rs\"}"));
    assert!(v.list_at("files").unwrap().is_empty());
    let mut e = editor();
    e.active = None;
    let v = done(execute(&e, "getActiveFile", &Json::Null));
    assert_eq!(v.to_text(), "{\"open\":false}");
    assert_eq!(severity_num(Severity::Hint), 4);
}

#[test]
fn files_are_opened_saved_and_closed() {
    let s = call("openFile", "{\"filePath\":\"/x\",\"line\":0}");
    assert!(matches!(&s.actions[0], Action::OpenFile { path, line: 1 } if path == "/x"));
    assert_eq!(failed(call("openFile", "{}")), "openFile requires filePath");
    assert!(matches!(call("saveActiveFile", "{}").reply, Reply::Save));
    assert_eq!(finish_save(Some("disk")).err(), Some("save failed: disk".to_string()));
    assert!(finish_save(None).is_ok());
    let s = call("closeEditor", "{\"filePath\":\"b.rs\"}");
    assert!(matches!(s.actions[0], Action::Close { index: 1 }));
    assert_eq!(failed(call("closeEditor", "{\"index\":7}")), "no editor at index 7");
    assert_eq!(failed(call("closeEditor", "{\"filePath\":\"zzz\"}")), "no open editor matches zzz");
    let v = done(call("closeAllEditors", "{}"));
    assert_eq!(v.i64_at("dirtyRemaining"), Some(1));
}

#[test]
fn edits_ask_for_a_writable_document() {
    let s = call("insertText", "{\"text\":\"hi\"}");
    assert!(matches!(&s.actions[0], Action::InsertText { text } if text == "hi"));
    assert_eq!(failed(call("insertText", "{}")), "insertText requires text");
    let mut e = editor();
    e.docs[0].read_only = true;
    let args = parse("{\"text\":\"hi\"}").unwrap();
    assert_eq!(failed(execute(&e, "insertText", &args)), "active document is read-only");
    e.active = None;
    assert_eq!(failed(execute(&e, "insertText", &args)), "no active document");
    e.has_source_control = false;
    assert_eq!(
        failed(execute(&e, "setCommitMessage", &Json::Null)),
        "source control panel not available"
    );
}

#[test]
fn commands_are_run_by_name() {
    let s = call("runCommand", "{\"command\":\"undo\"}");
    assert!(matches!(s.actions[0], Action::Run { command: Command::Undo }));
    assert_eq!(failed(call("runCommand", "{\"command\":\"fly\"}")), "unknown command: fly");
    let s = call("gitCommit", "{\"message\":\"m\",\"push\":true}");
    assert!(matches!(&s.actions[0], Action::Commit { msg, stage_all: false, push: true } if msg == "m"));
    assert_eq!(failed(call("gitCommit", "{}")), "gitCommit requires message");
    let status = finish_status(
        &Some("main".to_string()),
        &vec![Change { staged: 'M', worktree: ' ', path: "a".to_string() }],
    );
    assert_eq!(
        status.to_text(),
        "{\"branch\":\"main\",\"changes\":[{\"path\":\"a\",\"staged\":\"M\",\"worktree\":\" \"}]}"
    );
}

#[test]
fn terminals_are_found_by_id_index_or_focus() {
    let e = editor();
    let at = |t: &str| target_tab(&e, &parse(t).unwrap());
    assert_eq!(at("{\"id\":11,\"index\":1}"), Ok(0));
    assert_eq!(at("{\"index\":1}"), Ok(1));
    assert_eq!(at("{}"), Ok(1));
    assert_eq!(at("{\"id\":5}"), Err("no terminal with id 5".to_string()));
    assert_eq!(at("{\"index\":5}"), Err("no terminal at index 5".to_string()));
}

#[test]
fn text_is_pasted_before_its_keys() {
    let s = call("terminalSend", "{\"text\":\"ls\",\"id\":11}");
    assert!(s.actions.iter().any(|a| matches!(a, Action::Paste { tab: 0, text } if text == "ls")));
    assert!(s
        .actions
        .iter()
        .any(|a| matches!(a, Action::QueueKey { tab: 0, after: 60, bytes } if bytes == &vec![13])));
    let v = done(s);
    assert_eq!(v.i64_at("id"), Some(11));
    let s = call("terminalSend", "{\"text\":\"ls\",\"keys\":[\"down\",\"enter\"]}");
    assert!(s
        .actions
        .iter()
        .any(|a| matches!(a, Action::QueueKey { after: 80, bytes, .. } if bytes == &vec![13])));
    assert_eq!(failed(call("terminalSend", "{\"text\":\"x\",\"keys\":[\"hyper\"]}")), "unknown key: hyper");
    assert_eq!(failed(call("terminalSend", "{\"text\":\"x\",\"keys\":[3]}")), "keys entries must be strings");
    assert_eq!(failed(call("terminalSendKey", "{\"key\":\"hyper\"}")), "unknown key: hyper");
}

#[test]
fn keys_become_bytes() {
    assert_eq!(key_bytes("Enter"), Some(vec![13]));
    assert_eq!(key_bytes(" ctrl-C "), Some(vec![3]));
    assert_eq!(key_bytes("^z"), Some(vec![26]));
    assert_eq!(key_bytes("up"), Some(vec![0x1b, b'[', b'A']));
    assert_eq!(key_bytes("ctrl-cc"), None);
    assert_eq!(key_bytes("ctrl-"), None);
    assert_eq!(key_bytes("hyper"), None);
}

#[test]
fn terminals_are_read_made_and_focused() {
    let e = editor();
    assert!(matches!(call("terminalOutput", "{\"lines\":5}").reply, Reply::ReadTab { tab: 1, lines: 5 }));
    assert_eq!(
        finish_output(&e, 0, "out").to_text(),
        "{\"id\":11,\"index\":0,\"output\":\"out\"}"
    );
    let s = finish_new_tab(&Some("n".to_string()), false, 1, 2, Some(33));
    assert!(s.actions.iter().any(|a| matches!(a, Action::Rename { tab: 2, name } if name == "n")));
    assert!(s.actions.iter().any(|a| matches!(a, Action::Activate { tab: 1 })));
    assert_eq!(failed(finish_focus(&e, 0, false)), "terminal no longer exists");
    assert_eq!(done(finish_focus(&e, 0, true)).i64_at("id"), Some(11));
    assert_eq!(failed(call("renameTerminal", "{}")), "renameTerminal requires name");
}

#[test]
fn feedback_is_filed_or_added() {
    match call("submitFeedback", "{\"message\":\"it  broke\"}").reply {
        Reply::Feedback { arguments } => {
            assert!(arguments.contains(&"[feedback] it broke".to_string()));
            assert!(arguments.contains(&"create".to_string()));
        }
        _ => panic!("a program"),
    }
    match call("submitFeedback", "{\"message\":\"more\",\"issue\":12}").reply {
        Reply::Feedback { arguments } => {
            assert_eq!(arguments[..3], ["issue", "comment", "12"]);
        }
        _ => panic!("a program"),
    }
    let url = finish_feedback(&ProgramRun::Succeeded("noise\nhttps://u\n".to_string())).unwrap();
    assert_eq!(url.str_at("url"), Some("https://u"));
    assert_eq!(
        finish_feedback(&ProgramRun::Failed("bad \n".to_string())).err(),
        Some("gh failed: bad".to_string())
    );
    assert!(finish_feedback(&ProgramRun::NotRun("gone".to_string())).is_err());
}

#[test]
fn windows_are_listed_and_picked() {
    let windows = vec![WindowInfo {
        pid: 7,
        port: 1,
        token: "t".to_string(),
        workspace: "/w".to_string(),
    }];
    assert_eq!(
        finish_windows(&windows).to_text(),
        "{\"windows\":[{\"pid\":7,\"workspace\":\"/w\"}]}"
    );
    assert_eq!(pick_window(&windows, 7), Ok(0));
    assert_eq!(pick_window(&windows, 8), Err("no running window with pid 8".to_string()));
    assert!(matches!(
        call("controlWindow", "{\"pid\":7,\"tool\":\"t\"}").reply,
        Reply::Control { pid: 7, .. }
    ));
    assert_eq!(failed(call("controlWindow", "{\"pid\":7}")), "controlWindow requires tool");
}

#[test]
fn queries_are_taken_apart() {
    let (phrases, rest) = extract_phrases("find \"Exact Words\" here \" \" \"open");
    assert_eq!(phrases, vec!["exact words", "open"]);
    assert_eq!(rest, "find  here  ");
    assert_eq!(tokenize("Foo_bar, BAZ-1"), vec!["foo_bar", "baz", "1"]);
    assert!(is_stopword("the") && !is_stopword("theme"));
    assert!(Ranker::new("the of").is_empty());
    assert!(!Ranker::new("\"the\"").is_empty());
}

#[test]
fn lines_are_scored_in_tenths() {
    let r = Ranker::new("alpha \"beta gamma\"");
    let words = Ranker::new("alpha");
    assert_eq!(words.score("Alpha"), Some(10));
    assert_eq!(words.score("alpha alpha alpha"), Some(16));
    // A quoted phrase is required.
    assert_eq!(r.score("alpha alpha alpha"), None);
    assert_eq!(r.score("Beta Gamma"), Some(50));
    assert_eq!(r.score("alpha beta gamma"), Some(60));
    assert_eq!(r.score("delta"), None);
}

#[test]
fn hits_come_best_first() {
    let r = Ranker::new("alpha");
    let lines = vec!["alpha".to_string(), "none".to_string(), "alpha alpha".to_string()];
    let hits = search_lines(&lines, &r);
    let got: Vec<(usize, usize)> = hits.iter().map(|h| (h.line, h.score)).collect();
    assert_eq!(got, vec![(3, 13), (1, 10)]);
    let quoted = Ranker::new("\"foo bar\" baz");
    assert!(search_lines(&vec!["baz".to_string()], &quoted).is_empty());
    let found = search_lines(&vec!["baz baz".to_string(), "a foo bar".to_string()], &quoted);
    assert_eq!(found.iter().map(|h| h.line).collect::<Vec<_>>(), vec![2]);
    let mut scan = Scan::new();
    assert!(scan.begin_file());
    assert!(!scan.take_file(&r, "a.txt", &b"x\nalpha".to_vec()));
    assert!(scan.begin_file());
    assert!(!scan.take_file(&r, "b.bin", &b"alpha\0".to_vec()));
    assert!(Scan::wants(2_000_000) && !Scan::wants(2_000_001));
    let hits = scan.finish();
    assert_eq!(hits.len(), 1);
    assert_eq!((hits[0].file.as_str(), hits[0].line), ("a.txt", 2));
}

#[test]
fn search_results_are_cut_and_told() {
    let hit = |line| Hit { file: "f".to_string(), line, score: 13, text: "t".to_string() };
    let v = finish_search_files("q", &vec![hit(1), hit(2)], 1, true);
    let results = v.list_at("results").expect("results");
    assert_eq!(results.len(), 1);
    assert_eq!(v.bool_at("truncated"), Some(true));
    assert!(v.to_text().contains("\"score\":1.3"), "{}", v.to_text());
    let v = finish_search_tab(&editor(), "alpha", 0, 5, "x\nalpha\n");
    assert_eq!(v.i64_at("id"), Some(11));
    assert_eq!(v.list_at("results").unwrap()[0].i64_at("line"), Some(2));
    assert_eq!(failed(call("searchWorkspace", "{}")), "searchWorkspace requires query");
    assert!(matches!(
        call("searchWorkspace", "{\"query\":\"alpha\",\"path\":\"src\"}").reply,
        Reply::SearchFiles { root, max: 30, .. } if root == "/w/src"
    ));
    let v = done(call("searchWorkspace", "{\"query\":\"the\"}"));
    assert!(v.list_at("results").unwrap().is_empty());
}
