use aether::claude_sessions::{
    boot_time, encode_cwd, load_candidates, recorded_boot_time, save, session_ids, ClaudeWatcher,
    LiveSession, RestoreItem,
};
use aether::macos_launcher::{
    badge_letter, bundle_id, bundle_name, bundle_path, canonical_exe, compose_svg, current_bundle,
    fs_safe, icon_size, is_stale, launch_info_path, needs_link, plist, read_launch,
    startup_workspace, swept_folder, write_launch, xml_escape, ICON_COUNT,
};

const BUNDLED: &str =
    "/Users/me/Library/Application Support/Aether/launchers/00ff/My - Aether.app/Contents/MacOS/aether";

#[test]
fn a_bundle_is_found_from_its_program() {
    let app = "/Users/me/Library/Application Support/Aether/launchers/00ff/My - Aether.app";
    assert_eq!(current_bundle(BUNDLED), Some(app.to_string()));
    assert_eq!(current_bundle("/Applications/Aether.app/Contents/MacOS/aether"), None);
    assert_eq!(current_bundle("/aether"), None);
    assert_eq!(bundle_path("/Users/me", "/work/My", "00ff"), app);
    assert_eq!(launch_info_path("/b.app"), "/b.app/Contents/Resources/launch.json");
    assert_eq!(bundle_id(255), "00000000000000ff");
}

#[test]
fn what_a_bundle_tells_is_read_back() {
    let text = write_launch("/work/\"My\"", "/opt/aether");
    assert_eq!(
        read_launch(&text),
        Some(("/work/\"My\"".to_string(), "/opt/aether".to_string()))
    );
    assert_eq!(read_launch("{\"folder\":\"x\"}"), None);
    assert_eq!(read_launch("[\"f\",\"e\"]"), Some(("f".to_string(), "e".to_string())));
    assert_eq!(read_launch("[\"f\",\"e\",1]"), None);
    assert_eq!(read_launch("[\"f\",1]"), None);
    assert_eq!(startup_workspace(BUNDLED, Some(&text)), Some("/work/\"My\"".to_string()));
    assert_eq!(startup_workspace(BUNDLED, None), None);
    assert_eq!(startup_workspace("/opt/aether", Some(&text)), None);
    assert_eq!(canonical_exe(Some(BUNDLED), Some(&text)), "/opt/aether");
    assert_eq!(canonical_exe(Some(BUNDLED), Some("x")), BUNDLED);
    assert_eq!(canonical_exe(None, None), "aether");
}

#[test]
fn names_are_made_safe() {
    assert_eq!(bundle_name("/work/My"), "My - Aether");
    assert_eq!(bundle_name("/"), "Aether - Aether");
    assert_eq!(fs_safe("a:b/c"), "a-b-c");
    assert_eq!(xml_escape("<a & b>"), "&lt;a &amp; b&gt;");
    let p = plist("/work/A<B", "00ff", "0.1.0");
    assert!(p.contains("<key>CFBundleName</key><string>A&lt;B - Aether</string>"));
    assert!(p.contains("<string>dev.aether.launcher.00ff</string>"));
}

#[test]
fn the_icon_shows_the_letter_of_the_folder() {
    assert_eq!(badge_letter("/work/my"), 'M');
    assert_eq!(badge_letter("/work/éclair"), 'É');
    assert_eq!(badge_letter("/"), 'A');
    let svg = compose_svg("<svg></svg></svg>", '<');
    assert!(svg.starts_with("<svg><g>"));
    assert!(svg.ends_with(">&lt;</text></g></svg></svg>"));
    assert_eq!(icon_size(0), (16, "icon_16x16.png"));
    assert_eq!(icon_size(ICON_COUNT - 1), (1024, "icon_512x512@2x.png"));
}

#[test]
fn stale_bundles_are_swept() {
    let text = write_launch("/work/My", "/opt/aether");
    assert_eq!(swept_folder(Some("/l/1/My.app"), Some(&text)), Some("/work/My".to_string()));
    assert_eq!(swept_folder(Some("/l/1/My.txt"), Some(&text)), None);
    assert_eq!(swept_folder(None, Some(&text)), None);
    assert!(is_stale(None, true));
    assert!(is_stale(Some("/work/My"), false));
    assert!(!is_stale(Some("/work/My"), true));
    assert!(!needs_link(Some((1, 2)), Some((1, 2))));
    assert!(needs_link(Some((1, 2)), Some((1, 3))));
    assert!(needs_link(None, Some((1, 3))));
}

#[test]
fn a_session_is_brought_back_by_its_command() {
    let item = |id: Option<&str>| RestoreItem {
        cwd: "/w".to_string(),
        session_id: id.map(|s| s.to_string()),
    };
    assert_eq!(item(Some("abc")).command("agent"), "agent --resume abc");
    assert_eq!(item(None).command("agent"), "agent --continue");
}

#[test]
fn sessions_are_listed_newest_first() {
    assert_eq!(encode_cwd("/Users/me/My Proj.x"), "-Users-me-My-Proj-x");
    let files = vec![
        (5, "old.jsonl".to_string()),
        (9, "new.jsonl".to_string()),
        (7, "notes.txt".to_string()),
        (9, "second.jsonl".to_string()),
    ];
    assert_eq!(session_ids(&files), vec!["new", "second", "old"]);
}

#[test]
fn running_sessions_are_observed() {
    let mut w = ClaudeWatcher::new("/w");
    let terms = vec![(1, "/a".to_string()), (2, "/a".to_string()), (3, "/b".to_string())];
    let ids = vec![
        vec!["s1".to_string(), "s2".to_string()],
        vec!["s1".to_string(), "s2".to_string()],
        vec![],
    ];
    assert!(w.observe(&vec![1, 2, 3], &terms, &ids));
    let snap = w.snapshot();
    let mut got: Vec<(String, Option<String>)> =
        snap.into_iter().map(|s| (s.cwd, s.session_id)).collect();
    got.sort();
    assert_eq!(
        got,
        vec![
            ("/a".to_string(), Some("s1".to_string())),
            ("/a".to_string(), Some("s2".to_string())),
            ("/b".to_string(), None),
        ]
    );
    assert!(!w.observe(&vec![1, 2, 3], &terms, &ids));
    assert!(w.observe(&vec![2], &terms, &ids));
    assert_eq!(w.snapshot().len(), 1);
    w.set_workspace("/other");
    assert_eq!(w.workspace(), "/other");
    assert!(w.snapshot().is_empty());
}

#[test]
fn the_start_of_the_machine_is_read() {
    assert_eq!(boot_time("cpu 1 2\nbtime 1718000000\nbtime 5\n"), Some(1718000000));
    assert_eq!(boot_time("btime x\nbtime 7"), Some(7));
    assert_eq!(boot_time("cpu 1"), None);
    assert_eq!(
        recorded_boot_time("{ sec = 1718000000, usec = 0 } Mon Jun 10"),
        Some(1718000000)
    );
    assert_eq!(recorded_boot_time("nothing"), None);
    assert_eq!(recorded_boot_time("sec = x"), None);
}

#[test]
fn stored_sessions_are_brought_back_and_other_workspaces_stay() {
    let session = |cwd: &str, id: Option<&str>| LiveSession {
        cwd: cwd.to_string(),
        session_id: id.map(|s| s.to_string()),
    };
    let first = save(None, "/one", Some(5), &vec![session("/one", Some("a")), session("", None)]);
    let both = save(Some(&first), "/two", None, &vec![session("/two", None)]);
    let one = load_candidates(&both, "/one");
    assert_eq!(one.len(), 1);
    assert_eq!((one[0].cwd.as_str(), one[0].session_id.as_deref()), ("/one", Some("a")));
    let two = load_candidates(&both, "/two");
    assert_eq!((two[0].cwd.as_str(), two[0].session_id.as_deref()), ("/two", None));
    assert!(load_candidates(&both, "/three").is_empty());
    assert!(load_candidates("broken", "/one").is_empty());
    assert!(first.contains("\"boot\": 5"));
}

#[test]
fn sessions_survive_other_saves_in_any_store() {
    let session = |cwd: &str| LiveSession { cwd: cwd.to_string(), session_id: None };
    let deep = format!("{}1{}", "[".repeat(125), "]".repeat(125));
    let mut text = format!(
        "{{\"/one\":{{\"boot\":1.5,\"sessions\":[{{\"cwd\":\"/one\",\"at\":1.7976931348623157e308}}]}},\"deep\":{{\"x\":{deep}}},\"n\":0.1}}"
    );
    for (k, name) in ["/two", "/three", "/four"].iter().enumerate() {
        text = save(Some(&text), name, Some(k as u64), &vec![session(name)]);
        let one = load_candidates(&text, "/one");
        assert_eq!(one.len(), 1);
        assert_eq!(one[0].cwd, "/one");
        assert_eq!(load_candidates(&text, name)[0].cwd, *name);
    }
    assert!(text.contains("1.7976931348623157e+308"));
    assert!(text.contains("0.1"));
}
