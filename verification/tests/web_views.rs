use aether::exthost::WebviewProc;
use aether::json::{parse, Json};
use aether::webview::{
    child_report, closed_report, command_line, mime_for, out_line, parse_init, post_script, ready,
    report, resource, route_body, ChildReport, ChildWebview, Host, HostAction, HostCmd, PageEvent,
    Resource,
};
use aether::webview_shim::VSCODE_API_SHIM;

#[test]
fn a_host_is_told_what_the_editor_wrote() {
    let p = WebviewProc::start("view", -3, "Panel", 77, 95);
    assert_eq!(p.shm_path, "/dev/shm/aether-wv-77-3");
    let roots = vec!["/ext/a".to_string(), "/ext/b".to_string()];
    let line = out_line(&p.init_message(true, &roots));
    let init = parse_init(&line);
    assert_eq!(init.title, "Panel");
    assert_eq!((init.width, init.height), (520, 760));
    assert_eq!(init.roots, roots);
    assert!(init.embed);
    assert_eq!(init.shm.as_deref(), Some("/dev/shm/aether-wv-77-3"));
    assert_eq!(init.theme_js, "");
}

#[test]
fn a_host_that_is_told_nothing_has_defaults() {
    let init = parse_init("nonsense");
    assert_eq!(init.title, "Aether Webview");
    assert_eq!((init.width, init.height), (480, 720));
    assert!(init.roots.is_empty() && !init.embed && init.shm.is_none());
}

#[test]
fn a_host_understands_the_editor() {
    let p = WebviewProc::start("view", 1, "Panel", 77, 95);
    let read = |j: Json| command_line(&out_line(&j)).expect("a command");
    assert!(matches!(read(p.set_html("<b>")), HostCmd::Html { html } if html == "<b>"));
    assert!(matches!(read(p.set_visible(false)), HostCmd::Visible { value: false }));
    assert!(matches!(read(p.post(&Json::whole(4))), HostCmd::Post { data } if data.as_i64() == Some(4)));
    match read(p.set_bounds(-5, 6, 700, 800, Json::whole(2))) {
        HostCmd::Bounds { x, y, w, h, zoom } => {
            assert_eq!((x, y, w, h), (-5, 6, 700, 800));
            assert_eq!(zoom.unwrap().as_i64(), Some(2));
        }
        _ => panic!("bounds"),
    }
    assert!(matches!(command_line("{\"cmd\":\"bounds\"}"), Some(HostCmd::Bounds { w: 1, h: 1, .. })));
    assert!(matches!(command_line("{\"cmd\":\"quit\"}"), Some(HostCmd::Quit)));
    assert!(matches!(command_line("{\"cmd\":\"html\"}"), Some(HostCmd::Unknown)));
    assert!(command_line("   ").is_none());
    assert!(command_line("nonsense").is_none());
}

#[test]
fn a_host_acts_by_how_it_is_shown() {
    let mut shown = Host::new(false);
    let mut drawn = Host::new(true);
    assert_eq!(shown.page, "<html><body style='background:#1e1e1e'></body></html>");
    let html = HostCmd::Html { html: "<i>".to_string() };
    assert!(matches!(shown.step(&html), HostAction::Load));
    assert_eq!(shown.page, "<i>");
    let bounds = HostCmd::Bounds { x: 1, y: 2, w: 3, h: 4, zoom: None };
    assert!(matches!(shown.step(&bounds), HostAction::Place { x: 1, y: 2, w: 3, h: 4 }));
    assert!(matches!(drawn.step(&bounds), HostAction::Size { w: 3, h: 4 }));
    let hide = HostCmd::Visible { value: false };
    assert!(matches!(shown.step(&hide), HostAction::Hide));
    assert!(matches!(drawn.step(&hide), HostAction::Nothing));
    assert!(matches!(shown.step(&HostCmd::Visible { value: true }), HostAction::Present));
    assert!(matches!(shown.step(&HostCmd::Quit), HostAction::Quit));
    let post = HostCmd::Post { data: Json::whole(1) };
    assert!(matches!(shown.step(&post), HostAction::Run { script } if script.contains("data: 1 ")));
}

#[test]
fn what_a_page_sends_is_routed() {
    assert!(matches!(route_body("{\"__aetherFocus\":true}"), PageEvent::Focus));
    assert!(matches!(
        route_body("{\"__aetherCursor\":\"text\"}"),
        PageEvent::Cursor { value } if value == "text"
    ));
    assert!(matches!(
        route_body("{\"__aetherConsole\":\"warn\",\"msg\":\"m\"}"),
        PageEvent::Console { kind, msg } if kind == "warn" && msg == "m"
    ));
    assert!(matches!(
        route_body("plain words"),
        PageEvent::Message { data } if data.as_str() == Some("plain words")
    ));
    let line = |body: &str| out_line(&report(route_body(body)));
    assert_eq!(line("{\"__aetherFocus\":1}"), "{\"event\":\"focus\"}\n");
    assert_eq!(line("[1]"), "{\"data\":[1],\"event\":\"message\"}\n");
    assert_eq!(ready(7).to_text(), "{\"event\":\"ready\",\"xid\":7}");
    assert_eq!(closed_report().to_text(), "{\"event\":\"closed\"}");
}

#[test]
fn a_page_inside_the_window_keeps_its_focus_and_logs_its_console() {
    assert!(matches!(child_report(4, PageEvent::Focus), ChildReport::Ignore));
    let e = PageEvent::Console { kind: "error".to_string(), msg: "boom".to_string() };
    assert!(matches!(child_report(-4, e), ChildReport::Log { line } if line == "[webview:-4 error] boom"));
    let e = PageEvent::Message { data: Json::Null };
    assert!(matches!(child_report(4, e), ChildReport::Emit { .. }));
    let mut c = ChildWebview::create("v", 9, "T");
    c.set_html("<p>");
    assert_eq!(c.page_html, "<p>");
    assert_eq!(c.set_bounds(1, 10, 0, 20, 100, true), (1, 70, 1, 20));
    assert_eq!(c.set_bounds(1, 10, 5, 20, 100, false), (1, 10, 5, 20));
}

#[test]
fn only_files_below_a_root_are_served() {
    let roots = vec!["/ext".to_string()];
    assert!(matches!(resource(Some("page"), "/anything", &roots), Resource::Page));
    assert!(matches!(
        resource(Some("file"), "/ext/a.mjs", &roots),
        Resource::File { mime: "text/javascript" }
    ));
    assert!(matches!(resource(None, "/extra/a.js", &roots), Resource::Refused));
    assert!(matches!(resource(Some("file"), "/etc/passwd", &vec![]), Resource::Refused));
    assert!(matches!(resource(None, "/ext/../etc/passwd", &roots), Resource::Refused));
    assert!(matches!(resource(None, "/ext/a/../../etc/passwd", &roots), Resource::Refused));
    assert!(matches!(resource(None, "/ext/../../ext2/x.js", &roots), Resource::Refused));
    assert!(matches!(resource(None, "/ext/a/../b.js", &roots), Resource::File { mime: "text/javascript" }));
    assert!(matches!(resource(None, "/../ext/b.js", &roots), Resource::Refused));
    assert_eq!(mime_for("woff"), "font/woff2");
    assert_eq!(mime_for("exe"), "application/octet-stream");
}

#[test]
fn separators_inside_data_are_escaped() {
    let s = post_script(&Json::text("a\u{2028}b\u{2029}c"));
    assert_eq!(
        s,
        "window.dispatchEvent(new MessageEvent('message', { data: \"a\\u2028b\\u2029c\" }));"
    );
    let data = parse(&s[57..s.len() - 5]).expect("still json");
    assert_eq!(data.as_str(), Some("a\u{2028}b\u{2029}c"));
}

#[test]
fn pages_get_the_interface_first() {
    assert!(VSCODE_API_SHIM.contains("window.acquireVsCodeApi"));
}
