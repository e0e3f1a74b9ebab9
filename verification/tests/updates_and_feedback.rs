use aether::feedback_upload::{
    filed, issue_args, issue_body, read_upload, upload_body, upload_type, upload_url, Filing,
};
use aether::update::{
    bundle_url, check_notice, current_version, enclosing_bundle, install_apt_async,
    install_managed_async, installer_url, is_app_bundle_install, is_apt_install,
    is_managed_install, is_program_files_install, latest_newer, offered, target, Install, Notice,
    Platform,
};

#[test]
fn a_newer_release_is_offered() {
    let tags = |t: &[&str]| t.iter().map(|s| s.to_string()).collect::<Vec<_>>();
    assert_eq!(current_version(), "0.1.0");
    assert_eq!(latest_newer(&tags(&["v0.2.0", "v9.9.9"])), Some("0.2.0".to_string()));
    assert_eq!(latest_newer(&tags(&["v0.1.0"])), None);
    assert_eq!(latest_newer(&tags(&["0.0.9", "9.0.0"])), None);
    assert_eq!(latest_newer(&tags(&["vnext"])), None);
    assert_eq!(latest_newer(&tags(&[])), None);
    assert_eq!(offered("1.0.0", Some(true)), Some("1.0.0".to_string()));
    assert_eq!(offered("1.0.0", Some(false)), None);
    assert_eq!(offered("1.0.0", None), None);
}

#[test]
fn the_user_is_told_of_no_update_only_when_asking() {
    assert!(matches!(check_notice(Some("1".to_string()), false), Notice::Available { version } if version == "1"));
    assert!(matches!(check_notice(None, true), Notice::UpToDate));
    assert!(matches!(check_notice(None, false), Notice::Silent));
}

#[test]
fn each_system_has_its_files() {
    assert_eq!(target(Platform::Windows, false), "windows-x86_64");
    assert_eq!(target(Platform::MacOs, true), "macos-arm64");
    assert_eq!(target(Platform::MacOs, false), "macos-x86_64");
    assert_eq!(target(Platform::Linux, true), "linux-x86_64");
    assert!(installer_url().ends_with("/download/aether-windows-setup-x86_64.exe"));
    assert!(bundle_url().ends_with("/download/Aether-macos-arm64.dmg"));
}

#[test]
fn managed_installs_are_told_by_the_system() {
    let dirs = vec!["".to_string(), "C:\\Program Files".to_string()];
    assert!(is_apt_install(Platform::Linux, true));
    assert!(!is_apt_install(Platform::MacOs, true));
    assert!(is_program_files_install(Platform::Windows, "c:\\program files\\a.exe", &dirs));
    assert!(!is_program_files_install(Platform::Windows, "D:\\a.exe", &dirs));
    assert!(!is_program_files_install(Platform::Linux, "c:\\program files\\a.exe", &dirs));
    let exe = "/Applications/Aether.app/Contents/MacOS/aether";
    assert!(is_app_bundle_install(Platform::MacOs, exe));
    assert!(!is_app_bundle_install(Platform::Linux, exe));
    assert!(is_managed_install(Platform::MacOs, false, "", &dirs, exe));
    assert!(!is_managed_install(Platform::Other, true, exe, &dirs, exe));
    assert_eq!(install_managed_async(Platform::MacOs, exe), Install::Bundle);
    assert_eq!(install_managed_async(Platform::MacOs, "/opt/aether"), Install::Replace);
    assert_eq!(install_managed_async(Platform::Linux, ""), Install::Packages);
    assert_eq!(install_managed_async(Platform::Windows, ""), Install::Installer);
    let apt = install_apt_async(Platform::Linux).expect("linux");
    assert_eq!(apt[..3], ["pkexec", "sh", "-c"]);
    assert!(apt[3].ends_with("--only-upgrade aether"));
    assert!(install_apt_async(Platform::Other).is_none());
    assert_eq!(enclosing_bundle(exe), Some("/Applications/Aether.app".to_string()));
    assert_eq!(enclosing_bundle("/usr/bin/aether"), None);
}

#[test]
fn a_picture_is_sent_as_it_is() {
    let png = vec![0x89u8, 0x50, 0, 0xff];
    let body = upload_body(&png);
    let at = body.windows(4).position(|w| w == &png[..]).expect("the picture");
    let head = String::from_utf8(body[..at].to_vec()).expect("text");
    assert!(head.starts_with("------novaFeedbackBoundary7MA4YWxkTrZu0gW\r\n"));
    assert!(head.contains("name=\"upload_preset\"\r\n\r\nml_default\r\n"));
    assert!(head.ends_with("Content-Type: image/png\r\n\r\n"));
    let tail = String::from_utf8(body[at + 4..].to_vec()).expect("text");
    assert_eq!(tail, "\r\n------novaFeedbackBoundary7MA4YWxkTrZu0gW--\r\n");
    assert!(upload_type().ends_with("boundary=----novaFeedbackBoundary7MA4YWxkTrZu0gW"));
    assert!(upload_url().starts_with("https://api.cloudinary.com/"));
}

#[test]
fn the_answer_to_a_picture_is_read() {
    assert_eq!(read_upload("{\"secure_url\":\"https://u\"}"), Ok("https://u".to_string()));
    assert_eq!(read_upload("{}"), Err("no secure_url in upload response".to_string()));
    let wrong = read_upload("{").expect_err("malformed");
    assert!(wrong.starts_with("bad upload JSON: EOF"), "{wrong}");
}

#[test]
fn an_issue_is_filed_with_or_without_its_picture() {
    assert_eq!(issue_body("b", &None), "b");
    assert_eq!(
        issue_body("b", &Some(Ok("u".to_string()))),
        "b\n\n### Screenshot\n\n![screenshot](u)"
    );
    assert_eq!(
        issue_body("b", &Some(Err("e".to_string()))),
        "b\n\n_(screenshot upload failed: e)_"
    );
    assert_eq!(issue_args("t", "b")[4..], ["--title", "t", "--body", "b"]);
    let ran = |success| Filing::Ran { success, out: b" url\n".to_vec(), err: b"why \n".to_vec() };
    assert_eq!(filed(&ran(true)), Ok("url".to_string()));
    assert_eq!(filed(&ran(false)), Err("why".to_string()));
    assert_eq!(filed(&Filing::Failed { message: "m".to_string() }), Err("m".to_string()));
}
