use aether::search::Filters;
use aether::ui::breadcrumbs::Breadcrumbs;
use aether::ui::explorer_panel::{Commit, ExplorerPanel};
use aether::workspace::{
    is_binary, should_hide, Disk, DocKind, Entry, FileTree, Listing, Workspace,
};

fn listing(dir: &str, entries: &[(&str, bool)]) -> Listing {
    Listing {
        dir: dir.to_string(),
        entries: entries
            .iter()
            .map(|(n, d)| Entry { name: n.to_string(), is_dir: *d })
            .collect(),
    }
}

fn disk() -> Disk {
    Disk {
        listings: vec![
            listing("/w", &[("b.txt", false), ("Src", true), ("a.txt", false), ("docs", true)]),
            listing("/w/Src", &[("lib.rs", false)]),
            listing("/w/docs", &[]),
        ],
        excludes: Filters::new("", ""),
        hide_gitignored: false,
    }
}

fn names(t: &FileTree) -> Vec<(usize, &str)> {
    t.nodes.iter().map(|n| (n.depth, n.name.as_str())).collect()
}

#[test]
fn folders_come_first_and_open_in_place() {
    let d = disk();
    let mut t = FileTree::new("/w", vec![], &d);
    assert_eq!(names(&t), vec![(0, "docs"), (0, "Src"), (0, "a.txt"), (0, "b.txt")]);
    let closed = names(&t).len();
    t.toggle(1, &d);
    assert_eq!(
        names(&t),
        vec![(0, "docs"), (0, "Src"), (1, "lib.rs"), (0, "a.txt"), (0, "b.txt")]
    );
    t.toggle(1, &d);
    assert_eq!(names(&t).len(), closed);
    t.expand("/w/Src", &d);
    t.collapse_all(&d);
    assert_eq!(names(&t).len(), closed);
    t.toggle(3, &d);
    assert_eq!(names(&t).len(), closed);
}

#[test]
fn what_is_excluded_or_ignored_is_hidden() {
    let f = Filters::new("", "*.log");
    assert!(should_hide("x.log", &f, false, false));
    assert!(should_hide("x.rs", &f, true, true));
    assert!(!should_hide("x.rs", &f, true, false));
    let mut d = disk();
    d.hide_gitignored = true;
    let mut t = FileTree::new("/w", vec!["/w/a.txt".to_string()], &d);
    assert!(!names(&t).iter().any(|n| n.1 == "a.txt"));
    d.hide_gitignored = false;
    t.rebuild(&d);
    assert!(t.nodes.iter().any(|n| n.name == "a.txt" && n.ignored));
    d.hide_gitignored = true;
    t.refresh(vec![], &d);
    assert!(names(&t).iter().any(|n| n.1 == "a.txt"));
}

#[test]
fn files_are_opened_once() {
    let d = disk();
    let mut w = Workspace::new("/w", vec![], &d);
    w.open_file("/w/a.txt", &b"hello".to_vec(), &vec![]);
    w.open_file("/w/b.txt", &b"\0bin".to_vec(), &vec![]);
    w.open_file("/w/a.txt", &b"changed".to_vec(), &vec![]);
    assert_eq!(w.documents.len(), 2);
    assert_eq!(w.active, Some(0));
    assert_eq!(w.active_doc().expect("active").text, "hello");
    assert!(matches!(w.documents[1].kind, DocKind::Binary));
    assert!(is_binary(&b"a\0".to_vec()) && !is_binary(&b"text".to_vec()));
    assert!(w.focus_path("/w/b.txt"));
    assert!(!w.focus_path("/w/zzz"));
    w.open_diff("a.txt (diff)");
    assert!(matches!(w.active_doc().unwrap().kind, DocKind::Diff));
    w.open_image("/w/p.png", "key");
    assert_eq!(w.documents.len(), 4);
    w.active_doc_mut().unwrap().dirty = true;
    assert!(w.documents[3].dirty);
}

#[test]
fn tabs_are_moved_and_closed() {
    let d = disk();
    let mut w = Workspace::new("/w", vec![], &d);
    for n in ["a", "b", "c"] {
        w.open_file(&format!("/w/{n}"), &b"x".to_vec(), &vec![]);
    }
    w.switch_to(0);
    w.move_tab(0, 2);
    let order = |w: &Workspace| w.documents.iter().map(|d| d.name.clone()).collect::<Vec<_>>();
    assert_eq!(order(&w), vec!["b", "c", "a"]);
    assert_eq!(w.active_doc().unwrap().name, "a");
    w.move_tab(2, 0);
    assert_eq!(order(&w), vec!["a", "b", "c"]);
    w.switch_to(1);
    w.close_idx(0);
    assert_eq!(w.active_doc().unwrap().name, "b");
    w.close_active();
    w.close_active();
    assert!(w.active.is_none() && w.documents.is_empty());
}

#[test]
fn renamed_files_keep_their_documents() {
    let d = disk();
    let mut w = Workspace::new("/w", vec![], &d);
    w.open_file("/w/a.txt", &b"x".to_vec(), &vec![]);
    w.repoint("/w/a.txt", "/w/z.txt", "z.txt");
    assert_eq!(w.documents[0].path.as_deref(), Some("/w/z.txt"));
    assert_eq!(w.documents[0].name, "z.txt");
}

#[test]
fn entries_are_made_inside_an_open_folder() {
    let d = disk();
    let mut w = Workspace::new("/w", vec![], &d);
    assert_eq!(w.create_entry("/w/Src", "new.rs", false, &d), None);
    assert!(w.tree.expanded_set.is_empty());
    assert_eq!(w.create_entry("/w/Src", "new.rs", true, &d), Some("/w/Src/new.rs".to_string()));
    assert_eq!(w.tree.expanded_set, vec!["/w/Src"]);
}

#[test]
fn names_are_typed_in_place() {
    let d = disk();
    let mut w = Workspace::new("/w", vec![], &d);
    let mut p = ExplorerPanel::new();
    assert_eq!(p.begin_create(true, Some(1), &mut w, &d), " folder name");
    let c = p.creating.as_ref().expect("pending");
    assert_eq!((c.parent.as_str(), c.row, c.depth), ("/w/Src", 2, 1));
    assert!(matches!(
        p.commit_create(" sub "),
        Commit::Create { parent, path, is_dir: true } if parent == "/w/Src" && path == "/w/Src/sub"
    ));
    assert!(p.creating.is_none());
    assert_eq!(p.begin_rename(0, &w), Some("docs".to_string()));
    assert!(matches!(
        p.commit_create("papers"),
        Commit::Rename { from, to, name } if from == "/w/docs" && to == "/w/papers" && name == "papers"
    ));
    p.begin_create(false, None, &mut w, &d);
    assert!(matches!(p.commit_create("  "), Commit::Nothing));
    p.begin_create(false, None, &mut w, &d);
    p.cancel_create();
    assert!(matches!(p.commit_create("x"), Commit::Nothing));
}

#[test]
fn crumbs_lead_to_a_file() {
    let mut b = Breadcrumbs::new();
    b.set_path("/w", "/w/Src/lib.rs");
    let labels: Vec<&str> = b.crumbs.iter().map(|c| c.label.as_str()).collect();
    assert!(labels.last().unwrap().contains("lib.rs"), "{labels:?}");
    let dir = b.toggle(0).expect("a folder");
    b.load_dir(&dir, &vec![Entry { name: "z".to_string(), is_dir: false }, Entry { name: "a".to_string(), is_dir: true }]);
    assert!(b.is_open());
    let (first, is_dir) = b.entry(0).expect("an entry");
    assert!(first.ends_with("/a") && is_dir);
    assert_eq!(b.entry(9), None);
    b.drill(&first, &vec![Entry { name: "deep.rs".to_string(), is_dir: false }]);
    assert!(b.is_open());
    assert_eq!(b.entry(0), Some((format!("{first}/deep.rs"), false)));
    b.close();
    assert!(!b.is_open());
}

#[test]
fn toggling_a_row_twice_restores_the_rows() {
    let d = disk();
    let mut t = FileTree::new("/w", vec![], &d);
    t.toggle(1, &d);
    let open: Vec<(usize, String)> = t.nodes.iter().map(|n| (n.depth, n.name.clone())).collect();
    t.toggle(1, &d);
    assert_ne!(names(&t).len(), open.len());
    t.toggle(1, &d);
    let again: Vec<(usize, String)> = t.nodes.iter().map(|n| (n.depth, n.name.clone())).collect();
    assert_eq!(again, open);
    t.expand("/w/Src", &d);
    assert_eq!(names(&t).len(), open.len());
}
