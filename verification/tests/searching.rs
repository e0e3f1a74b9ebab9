use aether::search::{
    build_regex, escape, glob_to_regex, line_ranges, replace_all, replace_in, scan_file, scan_text,
    skips_dir, wants_file, FileMatches, Filters, SearchOpts, SearchRun,
};
use aether::search_rows::{
    all_group_keys, basename, build_flat_rows, build_tree_rows, join_path, RowKind,
};

const PLAIN: SearchOpts = SearchOpts { case_sensitive: false, whole_word: false, regex: false };
const REGEX: SearchOpts = SearchOpts { case_sensitive: true, whole_word: false, regex: true };

#[test]
fn globs_become_patterns() {
    let f = Filters::new("*.rs, src/**", "target");
    assert!(f.allows("lib.rs"));
    assert!(f.allows("src/deep/x.txt"));
    assert!(!f.allows("notes.txt"));
    let all = Filters::new("", "*.lock");
    assert!(all.allows("a.rs"));
    assert!(!all.allows("Cargo.lock"));
    assert!(glob_to_regex("a.b").contains("a\\.b"));
    let only_out = Filters::exclude_globs(&vec!["*.min.js".to_string(), "dist".to_string()]);
    assert!(only_out.allows("src/a.js"));
    assert!(!only_out.allows("src/a.min.js"));
    assert!(!only_out.allows("dist"));
    assert!(!only_out.allows("web/dist"));
    assert!(!only_out.allows("dist/a.js"));
    assert!(only_out.allows("distance/a.js"));
    assert!(!Filters::new("", "node_modules").allows("node_modules/x.js"));
    assert!(!Filters::new("", "src/*.rs").allows("src/a.rs"));
    assert!(Filters::new("", "src/*.rs").allows("app/src/a.rs"));
}

#[test]
fn an_escaped_query_matches_only_itself() {
    let q = "a.b*(c)[d]\\^$";
    let re = build_regex(q, SearchOpts { case_sensitive: true, ..PLAIN }).expect("compiles");
    assert_eq!(line_ranges(&re, &format!("x{q}y")), vec![(1, 1 + q.len())]);
    assert!(line_ranges(&re, "aXbbcd").is_empty());
    assert_eq!(escape("a.b"), "a\\.b");
}

#[test]
fn options_shape_the_pattern() {
    let re = build_regex("word", PLAIN).expect("compiles");
    assert_eq!(line_ranges(&re, "Word sword"), vec![(0, 4), (6, 10)]);
    let re = build_regex("word", SearchOpts { whole_word: true, ..PLAIN }).expect("compiles");
    assert_eq!(line_ranges(&re, "Word sword"), vec![(0, 4)]);
    let re = build_regex("word", SearchOpts { case_sensitive: true, ..PLAIN }).expect("compiles");
    assert_eq!(line_ranges(&re, "Word sword"), vec![(6, 10)]);
    assert!(build_regex("(", REGEX).is_none());
    assert!(build_regex("", PLAIN).is_none());
    let re = build_regex("x*", REGEX).expect("compiles");
    assert!(!line_ranges(&re, "aéb").is_empty());
}

#[test]
fn lines_are_scanned() {
    let re = build_regex("b", PLAIN).expect("compiles");
    let found = scan_text(&re, "a\nbb\r\nc b");
    let got: Vec<(usize, &str, Vec<(usize, usize)>)> =
        found.iter().map(|l| (l.line, l.text.as_str(), l.ranges.clone())).collect();
    assert_eq!(got, vec![(2, "bb", vec![(0, 1), (1, 2)]), (3, "c b", vec![(2, 3)])]);
    assert!(scan_file(&re, &b"b\0b".to_vec()).is_empty());
    assert_eq!(scan_file(&re, &b"b".to_vec()).len(), 1);
}

#[test]
fn a_run_reports_every_hit_once() {
    let re = build_regex("hit", PLAIN).expect("compiles");
    let mut run = SearchRun::new();
    let mut files = Vec::new();
    for k in 0..30 {
        let text = if k % 2 == 0 { "hit" } else { "none" };
        let (batch, over) =
            run.take_file(&re, &format!("/w/{k}"), &format!("{k}"), &text.as_bytes().to_vec());
        assert!(!over);
        files.extend(batch.into_iter().map(|f| f.rel));
    }
    files.extend(run.finish().into_iter().map(|f| f.rel));
    let want: Vec<String> = (0..30).filter(|k| k % 2 == 0).map(|k| k.to_string()).collect();
    assert_eq!(files, want);
    let f = Filters::new("", "");
    assert!(wants_file(&f, "a", 10));
    assert!(!wants_file(&f, "a", u64::MAX));
    assert!(skips_dir("node_modules") && skips_dir(".git") && !skips_dir("src"));
}

#[test]
fn matches_are_replaced() {
    let re = build_regex("(a)(b)", REGEX).expect("compiles");
    assert_eq!(replace_in(&re, "ab xab", "$2$1"), Some("ba xba".to_string()));
    assert_eq!(replace_in(&re, "none", "x"), None);
    // A pattern may move the start of its matches; where that makes them overlap, nothing is
    // replaced.
    let behind = build_regex(r"a\Kb", REGEX).expect("compiles");
    assert_eq!(replace_in(&behind, "abxbab", "-"), Some("a-xba-".to_string()));
    let empty = build_regex(r"a\K", REGEX).expect("compiles");
    assert_eq!(replace_in(&empty, "ab\u{e9}a", "<$0>"), Some("a<>b\u{e9}a<>".to_string()));
    let moved = build_regex(r"(?<=\Kaa)a", REGEX).expect("compiles");
    assert_eq!(replace_in(&moved, "aaaa", "x"), None);
    assert_eq!(replace_in(&moved, "aaa", "x"), Some("x".to_string()));
    let ahead = build_regex(r"(?=a\K)", REGEX).expect("compiles");
    assert_eq!(replace_in(&ahead, "aa", "x"), Some("xaxa".to_string()));
    let beyond = build_regex(r"x(?=ab\K)a", REGEX).expect("compiles");
    assert_eq!(replace_in(&beyond, "xab", "y"), Some("xayb".to_string()));
    let chained = build_regex(r"\G(?:a\Kb)", REGEX).expect("compiles");
    assert_eq!(replace_in(&chained, "ababxab", "-"), Some("a-a-xab".to_string()));
    let again = build_regex(r"(?<=\Kab)", REGEX).expect("compiles");
    assert_eq!(replace_in(&again, "ab", "x"), None);
    let plain = build_regex(r"C:\Kits", PLAIN).expect("compiles");
    assert_eq!(replace_in(&plain, r"at C:\Kits", "D:"), Some("at D:".to_string()));
    let texts = vec!["one two".to_string(), "three".to_string()];
    assert_eq!(
        replace_all(&texts, "TWO", PLAIN, "2"),
        vec![Some("one 2".to_string()), None]
    );
    assert_eq!(replace_all(&texts, "(", REGEX, "2"), vec![None, None]);
}

fn file(rel: &str, text: &str) -> FileMatches {
    let re = build_regex("hit", PLAIN).expect("compiles");
    FileMatches {
        path: format!("/w/{rel}"),
        rel: rel.to_string(),
        lines: scan_text(&re, text),
    }
}

#[test]
fn results_are_shown_flat() {
    let results = vec![file("src/a.rs", "hit\nhit hit"), file("b.rs", "hit")];
    let rows = build_flat_rows(&results, &vec![]);
    let kinds: Vec<RowKind> = rows.iter().map(|r| r.kind).collect();
    assert_eq!(
        kinds,
        vec![RowKind::File, RowKind::Match, RowKind::Match, RowKind::File, RowKind::Match]
    );
    let key = rows[0].key.clone();
    let folded = build_flat_rows(&results, &vec![key]);
    assert_eq!(folded.len(), 3);
    assert_eq!(basename("src/a.rs"), "a.rs");
    assert_eq!(join_path("", "a"), "a");
    assert_eq!(join_path("a", "b"), "a/b");
}

#[test]
fn results_are_shown_as_a_tree_in_order() {
    let results =
        vec![file("z.rs", "hit"), file("src/ui/b.rs", "hit"), file("src/a.rs", "hit"), file("a.rs", "hit")];
    let rows = build_tree_rows(&results, &vec![]);
    let shown: Vec<(usize, RowKind, &str)> =
        rows.iter().filter(|r| r.kind != RowKind::Match).map(|r| (r.depth, r.kind, r.label.as_str())).collect();
    let labels: Vec<&str> = shown.iter().map(|s| s.2).collect();
    let src = labels.iter().position(|l| l.contains("src")).expect("the folder");
    assert_eq!(shown[src].1, RowKind::Dir);
    assert_eq!(shown[src].0, 0);
    let files: Vec<usize> =
        rows.iter().filter(|r| r.kind == RowKind::File).map(|r| r.file).collect();
    let mut sorted = files.clone();
    sorted.sort();
    assert_eq!(sorted, vec![0, 1, 2, 3]);
    let keys = all_group_keys(&results);
    let folded = build_tree_rows(&results, &keys);
    assert!(folded.iter().all(|r| r.kind != RowKind::Match && r.depth == 0));
}

#[test]
fn every_row_with_a_key_can_be_collapsed() {
    let results =
        vec![file("z.rs", "hit"), file("src/ui/deep/b.rs", "hit"), file("src/a.rs", "hit"), file("lib/c/d.rs", "hit")];
    let keys = all_group_keys(&results);
    for collapsed in [vec![], vec!["d:src".to_string()], keys.clone()] {
        for rows in [build_tree_rows(&results, &collapsed), build_flat_rows(&results, &collapsed)] {
            for row in rows.iter().filter(|r| r.kind != RowKind::Match) {
                assert!(keys.contains(&row.key), "{} is no key", row.key);
            }
        }
    }
    let folded = build_tree_rows(&results, &keys);
    let top: Vec<&str> = folded.iter().map(|r| r.key.as_str()).collect();
    assert_eq!(top, vec!["d:lib/c", "d:src", "f:z.rs"]);
    assert!(build_flat_rows(&results, &keys).iter().all(|r| r.kind == RowKind::File && r.depth == 0));
}
