use aether::highlight::{
    color_for_scopes, decode_semantic, scope_color, semantic_color, supports, Highlighter,
    LineCache, TsCache,
};
use aether::theme::Color;

fn texts(v: &[&str]) -> Vec<String> {
    v.iter().map(|s| s.to_string()).collect()
}

#[test]
fn scopes_and_token_types_have_colors() {
    assert_eq!(scope_color("comment.line.rust"), Color::Comment);
    assert_eq!(scope_color("constant.character.escape"), Color::Str);
    assert_eq!(scope_color("keyword.control.rust"), Color::KeywordControl);
    assert_eq!(scope_color("storage.type"), Color::Keyword);
    assert_eq!(scope_color("source.entity.name.function"), Color::Function);
    assert_eq!(scope_color("constant.numeric"), Color::Number);
    assert_eq!(scope_color("source.rust"), Color::Text);
    assert_eq!(color_for_scopes(&texts(&["source.rust", "meta.block", "string.quoted"])), Color::Str);
    assert_eq!(color_for_scopes(&texts(&["source.rust"])), Color::Text);
    assert_eq!(semantic_color("parameter"), Some(Color::Number));
    assert_eq!(semantic_color("macro"), Some(Color::Function));
    assert_eq!(semantic_color("unknown"), None);
}

#[test]
fn semantic_tokens_are_placed() {
    let legend = texts(&["function", "unknown", "string"]);
    // The second has no colour but moves the place; the last group is not whole.
    let data = [2, 4, 3, 0, 0, 0, 5, 1, 1, 0, 1, 2, 6, 2, 0, 9, 9];
    assert_eq!(
        decode_semantic(&data, &legend),
        vec![(2, 4, 3, Color::Function), (3, 2, 6, Color::Str)]
    );
    assert!(decode_semantic(&[0, 0, 1, 7, 0], &legend).is_empty());
}

#[test]
fn grammars_are_found_by_extension() {
    assert!(TsCache::new("rs").is_none());
    assert!(supports("rs"));
    assert!(supports("py"));
    assert!(!supports("no-such-language"));
    assert!(LineCache::new("no-such-language").is_none());
    assert!(matches!(Highlighter::new("ts"), Some(Highlighter::Tree(_))));
    assert!(matches!(Highlighter::new("py"), Some(Highlighter::Syntect(_))));
    assert!(Highlighter::new("no-such-language").is_none());
}

#[test]
fn a_tree_cache_tells_what_changed() {
    let mut cache = TsCache::new("ts").expect("typescript tree");
    let first = "function a() {}\nfunction b() {}\nfunction c() {}\n";
    let spans = cache.highlight(first, 0);
    let joined: String = spans.iter().map(|(s, _)| s.as_str()).collect();
    assert_eq!(joined, first);
    let (lo, hi) = cache.refresh("function a() {}\nlet b = 1;\nfunction c() {}\n", 1);
    assert!(lo <= 1 && hi > 1, "{lo} {hi}");
    assert_eq!(cache.last_changed_end(), hi);
    let row = cache.line_spans(0).expect("a row");
    assert_eq!(row.iter().find(|(s, _)| s == "a").map(|(_, c)| *c), Some(Color::Function));
    // Nothing changed.
    let (lo, hi) = cache.refresh("function a() {}\nlet b = 1;\nfunction c() {}\n", 0);
    assert!(lo >= hi, "{lo} {hi}");
}

#[test]
fn editing_refreshes_from_the_edited_line() {
    let mut cache = Highlighter::new("py").expect("python grammar");
    let mut text = "a = 1\nb = 2\nc = 3\n".to_string();
    cache.highlight(&text, 0);
    text = text.replace("b = 2", "b = \"x\"");
    let (lo, hi) = cache.refresh(&text, 1);
    assert_eq!(lo, 1);
    assert!(hi >= 2);
    let row = cache.line_spans(1).expect("a row");
    assert!(row.iter().any(|(s, c)| s.contains('x') && *c == Color::Str), "{row:?}");
    let joined: String = cache.flatten().iter().map(|(s, _)| s.as_str()).collect();
    assert_eq!(joined, text);
}
