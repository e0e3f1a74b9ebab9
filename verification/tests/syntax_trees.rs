use aether::syntax::{highlight_lines, highlight_spans, Lang};
use aether::theme::Color;

fn color_of(spans: &[(String, Color)], needle: &str) -> Color {
    spans.iter().find(|(s, _)| s == needle).map(|(_, c)| *c).expect(needle)
}

#[test]
fn extensions_name_languages() {
    assert_eq!(Lang::from_ext("RS"), Lang::Rust);
    assert_eq!(Lang::from_ext("mjs"), Lang::TypeScript);
    assert_eq!(Lang::from_ext("tsx"), Lang::Tsx);
    assert_eq!(Lang::from_ext("json"), Lang::Json);
    assert_eq!(Lang::from_ext("txt"), Lang::PlainText);
}

#[test]
fn rust_is_colored_by_its_tree() {
    let spans = highlight_spans(Lang::Rust, "fn main() { return 1; } // end\n").expect("rust");
    assert_eq!(color_of(&spans, "fn"), Color::Keyword);
    assert_eq!(color_of(&spans, "// end"), Color::Comment);
}

#[test]
fn json_is_colored_by_its_tree() {
    let spans = highlight_spans(Lang::Json, "{\"a\": 1}").expect("json");
    assert_eq!(color_of(&spans, "1"), Color::Number);
}

#[test]
fn scripts_are_colored_by_the_typescript_tree() {
    let spans = highlight_spans(Lang::from_ext("js"), "const s = 'x'; // c\n").expect("javascript");
    assert_eq!(color_of(&spans, "'x'"), Color::Str);
    assert_eq!(color_of(&spans, "// c"), Color::Comment);
}

#[test]
fn typescript_is_colored_by_its_tree() {
    let text = "const n: number = 1;\nlet s = 'x';\n";
    let rows = highlight_lines(Lang::TypeScript, text).expect("typescript");
    let joined: String = rows.iter().flatten().map(|(s, _)| s.as_str()).collect();
    assert_eq!(joined, text);
    assert_eq!(color_of(&rows[1], "'x'"), Color::Str);
}

#[test]
fn tsx_is_colored_by_its_tree() {
    let spans = highlight_spans(Lang::Tsx, "const e = <b>hi</b>;\n").expect("tsx");
    let joined: String = spans.iter().map(|(s, _)| s.as_str()).collect();
    assert_eq!(joined, "const e = <b>hi</b>;\n");
}

#[test]
fn plain_text_has_no_tree() {
    assert!(highlight_spans(Lang::PlainText, "hello").is_none());
}
