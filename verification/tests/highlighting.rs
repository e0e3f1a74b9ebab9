use aether::highlight::LineCache;
use aether::theme::Color;

fn rust_doc(lines: usize) -> String {
    let mut out = String::new();
    for i in 0..lines {
        out.push_str(&format!(
            "fn func_{i}() {{ let x = {i}; /* body */ println!(\"{{}}\", x); }}\n"
        ));
    }
    out
}

// JSON keys and values must be different colours, not one uniform string colour across the
// document.
#[test]
fn json_keys_and_values_color_differently() {
    let src = "{\n  \"name\": \"aether\",\n  \"count\": 42,\n  \"on\": true\n}\n";
    let mut cache = LineCache::new("json").expect("json grammar");
    let spans = cache.highlight(src, 0);
    let color_of = |needle: &str| {
        spans
            .iter()
            .find(|(s, _)| s.contains(needle))
            .map(|(_, c)| *c)
            .unwrap_or_else(|| panic!("token {needle:?} not found in {spans:?}"))
    };
    let key = color_of("name");
    let val = color_of("aether");
    assert_ne!(key, val, "JSON key vs string value must differ");
    assert_eq!(key, Color::Variable, "keys use property-name color");
    assert_eq!(val, Color::Str, "values stay string-colored");
    // Numbers / booleans keep their own colours too.
    assert_eq!(color_of("42"), Color::Number);
    assert_ne!(color_of("true"), val);
}

// Editing one line must not re-tokenize the rest of the file. The converged incremental result
// equals a highlight from scratch, and the incremental pass is drastically faster than the
// initial full pass.
#[test]
fn highlight_converges_after_single_line_edit() {
    let n = 6000;
    let mut text = rust_doc(n);
    let mut cache = LineCache::new("rs").expect("rust grammar");
    let t0 = std::time::Instant::now();
    cache.highlight(&text, 0);
    let full = t0.elapsed();

    // Same-length edit on line 100 (replace 'x' with 'y' once).
    let line_start: usize = text.lines().take(100).map(|l| l.len() + 1).sum();
    let off = line_start + text[line_start..].find('x').unwrap();
    text.replace_range(off..off + 1, "y");

    let t1 = std::time::Instant::now();
    let inc = cache.highlight(&text, 100);
    let inc_time = t1.elapsed();

    // Identical to a fresh highlight of the edited text.
    let mut fresh = LineCache::new("rs").unwrap();
    let want = fresh.highlight(&text, 0);
    assert_eq!(inc, want, "incremental spans must match a fresh highlight");

    // Convergence makes the edit pass at least 20x faster than the initial full tokenize.
    assert!(
        inc_time < full / 20,
        "incremental highlight too slow: {inc_time:?} vs full {full:?}"
    );
}
