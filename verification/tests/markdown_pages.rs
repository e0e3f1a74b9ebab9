use aether::markdown::{measure_columns, Block, Face, Gap, Markdown, Size};

fn show(src: &str) -> Markdown {
    let mut m = Markdown::new();
    m.set("k", src, false);
    m
}

fn texts(m: &Markdown) -> Vec<String> {
    m.blocks()
        .iter()
        .filter_map(|b| match b {
            Block::Text { runs, .. } => {
                Some(runs.iter().map(|r| r.0.as_str()).collect::<String>())
            }
            _ => None,
        })
        .collect()
}

#[test]
fn headings_and_paragraphs_become_blocks() {
    let m = show("# Title\n\nsome **bold** and *slanted* `code`\n");
    let t = texts(&m);
    assert_eq!(t.len(), 2);
    assert_eq!(t[0], "Title");
    match &m.blocks()[0] {
        Block::Text { runs, size, gap, .. } => {
            assert_eq!(runs[0].1.face, Face::Heading);
            assert!(runs[0].1.bold);
            assert_eq!(*size, Size::Heading(1));
            assert_eq!(*gap, Gap::HeadBottom);
        }
        _ => panic!("text"),
    }
    match &m.blocks()[1] {
        Block::Text { runs, .. } => {
            let look = |s: &str| runs.iter().find(|r| r.0 == s).expect(s).1;
            assert!(look("bold").bold && !look("bold").italic);
            assert!(look("slanted").italic);
            assert_eq!(look("code").face, Face::Code);
        }
        _ => panic!("text"),
    }
}

#[test]
fn images_stand_in_blocks_of_their_own() {
    let m = show("before ![alt](a.png) after ![x](b.svg?raw=1) ![y](c.gif)\n");
    assert_eq!(m.image_urls(), &vec!["a.png".to_string(), "c.gif".to_string()]);
    let urls: Vec<&str> = m
        .blocks()
        .iter()
        .filter_map(|b| match b {
            Block::Image { url } => Some(url.as_str()),
            _ => None,
        })
        .collect();
    assert_eq!(urls, vec!["a.png", "c.gif"]);
    assert!(texts(&m).iter().all(|t| !t.trim().is_empty()));
    assert!(!texts(&m).concat().contains("alt"));
}

#[test]
fn links_stand_inside_their_text() {
    let m = show("see [the é docs](https://d) now\n");
    match &m.blocks()[0] {
        Block::Text { runs, links, .. } => {
            let text: String = runs.iter().map(|r| r.0.as_str()).collect();
            assert_eq!(links.len(), 1);
            let (s, e, url) = &links[0];
            assert_eq!(&text[*s..*e], "the é docs");
            assert_eq!(url, "https://d");
        }
        _ => panic!("text"),
    }
}

#[test]
fn lists_are_numbered_and_indented() {
    let m = show("3. three\n4. four\n   - inner\n\n- [x] done\n- [ ] open\n");
    let all = texts(&m).concat();
    assert!(all.contains("3. three"));
    assert!(all.contains("4. four"));
    assert!(all.contains("    •  inner"));
    assert!(all.contains("•  [x] done"));
    assert!(all.contains("•  [ ] open"));
}

#[test]
fn tables_keep_their_cells() {
    let m = show("| a | `b` |\n|---|---|\n| 1 | two words |\n");
    let rows = m
        .blocks()
        .iter()
        .find_map(|b| match b {
            Block::Table { rows } => Some(rows),
            _ => None,
        })
        .expect("a table");
    assert_eq!(rows[0], vec!["a", "b"]);
    assert_eq!(rows[1], vec!["1", "two words"]);
    assert_eq!(measure_columns(rows), vec![(1, 1), (9, 5)]);
    assert_eq!(measure_columns(&vec![]), vec![(1, 1)]);
    assert_eq!(
        measure_columns(&vec![vec!["  x y ".to_string()], vec!["é".to_string(), "".to_string()]]),
        vec![(3, 1), (1, 1)]
    );
}

#[test]
fn a_page_is_read_anew_only_when_it_changed() {
    let mut m = Markdown::new();
    m.set("k", "one", false);
    m.set("k", "two", true);
    assert_eq!(texts(&m).concat().trim(), "one");
    m.set("k", "two", false);
    assert_eq!(texts(&m).concat().trim(), "two");
    m.set("other", "three", true);
    assert_eq!(texts(&m).concat().trim(), "three");
}
