use aether::graph::{build, Half, LogEntry, RefKind, Seg};
use aether::gutter_diff::{compute, hunk_at, hunks, Change};

fn lines(t: &str) -> Vec<String> {
    t.split(' ').filter(|s| !s.is_empty()).map(|s| s.to_string()).collect()
}

#[test]
fn changes_are_marked_by_their_kind() {
    let base = lines("a b c d");
    assert_eq!(compute(&base, &lines("a x b c d")), vec![(1, Change::Added)]);
    assert_eq!(compute(&base, &lines("a y c d")), vec![(1, Change::Modified)]);
    let gone = hunks(&base, &lines("a d"));
    assert_eq!(gone.len(), 1);
    assert_eq!(gone[0].kind(), Change::Deleted);
    assert_eq!(gone[0].base, lines("b c"));
    assert!(hunks(&base, &base).is_empty());
    assert!(compute(&[], &[]).is_empty());
}

#[test]
fn undoing_every_hunk_gives_the_base_back() {
    let cases = [
        ("a b c d e", "a x c y z e"),
        ("a b c", ""),
        ("", "a b"),
        ("a b a b a", "b a b"),
        ("k l m n", "n m l k"),
    ];
    for (b, c) in cases {
        let base = lines(b);
        let cur = lines(c);
        let found = hunks(&base, &cur);
        let mut back = cur.clone();
        for h in found.iter().rev() {
            back.splice(h.cur_lo..h.cur_hi, h.base.iter().cloned());
        }
        assert_eq!(back, base);
        for pair in found.windows(2) {
            assert!(pair[0].cur_hi < pair[1].cur_lo || pair[0].cur_hi <= pair[1].cur_lo);
        }
    }
}

#[test]
fn no_more_lines_change_than_must() {
    // A longest common subsequence has four lines: three go and two come.
    let base = lines("a b c a b b a");
    let cur = lines("c b a b a c");
    let found = hunks(&base, &cur);
    let gone: usize = found.iter().map(|h| h.base.len()).sum();
    let come: usize = found.iter().map(|h| h.cur_hi - h.cur_lo).sum();
    assert_eq!((gone, come), (3, 2));
    // With lines before and behind that both texts have, those are kept too.
    let long = hunks(&lines("p q a b c a b b a z"), &lines("p q c b a b a c z"));
    let gone: usize = long.iter().map(|h| h.base.len()).sum();
    let come: usize = long.iter().map(|h| h.cur_hi - h.cur_lo).sum();
    assert_eq!((gone, come), (3, 2));
}

#[test]
fn a_line_finds_its_hunk() {
    let base = lines("a b c d");
    let cur = lines("a x y d");
    let h = hunk_at(&base, &cur, 2).expect("changed");
    assert_eq!((h.cur_lo, h.cur_hi), (1, 3));
    assert!(h.contains(1) && h.contains(2) && !h.contains(3));
    assert!(hunk_at(&base, &cur, 0).is_none());
}

fn commit(hash: &str, parents: &[&str], refs: &[&str], at: i64) -> LogEntry {
    LogEntry {
        hash: hash.to_string(),
        parents: parents.iter().map(|s| s.to_string()).collect(),
        refs: refs.iter().map(|s| s.to_string()).collect(),
        author: "me".to_string(),
        timestamp: at,
        subject: format!("subject {hash}"),
        body: String::new(),
    }
}

#[test]
fn a_straight_history_has_one_lane() {
    let g = build(
        "t".to_string(),
        vec![commit("bbbbbbbbb", &["a"], &["HEAD -> main", "origin/main", "tag: v1", "dev"], 0), commit("a", &[], &[], 0)],
        59,
    );
    assert_eq!(g.title, "t");
    assert_eq!(g.max_col, 0);
    assert_eq!(g.rows[0].short, "bbbbbbb");
    assert_eq!(g.rows[0].segs, vec![Seg::V { col: 0, half: Half::Bottom, color: 0 }]);
    assert_eq!(g.rows[1].segs, vec![Seg::V { col: 0, half: Half::Top, color: 0 }]);
    let refs: Vec<(&str, RefKind)> =
        g.rows[0].refs.iter().map(|r| (r.label.as_str(), r.kind)).collect();
    assert_eq!(
        refs,
        vec![
            ("main", RefKind::Head),
            ("origin/main", RefKind::Remote),
            ("v1", RefKind::Tag),
            ("dev", RefKind::Branch)
        ]
    );
    assert_eq!(g.rows[0].when, "59 seconds ago");
    assert_eq!(g.rows[0].message, "subject bbbbbbbbb");
}

#[test]
fn a_merge_opens_a_lane_and_closes_it() {
    let g = build(
        String::new(),
        vec![commit("m", &["a", "b"], &[], 0), commit("a", &["r"], &[], 0), commit("b", &["r"], &[], 0), commit("r", &[], &[], 0)],
        0,
    );
    assert_eq!(g.max_col, 1);
    let cols: Vec<u16> = g.rows.iter().map(|r| r.node_col).collect();
    assert_eq!(cols, vec![0, 0, 1, 0]);
    assert_eq!(
        g.rows[0].segs,
        vec![
            Seg::V { col: 0, half: Half::Bottom, color: 0 },
            Seg::Bend { col: 1, top: false, color: 1 }
        ]
    );
    for r in &g.rows {
        assert!(r.node_col <= g.max_col);
    }
}

#[test]
fn times_are_told_in_the_largest_unit() {
    let at = |d: i64| {
        let g = build(String::new(), vec![commit("a", &[], &[], 0)], d);
        g.rows[0].when.clone()
    };
    assert_eq!(at(1), "1 second ago");
    assert_eq!(at(60), "1 minute ago");
    assert_eq!(at(7200), "2 hours ago");
    assert_eq!(at(86_400), "1 day ago");
    assert_eq!(at(2_592_000), "1 month ago");
    assert_eq!(at(63_072_000), "2 years ago");
    assert_eq!(at(-5), "0 seconds ago");
}

/// The columns and colours in which segments reach an edge of their row.
fn edge(segs: &[Seg], upper: bool) -> Vec<(u16, u8)> {
    let mut found: Vec<(u16, u8)> = segs
        .iter()
        .filter_map(|s| match s {
            Seg::V { col, half: Half::Full, color } => Some((*col, *color)),
            Seg::V { col, half, color } => {
                if (*half == Half::Top) == upper {
                    Some((*col, *color))
                } else {
                    None
                }
            }
            Seg::H { .. } => None,
            Seg::Bend { col, top, color } => {
                if *top == upper {
                    Some((*col, *color))
                } else {
                    None
                }
            }
        })
        .collect();
    found.sort();
    found.dedup();
    found
}

#[test]
fn lines_go_on_in_the_next_row_in_their_lane_and_colour() {
    let g = build(
        String::new(),
        vec![
            commit("m", &["a", "b"], &[], 0),
            commit("x", &["a"], &[], 0),
            commit("b", &["c", "d"], &[], 0),
            commit("d", &["r"], &[], 0),
            commit("a", &["r"], &[], 0),
            commit("c", &["r", "z"], &[], 0),
            commit("r", &[], &[], 0),
            commit("z", &[], &[], 0),
        ],
        0,
    );
    assert_eq!(edge(&g.rows[0].segs, true), vec![]);
    assert_eq!(edge(&g.rows[0].segs, false), vec![(0, 0), (1, 1)]);
    for pair in g.rows.windows(2) {
        assert_eq!(edge(&pair[0].segs, false), edge(&pair[1].segs, true));
    }
    assert_eq!(edge(&g.rows[7].segs, false), vec![]);
}
