use aether::commands::{
    command_at, Command, FindBarState, PaletteMode, PaletteState, PickItem, PickKind,
    COMMAND_COUNT,
};

#[test]
fn an_empty_query_shows_every_command() {
    let mut p = PaletteState::new();
    p.open();
    assert!(p.active);
    assert_eq!(p.filtered.len(), COMMAND_COUNT);
    assert_eq!(p.selected_command(), Some(command_at(0).0));
    p.refilter("save");
    assert_eq!(p.selected_command(), Some(Command::Save));
    p.refilter("no such command at all");
    assert_eq!(p.selected_command(), None);
    p.close();
    assert!(!p.active);
}

#[test]
fn the_selection_goes_round() {
    let mut p = PaletteState::new();
    p.open();
    let first = p.selected;
    p.select_prev();
    assert_eq!(p.selected, COMMAND_COUNT - 1);
    p.select_next();
    assert_eq!(p.selected, first);
    p.select_next();
    p.select_prev();
    assert_eq!(p.selected, first);
}

#[test]
fn picks_have_their_kind() {
    let mut p = PaletteState::new();
    p.open_quick_pick(
        PickKind::SetColorTheme,
        vec![PickItem::new("Dark", ""), PickItem::new("Light", "day")],
    );
    assert_eq!(p.selected_pick(), Some((PickKind::SetColorTheme, "Dark".to_string())));
    p.refilter("light");
    assert_eq!(p.selected_item().map(|i| i.detail.as_str()), Some("day"));
    p.set_source(PaletteMode::Symbols, vec![PickItem::at_line("main", "fn", 12)]);
    assert_eq!(p.selected_item().and_then(|i| i.line), Some(12));
    assert_eq!(p.selected_pick(), None);
    let f = FindBarState::new();
    assert!(!f.active && f.matches.is_empty() && f.index.is_none());
}
