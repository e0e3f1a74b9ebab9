use aether::ui::editor_view::{EditorView, Selecting};
use aether::ui::find_widget::{Cursor, FindBtn, FindLayout, FindWidget};
use aether::ui::terminal_panel::{
    Hit, Pane, PaneHover, PanelHeight, PressOutcome, TerminalPanel,
};

fn pane(id: u64) -> Pane {
    Pane { id, dirty: false, dragging: false }
}

#[test]
fn presses_select_more_and_more() {
    let mut v = EditorView::new();
    assert_eq!(v.on_press(false), Selecting::Caret);
    assert_eq!(v.on_press(true), Selecting::Word);
    assert_eq!(v.on_press(true), Selecting::Line);
    assert_eq!(v.on_press(true), Selecting::Document);
    assert_eq!(v.on_press(false), Selecting::Caret);
    assert!(v.on_drag());
    v.on_release();
    assert!(!v.on_drag());
    assert_eq!(EditorView::caret_byte(&vec![0, 5], &vec![4, 3], 1, 2), Some(7));
    assert_eq!(EditorView::caret_byte(&vec![0, 5], &vec![4, 3], 2, 0), None);
}

fn layout(hit: FindBtn, open: bool) -> FindLayout<bool> {
    FindLayout {
        panel: true,
        expand: hit == FindBtn::Expand,
        find_input: false,
        find_text: false,
        case: hit == FindBtn::Case,
        word: hit == FindBtn::Word,
        regex: hit == FindBtn::Regex,
        count: false,
        prev: hit == FindBtn::Prev,
        next: hit == FindBtn::Next,
        close: hit == FindBtn::Close,
        replace_input: if open { Some(false) } else { None },
        replace_btn: if open { Some(hit == FindBtn::Replace) } else { None },
        replace_all: if open { Some(hit == FindBtn::ReplaceAll) } else { None },
    }
}

#[test]
fn the_button_under_the_pointer_is_found() {
    for b in [
        FindBtn::Expand,
        FindBtn::Case,
        FindBtn::Word,
        FindBtn::Regex,
        FindBtn::Prev,
        FindBtn::Next,
        FindBtn::Close,
        FindBtn::Replace,
        FindBtn::ReplaceAll,
    ] {
        assert_eq!(FindWidget::button_at(&layout(b, true)), Some(b));
        assert_eq!(FindWidget::cursor(&layout(b, true)), Some(Cursor::Pointer));
    }
    let hidden = layout(FindBtn::Replace, false);
    assert_eq!(FindWidget::button_at(&hidden), None);
    assert_eq!(FindWidget::btn_rect(&hidden, FindBtn::Replace), None);
    assert_eq!(FindWidget::btn_rect(&layout(FindBtn::Case, true), FindBtn::Case), Some(true));
}

#[test]
fn tabs_open_split_and_close() {
    let mut t = TerminalPanel::new("/w");
    assert_eq!(t.panel_height(), PanelHeight::Hidden);
    assert!(t.toggle());
    t.spawn_initial(Some(pane(1)));
    assert_eq!(t.panel_height(), PanelHeight::Split);
    t.new_terminal_tab(Some(pane(2)));
    t.split_terminal(Some(pane(3)));
    assert_eq!(t.active_pane_count(), 2);
    t.toggle_max();
    assert_eq!(t.panel_height(), PanelHeight::Full);
    t.kill_terminal();
    assert_eq!(t.active_pane_count(), 1);
    t.switch_tab(0);
    assert_eq!(t.active, 0);
    t.kill_tab(1);
    assert_eq!(t.groups.len(), 1);
    t.kill_terminal();
    assert!(t.groups.is_empty());
    assert!(!t.visible);
    t.set_cwd("/x");
    assert_eq!(t.cwd, "/x");
}

#[test]
fn presses_go_to_their_tab() {
    let mut t = TerminalPanel::new("/w");
    t.toggle();
    t.new_terminal_tab(Some(pane(1)));
    t.new_terminal_tab(Some(pane(2)));
    assert_eq!(t.content_press(Hit::TabRow(0)), PressOutcome::Taken);
    assert_eq!(t.active, 0);
    assert_eq!(t.content_press(Hit::Outside), PressOutcome::NotTaken);
    assert_eq!(t.content_press(Hit::TabClose(0)), PressOutcome::Taken);
    assert_eq!(t.groups.len(), 1);
    t.mark_dirty();
    assert!(t.groups[0].panes[0].dirty);
    t.groups[0].panes[0].dragging = true;
    t.release_scrolls();
    assert!(!t.groups[0].panes[0].dragging);
}

#[test]
fn scrollbars_are_pressed_dragged_and_let_go() {
    let mut p = TerminalPanel::new("/w");
    p.toggle();
    p.new_terminal_tab(Some(pane(1)));
    p.split_terminal(Some(pane(2)));
    for g in p.groups.iter_mut() {
        for one in g.panes.iter_mut() {
            one.dirty = false;
        }
        g.focused = 0;
    }
    assert!(!p.pane_scroll_press(&vec![false, false], false));
    assert!(!p.pane_scroll_drag(true));
    assert!(p.pane_scroll_press(&vec![false, true], true));
    let g = &p.groups[p.active];
    assert_eq!(g.focused, 1);
    assert!(g.panes[1].dirty && g.panes[1].dragging && !g.panes[0].dirty);
    assert!(p.pane_scroll_drag(false));
    p.release_scrolls();
    assert!(!p.pane_scroll_drag(true));
    // The wheel is for the panel wherever it is over the content.
    assert!(!p.on_scroll(false, Some(0), true));
    assert!(p.on_scroll(true, None, true));
    assert!(!p.groups[p.active].panes[0].dirty);
    assert!(p.on_scroll(true, Some(0), true));
    assert!(p.groups[p.active].panes[0].dirty);
    let idle = PaneHover { changed: false, inside: false, on_thumb: true };
    let over = PaneHover { changed: true, inside: true, on_thumb: true };
    assert_eq!(p.hover_panes(&vec![idle, idle]), (false, false));
    assert_eq!(p.hover_panes(&vec![idle, over]), (true, true));
    p.visible = false;
    assert_eq!(p.hover_panes(&vec![over]), (false, false));
    assert!(!p.pane_scroll_press(&vec![true], true));
}
