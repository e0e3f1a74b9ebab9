//! The terminal panel: tabs, each with panes side by side. Only the active tab is shown; the
//! shells of the others go on.
use vstd::prelude::*;

verus! {

/// A pane with a shell.
#[derive(Clone, Copy, PartialEq, Eq, Debug, Structural)]
pub struct Pane {
    /// The process of the shell; zero until it is known.
    pub id: u64,
    /// Whether what it shows is to be laid out anew.
    pub dirty: bool,
    /// Whether its scrollbar is dragged.
    pub dragging: bool,
}

/// A tab: panes side by side.
pub struct Group {
    pub panes: Vec<Pane>,
    pub focused: usize,
}

/// A tab by its contents.
pub struct GroupView {
    pub panes: Seq<Pane>,
    pub focused: usize,
}

impl View for Group {
    type V = GroupView;

    open spec fn view(&self) -> GroupView {
        GroupView { panes: self.panes@, focused: self.focused }
    }
}

/// The tabs by their contents.
pub open spec fn group_views(v: Seq<Group>) -> Seq<GroupView> {
    Seq::new(v.len(), |i: int| v[i]@)
}

impl Group {
    /// A tab with one pane.
    pub fn new(pane: Pane) -> (r: Group)
        ensures
            r@ == (GroupView { panes: seq![pane], focused: 0 }),
    {
        let mut panes: Vec<Pane> = Vec::new();
        panes.push(pane);
        assert(panes@ =~= seq![pane]);
        Group { panes, focused: 0 }
    }
}

/// The panel.
pub struct TerminalPanel {
    pub groups: Vec<Group>,
    pub active: usize,
    pub visible: bool,
    pub focused: bool,
    pub maximized: bool,
    /// Where new shells start.
    pub cwd: String,
}

/// The panel by its contents.
#[verifier::ext_equal]
pub struct PanelView {
    pub groups: Seq<GroupView>,
    pub active: usize,
    pub visible: bool,
    pub focused: bool,
    pub maximized: bool,
    pub cwd: Seq<char>,
}

impl View for TerminalPanel {
    type V = PanelView;

    open spec fn view(&self) -> PanelView {
        PanelView {
            groups: group_views(self.groups@),
            active: self.active,
            visible: self.visible,
            focused: self.focused,
            maximized: self.maximized,
            cwd: self.cwd@,
        }
    }
}

/// How high the panel asks to be.
#[derive(Clone, Copy, PartialEq, Eq, Debug, Structural)]
pub enum PanelHeight {
    Hidden,
    /// What the splitter says.
    Split,
    /// All there is.
    Full,
}

/// Where a press fell.
#[derive(Clone, Copy, PartialEq, Eq, Debug, Structural)]
pub enum Hit {
    /// On the close mark of a row of the tab list.
    TabClose(usize),
    /// On a row of the tab list.
    TabRow(usize),
    /// On the content, with the pane under it where there is one.
    Content(Option<usize>),
    /// On the header, with the button under it where there is one.
    Header(Option<usize>),
    Outside,
}

/// What a press still asks for.
#[derive(Clone, Copy, PartialEq, Eq, Debug, Structural)]
pub enum PressOutcome {
    /// The press is not for the panel.
    NotTaken,
    Taken,
    /// A shell is to be started for a new tab.
    NewTab,
    /// A shell is to be started beside the panes of the active tab.
    Split,
}

/// What the pointer does to the scrollbar of a pane.
#[derive(Clone, Copy, PartialEq, Eq, Debug, Structural)]
pub struct PaneHover {
    /// Whether the scrollbar looks different from before.
    pub changed: bool,
    /// Whether the pointer is over the pane.
    pub inside: bool,
    /// Whether the pointer is over the thumb.
    pub on_thumb: bool,
}

/// The first of `n` panes, from the `k`-th on, whose scrollbar takes a press, or `n`.
pub open spec fn first_taken(taken: Seq<bool>, n: int, k: int) -> int
    decreases n - k,
{
    if k >= n || k >= taken.len() {
        n
    } else if taken[k] {
        k
    } else {
        first_taken(taken, n, k + 1)
    }
}

/// The first pane from the `k`-th on whose scrollbar is dragged, or the number of panes.
pub open spec fn first_dragged(panes: Seq<Pane>, k: int) -> int
    decreases panes.len() - k,
{
    if k >= panes.len() {
        panes.len() as int
    } else if panes[k].dragging {
        k
    } else {
        first_dragged(panes, k + 1)
    }
}

/// Panes that are all to be laid out anew.
pub open spec fn dirty_panes(panes: Seq<Pane>) -> Seq<Pane> {
    Seq::new(panes.len(), |i: int| Pane { dirty: true, ..panes[i] })
}

/// Tabs whose panes are all to be laid out anew.
pub open spec fn dirtied(groups: Seq<GroupView>) -> Seq<GroupView> {
    Seq::new(
        groups.len(),
        |i: int| GroupView { panes: dirty_panes(groups[i].panes), focused: groups[i].focused },
    )
}

/// Tabs none of whose scrollbars is dragged.
pub open spec fn released(groups: Seq<GroupView>) -> Seq<GroupView> {
    Seq::new(
        groups.len(),
        |i: int|
            GroupView {
                panes: Seq::new(
                    groups[i].panes.len(),
                    |j: int| Pane { dragging: false, ..groups[i].panes[j] },
                ),
                focused: groups[i].focused,
            },
    )
}

/// The smaller of a place and the last place.
pub open spec fn at_most(i: usize, last: int) -> usize {
    if i <= last {
        i
    } else {
        last as usize
    }
}

impl PanelView {
    /// Whether every tab has a focused pane, and the active tab is one of them.
    pub open spec fn wf(&self) -> bool {
        (forall|i: int|
            0 <= i < self.groups.len() ==> (#[trigger] self.groups[i]).focused
                < self.groups[i].panes.len()) && (self.active < self.groups.len()
            || self.groups.len() == 0)
    }

    /// The panel with another tab, which is active.
    pub open spec fn with_tab(self, pane: Pane) -> PanelView {
        let groups = self.groups.push(GroupView { panes: seq![pane], focused: 0 });
        PanelView {
            groups: dirtied(groups),
            active: (groups.len() - 1) as usize,
            focused: true,
            ..self
        }
    }

    /// The panel with another pane in the active tab, which is focused.
    pub open spec fn with_pane(self, pane: Pane) -> PanelView {
        if self.active < self.groups.len() {
            let g = self.groups[self.active as int];
            let new = GroupView {
                panes: g.panes.push(pane),
                focused: g.panes.len() as usize,
            };
            PanelView {
                groups: dirtied(self.groups.update(self.active as int, new)),
                focused: true,
                ..self
            }
        } else {
            PanelView { groups: dirtied(self.groups), ..self }
        }
    }

    /// The panel without a tab; hidden where it was the last.
    pub open spec fn without_tab(self, i: int) -> PanelView {
        let groups = self.groups.remove(i);
        if groups.len() == 0 {
            PanelView {
                groups,
                visible: false,
                focused: false,
                maximized: false,
                ..self
            }
        } else {
            PanelView {
                groups: dirtied(groups),
                active: at_most(self.active, groups.len() - 1),
                ..self
            }
        }
    }

    /// The panel without the focused pane; without its tab where it was the last.
    pub open spec fn without_pane(self) -> PanelView {
        if self.active >= self.groups.len() || self.groups[self.active as int].panes.len() == 0 {
            self
        } else {
            let g = self.groups[self.active as int];
            let i = at_most(g.focused, g.panes.len() - 1);
            let panes = g.panes.remove(i as int);
            if panes.len() == 0 {
                self.without_tab(self.active as int)
            } else {
                PanelView {
                    groups: dirtied(
                        self.groups.update(
                            self.active as int,
                            GroupView { panes, focused: at_most(i, panes.len() - 1) },
                        ),
                    ),
                    ..self
                }
            }
        }
    }

    /// The panel with another tab shown.
    pub open spec fn switched(self, i: usize) -> PanelView {
        if i < self.groups.len() {
            PanelView { active: i, focused: true, groups: dirtied(self.groups), ..self }
        } else {
            self
        }
    }

    /// The panel shown that was hidden, or hidden that was shown.
    pub open spec fn toggled(self) -> PanelView {
        PanelView { visible: !self.visible, focused: !self.visible, ..self }
    }

    /// The panel filling all there is, or no more.
    pub open spec fn max_toggled(self) -> PanelView {
        PanelView { maximized: !self.maximized, groups: dirtied(self.groups), ..self }
    }

    /// The panel with a pane of the active tab focused.
    pub open spec fn pane_focused(self, i: usize) -> PanelView {
        if self.active < self.groups.len() {
            PanelView {
                groups: self.groups.update(
                    self.active as int,
                    GroupView { panes: self.groups[self.active as int].panes, focused: i },
                ),
                ..self
            }
        } else {
            self
        }
    }

    /// One pane of the active tab changed.
    pub open spec fn with_active_pane(self, i: int, pane: Pane, focused: usize) -> PanelView {
        let g = self.groups[self.active as int];
        PanelView {
            groups: self.groups.update(
                self.active as int,
                GroupView { panes: g.panes.update(i, pane), focused },
            ),
            ..self
        }
    }

    /// After a press on scrollbars, and whether one of them took it: the first that does gets
    /// its pane focused.
    pub open spec fn scroll_pressed(self, taken: Seq<bool>, holds: bool) -> (PanelView, bool) {
        if !self.visible || self.active >= self.groups.len() {
            (self, false)
        } else {
            let panes = self.groups[self.active as int].panes;
            let k = first_taken(taken, panes.len() as int, 0);
            if k < panes.len() {
                let pane = Pane { dirty: true, dragging: holds, ..panes[k] };
                (self.with_active_pane(k, pane, k as usize), true)
            } else {
                (self, false)
            }
        }
    }

    /// After a turn of the wheel, and whether it was for the panel.
    pub open spec fn wheeled(self, inside: bool, over: Option<usize>, moved: bool) -> (
        PanelView,
        bool,
    ) {
        if !self.visible || !inside {
            (self, false)
        } else {
            match over {
                Some(i) => if moved && self.active < self.groups.len() && i
                    < self.groups[self.active as int].panes.len() {
                    let g = self.groups[self.active as int];
                    (
                        self.with_active_pane(
                            i as int,
                            Pane { dirty: true, ..g.panes[i as int] },
                            g.focused,
                        ),
                        true,
                    )
                } else {
                    (self, true)
                },
                None => (self, true),
            }
        }
    }

    /// After a motion of the pointer while a scrollbar is held, and whether one is.
    pub open spec fn scroll_dragged(self, moved: bool) -> (PanelView, bool) {
        if self.active >= self.groups.len() {
            (self, false)
        } else {
            let g = self.groups[self.active as int];
            let k = first_dragged(g.panes, 0);
            if k >= g.panes.len() {
                (self, false)
            } else if moved {
                (self.with_active_pane(k, Pane { dirty: true, ..g.panes[k] }, g.focused), true)
            } else {
                (self, true)
            }
        }
    }


    /// The panel after a press, and what the press still asks for.
    pub open spec fn pressed(self, hit: Hit) -> (PanelView, PressOutcome) {
        if !self.visible {
            (self, PressOutcome::NotTaken)
        } else {
            match hit {
                Hit::TabClose(i) => (
                    if i < self.groups.len() {
                        self.without_tab(i as int)
                    } else {
                        self
                    },
                    PressOutcome::Taken,
                ),
                Hit::TabRow(i) => (self.switched(i), PressOutcome::Taken),
                Hit::Content(pane) => (
                    PanelView {
                        focused: true,
                        ..match pane {
                            Some(i) => self.pane_focused(i),
                            None => self,
                        }
                    },
                    PressOutcome::Taken,
                ),
                Hit::Header(button) => match button {
                    Some(0) => (self, PressOutcome::NewTab),
                    Some(1) => (self, PressOutcome::Split),
                    Some(2) => (self.without_pane(), PressOutcome::Taken),
                    Some(4) => (self.max_toggled(), PressOutcome::Taken),
                    Some(5) => (self.toggled(), PressOutcome::Taken),
                    _ => (self, PressOutcome::Taken),
                },
                Hit::Outside => (PanelView { focused: false, ..self }, PressOutcome::NotTaken),
            }
        }
    }
}

fn min_of(i: usize, last: usize) -> (r: usize)
    ensures
        r == at_most(i, last as int),
{
    if i <= last {
        i
    } else {
        last
    }
}

impl TerminalPanel {
    /// A hidden panel without tabs.
    pub fn new(cwd: &str) -> (r: TerminalPanel)
        ensures
            r@ == (PanelView {
                groups: Seq::empty(),
                active: 0,
                visible: false,
                focused: false,
                maximized: false,
                cwd: cwd@,
            }),
            r@.wf(),
    {
        let r = TerminalPanel {
            groups: Vec::new(),
            active: 0,
            visible: false,
            focused: false,
            maximized: false,
            cwd: cwd.to_owned(),
        };
        assert(r@.groups =~= Seq::<GroupView>::empty());
        r
    }

    /// Where new shells start from now on.
    pub fn set_cwd(&mut self, cwd: &str)
        ensures
            final(self)@ == (PanelView { cwd: cwd@, ..old(self)@ }),
    {
        self.cwd = cwd.to_owned();
    }

    /// How high the panel asks to be.
    pub fn panel_height(&self) -> (r: PanelHeight)
        ensures
            r == (if !self@.visible {
                PanelHeight::Hidden
            } else if self@.maximized {
                PanelHeight::Full
            } else {
                PanelHeight::Split
            }),
    {
        if !self.visible {
            PanelHeight::Hidden
        } else if self.maximized {
            PanelHeight::Full
        } else {
            PanelHeight::Split
        }
    }

    /// The number of panes of the active tab.
    pub fn active_pane_count(&self) -> (r: usize)
        ensures
            r == (if self@.active < self@.groups.len() {
                self@.groups[self@.active as int].panes.len()
            } else {
                0
            }),
    {
        if self.active < self.groups.len() {
            assert(self@.groups[self.active as int] == self.groups@[self.active as int]@);
            self.groups[self.active].panes.len()
        } else {
            0
        }
    }

    fn set_group(&mut self, i: usize, g: Group)
        requires
            i < old(self)@.groups.len(),
        ensures
            final(self)@ == (PanelView { groups: old(self)@.groups.update(i as int, g@), ..old(self)@ }),
            final(self).groups@.len() == old(self).groups@.len(),
    {
        let ghost before = self@.groups;
        let ghost gv = g@;
        self.groups.set(i, g);
        assert(self@.groups =~= before.update(i as int, gv));
    }

    /// Has every pane of every tab laid out anew.
    pub fn mark_dirty(&mut self)
        ensures
            final(self)@ == (PanelView { groups: dirtied(old(self)@.groups), ..old(self)@ }),
    {
        let ghost before = self@.groups;
        let n: usize = self.groups.len();
        let mut k: usize = 0;
        while k < n
            invariant
                k <= n,
                n == self.groups@.len(),
                n == before.len(),
                before == old(self)@.groups,
                self@ == (PanelView { groups: self@.groups, ..old(self)@ }),
                forall|i: int| 0 <= i < k ==> #[trigger] self@.groups[i] == dirtied(before)[i],
                forall|i: int| k <= i < n ==> #[trigger] self@.groups[i] == before[i],
            decreases n - k,
        {
            let ghost now = self@.groups;
            assert(now[k as int] == self.groups@[k as int]@);
            let panes = dirty_all(&self.groups[k].panes);
            let focused: usize = self.groups[k].focused;
            self.set_group(k, Group { panes, focused });
            k = k + 1;
        }
        assert(self@.groups =~= dirtied(before));
    }

    /// Opens a tab with a shell that was started; the other tabs go on.
    pub fn new_terminal_tab(&mut self, pane: Option<Pane>)
        ensures
            final(self)@ == match pane {
                Some(p) => old(self)@.with_tab(p),
                None => old(self)@,
            },
            old(self)@.wf() ==> final(self)@.wf(),
    {
        if let Some(p) = pane {
            let ghost before = self@.groups;
            let g = Group::new(p);
            let ghost gv = g@;
            self.groups.push(g);
            assert(self@.groups =~= before.push(gv));
            self.active = self.groups.len() - 1;
            self.focused = true;
            self.mark_dirty();
        }
    }

    /// Puts a shell that was started beside the panes of the active tab.
    pub fn split_terminal(&mut self, pane: Option<Pane>)
        ensures
            final(self)@ == match pane {
                Some(p) => old(self)@.with_pane(p),
                None => old(self)@,
            },
            old(self)@.wf() ==> final(self)@.wf(),
    {
        if let Some(p) = pane {
            if self.active < self.groups.len() {
                let i: usize = self.active;
                assert(self@.groups[i as int] == self.groups@[i as int]@);
                let mut panes = copy_panes(&self.groups[i].panes);
                panes.push(p);
                let focused: usize = panes.len() - 1;
                self.set_group(i, Group { panes, focused });
                self.focused = true;
            }
            self.mark_dirty();
        }
    }

    /// Ends the focused pane: its tab with it where it was the last, and the panel is hidden
    /// with the last tab.
    pub fn kill_terminal(&mut self)
        ensures
            final(self)@ == old(self)@.without_pane(),
            old(self)@.wf() ==> final(self)@.wf(),
    {
        let a: usize = self.active;
        if a >= self.groups.len() {
            return;
        }
        assert(self@.groups[a as int] == self.groups@[a as int]@);
        let n: usize = self.groups[a].panes.len();
        if n == 0 {
            return;
        }
        let i: usize = min_of(self.groups[a].focused, n - 1);
        if n == 1 {
            assert(self@.groups[a as int].panes.remove(i as int).len() == 0);
            self.kill_tab(a);
        } else {
            let mut panes = copy_panes(&self.groups[a].panes);
            panes.remove(i);
            let focused: usize = min_of(i, panes.len() - 1);
            self.set_group(a, Group { panes, focused });
            self.mark_dirty();
        }
    }

    /// Shows another tab.
    pub fn switch_tab(&mut self, i: usize)
        ensures
            final(self)@ == old(self)@.switched(i),
            old(self)@.wf() ==> final(self)@.wf(),
    {
        if i < self.groups.len() {
            self.active = i;
            self.focused = true;
            self.mark_dirty();
        }
    }

    /// Ends a tab with all its panes; the panel is hidden with the last.
    pub fn kill_tab(&mut self, i: usize)
        ensures
            final(self)@ == (if i < old(self)@.groups.len() {
                old(self)@.without_tab(i as int)
            } else {
                old(self)@
            }),
            old(self)@.wf() ==> final(self)@.wf(),
    {
        if i >= self.groups.len() {
            return;
        }
        let ghost before = self@.groups;
        self.groups.remove(i);
        assert(self@.groups =~= before.remove(i as int));
        let n: usize = self.groups.len();
        if n == 0 {
            self.visible = false;
            self.focused = false;
            self.maximized = false;
            assert(self@ =~= old(self)@.without_tab(i as int));
        } else {
            self.active = min_of(self.active, n - 1);
            self.mark_dirty();
        }
    }

    /// Lets the panel fill all there is, or no more.
    pub fn toggle_max(&mut self)
        ensures
            final(self)@ == old(self)@.max_toggled(),
            old(self)@.wf() ==> final(self)@.wf(),
    {
        self.maximized = !self.maximized;
        self.mark_dirty();
    }

    /// Shows the panel or hides it. True where a first tab is to be started.
    pub fn toggle(&mut self) -> (r: bool)
        ensures
            final(self)@ == old(self)@.toggled(),
            r == (!old(self)@.visible && old(self)@.groups.len() == 0),
            old(self)@.wf() ==> final(self)@.wf(),
    {
        self.visible = !self.visible;
        self.focused = self.visible;
        self.visible && self.groups.len() == 0
    }

    /// Opens the first tab with a shell that was started.
    pub fn spawn_initial(&mut self, pane: Option<Pane>)
        ensures
            final(self)@ == match pane {
                Some(p) => PanelView {
                    groups: old(self)@.groups.push(GroupView { panes: seq![p], focused: 0 }),
                    active: 0,
                    ..old(self)@
                },
                None => old(self)@,
            },
            old(self)@.wf() ==> final(self)@.wf(),
    {
        if let Some(p) = pane {
            let ghost before = self@.groups;
            let g = Group::new(p);
            let ghost gv = g@;
            self.groups.push(g);
            assert(self@.groups =~= before.push(gv));
            self.active = 0;
        }
    }

    /// A press, by where it fell.
    pub fn content_press(&mut self, hit: Hit) -> (r: PressOutcome)
        ensures
            (final(self)@, r) == old(self)@.pressed(hit),
    {
        if !self.visible {
            return PressOutcome::NotTaken;
        }
        match hit {
            Hit::TabClose(i) => {
                self.kill_tab(i);
                PressOutcome::Taken
            },
            Hit::TabRow(i) => {
                self.switch_tab(i);
                PressOutcome::Taken
            },
            Hit::Content(pane) => {
                if let Some(i) = pane {
                    if self.active < self.groups.len() {
                        let a: usize = self.active;
                        assert(self@.groups[a as int] == self.groups@[a as int]@);
                        let panes = copy_panes(&self.groups[a].panes);
                        self.set_group(a, Group { panes, focused: i });
                    }
                }
                self.focused = true;
                PressOutcome::Taken
            },
            Hit::Header(button) => match button {
                Some(b) => {
                    if b == 0 {
                        PressOutcome::NewTab
                    } else if b == 1 {
                        PressOutcome::Split
                    } else {
                        if b == 2 {
                            self.kill_terminal();
                        } else if b == 4 {
                            self.toggle_max();
                        } else if b == 5 {
                            self.toggle();
                        }
                        PressOutcome::Taken
                    }
                },
                None => PressOutcome::Taken,
            },
            Hit::Outside => {
                self.focused = false;
                PressOutcome::NotTaken
            },
        }
    }

    /// Changes one pane of the active tab.
    fn put_pane(&mut self, i: usize, pane: Pane, focused: usize)
        requires
            old(self).active < old(self).groups@.len(),
            i < old(self)@.groups[old(self).active as int].panes.len(),
        ensures
            final(self)@ == old(self)@.with_active_pane(i as int, pane, focused),
    {
        let a: usize = self.active;
        assert(self@.groups[a as int] == self.groups@[a as int]@);
        let mut panes = copy_panes(&self.groups[a].panes);
        panes.set(i, pane);
        self.set_group(a, Group { panes, focused });
    }

    /// A press on the scrollbars: `taken` tells for each pane of the active tab whether its
    /// scrollbar takes it, and `holds` whether the thumb is held now.
    pub fn pane_scroll_press(&mut self, taken: &Vec<bool>, holds: bool) -> (r: bool)
        ensures
            (final(self)@, r) == old(self)@.scroll_pressed(taken@, holds),
    {
        if !self.visible || self.active >= self.groups.len() {
            return false;
        }
        let a: usize = self.active;
        assert(self@.groups[a as int] == self.groups@[a as int]@);
        let n: usize = self.groups[a].panes.len();
        let mut k: usize = 0;
        while k < n && k < taken.len()
            invariant
                *self == *old(self),
                a == self.active,
                a < self.groups@.len(),
                self.visible,
                n == self@.groups[a as int].panes.len(),
                self@.groups[a as int] == self.groups@[a as int]@,
                k <= n,
                first_taken(taken@, n as int, k as int) == first_taken(taken@, n as int, 0),
            decreases n - k,
        {
            if taken[k] {
                let p = self.groups[a].panes[k];
                self.put_pane(k, Pane { id: p.id, dirty: true, dragging: holds }, k);
                return true;
            }
            k = k + 1;
        }
        false
    }

    /// A turn of the wheel: whether it is over the content, over which pane, and whether the
    /// pane scrolls by it.
    pub fn on_scroll(&mut self, inside: bool, over: Option<usize>, moved: bool) -> (r: bool)
        ensures
            (final(self)@, r) == old(self)@.wheeled(inside, over, moved),
    {
        if !self.visible || !inside {
            return false;
        }
        if let Some(i) = over {
            if moved && self.active < self.groups.len() {
                let a: usize = self.active;
                assert(self@.groups[a as int] == self.groups@[a as int]@);
                if i < self.groups[a].panes.len() {
                    let p = self.groups[a].panes[i];
                    let focused: usize = self.groups[a].focused;
                    self.put_pane(i, Pane { id: p.id, dirty: true, dragging: p.dragging }, focused);
                }
            }
        }
        true
    }

    /// A motion of the pointer: whether a scrollbar of the active tab is held. Its pane is laid
    /// out anew where it scrolls by it.
    pub fn pane_scroll_drag(&mut self, moved: bool) -> (r: bool)
        ensures
            (final(self)@, r) == old(self)@.scroll_dragged(moved),
    {
        if self.active >= self.groups.len() {
            return false;
        }
        let a: usize = self.active;
        assert(self@.groups[a as int] == self.groups@[a as int]@);
        let n: usize = self.groups[a].panes.len();
        let ghost pv = self@.groups[a as int].panes;
        let mut k: usize = 0;
        while k < n
            invariant
                *self == *old(self),
                a == self.active,
                a < self.groups@.len(),
                pv == self@.groups[a as int].panes,
                self@.groups[a as int] == self.groups@[a as int]@,
                n == pv.len(),
                k <= n,
                first_dragged(pv, k as int) == first_dragged(pv, 0),
            decreases n - k,
        {
            let p = self.groups[a].panes[k];
            assert(p == pv[k as int]);
            if p.dragging {
                if moved {
                    let focused: usize = self.groups[a].focused;
                    self.put_pane(k, Pane { id: p.id, dirty: true, dragging: p.dragging }, focused);
                }
                return true;
            }
            k = k + 1;
        }
        false
    }

    /// Whether a scrollbar looks different under the pointer, and whether the pointer is over a
    /// thumb, by what it does to each pane of the active tab.
    pub fn hover_panes(&self, hovers: &Vec<PaneHover>) -> (r: (bool, bool))
        ensures
            r.0 == (self.visible && self.active < self.groups@.len() && exists|i: int|
                0 <= i < hovers@.len() && i < self@.groups[self.active as int].panes.len()
                    && (#[trigger] hovers@[i]).changed),
            r.1 == (self.visible && self.active < self.groups@.len() && exists|i: int|
                0 <= i < hovers@.len() && i < self@.groups[self.active as int].panes.len()
                    && (#[trigger] hovers@[i]).inside && hovers@[i].on_thumb),
    {
        if !self.visible || self.active >= self.groups.len() {
            return (false, false);
        }
        assert(self@.groups[self.active as int] == self.groups@[self.active as int]@);
        let n: usize = self.groups[self.active].panes.len();
        let mut changed = false;
        let mut over = false;
        let mut k: usize = 0;
        while k < n && k < hovers.len()
            invariant
                k <= n,
                k <= hovers@.len(),
                changed == (exists|i: int| 0 <= i < k && (#[trigger] hovers@[i]).changed),
                over == (exists|i: int|
                    0 <= i < k && (#[trigger] hovers@[i]).inside && hovers@[i].on_thumb),
            decreases n - k,
        {
            let h = hovers[k];
            assert(h == hovers@[k as int]);
            if h.changed {
                changed = true;
            }
            if h.inside && h.on_thumb {
                over = true;
            }
            k = k + 1;
        }
        (changed, over)
    }

    /// Lets go of every scrollbar.
    pub fn release_scrolls(&mut self)
        ensures
            final(self)@ == (PanelView { groups: released(old(self)@.groups), ..old(self)@ }),
    {
        let ghost before = self@.groups;
        let n: usize = self.groups.len();
        let mut k: usize = 0;
        while k < n
            invariant
                k <= n,
                n == self.groups@.len(),
                n == before.len(),
                before == old(self)@.groups,
                self@ == (PanelView { groups: self@.groups, ..old(self)@ }),
                forall|i: int| 0 <= i < k ==> #[trigger] self@.groups[i] == released(before)[i],
                forall|i: int| k <= i < n ==> #[trigger] self@.groups[i] == before[i],
            decreases n - k,
        {
            let ghost now = self@.groups;
            assert(now[k as int] == self.groups@[k as int]@);
            let panes = release_all(&self.groups[k].panes);
            let focused: usize = self.groups[k].focused;
            self.set_group(k, Group { panes, focused });
            k = k + 1;
        }
        assert(self@.groups =~= released(before));
    }
}

fn copy_panes(v: &Vec<Pane>) -> (r: Vec<Pane>)
    ensures
        r@ == v@,
{
    let mut out: Vec<Pane> = Vec::new();
    let mut k: usize = 0;
    while k < v.len()
        invariant
            k <= v@.len(),
            out@ == v@.take(k as int),
        decreases v.len() - k,
    {
        out.push(v[k]);
        assert(v@.take(k + 1) =~= v@.take(k as int).push(v@[k as int]));
        k = k + 1;
    }
    assert(v@.take(k as int) =~= v@);
    out
}

fn dirty_all(v: &Vec<Pane>) -> (r: Vec<Pane>)
    ensures
        r@ == dirty_panes(v@),
{
    let mut out: Vec<Pane> = Vec::new();
    let mut k: usize = 0;
    while k < v.len()
        invariant
            k <= v@.len(),
            out@ == dirty_panes(v@).take(k as int),
        decreases v.len() - k,
    {
        let p = v[k];
        out.push(Pane { id: p.id, dirty: true, dragging: p.dragging });
        assert(dirty_panes(v@).take(k + 1) =~= dirty_panes(v@).take(k as int).push(
            dirty_panes(v@)[k as int],
        ));
        k = k + 1;
    }
    assert(dirty_panes(v@).take(k as int) =~= dirty_panes(v@));
    out
}

fn release_all(v: &Vec<Pane>) -> (r: Vec<Pane>)
    ensures
        r@ == Seq::new(v@.len(), |j: int| Pane { dragging: false, ..v@[j] }),
{
    let ghost want = Seq::new(v@.len(), |j: int| Pane { dragging: false, ..v@[j] });
    let mut out: Vec<Pane> = Vec::new();
    let mut k: usize = 0;
    while k < v.len()
        invariant
            k <= v@.len(),
            want == Seq::new(v@.len(), |j: int| Pane { dragging: false, ..v@[j] }),
            out@ == want.take(k as int),
        decreases v.len() - k,
    {
        let p = v[k];
        out.push(Pane { id: p.id, dirty: p.dirty, dragging: false });
        assert(want.take(k + 1) =~= want.take(k as int).push(want[k as int]));
        k = k + 1;
    }
    assert(want.take(k as int) =~= want);
    out
}

/// No operation leaves a tab without a pane or the panel without an active tab, while there
/// are tabs.
pub proof fn law_panel_stays_whole(p: PanelView, hit: Hit, pane: Pane, i: usize)
    requires
        p.wf(),
        p.groups.len() < usize::MAX,
        hit matches Hit::Content(Some(c)) ==> p.active < p.groups.len() ==> c
            < p.groups[p.active as int].panes.len(),
    ensures
        p.with_tab(pane).wf(),
        p.without_pane().wf(),
        p.switched(i).wf(),
        i < p.groups.len() ==> p.without_tab(i as int).wf(),
        p.toggled().wf(),
        p.max_toggled().wf(),
        p.pressed(hit).0.wf(),
        forall|taken: Seq<bool>, holds: bool| (#[trigger] p.scroll_pressed(taken, holds)).0.wf(),
        forall|inside: bool, over: Option<usize>, moved: bool|
            (#[trigger] p.wheeled(inside, over, moved)).0.wf(),
        forall|moved: bool| (#[trigger] p.scroll_dragged(moved)).0.wf(),
{
    if p.active < p.groups.len() {
        let panes = p.groups[p.active as int].panes;
        assert forall|taken: Seq<bool>, holds: bool| (#[trigger] p.scroll_pressed(taken, holds)).0.wf() by {
            lemma_first_taken(taken, panes.len() as int, 0);
        }
        assert forall|moved: bool| (#[trigger] p.scroll_dragged(moved)).0.wf() by {
            lemma_first_dragged(panes, 0);
        }
    }
}

proof fn lemma_first_taken(taken: Seq<bool>, n: int, k: int)
    requires
        0 <= k <= n,
    ensures
        k <= first_taken(taken, n, k) <= n,
    decreases n - k,
{
    if k < n && k < taken.len() && !taken[k] {
        lemma_first_taken(taken, n, k + 1);
    }
}

proof fn lemma_first_dragged(panes: Seq<Pane>, k: int)
    requires
        0 <= k <= panes.len(),
    ensures
        k <= first_dragged(panes, k) <= panes.len(),
    decreases panes.len() - k,
{
    if k < panes.len() && !panes[k].dragging {
        lemma_first_dragged(panes, k + 1);
    }
}

/// The last pane takes its tab along, and the last tab hides the panel.
pub proof fn law_last_pane_hides_the_panel(p: PanelView)
    requires
        p.wf(),
        p.groups.len() == 1,
        p.groups[0].panes.len() == 1,
    ensures
        p.without_pane().groups.len() == 0,
        !p.without_pane().visible,
        !p.without_pane().focused,
        !p.without_pane().maximized,
{
}

/// Whether two panes are the same shell, dragged alike; only what is to be drawn may differ.
pub open spec fn same_shell(a: Pane, b: Pane) -> bool {
    a.id == b.id && a.dragging == b.dragging
}

/// Whether a tab has these shells and this focus.
pub open spec fn has_shells(g: GroupView, panes: Seq<Pane>, focused: usize) -> bool {
    &&& g.focused == focused
    &&& g.panes.len() == panes.len()
    &&& forall|i: int| 0 <= i < panes.len() ==> same_shell(#[trigger] g.panes[i], panes[i])
}

/// A new tab goes behind the others and to the front of the screen, with its shell alone; the
/// others keep their shells and their focus.
pub proof fn law_new_tabs_go_last(p: PanelView, pane: Pane, i: int)
    requires
        p.groups.len() < usize::MAX,
        0 <= i < p.groups.len(),
    ensures
        p.with_tab(pane).groups.len() == p.groups.len() + 1,
        p.with_tab(pane).active == p.groups.len(),
        p.with_tab(pane).focused,
        p.with_tab(pane).visible == p.visible,
        has_shells(p.with_tab(pane).groups[p.groups.len() as int], seq![pane], 0),
        has_shells(p.with_tab(pane).groups[i], p.groups[i].panes, p.groups[i].focused),
{
}

/// A split puts a shell behind those of the active tab and gives it the focus; other tabs keep
/// theirs.
pub proof fn law_splits_go_last(p: PanelView, pane: Pane, i: int)
    requires
        p.active < p.groups.len(),
        p.groups[p.active as int].panes.len() < usize::MAX,
        0 <= i < p.groups.len(),
    ensures
        p.with_pane(pane).groups.len() == p.groups.len(),
        p.with_pane(pane).active == p.active,
        p.with_pane(pane).focused,
        has_shells(
            p.with_pane(pane).groups[p.active as int],
            p.groups[p.active as int].panes.push(pane),
            p.groups[p.active as int].panes.len() as usize,
        ),
        i != p.active ==> has_shells(
            p.with_pane(pane).groups[i],
            p.groups[i].panes,
            p.groups[i].focused,
        ),
{
}

/// Closing a tab takes that tab alone; the others keep their shells and their order, and with the
/// last one the panel goes.
pub proof fn law_closing_takes_one_tab(p: PanelView, i: int, j: int)
    requires
        0 <= i < p.groups.len() <= usize::MAX,
        0 <= j < p.groups.len(),
        i != j,
    ensures
        p.without_tab(i).groups.len() == p.groups.len() - 1,
        has_shells(
            p.without_tab(i).groups[if j < i {
                j
            } else {
                j - 1
            }],
            p.groups[j].panes,
            p.groups[j].focused,
        ),
        p.without_tab(i).active < p.without_tab(i).groups.len(),
        p.active < p.groups.len() - 1 ==> p.without_tab(i).active == p.active,
        p.active >= p.groups.len() - 1 ==> p.without_tab(i).active == p.groups.len() - 2,
        p.without_tab(i).visible == p.visible,
{
}

/// Ending the focused shell takes that shell alone out of its tab, and the tab with its last one.
pub proof fn law_ending_takes_the_focused_shell(p: PanelView, k: int)
    requires
        p.active < p.groups.len() <= usize::MAX,
        p.groups[p.active as int].panes.len() <= usize::MAX,
        p.groups[p.active as int].focused < p.groups[p.active as int].panes.len(),
        0 <= k < p.groups[p.active as int].panes.len(),
        k != p.groups[p.active as int].focused,
    ensures
        p.without_pane().groups.len() == p.groups.len(),
        ({
            let g = p.groups[p.active as int];
            let new = p.without_pane().groups[p.active as int];
            &&& new.panes.len() == g.panes.len() - 1
            &&& same_shell(
                new.panes[if k < g.focused {
                    k
                } else {
                    k - 1
                }],
                g.panes[k],
            )
            &&& new.focused < new.panes.len()
            &&& g.focused + 1 < g.panes.len() ==> new.focused == g.focused
        }),
{
}

/// Switching goes to the tab that was asked for, and nowhere where there is none.
pub proof fn law_switching_goes_to_the_tab(p: PanelView, i: usize)
    ensures
        i < p.groups.len() ==> p.switched(i).active == i && p.switched(i).focused,
        i >= p.groups.len() ==> p.switched(i) == p,
        p.switched(i).groups.len() == p.groups.len(),
{
}

/// Hiding the panel takes its focus, showing it gives it, and its tabs stay; the largest size comes
/// and goes likewise.
pub proof fn law_panel_comes_and_goes(p: PanelView)
    ensures
        p.toggled().visible == !p.visible,
        p.toggled().focused == p.toggled().visible,
        p.toggled().groups == p.groups,
        p.toggled().active == p.active,
        p.max_toggled().maximized == !p.maximized,
        p.max_toggled().visible == p.visible,
        p.max_toggled().groups.len() == p.groups.len(),
{
}

proof fn lemma_takes_first(taken: Seq<bool>, n: int, k: int)
    requires
        0 <= k <= n <= taken.len(),
    ensures
        k <= first_taken(taken, n, k) <= n,
        first_taken(taken, n, k) < n ==> taken[first_taken(taken, n, k)],
        forall|j: int| k <= j < first_taken(taken, n, k) ==> !#[trigger] taken[j],
    decreases n - k,
{
    if k < n && !taken[k] {
        lemma_takes_first(taken, n, k + 1);
    }
}

/// A press on a scrollbar is taken by the first pane under it, which gets the focus and is dragged
/// where the thumb is held; a hidden panel takes none.
pub proof fn law_scrollbars_take_the_press(p: PanelView, taken: Seq<bool>, holds: bool, i: int)
    requires
        p.active < p.groups.len(),
        taken.len() == p.groups[p.active as int].panes.len(),
        taken.len() <= usize::MAX,
        0 <= i < taken.len(),
        taken[i],
        forall|j: int| 0 <= j < i ==> !#[trigger] taken[j],
    ensures
        !p.visible ==> p.scroll_pressed(taken, holds) == (p, false),
        p.visible ==> p.scroll_pressed(taken, holds).1,
        p.visible ==> ({
            let g = p.scroll_pressed(taken, holds).0.groups[p.active as int];
            &&& g.focused == i
            &&& g.panes[i].dragging == holds
            &&& g.panes[i].dirty
            &&& g.panes[i].id == p.groups[p.active as int].panes[i].id
        }),
{
    lemma_takes_first(taken, taken.len() as int, 0);
}

/// A press goes where it points: a tab's mark closes that tab, its row goes to it, the content gets
/// the focus, and the buttons open, split, end, enlarge and hide. Outside, the panel loses the
/// focus.
pub proof fn law_presses_go_where_they_point(p: PanelView, i: usize)
    ensures
        !p.visible ==> p.pressed(Hit::TabRow(i)) == (p, PressOutcome::NotTaken),
        p.visible ==> p.pressed(Hit::TabRow(i)) == (p.switched(i), PressOutcome::Taken),
        p.visible && i < p.groups.len() ==> p.pressed(Hit::TabClose(i)) == (
            p.without_tab(i as int),
            PressOutcome::Taken,
        ),
        p.visible ==> p.pressed(Hit::Content(None)).0.focused,
        p.visible && p.active < p.groups.len() ==> p.pressed(Hit::Content(Some(i))).0.groups[p.active as int].focused
            == i,
        p.visible ==> p.pressed(Hit::Header(Some(0))) == (p, PressOutcome::NewTab),
        p.visible ==> p.pressed(Hit::Header(Some(1))) == (p, PressOutcome::Split),
        p.visible ==> p.pressed(Hit::Header(Some(2))) == (p.without_pane(), PressOutcome::Taken),
        p.visible ==> p.pressed(Hit::Header(Some(4))) == (p.max_toggled(), PressOutcome::Taken),
        p.visible ==> p.pressed(Hit::Header(Some(5))) == (p.toggled(), PressOutcome::Taken),
        p.visible ==> !p.pressed(Hit::Outside).0.focused && p.pressed(Hit::Outside).1
            == PressOutcome::NotTaken,
{
}

} // verus!
