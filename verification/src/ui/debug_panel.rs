//! The panel of the debugger: the call stack and a tree of variables that load as they open.
use vstd::prelude::*;

use crate::dap::Scope;
use crate::dap::StackFrame;
use crate::dap::Variable;
use crate::debug_config::LaunchConfig;
use crate::paths::base_name;
use crate::paths::file_name;
use crate::text::chars_of;
use crate::text::opt_view;
use crate::text::signed_decimal;
use crate::text::text_of;
use crate::text::write_signed;
use crate::ui::Intent;

verus! {

/// How the session of the debugger stands.
#[derive(Clone, Copy, PartialEq, Eq, Debug, Structural)]
pub enum Session {
    Idle,
    Running,
    Stopped,
}

/// A variable of the tree. One with a reference can be opened.
pub struct VarNode {
    pub name: String,
    pub value: String,
    pub var_ref: i64,
    pub expanded: bool,
    pub loaded: bool,
    pub children: Vec<VarNode>,
}

/// A variable of the tree, by its contents.
pub struct VarTree {
    pub name: Seq<char>,
    pub value: Seq<char>,
    pub var_ref: i64,
    pub expanded: bool,
    pub loaded: bool,
    pub children: Seq<VarTree>,
}

/// A variable without contents.
pub open spec fn no_var() -> VarTree {
    VarTree {
        name: Seq::empty(),
        value: Seq::empty(),
        var_ref: 0,
        expanded: false,
        loaded: false,
        children: Seq::empty(),
    }
}

/// The contents of a variable.
pub open spec fn var_tree(v: VarNode) -> VarTree
    decreases v,
{
    VarTree {
        name: v.name@,
        value: v.value@,
        var_ref: v.var_ref,
        expanded: v.expanded,
        loaded: v.loaded,
        children: Seq::new(
            v.children@.len(),
            |i: int|
                if 0 <= i < v.children@.len() {
                    var_tree(v.children@[i])
                } else {
                    no_var()
                },
        ),
    }
}

/// The contents of variables.
pub open spec fn var_trees(v: Seq<VarNode>) -> Seq<VarTree> {
    Seq::new(v.len(), |i: int| var_tree(v[i]))
}

proof fn lemma_var_tree(v: VarNode)
    ensures
        var_tree(v).children == var_trees(v.children@),
{
    assert(var_tree(v).children =~= var_trees(v.children@));
}

/// A scope of the frame at which the program stopped.
pub struct ScopeNode {
    pub name: String,
    pub var_ref: i64,
    pub expanded: bool,
    pub loaded: bool,
    pub vars: Vec<VarNode>,
}

/// A scope by its contents.
pub struct ScopeTree {
    pub name: Seq<char>,
    pub var_ref: i64,
    pub expanded: bool,
    pub loaded: bool,
    pub vars: Seq<VarTree>,
}

impl View for ScopeNode {
    type V = ScopeTree;

    open spec fn view(&self) -> ScopeTree {
        ScopeTree {
            name: self.name@,
            var_ref: self.var_ref,
            expanded: self.expanded,
            loaded: self.loaded,
            vars: var_trees(self.vars@),
        }
    }
}

/// The contents of scopes.
pub open spec fn scope_trees(v: Seq<ScopeNode>) -> Seq<ScopeTree> {
    Seq::new(v.len(), |i: int| v[i]@)
}

/// Variables as they come from the debugger: closed, with nothing loaded below them.
pub open spec fn new_vars(v: Seq<Variable>) -> Seq<VarTree> {
    Seq::new(
        v.len(),
        |i: int|
            VarTree {
                name: v[i].name@,
                value: v[i].value@,
                var_ref: v[i].var_ref,
                expanded: false,
                loaded: false,
                children: Seq::empty(),
            },
    )
}

fn make_vars(v: &Vec<Variable>) -> (r: Vec<VarNode>)
    ensures
        var_trees(r@) == new_vars(v@),
{
    let ghost want = new_vars(v@);
    let mut out: Vec<VarNode> = Vec::new();
    assert(var_trees(out@) =~= want.take(0));
    let mut k: usize = 0;
    while k < v.len()
        invariant
            k <= v@.len(),
            want == new_vars(v@),
            var_trees(out@) == want.take(k as int),
        decreases v.len() - k,
    {
        let n = VarNode {
            name: v[k].name.as_str().to_owned(),
            value: v[k].value.as_str().to_owned(),
            var_ref: v[k].var_ref,
            expanded: false,
            loaded: false,
            children: Vec::new(),
        };
        proof {
            lemma_var_tree(n);
            assert(var_tree(n).children =~= Seq::<VarTree>::empty());
        }
        let ghost so_far = var_trees(out@);
        let ghost nv = var_tree(n);
        out.push(n);
        assert(var_trees(out@) =~= so_far.push(nv));
        assert(want.take(k + 1) =~= want.take(k as int).push(want[k as int]));
        k = k + 1;
    }
    assert(want.take(k as int) =~= want);
    out
}

/// What is done to the variable that a reference names.
pub enum Change {
    /// It gets these variables below it.
    Fill(Seq<VarTree>),
    /// It is opened, or closed.
    Toggle,
}

/// A variable after a change to it.
pub open spec fn changed_var(v: VarTree, c: Change) -> VarTree {
    match c {
        Change::Fill(kids) => VarTree { children: kids, loaded: true, ..v },
        Change::Toggle => VarTree { expanded: !v.expanded, ..v },
    }
}

/// The variables with the first of a reference changed, from the `k`-th on: each is looked
/// at before those below it. None where no variable has it.
pub open spec fn changed(vars: Seq<VarTree>, var_ref: i64, c: Change, k: int) -> Option<Seq<VarTree>>
    decreases vars, vars.len() - k,
{
    if k < 0 || k >= vars.len() {
        None
    } else if vars[k].var_ref == var_ref {
        Some(vars.update(k, changed_var(vars[k], c)))
    } else {
        match changed(vars[k].children, var_ref, c, 0) {
            Some(children) => Some(vars.update(k, VarTree { children, ..vars[k] })),
            None => changed(vars, var_ref, c, k + 1),
        }
    }
}

/// The first variable of a reference, from the `k`-th on, in the same order.
pub open spec fn found(vars: Seq<VarTree>, var_ref: i64, k: int) -> Option<VarTree>
    decreases vars, vars.len() - k,
{
    if k < 0 || k >= vars.len() {
        None
    } else if vars[k].var_ref == var_ref {
        Some(vars[k])
    } else {
        match found(vars[k].children, var_ref, 0) {
            Some(v) => Some(v),
            None => found(vars, var_ref, k + 1),
        }
    }
}

/// What is to be fetched for a variable that is toggled: its children, where it opens and
/// they were not loaded.
pub open spec fn load_of(v: VarTree) -> Option<i64> {
    if !v.expanded && !v.loaded {
        Some(v.var_ref)
    } else {
        None
    }
}

fn fill_var(list: Vec<VarNode>, var_ref: i64, vars: &Vec<Variable>) -> (r: (Vec<VarNode>, bool))
    ensures
        r.1 == (changed(var_trees(list@), var_ref, Change::Fill(new_vars(vars@)), 0) is Some),
        var_trees(r.0@) == match changed(var_trees(list@), var_ref, Change::Fill(new_vars(vars@)), 0) {
            Some(v) => v,
            None => var_trees(list@),
        },
    decreases list,
{
    let ghost all = var_trees(list@);
    let ghost c = Change::Fill(new_vars(vars@));
    let n: usize = list.len();
    let mut nodes = list;
    let mut k: usize = 0;
    while k < n
        invariant
            k <= n,
            n == nodes@.len(),
            all == var_trees(nodes@),
            nodes@.len() == list@.len(),
            forall|i: int| k <= i < n ==> nodes@[i] == list@[i],
            all == var_trees(list@),
            c == Change::Fill(new_vars(vars@)),
            changed(all, var_ref, c, k as int) == changed(all, var_ref, c, 0),
        decreases n - k,
    {
        let ghost here = list@[k as int];
        assert(all[k as int] == var_tree(here));
        proof {
            lemma_var_tree(here);
        }
        assert(decreases_to!(list => list@));
        assert(decreases_to!(list@ => list@[k as int]));
        assert(decreases_to!(here => here.children));
        let node = nodes.remove(k);
        if node.var_ref == var_ref {
            let new = VarNode {
                name: node.name,
                value: node.value,
                var_ref: node.var_ref,
                expanded: node.expanded,
                loaded: true,
                children: make_vars(vars),
            };
            proof {
                lemma_var_tree(new);
            }
            let ghost nv = var_tree(new);
            nodes.insert(k, new);
            assert(var_trees(nodes@) =~= all.update(k as int, nv));
            assert(nv == changed_var(all[k as int], c));
            return (nodes, true);
        }
        let (children, hit) = fill_var(node.children, var_ref, vars);
        let new = VarNode {
            name: node.name,
            value: node.value,
            var_ref: node.var_ref,
            expanded: node.expanded,
            loaded: node.loaded,
            children,
        };
        proof {
            lemma_var_tree(new);
        }
        let ghost nv = var_tree(new);
        nodes.insert(k, new);
        assert(var_trees(nodes@) =~= all.update(k as int, nv));
        if hit {
            return (nodes, true);
        }
        assert(nv == all[k as int]);
        assert(var_trees(nodes@) =~= all);
        k = k + 1;
    }
    (nodes, false)
}

fn toggle_in(list: Vec<VarNode>, var_ref: i64) -> (r: (Vec<VarNode>, Option<Option<i64>>))
    ensures
        match r.1 {
            Some(need) => found(var_trees(list@), var_ref, 0) is Some && need == load_of(
                found(var_trees(list@), var_ref, 0)->0,
            ) && changed(var_trees(list@), var_ref, Change::Toggle, 0) is Some,
            None => found(var_trees(list@), var_ref, 0) is None && changed(
                var_trees(list@),
                var_ref,
                Change::Toggle,
                0,
            ) is None,
        },
        var_trees(r.0@) == match changed(var_trees(list@), var_ref, Change::Toggle, 0) {
            Some(v) => v,
            None => var_trees(list@),
        },
    decreases list,
{
    let ghost all = var_trees(list@);
    let ghost c = Change::Toggle;
    let n: usize = list.len();
    let mut nodes = list;
    let mut k: usize = 0;
    while k < n
        invariant
            k <= n,
            n == nodes@.len(),
            all == var_trees(nodes@),
            nodes@.len() == list@.len(),
            forall|i: int| k <= i < n ==> nodes@[i] == list@[i],
            all == var_trees(list@),
            c == Change::Toggle,
            changed(all, var_ref, c, k as int) == changed(all, var_ref, c, 0),
            found(all, var_ref, k as int) == found(all, var_ref, 0),
        decreases n - k,
    {
        let ghost here = list@[k as int];
        assert(all[k as int] == var_tree(here));
        proof {
            lemma_var_tree(here);
        }
        assert(decreases_to!(list => list@));
        assert(decreases_to!(list@ => list@[k as int]));
        assert(decreases_to!(here => here.children));
        let node = nodes.remove(k);
        if node.var_ref == var_ref {
            let need: Option<i64> = if !node.expanded && !node.loaded {
                Some(var_ref)
            } else {
                None
            };
            let new = VarNode {
                name: node.name,
                value: node.value,
                var_ref: node.var_ref,
                expanded: !node.expanded,
                loaded: node.loaded,
                children: node.children,
            };
            proof {
                lemma_var_tree(new);
            }
            let ghost nv = var_tree(new);
            nodes.insert(k, new);
            assert(var_trees(nodes@) =~= all.update(k as int, nv));
            assert(nv == changed_var(all[k as int], c));
            return (nodes, Some(need));
        }
        let (children, hit) = toggle_in(node.children, var_ref);
        let new = VarNode {
            name: node.name,
            value: node.value,
            var_ref: node.var_ref,
            expanded: node.expanded,
            loaded: node.loaded,
            children,
        };
        proof {
            lemma_var_tree(new);
        }
        let ghost nv = var_tree(new);
        nodes.insert(k, new);
        assert(var_trees(nodes@) =~= all.update(k as int, nv));
        if let Some(need) = hit {
            return (nodes, Some(need));
        }
        assert(nv == all[k as int]);
        assert(var_trees(nodes@) =~= all);
        k = k + 1;
    }
    (nodes, None)
}

/// A row that shows a scope or a variable.
pub struct VarRow {
    pub depth: usize,
    pub name: String,
    pub value: Option<String>,
    pub var_ref: i64,
    pub expandable: bool,
    pub expanded: bool,
}

/// A row that shows a scope or a variable, by its contents.
pub struct VarRowView {
    pub depth: usize,
    pub name: Seq<char>,
    pub value: Option<Seq<char>>,
    pub var_ref: i64,
    pub expandable: bool,
    pub expanded: bool,
}

impl View for VarRow {
    type V = VarRowView;

    open spec fn view(&self) -> VarRowView {
        VarRowView {
            depth: self.depth,
            name: self.name@,
            value: opt_view(self.value),
            var_ref: self.var_ref,
            expandable: self.expandable,
            expanded: self.expanded,
        }
    }
}

/// The contents of rows.
pub open spec fn var_row_views(v: Seq<VarRow>) -> Seq<VarRowView> {
    Seq::new(v.len(), |i: int| v[i]@)
}

/// The most characters of a value that are shown.
pub const MAX_VALUE: usize = 120;

/// A value as it is shown: cut where it is too long.
pub open spec fn shown_value(v: Seq<char>) -> Seq<char> {
    if v.len() > MAX_VALUE {
        v.take(MAX_VALUE as int) + "\u{2026}"@
    } else {
        v
    }
}

fn show_value(v: &str) -> (r: String)
    ensures
        r@ == shown_value(v@),
{
    let c = chars_of(v);
    if c.len() > MAX_VALUE {
        let mut s = text_of(&c, 0, MAX_VALUE);
        s.append("\u{2026}");
        assert(v@.subrange(0, MAX_VALUE as int) =~= v@.take(MAX_VALUE as int));
        s
    } else {
        v.to_owned()
    }
}

/// One level deeper.
pub open spec fn deeper(depth: usize) -> usize {
    if depth < usize::MAX {
        (depth + 1) as usize
    } else {
        depth
    }
}

/// The rows of variables from the `k`-th on, each open one followed by those below it.
pub open spec fn var_rows(vars: Seq<VarTree>, depth: usize, k: int) -> Seq<VarRowView>
    decreases vars, vars.len() - k,
{
    if k < 0 || k >= vars.len() {
        Seq::empty()
    } else {
        let v = vars[k];
        let own = seq![
            VarRowView {
                depth,
                name: v.name,
                value: Some(shown_value(v.value)),
                var_ref: v.var_ref,
                expandable: v.var_ref > 0,
                expanded: v.expanded,
            },
        ];
        let below = if v.expanded {
            var_rows(v.children, deeper(depth), 0)
        } else {
            Seq::empty()
        };
        own + below + var_rows(vars, depth, k + 1)
    }
}

/// The rows of scopes from the `k`-th on.
pub open spec fn scope_rows(scopes: Seq<ScopeTree>, k: int) -> Seq<VarRowView>
    decreases scopes.len() - k,
{
    if k < 0 || k >= scopes.len() {
        Seq::empty()
    } else {
        let s = scopes[k];
        let own = seq![
            VarRowView {
                depth: 0,
                name: s.name,
                value: None,
                var_ref: s.var_ref,
                expandable: true,
                expanded: s.expanded,
            },
        ];
        let below = if s.expanded {
            var_rows(s.vars, 1, 0)
        } else {
            Seq::empty()
        };
        own + below + scope_rows(scopes, k + 1)
    }
}

fn add_row(rows: &mut Vec<VarRow>, row: VarRow)
    ensures
        var_row_views(final(rows)@) == var_row_views(old(rows)@).push(row@),
{
    let ghost so_far = var_row_views(rows@);
    let ghost rv = row@;
    rows.push(row);
    assert(var_row_views(rows@) =~= so_far.push(rv));
}

fn emit_vars(vars: &Vec<VarNode>, depth: usize, rows: &mut Vec<VarRow>)
    ensures
        var_row_views(final(rows)@) == var_row_views(old(rows)@) + var_rows(
            var_trees(vars@),
            depth,
            0,
        ),
    decreases vars,
{
    let ghost all = var_trees(vars@);
    let ghost start = var_row_views(rows@);
    let ghost want = var_rows(all, depth, 0);
    let mut k: usize = 0;
    while k < vars.len()
        invariant
            k <= vars@.len(),
            all == var_trees(vars@),
            var_row_views(rows@) + var_rows(all, depth, k as int) == start + want,
        decreases vars.len() - k,
    {
        let v = &vars[k];
        assert(all[k as int] == var_tree(*v));
        proof {
            lemma_var_tree(*v);
        }
        assert(decreases_to!(vars => vars@));
        assert(decreases_to!(vars@ => vars@[k as int]));
        assert(decreases_to!(vars@[k as int] => vars@[k as int].children));
        let ghost so_far = var_row_views(rows@);
        let row = VarRow {
            depth,
            name: v.name.as_str().to_owned(),
            value: Some(show_value(v.value.as_str())),
            var_ref: v.var_ref,
            expandable: v.var_ref > 0,
            expanded: v.expanded,
        };
        let ghost own = row@;
        let ghost rest = var_rows(all, depth, k + 1);
        add_row(rows, row);
        if v.expanded {
            let down: usize = if depth < usize::MAX {
                depth + 1
            } else {
                depth
            };
            emit_vars(&v.children, down, rows);
            let ghost below = var_rows(all[k as int].children, down, 0);
            assert((so_far.push(own) + below) + rest =~= so_far + (seq![own] + below + rest));
        } else {
            assert(so_far.push(own) + rest =~= so_far + (seq![own] + Seq::<VarRowView>::empty()
                + rest));
        }
        k = k + 1;
    }
    assert(var_row_views(rows@) + Seq::<VarRowView>::empty() =~= var_row_views(rows@));
}

fn emit_scopes(scopes: &Vec<ScopeNode>) -> (r: Vec<VarRow>)
    ensures
        var_row_views(r@) == scope_rows(scope_trees(scopes@), 0),
{
    let ghost all = scope_trees(scopes@);
    let ghost want = scope_rows(all, 0);
    let mut rows: Vec<VarRow> = Vec::new();
    assert(var_row_views(rows@) + want =~= want);
    let mut k: usize = 0;
    while k < scopes.len()
        invariant
            k <= scopes@.len(),
            all == scope_trees(scopes@),
            var_row_views(rows@) + scope_rows(all, k as int) == want,
        decreases scopes.len() - k,
    {
        let s = &scopes[k];
        assert(all[k as int] == s@);
        let ghost so_far = var_row_views(rows@);
        let row = VarRow {
            depth: 0,
            name: s.name.as_str().to_owned(),
            value: None,
            var_ref: s.var_ref,
            expandable: true,
            expanded: s.expanded,
        };
        let ghost own = row@;
        let ghost rest = scope_rows(all, k + 1);
        add_row(&mut rows, row);
        if s.expanded {
            emit_vars(&s.vars, 1, &mut rows);
            let ghost below = var_rows(all[k as int].vars, 1, 0);
            assert((so_far.push(own) + below) + rest =~= so_far + (seq![own] + below + rest));
        } else {
            assert(so_far.push(own) + rest =~= so_far + (seq![own] + Seq::<VarRowView>::empty()
                + rest));
        }
        k = k + 1;
    }
    assert(var_row_views(rows@) + Seq::<VarRowView>::empty() =~= var_row_views(rows@));
    rows
}

/// What a press on a row does.
#[derive(Clone, Copy, PartialEq, Eq, Debug, Structural)]
pub enum RowAct {
    ToggleCallStack,
    ToggleVariables,
    SelectFrame(i64),
    /// Of a scope or a variable, by its reference.
    ToggleVar(i64),
}

/// A piece of a row.
pub enum Piece<T> {
    /// The mark of what can be opened, pointing down where it is open.
    Chevron(bool),
    Dim(T),
    Text(T),
    Name(T),
}

/// A row: what it shows and what a press on it does.
pub struct Row {
    pub act: RowAct,
    pub pieces: Vec<Piece<String>>,
}

/// A row by its contents.
pub struct RowView {
    pub act: RowAct,
    pub pieces: Seq<Piece<Seq<char>>>,
}

/// The contents of a piece.
pub open spec fn piece_view(p: Piece<String>) -> Piece<Seq<char>> {
    match p {
        Piece::Chevron(b) => Piece::Chevron(b),
        Piece::Dim(s) => Piece::Dim(s@),
        Piece::Text(s) => Piece::Text(s@),
        Piece::Name(s) => Piece::Name(s@),
    }
}

/// The contents of pieces.
pub open spec fn piece_views(v: Seq<Piece<String>>) -> Seq<Piece<Seq<char>>> {
    Seq::new(v.len(), |i: int| piece_view(v[i]))
}

impl View for Row {
    type V = RowView;

    open spec fn view(&self) -> RowView {
        RowView { act: self.act, pieces: piece_views(self.pieces@) }
    }
}

/// The contents of rows.
pub open spec fn row_views(v: Seq<Row>) -> Seq<RowView> {
    Seq::new(v.len(), |i: int| v[i]@)
}

/// The row of a section.
pub open spec fn section_row(title: Seq<char>, open: bool, act: RowAct) -> RowView {
    RowView { act, pieces: seq![Piece::Chevron(open), Piece::Dim(title)] }
}

/// The row of a frame of the call stack.
pub open spec fn frame_row(f: StackFrame) -> RowView {
    let head = seq![Piece::Dim("    "@), Piece::Text(f.name@)];
    let file = match f.path {
        Some(p) => base_name(p@),
        None => None,
    };
    RowView {
        act: RowAct::SelectFrame(f.id),
        pieces: match file {
            Some(n) => head.push(
                Piece::Dim("   "@ + n + ":"@ + signed_decimal(f.line as int)),
            ),
            None => head,
        },
    }
}

/// `n` times two blanks.
pub open spec fn indent(n: int) -> Seq<char>
    decreases n,
{
    if n <= 0 {
        Seq::empty()
    } else {
        indent(n - 1) + "  "@
    }
}

/// The row of a scope or a variable.
pub open spec fn var_row(v: VarRowView) -> RowView {
    let pad = indent(v.depth + 1);
    let head = if v.expandable {
        seq![Piece::Dim(pad), Piece::Chevron(v.expanded)]
    } else {
        seq![Piece::Dim(pad + "    "@)]
    };
    let named = head.push(Piece::Name(v.name));
    RowView {
        act: RowAct::ToggleVar(v.var_ref),
        pieces: match v.value {
            Some(t) => named.push(Piece::Dim(" = "@)).push(Piece::Text(t)),
            None => named,
        },
    }
}

/// The rows of the frames.
pub open spec fn frame_rows(frames: Seq<StackFrame>) -> Seq<RowView> {
    Seq::new(frames.len(), |i: int| frame_row(frames[i]))
}

/// The panel.
pub struct DebugPanel {
    pub configs: Vec<LaunchConfig>,
    pub selected: usize,
    pub session: Session,
    pub frames: Vec<StackFrame>,
    pub scopes: Vec<ScopeNode>,
    pub call_stack_open: bool,
    pub variables_open: bool,
}

/// The rows of the panel: the call stack and the variables, while the program is stopped.
pub open spec fn panel_rows(
    session: Session,
    frames: Seq<StackFrame>,
    scopes: Seq<ScopeTree>,
    call_stack_open: bool,
    variables_open: bool,
) -> Seq<RowView> {
    if session != Session::Stopped {
        Seq::empty()
    } else {
        let vars = scope_rows(scopes, 0);
        seq![section_row("CALL STACK"@, call_stack_open, RowAct::ToggleCallStack)] + (
        if call_stack_open {
            frame_rows(frames)
        } else {
            Seq::empty()
        }) + seq![section_row("VARIABLES"@, variables_open, RowAct::ToggleVariables)] + (
        if variables_open {
            Seq::new(vars.len(), |i: int| var_row(vars[i]))
        } else {
            Seq::empty()
        })
    }
}

/// The scopes with the first of a reference changed, from the `k`-th on: each scope is
/// looked at before its variables.
pub open spec fn changed_scopes(scopes: Seq<ScopeTree>, var_ref: i64, c: Change, k: int) -> Option<
    Seq<ScopeTree>,
>
    decreases scopes.len() - k,
{
    if k < 0 || k >= scopes.len() {
        None
    } else if scopes[k].var_ref == var_ref {
        Some(
            scopes.update(
                k,
                match c {
                    Change::Fill(kids) => ScopeTree { vars: kids, loaded: true, ..scopes[k] },
                    Change::Toggle => ScopeTree { expanded: !scopes[k].expanded, ..scopes[k] },
                },
            ),
        )
    } else {
        match changed(scopes[k].vars, var_ref, c, 0) {
            Some(vars) => Some(scopes.update(k, ScopeTree { vars, ..scopes[k] })),
            None => changed_scopes(scopes, var_ref, c, k + 1),
        }
    }
}

/// What is to be fetched when the first of a reference is toggled.
pub open spec fn scopes_load(scopes: Seq<ScopeTree>, var_ref: i64, k: int) -> Option<i64>
    decreases scopes.len() - k,
{
    if k < 0 || k >= scopes.len() {
        None
    } else if scopes[k].var_ref == var_ref {
        if !scopes[k].expanded && !scopes[k].loaded {
            Some(var_ref)
        } else {
            None
        }
    } else {
        match found(scopes[k].vars, var_ref, 0) {
            Some(v) => load_of(v),
            None => scopes_load(scopes, var_ref, k + 1),
        }
    }
}

/// The scopes of a frame as they come from the debugger: the first is open.
pub open spec fn new_scopes(v: Seq<Scope>) -> Seq<ScopeTree> {
    Seq::new(
        v.len(),
        |i: int|
            ScopeTree {
                name: v[i].name@,
                var_ref: v[i].var_ref,
                expanded: i == 0,
                loaded: false,
                vars: Seq::empty(),
            },
    )
}

/// The references of the scopes among the first `n` whose variables are to be fetched.
pub open spec fn pending_refs(scopes: Seq<ScopeTree>, n: int) -> Seq<i64>
    decreases n,
{
    if n <= 0 {
        Seq::empty()
    } else {
        let rest = pending_refs(scopes, n - 1);
        if scopes[n - 1].expanded && !scopes[n - 1].loaded {
            rest.push(scopes[n - 1].var_ref)
        } else {
            rest
        }
    }
}

fn push_piece(v: &mut Vec<Piece<String>>, p: Piece<String>)
    ensures
        piece_views(final(v)@) == piece_views(old(v)@).push(piece_view(p)),
{
    let ghost so_far = piece_views(v@);
    v.push(p);
    assert(piece_views(v@) =~= so_far.push(piece_view(p)));
}

fn push_row(v: &mut Vec<Row>, r: Row)
    ensures
        row_views(final(v)@) == row_views(old(v)@).push(r@),
{
    let ghost so_far = row_views(v@);
    let ghost rv = r@;
    v.push(r);
    assert(row_views(v@) =~= so_far.push(rv));
}

fn make_section(title: &str, open: bool, act: RowAct) -> (r: Row)
    ensures
        r@ == section_row(title@, open, act),
{
    let mut pieces: Vec<Piece<String>> = Vec::new();
    push_piece(&mut pieces, Piece::Chevron(open));
    push_piece(&mut pieces, Piece::Dim(title.to_owned()));
    let r = Row { act, pieces };
    assert(r@.pieces =~= section_row(title@, open, act).pieces);
    r
}

fn make_frame(f: &StackFrame) -> (r: Row)
    ensures
        r@ == frame_row(*f),
{
    let mut pieces: Vec<Piece<String>> = Vec::new();
    push_piece(&mut pieces, Piece::Dim("    ".to_owned()));
    push_piece(&mut pieces, Piece::Text(f.name.as_str().to_owned()));
    let file = match &f.path {
        Some(p) => file_name(p.as_str()),
        None => None,
    };
    if let Some(n) = file {
        let mut s = "   ".to_owned();
        s.append(n.as_str());
        s.append(":");
        s.append(write_signed(f.line).as_str());
        push_piece(&mut pieces, Piece::Dim(s));
    }
    let r = Row { act: RowAct::SelectFrame(f.id), pieces };
    assert(r@.pieces =~= frame_row(*f).pieces);
    r
}

fn make_indent(n: usize) -> (r: String)
    ensures
        r@ == indent(n as int + 1),
{
    let mut s = String::new();
    let mut k: usize = 0;
    while k < n
        invariant
            k <= n,
            s@ == indent(k as int),
        decreases n - k,
    {
        s.append("  ");
        k = k + 1;
    }
    s.append("  ");
    s
}

fn make_var(v: &VarRow) -> (r: Row)
    ensures
        r@ == var_row(v@),
{
    let mut pieces: Vec<Piece<String>> = Vec::new();
    let mut pad = make_indent(v.depth);
    if v.expandable {
        push_piece(&mut pieces, Piece::Dim(pad));
        push_piece(&mut pieces, Piece::Chevron(v.expanded));
    } else {
        pad.append("    ");
        push_piece(&mut pieces, Piece::Dim(pad));
    }
    push_piece(&mut pieces, Piece::Name(v.name.as_str().to_owned()));
    if let Some(t) = &v.value {
        push_piece(&mut pieces, Piece::Dim(" = ".to_owned()));
        push_piece(&mut pieces, Piece::Text(t.as_str().to_owned()));
    }
    let r = Row { act: RowAct::ToggleVar(v.var_ref), pieces };
    assert(r@.pieces =~= var_row(v@).pieces);
    r
}

/// Where a press fell.
#[derive(Clone, Copy, PartialEq, Eq, Debug, Structural)]
pub enum DebugHit {
    /// On a button of the toolbar: start, step over, step in, step out, stop, restart,
    /// attach.
    Button(usize),
    /// On the name of the configuration.
    Config,
    /// On a row.
    Row(usize),
    /// On the body beside the rows.
    Body,
    Outside,
}

/// The intent of a button.
pub open spec fn button_intent(i: usize, session: Session, selected: usize) -> Intent<String> {
    if i == 0 {
        match session {
            Session::Stopped => Intent::DebugContinue,
            Session::Running => Intent::DebugPause,
            Session::Idle => Intent::DebugStart { config: selected },
        }
    } else if i == 1 {
        Intent::DebugStepOver
    } else if i == 2 {
        Intent::DebugStepIn
    } else if i == 3 {
        Intent::DebugStepOut
    } else if i == 4 {
        Intent::DebugStop
    } else if i == 5 {
        Intent::DebugStart { config: selected }
    } else {
        Intent::DebugAttachProcess
    }
}

/// What the panel says where it has no rows.
pub open spec fn hint_text(session: Session, no_configs: bool) -> Seq<char> {
    match session {
        Session::Idle => if no_configs {
            "Add a .vscode/launch.json, or open a file to debug."@
        } else {
            "Click \u{25b7} to start debugging."@
        },
        Session::Running => "Running\u{2026} set a breakpoint in the gutter."@,
        Session::Stopped => ""@,
    }
}

impl DebugPanel {
    /// The scopes by their contents.
    pub open spec fn tree(&self) -> Seq<ScopeTree> {
        scope_trees(self.scopes@)
    }

    /// The rows.
    pub open spec fn shown(&self) -> Seq<RowView> {
        panel_rows(
            self.session,
            self.frames@,
            self.tree(),
            self.call_stack_open,
            self.variables_open,
        )
    }

    /// An idle panel.
    pub fn new() -> (r: DebugPanel)
        ensures
            r.configs@.len() == 0,
            r.selected == 0,
            r.session == Session::Idle,
            r.frames@.len() == 0,
            r.scopes@.len() == 0,
            r.call_stack_open,
            r.variables_open,
    {
        DebugPanel {
            configs: Vec::new(),
            selected: 0,
            session: Session::Idle,
            frames: Vec::new(),
            scopes: Vec::new(),
            call_stack_open: true,
            variables_open: true,
        }
    }

    /// Takes the configurations; the first is selected where the selected one is gone.
    pub fn set_configs(&mut self, configs: Vec<LaunchConfig>)
        ensures
            final(self).configs == configs,
            final(self).selected == (if old(self).selected >= configs@.len() {
                0
            } else {
                old(self).selected
            }),
            final(self).session == old(self).session,
            final(self).frames == old(self).frames,
            final(self).scopes == old(self).scopes,
            final(self).call_stack_open == old(self).call_stack_open,
            final(self).variables_open == old(self).variables_open,
    {
        if self.selected >= configs.len() {
            self.selected = 0;
        }
        self.configs = configs;
    }

    /// The name of the selected configuration.
    pub fn config_label(&self) -> (r: String)
        ensures
            r@ == (if self.selected < self.configs@.len() {
                self.configs@[self.selected as int].name@
            } else {
                "No Configurations"@
            }),
    {
        if self.selected < self.configs.len() {
            self.configs[self.selected].name.as_str().to_owned()
        } else {
            "No Configurations".to_owned()
        }
    }

    /// What the panel says where it has no rows.
    pub fn hint(&self) -> (r: String)
        ensures
            r@ == hint_text(self.session, self.configs@.len() == 0),
    {
        match self.session {
            Session::Idle => {
                if self.configs.len() == 0 {
                    "Add a .vscode/launch.json, or open a file to debug.".to_owned()
                } else {
                    "Click \u{25b7} to start debugging.".to_owned()
                }
            },
            Session::Running => "Running\u{2026} set a breakpoint in the gutter.".to_owned(),
            Session::Stopped => "".to_owned(),
        }
    }

    /// Takes how the session stands; only a stopped one keeps its frames and scopes.
    pub fn set_session(&mut self, s: Session)
        ensures
            final(self).session == s,
            if s == Session::Stopped {
                final(self).frames == old(self).frames && final(self).scopes == old(self).scopes
            } else {
                final(self).frames@.len() == 0 && final(self).scopes@.len() == 0
            },
            final(self).configs == old(self).configs,
            final(self).selected == old(self).selected,
            final(self).call_stack_open == old(self).call_stack_open,
            final(self).variables_open == old(self).variables_open,
    {
        self.session = s;
        if s != Session::Stopped {
            self.frames = Vec::new();
            self.scopes = Vec::new();
        }
    }

    /// The program stopped: takes its frames and opens both sections.
    pub fn set_stopped(&mut self, frames: Vec<StackFrame>)
        ensures
            final(self).session == Session::Stopped,
            final(self).frames == frames,
            final(self).scopes@.len() == 0,
            final(self).call_stack_open,
            final(self).variables_open,
            final(self).configs == old(self).configs,
            final(self).selected == old(self).selected,
    {
        self.session = Session::Stopped;
        self.frames = frames;
        self.scopes = Vec::new();
        self.call_stack_open = true;
        self.variables_open = true;
    }

    /// Takes the scopes of the frame; the first is open.
    pub fn set_scopes(&mut self, scopes: &Vec<Scope>)
        ensures
            final(self).tree() == new_scopes(scopes@),
            final(self).session == old(self).session,
            final(self).frames == old(self).frames,
            final(self).configs == old(self).configs,
            final(self).selected == old(self).selected,
            final(self).call_stack_open == old(self).call_stack_open,
            final(self).variables_open == old(self).variables_open,
    {
        let ghost want = new_scopes(scopes@);
        let mut out: Vec<ScopeNode> = Vec::new();
        assert(scope_trees(out@) =~= want.take(0));
        let mut k: usize = 0;
        while k < scopes.len()
            invariant
                k <= scopes@.len(),
                want == new_scopes(scopes@),
                scope_trees(out@) == want.take(k as int),
            decreases scopes.len() - k,
        {
            let n = ScopeNode {
                name: scopes[k].name.as_str().to_owned(),
                var_ref: scopes[k].var_ref,
                expanded: k == 0,
                loaded: false,
                vars: Vec::new(),
            };
            assert(n@.vars =~= Seq::<VarTree>::empty());
            let ghost so_far = scope_trees(out@);
            let ghost nv = n@;
            out.push(n);
            assert(scope_trees(out@) =~= so_far.push(nv));
            assert(want.take(k + 1) =~= want.take(k as int).push(want[k as int]));
            k = k + 1;
        }
        assert(want.take(k as int) =~= want);
        self.scopes = out;
    }

    /// The references of the scopes whose variables are to be fetched now.
    pub fn pending_scope_refs(&self) -> (r: Vec<i64>)
        ensures
            r@ == pending_refs(self.tree(), self.tree().len() as int),
    {
        let ghost t = self.tree();
        let mut out: Vec<i64> = Vec::new();
        let mut k: usize = 0;
        while k < self.scopes.len()
            invariant
                k <= self.scopes@.len(),
                t == self.tree(),
                out@ == pending_refs(t, k as int),
            decreases self.scopes.len() - k,
        {
            let s = &self.scopes[k];
            assert(t[k as int] == s@);
            if s.expanded && !s.loaded {
                out.push(s.var_ref);
            }
            k = k + 1;
        }
        out
    }

    /// Puts variables below the scope or variable of a reference. Nothing where none has it.
    pub fn set_children(&mut self, var_ref: i64, vars: &Vec<Variable>)
        ensures
            final(self).tree() == match changed_scopes(
                old(self).tree(),
                var_ref,
                Change::Fill(new_vars(vars@)),
                0,
            ) {
                Some(t) => t,
                None => old(self).tree(),
            },
            final(self).session == old(self).session,
            final(self).frames == old(self).frames,
            final(self).configs == old(self).configs,
            final(self).selected == old(self).selected,
            final(self).call_stack_open == old(self).call_stack_open,
            final(self).variables_open == old(self).variables_open,
    {
        let ghost all = self.tree();
        let ghost c = Change::Fill(new_vars(vars@));
        let mut left: Vec<ScopeNode> = Vec::new();
        std::mem::swap(&mut left, &mut self.scopes);
        let n: usize = left.len();
        assert(scope_trees(left@) == all);
        let mut hit = false;
        let mut k: usize = 0;
        while k < n && !hit
            invariant
                k <= n,
                n == left@.len(),
                n == all.len(),
                c == Change::Fill(new_vars(vars@)),
                !hit ==> scope_trees(left@) == all && changed_scopes(all, var_ref, c, k as int)
                    == changed_scopes(all, var_ref, c, 0),
                hit ==> changed_scopes(all, var_ref, c, 0) == Some(scope_trees(left@)),
            decreases n - k,
        {
            let s = left.remove(k);
            assert(all[k as int] == s@);
            if s.var_ref == var_ref {
                let new = ScopeNode {
                    name: s.name,
                    var_ref: s.var_ref,
                    expanded: s.expanded,
                    loaded: true,
                    vars: make_vars(vars),
                };
                let ghost nv = new@;
                left.insert(k, new);
                assert(scope_trees(left@) =~= all.update(k as int, nv));
                hit = true;
            } else {
                let (inner, found_it) = fill_var(s.vars, var_ref, vars);
                let new = ScopeNode {
                    name: s.name,
                    var_ref: s.var_ref,
                    expanded: s.expanded,
                    loaded: s.loaded,
                    vars: inner,
                };
                let ghost nv = new@;
                left.insert(k, new);
                assert(scope_trees(left@) =~= all.update(k as int, nv));
                hit = found_it;
                assert(!hit ==> scope_trees(left@) =~= all);
            }
            k = k + 1;
        }
        self.scopes = left;
    }

    /// Opens or closes the scope or variable of a reference. Gives back the reference where
    /// what is below it is to be fetched.
    pub fn toggle_var(&mut self, var_ref: i64) -> (r: Option<i64>)
        ensures
            r == scopes_load(old(self).tree(), var_ref, 0),
            final(self).tree() == match changed_scopes(
                old(self).tree(),
                var_ref,
                Change::Toggle,
                0,
            ) {
                Some(t) => t,
                None => old(self).tree(),
            },
            final(self).session == old(self).session,
            final(self).frames == old(self).frames,
            final(self).configs == old(self).configs,
            final(self).selected == old(self).selected,
            final(self).call_stack_open == old(self).call_stack_open,
            final(self).variables_open == old(self).variables_open,
    {
        let ghost all = self.tree();
        let mut left: Vec<ScopeNode> = Vec::new();
        std::mem::swap(&mut left, &mut self.scopes);
        let n: usize = left.len();
        assert(scope_trees(left@) == all);
        let mut hit = false;
        let mut need: Option<i64> = None;
        let mut k: usize = 0;
        while k < n && !hit
            invariant
                k <= n,
                n == left@.len(),
                n == all.len(),
                !hit ==> scope_trees(left@) == all && need is None && changed_scopes(
                    all,
                    var_ref,
                    Change::Toggle,
                    k as int,
                ) == changed_scopes(all, var_ref, Change::Toggle, 0) && scopes_load(
                    all,
                    var_ref,
                    k as int,
                ) == scopes_load(all, var_ref, 0),
                hit ==> changed_scopes(all, var_ref, Change::Toggle, 0) == Some(
                    scope_trees(left@),
                ) && need == scopes_load(all, var_ref, 0),
            decreases n - k,
        {
            let s = left.remove(k);
            assert(all[k as int] == s@);
            if s.var_ref == var_ref {
                if !s.expanded && !s.loaded {
                    need = Some(var_ref);
                }
                let new = ScopeNode {
                    name: s.name,
                    var_ref: s.var_ref,
                    expanded: !s.expanded,
                    loaded: s.loaded,
                    vars: s.vars,
                };
                let ghost nv = new@;
                left.insert(k, new);
                assert(scope_trees(left@) =~= all.update(k as int, nv));
                hit = true;
            } else {
                let (inner, found_it) = toggle_in(s.vars, var_ref);
                let new = ScopeNode {
                    name: s.name,
                    var_ref: s.var_ref,
                    expanded: s.expanded,
                    loaded: s.loaded,
                    vars: inner,
                };
                let ghost nv = new@;
                left.insert(k, new);
                assert(scope_trees(left@) =~= all.update(k as int, nv));
                if let Some(x) = found_it {
                    need = x;
                    hit = true;
                }
                assert(!hit ==> scope_trees(left@) =~= all);
            }
            k = k + 1;
        }
        self.scopes = left;
        need
    }

    /// The rows of the panel.
    pub fn rows(&self) -> (r: Vec<Row>)
        ensures
            row_views(r@) == self.shown(),
    {
        let mut rows: Vec<Row> = Vec::new();
        assert(row_views(rows@) =~= Seq::<RowView>::empty());
        if self.session != Session::Stopped {
            return rows;
        }
        let ghost first = section_row(
            "CALL STACK"@,
            self.call_stack_open,
            RowAct::ToggleCallStack,
        );
        push_row(
            &mut rows,
            make_section("CALL STACK", self.call_stack_open, RowAct::ToggleCallStack),
        );
        assert(row_views(rows@) =~= seq![first]);
        let ghost fr = frame_rows(self.frames@);
        let ghost stack = if self.call_stack_open {
            fr
        } else {
            Seq::<RowView>::empty()
        };
        if self.call_stack_open {
            let mut k: usize = 0;
            assert(seq![first] + fr.take(0) =~= seq![first]);
            while k < self.frames.len()
                invariant
                    k <= self.frames@.len(),
                    fr == frame_rows(self.frames@),
                    row_views(rows@) == seq![first] + fr.take(k as int),
                decreases self.frames.len() - k,
            {
                push_row(&mut rows, make_frame(&self.frames[k]));
                assert(fr.take(k + 1) =~= fr.take(k as int).push(fr[k as int]));
                assert((seq![first] + fr.take(k as int)).push(fr[k as int]) =~= seq![first] + fr.take(
                    k as int,
                ).push(fr[k as int]));
                k = k + 1;
            }
            assert(fr.take(k as int) =~= fr);
        } else {
            assert(seq![first] + stack =~= seq![first]);
        }
        let ghost second = section_row(
            "VARIABLES"@,
            self.variables_open,
            RowAct::ToggleVariables,
        );
        push_row(
            &mut rows,
            make_section("VARIABLES", self.variables_open, RowAct::ToggleVariables),
        );
        let ghost head = seq![first] + stack + seq![second];
        assert(row_views(rows@) =~= head);
        if self.variables_open {
            let vars = emit_scopes(&self.scopes);
            let ghost vv = var_row_views(vars@);
            let ghost vr = Seq::new(vv.len(), |i: int| var_row(vv[i]));
            let mut k: usize = 0;
            assert(head + vr.take(0) =~= head);
            while k < vars.len()
                invariant
                    k <= vars@.len(),
                    vv == var_row_views(vars@),
                    vr == Seq::new(vv.len(), |i: int| var_row(vv[i])),
                    row_views(rows@) == head + vr.take(k as int),
                decreases vars.len() - k,
            {
                assert(vv[k as int] == vars@[k as int]@);
                push_row(&mut rows, make_var(&vars[k]));
                assert(vr.take(k + 1) =~= vr.take(k as int).push(vr[k as int]));
                assert((head + vr.take(k as int)).push(vr[k as int]) =~= head + vr.take(
                    k as int,
                ).push(vr[k as int]));
                k = k + 1;
            }
            assert(vr.take(k as int) =~= vr);
        } else {
            assert(head + Seq::<RowView>::empty() =~= head);
        }
        rows
    }

    /// A press, by where it fell: whether it is taken, and what is asked for.
    pub fn on_press(&mut self, hit: DebugHit) -> (r: (bool, Option<Intent<String>>))
        requires
            old(self).selected < usize::MAX,
        ensures
            final(self).session == old(self).session,
            final(self).frames == old(self).frames,
            final(self).configs == old(self).configs,
            match hit {
                DebugHit::Button(i) => *final(self) == *old(self) && r == (
                    true,
                    Some(button_intent(i, old(self).session, old(self).selected)),
                ),
                DebugHit::Config => if old(self).configs@.len() == 0 {
                    *final(self) == *old(self) && r == (false, None::<Intent<String>>)
                } else {
                    let next = ((old(self).selected + 1) % old(self).configs@.len() as int) as usize;
                    *final(self) == (DebugPanel { selected: next, ..*old(self) }) && r == (
                        true,
                        Some(Intent::<String>::DebugSelectConfig { config: next }),
                    )
                },
                DebugHit::Row(i) => if i >= old(self).shown().len() {
                    *final(self) == *old(self) && r == (true, None::<Intent<String>>)
                } else {
                    match old(self).shown()[i as int].act {
                        RowAct::ToggleCallStack => *final(self) == (DebugPanel {
                            call_stack_open: !old(self).call_stack_open,
                            ..*old(self)
                        }) && r == (true, None::<Intent<String>>),
                        RowAct::ToggleVariables => *final(self) == (DebugPanel {
                            variables_open: !old(self).variables_open,
                            ..*old(self)
                        }) && r == (true, None::<Intent<String>>),
                        RowAct::SelectFrame(id) => *final(self) == *old(self) && r == (
                            true,
                            Some(Intent::<String>::DebugSelectFrame { id }),
                        ),
                        RowAct::ToggleVar(var_ref) => {
                            &&& final(self).tree() == match changed_scopes(
                                old(self).tree(),
                                var_ref,
                                Change::Toggle,
                                0,
                            ) {
                                Some(t) => t,
                                None => old(self).tree(),
                            }
                            &&& final(self).selected == old(self).selected
                            &&& final(self).call_stack_open == old(self).call_stack_open
                            &&& final(self).variables_open == old(self).variables_open
                            &&& r == (
                                true,
                                match scopes_load(old(self).tree(), var_ref, 0) {
                                    Some(n) => Some(Intent::<String>::DebugExpandVar { var_ref: n }),
                                    None => None,
                                },
                            )
                        },
                    }
                },
                DebugHit::Body => *final(self) == *old(self) && r == (
                    true,
                    None::<Intent<String>>,
                ),
                DebugHit::Outside => *final(self) == *old(self) && r == (
                    false,
                    None::<Intent<String>>,
                ),
            },
    {
        match hit {
            DebugHit::Button(i) => {
                let intent: Intent<String> = if i == 0 {
                    match self.session {
                        Session::Stopped => Intent::DebugContinue,
                        Session::Running => Intent::DebugPause,
                        Session::Idle => Intent::DebugStart { config: self.selected },
                    }
                } else if i == 1 {
                    Intent::DebugStepOver
                } else if i == 2 {
                    Intent::DebugStepIn
                } else if i == 3 {
                    Intent::DebugStepOut
                } else if i == 4 {
                    Intent::DebugStop
                } else if i == 5 {
                    Intent::DebugStart { config: self.selected }
                } else {
                    Intent::DebugAttachProcess
                };
                (true, Some(intent))
            },
            DebugHit::Config => {
                let n: usize = self.configs.len();
                if n == 0 {
                    return (false, None);
                }
                self.selected = (self.selected + 1) % n;
                (true, Some(Intent::DebugSelectConfig { config: self.selected }))
            },
            DebugHit::Row(i) => {
                let rows = self.rows();
                let ghost rv = row_views(rows@);
                if i >= rows.len() {
                    return (true, None);
                }
                assert(rv[i as int] == rows@[i as int]@);
                match rows[i].act {
                    RowAct::ToggleCallStack => {
                        self.call_stack_open = !self.call_stack_open;
                        (true, None)
                    },
                    RowAct::ToggleVariables => {
                        self.variables_open = !self.variables_open;
                        (true, None)
                    },
                    RowAct::SelectFrame(id) => (true, Some(Intent::DebugSelectFrame { id })),
                    RowAct::ToggleVar(var_ref) => match self.toggle_var(var_ref) {
                        Some(need) => (true, Some(Intent::DebugExpandVar { var_ref: need })),
                        None => (true, None),
                    },
                }
            },
            DebugHit::Body => (true, None),
            DebugHit::Outside => (false, None),
        }
    }
}

proof fn lemma_changed_keeps_front(vars: Seq<VarTree>, var_ref: i64, c: Change, k: int)
    requires
        changed(vars, var_ref, c, k) is Some,
        0 <= k,
    ensures
        changed(vars, var_ref, c, k)->0.len() == vars.len(),
        forall|i: int| 0 <= i < k && i < vars.len() ==> changed(vars, var_ref, c, k)->0[i] == vars[i],
        forall|i: int|
            0 <= i < vars.len() ==> (#[trigger] changed(vars, var_ref, c, k)->0[i]).var_ref
                == vars[i].var_ref,
    decreases vars.len() - k,
{
    if vars[k].var_ref != var_ref && changed(vars[k].children, var_ref, c, 0) is None {
        lemma_changed_keeps_front(vars, var_ref, c, k + 1);
    }
}

proof fn lemma_toggle_twice(vars: Seq<VarTree>, var_ref: i64, k: int)
    requires
        0 <= k,
        changed(vars, var_ref, Change::Toggle, k) is Some,
    ensures
        changed(changed(vars, var_ref, Change::Toggle, k)->0, var_ref, Change::Toggle, k) == Some(
            vars,
        ),
    decreases vars, vars.len() - k,
{
    let c = Change::Toggle;
    let once = changed(vars, var_ref, c, k)->0;
    lemma_changed_keeps_front(vars, var_ref, c, k);
    if vars[k].var_ref == var_ref {
        assert(once.update(k, changed_var(once[k], c)) =~= vars);
    } else if changed(vars[k].children, var_ref, c, 0) is Some {
        lemma_toggle_twice(vars[k].children, var_ref, 0);
        assert(once.update(k, VarTree { children: vars[k].children, ..once[k] }) =~= vars);
    } else {
        lemma_changed_keeps_front(vars, var_ref, c, k + 1);
        lemma_toggle_twice(vars, var_ref, k + 1);
    }
}

/// Toggling a variable twice leaves the tree as it was.
pub proof fn law_toggle_twice_restores(vars: Seq<VarTree>, var_ref: i64)
    requires
        changed(vars, var_ref, Change::Toggle, 0) is Some,
    ensures
        changed(changed(vars, var_ref, Change::Toggle, 0)->0, var_ref, Change::Toggle, 0) == Some(
            vars,
        ),
{
    lemma_toggle_twice(vars, var_ref, 0);
}

proof fn lemma_fill_found(vars: Seq<VarTree>, var_ref: i64, kids: Seq<VarTree>, k: int)
    requires
        0 <= k,
        changed(vars, var_ref, Change::Fill(kids), k) is Some,
    ensures
        found(changed(vars, var_ref, Change::Fill(kids), k)->0, var_ref, k) is Some,
        found(changed(vars, var_ref, Change::Fill(kids), k)->0, var_ref, k)->0.loaded,
        found(changed(vars, var_ref, Change::Fill(kids), k)->0, var_ref, k)->0.children == kids,
    decreases vars, vars.len() - k,
{
    let c = Change::Fill(kids);
    let once = changed(vars, var_ref, c, k)->0;
    lemma_changed_keeps_front(vars, var_ref, c, k);
    if vars[k].var_ref != var_ref {
        if changed(vars[k].children, var_ref, c, 0) is Some {
            lemma_fill_found(vars[k].children, var_ref, kids, 0);
        } else {
            lemma_changed_keeps_front(vars, var_ref, c, k + 1);
            lemma_fill_found(vars, var_ref, kids, k + 1);
            lemma_not_found(vars[k].children, var_ref, c, 0);
        }
    }
}

proof fn lemma_not_found(vars: Seq<VarTree>, var_ref: i64, c: Change, k: int)
    requires
        0 <= k,
        changed(vars, var_ref, c, k) is None,
    ensures
        found(vars, var_ref, k) is None,
    decreases vars, vars.len() - k,
{
    if k < vars.len() {
        lemma_not_found(vars[k].children, var_ref, c, 0);
        lemma_not_found(vars, var_ref, c, k + 1);
    }
}

/// What is put below a variable is found below it, and it counts as loaded.
pub proof fn law_filled_variable_is_loaded(vars: Seq<VarTree>, var_ref: i64, kids: Seq<VarTree>)
    requires
        changed(vars, var_ref, Change::Fill(kids), 0) is Some,
    ensures
        found(changed(vars, var_ref, Change::Fill(kids), 0)->0, var_ref, 0) is Some,
        found(changed(vars, var_ref, Change::Fill(kids), 0)->0, var_ref, 0)->0.loaded,
        found(changed(vars, var_ref, Change::Fill(kids), 0)->0, var_ref, 0)->0.children == kids,
{
    lemma_fill_found(vars, var_ref, kids, 0);
}

/// The variables of an answer are told as they are, closed and without any below them yet; of the
/// scopes the first is open.
pub proof fn law_answers_are_shown_as_told(v: Seq<Variable>, s: Seq<Scope>, i: int)
    ensures
        new_vars(v).len() == v.len(),
        0 <= i < v.len() ==> new_vars(v)[i].name == v[i].name@ && new_vars(v)[i].value == v[i].value@
            && new_vars(v)[i].var_ref == v[i].var_ref && !new_vars(v)[i].expanded
            && !new_vars(v)[i].loaded && new_vars(v)[i].children.len() == 0,
        new_scopes(s).len() == s.len(),
        0 <= i < s.len() ==> new_scopes(s)[i].name == s[i].name@ && new_scopes(s)[i].var_ref
            == s[i].var_ref && !new_scopes(s)[i].loaded && new_scopes(s)[i].expanded == (i == 0),
{
}

/// A value of up to 120 characters is shown whole; of a longer one those are shown, and an ellipsis.
pub proof fn law_long_values_are_cut(v: Seq<char>)
    ensures
        v.len() <= 120 ==> shown_value(v) == v,
        v.len() > 120 ==> shown_value(v) == v.take(120).push('\u{2026}'),
{
    reveal_strlit("\u{2026}");
    assert("\u{2026}"@ =~= seq!['\u{2026}']);
    if v.len() > 120 {
        assert(shown_value(v) =~= v.take(120).push('\u{2026}'));
    }
}

/// Whether a row shows a variable: its name and its value, and whether it can be opened and is.
pub open spec fn shows_var(r: VarRowView, v: VarTree, depth: int) -> bool {
    &&& r.name == v.name
    &&& r.value == Some(shown_value(v.value))
    &&& r.var_ref == v.var_ref
    &&& r.expandable == (v.var_ref > 0)
    &&& r.expanded == v.expanded
    &&& r.depth == depth
}

/// Whether every variable has its row, and those below an open one have theirs, one step further
/// in.
pub open spec fn all_shown(rows: Seq<VarRowView>, vars: Seq<VarTree>, depth: int, k: int) -> bool
    decreases vars,
{
    forall|i: int|
        k <= i < vars.len() ==> (exists|j: int|
            0 <= j < rows.len() && shows_var(#[trigger] rows[j], vars[i], depth)) && (
        #[trigger] vars[i].expanded ==> 0 <= i < vars.len() && all_shown(
            rows,
            vars[i].children,
            depth + 1,
            0,
        ))
}

proof fn lemma_shown_in_more(
    a: Seq<VarRowView>,
    rows: Seq<VarRowView>,
    b: Seq<VarRowView>,
    vars: Seq<VarTree>,
    depth: int,
    k: int,
)
    requires
        all_shown(rows, vars, depth, k),
        0 <= k,
    ensures
        all_shown(a + rows + b, vars, depth, k),
    decreases vars,
{
    let all = a + rows + b;
    assert forall|i: int| k <= i < vars.len() implies (exists|j: int|
        0 <= j < all.len() && shows_var(#[trigger] all[j], vars[i], depth)) && (
    #[trigger] vars[i].expanded ==> 0 <= i < vars.len() && all_shown(
        all,
        vars[i].children,
        depth + 1,
        0,
    )) by {
        let open = vars[i].expanded;
        let j = choose|j: int| 0 <= j < rows.len() && shows_var(#[trigger] rows[j], vars[i], depth);
        assert(all[a.len() + j] == rows[j]);
        if open {
            lemma_shown_in_more(a, rows, b, vars[i].children, depth + 1, 0);
        }
    }
}

proof fn lemma_vars_shown(vars: Seq<VarTree>, depth: usize, k: int, span: int)
    requires
        0 <= k <= vars.len(),
        tall(vars) <= span,
        depth + span <= usize::MAX,
    ensures
        all_shown(var_rows(vars, depth, k), vars, depth as int, k),
    decreases vars, vars.len() - k,
{
    if k < vars.len() {
        let v = vars[k];
        let all = var_rows(vars, depth, k);
        let rest = var_rows(vars, depth, k + 1);
        let own = VarRowView {
            depth,
            name: v.name,
            value: Some(shown_value(v.value)),
            var_ref: v.var_ref,
            expandable: v.var_ref > 0,
            expanded: v.expanded,
        };
        let below = if v.expanded {
            var_rows(v.children, deeper(depth), 0)
        } else {
            Seq::empty()
        };
        assert(all =~= seq![own] + below + rest);
        lemma_vars_shown(vars, depth, k + 1, span);
        lemma_shown_in_more(seq![own] + below, rest, Seq::empty(), vars, depth as int, k + 1);
        assert(seq![own] + below + rest + Seq::<VarRowView>::empty() =~= all);
        lemma_tall(vars, k);
        if v.expanded {
            assert(deeper(depth) == depth + 1);
            lemma_vars_shown(v.children, deeper(depth), 0, span - 1);
            lemma_shown_in_more(seq![own], below, rest, v.children, depth + 1, 0);
        }
        assert(all[0] == own);
        let d = depth as int;
        assert forall|i: int| k <= i < vars.len() implies (exists|j: int|
            0 <= j < all.len() && shows_var(#[trigger] all[j], vars[i], d)) && (
        #[trigger] vars[i].expanded ==> 0 <= i < vars.len() && all_shown(
            all,
            vars[i].children,
            d + 1,
            0,
        )) by {
            if i == k {
                assert(shows_var(all[0], vars[i], d));
            } else {
                assert(all_shown(all, vars, d, k + 1));
                let open = vars[i].expanded;
            }
        }
        assert(all_shown(all, vars, d, k));
    }
}

/// How many levels of variables there are.
pub open spec fn tall(vars: Seq<VarTree>) -> int
    decreases vars,
{
    if vars.len() == 0 {
        0
    } else {
        tall_to(vars, vars.len() as int)
    }
}

/// How many levels of variables there are among the first `n`.
pub open spec fn tall_to(vars: Seq<VarTree>, n: int) -> int
    decreases vars, n,
{
    if n <= 0 || n > vars.len() {
        0
    } else {
        let before = tall_to(vars, n - 1);
        let own = 1 + (if vars[n - 1].children.len() == 0 {
            0
        } else {
            tall_to(vars[n - 1].children, vars[n - 1].children.len() as int)
        });
        if before >= own {
            before
        } else {
            own
        }
    }
}

proof fn lemma_tall_to(vars: Seq<VarTree>, n: int, k: int)
    requires
        0 <= k < n <= vars.len(),
    ensures
        tall_to(vars, n) >= 1 + tall(vars[k].children),
    decreases n,
{
    if k < n - 1 {
        lemma_tall_to(vars, n - 1, k);
    }
}

proof fn lemma_tall_counts(vars: Seq<VarTree>, n: int)
    ensures
        tall_to(vars, n) >= 0,
    decreases n,
{
    if n > 0 {
        lemma_tall_counts(vars, n - 1);
    }
}

proof fn lemma_tall(vars: Seq<VarTree>, k: int)
    requires
        0 <= k < vars.len(),
    ensures
        tall(vars) >= 1 + tall(vars[k].children),
        tall(vars[k].children) >= 0,
{
    lemma_tall_to(vars, vars.len() as int, k);
    lemma_tall_counts(vars[k].children, vars[k].children.len() as int);
}

/// Every variable has a row with its name and its value; below an open one stand those that it
/// holds, one step further in.
pub proof fn law_variables_have_their_rows(vars: Seq<VarTree>)
    requires
        tall(vars) < usize::MAX,
    ensures
        all_shown(var_rows(vars, 1, 0), vars, 1, 0),
{
    lemma_vars_shown(vars, 1, 0, tall(vars));
}

/// Where nothing is open there is one row for each variable, in order.
pub proof fn law_closed_variables_have_a_row_each(vars: Seq<VarTree>, depth: usize, k: int)
    requires
        0 <= k <= vars.len(),
        forall|i: int| 0 <= i < vars.len() ==> !(#[trigger] vars[i]).expanded,
    ensures
        var_rows(vars, depth, k).len() == vars.len() - k,
        forall|i: int|
            k <= i < vars.len() ==> #[trigger] var_rows(vars, depth, k)[i - k].name == vars[i].name,
    decreases vars.len() - k,
{
    if k < vars.len() {
        law_closed_variables_have_a_row_each(vars, depth, k + 1);
        assert(!vars[k].expanded);
        let all = var_rows(vars, depth, k);
        let rest = var_rows(vars, depth, k + 1);
        assert forall|i: int| k <= i < vars.len() implies #[trigger] all[i - k].name == vars[i].name by {
            if i > k {
                assert(all[i - k] == rest[i - (k + 1)]);
            }
        }
    }
}

/// A row of a variable opens and closes it, and shows its name and, behind an equals sign, its
/// value; a scope has no value.
pub proof fn law_rows_show_names_and_values(v: VarRowView, value: Seq<char>)
    ensures
        var_row(v).act == RowAct::ToggleVar(v.var_ref),
        v.value is None ==> var_row(v).pieces.last() == Piece::Name(v.name),
        v.value == Some(value) ==> ({
            let p = var_row(v).pieces;
            &&& p.len() >= 3
            &&& p.last() == Piece::Text(value)
            &&& p[p.len() - 3] == Piece::Name(v.name)
        }),
        v.expandable ==> var_row(v).pieces[1] == Piece::<Seq<char>>::Chevron(v.expanded),
        !v.expandable ==> !(var_row(v).pieces[0] is Chevron) && !(var_row(v).pieces[1] is Chevron),
{
}

/// The frames of a stopped program are shown in order below their heading, each with its name, and
/// pressing one selects it.
pub proof fn law_frames_are_shown(
    frames: Seq<StackFrame>,
    scopes: Seq<ScopeTree>,
    open: bool,
    i: int,
)
    requires
        0 <= i < frames.len(),
    ensures
        ({
            let rows = panel_rows(Session::Stopped, frames, scopes, true, open);
            &&& rows[0].act is ToggleCallStack
            &&& rows[1 + i].act == RowAct::SelectFrame(frames[i].id)
            &&& rows[1 + i].pieces[1] == Piece::Text(frames[i].name@)
            &&& rows[1 + frames.len() as int].act is ToggleVariables
        }),
        ({
            let rows = panel_rows(Session::Stopped, frames, scopes, false, open);
            rows[0].act is ToggleCallStack && rows[1].act is ToggleVariables
        }),
        panel_rows(Session::Stopped, frames, scopes, true, false).len() == frames.len() + 2,
        panel_rows(Session::Stopped, frames, scopes, true, true).len() == frames.len() + 2 + scope_rows(
            scopes,
            0,
        ).len(),
        panel_rows(Session::Running, frames, scopes, true, open).len() == 0,
        panel_rows(Session::Idle, frames, scopes, true, open).len() == 0,
{
}

/// A frame tells the file and the line that it stands at.
pub proof fn law_frames_tell_their_place(f: StackFrame, dir: Seq<char>, name: Seq<char>)
    requires
        f.path is Some,
        f.path->0@ == crate::paths::joined_path(dir, name),
        crate::workspace::is_name(name),
        name != "."@,
        name != ".."@,
    ensures
        frame_row(f).pieces.len() == 3,
        frame_row(f).pieces[2] == Piece::Dim(
            seq![' ', ' ', ' '] + name + seq![':'] + signed_decimal(f.line as int),
        ),
{
    reveal_strlit("   ");
    reveal_strlit(":");
    crate::paths::law_joined_name_is_last(dir, name);
    assert("   "@ =~= seq![' ', ' ', ' ']);
    assert(":"@ =~= seq![':']);
}

/// The scopes whose variables are still to be asked for are those that are open and not loaded.
pub proof fn law_open_scopes_are_asked_for(scopes: Seq<ScopeTree>, n: int)
    requires
        0 <= n <= scopes.len(),
    ensures
        forall|i: int|
            0 <= i < n && (#[trigger] scopes[i]).expanded && !scopes[i].loaded ==> pending_refs(
                scopes,
                n,
            ).contains(scopes[i].var_ref),
        forall|k: int|
            0 <= k < pending_refs(scopes, n).len() ==> exists|i: int|
                0 <= i < n && (#[trigger] scopes[i]).expanded && !scopes[i].loaded
                    && scopes[i].var_ref == #[trigger] pending_refs(scopes, n)[k],
    decreases n,
{
    if n > 0 {
        law_open_scopes_are_asked_for(scopes, n - 1);
        let rest = pending_refs(scopes, n - 1);
        let all = pending_refs(scopes, n);
        assert(forall|k: int| 0 <= k < rest.len() ==> all[k] == rest[k]);
        assert forall|i: int| 0 <= i < n && (#[trigger] scopes[i]).expanded && !scopes[i].loaded implies all.contains(
            scopes[i].var_ref,
        ) by {
            if i < n - 1 {
                let k = choose|k: int| 0 <= k < rest.len() && rest[k] == scopes[i].var_ref;
                assert(all[k] == scopes[i].var_ref);
            } else {
                assert(all[all.len() - 1] == scopes[i].var_ref);
            }
        }
        assert forall|k: int| 0 <= k < all.len() implies exists|i: int|
            0 <= i < n && (#[trigger] scopes[i]).expanded && !scopes[i].loaded && scopes[i].var_ref
                == #[trigger] all[k] by {
            if k < rest.len() {
                assert(all[k] == rest[k]);
            } else {
                assert(scopes[n - 1].expanded);
            }
        }
    }
}

/// Opening what is closed and not loaded asks for what it holds; nothing else does.
pub proof fn law_opening_asks_once(v: VarTree)
    ensures
        !v.expanded && !v.loaded ==> load_of(v) == Some(v.var_ref),
        v.expanded || v.loaded ==> load_of(v) is None,
{
}

/// The first button goes on with a stopped program, pauses a running one and starts one where none
/// is; the others step over, in and out, stop, start anew and attach.
pub proof fn law_buttons_do_what_they_show(session: Session, selected: usize)
    ensures
        button_intent(0, Session::Stopped, selected) is DebugContinue,
        button_intent(0, Session::Running, selected) is DebugPause,
        button_intent(0, Session::Idle, selected) == (Intent::<String>::DebugStart { config: selected }),
        button_intent(1, session, selected) is DebugStepOver,
        button_intent(2, session, selected) is DebugStepIn,
        button_intent(3, session, selected) is DebugStepOut,
        button_intent(4, session, selected) is DebugStop,
        button_intent(5, session, selected) == (Intent::<String>::DebugStart { config: selected }),
        button_intent(6, session, selected) is DebugAttachProcess,
{
}

} // verus!
