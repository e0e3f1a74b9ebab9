//! The panel of the file tree: the field in which a name is typed for a new or a renamed
//! entry.
use vstd::prelude::*;

use crate::paths::join;
use crate::paths::joined_path;
use crate::paths::parent;
use crate::paths::parent_of;
use crate::text::opt_view;
use crate::text::same;
use crate::text::trim;
use crate::text::trimmed;
use crate::workspace::deeper;
use crate::workspace::opened;
use crate::workspace::Disk;
use crate::workspace::NodeView;
use crate::workspace::Workspace;

verus! {

/// An entry whose name is typed.
pub struct PendingCreate {
    pub is_dir: bool,
    /// The folder it is in.
    pub parent: String,
    /// The row of the tree at which the field stands.
    pub row: usize,
    pub depth: usize,
    /// The path that is renamed; none for a new entry.
    pub rename_from: Option<String>,
}

/// An entry whose name is typed, by its contents.
pub struct PendingView {
    pub is_dir: bool,
    pub parent: Seq<char>,
    pub row: usize,
    pub depth: usize,
    pub rename_from: Option<Seq<char>>,
}

impl View for PendingCreate {
    type V = PendingView;

    open spec fn view(&self) -> PendingView {
        PendingView {
            is_dir: self.is_dir,
            parent: self.parent@,
            row: self.row,
            depth: self.depth,
            rename_from: opt_view(self.rename_from),
        }
    }
}

/// The contents of what may be typed.
pub open spec fn pending_view(o: Option<PendingCreate>) -> Option<PendingView> {
    match o {
        Some(p) => Some(p@),
        None => None,
    }
}

/// The folder of a path, or the root.
pub open spec fn folder_of(path: Seq<char>, root: Seq<char>) -> Seq<char> {
    match parent_of(path) {
        Some(p) => p,
        None => root,
    }
}

fn folder(path: &str, root: &str) -> (r: String)
    ensures
        r@ == folder_of(path@, root@),
{
    match parent(path) {
        Some(p) => p,
        None => root.to_owned(),
    }
}

/// What is typed for a new entry: inside the selected folder, or beside the selected file, or
/// in the root where nothing is selected.
pub open spec fn create_at(rows: Seq<NodeView>, root: Seq<char>, selected: Option<usize>, is_dir: bool) -> PendingView {
    match selected {
        Some(i) => if i < rows.len() {
            let n = rows[i as int];
            if n.is_dir {
                PendingView {
                    is_dir,
                    parent: n.path,
                    row: (i + 1) as usize,
                    depth: deeper(n.depth),
                    rename_from: None,
                }
            } else {
                PendingView {
                    is_dir,
                    parent: folder_of(n.path, root),
                    row: i,
                    depth: n.depth,
                    rename_from: None,
                }
            }
        } else {
            PendingView { is_dir, parent: root, row: 0, depth: 0, rename_from: None }
        },
        None => PendingView { is_dir, parent: root, row: 0, depth: 0, rename_from: None },
    }
}

/// What a typed name leads to.
pub enum Commit<T> {
    Nothing,
    /// A path is renamed; documents of it get the new path and name.
    Rename { from: T, to: T, name: T },
    /// An entry is made; a file is opened.
    Create { parent: T, path: T, is_dir: bool },
}

/// The contents of what a typed name leads to.
pub open spec fn commit_view(c: Commit<String>) -> Commit<Seq<char>> {
    match c {
        Commit::Nothing => Commit::Nothing,
        Commit::Rename { from, to, name } => Commit::Rename { from: from@, to: to@, name: name@ },
        Commit::Create { parent, path, is_dir } => Commit::Create {
            parent: parent@,
            path: path@,
            is_dir,
        },
    }
}

/// What a typed text leads to. A blank one, and a name that stays, lead to nothing.
pub open spec fn commit_of(pending: Option<PendingView>, typed: Seq<char>) -> Commit<Seq<char>> {
    let name = trimmed(typed);
    match pending {
        None => Commit::Nothing,
        Some(p) => if name.len() == 0 {
            Commit::Nothing
        } else {
            let path = joined_path(p.parent, name);
            match p.rename_from {
                Some(from) => if path == from {
                    Commit::Nothing
                } else {
                    Commit::Rename { from, to: path, name }
                },
                None => Commit::Create { parent: p.parent, path, is_dir: p.is_dir },
            }
        },
    }
}

/// The panel.
pub struct ExplorerPanel {
    pub creating: Option<PendingCreate>,
}

impl ExplorerPanel {
    /// A panel in which nothing is typed.
    pub fn new() -> (r: ExplorerPanel)
        ensures
            r.creating is None,
    {
        ExplorerPanel { creating: None }
    }

    /// Opens the field for a new entry. A selected folder is opened in the tree. Gives back
    /// what the empty field shows.
    pub fn begin_create(
        &mut self,
        is_dir: bool,
        selected: Option<usize>,
        ws: &mut Workspace,
        disk: &Disk,
    ) -> (r: String)
        requires
            old(ws).tree.wf(),
        ensures
            pending_view(final(self).creating) == Some(
                create_at(old(ws).tree.rows(), old(ws).tree.root@, selected, is_dir),
            ),
            r@ == (if is_dir {
                " folder name"@
            } else {
                " file name"@
            }),
            final(ws).tree.wf(),
            final(ws).tree.root == old(ws).tree.root,
            final(ws).documents == old(ws).documents,
            final(ws).active == old(ws).active,
            match selected {
                Some(i) => if i < old(ws).tree.rows().len() && old(ws).tree.rows()[i as int].is_dir {
                    let path = old(ws).tree.rows()[i as int].path;
                    if old(ws).tree.state().expanded.contains(path) {
                        final(ws).tree == old(ws).tree
                    } else {
                        final(ws).tree.state() == opened(old(ws).tree.state(), path)
                            && final(ws).tree.shows(*disk)
                    }
                } else {
                    final(ws).tree == old(ws).tree
                },
                None => final(ws).tree == old(ws).tree,
            },
    {
        let mut parent = ws.tree.root.as_str().to_owned();
        let mut row: usize = 0;
        let mut depth: usize = 0;
        if let Some(i) = selected {
            if i < ws.tree.nodes.len() {
                assert(ws.tree.rows()[i as int] == ws.tree.nodes@[i as int]@);
                let path = ws.tree.nodes[i].path.as_str().to_owned();
                let at: usize = ws.tree.nodes[i].depth;
                if ws.tree.nodes[i].is_dir {
                    ws.tree.expand(path.as_str(), disk);
                    parent = path;
                    row = i + 1;
                    depth = if at < usize::MAX {
                        at + 1
                    } else {
                        at
                    };
                } else {
                    parent = folder(path.as_str(), ws.tree.root.as_str());
                    row = i;
                    depth = at;
                }
            }
        }
        self.creating = Some(PendingCreate { is_dir, parent, row, depth, rename_from: None });
        if is_dir {
            " folder name".to_owned()
        } else {
            " file name".to_owned()
        }
    }

    /// Opens the field in place of a row, to rename it. Gives back what the field holds.
    pub fn begin_rename(&mut self, idx: usize, ws: &Workspace) -> (r: Option<String>)
        ensures
            if idx < ws.tree.rows().len() {
                let n = ws.tree.rows()[idx as int];
                &&& opt_view(r) == Some(n.name)
                &&& pending_view(final(self).creating) == Some(
                    PendingView {
                        is_dir: n.is_dir,
                        parent: folder_of(n.path, ws.tree.root@),
                        row: idx,
                        depth: n.depth,
                        rename_from: Some(n.path),
                    },
                )
            } else {
                r is None && *final(self) == *old(self)
            },
    {
        if idx >= ws.tree.nodes.len() {
            return None;
        }
        assert(ws.tree.rows()[idx as int] == ws.tree.nodes@[idx as int]@);
        let n = &ws.tree.nodes[idx];
        self.creating = Some(
            PendingCreate {
                is_dir: n.is_dir,
                parent: folder(n.path.as_str(), ws.tree.root.as_str()),
                row: idx,
                depth: n.depth,
                rename_from: Some(n.path.as_str().to_owned()),
            },
        );
        Some(n.name.as_str().to_owned())
    }

    /// Closes the field and says what the typed text leads to.
    pub fn commit_create(&mut self, typed: &str) -> (r: Commit<String>)
        ensures
            final(self).creating is None,
            commit_view(r) == commit_of(pending_view(old(self).creating), typed@),
    {
        let mut taken: Option<PendingCreate> = None;
        std::mem::swap(&mut taken, &mut self.creating);
        let name = trim(typed);
        match taken {
            None => Commit::Nothing,
            Some(p) => {
                if name.as_str().is_empty() {
                    return Commit::Nothing;
                }
                let path = join(p.parent.as_str(), name.as_str());
                match p.rename_from {
                    Some(from) => {
                        if same(path.as_str(), from.as_str()) {
                            Commit::Nothing
                        } else {
                            Commit::Rename { from, to: path, name }
                        }
                    },
                    None => Commit::Create { parent: p.parent, path, is_dir: p.is_dir },
                }
            },
        }
    }

    /// Closes the field.
    pub fn cancel_create(&mut self)
        ensures
            final(self).creating is None,
    {
        self.creating = None;
    }
}

/// A new entry goes into the selected folder, right below it and one step further in; beside a
/// selected file into the folder of that; and without a selection into the workspace.
pub proof fn law_new_entries_go_to_the_selection(
    rows: Seq<NodeView>,
    root: Seq<char>,
    i: usize,
    is_dir: bool,
)
    requires
        i < rows.len() <= usize::MAX,
        rows[i as int].depth < usize::MAX,
    ensures
        rows[i as int].is_dir ==> ({
            let p = create_at(rows, root, Some(i), is_dir);
            p.parent == rows[i as int].path && p.row == i + 1 && p.depth == rows[i as int].depth + 1
                && p.is_dir == is_dir && p.rename_from is None
        }),
        !rows[i as int].is_dir ==> ({
            let p = create_at(rows, root, Some(i), is_dir);
            p.row == i && p.depth == rows[i as int].depth && p.is_dir == is_dir && p.rename_from is None
                && (parent_of(rows[i as int].path) matches Some(d) ==> p.parent == d)
        }),
        ({
            let p = create_at(rows, root, None, is_dir);
            p.parent == root && p.row == 0 && p.depth == 0 && p.is_dir == is_dir
                && p.rename_from is None
        }),
{
}

/// What was typed, without the white space around it, names the entry in its folder; nothing is
/// done where nothing was typed, or where a name stays as it was.
pub proof fn law_typed_names_are_taken(p: PendingView, typed: Seq<char>, name: Seq<char>)
    requires
        trimmed(typed) == name,
        name.len() > 0,
    ensures
        p.rename_from is None ==> commit_of(Some(p), typed) == (Commit::<Seq<char>>::Create {
            parent: p.parent,
            path: joined_path(p.parent, name),
            is_dir: p.is_dir,
        }),
        p.rename_from matches Some(from) ==> if from == joined_path(p.parent, name) {
            commit_of(Some(p), typed) is Nothing
        } else {
            commit_of(Some(p), typed) == (Commit::<Seq<char>>::Rename {
                from,
                to: joined_path(p.parent, name),
                name,
            })
        },
        commit_of(None, typed) is Nothing,
        commit_of(Some(p), Seq::empty()) is Nothing,
{
    crate::text::law_trimming_takes_white_space_only(Seq::empty());
    assert(crate::text::is_blank(Seq::empty()));
}

} // verus!
