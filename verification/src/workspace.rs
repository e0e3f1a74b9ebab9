//! The open documents and the tree of files.
//!
//! The tree is a flat list of rows with a depth, made anew when a folder opens or closes.
use vstd::prelude::*;

use crate::paths::base_name;
use crate::paths::file_name;
use crate::paths::is_under;
use crate::paths::join;
use crate::paths::joined_path;
use crate::paths::starts_with;
use crate::search::any_matches;
use crate::search::Filters;
use crate::text::before;
use crate::text::chars_of;
use crate::text::from_utf8;
use crate::text::from_utf8_lossy;
use crate::text::less;
use crate::text::list_holds;
use crate::text::lossy_text;
use crate::text::lowercase;
use crate::text::opt_view;
use crate::text::replace;
use crate::text::replaced;
use crate::text::same;
use crate::text::to_lower;
use crate::text::views;

verus! {

/// How many bytes at the front of a file are looked at.
pub const SAMPLE_BYTES: usize = 8192;

/// Whether a character has the Unicode property of a control character.
pub open spec fn is_control(c: char) -> bool {
    c as int <= 0x1F || 0x7F <= c as int <= 0x9F
}

/// Whether a character is a control character other than a tab or a line break.
pub open spec fn is_odd(c: char) -> bool {
    is_control(c) && c != '\t' && c != '\n' && c != '\r'
}

fn odd(c: char) -> (r: bool)
    ensures
        r == is_odd(c),
{
    let u: u32 = c as u32;
    (u <= 0x1F || (0x7F <= u && u <= 0x9F)) && c != '\t' && c != '\n' && c != '\r'
}

/// The number of odd characters among the first `n`.
pub open spec fn odd_count(t: Seq<char>, n: int) -> int
    decreases n,
{
    if n <= 0 {
        0
    } else {
        odd_count(t, n - 1) + (if is_odd(t[n - 1]) {
            1int
        } else {
            0
        })
    }
}

/// The front of a file.
pub open spec fn sample_of(bytes: Seq<u8>) -> Seq<u8> {
    bytes.take(
        if bytes.len() <= SAMPLE_BYTES {
            bytes.len() as int
        } else {
            SAMPLE_BYTES as int
        },
    )
}

/// Whether a file cannot be shown as text: a zero byte in front, no UTF-8, or more than a
/// tenth of odd characters in front. Where only the cut at the front breaks a character, the
/// whole file counts.
pub open spec fn looks_binary(bytes: Seq<u8>) -> bool {
    let sample = sample_of(bytes);
    if sample.contains(0u8) {
        true
    } else if !vstd::utf8::valid_utf8(sample) {
        !vstd::utf8::valid_utf8(bytes)
    } else {
        let t = vstd::utf8::decode_utf8(sample);
        t.len() > 0 && odd_count(t, t.len() as int) * 100 / (t.len() as int) > 10
    }
}

/// Whether a file cannot be shown as text.
pub fn is_binary(bytes: &Vec<u8>) -> (r: bool)
    ensures
        r == looks_binary(bytes@),
{
    let n: usize = if bytes.len() <= SAMPLE_BYTES {
        bytes.len()
    } else {
        SAMPLE_BYTES
    };
    let ghost whole = sample_of(bytes@);
    let mut sample: Vec<u8> = Vec::new();
    let mut k: usize = 0;
    while k < n
        invariant
            k <= n <= bytes@.len(),
            whole == sample_of(bytes@),
            n == whole.len(),
            sample@ == whole.take(k as int),
            forall|i: int| 0 <= i < k ==> whole[i] != 0u8,
        decreases n - k,
    {
        if bytes[k] == 0 {
            assert(whole[k as int] == 0u8);
            assert(whole.contains(0u8));
            return true;
        }
        sample.push(bytes[k]);
        assert(whole.take(k + 1) =~= whole.take(k as int).push(whole[k as int]));
        k = k + 1;
    }
    assert(whole.take(k as int) =~= whole);
    match from_utf8(&sample) {
        None => from_utf8(bytes).is_none(),
        Some(text) => {
            let v = chars_of(text.as_str());
            let len: usize = v.len();
            if len == 0 {
                return false;
            }
            let mut count: usize = 0;
            let mut i: usize = 0;
            while i < len
                invariant
                    len == v@.len(),
                    i <= len,
                    count <= i,
                    count == odd_count(v@, i as int),
                decreases len - i,
            {
                if odd(v[i]) {
                    count = count + 1;
                }
                i = i + 1;
            }
            let share: u128 = (count as u128) * 100 / (len as u128);
            share > 10
        },
    }
}

/// A row of the tree.
pub struct FileNode {
    pub path: String,
    pub name: String,
    pub is_dir: bool,
    pub depth: usize,
    pub expanded: bool,
    /// Whether git ignores it, or a folder above it.
    pub ignored: bool,
}

/// The contents of a row.
pub struct NodeView {
    pub path: Seq<char>,
    pub name: Seq<char>,
    pub is_dir: bool,
    pub depth: usize,
    pub expanded: bool,
    pub ignored: bool,
}

impl View for FileNode {
    type V = NodeView;

    open spec fn view(&self) -> NodeView {
        NodeView {
            path: self.path@,
            name: self.name@,
            is_dir: self.is_dir,
            depth: self.depth,
            expanded: self.expanded,
            ignored: self.ignored,
        }
    }
}

/// The contents of rows.
pub open spec fn node_views(v: Seq<FileNode>) -> Seq<NodeView> {
    Seq::new(v.len(), |i: int| v[i]@)
}

/// What a folder holds, as it was read.
pub struct Entry {
    pub name: String,
    pub is_dir: bool,
}

/// An entry by its contents: its name, and whether it is a folder.
pub type EntryView = (Seq<char>, bool);

/// The contents of entries.
pub open spec fn entry_views(v: Seq<Entry>) -> Seq<EntryView> {
    Seq::new(v.len(), |i: int| (v[i].name@, v[i].is_dir))
}

/// A folder as it was read. A folder that cannot be read has none.
pub struct Listing {
    pub dir: String,
    pub entries: Vec<Entry>,
}

/// What was read of the disk, and what is hidden of it.
pub struct Disk {
    /// The root and every open folder.
    pub listings: Vec<Listing>,
    pub excludes: Filters,
    pub hide_gitignored: bool,
}

/// The entries of a folder; none where it was not read.
pub open spec fn entries_of(listings: Seq<Listing>, dir: Seq<char>, k: int) -> Seq<EntryView>
    decreases listings.len() - k,
{
    if k >= listings.len() {
        Seq::empty()
    } else if listings[k].dir@ == dir {
        entry_views(listings[k].entries@)
    } else {
        entries_of(listings, dir, k + 1)
    }
}

/// The length of the longest path among the first `n` folders that were read.
pub open spec fn longest(listings: Seq<Listing>, n: int) -> int
    decreases n,
{
    if n <= 0 {
        0
    } else if listings[n - 1].dir@.len() > longest(listings, n - 1) {
        listings[n - 1].dir@.len() as int
    } else {
        longest(listings, n - 1)
    }
}

/// Whether a name is noise of version control or of the system.
pub open spec fn is_noise(name: Seq<char>) -> bool {
    name == ".git"@ || name == ".svn"@ || name == ".hg"@ || name == "CVS"@ || name == ".DS_Store"@
        || name == "Thumbs.db"@
}

fn noise(name: &str) -> (r: bool)
    ensures
        r == is_noise(name@),
{
    same(name, ".git") || same(name, ".svn") || same(name, ".hg") || same(name, "CVS") || same(
        name,
        ".DS_Store",
    ) || same(name, "Thumbs.db")
}

/// Whether one entry is shown before another: folders first, then by name, whatever the case.
pub open spec fn comes_first(a: EntryView, b: EntryView) -> bool {
    (a.1 && !b.1) || (a.1 == b.1 && less(lowercase(a.0), lowercase(b.0)))
}

/// Where an entry goes among sorted ones: behind those that it does not come before.
pub open spec fn entry_place(sorted: Seq<EntryView>, e: EntryView, k: int) -> int
    decreases sorted.len() - k,
{
    if k < sorted.len() && !comes_first(e, sorted[k]) {
        entry_place(sorted, e, k + 1)
    } else {
        k
    }
}

/// The entries without noise, folders first and by name; equal ones stay in order.
pub open spec fn arranged(entries: Seq<EntryView>) -> Seq<EntryView>
    decreases entries.len(),
{
    if entries.len() == 0 {
        Seq::empty()
    } else {
        let rest = arranged(entries.drop_last());
        let e = entries.last();
        if is_noise(e.0) {
            rest
        } else {
            rest.insert(entry_place(rest, e, 0), e)
        }
    }
}

pub(crate) fn goes_first(a: &Entry, b: &Entry) -> (r: bool)
    ensures
        r == comes_first((a.name@, a.is_dir), (b.name@, b.is_dir)),
{
    if a.is_dir != b.is_dir {
        a.is_dir
    } else {
        let x = to_lower(a.name.as_str());
        let y = to_lower(b.name.as_str());
        before(x.as_str(), y.as_str())
    }
}

fn arrange(entries: &Vec<Entry>) -> (r: Vec<Entry>)
    ensures
        entry_views(r@) == arranged(entry_views(entries@)),
{
    let ghost all = entry_views(entries@);
    let mut out: Vec<Entry> = Vec::new();
    assert(entry_views(out@) =~= Seq::<EntryView>::empty());
    let mut k: usize = 0;
    while k < entries.len()
        invariant
            k <= entries@.len(),
            all == entry_views(entries@),
            entry_views(out@) == arranged(all.take(k as int)),
        decreases entries.len() - k,
    {
        assert(all.take(k + 1).drop_last() =~= all.take(k as int));
        let e = &entries[k];
        let ghost ev = (e.name@, e.is_dir);
        assert(all.take(k + 1).last() == ev);
        if !noise(e.name.as_str()) {
            let ghost sorted = entry_views(out@);
            let n: usize = out.len();
            let mut p: usize = 0;
            while p < n && !goes_first(e, &out[p])
                invariant
                    n == out@.len(),
                    p <= n,
                    ev == (e.name@, e.is_dir),
                    sorted == entry_views(out@),
                    entry_place(sorted, ev, p as int) == entry_place(sorted, ev, 0),
                decreases n - p,
            {
                assert(sorted[p as int] == (out@[p as int].name@, out@[p as int].is_dir));
                p = p + 1;
            }
            proof {
                if p < n {
                    assert(sorted[p as int] == (out@[p as int].name@, out@[p as int].is_dir));
                }
            }
            out.insert(p, Entry { name: e.name.as_str().to_owned(), is_dir: e.is_dir });
            assert(entry_views(out@) =~= sorted.insert(p as int, ev));
        }
        k = k + 1;
    }
    assert(all.take(k as int) =~= all);
    out
}

/// Whether a path is ignored: it or a folder above it is in the list.
pub open spec fn is_ignored(ignored: Seq<Seq<char>>, path: Seq<char>) -> bool {
    exists|i: int| 0 <= i < ignored.len() && is_under(path, #[trigger] ignored[i])
}

fn ignores(ignored: &Vec<String>, path: &str) -> (r: bool)
    ensures
        r == is_ignored(views(ignored@), path@),
{
    let ghost iv = views(ignored@);
    let mut k: usize = 0;
    while k < ignored.len()
        invariant
            k <= ignored@.len(),
            iv == views(ignored@),
            forall|i: int| 0 <= i < k ==> !is_under(path@, #[trigger] iv[i]),
        decreases ignored.len() - k,
    {
        assert(iv[k as int] == ignored@[k as int]@);
        if starts_with(path, ignored[k].as_str()) {
            assert(is_under(path@, iv[k as int]));
            return true;
        }
        k = k + 1;
    }
    false
}

/// Whether a path is hidden: it is ignored and ignored paths are hidden, or it is excluded.
pub open spec fn is_hidden(rel: Seq<char>, excludes: Filters, ignored: bool, hide: bool) -> bool {
    (hide && ignored) || !((excludes.includes().len() == 0 || any_matches(excludes.includes(), rel))
        && !any_matches(excludes.excludes(), rel))
}

/// Whether a path, relative and with forward slashes, is hidden.
pub fn should_hide(rel: &str, excludes: &Filters, gitignored: bool, hide_gitignored: bool) -> (r: bool)
    ensures
        r == is_hidden(rel@, *excludes, gitignored, hide_gitignored),
{
    (hide_gitignored && gitignored) || !excludes.allows(rel)
}

/// A path below the root, from that of its folder and its name.
pub open spec fn rel_below(rel: Seq<char>, name: Seq<char>) -> Seq<char> {
    if rel.len() == 0 {
        name
    } else {
        rel + "/"@ + name
    }
}

/// One level deeper.
pub open spec fn deeper(depth: usize) -> usize {
    if depth < usize::MAX {
        (depth + 1) as usize
    } else {
        depth
    }
}

/// What the tree shows: which folders are open, and which paths are ignored.
pub struct TreeState {
    pub expanded: Seq<Seq<char>>,
    pub ignored: Seq<Seq<char>>,
}

/// The rows of a folder's entries from the `k`-th on, each open folder followed by its own.
pub open spec fn rows_from(
    state: TreeState,
    disk: Disk,
    dir: Seq<char>,
    rel: Seq<char>,
    depth: usize,
    entries: Seq<EntryView>,
    k: int,
) -> Seq<NodeView>
    decreases longest(disk.listings@, disk.listings@.len() as int) - dir.len(), entries.len() - k,
{
    if k < 0 || k >= entries.len() {
        Seq::empty()
    } else {
        let (name, is_dir) = entries[k];
        let path = joined_path(dir, name);
        let below = rel_below(rel, name);
        let ignored = is_ignored(state.ignored, path);
        let rest = rows_from(state, disk, dir, rel, depth, entries, k + 1);
        if is_hidden(replaced(below, "\\"@, "/"@), disk.excludes, ignored, disk.hide_gitignored) {
            rest
        } else {
            let expanded = is_dir && state.expanded.contains(path);
            let own = seq![NodeView { path, name, is_dir, depth, expanded, ignored }];
            let inner = if expanded && dir.len() < path.len() && path.len() <= longest(
                disk.listings@,
                disk.listings@.len() as int,
            ) {
                rows_from(
                    state,
                    disk,
                    path,
                    below,
                    deeper(depth),
                    arranged(entries_of(disk.listings@, path, 0)),
                    0,
                )
            } else {
                Seq::empty()
            };
            own + inner + rest
        }
    }
}

/// Whether each row of a folder tells whether it is open, and no other row is.
pub open spec fn tell_open(rows: Seq<NodeView>, s: TreeState) -> bool {
    forall|i: int|
        0 <= i < rows.len() ==> (#[trigger] rows[i]).expanded == (rows[i].is_dir && s.expanded.contains(
            rows[i].path,
        ))
}

/// The rows of the whole tree.
pub open spec fn tree_rows(state: TreeState, disk: Disk, root: Seq<char>) -> Seq<NodeView> {
    rows_from(
        state,
        disk,
        root,
        Seq::empty(),
        0,
        arranged(entries_of(disk.listings@, root, 0)),
        0,
    )
}

fn find_entries(listings: &Vec<Listing>, dir: &str) -> (r: Vec<Entry>)
    ensures
        entry_views(r@) == arranged(entries_of(listings@, dir@, 0)),
{
    let n: usize = listings.len();
    let mut k: usize = 0;
    while k < n
        invariant
            n == listings@.len(),
            k <= n,
            entries_of(listings@, dir@, k as int) == entries_of(listings@, dir@, 0),
        decreases n - k,
    {
        if same(listings[k].dir.as_str(), dir) {
            return arrange(&listings[k].entries);
        }
        k = k + 1;
    }
    let none: Vec<Entry> = Vec::new();
    assert(entry_views(none@) =~= Seq::<EntryView>::empty());
    none
}

fn longest_path(listings: &Vec<Listing>) -> (r: usize)
    ensures
        r == longest(listings@, listings@.len() as int),
{
    let mut most: usize = 0;
    let mut k: usize = 0;
    while k < listings.len()
        invariant
            k <= listings@.len(),
            most == longest(listings@, k as int),
        decreases listings.len() - k,
    {
        let n: usize = chars_of(listings[k].dir.as_str()).len();
        if n > most {
            most = n;
        }
        k = k + 1;
    }
    most
}

fn add_node(nodes: &mut Vec<FileNode>, node: FileNode)
    ensures
        node_views(final(nodes)@) == node_views(old(nodes)@).push(node@),
{
    let ghost so_far = node_views(nodes@);
    let ghost nv = node@;
    nodes.push(node);
    assert(node_views(nodes@) =~= so_far.push(nv));
}

/// The tree of files below a root.
pub struct FileTree {
    pub root: String,
    pub nodes: Vec<FileNode>,
    /// The open folders.
    pub expanded_set: Vec<String>,
    /// The paths that git ignores.
    pub ignored_set: Vec<String>,
}

impl FileTree {
    /// Which folders are open, and which paths are ignored.
    pub open spec fn state(&self) -> TreeState {
        TreeState { expanded: views(self.expanded_set@), ignored: views(self.ignored_set@) }
    }

    /// The rows.
    pub open spec fn rows(&self) -> Seq<NodeView> {
        node_views(self.nodes@)
    }

    /// Whether the rows are those of what was read.
    pub open spec fn shows(&self, disk: Disk) -> bool {
        self.rows() == tree_rows(self.state(), disk, self.root@)
    }

    /// Whether the rows tell which folders are open.
    pub open spec fn tells(&self) -> bool {
        tell_open(self.rows(), self.state())
    }

    /// Whether no folder is listed as open twice, and the rows tell which are open.
    pub open spec fn wf(&self) -> bool {
        self.state().expanded.no_duplicates() && self.tells()
    }

    /// A tree with every folder closed.
    pub fn new(root: &str, ignored: Vec<String>, disk: &Disk) -> (r: FileTree)
        ensures
            r.wf(),
            r.root@ == root@,
            r.state() == (TreeState { expanded: Seq::empty(), ignored: views(ignored@) }),
            r.shows(*disk),
    {
        let mut t = FileTree {
            root: root.to_owned(),
            nodes: Vec::new(),
            expanded_set: Vec::new(),
            ignored_set: ignored,
        };
        assert(t.state().expanded =~= Seq::<Seq<char>>::empty());
        t.rebuild(disk);
        t
    }

    /// Makes the rows anew from what was read.
    pub fn rebuild(&mut self, disk: &Disk)
        ensures
            final(self).root == old(self).root,
            final(self).state() == old(self).state(),
            final(self).shows(*disk),
            final(self).tells(),
    {
        let mut nodes: Vec<FileNode> = Vec::new();
        assert(node_views(nodes@) =~= Seq::<NodeView>::empty());
        let entries = find_entries(&disk.listings, self.root.as_str());
        let limit: usize = longest_path(&disk.listings);
        proof {
            reveal_strlit("");
        }
        assert(""@ =~= Seq::<char>::empty());
        self.add_children(disk, limit, self.root.as_str(), "", 0, &entries, &mut nodes);
        let ghost all = tree_rows(self.state(), *disk, self.root@);
        assert(Seq::<NodeView>::empty() + all =~= all);
        self.nodes = nodes;
        proof {
            lemma_rows_tell_open(
                self.state(),
                *disk,
                self.root@,
                Seq::empty(),
                0,
                arranged(entries_of(disk.listings@, self.root@, 0)),
                0,
            );
        }
    }

    fn add_children(
        &self,
        disk: &Disk,
        limit: usize,
        dir: &str,
        rel: &str,
        depth: usize,
        entries: &Vec<Entry>,
        nodes: &mut Vec<FileNode>,
    )
        requires
            limit == longest(disk.listings@, disk.listings@.len() as int),
        ensures
            node_views(final(nodes)@) == node_views(old(nodes)@) + rows_from(
                self.state(),
                *disk,
                dir@,
                rel@,
                depth,
                entry_views(entries@),
                0,
            ),
        decreases limit - dir@.len(),
    {
        let ghost st = self.state();
        let ghost ev = entry_views(entries@);
        let ghost start = node_views(nodes@);
        let ghost all = rows_from(st, *disk, dir@, rel@, depth, ev, 0);
        let dir_len: usize = chars_of(dir).len();
        let mut k: usize = 0;
        while k < entries.len()
            invariant
                k <= entries@.len(),
                limit == longest(disk.listings@, disk.listings@.len() as int),
                st == self.state(),
                ev == entry_views(entries@),
                dir_len == dir@.len(),
                node_views(nodes@) + rows_from(st, *disk, dir@, rel@, depth, ev, k as int) == start
                    + all,
            decreases entries.len() - k,
        {
            let e = &entries[k];
            assert(ev[k as int] == (e.name@, e.is_dir));
            let ghost so_far = node_views(nodes@);
            let ghost rest = rows_from(st, *disk, dir@, rel@, depth, ev, k + 1);
            let path = join(dir, e.name.as_str());
            let below = below_path(rel, e.name.as_str());
            let ignored = ignores(&self.ignored_set, path.as_str());
            proof {
                reveal_strlit("\\");
            }
            let shown = replace(below.as_str(), "\\", "/");
            if !should_hide(shown.as_str(), &disk.excludes, ignored, disk.hide_gitignored) {
                let expanded = e.is_dir && list_holds(&self.expanded_set, path.as_str());
                let path_len: usize = chars_of(path.as_str()).len();
                let node = FileNode {
                    path: path.as_str().to_owned(),
                    name: e.name.as_str().to_owned(),
                    is_dir: e.is_dir,
                    depth,
                    expanded,
                    ignored,
                };
                let ghost own = node@;
                add_node(nodes, node);
                if expanded && dir_len < path_len && path_len <= limit {
                    let inner = find_entries(&disk.listings, path.as_str());
                    let down: usize = if depth < usize::MAX {
                        depth + 1
                    } else {
                        depth
                    };
                    self.add_children(
                        disk,
                        limit,
                        path.as_str(),
                        below.as_str(),
                        down,
                        &inner,
                        nodes,
                    );
                    let ghost iv = rows_from(
                        st,
                        *disk,
                        path@,
                        below@,
                        down,
                        entry_views(inner@),
                        0,
                    );
                    assert((so_far.push(own) + iv) + rest =~= so_far + (seq![own] + iv + rest));
                } else {
                    assert(so_far.push(own) + rest =~= so_far + (seq![own]
                        + Seq::<NodeView>::empty() + rest));
                }
            }
            k = k + 1;
        }
        assert(node_views(nodes@) + Seq::<NodeView>::empty() =~= node_views(nodes@));
    }

    /// Takes the paths that git ignores.
    pub fn refresh_ignored(&mut self, ignored: Vec<String>)
        ensures
            old(self).wf() ==> final(self).wf(),
            final(self).root == old(self).root,
            final(self).nodes == old(self).nodes,
            final(self).state() == (TreeState {
                expanded: old(self).state().expanded,
                ignored: views(ignored@),
            }),
    {
        self.ignored_set = ignored;
    }

    /// Makes the rows anew; the open folders stay open.
    pub fn refresh(&mut self, ignored: Vec<String>, disk: &Disk)
        ensures
            old(self).wf() ==> final(self).wf(),
            final(self).tells(),
            final(self).root == old(self).root,
            final(self).state() == (TreeState {
                expanded: old(self).state().expanded,
                ignored: views(ignored@),
            }),
            final(self).shows(*disk),
    {
        self.refresh_ignored(ignored);
        self.rebuild(disk);
    }

    /// Closes every folder.
    pub fn collapse_all(&mut self, disk: &Disk)
        ensures
            final(self).wf(),
            final(self).root == old(self).root,
            final(self).state() == (TreeState {
                expanded: Seq::empty(),
                ignored: old(self).state().ignored,
            }),
            final(self).shows(*disk),
    {
        self.expanded_set = Vec::new();
        assert(self.state().expanded =~= Seq::<Seq<char>>::empty());
        self.rebuild(disk);
    }

    /// Opens a folder; the rows are made anew only where it was closed.
    pub fn expand(&mut self, path: &str, disk: &Disk)
        requires
            old(self).wf(),
        ensures
            final(self).wf(),
            final(self).root == old(self).root,
            final(self).state() == opened(old(self).state(), path@),
            if old(self).state().expanded.contains(path@) {
                *final(self) == *old(self)
            } else {
                final(self).shows(*disk)
            },
    {
        if list_holds(&self.expanded_set, path) {
            return;
        }
        self.add_open(path);
        self.rebuild(disk);
    }

    fn add_open(&mut self, path: &str)
        requires
            old(self).state().expanded.no_duplicates(),
            !old(self).state().expanded.contains(path@),
        ensures
            final(self).state().expanded.no_duplicates(),
            final(self).root == old(self).root,
            final(self).nodes == old(self).nodes,
            final(self).state() == opened(old(self).state(), path@),
    {
        let ghost so_far = views(self.expanded_set@);
        self.expanded_set.push(path.to_owned());
        assert(views(self.expanded_set@) =~= so_far.push(path@));
    }

    /// Opens the folder of a row, or closes it.
    pub fn toggle(&mut self, idx: usize, disk: &Disk)
        requires
            old(self).wf(),
        ensures
            final(self).wf(),
            final(self).root == old(self).root,
            if idx >= old(self).nodes@.len() || !old(self).nodes@[idx as int].is_dir {
                *final(self) == *old(self)
            } else {
                final(self).state() == toggled(
                    old(self).state(),
                    old(self).nodes@[idx as int].path@,
                ) && final(self).shows(*disk)
            },
    {
        if idx >= self.nodes.len() {
            return;
        }
        if !self.nodes[idx].is_dir {
            return;
        }
        let path = self.nodes[idx].path.as_str().to_owned();
        let ghost pv = path@;
        let ghost so_far = views(self.expanded_set@);
        if list_holds(&self.expanded_set, path.as_str()) {
            let n: usize = self.expanded_set.len();
            let mut k: usize = 0;
            assert(so_far.contains(pv));
            while k < n && !same(self.expanded_set[k].as_str(), path.as_str())
                invariant
                    n == self.expanded_set@.len(),
                    k <= n,
                    pv == path@,
                    so_far == views(self.expanded_set@),
                    forall|i: int| 0 <= i < k ==> so_far[i] != pv,
                decreases n - k,
            {
                k = k + 1;
            }
            proof {
                if k >= n {
                    let j = choose|j: int| 0 <= j < so_far.len() && so_far[j] == pv;
                    assert(so_far[j] != pv);
                }
                assert(so_far[k as int] == pv);
                assert(so_far.index_of(pv) == k) by {
                    let j = so_far.index_of(pv);
                    assert(0 <= j < so_far.len() && so_far[j] == pv);
                }
            }
            self.expanded_set.remove(k);
            assert(views(self.expanded_set@) =~= so_far.remove(k as int));
            proof {
                lemma_remove_keeps_distinct(so_far, k as int);
            }
        } else {
            self.add_open(path.as_str());
        }
        self.rebuild(disk);
    }
}

proof fn lemma_remove_keeps_distinct(s: Seq<Seq<char>>, k: int)
    requires
        s.no_duplicates(),
        0 <= k < s.len(),
    ensures
        s.remove(k).no_duplicates(),
{
    let r = s.remove(k);
    assert forall|i: int, j: int| 0 <= i < r.len() && 0 <= j < r.len() && i != j implies r[i]
        != r[j] by {
        let a = if i < k {
            i
        } else {
            i + 1
        };
        let b = if j < k {
            j
        } else {
            j + 1
        };
        assert(r[i] == s[a] && r[j] == s[b]);
    }
}

/// The state with a folder open.
pub open spec fn opened(s: TreeState, path: Seq<char>) -> TreeState {
    if s.expanded.contains(path) {
        s
    } else {
        TreeState { expanded: s.expanded.push(path), ignored: s.ignored }
    }
}

/// The state with a folder open that was closed, or closed that was open.
pub open spec fn toggled(s: TreeState, path: Seq<char>) -> TreeState {
    if s.expanded.contains(path) {
        TreeState { expanded: s.expanded.remove(s.expanded.index_of(path)), ignored: s.ignored }
    } else {
        TreeState { expanded: s.expanded.push(path), ignored: s.ignored }
    }
}

/// Toggling a folder twice leaves the same folders open as before.
pub proof fn law_toggle_twice_restores(s: TreeState, path: Seq<char>, other: Seq<char>)
    requires
        s.expanded.no_duplicates(),
    ensures
        toggled(toggled(s, path), path).expanded.contains(other) == s.expanded.contains(other),
{
    let once = toggled(s, path).expanded;
    let twice = toggled(toggled(s, path), path).expanded;
    if s.expanded.contains(path) {
        let k = s.expanded.index_of(path);
        assert(0 <= k < s.expanded.len() && s.expanded[k] == path);
        lemma_remove_keeps_distinct(s.expanded, k);
        assert(!once.contains(path)) by {
            if once.contains(path) {
                let j = choose|j: int| 0 <= j < once.len() && once[j] == path;
                assert(once[j] == s.expanded[if j < k {
                    j
                } else {
                    j + 1
                }]);
            }
        }
        assert(twice == once.push(path));
        if s.expanded.contains(other) {
            let j = choose|j: int| 0 <= j < s.expanded.len() && s.expanded[j] == other;
            if j < k {
                assert(twice[j] == other);
            } else if j == k {
                assert(twice[once.len() as int] == other);
            } else {
                assert(twice[j - 1] == other);
            }
        }
        if twice.contains(other) {
            let j = choose|j: int| 0 <= j < twice.len() && twice[j] == other;
            if j < k {
                assert(s.expanded[j] == other);
            } else if j < once.len() {
                assert(s.expanded[j + 1] == other);
            } else {
                assert(s.expanded[k] == other);
            }
        }
    } else {
        assert(once == s.expanded.push(path));
        assert(once[s.expanded.len() as int] == path);
        let k = once.index_of(path);
        assert(once.contains(path));
        assert(0 <= k < once.len() && once[k] == path);
        assert(k == s.expanded.len()) by {
            if k < s.expanded.len() {
                assert(s.expanded[k] == path);
            }
        }
        assert(twice =~= s.expanded);
    }
}

/// The rows depend only on which folders are open, not on the order in which they were
/// opened.
pub proof fn law_rows_depend_on_the_open_set(
    a: TreeState,
    b: TreeState,
    disk: Disk,
    dir: Seq<char>,
    rel: Seq<char>,
    depth: usize,
    entries: Seq<EntryView>,
    k: int,
)
    requires
        a.ignored == b.ignored,
        forall|p: Seq<char>| a.expanded.contains(p) == b.expanded.contains(p),
    ensures
        rows_from(a, disk, dir, rel, depth, entries, k) == rows_from(
            b,
            disk,
            dir,
            rel,
            depth,
            entries,
            k,
        ),
    decreases longest(disk.listings@, disk.listings@.len() as int) - dir.len(), entries.len() - k,
{
    if 0 <= k < entries.len() {
        law_rows_depend_on_the_open_set(a, b, disk, dir, rel, depth, entries, k + 1);
        let (name, is_dir) = entries[k];
        let path = joined_path(dir, name);
        assert(a.expanded.contains(path) == b.expanded.contains(path));
        if dir.len() < path.len() && path.len() <= longest(
            disk.listings@,
            disk.listings@.len() as int,
        ) {
            law_rows_depend_on_the_open_set(
                a,
                b,
                disk,
                path,
                rel_below(rel, name),
                deeper(depth),
                arranged(entries_of(disk.listings@, path, 0)),
                0,
            );
        }
    }
}

proof fn lemma_flat(
    s: TreeState,
    disk: Disk,
    dir: Seq<char>,
    rel: Seq<char>,
    entries: Seq<EntryView>,
    k: int,
    i: int,
)
    requires
        s.expanded.len() == 0,
        0 <= i < rows_from(s, disk, dir, rel, 0, entries, k).len(),
    ensures
        rows_from(s, disk, dir, rel, 0, entries, k)[i].depth == 0,
        !rows_from(s, disk, dir, rel, 0, entries, k)[i].expanded,
    decreases entries.len() - k,
{
    let all = rows_from(s, disk, dir, rel, 0, entries, k);
    let rest = rows_from(s, disk, dir, rel, 0, entries, k + 1);
    if all == rest {
        lemma_flat(s, disk, dir, rel, entries, k + 1, i);
    } else if i > 0 {
        assert(all[i] == rest[i - 1]);
        lemma_flat(s, disk, dir, rel, entries, k + 1, i - 1);
    }
}

/// With every folder closed the tree shows only what the root holds.
pub proof fn law_closed_tree_is_flat(s: TreeState, disk: Disk, root: Seq<char>, i: int)
    requires
        s.expanded.len() == 0,
        0 <= i < tree_rows(s, disk, root).len(),
    ensures
        tree_rows(s, disk, root)[i].depth == 0,
        !tree_rows(s, disk, root)[i].expanded,
{
    lemma_flat(
        s,
        disk,
        root,
        Seq::empty(),
        arranged(entries_of(disk.listings@, root, 0)),
        0,
        i,
    );
}

/// The first row of a path, from the `k`-th on, or the number of rows.
pub open spec fn row_of(rows: Seq<NodeView>, path: Seq<char>, k: int) -> int
    decreases rows.len() - k,
{
    if k >= rows.len() {
        rows.len() as int
    } else if rows[k].path == path {
        k
    } else {
        row_of(rows, path, k + 1)
    }
}

/// The row of a folder that was opened or closed.
pub open spec fn flipped(n: NodeView) -> NodeView {
    NodeView { expanded: n.is_dir && !n.expanded, ..n }
}

/// Whether rows differ by what opening or closing a folder does: nothing where it is not
/// among them; else nothing before its row, and its row is open where it was closed.
spec fn flips(a: Seq<NodeView>, b: Seq<NodeView>, path: Seq<char>) -> bool {
    let i = row_of(a, path, 0);
    if i < a.len() {
        &&& i < b.len()
        &&& b.take(i) == a.take(i)
        &&& b[i] == flipped(a[i])
    } else {
        a == b
    }
}

proof fn lemma_row_of(rows: Seq<NodeView>, path: Seq<char>, k: int)
    requires
        0 <= k <= rows.len(),
    ensures
        k <= row_of(rows, path, k) <= rows.len(),
        row_of(rows, path, k) < rows.len() ==> rows[row_of(rows, path, k)].path == path,
        forall|j: int| k <= j < row_of(rows, path, k) ==> (#[trigger] rows[j]).path != path,
    decreases rows.len() - k,
{
    if k < rows.len() && rows[k].path != path {
        lemma_row_of(rows, path, k + 1);
    }
}

proof fn lemma_first_row(rows: Seq<NodeView>, path: Seq<char>, i: int)
    requires
        0 <= i < rows.len(),
        rows[i].path == path,
        forall|j: int| 0 <= j < i ==> (#[trigger] rows[j]).path != path,
    ensures
        row_of(rows, path, 0) == i,
{
    lemma_row_of(rows, path, 0);
    let k = row_of(rows, path, 0);
    if k < i {
        assert(rows[k].path != path);
    }
    if k > i {
        assert(rows[i].path != path);
    }
}

proof fn lemma_flips_concat(
    a: Seq<NodeView>,
    b: Seq<NodeView>,
    c: Seq<NodeView>,
    d: Seq<NodeView>,
    path: Seq<char>,
)
    requires
        flips(a, b, path),
        flips(c, d, path),
    ensures
        flips(a + c, b + d, path),
{
    let i = row_of(a, path, 0);
    lemma_row_of(a, path, 0);
    if i < a.len() {
        assert forall|j: int| 0 <= j < i implies (#[trigger] (a + c)[j]).path != path by {
            assert(a[j].path != path);
        }
        lemma_first_row(a + c, path, i);
        assert((b + d).take(i) =~= b.take(i));
        assert((a + c).take(i) =~= a.take(i));
    } else {
        let k = row_of(c, path, 0);
        lemma_row_of(c, path, 0);
        if k < c.len() {
            let n = a.len() + k;
            assert forall|j: int| 0 <= j < n implies (#[trigger] (a + c)[j]).path != path by {
                if j < a.len() {
                    assert(a[j].path != path);
                } else {
                    assert(c[j - a.len()].path != path);
                }
            }
            lemma_first_row(a + c, path, n);
            assert((b + d).take(n) =~= b + d.take(k));
            assert((a + c).take(n) =~= a + c.take(k));
        } else {
            lemma_row_of(a + c, path, 0);
            let m = row_of(a + c, path, 0);
            if m < (a + c).len() {
                if m < a.len() {
                    assert(a[m].path != path);
                } else {
                    assert(c[m - a.len()].path != path);
                }
            }
        }
    }
}

proof fn lemma_toggled_set(s: TreeState, path: Seq<char>, other: Seq<char>)
    requires
        s.expanded.no_duplicates(),
    ensures
        toggled(s, path).ignored == s.ignored,
        toggled(s, path).expanded.no_duplicates(),
        toggled(s, path).expanded.contains(other) == (if other == path {
            !s.expanded.contains(path)
        } else {
            s.expanded.contains(other)
        }),
{
    let t = toggled(s, path).expanded;
    if s.expanded.contains(path) {
        let k = s.expanded.index_of(path);
        assert(0 <= k < s.expanded.len() && s.expanded[k] == path);
        lemma_remove_keeps_distinct(s.expanded, k);
        assert forall|j: int| 0 <= j < t.len() implies #[trigger] t[j] == s.expanded[if j < k {
            j
        } else {
            j + 1
        }] by {}
        if s.expanded.contains(other) && other != path {
            let j = choose|j: int| 0 <= j < s.expanded.len() && s.expanded[j] == other;
            if j < k {
                assert(t[j] == other);
            } else {
                assert(t[j - 1] == other);
            }
        }
    } else {
        assert(t == s.expanded.push(path));
        assert(t[s.expanded.len() as int] == path);
        if s.expanded.contains(other) {
            let j = choose|j: int| 0 <= j < s.expanded.len() && s.expanded[j] == other;
            assert(t[j] == other);
        }
    }
}

proof fn lemma_toggled_rows(
    s: TreeState,
    disk: Disk,
    dir: Seq<char>,
    rel: Seq<char>,
    depth: usize,
    entries: Seq<EntryView>,
    k: int,
    target: Seq<char>,
)
    requires
        s.expanded.no_duplicates(),
    ensures
        flips(
            rows_from(s, disk, dir, rel, depth, entries, k),
            rows_from(toggled(s, target), disk, dir, rel, depth, entries, k),
            target,
        ),
    decreases longest(disk.listings@, disk.listings@.len() as int) - dir.len(), entries.len() - k,
{
    let t = toggled(s, target);
    let a = rows_from(s, disk, dir, rel, depth, entries, k);
    let b = rows_from(t, disk, dir, rel, depth, entries, k);
    if 0 <= k < entries.len() {
        lemma_toggled_rows(s, disk, dir, rel, depth, entries, k + 1, target);
        let (name, is_dir) = entries[k];
        let path = joined_path(dir, name);
        let below = rel_below(rel, name);
        let ignored = is_ignored(s.ignored, path);
        let ra = rows_from(s, disk, dir, rel, depth, entries, k + 1);
        let rb = rows_from(t, disk, dir, rel, depth, entries, k + 1);
        lemma_toggled_set(s, target, path);
        if !is_hidden(replaced(below, "\\"@, "/"@), disk.excludes, ignored, disk.hide_gitignored) {
            if path == target {
                lemma_first_row(a, target, 0);
                assert(b.take(0) =~= a.take(0));
            } else {
                let expanded = is_dir && s.expanded.contains(path);
                let own = seq![NodeView { path, name, is_dir, depth, expanded, ignored }];
                assert(flips(own, own, target)) by {
                    lemma_row_of(own, target, 0);
                }
                if expanded && dir.len() < path.len() && path.len() <= longest(
                    disk.listings@,
                    disk.listings@.len() as int,
                ) {
                    let inner = arranged(entries_of(disk.listings@, path, 0));
                    lemma_toggled_rows(s, disk, path, below, deeper(depth), inner, 0, target);
                    let ia = rows_from(s, disk, path, below, deeper(depth), inner, 0);
                    let ib = rows_from(t, disk, path, below, deeper(depth), inner, 0);
                    lemma_flips_concat(own, own, ia, ib, target);
                    lemma_flips_concat(own + ia, own + ib, ra, rb, target);
                } else {
                    let none = Seq::<NodeView>::empty();
                    assert(own + none =~= own);
                    lemma_flips_concat(own, own, ra, rb, target);
                }
            }
        }
    }
}

/// Whether entries are what a folder can hold: no name twice, none empty, and none with a slash.
pub open spec fn are_names(entries: Seq<EntryView>) -> bool {
    &&& forall|i: int, j: int|
        0 <= i < entries.len() && 0 <= j < entries.len() && i != j ==> (#[trigger] entries[i]).0 != (
        #[trigger] entries[j]).0
    &&& forall|i: int| 0 <= i < entries.len() ==> is_name((#[trigger] entries[i]).0)
}

/// Whether a text can be the name of an entry: it is not empty and has no slash.
pub open spec fn is_name(name: Seq<char>) -> bool {
    name.len() > 0 && forall|j: int| 0 <= j < name.len() ==> name[j] != '/'
}

/// Whether every folder that was read holds what a folder can hold.
pub open spec fn is_listed(disk: Disk) -> bool {
    forall|i: int| 0 <= i < disk.listings@.len() ==> are_names(
        entry_views((#[trigger] disk.listings@[i]).entries@),
    )
}

proof fn lemma_entries_are_names(listings: Seq<Listing>, dir: Seq<char>, k: int)
    requires
        0 <= k,
        forall|i: int| 0 <= i < listings.len() ==> are_names(
            entry_views((#[trigger] listings[i]).entries@),
        ),
    ensures
        are_names(entries_of(listings, dir, k)),
    decreases listings.len() - k,
{
    if k < listings.len() && listings[k].dir@ != dir {
        lemma_entries_are_names(listings, dir, k + 1);
    }
}

proof fn lemma_entry_place(sorted: Seq<EntryView>, e: EntryView, k: int)
    requires
        0 <= k <= sorted.len(),
    ensures
        k <= entry_place(sorted, e, k) <= sorted.len(),
    decreases sorted.len() - k,
{
    if k < sorted.len() && !comes_first(e, sorted[k]) {
        lemma_entry_place(sorted, e, k + 1);
    }
}

proof fn lemma_arranged_are_names(entries: Seq<EntryView>)
    requires
        are_names(entries),
    ensures
        are_names(arranged(entries)),
        forall|i: int| 0 <= i < arranged(entries).len() ==> entries.contains(#[trigger] arranged(entries)[i]),
    decreases entries.len(),
{
    if entries.len() > 0 {
        let some = entries.drop_last();
        assert forall|i: int, j: int|
            0 <= i < some.len() && 0 <= j < some.len() && i != j implies (#[trigger] some[i]).0 != (
        #[trigger] some[j]).0 by {
            assert(entries[i].0 != entries[j].0);
        }
        assert forall|i: int| 0 <= i < some.len() implies is_name((#[trigger] some[i]).0) by {
            assert(is_name(entries[i].0));
        }
        lemma_arranged_are_names(some);
        let rest = arranged(some);
        let e = entries.last();
        let last = entries.len() - 1;
        assert forall|i: int| 0 <= i < rest.len() implies entries.contains(#[trigger] rest[i]) && rest[i].0
            != e.0 by {
            assert(some.contains(rest[i]));
            let j = choose|j: int| 0 <= j < some.len() && some[j] == rest[i];
            assert(entries[j] == rest[i]);
            assert(entries[j].0 != entries[last].0);
        }
        if !is_noise(e.0) {
            let p = entry_place(rest, e, 0);
            lemma_entry_place(rest, e, 0);
            let all = arranged(entries);
            assert(all == rest.insert(p, e));
            assert(entries[last] == e);
            assert forall|i: int| 0 <= i < all.len() implies #[trigger] all[i] == (if i < p {
                rest[i]
            } else if i == p {
                e
            } else {
                rest[i - 1]
            }) by {}
            assert forall|i: int, j: int|
                0 <= i < all.len() && 0 <= j < all.len() && i != j implies (#[trigger] all[i]).0 != (
            #[trigger] all[j]).0 by {}
            assert forall|i: int| 0 <= i < all.len() implies is_name((#[trigger] all[i]).0)
                && entries.contains(all[i]) by {}
        }
    }
}

/// Whether a path is that of an entry or lies below it.
spec fn at_or_below(path: Seq<char>, entry: Seq<char>) -> bool {
    path == entry || (entry.len() < path.len() && path.take(entry.len() as int) == entry
        && path[entry.len() as int] == '/')
}

/// What the paths of the entries of a folder begin with.
spec fn stem(dir: Seq<char>) -> Seq<char> {
    if dir.len() == 0 || dir.last() == '/' {
        dir
    } else {
        dir.push('/')
    }
}

proof fn lemma_joined(dir: Seq<char>, name: Seq<char>)
    requires
        is_name(name),
    ensures
        joined_path(dir, name) == stem(dir) + name,
        joined_path(dir, name).len() > dir.len(),
        joined_path(dir, name).last() != '/',
        stem(joined_path(dir, name)) == joined_path(dir, name).push('/'),
{
    assert(joined_path(dir, name) =~= stem(dir) + name);
    let q = joined_path(dir, name);
    assert(q.last() == name[name.len() - 1]);
}

proof fn lemma_one_entry(dir: Seq<char>, a: Seq<char>, b: Seq<char>, path: Seq<char>)
    requires
        is_name(a),
        is_name(b),
        at_or_below(path, stem(dir) + a),
        at_or_below(path, stem(dir) + b),
    ensures
        a == b,
{
    let n = stem(dir).len() as int;
    let p = stem(dir) + a;
    let q = stem(dir) + b;
    assert(path.take(p.len() as int) =~= p);
    assert(path.take(q.len() as int) =~= q);
    if a.len() < b.len() {
        assert(path[p.len() as int] == path.take(q.len() as int)[p.len() as int]);
        assert(q[p.len() as int] == b[a.len() as int]);
        assert(false);
    }
    if b.len() < a.len() {
        assert(path[q.len() as int] == path.take(p.len() as int)[q.len() as int]);
        assert(p[q.len() as int] == a[b.len() as int]);
        assert(false);
    }
    assert forall|j: int| 0 <= j < a.len() implies a[j] == b[j] by {
        assert(p[n + j] == path.take(p.len() as int)[n + j]);
        assert(q[n + j] == path.take(q.len() as int)[n + j]);
    }
    assert(a =~= b);
}

/// Whether a path belongs to one of the entries of a folder from the `k`-th on.
spec fn belongs(path: Seq<char>, dir: Seq<char>, entries: Seq<EntryView>, k: int) -> bool {
    exists|j: int| k <= j < entries.len() && at_or_below(path, stem(dir) + (#[trigger] entries[j]).0)
}

proof fn lemma_paths_differ(
    s: TreeState,
    disk: Disk,
    dir: Seq<char>,
    rel: Seq<char>,
    depth: usize,
    entries: Seq<EntryView>,
    k: int,
)
    requires
        is_listed(disk),
        are_names(entries),
        0 <= k,
    ensures
        forall|i: int|
            0 <= i < rows_from(s, disk, dir, rel, depth, entries, k).len() ==> belongs(
                (#[trigger] rows_from(s, disk, dir, rel, depth, entries, k)[i]).path,
                dir,
                entries,
                k,
            ),
        forall|i: int, j: int|
            0 <= i < j < rows_from(s, disk, dir, rel, depth, entries, k).len() ==> (
            #[trigger] rows_from(s, disk, dir, rel, depth, entries, k)[i]).path != (
            #[trigger] rows_from(s, disk, dir, rel, depth, entries, k)[j]).path,
    decreases longest(disk.listings@, disk.listings@.len() as int) - dir.len(), entries.len() - k,
{
    let a = rows_from(s, disk, dir, rel, depth, entries, k);
    if k < entries.len() {
        lemma_paths_differ(s, disk, dir, rel, depth, entries, k + 1);
        let (name, is_dir) = entries[k];
        assert(is_name(entries[k].0));
        let path = joined_path(dir, name);
        lemma_joined(dir, name);
        let below = rel_below(rel, name);
        let ignored = is_ignored(s.ignored, path);
        let rest = rows_from(s, disk, dir, rel, depth, entries, k + 1);
        assert forall|i: int| 0 <= i < rest.len() implies belongs((#[trigger] rest[i]).path, dir, entries, k)
            && !at_or_below(rest[i].path, path) by {
            assert(belongs(rest[i].path, dir, entries, k + 1));
            let j = choose|j: int|
                k + 1 <= j < entries.len() && at_or_below(
                    rest[i].path,
                    stem(dir) + (#[trigger] entries[j]).0,
                );
            assert(at_or_below(rest[i].path, stem(dir) + entries[j].0));
            if at_or_below(rest[i].path, path) {
                assert(is_name(entries[j].0));
                lemma_one_entry(dir, name, entries[j].0, rest[i].path);
            }
        }
        if !is_hidden(replaced(below, "\\"@, "/"@), disk.excludes, ignored, disk.hide_gitignored) {
            let expanded = is_dir && s.expanded.contains(path);
            let inner = if expanded && dir.len() < path.len() && path.len() <= longest(
                disk.listings@,
                disk.listings@.len() as int,
            ) {
                let held = entries_of(disk.listings@, path, 0);
                lemma_entries_are_names(disk.listings@, path, 0);
                lemma_arranged_are_names(held);
                lemma_paths_differ(s, disk, path, below, deeper(depth), arranged(held), 0);
                let got = rows_from(s, disk, path, below, deeper(depth), arranged(held), 0);
                assert forall|i: int| 0 <= i < got.len() implies at_or_below((#[trigger] got[i]).path, path)
                    && got[i].path != path by {
                    assert(belongs(got[i].path, path, arranged(held), 0));
                    let j = choose|j: int|
                        0 <= j < arranged(held).len() && at_or_below(
                            got[i].path,
                            stem(path) + (#[trigger] arranged(held)[j]).0,
                        );
                    let q = stem(path) + arranged(held)[j].0;
                    let g = got[i].path;
                    assert(is_name(arranged(held)[j].0));
                    assert(g.take(q.len() as int) =~= q);
                    assert(g.take(path.len() as int) =~= path) by {
                        assert forall|m: int| 0 <= m < path.len() implies g[m] == path[m] by {
                            assert(g.take(q.len() as int)[m] == q[m]);
                        }
                    }
                    assert(g.take(q.len() as int)[path.len() as int] == q[path.len() as int]);
                }
                got
            } else {
                Seq::empty()
            };
            let own = NodeView { path, name, is_dir, depth, expanded, ignored };
            assert(a =~= seq![own] + inner + rest);
            let n = inner.len() as int;
            assert forall|i: int| 0 <= i < a.len() implies belongs((#[trigger] a[i]).path, dir, entries, k) by {
                if i <= n {
                    if i > 0 {
                        assert(a[i] == inner[i - 1]);
                    }
                    assert(at_or_below(a[i].path, stem(dir) + entries[k].0));
                } else {
                    assert(a[i] == rest[i - 1 - n]);
                }
            }
            assert forall|i: int, j: int| 0 <= i < j < a.len() implies (#[trigger] a[i]).path != (
            #[trigger] a[j]).path by {
                if i > n {
                    assert(a[i] == rest[i - 1 - n] && a[j] == rest[j - 1 - n]);
                } else if j > n {
                    assert(a[j] == rest[j - 1 - n]);
                    if i > 0 {
                        assert(a[i] == inner[i - 1]);
                    }
                    assert(at_or_below(a[i].path, path));
                } else {
                    assert(a[j] == inner[j - 1]);
                    if i > 0 {
                        assert(a[i] == inner[i - 1]);
                    }
                }
            }
        }
    }
}

/// No two rows show the same path, where the folders that were read hold what folders can.
pub proof fn law_rows_show_each_path_once(s: TreeState, disk: Disk, root: Seq<char>, i: int, j: int)
    requires
        is_listed(disk),
        0 <= i < j < tree_rows(s, disk, root).len(),
    ensures
        tree_rows(s, disk, root)[i].path != tree_rows(s, disk, root)[j].path,
{
    let held = entries_of(disk.listings@, root, 0);
    lemma_entries_are_names(disk.listings@, root, 0);
    lemma_arranged_are_names(held);
    lemma_paths_differ(s, disk, root, Seq::empty(), 0, arranged(held), 0);
}

/// Opening or closing the folder of a row leaves the rows before it, and the row itself but for
/// whether it is open; doing so again gives all rows back, with the folders that were open
/// inside it.
pub proof fn law_toggling_a_row_twice_restores_the_rows(
    s: TreeState,
    disk: Disk,
    root: Seq<char>,
    idx: int,
)
    requires
        s.expanded.no_duplicates(),
        is_listed(disk),
        0 <= idx < tree_rows(s, disk, root).len(),
        tree_rows(s, disk, root)[idx].is_dir,
    ensures
        ({
            let rows = tree_rows(s, disk, root);
            let once = toggled(s, rows[idx].path);
            let after = tree_rows(once, disk, root);
            &&& idx < after.len()
            &&& after.take(idx) == rows.take(idx)
            &&& after[idx] == (NodeView { expanded: !rows[idx].expanded, ..rows[idx] })
            &&& tree_rows(toggled(once, after[idx].path), disk, root) == rows
        }),
{
    let rows = tree_rows(s, disk, root);
    let path = rows[idx].path;
    let entries = arranged(entries_of(disk.listings@, root, 0));
    assert forall|j: int| 0 <= j < idx implies (#[trigger] rows[j]).path != path by {
        law_rows_show_each_path_once(s, disk, root, j, idx);
    }
    lemma_first_row(rows, path, idx);
    lemma_toggled_rows(s, disk, root, Seq::empty(), 0, entries, 0, path);
    let once = toggled(s, path);
    lemma_toggled_set(s, path, path);
    let twice = toggled(once, path);
    lemma_toggled_set(once, path, path);
    assert forall|p: Seq<char>| twice.expanded.contains(p) == s.expanded.contains(p) by {
        law_toggle_twice_restores(s, path, p);
    }
    law_rows_depend_on_the_open_set(twice, s, disk, root, Seq::empty(), 0, entries, 0);
}

proof fn lemma_opened_set(s: TreeState, path: Seq<char>, other: Seq<char>)
    ensures
        opened(s, path).ignored == s.ignored,
        opened(s, path).expanded.contains(other) == (other == path || s.expanded.contains(other)),
{
    let t = opened(s, path).expanded;
    if !s.expanded.contains(path) {
        assert(t[s.expanded.len() as int] == path);
        if s.expanded.contains(other) {
            let j = choose|j: int| 0 <= j < s.expanded.len() && s.expanded[j] == other;
            assert(t[j] == other);
        }
    }
}

proof fn lemma_rows_tell_open(
    s: TreeState,
    disk: Disk,
    dir: Seq<char>,
    rel: Seq<char>,
    depth: usize,
    entries: Seq<EntryView>,
    k: int,
)
    ensures
        tell_open(rows_from(s, disk, dir, rel, depth, entries, k), s),
    decreases longest(disk.listings@, disk.listings@.len() as int) - dir.len(), entries.len() - k,
{
    let a = rows_from(s, disk, dir, rel, depth, entries, k);
    if 0 <= k < entries.len() {
        lemma_rows_tell_open(s, disk, dir, rel, depth, entries, k + 1);
        let (name, is_dir) = entries[k];
        let path = joined_path(dir, name);
        let below = rel_below(rel, name);
        let ra = rows_from(s, disk, dir, rel, depth, entries, k + 1);
        let inner = arranged(entries_of(disk.listings@, path, 0));
        let open = is_dir && s.expanded.contains(path);
        let ia = if open && dir.len() < path.len() && path.len() <= longest(
            disk.listings@,
            disk.listings@.len() as int,
        ) {
            lemma_rows_tell_open(s, disk, path, below, deeper(depth), inner, 0);
            rows_from(s, disk, path, below, deeper(depth), inner, 0)
        } else {
            Seq::empty()
        };
        if a != ra {
            assert(a.len() == 1 + ia.len() + ra.len());
            assert forall|i: int| 0 <= i < a.len() implies (#[trigger] a[i]).expanded == (a[i].is_dir
                && s.expanded.contains(a[i].path)) by {
                if 0 < i <= ia.len() {
                    assert(a[i] == ia[i - 1]);
                } else if i > 0 {
                    assert(a[i] == ra[i - 1 - ia.len()]);
                }
            }
        }
    }
}

/// The row in a tree where more folders are open.
pub open spec fn row_in(r: NodeView, t: TreeState) -> NodeView {
    NodeView { expanded: r.is_dir && t.expanded.contains(r.path), ..r }
}

proof fn lemma_rows_stay(
    s: TreeState,
    t: TreeState,
    disk: Disk,
    dir: Seq<char>,
    rel: Seq<char>,
    depth: usize,
    entries: Seq<EntryView>,
    k: int,
)
    requires
        s.ignored == t.ignored,
        forall|p: Seq<char>| s.expanded.contains(p) ==> t.expanded.contains(p),
    ensures
        forall|i: int|
            0 <= i < rows_from(s, disk, dir, rel, depth, entries, k).len() ==> rows_from(
                t,
                disk,
                dir,
                rel,
                depth,
                entries,
                k,
            ).contains(row_in(#[trigger] rows_from(s, disk, dir, rel, depth, entries, k)[i], t)),
    decreases longest(disk.listings@, disk.listings@.len() as int) - dir.len(), entries.len() - k,
{
    let a = rows_from(s, disk, dir, rel, depth, entries, k);
    let b = rows_from(t, disk, dir, rel, depth, entries, k);
    if 0 <= k < entries.len() {
        lemma_rows_stay(s, t, disk, dir, rel, depth, entries, k + 1);
        let (name, is_dir) = entries[k];
        let path = joined_path(dir, name);
        let below = rel_below(rel, name);
        let ignored = is_ignored(s.ignored, path);
        let ra = rows_from(s, disk, dir, rel, depth, entries, k + 1);
        let rb = rows_from(t, disk, dir, rel, depth, entries, k + 1);
        if !is_hidden(replaced(below, "\\"@, "/"@), disk.excludes, ignored, disk.hide_gitignored) {
            let fits = dir.len() < path.len() && path.len() <= longest(
                disk.listings@,
                disk.listings@.len() as int,
            );
            let inner = arranged(entries_of(disk.listings@, path, 0));
            let open_a = is_dir && s.expanded.contains(path);
            let open_b = is_dir && t.expanded.contains(path);
            let ia = if open_a && fits {
                rows_from(s, disk, path, below, deeper(depth), inner, 0)
            } else {
                Seq::empty()
            };
            let ib = if open_b && fits {
                rows_from(t, disk, path, below, deeper(depth), inner, 0)
            } else {
                Seq::empty()
            };
            if open_a && fits {
                lemma_rows_stay(s, t, disk, path, below, deeper(depth), inner, 0);
            }
            assert(a.len() == 1 + ia.len() + ra.len());
            assert(b.len() == 1 + ib.len() + rb.len());
            assert forall|i: int| 0 <= i < a.len() implies b.contains(row_in(#[trigger] a[i], t)) by {
                if i == 0 {
                    assert(b[0] == row_in(a[0], t));
                } else if i <= ia.len() {
                    assert(a[i] == ia[i - 1]);
                    assert(ib.contains(row_in(ia[i - 1], t)));
                    let j = choose|j: int| 0 <= j < ib.len() && ib[j] == row_in(ia[i - 1], t);
                    assert(b[1 + j] == ib[j]);
                } else {
                    let q = i - 1 - ia.len();
                    assert(a[i] == ra[q]);
                    assert(rb.contains(row_in(ra[q], t)));
                    let j = choose|j: int| 0 <= j < rb.len() && rb[j] == row_in(ra[q], t);
                    assert(b[1 + ib.len() + j] == rb[j]);
                }
            }
        }
    }
}

/// After a folder was opened in a tree, its rows are open, and no folder that was open is closed.
/// Opening it again changes nothing.
pub proof fn law_expanding_opens_and_closes_nothing(a: FileTree, b: FileTree, path: Seq<char>)
    requires
        a.wf(),
        b.wf(),
        b.state() == opened(a.state(), path),
    ensures
        opened(b.state(), path) == b.state(),
        b.state().expanded.contains(path),
        forall|p: Seq<char>| a.state().expanded.contains(p) ==> b.state().expanded.contains(p),
        forall|j: int|
            0 <= j < b.rows().len() ==> ((#[trigger] b.rows()[j]).is_dir && b.rows()[j].path == path
                ==> b.rows()[j].expanded),
        forall|i: int, j: int|
            0 <= i < a.rows().len() && 0 <= j < b.rows().len() && (#[trigger] a.rows()[i]).expanded && (
            #[trigger] b.rows()[j]).is_dir && b.rows()[j].path == a.rows()[i].path
                ==> b.rows()[j].expanded,
{
    assert forall|p: Seq<char>| a.state().expanded.contains(p) implies b.state().expanded.contains(p) by {
        lemma_opened_set(a.state(), path, p);
    }
    lemma_opened_set(a.state(), path, path);
}

/// After a folder is opened in a tree that shows what was read, every row that was shown is still
/// shown.
pub proof fn law_expanding_keeps_the_rows(s: TreeState, disk: Disk, root: Seq<char>, path: Seq<char>)
    ensures
        ({
            let t = opened(s, path);
            let rows = tree_rows(s, disk, root);
            let after = tree_rows(t, disk, root);
            forall|i: int| 0 <= i < rows.len() ==> after.contains(row_in(#[trigger] rows[i], t))
        }),
{
    let t = opened(s, path);
    let entries = arranged(entries_of(disk.listings@, root, 0));
    assert forall|p: Seq<char>| s.expanded.contains(p) implies t.expanded.contains(p) by {
        lemma_opened_set(s, path, p);
    }
    lemma_opened_set(s, path, path);
    lemma_rows_stay(s, t, disk, root, Seq::empty(), 0, entries, 0);
}

fn below_path(rel: &str, name: &str) -> (r: String)
    ensures
        r@ == rel_below(rel@, name@),
{
    if rel.is_empty() {
        name.to_owned()
    } else {
        let mut s = rel.to_owned();
        s.append("/");
        s.append(name);
        s
    }
}

/// What a tab shows.
pub enum DocKind {
    Text,
    /// A notice in place of a file that cannot be shown.
    Binary,
    /// A difference that cannot be edited.
    Diff,
    /// An image, by the key under which it is held.
    Image(String),
}

/// An open document.
pub struct Document {
    pub path: Option<String>,
    pub name: String,
    pub text: String,
    pub kind: DocKind,
    pub dirty: bool,
    /// The lines at which a debugger stops, from 0.
    pub breakpoints: Vec<usize>,
}

/// The name of a tab that shows a path.
pub open spec fn tab_name(path: Seq<char>) -> Seq<char> {
    match base_name(path) {
        Some(n) => n,
        None => path,
    }
}

/// Whether a document is new and shows a path.
pub open spec fn is_fresh(d: Document, path: Seq<char>, text: Seq<char>, lines: Seq<usize>) -> bool {
    opt_view(d.path) == Some(path) && d.name@ == tab_name(path) && d.text@ == text && !d.dirty
        && d.breakpoints@ == lines
}

fn fresh(path: &str, text: String, kind: DocKind, breakpoints: Vec<usize>) -> (r: Document)
    ensures
        is_fresh(r, path@, text@, breakpoints@),
        r.kind == kind,
{
    let name = match file_name(path) {
        Some(n) => n,
        None => path.to_owned(),
    };
    Document { path: Some(path.to_owned()), name, text, kind, dirty: false, breakpoints }
}

/// The lines of a file at which a debugger stops, counted from 0; the stored ones count
/// from 1.
pub open spec fn stop_lines(stored: Seq<i64>) -> Seq<usize> {
    Seq::new(
        stored.len(),
        |i: int|
            if stored[i] <= 1 {
                0usize
            } else {
                crate::text::capped(stored[i] - 1)
            },
    )
}

/// The stored stops of a path among the first `n` entries: those of the last for it.
pub open spec fn stops_of(stored: Seq<(String, Vec<i64>)>, path: Seq<char>, n: int) -> Seq<usize>
    decreases n,
{
    if n <= 0 {
        Seq::empty()
    } else if stored[n - 1].0@ == path {
        stop_lines(stored[n - 1].1@)
    } else {
        stops_of(stored, path, n - 1)
    }
}

fn find_stops(stored: &Vec<(String, Vec<i64>)>, path: &str) -> (r: Vec<usize>)
    ensures
        r@ == stops_of(stored@, path@, stored@.len() as int),
{
    let mut k: usize = stored.len();
    while k > 0
        invariant
            k <= stored@.len(),
            stops_of(stored@, path@, k as int) == stops_of(
                stored@,
                path@,
                stored@.len() as int,
            ),
        decreases k,
    {
        if same(stored[k - 1].0.as_str(), path) {
            let lines = &stored[k - 1].1;
            let ghost want = stop_lines(lines@);
            let mut out: Vec<usize> = Vec::new();
            let mut j: usize = 0;
            assert(out@ =~= want.take(0));
            while j < lines.len()
                invariant
                    j <= lines@.len(),
                    want == stop_lines(lines@),
                    out@ == want.take(j as int),
                decreases lines.len() - j,
            {
                let l: i64 = lines[j];
                let line: usize = if l <= 1 {
                    0
                } else if (l - 1) as u64 > usize::MAX as u64 {
                    usize::MAX
                } else {
                    (l - 1) as usize
                };
                out.push(line);
                assert(want.take(j + 1) =~= want.take(j as int).push(want[j as int]));
                j = j + 1;
            }
            assert(want.take(j as int) =~= want);
            return out;
        }
        k = k - 1;
    }
    Vec::new()
}

/// The open documents, the active one, and the tree.
pub struct Workspace {
    pub documents: Vec<Document>,
    pub active: Option<usize>,
    pub tree: FileTree,
}

/// The first document of a path, from the `k`-th on.
pub open spec fn doc_of(docs: Seq<Document>, path: Seq<char>, k: int) -> Option<usize>
    decreases docs.len() - k,
{
    if k >= docs.len() {
        None
    } else if opt_view(docs[k].path) == Some(path) {
        Some(k as usize)
    } else {
        doc_of(docs, path, k + 1)
    }
}

/// The first difference of a title, from the `k`-th document on.
pub open spec fn diff_of(docs: Seq<Document>, title: Seq<char>, k: int) -> Option<usize>
    decreases docs.len() - k,
{
    if k >= docs.len() {
        None
    } else if docs[k].kind is Diff && docs[k].name@ == title {
        Some(k as usize)
    } else {
        diff_of(docs, title, k + 1)
    }
}

/// The active document after one of `n` was closed, where that was the active one.
pub open spec fn after_close(closed: usize, left: nat) -> Option<usize> {
    if left == 0 {
        None
    } else if closed >= left {
        Some((left - 1) as usize)
    } else {
        Some(closed)
    }
}

/// Where the document at `a` stands after the one at `from` moved to `to`.
pub open spec fn moved_index(a: usize, from: usize, to: usize) -> usize {
    if a == from {
        to
    } else if from < a && a <= to {
        (a - 1) as usize
    } else if to <= a && a < from {
        (a + 1) as usize
    } else {
        a
    }
}

impl Workspace {
    /// Whether the active document is one of the open ones.
    pub open spec fn wf(&self) -> bool {
        match self.active {
            Some(i) => i < self.documents@.len(),
            None => true,
        }
    }

    /// A workspace without documents.
    pub fn new(root: &str, ignored: Vec<String>, disk: &Disk) -> (r: Workspace)
        ensures
            r.wf(),
            r.documents@.len() == 0,
            r.active == None::<usize>,
            r.tree.root@ == root@,
            r.tree.state() == (TreeState { expanded: Seq::empty(), ignored: views(ignored@) }),
            r.tree.shows(*disk),
    {
        Workspace { documents: Vec::new(), active: None, tree: FileTree::new(root, ignored, disk) }
    }

    /// Where a file or folder is to be made inside another.
    pub fn entry_path(&self, parent: &str, name: &str) -> (r: String)
        ensures
            r@ == joined_path(parent@, name@),
    {
        join(parent, name)
    }

    /// Takes note of a file or folder that was made inside another, which is opened so that it
    /// shows; nothing changes where it could not be made.
    pub fn create_entry(&mut self, parent: &str, name: &str, made: bool, disk: &Disk) -> (r: Option<
        String,
    >)
        requires
            old(self).tree.wf(),
        ensures
            final(self).documents == old(self).documents,
            final(self).active == old(self).active,
            final(self).tree.wf(),
            final(self).tree.root == old(self).tree.root,
            if made {
                &&& opt_view(r) == Some(joined_path(parent@, name@))
                &&& final(self).tree.state() == opened(old(self).tree.state(), parent@)
                &&& final(self).tree.shows(*disk)
            } else {
                r is None && final(self).tree == old(self).tree
            },
    {
        if !made {
            return None;
        }
        self.tree.expand(parent, disk);
        self.tree.rebuild(disk);
        Some(self.entry_path(parent, name))
    }

    /// The active document.
    pub fn active_doc(&self) -> (r: Option<&Document>)
        ensures
            match r {
                Some(d) => self.active is Some && self.active->0 < self.documents@.len() && *d
                    == self.documents@[self.active->0 as int],
                None => self.active is None || self.active->0 >= self.documents@.len(),
            },
    {
        match self.active {
            Some(i) => {
                if i < self.documents.len() {
                    Some(&self.documents[i])
                } else {
                    None
                }
            },
            None => None,
        }
    }

    /// The active document, to change it.
    pub fn active_doc_mut(&mut self) -> (r: Option<&mut Document>)
        ensures
            final(self).active == old(self).active,
            final(self).tree == old(self).tree,
            match r {
                Some(d) => old(self).active is Some && old(self).active->0
                    < old(self).documents@.len() && *d
                    == old(self).documents@[old(self).active->0 as int] && final(self).documents@
                    == old(self).documents@.update(old(self).active->0 as int, *final(d)),
                None => (old(self).active is None || old(self).active->0
                    >= old(self).documents@.len()) && final(self).documents == old(self).documents,
            },
    {
        match self.active {
            Some(i) => {
                if i < self.documents.len() {
                    Some(&mut self.documents[i])
                } else {
                    None
                }
            },
            None => None,
        }
    }

    /// Makes the document of a path the active one, where it is open.
    pub fn focus_path(&mut self, path: &str) -> (r: bool)
        ensures
            final(self).documents == old(self).documents,
            final(self).tree == old(self).tree,
            r == (doc_of(old(self).documents@, path@, 0) is Some),
            final(self).active == (if r {
                doc_of(old(self).documents@, path@, 0)
            } else {
                old(self).active
            }),
            old(self).wf() ==> final(self).wf(),
    {
        let n: usize = self.documents.len();
        let mut k: usize = 0;
        while k < n
            invariant
                n == self.documents@.len(),
                k <= n,
                *self == *old(self),
                doc_of(self.documents@, path@, k as int) == doc_of(self.documents@, path@, 0),
            decreases n - k,
        {
            let here = match &self.documents[k].path {
                Some(p) => same(p.as_str(), path),
                None => false,
            };
            if here {
                self.active = Some(k);
                return true;
            }
            k = k + 1;
        }
        false
    }

    fn add(&mut self, d: Document)
        ensures
            final(self).wf(),
            final(self).documents@ == old(self).documents@.push(d),
            final(self).active == Some(old(self).documents@.len() as usize),
            final(self).tree == old(self).tree,
    {
        self.documents.push(d);
        self.active = Some(self.documents.len() - 1);
    }

    /// Opens a file that was read, or goes to it where it is open. A file that cannot be
    /// shown as text opens as a notice. `stored` holds the stops of the debugger by path.
    pub fn open_file(&mut self, path: &str, bytes: &Vec<u8>, stored: &Vec<(String, Vec<i64>)>)
        requires
            old(self).wf(),
        ensures
            final(self).wf(),
            final(self).tree == old(self).tree,
            match doc_of(old(self).documents@, path@, 0) {
                Some(i) => final(self).documents == old(self).documents && final(self).active
                    == Some(i),
                None => {
                    let n = old(self).documents@.len() as int;
                    &&& final(self).documents@.len() == n + 1
                    &&& final(self).documents@.take(n) == old(self).documents@
                    &&& final(self).active == Some(n as usize)
                    &&& if looks_binary(bytes@) {
                        final(self).documents@[n].kind is Binary && is_fresh(
                            final(self).documents@[n],
                            path@,
                            Seq::empty(),
                            Seq::empty(),
                        )
                    } else {
                        final(self).documents@[n].kind is Text && is_fresh(
                            final(self).documents@[n],
                            path@,
                            lossy_text(bytes@),
                            stops_of(stored@, path@, stored@.len() as int),
                        )
                    }
                },
            },
    {
        if self.focus_path(path) {
            return;
        }
        let ghost before = self.documents@;
        if is_binary(bytes) {
            self.add(fresh(path, String::new(), DocKind::Binary, Vec::new()));
        } else {
            let text = from_utf8_lossy(bytes);
            let stops = find_stops(stored, path);
            self.add(fresh(path, text, DocKind::Text, stops));
        }
        assert(self.documents@.take(before.len() as int) =~= before);
    }

    /// Opens a difference, or shows it anew where one of its title is open.
    pub fn open_diff(&mut self, title: &str)
        requires
            old(self).wf(),
        ensures
            final(self).wf(),
            final(self).tree == old(self).tree,
            match diff_of(old(self).documents@, title@, 0) {
                Some(i) => final(self).active == Some(i) && final(self).documents@.len()
                    == old(self).documents@.len() && is_diff(final(self).documents@[i as int], title@)
                    && forall|j: int|
                    0 <= j < old(self).documents@.len() && j != i ==> #[trigger] final(self).documents@[j] == old(self).documents@[j],
                None => {
                    let n = old(self).documents@.len() as int;
                    &&& final(self).documents@.len() == n + 1
                    &&& final(self).documents@.take(n) == old(self).documents@
                    &&& final(self).active == Some(n as usize)
                    &&& is_diff(final(self).documents@[n], title@)
                },
            },
    {
        let ghost before = self.documents@;
        let n: usize = self.documents.len();
        let d = Document {
            path: None,
            name: title.to_owned(),
            text: String::new(),
            kind: DocKind::Diff,
            dirty: false,
            breakpoints: Vec::new(),
        };
        let mut k: usize = 0;
        while k < n
            invariant
                n == self.documents@.len(),
                k <= n,
                *self == *old(self),
                before == self.documents@,
                is_diff(d, title@),
                diff_of(before, title@, k as int) == diff_of(before, title@, 0),
            decreases n - k,
        {
            let diff = matches!(self.documents[k].kind, DocKind::Diff);
            if diff && same(self.documents[k].name.as_str(), title) {
                self.documents.set(k, d);
                self.active = Some(k);
                return;
            }
            k = k + 1;
        }
        self.add(d);
        assert(self.documents@.take(before.len() as int) =~= before);
    }

    /// Opens an image by the key under which it is held, or goes to it where it is open.
    pub fn open_image(&mut self, path: &str, key: &str)
        requires
            old(self).wf(),
        ensures
            final(self).wf(),
            final(self).tree == old(self).tree,
            match doc_of(old(self).documents@, path@, 0) {
                Some(i) => final(self).documents == old(self).documents && final(self).active
                    == Some(i),
                None => {
                    let n = old(self).documents@.len() as int;
                    &&& final(self).documents@.len() == n + 1
                    &&& final(self).documents@.take(n) == old(self).documents@
                    &&& final(self).active == Some(n as usize)
                    &&& final(self).documents@[n].kind matches DocKind::Image(k) && k@ == key@
                    &&& is_fresh(final(self).documents@[n], path@, Seq::empty(), Seq::empty())
                },
            },
    {
        if self.focus_path(path) {
            return;
        }
        let ghost before = self.documents@;
        self.add(fresh(path, String::new(), DocKind::Image(key.to_owned()), Vec::new()));
        assert(self.documents@.take(before.len() as int) =~= before);
    }

    /// Closes the active document.
    pub fn close_active(&mut self)
        ensures
            final(self).tree == old(self).tree,
            match old(self).active {
                None => *final(self) == *old(self),
                Some(i) => if i >= old(self).documents@.len() {
                    final(self).active == None::<usize> && final(self).documents
                        == old(self).documents
                } else {
                    final(self).documents@ == old(self).documents@.remove(i as int) && final(self).active == after_close(i, final(self).documents@.len())
                },
            },
            final(self).wf(),
    {
        let i: usize = match self.active {
            Some(i) => i,
            None => {
                return;
            },
        };
        if i >= self.documents.len() {
            self.active = None;
            return;
        }
        self.documents.remove(i);
        let n: usize = self.documents.len();
        if n == 0 {
            self.active = None;
        } else if i >= n {
            self.active = Some(n - 1);
        } else {
            self.active = Some(i);
        }
    }

    /// Closes a document. The active one stays active; where it was the one closed, the one
    /// in its place is.
    pub fn close_idx(&mut self, idx: usize)
        requires
            old(self).wf(),
        ensures
            final(self).wf(),
            final(self).tree == old(self).tree,
            if idx >= old(self).documents@.len() {
                *final(self) == *old(self)
            } else {
                &&& final(self).documents@ == old(self).documents@.remove(idx as int)
                &&& final(self).active == match old(self).active {
                    None => None::<usize>,
                    Some(a) => if a == idx {
                        after_close(idx, final(self).documents@.len())
                    } else if a > idx {
                        Some((a - 1) as usize)
                    } else {
                        Some(a)
                    },
                }
            },
    {
        if idx >= self.documents.len() {
            return;
        }
        self.documents.remove(idx);
        let n: usize = self.documents.len();
        if let Some(a) = self.active {
            if a == idx {
                if n == 0 {
                    self.active = None;
                } else if idx >= n {
                    self.active = Some(n - 1);
                } else {
                    self.active = Some(idx);
                }
            } else if a > idx {
                self.active = Some(a - 1);
            }
        }
    }

    /// Makes a document the active one.
    pub fn switch_to(&mut self, idx: usize)
        ensures
            old(self).wf() ==> final(self).wf(),
            final(self).tree == old(self).tree,
            final(self).documents == old(self).documents,
            final(self).active == (if idx < old(self).documents@.len() {
                Some(idx)
            } else {
                old(self).active
            }),
    {
        if idx < self.documents.len() {
            self.active = Some(idx);
        }
    }

    /// Moves a tab to another place. The active document stays active.
    pub fn move_tab(&mut self, from: usize, to: usize)
        requires
            old(self).wf(),
        ensures
            final(self).wf(),
            final(self).tree == old(self).tree,
            if from == to || from >= old(self).documents@.len() || to >= old(self).documents@.len() {
                *final(self) == *old(self)
            } else {
                &&& final(self).documents@ == moved_docs(old(self).documents@, from, to)
                &&& final(self).active == match old(self).active {
                    None => None::<usize>,
                    Some(a) => Some(moved_index(a, from, to)),
                }
            },
    {
        let n: usize = self.documents.len();
        if from == to || from >= n || to >= n {
            return;
        }
        let doc = self.documents.remove(from);
        self.documents.insert(to, doc);
        if let Some(a) = self.active {
            self.active = Some(
                if a == from {
                    to
                } else if from < a && a <= to {
                    a - 1
                } else if to <= a && a < from {
                    a + 1
                } else {
                    a
                },
            );
        }
    }

    /// Gives the documents of a renamed path their new path and name.
    pub fn repoint(&mut self, from: &str, to: &str, name: &str)
        ensures
            final(self).active == old(self).active,
            final(self).tree == old(self).tree,
            final(self).documents@.len() == old(self).documents@.len(),
            forall|i: int|
                0 <= i < old(self).documents@.len() ==> is_repointed(
                    #[trigger] final(self).documents@[i],
                    old(self).documents@[i],
                    from@,
                    to@,
                    name@,
                ),
    {
        let n: usize = self.documents.len();
        let ghost before = self.documents@;
        let mut k: usize = 0;
        while k < n
            invariant
                n == self.documents@.len(),
                n == before.len(),
                k <= n,
                before == old(self).documents@,
                self.active == old(self).active,
                self.tree == old(self).tree,
                forall|i: int|
                    0 <= i < k ==> is_repointed(
                        #[trigger] self.documents@[i],
                        before[i],
                        from@,
                        to@,
                        name@,
                    ),
                forall|i: int| k <= i < n ==> #[trigger] self.documents@[i] == before[i],
            decreases n - k,
        {
            let here = match &self.documents[k].path {
                Some(p) => same(p.as_str(), from),
                None => false,
            };
            if here {
                let d = self.documents.remove(k);
                let new = Document {
                    path: Some(to.to_owned()),
                    name: name.to_owned(),
                    text: d.text,
                    kind: d.kind,
                    dirty: d.dirty,
                    breakpoints: d.breakpoints,
                };
                self.documents.insert(k, new);
            }
            k = k + 1;
        }
    }
}

/// Whether a document is a difference that was just opened.
pub open spec fn is_diff(d: Document, title: Seq<char>) -> bool {
    d.path is None && d.name@ == title && d.text@.len() == 0 && d.kind is Diff && !d.dirty
        && d.breakpoints@.len() == 0
}

/// Whether a document is what it was, with the new path and name where it had the old path.
pub open spec fn is_repointed(
    new: Document,
    old: Document,
    from: Seq<char>,
    to: Seq<char>,
    name: Seq<char>,
) -> bool {
    if opt_view(old.path) == Some(from) {
        opt_view(new.path) == Some(to) && new.name@ == name && new.text == old.text && new.kind
            == old.kind && new.dirty == old.dirty && new.breakpoints == old.breakpoints
    } else {
        new == old
    }
}

/// The documents with the one at `from` moved to `to`.
pub open spec fn moved_docs(docs: Seq<Document>, from: usize, to: usize) -> Seq<Document> {
    docs.remove(from as int).insert(to as int, docs[from as int])
}

/// Moving a tab keeps every document, and each is found where `moved_index` says: in
/// particular the active one is the same document as before.
pub proof fn law_move_tab_keeps_documents(docs: Seq<Document>, from: usize, to: usize, a: usize)
    requires
        from < docs.len() <= usize::MAX,
        to < docs.len(),
        from != to,
        a < docs.len(),
    ensures
        moved_docs(docs, from, to).len() == docs.len(),
        moved_index(a, from, to) < docs.len(),
        moved_docs(docs, from, to)[moved_index(a, from, to) as int] == docs[a as int],
{
}

/// Moving a tab and moving it back leaves the tabs as they were.
pub proof fn law_move_back_restores(docs: Seq<Document>, from: usize, to: usize)
    requires
        from < docs.len() <= usize::MAX,
        to < docs.len(),
    ensures
        moved_docs(moved_docs(docs, from, to), to, from) == docs,
{
    assert(moved_docs(moved_docs(docs, from, to), to, from) =~= docs);
}

/// Closing another document than the active one keeps the active document.
pub proof fn law_close_keeps_active(docs: Seq<Document>, idx: usize, a: usize)
    requires
        idx < docs.len() <= usize::MAX,
        a < docs.len(),
        a != idx,
    ensures
        docs.remove(idx as int)[if a > idx {
            a - 1
        } else {
            a as int
        }] == docs[a as int],
{
}

/// Whether an entry may stand before another: no file before a folder, and among folders or
/// files none whose name, whatever the case, comes behind.
pub open spec fn may_stand_before(a: EntryView, b: EntryView) -> bool {
    &&& b.1 ==> a.1
    &&& a.1 == b.1 ==> !less(lowercase(b.0), lowercase(a.0))
}

pub(crate) proof fn lemma_not_first(a: EntryView, b: EntryView)
    ensures
        !comes_first(b, a) == may_stand_before(a, b),
        comes_first(a, b) ==> may_stand_before(a, b),
{
    if comes_first(a, b) && a.1 == b.1 && less(lowercase(b.0), lowercase(a.0)) {
        crate::search_rows::lemma_less_trans(lowercase(a.0), lowercase(b.0), lowercase(a.0), 0);
        crate::search_rows::lemma_less_irreflexive(lowercase(a.0), 0);
    }
}

pub(crate) proof fn lemma_first_carries(e: EntryView, a: EntryView, b: EntryView)
    requires
        comes_first(e, a),
        may_stand_before(a, b),
    ensures
        may_stand_before(e, b),
{
    let (le, la, lb) = (lowercase(e.0), lowercase(a.0), lowercase(b.0));
    if e.1 == b.1 && less(lb, le) {
        assert(a.1 == e.1);
        crate::search_rows::lemma_less_trans(lb, le, la, 0);
    }
}

/// A folder is shown with its folders first, and its folders and its files each by name,
/// whatever the case.
pub proof fn law_entries_are_shown_in_order(entries: Seq<EntryView>, i: int, j: int)
    requires
        0 <= i < j < arranged(entries).len(),
    ensures
        arranged(entries)[j].1 ==> arranged(entries)[i].1,
        arranged(entries)[i].1 == arranged(entries)[j].1 ==> !less(
            lowercase(arranged(entries)[j].0),
            lowercase(arranged(entries)[i].0),
        ),
{
    lemma_in_order(entries, i, j);
}

proof fn lemma_in_order(entries: Seq<EntryView>, i: int, j: int)
    requires
        0 <= i < j < arranged(entries).len(),
    ensures
        may_stand_before(arranged(entries)[i], arranged(entries)[j]),
    decreases entries.len(),
{
    let rest = arranged(entries.drop_last());
    let e = entries.last();
    let all = arranged(entries);
    if is_noise(e.0) {
        lemma_in_order(entries.drop_last(), i, j);
    } else {
        let p = entry_place(rest, e, 0);
        lemma_place_parts(rest, e, 0);
        if i != p && j != p {
            let a = if i < p { i } else { i - 1 };
            let b = if j < p { j } else { j - 1 };
            assert(all[i] == rest[a] && all[j] == rest[b]);
            lemma_in_order(entries.drop_last(), a, b);
        } else if j == p {
            assert(all[i] == rest[i]);
            lemma_not_first(rest[i], e);
        } else {
            assert(all[j] == rest[j - 1]);
            assert(comes_first(e, rest[p]));
            lemma_not_first(e, rest[p]);
            if j - 1 > p {
                lemma_in_order(entries.drop_last(), p, j - 1);
                lemma_first_carries(e, rest[p], rest[j - 1]);
            }
        }
    }
}

pub(crate) proof fn lemma_place_parts(sorted: Seq<EntryView>, e: EntryView, k: int)
    requires
        0 <= k <= sorted.len(),
    ensures
        k <= entry_place(sorted, e, k) <= sorted.len(),
        entry_place(sorted, e, k) < sorted.len() ==> comes_first(
            e,
            sorted[entry_place(sorted, e, k)],
        ),
        forall|m: int| k <= m < entry_place(sorted, e, k) ==> !comes_first(e, #[trigger] sorted[m]),
    decreases sorted.len() - k,
{
    if k < sorted.len() && !comes_first(e, sorted[k]) {
        lemma_place_parts(sorted, e, k + 1);
    }
}

/// Whether a name is one that version control or the system leaves about.
pub open spec fn is_left_about(name: Seq<char>) -> bool {
    name == seq!['.', 'g', 'i', 't'] || name == seq!['.', 's', 'v', 'n'] || name == seq![
        '.',
        'h',
        'g',
    ] || name == seq!['C', 'V', 'S'] || name == seq![
        '.',
        'D',
        'S',
        '_',
        'S',
        't',
        'o',
        'r',
        'e',
    ] || name == seq!['T', 'h', 'u', 'm', 'b', 's', '.', 'd', 'b']
}

proof fn lemma_noise(name: Seq<char>)
    ensures
        is_noise(name) == is_left_about(name),
{
    reveal_strlit(".git");
    reveal_strlit(".svn");
    reveal_strlit(".hg");
    reveal_strlit("CVS");
    reveal_strlit(".DS_Store");
    reveal_strlit("Thumbs.db");
    assert(".git"@ =~= seq!['.', 'g', 'i', 't']);
    assert(".svn"@ =~= seq!['.', 's', 'v', 'n']);
    assert(".hg"@ =~= seq!['.', 'h', 'g']);
    assert("CVS"@ =~= seq!['C', 'V', 'S']);
    assert(".DS_Store"@ =~= seq!['.', 'D', 'S', '_', 'S', 't', 'o', 'r', 'e']);
    assert("Thumbs.db"@ =~= seq!['T', 'h', 'u', 'm', 'b', 's', '.', 'd', 'b']);
}

/// Every entry of a folder is shown exactly as often as the folder has it, but for what version
/// control and the system leave about, which is not shown.
pub proof fn law_entries_are_all_shown(entries: Seq<EntryView>, e: EntryView)
    ensures
        arranged(entries).to_multiset().count(e) == (if is_left_about(e.0) {
            0
        } else {
            entries.to_multiset().count(e)
        }),
    decreases entries.len(),
{
    broadcast use vstd::seq_lib::group_to_multiset_ensures;

    lemma_noise(e.0);
    if entries.len() > 0 {
        law_entries_are_all_shown(entries.drop_last(), e);
        let last = entries.last();
        lemma_noise(last.0);
        let rest = arranged(entries.drop_last());
        assert(entries =~= entries.drop_last().push(last));
        if !is_noise(last.0) {
            lemma_place_parts(rest, last, 0);
            vstd::seq_lib::to_multiset_insert(rest, entry_place(rest, last, 0), last);
        }
    } else {
        assert(entries.to_multiset().count(e) == 0);
        assert(arranged(entries) =~= entries);
    }
}

/// Whether the rows hold an entry of a folder: its path and name, at the depth of the folder,
/// open where it is an open folder, and marked where git ignores it.
pub open spec fn has_entry(
    rows: Seq<NodeView>,
    state: TreeState,
    dir: Seq<char>,
    depth: usize,
    e: EntryView,
) -> bool {
    exists|i: int|
        0 <= i < rows.len() && (#[trigger] rows[i]).path == joined_path(dir, e.0) && rows[i].name
            == e.0 && rows[i].is_dir == e.1 && rows[i].depth == depth && rows[i].expanded == (e.1
            && state.expanded.contains(joined_path(dir, e.0))) && rows[i].ignored == is_ignored(
            state.ignored,
            joined_path(dir, e.0),
        )
}

/// Every entry of a folder that is not hidden has its row.
pub proof fn law_entries_have_their_rows(
    state: TreeState,
    disk: Disk,
    dir: Seq<char>,
    rel: Seq<char>,
    depth: usize,
    entries: Seq<EntryView>,
    k: int,
    j: int,
)
    requires
        0 <= k <= j < entries.len(),
        !is_hidden(
            replaced(rel_below(rel, entries[j].0), "\\"@, "/"@),
            disk.excludes,
            is_ignored(state.ignored, joined_path(dir, entries[j].0)),
            disk.hide_gitignored,
        ),
    ensures
        has_entry(rows_from(state, disk, dir, rel, depth, entries, k), state, dir, depth, entries[j]),
    decreases entries.len() - k,
{
    let all = rows_from(state, disk, dir, rel, depth, entries, k);
    let rest = rows_from(state, disk, dir, rel, depth, entries, k + 1);
    let (name, is_dir) = entries[k];
    let path = joined_path(dir, name);
    let ignored = is_ignored(state.ignored, path);
    let below = rel_below(rel, name);
    if k == j {
        assert(all[0].path == path);
    } else {
        law_entries_have_their_rows(state, disk, dir, rel, depth, entries, k + 1, j);
        let i = choose|i: int|
            0 <= i < rest.len() && (#[trigger] rest[i]).path == joined_path(dir, entries[j].0)
                && rest[i].name == entries[j].0 && rest[i].is_dir == entries[j].1 && rest[i].depth
                == depth && rest[i].expanded == (entries[j].1 && state.expanded.contains(
                joined_path(dir, entries[j].0),
            )) && rest[i].ignored == is_ignored(state.ignored, joined_path(dir, entries[j].0));
        if is_hidden(replaced(below, "\\"@, "/"@), disk.excludes, ignored, disk.hide_gitignored) {
            assert(all == rest);
        } else {
            let at = all.len() - rest.len() + i;
            assert(all[at] == rest[i]);
        }
    }
}

/// Whether rows are nested: the first stands at `depth`, none before it, and a row stands deeper
/// than the one above it only where that one is an open folder, and by one only.
pub open spec fn is_nested(rows: Seq<NodeView>, depth: usize) -> bool {
    &&& rows.len() > 0 ==> rows[0].depth == depth
    &&& forall|i: int| 0 <= i < rows.len() ==> (#[trigger] rows[i]).depth >= depth
    &&& forall|i: int, j: int|
        0 <= i && j == i + 1 && j < rows.len() ==> (#[trigger] rows[j]).depth <= (
        #[trigger] rows[i]).depth || (rows[i].is_dir && rows[i].expanded && (rows[j].depth
            == rows[i].depth + 1 || rows[i].depth == usize::MAX))
}

/// What an open folder holds stands directly below it, one step further in; a closed folder shows
/// nothing of what it holds.
pub proof fn law_rows_are_nested(
    state: TreeState,
    disk: Disk,
    dir: Seq<char>,
    rel: Seq<char>,
    depth: usize,
    entries: Seq<EntryView>,
    k: int,
)
    ensures
        is_nested(rows_from(state, disk, dir, rel, depth, entries, k), depth),
    decreases longest(disk.listings@, disk.listings@.len() as int) - dir.len(), entries.len() - k,
{
    if 0 <= k < entries.len() {
        let all = rows_from(state, disk, dir, rel, depth, entries, k);
        let rest = rows_from(state, disk, dir, rel, depth, entries, k + 1);
        law_rows_are_nested(state, disk, dir, rel, depth, entries, k + 1);
        let (name, is_dir) = entries[k];
        let path = joined_path(dir, name);
        let below = rel_below(rel, name);
        let ignored = is_ignored(state.ignored, path);
        if !is_hidden(replaced(below, "\\"@, "/"@), disk.excludes, ignored, disk.hide_gitignored) {
            let expanded = is_dir && state.expanded.contains(path);
            let own = NodeView { path, name, is_dir, depth, expanded, ignored };
            let inner = if expanded && dir.len() < path.len() && path.len() <= longest(
                disk.listings@,
                disk.listings@.len() as int,
            ) {
                law_rows_are_nested(
                    state,
                    disk,
                    path,
                    below,
                    deeper(depth),
                    arranged(entries_of(disk.listings@, path, 0)),
                    0,
                );
                rows_from(
                    state,
                    disk,
                    path,
                    below,
                    deeper(depth),
                    arranged(entries_of(disk.listings@, path, 0)),
                    0,
                )
            } else {
                Seq::empty()
            };
            assert(all =~= seq![own] + inner + rest);
            let m = inner.len() as int;
            assert forall|i: int| 0 <= i < all.len() implies (#[trigger] all[i]).depth >= depth by {
                if 0 < i <= m {
                    assert(all[i] == inner[i - 1]);
                } else if i > m {
                    assert(all[i] == rest[i - m - 1]);
                }
            }
            assert forall|i: int, j: int|
                0 <= i && j == i + 1 && j < all.len() implies (#[trigger] all[j]).depth <= (
            #[trigger] all[i]).depth || (all[i].is_dir && all[i].expanded && (all[j].depth
                == all[i].depth + 1 || all[i].depth == usize::MAX)) by {
                if j <= m {
                    assert(all[j] == inner[j - 1]);
                    if i > 0 {
                        assert(all[i] == inner[i - 1]);
                    } else {
                        assert(inner[0].depth == deeper(depth));
                    }
                } else {
                    assert(all[j] == rest[j - m - 1]);
                    if i > m {
                        assert(all[i] == rest[i - m - 1]);
                    } else {
                        assert(rest[0].depth == depth);
                    }
                }
            }
        }
    }
}

/// A row is hidden where git ignores it and that is asked for, where a pattern leaves it out, and
/// where there are patterns of what is shown and it matches none of them.
pub proof fn law_what_is_hidden(rel: Seq<char>, excludes: Filters, ignored: bool, hide: bool)
    ensures
        ignored && hide ==> is_hidden(rel, excludes, ignored, hide),
        any_matches(excludes.excludes(), rel) ==> is_hidden(rel, excludes, ignored, hide),
        excludes.includes().len() > 0 && !any_matches(excludes.includes(), rel) ==> is_hidden(
            rel,
            excludes,
            ignored,
            hide,
        ),
        !(ignored && hide) && !any_matches(excludes.excludes(), rel) && any_matches(
            excludes.includes(),
            rel,
        ) ==> !is_hidden(rel, excludes, ignored, hide),
        !(ignored && hide) && excludes.excludes().len() == 0 && excludes.includes().len() == 0
            ==> !is_hidden(rel, excludes, ignored, hide),
{
}

proof fn lemma_odd_count(t: Seq<char>, n: int)
    requires
        0 <= n <= t.len(),
        forall|i: int|
            0 <= i < n ==> (#[trigger] t[i] as int) >= 0x20 && !(0x7F <= t[i] as int <= 0x9F) || t[i]
                == '\t' || t[i] == '\n' || t[i] == '\r',
    ensures
        odd_count(t, n) == 0,
    decreases n,
{
    if n > 0 {
        lemma_odd_count(t, n - 1);
        assert(!is_odd(t[n - 1]));
    }
}

/// A file with a zero byte among its first 8192 bytes cannot be shown, nor one of at most that
/// length that is no UTF-8; one of plain characters, tabs and line breaks can.
pub proof fn law_plain_text_is_shown(bytes: Seq<u8>)
    ensures
        (exists|i: int| 0 <= i < bytes.len() && i < 8192 && #[trigger] bytes[i] == 0)
            ==> looks_binary(bytes),
        bytes.len() <= 8192 && !vstd::utf8::valid_utf8(bytes) ==> looks_binary(bytes),
        bytes.len() <= 8192 && vstd::utf8::valid_utf8(bytes) && !bytes.contains(0u8) && (forall|i: int|
            0 <= i < vstd::utf8::decode_utf8(bytes).len() ==> (#[trigger] vstd::utf8::decode_utf8(
                bytes,
            )[i] as int) >= 0x20 && !(0x7F <= vstd::utf8::decode_utf8(bytes)[i] as int <= 0x9F)
                || vstd::utf8::decode_utf8(bytes)[i] == '\t' || vstd::utf8::decode_utf8(bytes)[i]
                == '\n' || vstd::utf8::decode_utf8(bytes)[i] == '\r') ==> !looks_binary(bytes),
{
    let sample = sample_of(bytes);
    if exists|i: int| 0 <= i < bytes.len() && i < 8192 && #[trigger] bytes[i] == 0 {
        let i = choose|i: int| 0 <= i < bytes.len() && i < 8192 && #[trigger] bytes[i] == 0;
        assert(sample[i] == 0u8);
    }
    if bytes.len() <= 8192 {
        assert(sample =~= bytes);
        let t = vstd::utf8::decode_utf8(bytes);
        if forall|i: int|
            0 <= i < t.len() ==> (#[trigger] t[i] as int) >= 0x20 && !(0x7F <= t[i] as int <= 0x9F)
                || t[i] == '\t' || t[i] == '\n' || t[i] == '\r' {
            lemma_odd_count(t, t.len() as int);
        }
    }
}

/// A document is found by its path: the first that has it, and none where none has.
pub proof fn law_documents_are_found_by_path(docs: Seq<Document>, path: Seq<char>, k: int)
    requires
        0 <= k <= docs.len() <= usize::MAX,
    ensures
        match doc_of(docs, path, k) {
            Some(i) => k <= i < docs.len() && opt_view(docs[i as int].path) == Some(path)
                && forall|j: int|
                k <= j < i ==> opt_view((#[trigger] docs[j]).path) != Some(path),
            None => forall|j: int|
                k <= j < docs.len() ==> opt_view((#[trigger] docs[j]).path) != Some(path),
        },
    decreases docs.len() - k,
{
    if k < docs.len() && opt_view(docs[k].path) != Some(path) {
        law_documents_are_found_by_path(docs, path, k + 1);
    }
}

/// A difference is found by its title, and only among the documents that show one.
pub proof fn law_differences_are_found_by_title(docs: Seq<Document>, title: Seq<char>, k: int)
    requires
        0 <= k <= docs.len() <= usize::MAX,
    ensures
        match diff_of(docs, title, k) {
            Some(i) => k <= i < docs.len() && docs[i as int].kind is Diff && docs[i as int].name@
                == title,
            None => forall|j: int|
                k <= j < docs.len() ==> !((#[trigger] docs[j]).kind is Diff && docs[j].name@
                    == title),
        },
    decreases docs.len() - k,
{
    if k < docs.len() && !(docs[k].kind is Diff && docs[k].name@ == title) {
        law_differences_are_found_by_title(docs, title, k + 1);
    }
}

/// Behind a closed tab the one to its right comes to the front, or the last where it was the last
/// itself; with no tab left none does.
pub proof fn law_neighbour_comes_to_the_front(docs: Seq<Document>, closed: usize)
    requires
        closed < docs.len() <= usize::MAX,
    ensures
        docs.len() == 1 ==> after_close(closed, (docs.len() - 1) as nat) is None,
        docs.len() > 1 ==> match after_close(closed, (docs.len() - 1) as nat) {
            Some(a) => a < docs.len() - 1 && docs.remove(closed as int)[a as int] == docs[if closed
                + 1 < docs.len() {
                closed + 1
            } else {
                closed - 1
            }],
            None => false,
        },
{
}

/// A file that was just opened is not changed, bears the name that its path ends with, and stops
/// at the stored lines: the last list of its path counts, and lines are stored from one on.
pub proof fn law_opened_files_are_fresh(
    d: Document,
    path: Seq<char>,
    text: Seq<char>,
    stored: Seq<(String, Vec<i64>)>,
    dir: Seq<char>,
    name: Seq<char>,
    k: int,
    m: int,
)
    requires
        is_fresh(d, path, text, stops_of(stored, path, stored.len() as int)),
        path == joined_path(dir, name),
        is_name(name),
        name != "."@,
        name != ".."@,
        0 <= k < stored.len(),
        stored[k].0@ == path,
        forall|j: int| k < j < stored.len() ==> (#[trigger] stored[j]).0@ != path,
        0 <= m < stored[k].1@.len(),
        1 <= stored[k].1@[m] <= usize::MAX,
    ensures
        d.path is Some,
        d.path->0@ == path,
        d.name@ == name,
        d.text@ == text,
        !d.dirty,
        d.breakpoints@.len() == stored[k].1@.len(),
        d.breakpoints@[m] + 1 == stored[k].1@[m],
{
    crate::paths::law_joined_name_is_last(dir, name);
    lemma_stops(stored, path, stored.len() as int, k);
}

proof fn lemma_stops(stored: Seq<(String, Vec<i64>)>, path: Seq<char>, n: int, k: int)
    requires
        0 <= k < n <= stored.len(),
        stored[k].0@ == path,
        forall|j: int| k < j < n ==> (#[trigger] stored[j]).0@ != path,
    ensures
        stops_of(stored, path, n) == stop_lines(stored[k].1@),
    decreases n,
{
    if k < n - 1 {
        assert(stored[n - 1].0@ != path);
        lemma_stops(stored, path, n - 1, k);
    }
}

/// A file that has no stored lines stops nowhere.
pub proof fn law_files_without_stored_lines(stored: Seq<(String, Vec<i64>)>, path: Seq<char>, n: int)
    requires
        0 <= n <= stored.len(),
        forall|j: int| 0 <= j < n ==> (#[trigger] stored[j]).0@ != path,
    ensures
        stops_of(stored, path, n).len() == 0,
    decreases n,
{
    if n > 0 {
        assert(stored[n - 1].0@ != path);
        law_files_without_stored_lines(stored, path, n - 1);
    }
}

/// A renamed file keeps everything but its path and its name; the other documents keep all.
pub proof fn law_renaming_keeps_the_text(
    new: Document,
    old_doc: Document,
    from: Seq<char>,
    to: Seq<char>,
    name: Seq<char>,
)
    requires
        is_repointed(new, old_doc, from, to, name),
    ensures
        new.text@ == old_doc.text@,
        new.dirty == old_doc.dirty,
        new.kind == old_doc.kind,
        new.breakpoints@ == old_doc.breakpoints@,
        opt_view(old_doc.path) == Some(from) ==> opt_view(new.path) == Some(to) && new.name@ == name,
        opt_view(old_doc.path) != Some(from) ==> opt_view(new.path) == opt_view(old_doc.path)
            && new.name@ == old_doc.name@,
{
}

/// The folders that were read tell their own entries: those of the first that was read under the
/// path, and none where it was not read.
pub proof fn law_folders_tell_their_entries(listings: Seq<Listing>, dir: Seq<char>, k: int, j: int)
    requires
        0 <= k <= j <= listings.len(),
        forall|i: int| k <= i < j ==> (#[trigger] listings[i]).dir@ != dir,
        j < listings.len() ==> listings[j].dir@ == dir,
    ensures
        j == listings.len() ==> entries_of(listings, dir, k).len() == 0,
        j < listings.len() ==> entries_of(listings, dir, k).len() == listings[j].entries@.len(),
        j < listings.len() ==> forall|i: int|
            0 <= i < listings[j].entries@.len() ==> (#[trigger] entries_of(listings, dir, k)[i]).0
                == listings[j].entries@[i].name@ && entries_of(listings, dir, k)[i].1
                == listings[j].entries@[i].is_dir,
    decreases j - k,
{
    if k < j {
        assert(listings[k].dir@ != dir);
        law_folders_tell_their_entries(listings, dir, k + 1, j);
    }
}

/// An open folder that was read shows every entry that is not hidden, one step further in.
pub proof fn law_open_folders_show_their_entries(
    state: TreeState,
    disk: Disk,
    dir: Seq<char>,
    rel: Seq<char>,
    depth: usize,
    entries: Seq<EntryView>,
    k: int,
    j: int,
    c: int,
)
    requires
        0 <= k <= j < entries.len(),
        depth < usize::MAX,
        entries[j].1,
        ({
            let path = joined_path(dir, entries[j].0);
            let inner = arranged(entries_of(disk.listings@, path, 0));
            &&& state.expanded.contains(path)
            &&& dir.len() < path.len() <= longest(disk.listings@, disk.listings@.len() as int)
            &&& !is_hidden(
                replaced(rel_below(rel, entries[j].0), "\\"@, "/"@),
                disk.excludes,
                is_ignored(state.ignored, path),
                disk.hide_gitignored,
            )
            &&& 0 <= c < inner.len()
            &&& !is_hidden(
                replaced(rel_below(rel_below(rel, entries[j].0), inner[c].0), "\\"@, "/"@),
                disk.excludes,
                is_ignored(state.ignored, joined_path(path, inner[c].0)),
                disk.hide_gitignored,
            )
        }),
    ensures
        has_entry(
            rows_from(state, disk, dir, rel, depth, entries, k),
            state,
            joined_path(dir, entries[j].0),
            (depth + 1) as usize,
            arranged(entries_of(disk.listings@, joined_path(dir, entries[j].0), 0))[c],
        ),
    decreases entries.len() - k,
{
    let all = rows_from(state, disk, dir, rel, depth, entries, k);
    let rest = rows_from(state, disk, dir, rel, depth, entries, k + 1);
    let home = joined_path(dir, entries[j].0);
    let kids = arranged(entries_of(disk.listings@, home, 0));
    let e = kids[c];
    let (name, is_dir) = entries[k];
    let path = joined_path(dir, name);
    let below = rel_below(rel, name);
    let ignored = is_ignored(state.ignored, path);
    let part = if k == j {
        law_entries_have_their_rows(state, disk, home, below, (depth + 1) as usize, kids, 0, c);
        rows_from(state, disk, home, below, (depth + 1) as usize, kids, 0)
    } else {
        law_open_folders_show_their_entries(state, disk, dir, rel, depth, entries, k + 1, j, c);
        rest
    };
    let i = choose|i: int|
        0 <= i < part.len() && (#[trigger] part[i]).path == joined_path(home, e.0) && part[i].name
            == e.0 && part[i].is_dir == e.1 && part[i].depth == (depth + 1) as usize
            && part[i].expanded == (e.1 && state.expanded.contains(joined_path(home, e.0)))
            && part[i].ignored == is_ignored(state.ignored, joined_path(home, e.0));
    if k == j {
        assert(all[1 + i] == part[i]);
    } else if is_hidden(
        replaced(below, "\\"@, "/"@),
        disk.excludes,
        ignored,
        disk.hide_gitignored,
    ) {
        assert(all == rest);
    } else {
        assert(all[all.len() - rest.len() + i] == part[i]);
    }
}

} // verus!
