//! The bar of path segments, each with a list of what lies at its place.
use vstd::prelude::*;

use crate::paths::join;
use crate::paths::joined_path;
use crate::paths::list_below;
use crate::paths::parent;
use crate::paths::parent_of;
use crate::paths::parts_below;
use crate::text::same;
use crate::text::views;
use crate::workspace::entry_place;
use crate::workspace::Entry;
use crate::workspace::EntryView;

verus! {

/// One segment.
pub struct Crumb {
    pub path: String,
    pub is_dir: bool,
    pub label: String,
}

/// A segment by its contents.
pub struct CrumbView {
    pub path: Seq<char>,
    pub is_dir: bool,
    pub label: Seq<char>,
}

impl View for Crumb {
    type V = CrumbView;

    open spec fn view(&self) -> CrumbView {
        CrumbView { path: self.path@, is_dir: self.is_dir, label: self.label@ }
    }
}

/// The contents of segments.
pub open spec fn crumb_views(v: Seq<Crumb>) -> Seq<CrumbView> {
    Seq::new(v.len(), |i: int| v[i]@)
}

/// The path of the first `n` segments below a folder.
pub open spec fn path_to(cwd: Seq<char>, parts: Seq<Seq<char>>, n: int) -> Seq<char>
    decreases n,
{
    if n <= 0 {
        cwd
    } else {
        joined_path(path_to(cwd, parts, n - 1), parts[n - 1])
    }
}

/// The segments of a file below a folder: all but the last are folders.
pub open spec fn crumbs_of(cwd: Seq<char>, file: Seq<char>) -> Seq<CrumbView> {
    let parts = parts_below(file, cwd);
    Seq::new(
        parts.len(),
        |i: int|
            CrumbView {
                path: path_to(cwd, parts, i + 1),
                is_dir: i != parts.len() - 1,
                label: parts[i],
            },
    )
}

/// An entry of the list.
pub struct Listed {
    pub name: String,
    pub path: String,
    pub is_dir: bool,
}

/// An entry of the list, by its contents.
pub struct ListedView {
    pub name: Seq<char>,
    pub path: Seq<char>,
    pub is_dir: bool,
}

impl View for Listed {
    type V = ListedView;

    open spec fn view(&self) -> ListedView {
        ListedView { name: self.name@, path: self.path@, is_dir: self.is_dir }
    }
}

/// The contents of a list.
pub open spec fn listed_views(v: Seq<Listed>) -> Seq<ListedView> {
    Seq::new(v.len(), |i: int| v[i]@)
}

/// Whether a name is left out of lists.
pub open spec fn is_left_out(name: Seq<char>) -> bool {
    name == ".git"@ || name == ".DS_Store"@ || name == "Thumbs.db"@
}

/// The entries that are listed: folders first and by name, whatever the case.
pub open spec fn listed(entries: Seq<EntryView>) -> Seq<EntryView>
    decreases entries.len(),
{
    if entries.len() == 0 {
        Seq::empty()
    } else {
        let rest = listed(entries.drop_last());
        let e = entries.last();
        if is_left_out(e.0) {
            rest
        } else {
            rest.insert(entry_place(rest, e, 0), e)
        }
    }
}

/// The list of a folder.
pub open spec fn list_of(dir: Seq<char>, entries: Seq<EntryView>) -> Seq<ListedView> {
    let l = listed(entries);
    Seq::new(
        l.len(),
        |i: int| ListedView { name: l[i].0, path: joined_path(dir, l[i].0), is_dir: l[i].1 },
    )
}

/// The bar.
pub struct Breadcrumbs {
    pub crumbs: Vec<Crumb>,
    /// The segment whose list is open.
    pub open: Option<usize>,
    /// The folder that is listed.
    pub dropdown_dir: String,
    pub entries: Vec<Listed>,
    pub hovered_row: Option<usize>,
}

/// The folder whose contents a segment lists: its own, or that of the file.
pub open spec fn listed_folder(c: CrumbView) -> Seq<char> {
    if c.is_dir {
        c.path
    } else {
        match parent_of(c.path) {
            Some(p) => p,
            None => c.path,
        }
    }
}

impl Breadcrumbs {
    /// An empty bar.
    pub fn new() -> (r: Breadcrumbs)
        ensures
            r.crumbs@.len() == 0,
            r.open is None,
            r.dropdown_dir@.len() == 0,
            r.entries@.len() == 0,
            r.hovered_row is None,
    {
        Breadcrumbs {
            crumbs: Vec::new(),
            open: None,
            dropdown_dir: String::new(),
            entries: Vec::new(),
            hovered_row: None,
        }
    }

    /// Lays the bar out for a file of a workspace. The list stays as it is.
    pub fn set_path(&mut self, cwd: &str, file: &str)
        ensures
            crumb_views(final(self).crumbs@) == crumbs_of(cwd@, file@),
            final(self).open == old(self).open,
            final(self).entries == old(self).entries,
            final(self).dropdown_dir == old(self).dropdown_dir,
            final(self).hovered_row == old(self).hovered_row,
    {
        let parts = list_below(file, cwd);
        let ghost pv = views(parts@);
        let ghost want = crumbs_of(cwd@, file@);
        let n: usize = parts.len();
        assert(pv.len() == n);
        let mut out: Vec<Crumb> = Vec::new();
        assert(crumb_views(out@) =~= want.take(0));
        let mut path = cwd.to_owned();
        let mut k: usize = 0;
        while k < n
            invariant
                k <= n,
                n == parts@.len(),
                pv == views(parts@),
                pv == parts_below(file@, cwd@),
                want == crumbs_of(cwd@, file@),
                path@ == path_to(cwd@, pv, k as int),
                crumb_views(out@) == want.take(k as int),
            decreases n - k,
        {
            assert(pv[k as int] == parts@[k as int]@);
            path = join(path.as_str(), parts[k].as_str());
            let c = Crumb {
                path: path.as_str().to_owned(),
                is_dir: k != n - 1,
                label: parts[k].as_str().to_owned(),
            };
            let ghost so_far = crumb_views(out@);
            let ghost cv = c@;
            out.push(c);
            assert(crumb_views(out@) =~= so_far.push(cv));
            assert(cv == want[k as int]);
            assert(want.take(k + 1) =~= want.take(k as int).push(want[k as int]));
            k = k + 1;
        }
        assert(want.take(k as int) =~= want);
        self.crumbs = out;
    }

    /// Opens the list of a segment, or closes it where it is open. Gives back the folder
    /// that is to be read for it.
    pub fn toggle(&mut self, i: usize) -> (r: Option<String>)
        ensures
            final(self).crumbs == old(self).crumbs,
            final(self).entries == old(self).entries,
            final(self).dropdown_dir == old(self).dropdown_dir,
            if old(self).open == Some(i) {
                r is None && final(self).open is None && final(self).hovered_row is None
            } else if i >= old(self).crumbs@.len() {
                r is None && *final(self) == *old(self)
            } else {
                r is Some && r->0@ == listed_folder(old(self).crumbs@[i as int]@) && final(self).open == Some(i) && final(self).hovered_row == old(self).hovered_row
            },
    {
        let open_here = match self.open {
            Some(o) => o == i,
            None => false,
        };
        if open_here {
            self.close();
            return None;
        }
        if i >= self.crumbs.len() {
            return None;
        }
        let c = &self.crumbs[i];
        let dir: String = if c.is_dir {
            c.path.as_str().to_owned()
        } else {
            match parent(c.path.as_str()) {
                Some(p) => p,
                None => c.path.as_str().to_owned(),
            }
        };
        self.open = Some(i);
        Some(dir)
    }

    /// Goes on to a folder of the list, as it was read; the list stays open.
    pub fn drill(&mut self, dir: &str, found: &Vec<Entry>)
        ensures
            listed_views(final(self).entries@) == list_of(
                dir@,
                crate::workspace::entry_views(found@),
            ),
            final(self).dropdown_dir@ == dir@,
            final(self).crumbs == old(self).crumbs,
            final(self).open == old(self).open,
            final(self).hovered_row == old(self).hovered_row,
    {
        self.load_dir(dir, found);
    }

    /// Lists a folder that was read. One that could not be read has no entries.
    pub fn load_dir(&mut self, dir: &str, found: &Vec<Entry>)
        ensures
            listed_views(final(self).entries@) == list_of(
                dir@,
                crate::workspace::entry_views(found@),
            ),
            final(self).dropdown_dir@ == dir@,
            final(self).crumbs == old(self).crumbs,
            final(self).open == old(self).open,
            final(self).hovered_row == old(self).hovered_row,
    {
        let sorted = sort_entries(found);
        let ghost sv = crate::workspace::entry_views(sorted@);
        let ghost want = list_of(dir@, crate::workspace::entry_views(found@));
        let mut out: Vec<Listed> = Vec::new();
        assert(listed_views(out@) =~= want.take(0));
        let mut k: usize = 0;
        while k < sorted.len()
            invariant
                k <= sorted@.len(),
                sv == crate::workspace::entry_views(sorted@),
                sv == listed(crate::workspace::entry_views(found@)),
                want == list_of(dir@, crate::workspace::entry_views(found@)),
                listed_views(out@) == want.take(k as int),
            decreases sorted.len() - k,
        {
            assert(sv[k as int] == (sorted@[k as int].name@, sorted@[k as int].is_dir));
            let e = Listed {
                name: sorted[k].name.as_str().to_owned(),
                path: join(dir, sorted[k].name.as_str()),
                is_dir: sorted[k].is_dir,
            };
            let ghost so_far = listed_views(out@);
            let ghost ev = e@;
            out.push(e);
            assert(listed_views(out@) =~= so_far.push(ev));
            assert(want.take(k + 1) =~= want.take(k as int).push(want[k as int]));
            k = k + 1;
        }
        assert(want.take(k as int) =~= want);
        self.entries = out;
        self.dropdown_dir = dir.to_owned();
    }

    /// Closes the list.
    pub fn close(&mut self)
        ensures
            final(self).open is None,
            final(self).hovered_row is None,
            final(self).crumbs == old(self).crumbs,
            final(self).entries == old(self).entries,
            final(self).dropdown_dir == old(self).dropdown_dir,
    {
        self.open = None;
        self.hovered_row = None;
    }

    /// Whether a list is open.
    pub fn is_open(&self) -> (r: bool)
        ensures
            r == (self.open is Some),
    {
        self.open.is_some()
    }

    /// The path of an entry of the list, and whether it is a folder.
    pub fn entry(&self, i: usize) -> (r: Option<(String, bool)>)
        ensures
            match r {
                Some((p, d)) => i < self.entries@.len() && p@ == self.entries@[i as int].path@ && d
                    == self.entries@[i as int].is_dir,
                None => i >= self.entries@.len(),
            },
    {
        if i < self.entries.len() {
            Some((self.entries[i].path.as_str().to_owned(), self.entries[i].is_dir))
        } else {
            None
        }
    }
}

fn sort_entries(entries: &Vec<Entry>) -> (r: Vec<Entry>)
    ensures
        crate::workspace::entry_views(r@) == listed(crate::workspace::entry_views(entries@)),
{
    let ghost all = crate::workspace::entry_views(entries@);
    let mut out: Vec<Entry> = Vec::new();
    assert(crate::workspace::entry_views(out@) =~= Seq::<EntryView>::empty());
    let mut k: usize = 0;
    while k < entries.len()
        invariant
            k <= entries@.len(),
            all == crate::workspace::entry_views(entries@),
            crate::workspace::entry_views(out@) == listed(all.take(k as int)),
        decreases entries.len() - k,
    {
        assert(all.take(k + 1).drop_last() =~= all.take(k as int));
        let e = &entries[k];
        let ghost ev = (e.name@, e.is_dir);
        assert(all.take(k + 1).last() == ev);
        let n = e.name.as_str();
        if !(same(n, ".git") || same(n, ".DS_Store") || same(n, "Thumbs.db")) {
            let ghost sorted = crate::workspace::entry_views(out@);
            let m: usize = out.len();
            let mut p: usize = 0;
            while p < m && !crate::workspace::goes_first(e, &out[p])
                invariant
                    m == out@.len(),
                    p <= m,
                    ev == (e.name@, e.is_dir),
                    sorted == crate::workspace::entry_views(out@),
                    entry_place(sorted, ev, p as int) == entry_place(sorted, ev, 0),
                decreases m - p,
            {
                assert(sorted[p as int] == (out@[p as int].name@, out@[p as int].is_dir));
                p = p + 1;
            }
            proof {
                if p < m {
                    assert(sorted[p as int] == (out@[p as int].name@, out@[p as int].is_dir));
                }
            }
            out.insert(p, Entry { name: e.name.as_str().to_owned(), is_dir: e.is_dir });
            assert(crate::workspace::entry_views(out@) =~= sorted.insert(p as int, ev));
        }
        k = k + 1;
    }
    assert(all.take(k as int) =~= all);
    out
}

/// The crumbs of a file are the steps to it from the workspace: each bears the name of its step,
/// leads one step further than the one before, and is a folder but for the last.
pub proof fn law_crumbs_lead_to_the_file(cwd: Seq<char>, file: Seq<char>, i: int)
    requires
        0 <= i < crumbs_of(cwd, file).len(),
    ensures
        crumbs_of(cwd, file).len() == parts_below(file, cwd).len(),
        crumbs_of(cwd, file)[i].label == parts_below(file, cwd)[i],
        crumbs_of(cwd, file)[i].is_dir == (i + 1 < crumbs_of(cwd, file).len()),
        i == 0 ==> crumbs_of(cwd, file)[i].path == joined_path(cwd, crumbs_of(cwd, file)[i].label),
        i > 0 ==> crumbs_of(cwd, file)[i].path == joined_path(
            crumbs_of(cwd, file)[i - 1].path,
            crumbs_of(cwd, file)[i].label,
        ),
{
    let parts = parts_below(file, cwd);
    assert(path_to(cwd, parts, 0) == cwd);
    assert(path_to(cwd, parts, i + 1) == joined_path(path_to(cwd, parts, i), parts[i]));
}

proof fn lemma_listed_in_order(entries: Seq<EntryView>, i: int, j: int)
    requires
        0 <= i < j < listed(entries).len(),
    ensures
        crate::workspace::may_stand_before(listed(entries)[i], listed(entries)[j]),
    decreases entries.len(),
{
    let rest = listed(entries.drop_last());
    let e = entries.last();
    let all = listed(entries);
    if is_left_out(e.0) {
        lemma_listed_in_order(entries.drop_last(), i, j);
    } else {
        let p = entry_place(rest, e, 0);
        crate::workspace::lemma_place_parts(rest, e, 0);
        if i != p && j != p {
            let a = if i < p { i } else { i - 1 };
            let b = if j < p { j } else { j - 1 };
            assert(all[i] == rest[a] && all[j] == rest[b]);
            lemma_listed_in_order(entries.drop_last(), a, b);
        } else if j == p {
            assert(all[i] == rest[i]);
            crate::workspace::lemma_not_first(rest[i], e);
        } else {
            assert(all[j] == rest[j - 1]);
            crate::workspace::lemma_not_first(e, rest[p]);
            if j - 1 > p {
                lemma_listed_in_order(entries.drop_last(), p, j - 1);
                crate::workspace::lemma_first_carries(e, rest[p], rest[j - 1]);
            }
        }
    }
}

/// A list under a crumb has folders first and then files, each by name, whatever the case, and
/// each entry leads into the folder that is listed.
pub proof fn law_lists_are_in_order(dir: Seq<char>, entries: Seq<EntryView>, i: int, j: int)
    requires
        0 <= i < j < list_of(dir, entries).len(),
    ensures
        list_of(dir, entries)[j].is_dir ==> list_of(dir, entries)[i].is_dir,
        list_of(dir, entries)[i].is_dir == list_of(dir, entries)[j].is_dir ==> !crate::text::less(
            crate::text::lowercase(list_of(dir, entries)[j].name),
            crate::text::lowercase(list_of(dir, entries)[i].name),
        ),
        list_of(dir, entries)[i].path == joined_path(dir, list_of(dir, entries)[i].name),
{
    lemma_listed_in_order(entries, i, j);
}

/// A list under a crumb has every entry of its folder as often as the folder has it, but for the
/// store of git and what the systems leave about.
pub proof fn law_lists_are_whole(entries: Seq<EntryView>, e: EntryView)
    ensures
        listed(entries).to_multiset().count(e) == (if e.0 == ".git"@ || e.0 == ".DS_Store"@ || e.0
            == "Thumbs.db"@ {
            0
        } else {
            entries.to_multiset().count(e)
        }),
    decreases entries.len(),
{
    broadcast use vstd::seq_lib::group_to_multiset_ensures;

    if entries.len() > 0 {
        law_lists_are_whole(entries.drop_last(), e);
        let last = entries.last();
        let rest = listed(entries.drop_last());
        assert(entries =~= entries.drop_last().push(last));
        if !is_left_out(last.0) {
            crate::workspace::lemma_place_parts(rest, last, 0);
            vstd::seq_lib::to_multiset_insert(rest, entry_place(rest, last, 0), last);
        }
    } else {
        assert(entries.to_multiset().count(e) == 0);
        assert(listed(entries) =~= entries);
    }
}

/// Under the crumb of a folder that folder is listed.
pub proof fn law_folders_list_themselves(c: CrumbView)
    ensures
        c.is_dir ==> listed_folder(c) == c.path,
        !c.is_dir && parent_of(c.path) is Some ==> listed_folder(c) == parent_of(c.path)->0,
{
}

} // verus!
