//! The rows that show the results of a search, as a tree of folders or as a list.
use vstd::prelude::*;

use crate::search::file_views;
use crate::search::FileMatches;
use crate::search::FileView;
use crate::search::LineMatch;
use crate::search::LineView;
use crate::text::add_bytes;
use crate::text::add_capped;
use crate::text::before;
use crate::text::byte_count;
use crate::text::capped;
use crate::text::chars_of;
use crate::text::decimal;
use crate::text::less;
use crate::text::less_from;
use crate::text::list_holds;
use crate::text::same;
use crate::text::split;
use crate::text::split_on;
use crate::text::text_of;
use crate::text::trim_from;
use crate::text::views;
use crate::text::white;
use crate::text::write_decimal;

verus! {

/// What a row shows.
#[derive(Clone, Copy, PartialEq, Eq, Debug, Structural)]
pub enum RowKind {
    Dir,
    File,
    Match,
}

/// One row of the results: a folder, a file or a matching line, at a depth. Folders and
/// files collapse by their key.
pub struct TreeRow {
    pub depth: usize,
    pub kind: RowKind,
    /// The name with the number of matches, or the text of the line.
    pub label: String,
    /// The position of the file among the results.
    pub file: usize,
    /// The path of the file, in file rows.
    pub rel: String,
    /// The number of the line, from 1, in match rows.
    pub line: Option<usize>,
    /// Where the first match starts in the whole line, in bytes.
    pub col: usize,
    /// What to highlight in the label, in bytes.
    pub ranges: Vec<(usize, usize)>,
    /// By what the row collapses; empty for matches.
    pub key: String,
}

/// The contents of a row.
pub struct RowView {
    pub depth: usize,
    pub kind: RowKind,
    pub label: Seq<char>,
    pub file: int,
    pub rel: Seq<char>,
    pub line: Option<usize>,
    pub col: usize,
    pub ranges: Seq<(usize, usize)>,
    pub key: Seq<char>,
}

impl View for TreeRow {
    type V = RowView;

    open spec fn view(&self) -> RowView {
        RowView {
            depth: self.depth,
            kind: self.kind,
            label: self.label@,
            file: self.file as int,
            rel: self.rel@,
            line: self.line,
            col: self.col,
            ranges: self.ranges@,
            key: self.key@,
        }
    }
}

/// The contents of a list of rows.
pub open spec fn row_views(v: Seq<TreeRow>) -> Seq<RowView> {
    Seq::new(v.len(), |i: int| v[i]@)
}

fn add_row(rows: &mut Vec<TreeRow>, row: TreeRow)
    ensures
        row_views(final(rows)@) == row_views(old(rows)@).push(row@),
{
    let ghost so_far = row_views(rows@);
    let ghost rv = row@;
    rows.push(row);
    assert(row_views(rows@) =~= so_far.push(rv));
}

/// The last segment of a path.
pub open spec fn last_segment(rel: Seq<char>) -> Seq<char> {
    let s = split_on(rel, '/');
    if s.len() == 0 {
        Seq::empty()
    } else {
        s.last()
    }
}

/// The segments of a path before its last.
pub open spec fn dirs_of(rel: Seq<char>) -> Seq<Seq<char>> {
    let s = split_on(rel, '/');
    if s.len() == 0 {
        s
    } else {
        s.drop_last()
    }
}

/// The last segment of a path.
pub fn basename(rel: &str) -> (r: String)
    ensures
        r@ == last_segment(rel@),
{
    let s = split(rel, '/');
    let n: usize = s.len();
    assert(views(s@).len() == n);
    if n == 0 {
        String::new()
    } else {
        assert(views(s@)[n - 1] == s@[n - 1]@);
        s[n - 1].as_str().to_owned()
    }
}

fn dirs(rel: &str) -> (r: Vec<String>)
    ensures
        views(r@) == dirs_of(rel@),
{
    let mut s = split(rel, '/');
    let ghost all = views(s@);
    if s.len() > 0 {
        s.pop();
        assert(views(s@) =~= all.drop_last());
    }
    s
}

/// A path and one more segment.
pub open spec fn path_below(base: Seq<char>, seg: Seq<char>) -> Seq<char> {
    if base.len() == 0 {
        seg
    } else {
        base + "/"@ + seg
    }
}

/// A path and one more segment.
pub fn join_path(base: &str, seg: &str) -> (r: String)
    ensures
        r@ == path_below(base@, seg@),
{
    if base.is_empty() {
        seg.to_owned()
    } else {
        let mut s = base.to_owned();
        s.append("/");
        s.append(seg);
        s
    }
}

/// A name with a number of matches behind it.
pub open spec fn counted(name: Seq<char>, n: usize) -> Seq<char> {
    name + "  ("@ + decimal(n as nat) + ")"@
}

fn count_label(name: &str, n: usize) -> (r: String)
    ensures
        r@ == counted(name@, n),
{
    let mut s = name.to_owned();
    s.append("  (");
    s.append(write_decimal(n as u64).as_str());
    s.append(")");
    s
}

/// One level deeper.
pub open spec fn deeper(depth: usize) -> usize {
    if depth < usize::MAX {
        (depth + 1) as usize
    } else {
        depth
    }
}

fn go_deeper(depth: usize) -> (r: usize)
    ensures
        r == deeper(depth),
{
    if depth < usize::MAX {
        depth + 1
    } else {
        depth
    }
}

/// A range of a line moved `lead` bytes to the front and cut at `max`.
pub open spec fn moved(range: (usize, usize), lead: usize, max: usize) -> (usize, usize) {
    let s = if range.0 > lead {
        (range.0 - lead) as usize
    } else {
        0
    };
    let e = if range.1 > lead {
        (range.1 - lead) as usize
    } else {
        0
    };
    (
        s,
        if e > max {
            max
        } else {
            e
        },
    )
}

/// The ranges moved to the front, those that are not empty.
pub open spec fn moved_ranges(ranges: Seq<(usize, usize)>, lead: usize, max: usize) -> Seq<(usize, usize)>
    decreases ranges.len(),
{
    if ranges.len() == 0 {
        Seq::empty()
    } else {
        let rest = moved_ranges(ranges.drop_last(), lead, max);
        let m = moved(ranges.last(), lead, max);
        if m.1 > m.0 {
            rest.push(m)
        } else {
            rest
        }
    }
}

fn move_ranges(ranges: &Vec<(usize, usize)>, lead: usize, max: usize) -> (r: Vec<(usize, usize)>)
    ensures
        r@ == moved_ranges(ranges@, lead, max),
{
    let mut out: Vec<(usize, usize)> = Vec::new();
    let mut k: usize = 0;
    while k < ranges.len()
        invariant
            k <= ranges@.len(),
            out@ == moved_ranges(ranges@.take(k as int), lead, max),
        decreases ranges.len() - k,
    {
        assert(ranges@.take(k + 1).drop_last() =~= ranges@.take(k as int));
        let (a, b) = ranges[k];
        let s: usize = if a > lead {
            a - lead
        } else {
            0
        };
        let e: usize = if b > lead {
            b - lead
        } else {
            0
        };
        let cut: usize = if e > max {
            max
        } else {
            e
        };
        if cut > s {
            out.push((s, cut));
        }
        k = k + 1;
    }
    assert(ranges@.take(k as int) =~= ranges@);
    out
}

/// The row of a matching line: its text without the white space in front.
pub open spec fn match_row(l: LineView, file: int, depth: usize) -> RowView {
    let at = trim_from(l.text, 0, l.text.len() as int);
    let lead = capped(byte_count(l.text.subrange(0, at)));
    let label = l.text.subrange(at, l.text.len() as int);
    RowView {
        depth,
        kind: RowKind::Match,
        label,
        file,
        rel: Seq::empty(),
        line: Some(l.line),
        col: if l.ranges.len() > 0 {
            l.ranges[0].0
        } else {
            0
        },
        ranges: moved_ranges(l.ranges, lead, capped(byte_count(label))),
        key: Seq::empty(),
    }
}

/// The rows of the first `n` lines of a file.
pub open spec fn match_rows(lines: Seq<LineView>, file: int, depth: usize) -> Seq<RowView> {
    Seq::new(lines.len(), |i: int| match_row(lines[i], file, depth))
}

/// The key of a file.
pub open spec fn file_key(rel: Seq<char>) -> Seq<char> {
    "f:"@ + rel
}

/// The key of a folder.
pub open spec fn dir_key(path: Seq<char>) -> Seq<char> {
    "d:"@ + path
}

fn key_of(mark: &str, path: &str) -> (r: String)
    ensures
        r@ == mark@ + path@,
{
    let mut s = mark.to_owned();
    s.append(path);
    s
}

/// The row of a file.
pub open spec fn file_row(f: FileView, file: int, depth: usize) -> RowView {
    RowView {
        depth,
        kind: RowKind::File,
        label: counted(last_segment(f.rel), f.lines.len() as usize),
        file,
        rel: f.rel,
        line: None,
        col: 0,
        ranges: Seq::empty(),
        key: file_key(f.rel),
    }
}

/// The rows of a file: its own, and those of its lines unless it is collapsed.
pub open spec fn file_rows(
    results: Seq<FileView>,
    file: int,
    depth: usize,
    collapsed: Seq<Seq<char>>,
) -> Seq<RowView> {
    let own = seq![file_row(results[file], file, depth)];
    if collapsed.contains(file_key(results[file].rel)) {
        own
    } else {
        own + match_rows(results[file].lines, file, deeper(depth))
    }
}

fn make_match_row(l: &LineMatch, file: usize, depth: usize) -> (r: TreeRow)
    ensures
        r@ == match_row(l@, file as int, depth),
{
    let v = chars_of(l.text.as_str());
    let n: usize = v.len();
    let mut at: usize = 0;
    while at < n && white(v[at])
        invariant
            n == v@.len(),
            at <= n,
            trim_from(v@, at as int, n as int) == trim_from(v@, 0, n as int),
        decreases n - at,
    {
        at = at + 1;
    }
    let front = text_of(&v, 0, at);
    let label = text_of(&v, at, n);
    let lead: usize = add_bytes(0, front.as_str());
    let max: usize = add_bytes(0, label.as_str());
    let ranges = move_ranges(&l.ranges, lead, max);
    let col: usize = if l.ranges.len() > 0 {
        l.ranges[0].0
    } else {
        0
    };
    TreeRow {
        depth,
        kind: RowKind::Match,
        label,
        file,
        rel: String::new(),
        line: Some(l.line),
        col,
        ranges,
        key: String::new(),
    }
}

fn emit_file(
    results: &Vec<FileMatches>,
    file: usize,
    depth: usize,
    collapsed: &Vec<String>,
    rows: &mut Vec<TreeRow>,
)
    requires
        file < results@.len(),
    ensures
        row_views(final(rows)@) == row_views(old(rows)@) + file_rows(
            file_views(results@),
            file as int,
            depth,
            views(collapsed@),
        ),
{
    let ghost start = row_views(rows@);
    let f = &results[file];
    let ghost fv = f@;
    assert(file_views(results@)[file as int] == fv);
    assert(fv.lines.len() == f.lines@.len());
    let name = basename(f.rel.as_str());
    let key = key_of("f:", f.rel.as_str());
    let hidden = list_holds(collapsed, key.as_str());
    let row = TreeRow {
        depth,
        kind: RowKind::File,
        label: count_label(name.as_str(), f.lines.len()),
        file,
        rel: f.rel.as_str().to_owned(),
        line: None,
        col: 0,
        ranges: Vec::new(),
        key,
    };
    assert(row@.ranges =~= Seq::<(usize, usize)>::empty());
    assert(row@ == file_row(fv, file as int, depth));
    add_row(rows, row);
    let ghost own = seq![file_row(fv, file as int, depth)];
    assert(row_views(rows@) =~= start + own);
    if hidden {
        return;
    }
    let below: usize = go_deeper(depth);
    let ghost want = match_rows(fv.lines, file as int, below);
    let n: usize = f.lines.len();
    let mut k: usize = 0;
    assert(start + own + want.take(0) =~= start + own);
    while k < n
        invariant
            k <= n,
            n == f.lines@.len(),
            fv == f@,
            want == match_rows(fv.lines, file as int, below),
            row_views(rows@) == start + own + want.take(k as int),
        decreases n - k,
    {
        assert(fv.lines[k as int] == f.lines@[k as int]@);
        let row = make_match_row(&f.lines[k], file, below);
        assert(row@ == want[k as int]);
        add_row(rows, row);
        assert(start + own + want.take(k as int).push(want[k as int]) =~= (start + own + want.take(
            k as int,
        )).push(want[k as int]));
        assert(want.take(k + 1) =~= want.take(k as int).push(want[k as int]));
        k = k + 1;
    }
    assert(want.take(k as int) =~= want);
    assert(start + own + want =~= start + (own + want));
}

/// The rows of the first `n` files, one behind another.
pub open spec fn flat_rows(results: Seq<FileView>, collapsed: Seq<Seq<char>>, n: int) -> Seq<RowView>
    decreases n,
{
    if n <= 0 {
        Seq::empty()
    } else {
        flat_rows(results, collapsed, n - 1) + file_rows(results, n - 1, 0, collapsed)
    }
}

/// Every file with its matches, without folders.
pub fn build_flat_rows(results: &Vec<FileMatches>, collapsed: &Vec<String>) -> (r: Vec<TreeRow>)
    ensures
        row_views(r@) == flat_rows(
            file_views(results@),
            views(collapsed@),
            results@.len() as int,
        ),
{
    let mut rows: Vec<TreeRow> = Vec::new();
    assert(row_views(rows@) =~= Seq::<RowView>::empty());
    let mut k: usize = 0;
    while k < results.len()
        invariant
            k <= results@.len(),
            row_views(rows@) == flat_rows(file_views(results@), views(collapsed@), k as int),
        decreases results.len() - k,
    {
        emit_file(results, k, 0, collapsed, &mut rows);
        k = k + 1;
    }
    rows
}

/// A folder of results: its folders by name, and its files by their position.
pub struct Folder {
    pub subs: Seq<(Seq<char>, Folder)>,
    pub files: Seq<int>,
}

/// A folder without contents.
pub open spec fn no_folder() -> Folder {
    Folder { subs: Seq::empty(), files: Seq::empty() }
}

/// The place of a name among folders: behind those that come before it.
pub open spec fn slot(subs: Seq<(Seq<char>, Folder)>, name: Seq<char>, k: int) -> int
    decreases subs.len() - k,
{
    if k < subs.len() && less(subs[k].0, name) {
        slot(subs, name, k + 1)
    } else {
        k
    }
}

/// The folder with a file added below the segments from the `k`-th on.
pub open spec fn inserted(d: Folder, segs: Seq<Seq<char>>, k: int, file: int) -> Folder
    decreases segs.len() - k,
{
    if k >= segs.len() {
        Folder { subs: d.subs, files: d.files.push(file) }
    } else {
        let p = slot(d.subs, segs[k], 0);
        if p < d.subs.len() && d.subs[p].0 == segs[k] {
            Folder {
                subs: d.subs.update(p, (segs[k], inserted(d.subs[p].1, segs, k + 1, file))),
                files: d.files,
            }
        } else {
            Folder {
                subs: d.subs.insert(p, (segs[k], inserted(no_folder(), segs, k + 1, file))),
                files: d.files,
            }
        }
    }
}

/// The folders of the first `n` results.
pub open spec fn folders(results: Seq<FileView>, n: int) -> Folder
    decreases n,
{
    if n <= 0 {
        no_folder()
    } else {
        inserted(folders(results, n - 1), dirs_of(results[n - 1].rel), 0, n - 1)
    }
}

struct Dir {
    subs: Vec<(String, Dir)>,
    files: Vec<usize>,
}

spec fn dir_view(d: Dir) -> Folder
    decreases d,
{
    Folder {
        subs: Seq::new(
            d.subs@.len(),
            |i: int|
                if 0 <= i < d.subs@.len() {
                    (d.subs@[i].0@, dir_view(d.subs@[i].1))
                } else {
                    (Seq::empty(), no_folder())
                },
        ),
        files: Seq::new(d.files@.len(), |i: int| d.files@[i] as int),
    }
}

spec fn sub_views(v: Seq<(String, Dir)>) -> Seq<(Seq<char>, Folder)> {
    Seq::new(v.len(), |i: int| (v[i].0@, dir_view(v[i].1)))
}

spec fn ints(v: Seq<usize>) -> Seq<int> {
    Seq::new(v.len(), |i: int| v[i] as int)
}

proof fn lemma_dir_view(d: Dir)
    ensures
        dir_view(d).subs == sub_views(d.subs@),
        dir_view(d).files == ints(d.files@),
{
    assert(dir_view(d).subs =~= sub_views(d.subs@));
    assert(dir_view(d).files =~= ints(d.files@));
}

fn empty_dir() -> (r: Dir)
    ensures
        dir_view(r) == no_folder(),
{
    let d = Dir { subs: Vec::new(), files: Vec::new() };
    proof {
        lemma_dir_view(d);
        assert(dir_view(d).subs =~= no_folder().subs);
        assert(dir_view(d).files =~= no_folder().files);
    }
    d
}

fn insert_file(d: Dir, segs: &Vec<String>, k: usize, file: usize) -> (r: Dir)
    requires
        k <= segs@.len(),
    ensures
        dir_view(r) == inserted(dir_view(d), views(segs@), k as int, file as int),
    decreases segs.len() - k,
{
    proof {
        lemma_dir_view(d);
    }
    let ghost dv = dir_view(d);
    let ghost sv = views(segs@);
    let mut d = d;
    if k == segs.len() {
        d.files.push(file);
        proof {
            lemma_dir_view(d);
            assert(ints(d.files@) =~= dv.files.push(file as int));
        }
        return d;
    }
    assert(sv[k as int] == segs@[k as int]@);
    let n: usize = d.subs.len();
    let mut p: usize = 0;
    while p < n && before(d.subs[p].0.as_str(), segs[k].as_str())
        invariant
            n == d.subs@.len(),
            p <= n,
            k < segs@.len(),
            sv[k as int] == segs@[k as int]@,
            dv.subs == sub_views(d.subs@),
            slot(dv.subs, sv[k as int], p as int) == slot(dv.subs, sv[k as int], 0),
        decreases n - p,
    {
        assert(dv.subs[p as int].0 == d.subs@[p as int].0@);
        p = p + 1;
    }
    proof {
        if p < n {
            assert(dv.subs[p as int].0 == d.subs@[p as int].0@);
        }
    }
    assert(p == slot(dv.subs, sv[k as int], 0));
    let there = p < n && same(d.subs[p].0.as_str(), segs[k].as_str());
    if there {
        let (name, child) = d.subs.remove(p);
        assert(dv.subs[p as int] == (name@, dir_view(child)));
        let child = insert_file(child, segs, k + 1, file);
        let ghost cv = dir_view(child);
        d.subs.insert(p, (name, child));
        proof {
            lemma_dir_view(d);
            assert(sub_views(d.subs@) =~= dv.subs.update(p as int, (sv[k as int], cv)));
        }
    } else {
        let child = insert_file(empty_dir(), segs, k + 1, file);
        let ghost cv = dir_view(child);
        d.subs.insert(p, (segs[k].as_str().to_owned(), child));
        proof {
            lemma_dir_view(d);
            assert(sub_views(d.subs@) =~= dv.subs.insert(p as int, (sv[k as int], cv)));
        }
    }
    d
}

/// What a folder's files come to, and those of the folders below it.
pub open spec fn weight(d: Folder, f: spec_fn(int) -> int) -> int
    decreases d, d.subs.len() + 1,
{
    files_weight(d.files, f) + subs_weight(d, f, d.subs.len() as int)
}

/// What the first `k` folders of a folder come to.
pub open spec fn subs_weight(d: Folder, f: spec_fn(int) -> int, k: int) -> int
    decreases d, k,
{
    if k <= 0 || k > d.subs.len() {
        0
    } else {
        subs_weight(d, f, k - 1) + weight(d.subs[k - 1].1, f)
    }
}

/// What the files come to.
pub open spec fn files_weight(files: Seq<int>, f: spec_fn(int) -> int) -> int
    decreases files.len(),
{
    if files.len() == 0 {
        0
    } else {
        files_weight(files.drop_last(), f) + f(files.last())
    }
}

/// The number of matching lines of a file.
pub open spec fn lines_of_file(results: Seq<FileView>) -> spec_fn(int) -> int {
    |i: int|
        if 0 <= i < results.len() {
            results[i].lines.len() as int
        } else {
            0
        }
}

/// Whether every file of a folder is one of the results.
pub open spec fn within(d: Folder, n: int) -> bool
    decreases d,
{
    (forall|i: int| 0 <= i < d.files.len() ==> 0 <= #[trigger] d.files[i] < n) && (forall|i: int|
        0 <= i < d.subs.len() ==> within((#[trigger] d.subs[i]).1, n))
}

proof fn lemma_within_inserted(d: Folder, segs: Seq<Seq<char>>, k: int, file: int, n: int)
    requires
        within(d, n),
        0 <= file < n,
        0 <= k,
    ensures
        within(inserted(d, segs, k, file), n),
    decreases segs.len() - k,
{
    let r = inserted(d, segs, k, file);
    if k < segs.len() {
        let p = slot(d.subs, segs[k], 0);
        lemma_slot(d.subs, segs[k], 0);
        if p < d.subs.len() && d.subs[p].0 == segs[k] {
            lemma_within_inserted(d.subs[p].1, segs, k + 1, file, n);
            assert forall|i: int| 0 <= i < r.subs.len() implies within((#[trigger] r.subs[i]).1, n) by {
                if i != p {
                    assert(r.subs[i] == d.subs[i]);
                }
            }
        } else {
            lemma_within_inserted(no_folder(), segs, k + 1, file, n);
            assert forall|i: int| 0 <= i < r.subs.len() implies within((#[trigger] r.subs[i]).1, n) by {
                if i < p {
                    assert(r.subs[i] == d.subs[i]);
                } else if i > p {
                    assert(r.subs[i] == d.subs[i - 1]);
                }
            }
        }
    }
}

proof fn lemma_slot(subs: Seq<(Seq<char>, Folder)>, name: Seq<char>, k: int)
    requires
        0 <= k <= subs.len(),
    ensures
        k <= slot(subs, name, k) <= subs.len(),
        forall|i: int| k <= i < slot(subs, name, k) ==> less((#[trigger] subs[i]).0, name),
        slot(subs, name, k) < subs.len() ==> !less(subs[slot(subs, name, k)].0, name),
    decreases subs.len() - k,
{
    if k < subs.len() && less(subs[k].0, name) {
        lemma_slot(subs, name, k + 1);
    }
}

proof fn lemma_within_more(d: Folder, n: int, m: int)
    requires
        within(d, n),
        n <= m,
    ensures
        within(d, m),
    decreases d,
{
    assert forall|i: int| 0 <= i < d.subs.len() implies within((#[trigger] d.subs[i]).1, m) by {
        lemma_within_more(d.subs[i].1, n, m);
    }
}

fn build_dirs(results: &Vec<FileMatches>) -> (r: Dir)
    ensures
        dir_view(r) == folders(file_views(results@), results@.len() as int),
        within(dir_view(r), results@.len() as int),
{
    let ghost fv = file_views(results@);
    let mut root = empty_dir();
    let mut k: usize = 0;
    while k < results.len()
        invariant
            k <= results@.len(),
            fv == file_views(results@),
            dir_view(root) == folders(fv, k as int),
            within(dir_view(root), k as int),
        decreases results.len() - k,
    {
        assert(fv[k as int].rel == results@[k as int].rel@);
        let segs = dirs(results[k].rel.as_str());
        proof {
            lemma_within_more(dir_view(root), k as int, k + 1);
            lemma_within_inserted(dir_view(root), views(segs@), 0, k as int, k + 1);
        }
        root = insert_file(root, &segs, 0, k);
        k = k + 1;
    }
    root
}

proof fn lemma_weight_nonneg(d: Folder, f: spec_fn(int) -> int, k: int)
    requires
        forall|i: int| #[trigger] f(i) >= 0,
        0 <= k <= d.subs.len(),
    ensures
        files_weight(d.files, f) >= 0,
        subs_weight(d, f, k) >= 0,
        weight(d, f) >= 0,
    decreases d, k,
{
    lemma_files_weight_nonneg(d.files, f);
    lemma_subs_weight_nonneg(d, f, k);
    lemma_subs_weight_nonneg(d, f, d.subs.len() as int);
}

proof fn lemma_files_weight_nonneg(files: Seq<int>, f: spec_fn(int) -> int)
    requires
        forall|i: int| #[trigger] f(i) >= 0,
    ensures
        files_weight(files, f) >= 0,
    decreases files.len(),
{
    if files.len() > 0 {
        lemma_files_weight_nonneg(files.drop_last(), f);
    }
}

proof fn lemma_subs_weight_nonneg(d: Folder, f: spec_fn(int) -> int, k: int)
    requires
        forall|i: int| #[trigger] f(i) >= 0,
        0 <= k <= d.subs.len(),
    ensures
        subs_weight(d, f, k) >= 0,
    decreases d, k,
{
    if k > 0 {
        lemma_subs_weight_nonneg(d, f, k - 1);
        let c = d.subs[k - 1].1;
        lemma_files_weight_nonneg(c.files, f);
        lemma_subs_weight_nonneg(c, f, c.subs.len() as int);
        reveal_with_fuel(weight, 2);
        assert(weight(c, f) == files_weight(c.files, f) + subs_weight(c, f, c.subs.len() as int));
    }
}

fn count_matches(d: &Dir, results: &Vec<FileMatches>) -> (r: usize)
    requires
        within(dir_view(*d), results@.len() as int),
    ensures
        r == capped(weight(dir_view(*d), lines_of_file(file_views(results@)))),
    decreases *d,
{
    let ghost dv = dir_view(*d);
    let ghost fv = file_views(results@);
    let ghost f = lines_of_file(fv);
    proof {
        lemma_dir_view(*d);
    }
    let mut total: usize = 0;
    let mut k: usize = 0;
    while k < d.files.len()
        invariant
            k <= d.files@.len(),
            dv == dir_view(*d),
            dv.files == ints(d.files@),
            fv == file_views(results@),
            f == lines_of_file(fv),
            within(dv, results@.len() as int),
            total == capped(files_weight(dv.files.take(k as int), f)),
            files_weight(dv.files.take(k as int), f) >= 0,
        decreases d.files.len() - k,
    {
        assert(dv.files.take(k + 1).drop_last() =~= dv.files.take(k as int));
        assert(dv.files[k as int] == d.files@[k as int]);
        let i: usize = d.files[k];
        assert(fv[i as int].lines.len() == results@[i as int].lines@.len());
        total = add_capped(total, results[i].lines.len());
        k = k + 1;
    }
    assert(dv.files.take(k as int) =~= dv.files);
    let mut j: usize = 0;
    while j < d.subs.len()
        invariant
            j <= d.subs@.len(),
            dv == dir_view(*d),
            dv.subs == sub_views(d.subs@),
            fv == file_views(results@),
            f == lines_of_file(fv),
            within(dv, results@.len() as int),
            files_weight(dv.files, f) >= 0,
            subs_weight(dv, f, j as int) >= 0,
            total == capped(files_weight(dv.files, f) + subs_weight(dv, f, j as int)),
        decreases d.subs.len() - j,
    {
        assert(dv.subs[j as int].1 == dir_view(d.subs@[j as int].1));
        assert(decreases_to!(*d => (*d).subs));
        assert(decreases_to!(d.subs@ => d.subs@[j as int]));
        assert(decreases_to!(d.subs@[j as int] => d.subs@[j as int].1));
        let n: usize = count_matches(&d.subs[j].1, results);
        proof {
            lemma_weight_nonneg(dv.subs[j as int].1, f, 0);
        }
        total = add_capped(total, n);
        j = j + 1;
    }
    total
}

/// Where a file goes among files ordered by name: behind those whose name is not greater.
pub open spec fn place(results: Seq<FileView>, sorted: Seq<int>, name: Seq<char>, k: int) -> int
    decreases sorted.len() - k,
{
    if k < sorted.len() && !less(name, last_segment(results[sorted[k]].rel)) {
        place(results, sorted, name, k + 1)
    } else {
        k
    }
}

/// The files ordered by name; those of one name stay in order.
pub open spec fn by_name(results: Seq<FileView>, files: Seq<int>) -> Seq<int>
    decreases files.len(),
{
    if files.len() == 0 {
        Seq::empty()
    } else {
        let rest = by_name(results, files.drop_last());
        let p = place(results, rest, last_segment(results[files.last()].rel), 0);
        rest.insert(p, files.last())
    }
}

proof fn lemma_place(results: Seq<FileView>, sorted: Seq<int>, name: Seq<char>, k: int)
    requires
        0 <= k <= sorted.len(),
    ensures
        k <= place(results, sorted, name, k) <= sorted.len(),
        forall|i: int|
            k <= i < place(results, sorted, name, k) ==> !less(
                name,
                last_segment(results[#[trigger] sorted[i]].rel),
            ),
        place(results, sorted, name, k) < sorted.len() ==> less(
            name,
            last_segment(results[sorted[place(results, sorted, name, k)]].rel),
        ),
    decreases sorted.len() - k,
{
    if k < sorted.len() && !less(name, last_segment(results[sorted[k]].rel)) {
        lemma_place(results, sorted, name, k + 1);
    }
}

fn sort_files(results: &Vec<FileMatches>, files: &Vec<usize>) -> (r: Vec<usize>)
    requires
        forall|i: int| 0 <= i < files@.len() ==> (#[trigger] files@[i]) < results@.len(),
    ensures
        ints(r@) == by_name(file_views(results@), ints(files@)),
        forall|i: int| 0 <= i < r@.len() ==> (#[trigger] r@[i]) < results@.len(),
{
    let ghost fv = file_views(results@);
    let ghost all = ints(files@);
    let mut out: Vec<usize> = Vec::new();
    assert(ints(out@) =~= Seq::<int>::empty());
    let mut k: usize = 0;
    while k < files.len()
        invariant
            k <= files@.len(),
            fv == file_views(results@),
            all == ints(files@),
            forall|i: int| 0 <= i < files@.len() ==> (#[trigger] files@[i]) < results@.len(),
            ints(out@) == by_name(fv, all.take(k as int)),
            forall|i: int| 0 <= i < out@.len() ==> (#[trigger] out@[i]) < results@.len(),
        decreases files.len() - k,
    {
        assert(all.take(k + 1).drop_last() =~= all.take(k as int));
        let file: usize = files[k];
        assert(all.take(k + 1).last() == file);
        assert(fv[file as int].rel == results@[file as int].rel@);
        let name = basename(results[file].rel.as_str());
        let ghost sorted = ints(out@);
        let n: usize = out.len();
        let mut p: usize = 0;
        let mut go = true;
        while go && p < n
            invariant
                p <= n,
                n == out@.len(),
                fv == file_views(results@),
                sorted == ints(out@),
                forall|i: int| 0 <= i < out@.len() ==> (#[trigger] out@[i]) < results@.len(),
                place(fv, sorted, name@, p as int) == place(fv, sorted, name@, 0),
                !go ==> p < n && less(name@, last_segment(fv[sorted[p as int]].rel)),
            decreases n - p, (if go { 1int } else { 0int }),
        {
            assert(sorted[p as int] == out@[p as int]);
            assert(fv[out@[p as int] as int].rel == results@[out@[p as int] as int].rel@);
            let other = basename(results[out[p]].rel.as_str());
            if before(name.as_str(), other.as_str()) {
                go = false;
            } else {
                p = p + 1;
            }
        }
        assert(p == place(fv, sorted, name@, 0));
        out.insert(p, file);
        assert(ints(out@) =~= sorted.insert(p as int, file as int));
        k = k + 1;
    }
    assert(all.take(k as int) =~= all);
    out
}

/// The rows of a folder's folders from the `k`-th on, and of its files.
pub open spec fn children_rows(
    d: Folder,
    base: Seq<char>,
    depth: usize,
    results: Seq<FileView>,
    collapsed: Seq<Seq<char>>,
    k: int,
) -> Seq<RowView>
    decreases d, d.subs.len() - k,
{
    if 0 <= k < d.subs.len() {
        let (seg, child) = d.subs[k];
        dir_rows(child, seg, path_below(base, seg), depth, results, collapsed) + children_rows(
            d,
            base,
            depth,
            results,
            collapsed,
            k + 1,
        )
    } else {
        list_rows(results, by_name(results, d.files), depth, collapsed)
    }
}

/// The rows of the files, one behind another.
pub open spec fn list_rows(
    results: Seq<FileView>,
    files: Seq<int>,
    depth: usize,
    collapsed: Seq<Seq<char>>,
) -> Seq<RowView>
    decreases files.len(),
{
    if files.len() == 0 {
        Seq::empty()
    } else {
        list_rows(results, files.drop_last(), depth, collapsed) + file_rows(
            results,
            files.last(),
            depth,
            collapsed,
        )
    }
}

/// The row of a folder.
pub open spec fn dir_row(
    d: Folder,
    name: Seq<char>,
    path: Seq<char>,
    depth: usize,
    results: Seq<FileView>,
) -> RowView {
    RowView {
        depth,
        kind: RowKind::Dir,
        label: counted(name, capped(weight(d, lines_of_file(results)))),
        file: 0,
        rel: Seq::empty(),
        line: None,
        col: 0,
        ranges: Seq::empty(),
        key: dir_key(path),
    }
}

/// The rows of a folder: its own, and those of its contents unless it is collapsed. A chain
/// of folders that each hold nothing but the next is one row.
pub open spec fn dir_rows(
    d: Folder,
    name: Seq<char>,
    path: Seq<char>,
    depth: usize,
    results: Seq<FileView>,
    collapsed: Seq<Seq<char>>,
) -> Seq<RowView>
    decreases d, d.subs.len() + 1,
{
    if d.subs.len() == 1 && d.files.len() == 0 {
        let (seg, child) = d.subs[0];
        dir_rows(child, name + "/"@ + seg, path_below(path, seg), depth, results, collapsed)
    } else {
        let own = seq![dir_row(d, name, path, depth, results)];
        if collapsed.contains(dir_key(path)) {
            own
        } else {
            own + children_rows(d, path, deeper(depth), results, collapsed, 0)
        }
    }
}

fn emit_children(
    d: &Dir,
    base: &str,
    depth: usize,
    results: &Vec<FileMatches>,
    collapsed: &Vec<String>,
    rows: &mut Vec<TreeRow>,
)
    requires
        within(dir_view(*d), results@.len() as int),
    ensures
        row_views(final(rows)@) == row_views(old(rows)@) + children_rows(
            dir_view(*d),
            base@,
            depth,
            file_views(results@),
            views(collapsed@),
            0,
        ),
    decreases *d, 0int,
{
    let ghost dv = dir_view(*d);
    let ghost fv = file_views(results@);
    let ghost cv = views(collapsed@);
    let ghost start = row_views(rows@);
    let ghost want = children_rows(dv, base@, depth, fv, cv, 0);
    proof {
        lemma_dir_view(*d);
    }
    let mut k: usize = 0;
    while k < d.subs.len()
        invariant
            k <= d.subs@.len(),
            dv == dir_view(*d),
            dv.subs == sub_views(d.subs@),
            fv == file_views(results@),
            cv == views(collapsed@),
            within(dv, results@.len() as int),
            row_views(rows@) + children_rows(dv, base@, depth, fv, cv, k as int) == start + want,
        decreases d.subs.len() - k,
    {
        assert(dv.subs[k as int] == (d.subs@[k as int].0@, dir_view(d.subs@[k as int].1)));
        assert(decreases_to!(*d => (*d).subs));
        assert(decreases_to!(d.subs@ => d.subs@[k as int]));
        assert(decreases_to!(d.subs@[k as int] => d.subs@[k as int].1));
        let seg = d.subs[k].0.as_str();
        let path = join_path(base, seg);
        let ghost so_far = row_views(rows@);
        emit_dir(&d.subs[k].1, seg, path.as_str(), depth, results, collapsed, rows);
        let ghost own = dir_rows(dv.subs[k as int].1, seg@, path@, depth, fv, cv);
        let ghost rest = children_rows(dv, base@, depth, fv, cv, k + 1);
        assert(so_far + (own + rest) =~= (so_far + own) + rest);
        k = k + 1;
    }
    assert forall|i: int| 0 <= i < d.files@.len() implies (#[trigger] d.files@[i])
        < results@.len() by {
        assert(dv.files[i] == d.files@[i]);
    }
    let files = sort_files(results, &d.files);
    let ghost sorted = ints(files@);
    let ghost middle = row_views(rows@);
    let ghost all = list_rows(fv, sorted, depth, cv);
    assert(middle + list_rows(fv, sorted.take(0), depth, cv) =~= middle);
    let mut j: usize = 0;
    while j < files.len()
        invariant
            j <= files@.len(),
            fv == file_views(results@),
            cv == views(collapsed@),
            sorted == ints(files@),
            forall|i: int| 0 <= i < files@.len() ==> (#[trigger] files@[i]) < results@.len(),
            row_views(rows@) == middle + list_rows(fv, sorted.take(j as int), depth, cv),
        decreases files.len() - j,
    {
        emit_file(results, files[j], depth, collapsed, rows);
        assert(sorted.take(j + 1).drop_last() =~= sorted.take(j as int));
        let ghost head = list_rows(fv, sorted.take(j as int), depth, cv);
        let ghost one = file_rows(fv, sorted[j as int], depth, cv);
        assert(middle + (head + one) =~= (middle + head) + one);
        j = j + 1;
    }
    assert(sorted.take(j as int) =~= sorted);
}

fn emit_dir(
    d: &Dir,
    name: &str,
    path: &str,
    depth: usize,
    results: &Vec<FileMatches>,
    collapsed: &Vec<String>,
    rows: &mut Vec<TreeRow>,
)
    requires
        within(dir_view(*d), results@.len() as int),
    ensures
        row_views(final(rows)@) == row_views(old(rows)@) + dir_rows(
            dir_view(*d),
            name@,
            path@,
            depth,
            file_views(results@),
            views(collapsed@),
        ),
    decreases *d, 1int,
{
    let ghost dv = dir_view(*d);
    let ghost fv = file_views(results@);
    let ghost cv = views(collapsed@);
    let ghost start = row_views(rows@);
    proof {
        lemma_dir_view(*d);
    }
    if d.subs.len() == 1 && d.files.len() == 0 {
        assert(dv.subs[0] == (d.subs@[0].0@, dir_view(d.subs@[0].1)));
        assert(decreases_to!(*d => (*d).subs));
        assert(decreases_to!(d.subs@ => d.subs@[0]));
        assert(decreases_to!(d.subs@[0] => d.subs@[0].1));
        let seg = d.subs[0].0.as_str();
        let mut longer = name.to_owned();
        longer.append("/");
        longer.append(seg);
        let below = join_path(path, seg);
        emit_dir(&d.subs[0].1, longer.as_str(), below.as_str(), depth, results, collapsed, rows);
        return;
    }
    let n: usize = count_matches(d, results);
    let key = key_of("d:", path);
    let hidden = list_holds(collapsed, key.as_str());
    let row = TreeRow {
        depth,
        kind: RowKind::Dir,
        label: count_label(name, n),
        file: 0,
        rel: String::new(),
        line: None,
        col: 0,
        ranges: Vec::new(),
        key,
    };
    assert(row@.ranges =~= Seq::<(usize, usize)>::empty());
    assert(row@ == dir_row(dv, name@, path@, depth, fv));
    add_row(rows, row);
    let ghost own = seq![dir_row(dv, name@, path@, depth, fv)];
    assert(row_views(rows@) =~= start + own);
    if hidden {
        return;
    }
    let below: usize = go_deeper(depth);
    emit_children(d, path, below, results, collapsed, rows);
    let ghost rest = children_rows(dv, path@, below, fv, cv, 0);
    assert((start + own) + rest =~= start + (own + rest));
}

/// The results as a tree of folders, each collapsible.
pub fn build_tree_rows(results: &Vec<FileMatches>, collapsed: &Vec<String>) -> (r: Vec<TreeRow>)
    ensures
        row_views(r@) == children_rows(
            folders(file_views(results@), results@.len() as int),
            Seq::empty(),
            0,
            file_views(results@),
            views(collapsed@),
            0,
        ),
{
    let root = build_dirs(results);
    let mut rows: Vec<TreeRow> = Vec::new();
    assert(row_views(rows@) =~= Seq::<RowView>::empty());
    proof {
        reveal_strlit("");
    }
    assert(""@ =~= Seq::<char>::empty());
    emit_children(&root, "", 0, results, collapsed, &mut rows);
    let ghost all = row_views(rows@);
    assert(Seq::<RowView>::empty() + all =~= all);
    rows
}

/// The path of the first `n` segments.
pub open spec fn path_of(segs: Seq<Seq<char>>, n: int) -> Seq<char>
    decreases n,
{
    if n <= 0 {
        Seq::empty()
    } else {
        path_below(path_of(segs, n - 1), segs[n - 1])
    }
}

/// The keys of the folders of the first `n` segments.
pub open spec fn dir_keys(segs: Seq<Seq<char>>, n: int) -> Set<Seq<char>>
    decreases n,
{
    if n <= 0 {
        Set::empty()
    } else {
        dir_keys(segs, n - 1).insert(dir_key(path_of(segs, n)))
    }
}

/// The keys of the first `n` files and of the folders above them.
pub open spec fn group_keys(results: Seq<FileView>, n: int) -> Set<Seq<char>>
    decreases n,
{
    if n <= 0 {
        Set::empty()
    } else {
        let segs = dirs_of(results[n - 1].rel);
        group_keys(results, n - 1).insert(file_key(results[n - 1].rel)) + dir_keys(
            segs,
            segs.len() as int,
        )
    }
}

fn add_key(keys: &mut Vec<String>, key: String)
    requires
        views(old(keys)@).no_duplicates(),
    ensures
        views(final(keys)@).no_duplicates(),
        views(final(keys)@).to_set() == views(old(keys)@).to_set().insert(key@),
{
    let ghost so_far = views(keys@);
    let ghost kv = key@;
    if list_holds(keys, key.as_str()) {
        assert(so_far.to_set().insert(kv) =~= so_far.to_set());
    } else {
        keys.push(key);
        assert(views(keys@) =~= so_far.push(kv));
        assert(views(keys@).to_set() =~= so_far.to_set().insert(kv)) by {
            assert forall|x: Seq<char>| so_far.to_set().insert(kv).contains(x) implies views(
                keys@,
            ).contains(x) by {
                if x == kv {
                    assert(views(keys@)[so_far.len() as int] == x);
                } else {
                    let j = choose|j: int| 0 <= j < so_far.len() && so_far[j] == x;
                    assert(views(keys@)[j] == x);
                }
            }
        }
    }
}

/// Every key of the tree, each once.
pub fn all_group_keys(results: &Vec<FileMatches>) -> (r: Vec<String>)
    ensures
        views(r@).no_duplicates(),
        views(r@).to_set() == group_keys(file_views(results@), results@.len() as int),
{
    let ghost fv = file_views(results@);
    let mut keys: Vec<String> = Vec::new();
    assert(views(keys@).to_set() =~= Set::<Seq<char>>::empty());
    let mut k: usize = 0;
    while k < results.len()
        invariant
            k <= results@.len(),
            fv == file_views(results@),
            views(keys@).no_duplicates(),
            views(keys@).to_set() == group_keys(fv, k as int),
        decreases results.len() - k,
    {
        assert(fv[k as int].rel == results@[k as int].rel@);
        let rel = results[k].rel.as_str();
        let file = key_of("f:", rel);
        add_key(&mut keys, file);
        let segs = dirs(rel);
        let ghost sv = views(segs@);
        let ghost base = views(keys@).to_set();
        assert(base + Set::<Seq<char>>::empty() =~= base);
        let mut path = String::new();
        let mut j: usize = 0;
        while j < segs.len()
            invariant
                j <= segs@.len(),
                sv == views(segs@),
                path@ == path_of(sv, j as int),
                views(keys@).no_duplicates(),
                views(keys@).to_set() == base + dir_keys(sv, j as int),
            decreases segs.len() - j,
        {
            assert(sv[j as int] == segs@[j as int]@);
            path = join_path(path.as_str(), segs[j].as_str());
            let key = key_of("d:", path.as_str());
            let ghost kv = key@;
            add_key(&mut keys, key);
            assert((base + dir_keys(sv, j as int)).insert(kv) =~= base + dir_keys(sv, j as int).insert(
                kv,
            ));
            j = j + 1;
        }
        k = k + 1;
    }
    keys
}

/// The number of file rows, each counted as `f` says.
pub open spec fn rows_weight(rows: Seq<RowView>, f: spec_fn(int) -> int) -> int
    decreases rows.len(),
{
    if rows.len() == 0 {
        0
    } else {
        rows_weight(rows.drop_last(), f) + (if rows.last().kind == RowKind::File {
            f(rows.last().file)
        } else {
            0
        })
    }
}

proof fn lemma_rows_weight_concat(a: Seq<RowView>, b: Seq<RowView>, f: spec_fn(int) -> int)
    ensures
        rows_weight(a + b, f) == rows_weight(a, f) + rows_weight(b, f),
    decreases b.len(),
{
    if b.len() == 0 {
        assert(a + b =~= a);
    } else {
        assert((a + b).drop_last() =~= a + b.drop_last());
        lemma_rows_weight_concat(a, b.drop_last(), f);
    }
}

proof fn lemma_match_rows_weight(lines: Seq<LineView>, file: int, depth: usize, f: spec_fn(int) -> int)
    ensures
        rows_weight(match_rows(lines, file, depth), f) == 0,
    decreases lines.len(),
{
    let rows = match_rows(lines, file, depth);
    if lines.len() > 0 {
        assert(rows.drop_last() =~= match_rows(lines.drop_last(), file, depth));
        lemma_match_rows_weight(lines.drop_last(), file, depth, f);
    }
}

proof fn lemma_file_rows_weight(
    results: Seq<FileView>,
    file: int,
    depth: usize,
    collapsed: Seq<Seq<char>>,
    f: spec_fn(int) -> int,
)
    ensures
        rows_weight(file_rows(results, file, depth, collapsed), f) == f(file),
{
    let own = seq![file_row(results[file], file, depth)];
    assert(own.drop_last() =~= Seq::<RowView>::empty());
    assert(rows_weight(own.drop_last(), f) == 0);
    assert(rows_weight(own, f) == f(file));
    let rest = match_rows(results[file].lines, file, deeper(depth));
    lemma_match_rows_weight(results[file].lines, file, deeper(depth), f);
    lemma_rows_weight_concat(own, rest, f);
}

proof fn lemma_list_rows_weight(
    results: Seq<FileView>,
    files: Seq<int>,
    depth: usize,
    collapsed: Seq<Seq<char>>,
    f: spec_fn(int) -> int,
)
    ensures
        rows_weight(list_rows(results, files, depth, collapsed), f) == files_weight(files, f),
    decreases files.len(),
{
    if files.len() > 0 {
        lemma_list_rows_weight(results, files.drop_last(), depth, collapsed, f);
        lemma_file_rows_weight(results, files.last(), depth, collapsed, f);
        lemma_rows_weight_concat(
            list_rows(results, files.drop_last(), depth, collapsed),
            file_rows(results, files.last(), depth, collapsed),
            f,
        );
    }
}

proof fn lemma_files_weight_insert(files: Seq<int>, p: int, x: int, f: spec_fn(int) -> int)
    requires
        0 <= p <= files.len(),
    ensures
        files_weight(files.insert(p, x), f) == files_weight(files, f) + f(x),
    decreases files.len(),
{
    let r = files.insert(p, x);
    if p == files.len() {
        assert(r.drop_last() =~= files);
    } else {
        assert(r.drop_last() =~= files.drop_last().insert(p, x));
        assert(r.last() == files.last());
        lemma_files_weight_insert(files.drop_last(), p, x, f);
    }
}

proof fn lemma_by_name_weight(results: Seq<FileView>, files: Seq<int>, f: spec_fn(int) -> int)
    ensures
        files_weight(by_name(results, files), f) == files_weight(files, f),
    decreases files.len(),
{
    if files.len() > 0 {
        let rest = by_name(results, files.drop_last());
        let name = last_segment(results[files.last()].rel);
        lemma_by_name_weight(results, files.drop_last(), f);
        lemma_place(results, rest, name, 0);
        lemma_files_weight_insert(rest, place(results, rest, name, 0), files.last(), f);
    }
}

proof fn lemma_children_weight(
    d: Folder,
    base: Seq<char>,
    depth: usize,
    results: Seq<FileView>,
    k: int,
    f: spec_fn(int) -> int,
)
    requires
        0 <= k <= d.subs.len(),
    ensures
        rows_weight(children_rows(d, base, depth, results, Seq::empty(), k), f) + subs_weight(d, f, k)
            == weight(d, f),
    decreases d, d.subs.len() - k,
{
    let none = Seq::<Seq<char>>::empty();
    if k < d.subs.len() {
        let (seg, child) = d.subs[k];
        lemma_dir_weight(child, seg, path_below(base, seg), depth, results, f);
        lemma_children_weight(d, base, depth, results, k + 1, f);
        lemma_rows_weight_concat(
            dir_rows(child, seg, path_below(base, seg), depth, results, none),
            children_rows(d, base, depth, results, none, k + 1),
            f,
        );
        assert(subs_weight(d, f, k + 1) == subs_weight(d, f, k) + weight(child, f));
    } else {
        lemma_list_rows_weight(results, by_name(results, d.files), depth, none, f);
        lemma_by_name_weight(results, d.files, f);
        assert(weight(d, f) == files_weight(d.files, f) + subs_weight(d, f, d.subs.len() as int));
    }
}

proof fn lemma_dir_weight(
    d: Folder,
    name: Seq<char>,
    path: Seq<char>,
    depth: usize,
    results: Seq<FileView>,
    f: spec_fn(int) -> int,
)
    ensures
        rows_weight(dir_rows(d, name, path, depth, results, Seq::empty()), f) == weight(d, f),
    decreases d, d.subs.len() + 1,
{
    let none = Seq::<Seq<char>>::empty();
    if d.subs.len() == 1 && d.files.len() == 0 {
        let (seg, child) = d.subs[0];
        lemma_dir_weight(child, name + "/"@ + seg, path_below(path, seg), depth, results, f);
        assert(subs_weight(d, f, 0) == 0);
        assert(subs_weight(d, f, 1) == subs_weight(d, f, 0) + weight(child, f));
        assert(files_weight(d.files, f) == 0);
    } else {
        let own = seq![dir_row(d, name, path, depth, results)];
        assert(own.drop_last() =~= Seq::<RowView>::empty());
        assert(rows_weight(own.drop_last(), f) == 0);
        assert(rows_weight(own, f) == 0);
        lemma_children_weight(d, path, deeper(depth), results, 0, f);
        lemma_rows_weight_concat(own, children_rows(d, path, deeper(depth), results, none, 0), f);
        assert(subs_weight(d, f, 0) == 0);
    }
}

proof fn lemma_subs_weight_same(d: Folder, e: Folder, f: spec_fn(int) -> int, k: int)
    requires
        0 <= k <= d.subs.len(),
        k <= e.subs.len(),
        forall|i: int| 0 <= i < k ==> d.subs[i] == e.subs[i],
    ensures
        subs_weight(d, f, k) == subs_weight(e, f, k),
    decreases k,
{
    if k > 0 {
        lemma_subs_weight_same(d, e, f, k - 1);
        assert(d.subs[k - 1] == e.subs[k - 1]);
        assert(subs_weight(d, f, k) == subs_weight(d, f, k - 1) + weight(d.subs[k - 1].1, f));
        assert(subs_weight(e, f, k) == subs_weight(e, f, k - 1) + weight(e.subs[k - 1].1, f));
    }
}

proof fn lemma_subs_weight_update(d: Folder, e: Folder, p: int, f: spec_fn(int) -> int, k: int)
    requires
        0 <= p < k <= d.subs.len(),
        e.subs.len() == d.subs.len(),
        forall|i: int| 0 <= i < d.subs.len() && i != p ==> d.subs[i] == e.subs[i],
    ensures
        subs_weight(e, f, k) == subs_weight(d, f, k) + weight(e.subs[p].1, f) - weight(
            d.subs[p].1,
            f,
        ),
    decreases k,
{
    assert(subs_weight(d, f, k) == subs_weight(d, f, k - 1) + weight(d.subs[k - 1].1, f));
    assert(subs_weight(e, f, k) == subs_weight(e, f, k - 1) + weight(e.subs[k - 1].1, f));
    if k - 1 == p {
        lemma_subs_weight_same(d, e, f, k - 1);
    } else {
        lemma_subs_weight_update(d, e, p, f, k - 1);
        assert(d.subs[k - 1] == e.subs[k - 1]);
    }
}

proof fn lemma_subs_weight_insert(d: Folder, e: Folder, p: int, f: spec_fn(int) -> int, k: int)
    requires
        0 <= p <= k <= d.subs.len(),
        e.subs.len() == d.subs.len() + 1,
        forall|i: int| 0 <= i < p ==> e.subs[i] == d.subs[i],
        forall|i: int| p <= i < d.subs.len() ==> e.subs[i + 1] == #[trigger] d.subs[i],
    ensures
        subs_weight(e, f, k + 1) == subs_weight(d, f, k) + weight(e.subs[p].1, f),
    decreases k,
{
    assert(subs_weight(e, f, k + 1) == subs_weight(e, f, k) + weight(e.subs[k].1, f));
    if k == p {
        lemma_subs_weight_same(d, e, f, k);
    } else {
        assert(subs_weight(d, f, k) == subs_weight(d, f, k - 1) + weight(d.subs[k - 1].1, f));
        lemma_subs_weight_insert(d, e, p, f, k - 1);
        assert(e.subs[k - 1 + 1] == d.subs[k - 1]);
    }
}

proof fn lemma_inserted_weight(d: Folder, segs: Seq<Seq<char>>, k: int, file: int, f: spec_fn(int) -> int)
    requires
        0 <= k,
    ensures
        weight(inserted(d, segs, k, file), f) == weight(d, f) + f(file),
    decreases segs.len() - k,
{
    let e = inserted(d, segs, k, file);
    let n = d.subs.len() as int;
    assert(weight(d, f) == files_weight(d.files, f) + subs_weight(d, f, n));
    assert(weight(e, f) == files_weight(e.files, f) + subs_weight(e, f, e.subs.len() as int));
    if k >= segs.len() {
        assert(e.files.drop_last() =~= d.files);
        lemma_subs_weight_same(d, e, f, n);
    } else {
        let p = slot(d.subs, segs[k], 0);
        lemma_slot(d.subs, segs[k], 0);
        if p < n && d.subs[p].0 == segs[k] {
            lemma_inserted_weight(d.subs[p].1, segs, k + 1, file, f);
            lemma_subs_weight_update(d, e, p, f, n);
        } else {
            lemma_inserted_weight(no_folder(), segs, k + 1, file, f);
            assert(subs_weight(no_folder(), f, 0) == 0);
            assert(weight(no_folder(), f) == 0);
            lemma_subs_weight_insert(d, e, p, f, n);
        }
    }
}

/// What the first `n` files come to.
pub open spec fn sum_to(n: int, f: spec_fn(int) -> int) -> int
    decreases n,
{
    if n <= 0 {
        0
    } else {
        sum_to(n - 1, f) + f(n - 1)
    }
}

proof fn lemma_folders_weight(results: Seq<FileView>, n: int, f: spec_fn(int) -> int)
    requires
        0 <= n <= results.len(),
    ensures
        weight(folders(results, n), f) == sum_to(n, f),
    decreases n,
{
    if n > 0 {
        lemma_folders_weight(results, n - 1, f);
        lemma_inserted_weight(
            folders(results, n - 1),
            dirs_of(results[n - 1].rel),
            0,
            n - 1,
            f,
        );
    } else {
        assert(subs_weight(no_folder(), f, 0) == 0);
        assert(weight(no_folder(), f) == 0);
    }
}

/// Counts a file once if it is the `i`-th.
pub open spec fn only(i: int) -> spec_fn(int) -> int {
    |j: int|
        if j == i {
            1int
        } else {
            0
        }
}

proof fn lemma_sum_only(n: int, i: int)
    requires
        0 <= i,
    ensures
        sum_to(n, only(i)) == (if i < n {
            1int
        } else {
            0
        }),
    decreases n,
{
    if n > 0 {
        lemma_sum_only(n - 1, i);
    }
}

/// With nothing collapsed the tree shows every file of the results in exactly one row.
pub proof fn law_tree_shows_each_file_once(results: Seq<FileView>, i: int)
    requires
        0 <= i < results.len(),
    ensures
        rows_weight(
            children_rows(
                folders(results, results.len() as int),
                Seq::empty(),
                0,
                results,
                Seq::empty(),
                0,
            ),
            only(i),
        ) == 1,
{
    let root = folders(results, results.len() as int);
    lemma_children_weight(root, Seq::empty(), 0, results, 0, only(i));
    lemma_folders_weight(results, results.len() as int, only(i));
    lemma_sum_only(results.len() as int, i);
    assert(subs_weight(root, only(i), 0) == 0);
}

/// The folders together count every matching line of the results once.
pub proof fn law_tree_counts_every_match(results: Seq<FileView>)
    ensures
        weight(folders(results, results.len() as int), lines_of_file(results)) == sum_to(
            results.len() as int,
            lines_of_file(results),
        ),
{
    lemma_folders_weight(results, results.len() as int, lines_of_file(results));
}

/// The folders of a folder, and of each below it, stand in the order of their names, and no
/// name occurs twice.
pub open spec fn in_order(d: Folder) -> bool
    decreases d,
{
    (forall|i: int, j: int| 0 <= i < j < d.subs.len() ==> less((#[trigger] d.subs[i]).0, (#[trigger] d.subs[j]).0))
        && (forall|i: int| 0 <= i < d.subs.len() ==> in_order((#[trigger] d.subs[i]).1))
}

pub(crate) proof fn lemma_less_trans(a: Seq<char>, b: Seq<char>, c: Seq<char>, k: int)
    requires
        0 <= k,
        less_from(a, b, k),
        less_from(b, c, k),
    ensures
        less_from(a, c, k),
    decreases a.len() - k,
{
    if k < a.len() && k < b.len() && k < c.len() && a[k] == b[k] && b[k] == c[k] {
        lemma_less_trans(a, b, c, k + 1);
    }
}

pub(crate) proof fn lemma_less_total(a: Seq<char>, b: Seq<char>, k: int)
    requires
        0 <= k <= a.len(),
        k <= b.len(),
        forall|i: int| 0 <= i < k ==> a[i] == b[i],
        !less_from(a, b, k),
        !less_from(b, a, k),
    ensures
        a == b,
    decreases a.len() - k,
{
    if k < a.len() && k < b.len() {
        if a[k] == b[k] {
            lemma_less_total(a, b, k + 1);
        }
    } else {
        assert(a =~= b);
    }
}

proof fn lemma_inserted_in_order(d: Folder, segs: Seq<Seq<char>>, k: int, file: int)
    requires
        in_order(d),
        0 <= k,
    ensures
        in_order(inserted(d, segs, k, file)),
    decreases segs.len() - k,
{
    let e = inserted(d, segs, k, file);
    if k < segs.len() {
        let p = slot(d.subs, segs[k], 0);
        lemma_slot(d.subs, segs[k], 0);
        if p < d.subs.len() && d.subs[p].0 == segs[k] {
            lemma_inserted_in_order(d.subs[p].1, segs, k + 1, file);
            assert forall|i: int| 0 <= i < e.subs.len() implies in_order((#[trigger] e.subs[i]).1) by {
                if i != p {
                    assert(e.subs[i] == d.subs[i]);
                }
            }
            assert forall|i: int, j: int| 0 <= i < j < e.subs.len() implies less(
                (#[trigger] e.subs[i]).0,
                (#[trigger] e.subs[j]).0,
            ) by {
                assert(e.subs[i].0 == d.subs[i].0);
                assert(e.subs[j].0 == d.subs[j].0);
            }
        } else {
            lemma_inserted_in_order(no_folder(), segs, k + 1, file);
            assert forall|i: int| 0 <= i < e.subs.len() implies in_order((#[trigger] e.subs[i]).1) by {
                if i < p {
                    assert(e.subs[i] == d.subs[i]);
                } else if i > p {
                    assert(e.subs[i] == d.subs[i - 1]);
                }
            }
            if p < d.subs.len() {
                if !less(segs[k], d.subs[p].0) {
                    lemma_less_total(segs[k], d.subs[p].0, 0);
                }
                assert(less(segs[k], d.subs[p].0));
            }
            assert forall|i: int, j: int| 0 <= i < j < e.subs.len() implies less(
                (#[trigger] e.subs[i]).0,
                (#[trigger] e.subs[j]).0,
            ) by {
                if j < p {
                    assert(e.subs[i] == d.subs[i] && e.subs[j] == d.subs[j]);
                } else if i > p {
                    assert(e.subs[i] == d.subs[i - 1] && e.subs[j] == d.subs[j - 1]);
                } else if j == p {
                    assert(e.subs[i] == d.subs[i]);
                } else if i == p {
                    assert(e.subs[j] == d.subs[j - 1]);
                    if j - 1 > p {
                        assert(less(d.subs[p].0, d.subs[j - 1].0));
                        lemma_less_trans(segs[k], d.subs[p].0, d.subs[j - 1].0, 0);
                    }
                } else {
                    assert(e.subs[i] == d.subs[i] && e.subs[j] == d.subs[j - 1]);
                }
            }
        }
    }
}

/// The folders of the tree stand in the order of their names at every level, each once.
pub proof fn law_folders_in_order(results: Seq<FileView>, n: int)
    ensures
        in_order(folders(results, n)),
    decreases n,
{
    if n > 0 {
        law_folders_in_order(results, n - 1);
        lemma_inserted_in_order(folders(results, n - 1), dirs_of(results[n - 1].rel), 0, n - 1);
    }
}

pub(crate) proof fn lemma_less_irreflexive(a: Seq<char>, k: int)
    requires
        0 <= k,
    ensures
        !less_from(a, a, k),
    decreases a.len() - k,
{
    if k < a.len() {
        lemma_less_irreflexive(a, k + 1);
    }
}

/// The files of a folder are shown in the order of their names.
pub proof fn law_files_in_order(results: Seq<FileView>, files: Seq<int>, i: int, j: int)
    requires
        0 <= i < j < by_name(results, files).len(),
    ensures
        !less(
            last_segment(results[by_name(results, files)[j]].rel),
            last_segment(results[by_name(results, files)[i]].rel),
        ),
    decreases files.len(),
{
    let rest = by_name(results, files.drop_last());
    let x = files.last();
    let name = last_segment(results[x].rel);
    let p = place(results, rest, name, 0);
    lemma_place(results, rest, name, 0);
    let all = by_name(results, files);
    if i != p && j != p {
        let a = if i < p {
            i
        } else {
            i - 1
        };
        let b = if j < p {
            j
        } else {
            j - 1
        };
        assert(all[i] == rest[a] && all[j] == rest[b]);
        law_files_in_order(results, files.drop_last(), a, b);
    } else if j == p {
        assert(all[i] == rest[i]);
        assert(!less(name, last_segment(results[rest[i]].rel)));
    } else {
        assert(all[j] == rest[j - 1]);
        let other = last_segment(results[rest[j - 1]].rel);
        let first = last_segment(results[rest[p]].rel);
        assert(less(name, first));
        if less(other, name) {
            lemma_less_trans(other, name, first, 0);
            if j - 1 > p {
                law_files_in_order(results, files.drop_last(), p, j - 1);
            } else {
                lemma_less_irreflexive(other, 0);
            }
        }
    }
}

/// Whether the key of every folder and of every file below a folder is among the keys. `base`
/// is the folder's own path.
pub open spec fn keyed(d: Folder, base: Seq<char>, results: Seq<FileView>, keys: Set<Seq<char>>) -> bool
    decreases d,
{
    (forall|i: int| 0 <= i < d.files.len() ==> keys.contains(file_key(results[#[trigger] d.files[i]].rel)))
        && (forall|i: int|
        0 <= i < d.subs.len() ==> keys.contains(dir_key(path_below(base, (#[trigger] d.subs[i]).0))) && keyed(
            d.subs[i].1,
            path_below(base, d.subs[i].0),
            results,
            keys,
        ))
}

proof fn lemma_dir_keys_hold(segs: Seq<Seq<char>>, n: int, k: int)
    requires
        0 < k <= n,
    ensures
        dir_keys(segs, n).contains(dir_key(path_of(segs, k))),
    decreases n,
{
    if k < n {
        lemma_dir_keys_hold(segs, n - 1, k);
    }
}

proof fn lemma_inserted_keyed(
    d: Folder,
    segs: Seq<Seq<char>>,
    k: int,
    file: int,
    results: Seq<FileView>,
    keys: Set<Seq<char>>,
)
    requires
        keyed(d, path_of(segs, k), results, keys),
        0 <= k,
        keys.contains(file_key(results[file].rel)),
        forall|i: int| 0 < i <= segs.len() ==> keys.contains(#[trigger] dir_key(path_of(segs, i))),
    ensures
        keyed(inserted(d, segs, k, file), path_of(segs, k), results, keys),
    decreases segs.len() - k,
{
    let base = path_of(segs, k);
    let e = inserted(d, segs, k, file);
    if k < segs.len() {
        let p = slot(d.subs, segs[k], 0);
        lemma_slot(d.subs, segs[k], 0);
        assert(path_of(segs, k + 1) == path_below(base, segs[k]));
        assert(keys.contains(dir_key(path_of(segs, k + 1))));
        if p < d.subs.len() && d.subs[p].0 == segs[k] {
            lemma_inserted_keyed(d.subs[p].1, segs, k + 1, file, results, keys);
            assert forall|i: int| 0 <= i < e.subs.len() implies keys.contains(
                dir_key(path_below(base, (#[trigger] e.subs[i]).0)),
            ) && keyed(e.subs[i].1, path_below(base, e.subs[i].0), results, keys) by {
                if i != p {
                    assert(e.subs[i] == d.subs[i]);
                }
            }
        } else {
            assert(keyed(no_folder(), path_of(segs, k + 1), results, keys));
            lemma_inserted_keyed(no_folder(), segs, k + 1, file, results, keys);
            assert forall|i: int| 0 <= i < e.subs.len() implies keys.contains(
                dir_key(path_below(base, (#[trigger] e.subs[i]).0)),
            ) && keyed(e.subs[i].1, path_below(base, e.subs[i].0), results, keys) by {
                if i < p {
                    assert(e.subs[i] == d.subs[i]);
                } else if i > p {
                    assert(e.subs[i] == d.subs[i - 1]);
                }
            }
        }
    } else {
        assert forall|i: int| 0 <= i < e.files.len() implies keys.contains(
            file_key(results[#[trigger] e.files[i]].rel),
        ) by {
            if i < d.files.len() {
                assert(e.files[i] == d.files[i]);
            }
        }
    }
}

proof fn lemma_group_keys_grow(results: Seq<FileView>, n: int, m: int)
    requires
        n <= m,
    ensures
        group_keys(results, n).subset_of(group_keys(results, m)),
    decreases m,
{
    if n < m && m > 0 {
        lemma_group_keys_grow(results, n, m - 1);
    }
}

proof fn lemma_folders_keyed(results: Seq<FileView>, n: int, m: int)
    requires
        n <= m,
    ensures
        keyed(folders(results, n), Seq::empty(), results, group_keys(results, m)),
    decreases n,
{
    let keys = group_keys(results, m);
    if n > 0 {
        let segs = dirs_of(results[n - 1].rel);
        lemma_folders_keyed(results, n - 1, m);
        lemma_group_keys_grow(results, n, m);
        assert(group_keys(results, n).contains(file_key(results[n - 1].rel)));
        assert forall|i: int| 0 < i <= segs.len() implies keys.contains(
            #[trigger] dir_key(path_of(segs, i)),
        ) by {
            lemma_dir_keys_hold(segs, segs.len() as int, i);
            assert(group_keys(results, n).contains(dir_key(path_of(segs, i))));
        }
        assert(path_of(segs, 0) =~= Seq::<char>::empty());
        lemma_inserted_keyed(folders(results, n - 1), segs, 0, n - 1, results, keys);
    }
}

/// Whether every row of a folder or a file has one of the keys; where `shut`, whether there
/// are no other rows and none stands deeper than `depth`.
pub open spec fn rows_keyed(rows: Seq<RowView>, keys: Set<Seq<char>>, shut: bool, depth: usize) -> bool {
    forall|i: int|
        0 <= i < rows.len() ==> {
            &&& (#[trigger] rows[i]).kind != RowKind::Match ==> keys.contains(rows[i].key)
            &&& shut ==> rows[i].kind != RowKind::Match && rows[i].depth == depth
        }
}

proof fn lemma_rows_keyed_concat(a: Seq<RowView>, b: Seq<RowView>, keys: Set<Seq<char>>, shut: bool, depth: usize)
    requires
        rows_keyed(a, keys, shut, depth),
        rows_keyed(b, keys, shut, depth),
    ensures
        rows_keyed(a + b, keys, shut, depth),
{
    let r = a + b;
    assert forall|i: int| 0 <= i < r.len() implies {
        &&& (#[trigger] r[i]).kind != RowKind::Match ==> keys.contains(r[i].key)
        &&& shut ==> r[i].kind != RowKind::Match && r[i].depth == depth
    } by {
        if i < a.len() {
            assert(r[i] == a[i]);
        } else {
            assert(r[i] == b[i - a.len()]);
        }
    }
}

proof fn lemma_file_rows_keyed(
    results: Seq<FileView>,
    file: int,
    depth: usize,
    collapsed: Seq<Seq<char>>,
    keys: Set<Seq<char>>,
    shut: bool,
)
    requires
        keys.contains(file_key(results[file].rel)),
        shut ==> collapsed.to_set() == keys,
    ensures
        rows_keyed(file_rows(results, file, depth, collapsed), keys, shut, depth),
{
    let own = seq![file_row(results[file], file, depth)];
    assert(rows_keyed(own, keys, shut, depth));
    if shut {
        assert(collapsed.to_set().contains(file_key(results[file].rel)));
    } else {
        let rest = match_rows(results[file].lines, file, deeper(depth));
        assert(rows_keyed(rest, keys, shut, depth));
        lemma_rows_keyed_concat(own, rest, keys, shut, depth);
    }
}

proof fn lemma_list_rows_keyed(
    results: Seq<FileView>,
    files: Seq<int>,
    depth: usize,
    collapsed: Seq<Seq<char>>,
    keys: Set<Seq<char>>,
    shut: bool,
)
    requires
        forall|i: int| 0 <= i < files.len() ==> keys.contains(file_key(results[#[trigger] files[i]].rel)),
        shut ==> collapsed.to_set() == keys,
    ensures
        rows_keyed(list_rows(results, files, depth, collapsed), keys, shut, depth),
    decreases files.len(),
{
    if files.len() > 0 {
        let before = files.drop_last();
        assert forall|i: int| 0 <= i < before.len() implies keys.contains(
            file_key(results[#[trigger] before[i]].rel),
        ) by {
            assert(before[i] == files[i]);
        }
        lemma_list_rows_keyed(results, before, depth, collapsed, keys, shut);
        assert(files.last() == files[files.len() - 1]);
        lemma_file_rows_keyed(results, files.last(), depth, collapsed, keys, shut);
        lemma_rows_keyed_concat(
            list_rows(results, before, depth, collapsed),
            file_rows(results, files.last(), depth, collapsed),
            keys,
            shut,
            depth,
        );
    }
}

proof fn lemma_by_name_keyed(results: Seq<FileView>, files: Seq<int>, keys: Set<Seq<char>>)
    requires
        forall|i: int| 0 <= i < files.len() ==> keys.contains(file_key(results[#[trigger] files[i]].rel)),
    ensures
        forall|i: int|
            0 <= i < by_name(results, files).len() ==> keys.contains(
                file_key(results[#[trigger] by_name(results, files)[i]].rel),
            ),
    decreases files.len(),
{
    if files.len() > 0 {
        let before = files.drop_last();
        assert forall|i: int| 0 <= i < before.len() implies keys.contains(
            file_key(results[#[trigger] before[i]].rel),
        ) by {
            assert(before[i] == files[i]);
        }
        lemma_by_name_keyed(results, before, keys);
        let rest = by_name(results, before);
        let name = last_segment(results[files.last()].rel);
        let p = place(results, rest, name, 0);
        lemma_place(results, rest, name, 0);
        let all = by_name(results, files);
        assert(files.last() == files[files.len() - 1]);
        assert forall|i: int| 0 <= i < all.len() implies keys.contains(
            file_key(results[#[trigger] all[i]].rel),
        ) by {
            if i < p {
                assert(all[i] == rest[i]);
            } else if i > p {
                assert(all[i] == rest[i - 1]);
            }
        }
    }
}

proof fn lemma_children_keyed(
    d: Folder,
    base: Seq<char>,
    depth: usize,
    results: Seq<FileView>,
    collapsed: Seq<Seq<char>>,
    k: int,
    keys: Set<Seq<char>>,
    shut: bool,
)
    requires
        keyed(d, base, results, keys),
        0 <= k <= d.subs.len(),
        shut ==> collapsed.to_set() == keys,
    ensures
        rows_keyed(children_rows(d, base, depth, results, collapsed, k), keys, shut, depth),
    decreases d, d.subs.len() - k,
{
    if k < d.subs.len() {
        let (seg, child) = d.subs[k];
        assert(keys.contains(dir_key(path_below(base, d.subs[k].0))));
        lemma_dir_keyed(child, seg, path_below(base, seg), depth, results, collapsed, keys, shut);
        lemma_children_keyed(d, base, depth, results, collapsed, k + 1, keys, shut);
        lemma_rows_keyed_concat(
            dir_rows(child, seg, path_below(base, seg), depth, results, collapsed),
            children_rows(d, base, depth, results, collapsed, k + 1),
            keys,
            shut,
            depth,
        );
    } else {
        lemma_by_name_keyed(results, d.files, keys);
        lemma_list_rows_keyed(results, by_name(results, d.files), depth, collapsed, keys, shut);
    }
}

proof fn lemma_dir_keyed(
    d: Folder,
    name: Seq<char>,
    path: Seq<char>,
    depth: usize,
    results: Seq<FileView>,
    collapsed: Seq<Seq<char>>,
    keys: Set<Seq<char>>,
    shut: bool,
)
    requires
        keyed(d, path, results, keys),
        keys.contains(dir_key(path)),
        shut ==> collapsed.to_set() == keys,
    ensures
        rows_keyed(dir_rows(d, name, path, depth, results, collapsed), keys, shut, depth),
    decreases d, d.subs.len() + 1,
{
    if d.subs.len() == 1 && d.files.len() == 0 {
        let (seg, child) = d.subs[0];
        assert(keys.contains(dir_key(path_below(path, d.subs[0].0))));
        lemma_dir_keyed(
            child,
            name + "/"@ + seg,
            path_below(path, seg),
            depth,
            results,
            collapsed,
            keys,
            shut,
        );
    } else {
        let own = seq![dir_row(d, name, path, depth, results)];
        assert(rows_keyed(own, keys, shut, depth));
        if shut {
            assert(collapsed.to_set().contains(dir_key(path)));
        } else {
            lemma_children_keyed(d, path, deeper(depth), results, collapsed, 0, keys, shut);
            let rest = children_rows(d, path, deeper(depth), results, collapsed, 0);
            assert(rows_keyed(rest, keys, shut, depth));
            lemma_rows_keyed_concat(own, rest, keys, shut, depth);
        }
    }
}

proof fn lemma_flat_keyed(
    results: Seq<FileView>,
    collapsed: Seq<Seq<char>>,
    n: int,
    keys: Set<Seq<char>>,
    shut: bool,
)
    requires
        group_keys(results, n).subset_of(keys),
        shut ==> collapsed.to_set() == keys,
    ensures
        rows_keyed(flat_rows(results, collapsed, n), keys, shut, 0),
    decreases n,
{
    if n > 0 {
        lemma_group_keys_grow(results, n - 1, n);
        assert(group_keys(results, n).contains(file_key(results[n - 1].rel)));
        lemma_flat_keyed(results, collapsed, n - 1, keys, shut);
        lemma_file_rows_keyed(results, n - 1, 0, collapsed, keys, shut);
        lemma_rows_keyed_concat(
            flat_rows(results, collapsed, n - 1),
            file_rows(results, n - 1, 0, collapsed),
            keys,
            shut,
            0,
        );
    }
}

/// Whatever is collapsed, the key of each folder row and each file row of the tree and of the
/// flat list is one of the keys of the results.
pub proof fn law_group_keys_cover_the_rows(results: Seq<FileView>, collapsed: Seq<Seq<char>>)
    ensures
        forall|i: int|
            0 <= i < children_rows(
                folders(results, results.len() as int),
                Seq::empty(),
                0,
                results,
                collapsed,
                0,
            ).len() ==> {
                let row = #[trigger] children_rows(
                    folders(results, results.len() as int),
                    Seq::empty(),
                    0,
                    results,
                    collapsed,
                    0,
                )[i];
                row.kind != RowKind::Match ==> group_keys(results, results.len() as int).contains(row.key)
            },
        forall|i: int|
            0 <= i < flat_rows(results, collapsed, results.len() as int).len() ==> {
                let row = #[trigger] flat_rows(results, collapsed, results.len() as int)[i];
                row.kind != RowKind::Match ==> group_keys(results, results.len() as int).contains(row.key)
            },
{
    let n = results.len() as int;
    let keys = group_keys(results, n);
    lemma_folders_keyed(results, n, n);
    lemma_children_keyed(folders(results, n), Seq::empty(), 0, results, collapsed, 0, keys, false);
    lemma_flat_keyed(results, collapsed, n, keys, false);
}

/// With every key of the results collapsed, the tree and the flat list show no matching line,
/// and no row that is indented.
pub proof fn law_collapsing_all_leaves_the_top(results: Seq<FileView>, collapsed: Seq<Seq<char>>)
    requires
        collapsed.to_set() == group_keys(results, results.len() as int),
    ensures
        forall|i: int|
            0 <= i < children_rows(
                folders(results, results.len() as int),
                Seq::empty(),
                0,
                results,
                collapsed,
                0,
            ).len() ==> {
                let row = #[trigger] children_rows(
                    folders(results, results.len() as int),
                    Seq::empty(),
                    0,
                    results,
                    collapsed,
                    0,
                )[i];
                row.kind != RowKind::Match && row.depth == 0
            },
        forall|i: int|
            0 <= i < flat_rows(results, collapsed, results.len() as int).len() ==> {
                let row = #[trigger] flat_rows(results, collapsed, results.len() as int)[i];
                row.kind == RowKind::File && row.depth == 0
            },
{
    let n = results.len() as int;
    let keys = group_keys(results, n);
    lemma_folders_keyed(results, n, n);
    lemma_children_keyed(folders(results, n), Seq::empty(), 0, results, collapsed, 0, keys, true);
    lemma_flat_keyed(results, collapsed, n, keys, true);
    lemma_flat_files(results, collapsed, n);
}

proof fn lemma_flat_files(results: Seq<FileView>, collapsed: Seq<Seq<char>>, n: int)
    ensures
        forall|i: int|
            0 <= i < flat_rows(results, collapsed, n).len() ==> (#[trigger] flat_rows(results, collapsed, n)[i]).kind
                != RowKind::Dir,
    decreases n,
{
    if n > 0 {
        lemma_flat_files(results, collapsed, n - 1);
        let before = flat_rows(results, collapsed, n - 1);
        let last = file_rows(results, n - 1, 0, collapsed);
        let all = flat_rows(results, collapsed, n);
        assert forall|i: int| 0 <= i < all.len() implies (#[trigger] all[i]).kind != RowKind::Dir by {
            if i < before.len() {
                assert(all[i] == before[i]);
            } else {
                assert(all[i] == last[i - before.len()]);
            }
        }
    }
}

/// A row of a match shows its line without the white space in front, tells the number of the line
/// and where the first match starts in it.
pub proof fn law_match_rows_show_their_lines(l: LineView, file: int, depth: usize)
    ensures
        match_row(l, file, depth).kind == RowKind::Match,
        match_row(l, file, depth).file == file,
        match_row(l, file, depth).depth == depth,
        match_row(l, file, depth).line == Some(l.line),
        l.ranges.len() > 0 ==> match_row(l, file, depth).col == l.ranges[0].0,
        exists|white: Seq<char>|
            crate::text::is_blank(white) && l.text == #[trigger] (white + match_row(
                l,
                file,
                depth,
            ).label),
        match_row(l, file, depth).label.len() > 0 ==> !crate::text::is_white(
            match_row(l, file, depth).label[0],
        ),
{
    let n = l.text.len() as int;
    lemma_front_white(l.text, 0, n);
    let at = trim_from(l.text, 0, n);
    let white = l.text.subrange(0, at);
    assert(crate::text::is_blank(white));
    assert(l.text =~= white + match_row(l, file, depth).label);
}

proof fn lemma_front_white(s: Seq<char>, k: int, hi: int)
    requires
        0 <= k <= hi <= s.len(),
    ensures
        k <= trim_from(s, k, hi) <= hi,
        forall|j: int| k <= j < trim_from(s, k, hi) ==> crate::text::is_white(#[trigger] s[j]),
        trim_from(s, k, hi) < hi ==> !crate::text::is_white(s[trim_from(s, k, hi)]),
    decreases hi - k,
{
    if k < hi && crate::text::is_white(s[k]) {
        lemma_front_white(s, k + 1, hi);
    }
}

/// What is highlighted in a row is what matched in the line: a range behind the white space in
/// front moves by that much and keeps its length.
pub proof fn law_highlights_move_with_the_text(ranges: Seq<(usize, usize)>, a: usize, b: usize, lead: usize, max: usize)
    requires
        lead <= a < b,
        b - lead <= max,
    ensures
        moved_ranges(ranges.push((a, b)), lead, max) == moved_ranges(ranges, lead, max).push(
            ((a - lead) as usize, (b - lead) as usize),
        ),
        moved_ranges(Seq::empty(), lead, max).len() == 0,
{
    assert(ranges.push((a, b)).drop_last() =~= ranges);
}

/// A row of a file shows its name and how many lines of it match, and collapses by its path.
pub proof fn law_file_rows_tell_the_number(f: FileView, file: int, depth: usize)
    requires
        f.lines.len() <= usize::MAX,
    ensures
        file_row(f, file, depth).kind == RowKind::File,
        file_row(f, file, depth).rel == f.rel,
        file_row(f, file, depth).file == file,
        file_row(f, file, depth).depth == depth,
        file_row(f, file, depth).label == last_segment(f.rel) + seq![' ', ' ', '('] + decimal(
            f.lines.len(),
        ) + seq![')'],
        file_row(f, file, depth).key == seq!['f', ':'] + f.rel,
{
    reveal_strlit("  (");
    reveal_strlit(")");
    reveal_strlit("f:");
    assert("  ("@ =~= seq![' ', ' ', '(']);
    assert(")"@ =~= seq![')']);
    assert("f:"@ =~= seq!['f', ':']);
}

/// A file that is not collapsed is followed by its matches, in order and one step further in; a
/// collapsed one by none.
pub proof fn law_files_are_followed_by_their_matches(
    results: Seq<FileView>,
    file: int,
    depth: usize,
    collapsed: Seq<Seq<char>>,
    i: int,
)
    requires
        0 <= file < results.len(),
        depth < usize::MAX,
    ensures
        collapsed.contains(seq!['f', ':'] + results[file].rel) ==> file_rows(
            results,
            file,
            depth,
            collapsed,
        ).len() == 1,
        !collapsed.contains(seq!['f', ':'] + results[file].rel) ==> file_rows(
            results,
            file,
            depth,
            collapsed,
        ).len() == 1 + results[file].lines.len(),
        !collapsed.contains(seq!['f', ':'] + results[file].rel) && 0 <= i < results[file].lines.len()
            ==> file_rows(results, file, depth, collapsed)[1 + i].line == Some(
            results[file].lines[i].line,
        ) && file_rows(results, file, depth, collapsed)[1 + i].depth == depth + 1,
{
    reveal_strlit("f:");
    assert("f:"@ =~= seq!['f', ':']);
}

} // verus!
