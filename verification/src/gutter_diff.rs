//! Per-line change indicators for the editor gutter: the open buffer against its
//! baseline.
//!
//! `hunks` is the source of truth. It returns each change region with the baseline
//! lines it replaced, which drives both the gutter marks and the inline peek.
use vstd::prelude::*;

use crate::text::copy_range;
use crate::text::views;

verus! {

/// What happened to a line of the buffer.
#[derive(Clone, Copy, PartialEq, Eq, Debug, Structural)]
pub enum Change {
    /// A new line with no counterpart in the baseline.
    Added,
    /// A line that replaced a baseline line.
    Modified,
    /// Baseline lines were removed here; the marker sits on the current line.
    Deleted,
}

/// One change region. `cur_lo..cur_hi` is the range of current lines that changed
/// (empty for a pure deletion anchored at `cur_lo`); `base` holds the baseline lines
/// that the region replaced or removed (empty for a pure addition).
#[derive(Clone, Debug)]
pub struct Hunk {
    pub cur_lo: usize,
    pub cur_hi: usize,
    pub base: Vec<String>,
}

/// A line of text.
pub type Line = Seq<char>;

/// What a hunk says: the current range `lo..hi` stands where `base` stood.
#[verifier::ext_equal]
pub struct Region {
    pub lo: int,
    pub hi: int,
    pub base: Seq<Line>,
}

impl View for Hunk {
    type V = Region;

    open spec fn view(&self) -> Region {
        Region { lo: self.cur_lo as int, hi: self.cur_hi as int, base: views(self.base@) }
    }
}

impl Region {
    /// The kind of change that a region is.
    pub open spec fn change(self) -> Change {
        if self.hi > self.lo {
            if self.base.len() == 0 {
                Change::Added
            } else {
                Change::Modified
            }
        } else {
            Change::Deleted
        }
    }

    /// Whether the region owns current line `line`.
    pub open spec fn owns(self, line: int) -> bool {
        if self.hi > self.lo {
            self.lo <= line < self.hi
        } else {
            line == self.lo
        }
    }

    /// The gutter marks of the region: one deletion marker, or one mark per line.
    pub open spec fn marks(self) -> Seq<(int, Change)> {
        if self.hi > self.lo {
            Seq::new((self.hi - self.lo) as nat, |k: int| (self.lo + k, self.change()))
        } else {
            seq![(self.lo, Change::Deleted)]
        }
    }
}

/// The regions of a list of hunks.
pub open spec fn regions(hs: Seq<Hunk>) -> Seq<Region> {
    Seq::new(hs.len(), |i: int| hs[i]@)
}

/// The marks of a list of regions, region after region.
pub open spec fn all_marks(rs: Seq<Region>) -> Seq<(int, Change)>
    decreases rs.len(),
{
    if rs.len() == 0 {
        Seq::empty()
    } else {
        all_marks(rs.drop_last()) + rs.last().marks()
    }
}

/// Mark positions as mathematical integers.
pub open spec fn mark_views(v: Seq<(usize, Change)>) -> Seq<(int, Change)> {
    Seq::new(v.len(), |i: int| (v[i].0 as int, v[i].1))
}

/// Past this many lines in the differing middle a change becomes one coarse region.
pub const MAX_MIDDLE: usize = 2000;

/// How far `a` and `b` agree, counted from line `p` on.
pub open spec fn prefix_from(a: Seq<Line>, b: Seq<Line>, p: int) -> int
    decreases a.len() - p,
{
    if p < a.len() && p < b.len() && a[p] == b[p] {
        prefix_from(a, b, p + 1)
    } else {
        p
    }
}

/// How many lines agree at the end, not reaching into the first `p`, given that the
/// last `s` do.
pub open spec fn suffix_from(a: Seq<Line>, b: Seq<Line>, p: int, s: int) -> int
    decreases a.len() - p - s,
{
    if s < a.len() - p && s < b.len() - p && a[a.len() - 1 - s] == b[b.len() - 1 - s] {
        suffix_from(a, b, p, s + 1)
    } else {
        s
    }
}

/// Length of a longest common subsequence of `a[i..]` and `b[j..]`.
pub open spec fn lcs(a: Seq<Line>, b: Seq<Line>, i: int, j: int) -> nat
    decreases a.len() - i + b.len() - j,
{
    if i >= a.len() || j >= b.len() {
        0
    } else if a[i] == b[j] {
        1 + lcs(a, b, i + 1, j + 1)
    } else if lcs(a, b, i + 1, j) >= lcs(a, b, i, j + 1) {
        lcs(a, b, i + 1, j)
    } else {
        lcs(a, b, i, j + 1)
    }
}

/// Whether the edit script is at a line that both sides keep, or at the end.
pub open spec fn at_rest(a: Seq<Line>, b: Seq<Line>, i: int, j: int) -> bool {
    (i >= a.len() && j >= b.len()) || (i < a.len() && j < b.len() && a[i] == b[j])
}

/// Whether the script next inserts `b[j]`; otherwise it deletes `a[i]`.
pub open spec fn inserts(a: Seq<Line>, b: Seq<Line>, i: int, j: int) -> bool {
    j < b.len() && (i >= a.len() || lcs(a, b, i, j + 1) >= lcs(a, b, i + 1, j))
}

/// Where the run of insertions and deletions that starts at `(i, j)` ends.
pub open spec fn run_end(a: Seq<Line>, b: Seq<Line>, i: int, j: int) -> (int, int)
    decreases a.len() - i + b.len() - j,
{
    if i > a.len() || j > b.len() || at_rest(a, b, i, j) {
        (i, j)
    } else if inserts(a, b, i, j) {
        run_end(a, b, i, j + 1)
    } else {
        run_end(a, b, i + 1, j)
    }
}

proof fn lemma_run_end(a: Seq<Line>, b: Seq<Line>, i: int, j: int)
    requires
        0 <= i <= a.len(),
        0 <= j <= b.len(),
    ensures
        i <= run_end(a, b, i, j).0 <= a.len(),
        j <= run_end(a, b, i, j).1 <= b.len(),
        at_rest(a, b, run_end(a, b, i, j).0, run_end(a, b, i, j).1),
        !at_rest(a, b, i, j) ==> run_end(a, b, i, j).0 + run_end(a, b, i, j).1 > i + j,
        lcs(a, b, run_end(a, b, i, j).0, run_end(a, b, i, j).1) == lcs(a, b, i, j),
    decreases a.len() - i + b.len() - j,
{
    if !at_rest(a, b, i, j) {
        if inserts(a, b, i, j) {
            lemma_run_end(a, b, i, j + 1);
        } else {
            lemma_run_end(a, b, i + 1, j);
        }
    }
}

/// The regions of the edit script from `a[i..]` to `b[j..]`, `b` starting at current
/// line `p`.
pub open spec fn script(a: Seq<Line>, b: Seq<Line>, p: int, i: int, j: int) -> Seq<Region>
    decreases a.len() - i + b.len() - j,
    when 0 <= i <= a.len() && 0 <= j <= b.len()
    via script_decreases
{
    if i >= a.len() && j >= b.len() {
        Seq::empty()
    } else if at_rest(a, b, i, j) {
        script(a, b, p, i + 1, j + 1)
    } else {
        let (i2, j2) = run_end(a, b, i, j);
        seq![Region { lo: p + j, hi: p + j2, base: a.subrange(i, i2) }] + script(a, b, p, i2, j2)
    }
}

#[via_fn]
proof fn script_decreases(a: Seq<Line>, b: Seq<Line>, p: int, i: int, j: int) {
    lemma_run_end(a, b, i, j);
}

/// The change regions between `base` and `cur`: the common prefix and suffix are left
/// out; a pure insertion, a pure deletion and an over-long middle are one region; any
/// other middle is diffed by its longest common subsequence.
pub open spec fn diff(base: Seq<Line>, cur: Seq<Line>) -> Seq<Region> {
    let p = prefix_from(base, cur, 0);
    let s = suffix_from(base, cur, p, 0);
    let a = base.subrange(p, base.len() - s);
    let b = cur.subrange(p, cur.len() - s);
    if a.len() == 0 && b.len() == 0 {
        Seq::empty()
    } else if b.len() == 0 {
        let at = if p < cur.len() {
            p
        } else if cur.len() > 0 {
            cur.len() - 1
        } else {
            0
        };
        seq![Region { lo: at, hi: at, base: a }]
    } else if a.len() == 0 || a.len() > MAX_MIDDLE || b.len() > MAX_MIDDLE {
        seq![Region { lo: p, hi: p + b.len(), base: a }]
    } else {
        script(a, b, p, 0, 0)
    }
}

proof fn lemma_prefix(a: Seq<Line>, b: Seq<Line>, p: int)
    requires
        0 <= p <= a.len(),
        p <= b.len(),
        forall|k: int| 0 <= k < p ==> a[k] == b[k],
    ensures
        ({
            let q = prefix_from(a, b, p);
            &&& p <= q <= a.len()
            &&& q <= b.len()
            &&& forall|k: int| 0 <= k < q ==> a[k] == b[k]
            &&& q < a.len() && q < b.len() ==> a[q] != b[q]
        }),
    decreases a.len() - p,
{
    if p < a.len() && p < b.len() && a[p] == b[p] {
        lemma_prefix(a, b, p + 1);
    }
}

proof fn lemma_suffix(a: Seq<Line>, b: Seq<Line>, p: int, s: int)
    requires
        0 <= s <= a.len() - p,
        s <= b.len() - p,
        0 <= p,
        forall|k: int|
            a.len() - s <= k < a.len() ==> #[trigger] a[k] == b[k - a.len() + b.len()],
    ensures
        ({
            let q = suffix_from(a, b, p, s);
            &&& s <= q <= a.len() - p
            &&& q <= b.len() - p
            &&& forall|k: int|
                a.len() - q <= k < a.len() ==> #[trigger] a[k] == b[k - a.len() + b.len()]
        }),
    decreases a.len() - p - s,
{
    if s < a.len() - p && s < b.len() - p && a[a.len() - 1 - s] == b[b.len() - 1 - s] {
        lemma_suffix(a, b, p, s + 1);
    }
}

impl Hunk {
    /// The kind of change that this hunk is.
    pub fn kind(&self) -> (r: Change)
        ensures
            r == self@.change(),
    {
        if self.cur_hi > self.cur_lo {
            if self.base.is_empty() {
                Change::Added
            } else {
                Change::Modified
            }
        } else {
            Change::Deleted
        }
    }

    /// True when this hunk owns current line `line` (the deletion marker line for
    /// pure deletions, otherwise any line in its current range).
    pub fn contains(&self, line: usize) -> (r: bool)
        ensures
            r == self@.owns(line as int),
    {
        if self.cur_hi > self.cur_lo {
            self.cur_lo <= line && line < self.cur_hi
        } else {
            line == self.cur_lo
        }
    }
}

/// The lines `a[i..]` against `b[j..]`: row `a.len() - i`, column `b.len() - j` holds
/// the length of their longest common subsequence.
spec fn table_ok(t: Seq<Vec<u32>>, a: Seq<Line>, b: Seq<Line>, rows: int) -> bool {
    &&& t.len() == rows
    &&& forall|k: int|
        0 <= k < rows ==> row_ok(#[trigger] t[k]@, a, b, a.len() - k, b.len() as int + 1)
}

spec fn row_ok(row: Seq<u32>, a: Seq<Line>, b: Seq<Line>, i: int, cols: int) -> bool {
    &&& row.len() == cols
    &&& forall|t: int| 0 <= t < cols ==> #[trigger] row[t] == lcs(a, b, i, b.len() - t)
}

proof fn lemma_lcs_bound(a: Seq<Line>, b: Seq<Line>, i: int, j: int)
    requires
        0 <= i,
        0 <= j,
    ensures
        i <= a.len() ==> lcs(a, b, i, j) <= a.len() - i,
        j <= b.len() ==> lcs(a, b, i, j) <= b.len() - j,
    decreases a.len() - i + b.len() - j,
{
    if i < a.len() && j < b.len() {
        lemma_lcs_bound(a, b, i + 1, j + 1);
        lemma_lcs_bound(a, b, i + 1, j);
        lemma_lcs_bound(a, b, i, j + 1);
    }
}

/// Fills the table of longest common subsequences of `base[p..p + la]` and
/// `cur[p..p + lb]`.
fn lcs_table(base: &[String], cur: &[String], p: usize, la: usize, lb: usize) -> (t: Vec<Vec<u32>>)
    requires
        p + la <= base@.len(),
        p + lb <= cur@.len(),
        la <= MAX_MIDDLE,
        lb <= MAX_MIDDLE,
    ensures
        table_ok(
            t@,
            views(base@).subrange(p as int, p + la),
            views(cur@).subrange(p as int, p + lb),
            la + 1,
        ),
{
    let ghost a = views(base@).subrange(p as int, p + la);
    let ghost b = views(cur@).subrange(p as int, p + lb);
    let n: usize = base.len();
    let m: usize = cur.len();
    let mut t: Vec<Vec<u32>> = Vec::new();
    let mut first: Vec<u32> = Vec::new();
    let mut c: usize = 0;
    while c < lb + 1
        invariant
            c <= lb + 1,
            lb <= MAX_MIDDLE,
            a.len() == la,
            b.len() == lb,
            row_ok(first@, a, b, la as int, c as int),
        decreases lb + 1 - c,
    {
        first.push(0);
        c = c + 1;
    }
    t.push(first);
    let mut k: usize = 1;
    while k < la + 1
        invariant
            1 <= k <= la + 1,
            la <= MAX_MIDDLE,
            lb <= MAX_MIDDLE,
            n == base@.len(),
            m == cur@.len(),
            p + la <= n,
            p + lb <= m,
            a == views(base@).subrange(p as int, p + la),
            b == views(cur@).subrange(p as int, p + lb),
            table_ok(t@, a, b, k as int),
        decreases la + 1 - k,
    {
        let i: usize = la - k;
        let mut row: Vec<u32> = Vec::new();
        row.push(0);
        let mut c: usize = 1;
        assert(row_ok(t@[k - 1]@, a, b, la - (k - 1), lb + 1));
        while c < lb + 1
            invariant
                1 <= c <= lb + 1,
                1 <= k <= la,
                i == la - k,
                la <= MAX_MIDDLE,
                lb <= MAX_MIDDLE,
                n == base@.len(),
                m == cur@.len(),
                p + la <= n,
                p + lb <= m,
                a == views(base@).subrange(p as int, p + la),
                b == views(cur@).subrange(p as int, p + lb),
                t@.len() == k,
                row_ok(t@[k - 1]@, a, b, i + 1, lb + 1),
                row_ok(row@, a, b, i as int, c as int),
            decreases lb + 1 - c,
        {
            let j: usize = lb - c;
            assert(a[i as int] == base@[p + i]@);
            assert(b[j as int] == cur@[p + j]@);
            assert(t@[k - 1]@[c - 1] == lcs(a, b, i + 1, j + 1));
            assert(t@[k - 1]@[c as int] == lcs(a, b, i + 1, j as int));
            assert(row@[c - 1] == lcs(a, b, i as int, j + 1));
            proof {
                lemma_lcs_bound(a, b, i + 1, j + 1);
            }
            let v: u32 = if base[p + i] == cur[p + j] {
                t[k - 1][c - 1] + 1
            } else if t[k - 1][c] >= row[c - 1] {
                t[k - 1][c]
            } else {
                row[c - 1]
            };
            row.push(v);
            c = c + 1;
        }
        t.push(row);
        k = k + 1;
    }
    t
}

/// The edit script of the middle `base[p..p + la]` against `cur[p..p + lb]`.
fn middle_script(base: &[String], cur: &[String], p: usize, la: usize, lb: usize) -> (r: Vec<Hunk>)
    requires
        p + la <= base@.len(),
        p + lb <= cur@.len(),
        la <= MAX_MIDDLE,
        lb <= MAX_MIDDLE,
    ensures
        regions(r@) == script(
            views(base@).subrange(p as int, p + la),
            views(cur@).subrange(p as int, p + lb),
            p as int,
            0,
            0,
        ),
{
    let ghost a = views(base@).subrange(p as int, p + la);
    let ghost b = views(cur@).subrange(p as int, p + lb);
    let n: usize = base.len();
    let m: usize = cur.len();
    let t = lcs_table(base, cur, p, la, lb);
    let mut out: Vec<Hunk> = Vec::new();
    let mut i: usize = 0;
    let mut j: usize = 0;
    while i < la || j < lb
        invariant
            i <= la,
            j <= lb,
            n == base@.len(),
            m == cur@.len(),
            p + la <= n,
            p + lb <= m,
            a == views(base@).subrange(p as int, p + la),
            b == views(cur@).subrange(p as int, p + lb),
            table_ok(t@, a, b, la + 1),
            regions(out@) + script(a, b, p as int, i as int, j as int) == script(a, b, p as int, 0, 0),
        decreases la - i + lb - j,
    {
        assert(i < la ==> a[i as int] == base@[p + i]@);
        assert(j < lb ==> b[j as int] == cur@[p + j]@);
        if i < la && j < lb && base[p + i] == cur[p + j] {
            i = i + 1;
            j = j + 1;
            continue;
        }
        let i0: usize = i;
        let j0: usize = j;
        let ghost before = out@;
        assert(!at_rest(a, b, i0 as int, j0 as int));
        while i < la || j < lb
            invariant
                i0 <= i <= la,
                j0 <= j <= lb,
                n == base@.len(),
                m == cur@.len(),
                p + la <= n,
                p + lb <= m,
                a == views(base@).subrange(p as int, p + la),
                b == views(cur@).subrange(p as int, p + lb),
                table_ok(t@, a, b, la + 1),
                run_end(a, b, i as int, j as int) == run_end(a, b, i0 as int, j0 as int),
            ensures
                run_end(a, b, i0 as int, j0 as int) == (i as int, j as int),
            decreases la - i + lb - j,
        {
            assert(i < la ==> a[i as int] == base@[p + i]@);
            assert(j < lb ==> b[j as int] == cur@[p + j]@);
            if i < la && j < lb && base[p + i] == cur[p + j] {
                break;
            }
            assert(row_ok(t@[la - i]@, a, b, i as int, lb + 1));
            assert(i < la ==> row_ok(t@[la - i - 1]@, a, b, i + 1, lb + 1));
            assert(j < lb ==> t@[la - i]@[lb - j - 1] == lcs(a, b, i as int, j + 1));
            assert(i < la ==> t@[la - i - 1]@[lb - j] == lcs(a, b, i + 1, j as int));
            if j < lb && (i >= la || t[la - i][lb - j - 1] >= t[la - i - 1][lb - j]) {
                j = j + 1;
            } else {
                i = i + 1;
            }
        }
        proof {
            lemma_run_end(a, b, i0 as int, j0 as int);
        }
        let removed = copy_range(base, p + i0, p + i);
        assert(views(removed@) == a.subrange(i0 as int, i as int));
        let h = Hunk { cur_lo: p + j0, cur_hi: p + j, base: removed };
        out.push(h);
        assert(regions(out@) == regions(before).push(h@));
        assert(regions(before).push(h@) == regions(before) + seq![h@]);
        assert((regions(before) + seq![h@]) + script(a, b, p as int, i as int, j as int)
            == regions(before) + (seq![h@] + script(a, b, p as int, i as int, j as int)));
    }
    assert(regions(out@) + Seq::<Region>::empty() == regions(out@));
    out
}

/// Diffs `base` against `cur` into change regions. The common prefix and suffix are
/// trimmed first; the differing middle becomes a longest-common-subsequence edit
/// script, or one coarse modified hunk past `MAX_MIDDLE` lines.
pub fn hunks(base: &[String], cur: &[String]) -> (r: Vec<Hunk>)
    ensures
        regions(r@) == diff(views(base@), views(cur@)),
{
    let ghost bv = views(base@);
    let ghost cv = views(cur@);
    let n: usize = base.len();
    let m: usize = cur.len();
    let mut p: usize = 0;
    while p < n && p < m && base[p] == cur[p]
        invariant
            p <= n,
            p <= m,
            n == base@.len(),
            m == cur@.len(),
            bv == views(base@),
            cv == views(cur@),
            prefix_from(bv, cv, p as int) == prefix_from(bv, cv, 0),
        decreases n - p,
    {
        p = p + 1;
    }
    let mut s: usize = 0;
    while s < n - p && s < m - p && base[n - 1 - s] == cur[m - 1 - s]
        invariant
            s <= n - p,
            s <= m - p,
            p <= n,
            p <= m,
            n == base@.len(),
            m == cur@.len(),
            bv == views(base@),
            cv == views(cur@),
            suffix_from(bv, cv, p as int, s as int) == suffix_from(bv, cv, p as int, 0),
        decreases n - p - s,
    {
        s = s + 1;
    }
    let la: usize = n - s - p;
    let lb: usize = m - s - p;
    let ghost a = bv.subrange(p as int, n - s);
    let ghost b = cv.subrange(p as int, m - s);
    let mut out: Vec<Hunk> = Vec::new();
    if la == 0 && lb == 0 {
        return out;
    }
    if lb == 0 {
        let at: usize = if p < m {
            p
        } else if m > 0 {
            m - 1
        } else {
            0
        };
        let removed = copy_range(base, p, n - s);
        out.push(Hunk { cur_lo: at, cur_hi: at, base: removed });
        return out;
    }
    if la == 0 || la > MAX_MIDDLE || lb > MAX_MIDDLE {
        let removed = copy_range(base, p, n - s);
        out.push(Hunk { cur_lo: p, cur_hi: p + lb, base: removed });
        return out;
    }
    middle_script(base, cur, p, la, lb)
}

/// Per-line marks for the gutter, derived from `hunks`.
pub fn compute(base: &[String], cur: &[String]) -> (r: Vec<(usize, Change)>)
    ensures
        mark_views(r@) == all_marks(diff(views(base@), views(cur@))),
{
    let hs = hunks(base, cur);
    let ghost rs = regions(hs@);
    let mut out: Vec<(usize, Change)> = Vec::new();
    let mut k: usize = 0;
    while k < hs.len()
        invariant
            k <= hs@.len(),
            rs == regions(hs@),
            mark_views(out@) == all_marks(rs.take(k as int)),
        decreases hs.len() - k,
    {
        let h = &hs[k];
        let kind = h.kind();
        let ghost before = out@;
        assert(rs[k as int] == h@);
        assert(rs.take(k + 1).drop_last() == rs.take(k as int));
        if kind == Change::Deleted {
            out.push((h.cur_lo, Change::Deleted));
            assert(mark_views(out@) == mark_views(before) + h@.marks());
        } else {
            let mut l: usize = h.cur_lo;
            while l < h.cur_hi
                invariant
                    h.cur_lo <= l <= h.cur_hi,
                    h@.hi > h@.lo,
                    kind == h@.change(),
                    mark_views(out@) == mark_views(before) + h@.marks().take(l - h.cur_lo),
                decreases h.cur_hi - l,
            {
                let ghost sofar = out@;
                out.push((l, kind));
                assert(mark_views(out@) == mark_views(sofar).push((l as int, kind)));
                assert(h@.marks().take(l + 1 - h.cur_lo) == h@.marks().take(l - h.cur_lo).push(
                    (l as int, kind),
                ));
                l = l + 1;
            }
            assert(h@.marks().take(h.cur_hi - h.cur_lo) == h@.marks());
        }
        k = k + 1;
    }
    assert(rs.take(hs@.len() as int) == rs);
    out
}

/// Index of the first region that owns `line`, or the number of regions.
pub open spec fn first_owner(rs: Seq<Region>, line: int) -> int
    decreases rs.len(),
{
    if rs.len() == 0 {
        0
    } else if rs[0].owns(line) {
        0
    } else {
        1 + first_owner(rs.drop_first(), line)
    }
}

/// The hunk that owns current line `line`, if any.
pub fn hunk_at(base: &[String], cur: &[String], line: usize) -> (r: Option<Hunk>)
    ensures
        ({
            let rs = diff(views(base@), views(cur@));
            let k = first_owner(rs, line as int);
            match r {
                Some(h) => k < rs.len() && h@ == rs[k],
                None => k == rs.len(),
            }
        }),
{
    let hs = hunks(base, cur);
    let ghost rs = regions(hs@);
    let mut k: usize = 0;
    assert(rs.skip(0) == rs);
    while k < hs.len()
        invariant
            k <= hs@.len(),
            rs == regions(hs@),
            rs == diff(views(base@), views(cur@)),
            first_owner(rs, line as int) == k + first_owner(rs.skip(k as int), line as int),
        decreases hs.len() - k,
    {
        assert(rs.skip(k as int)[0] == hs@[k as int]@);
        assert(rs.skip(k as int).drop_first() == rs.skip(k + 1));
        if hs[k].contains(line) {
            let h = &hs[k];
            let lines = copy_range(h.base.as_slice(), 0, h.base.len());
            assert(views(lines@) == views(h.base@));
            return Some(Hunk { cur_lo: h.cur_lo, cur_hi: h.cur_hi, base: lines });
        }
        k = k + 1;
    }
    None
}

/// The buffer with every region put back to its baseline lines, from line `from` on.
pub open spec fn reverted(cur: Seq<Line>, rs: Seq<Region>, from: int) -> Seq<Line>
    decreases rs.len(),
{
    if rs.len() == 0 {
        cur.subrange(from, cur.len() as int)
    } else {
        cur.subrange(from, rs[0].lo) + rs[0].base + reverted(cur, rs.drop_first(), rs[0].hi)
    }
}

proof fn lemma_script_reverts(
    cur: Seq<Line>,
    a: Seq<Line>,
    b: Seq<Line>,
    p: int,
    tail: Seq<Line>,
    from: int,
    i: int,
    j: int,
)
    requires
        0 <= p,
        0 <= i <= a.len(),
        0 <= j <= b.len(),
        0 <= from <= p + j,
        p + b.len() <= cur.len(),
        b == cur.subrange(p, p + b.len()),
        tail == cur.subrange(p + b.len(), cur.len() as int),
    ensures
        reverted(cur, script(a, b, p, i, j), from) == cur.subrange(from, p + j) + a.subrange(
            i,
            a.len() as int,
        ) + tail,
    decreases a.len() - i + b.len() - j,
{
    let rest = a.subrange(i, a.len() as int);
    if i >= a.len() && j >= b.len() {
        assert(cur.subrange(from, cur.len() as int) =~= cur.subrange(from, p + j) + rest + tail);
    } else if at_rest(a, b, i, j) {
        lemma_script_reverts(cur, a, b, p, tail, from, i + 1, j + 1);
        assert(cur[p + j] == b[j]);
        assert(cur.subrange(from, p + j + 1) + a.subrange(i + 1, a.len() as int) + tail
            =~= cur.subrange(from, p + j) + rest + tail);
    } else {
        lemma_run_end(a, b, i, j);
        let (i2, j2) = run_end(a, b, i, j);
        let r = Region { lo: p + j, hi: p + j2, base: a.subrange(i, i2) };
        let more = script(a, b, p, i2, j2);
        lemma_script_reverts(cur, a, b, p, tail, p + j2, i2, j2);
        assert((seq![r] + more).drop_first() =~= more);
        assert(cur.subrange(from, p + j) + a.subrange(i, i2) + (cur.subrange(p + j2, p + j2)
            + a.subrange(i2, a.len() as int) + tail) =~= cur.subrange(from, p + j) + rest + tail);
    }
}

/// Putting every hunk's baseline lines back where its current lines stand gives the
/// baseline again. Left out are buffers that are a non-empty proper beginning of the
/// baseline: there the one deletion marker sits on the last line, not after it.
pub proof fn law_hunks_revert_to_base(base: Seq<Line>, cur: Seq<Line>)
    requires
        !(0 < cur.len() < base.len() && cur == base.subrange(0, cur.len() as int)),
    ensures
        reverted(cur, diff(base, cur), 0) == base,
{
    lemma_prefix(base, cur, 0);
    let p = prefix_from(base, cur, 0);
    lemma_suffix(base, cur, p, 0);
    let s = suffix_from(base, cur, p, 0);
    let a = base.subrange(p, base.len() - s);
    let b = cur.subrange(p, cur.len() - s);
    let tail = cur.subrange(cur.len() - s, cur.len() as int);
    assert(base =~= cur.subrange(0, p) + a + tail);
    if b.len() == 0 && a.len() > 0 && p >= cur.len() && cur.len() > 0 {
        assert(cur =~= base.subrange(0, cur.len() as int));
    }
    if a.len() == 0 && b.len() == 0 {
        assert(cur.subrange(0, cur.len() as int) =~= base);
    } else if b.len() == 0 || a.len() == 0 || a.len() > MAX_MIDDLE || b.len() > MAX_MIDDLE {
        let rs = diff(base, cur);
        assert(rs.drop_first() =~= Seq::<Region>::empty());
        assert(reverted(cur, rs.drop_first(), rs[0].hi) == cur.subrange(rs[0].hi, cur.len() as int));
        assert(reverted(cur, rs, 0) =~= base);
    } else {
        lemma_script_reverts(cur, a, b, p, tail, 0, 0, 0);
        assert(a.subrange(0, a.len() as int) =~= a);
    }
}

/// Two texts have no hunks between them exactly when they are equal.
pub proof fn law_no_hunks_iff_equal(base: Seq<Line>, cur: Seq<Line>)
    ensures
        diff(base, cur).len() == 0 <==> base == cur,
{
    lemma_prefix(base, cur, 0);
    let p = prefix_from(base, cur, 0);
    lemma_suffix(base, cur, p, 0);
    let s = suffix_from(base, cur, p, 0);
    let a = base.subrange(p, base.len() - s);
    let b = cur.subrange(p, cur.len() - s);
    if base == cur {
        assert(p == base.len());
    } else {
        if diff(base, cur).len() == 0 {
            assert(a.len() == 0 || b.len() == 0 || script(a, b, p, 0, 0).len() == 0);
            if a.len() > 0 && b.len() > 0 {
                assert(a[0] == base[p]);
                assert(b[0] == cur[p]);
                assert(!at_rest(a, b, 0, 0));
            } else {
                assert(p + s == base.len() == cur.len());
                assert forall|k: int| 0 <= k < base.len() implies base[k] == cur[k] by {
                    if k >= p {
                        assert(base[k] == cur[k - base.len() + cur.len()]);
                    }
                }
                assert(base =~= cur);
            }
        }
    }
}

proof fn lemma_script_order(a: Seq<Line>, b: Seq<Line>, p: int, i: int, j: int)
    requires
        0 <= i <= a.len(),
        0 <= j <= b.len(),
    ensures
        forall|k: int|
            0 <= k < script(a, b, p, i, j).len() ==> p + j <= #[trigger] script(a, b, p, i, j)[k].lo
                <= script(a, b, p, i, j)[k].hi <= p + b.len(),
        forall|k: int, l: int|
            0 <= k < l < script(a, b, p, i, j).len() ==> #[trigger] script(a, b, p, i, j)[k].hi
                < #[trigger] script(a, b, p, i, j)[l].lo,
        at_rest(a, b, i, j) ==> forall|k: int|
            0 <= k < script(a, b, p, i, j).len() ==> p + j < #[trigger] script(a, b, p, i, j)[k].lo,
    decreases a.len() - i + b.len() - j,
{
    if i >= a.len() && j >= b.len() {
    } else if at_rest(a, b, i, j) {
        lemma_script_order(a, b, p, i + 1, j + 1);
        assert(script(a, b, p, i, j) == script(a, b, p, i + 1, j + 1));
    } else {
        lemma_run_end(a, b, i, j);
        let (i2, j2) = run_end(a, b, i, j);
        lemma_script_order(a, b, p, i2, j2);
        let r = Region { lo: p + j, hi: p + j2, base: a.subrange(i, i2) };
        let more = script(a, b, p, i2, j2);
        let rs = script(a, b, p, i, j);
        assert(rs == seq![r] + more);
        assert forall|k: int| 0 <= k < rs.len() implies p + j <= #[trigger] rs[k].lo <= rs[k].hi <= p
            + b.len() by {
            if k > 0 {
                assert(rs[k] == more[k - 1]);
            }
        }
        assert forall|k: int, l: int| 0 <= k < l < rs.len() implies #[trigger] rs[k].hi
            < #[trigger] rs[l].lo by {
            assert(rs[l] == more[l - 1]);
            if k > 0 {
                assert(rs[k] == more[k - 1]);
            }
        }
    }
}

/// Hunks come in order and apart: each ends before the next one starts, and all lie
/// within the buffer.
pub proof fn law_hunks_in_order(base: Seq<Line>, cur: Seq<Line>)
    ensures
        ({
            let rs = diff(base, cur);
            &&& forall|k: int|
                0 <= k < rs.len() ==> 0 <= #[trigger] rs[k].lo <= rs[k].hi <= cur.len()
            &&& forall|k: int, l: int| 0 <= k < l < rs.len() ==> #[trigger] rs[k].hi < #[trigger] rs[l].lo
        }),
{
    lemma_prefix(base, cur, 0);
    let p = prefix_from(base, cur, 0);
    lemma_suffix(base, cur, p, 0);
    let s = suffix_from(base, cur, p, 0);
    let a = base.subrange(p, base.len() - s);
    let b = cur.subrange(p, cur.len() - s);
    lemma_script_order(a, b, p, 0, 0);
}

/// How many baseline lines the regions hold.
pub open spec fn removed_lines(rs: Seq<Region>) -> nat
    decreases rs.len(),
{
    if rs.len() == 0 {
        0
    } else {
        rs[0].base.len() + removed_lines(rs.drop_first())
    }
}

/// An edit script removes no more lines than it must: all but a longest common
/// subsequence.
pub proof fn law_script_is_shortest(a: Seq<Line>, b: Seq<Line>, p: int, i: int, j: int)
    requires
        0 <= i <= a.len(),
        0 <= j <= b.len(),
    ensures
        removed_lines(script(a, b, p, i, j)) == a.len() - i - lcs(a, b, i, j),
    decreases a.len() - i + b.len() - j,
{
    if i >= a.len() && j >= b.len() {
    } else if at_rest(a, b, i, j) {
        law_script_is_shortest(a, b, p, i + 1, j + 1);
    } else {
        lemma_run_end(a, b, i, j);
        let (i2, j2) = run_end(a, b, i, j);
        let r = Region { lo: p + j, hi: p + j2, base: a.subrange(i, i2) };
        let more = script(a, b, p, i2, j2);
        law_script_is_shortest(a, b, p, i2, j2);
        assert((seq![r] + more).drop_first() =~= more);
    }
}

/// Whether `part` is what remains of `whole[i..]` when some of its lines are left out.
pub open spec fn is_subsequence(part: Seq<Line>, whole: Seq<Line>, i: int) -> bool
    decreases whole.len() - i,
{
    ||| part.len() == 0
    ||| i < whole.len() && part[0] == whole[i] && is_subsequence(part.drop_first(), whole, i + 1)
    ||| i < whole.len() && is_subsequence(part, whole, i + 1)
}

/// The lines of the buffer that no region covers, from line `from` on.
pub open spec fn kept(cur: Seq<Line>, rs: Seq<Region>, from: int) -> Seq<Line>
    decreases rs.len(),
{
    if rs.len() == 0 {
        cur.subrange(from, cur.len() as int)
    } else {
        cur.subrange(from, rs[0].lo) + kept(cur, rs.drop_first(), rs[0].hi)
    }
}

/// What differs of the baseline between the common beginning and the common end.
pub open spec fn base_middle(base: Seq<Line>, cur: Seq<Line>) -> Seq<Line> {
    let p = prefix_from(base, cur, 0);
    base.subrange(p, base.len() - suffix_from(base, cur, p, 0))
}

/// What differs of the buffer between the common beginning and the common end.
pub open spec fn cur_middle(base: Seq<Line>, cur: Seq<Line>) -> Seq<Line> {
    let p = prefix_from(base, cur, 0);
    cur.subrange(p, cur.len() - suffix_from(base, cur, p, 0))
}

/// Whether some line of `a` is also one of `b`.
pub open spec fn share_a_line(a: Seq<Line>, b: Seq<Line>) -> bool {
    exists|i: int, j: int| 0 <= i < a.len() && 0 <= j < b.len() && #[trigger] a[i] == #[trigger] b[j]
}

proof fn lemma_subsequence_rest(part: Seq<Line>, whole: Seq<Line>, i: int)
    requires
        is_subsequence(part, whole, i),
        part.len() > 0,
    ensures
        is_subsequence(part.drop_first(), whole, i + 1),
    decreases whole.len() - i,
{
    if part[0] == whole[i] && is_subsequence(part.drop_first(), whole, i + 1) {
    } else {
        lemma_subsequence_rest(part, whole, i + 1);
        lemma_subsequence_earlier(part.drop_first(), whole, i + 1, i + 2);
    }
}

proof fn lemma_subsequence_earlier(part: Seq<Line>, whole: Seq<Line>, i: int, k: int)
    requires
        is_subsequence(part, whole, k),
        i <= k,
    ensures
        is_subsequence(part, whole, i),
    decreases k - i,
{
    if i < k {
        lemma_subsequence_earlier(part, whole, i + 1, k);
        if i >= whole.len() {
            assert(part.len() == 0);
        }
    }
}

proof fn lemma_subsequence_bound(part: Seq<Line>, a: Seq<Line>, b: Seq<Line>, i: int, j: int)
    requires
        0 <= i,
        0 <= j,
        is_subsequence(part, a, i),
        is_subsequence(part, b, j),
    ensures
        part.len() <= lcs(a, b, i, j),
    decreases a.len() - i + b.len() - j,
{
    if part.len() > 0 {
        if a[i] == b[j] {
            if part[0] == a[i] {
                lemma_subsequence_rest(part, a, i);
                lemma_subsequence_rest(part, b, j);
                lemma_subsequence_bound(part.drop_first(), a, b, i + 1, j + 1);
            } else {
                lemma_subsequence_bound(part, a, b, i + 1, j + 1);
            }
        } else if part[0] != a[i] {
            lemma_subsequence_bound(part, a, b, i + 1, j);
        } else {
            lemma_subsequence_bound(part, a, b, i, j + 1);
        }
    }
}

proof fn lemma_subsequence_prepend(part: Seq<Line>, whole: Seq<Line>, i: int, k: int)
    requires
        0 <= i <= k <= whole.len(),
        is_subsequence(part, whole, k),
    ensures
        is_subsequence(whole.subrange(i, k) + part, whole, i),
    decreases k - i,
{
    let x = whole.subrange(i, k) + part;
    if i < k {
        lemma_subsequence_prepend(part, whole, i + 1, k);
        assert(x.drop_first() =~= whole.subrange(i + 1, k) + part);
    } else {
        assert(x =~= part);
    }
}

proof fn lemma_lcs_prefix(a: Seq<Line>, b: Seq<Line>, p: int)
    requires
        0 <= p <= a.len(),
        p <= b.len(),
        forall|k: int| 0 <= k < p ==> a[k] == b[k],
    ensures
        lcs(a, b, 0, 0) == p + lcs(a, b, p, p),
    decreases p,
{
    if p > 0 {
        lemma_lcs_prefix(a, b, p - 1);
    }
}

proof fn lemma_lcs_push(a: Seq<Line>, b: Seq<Line>, e: Line, i: int, j: int)
    requires
        0 <= i <= a.len(),
        0 <= j <= b.len(),
    ensures
        lcs(a.push(e), b.push(e), i, j) == 1 + lcs(a, b, i, j),
    decreases a.len() - i + b.len() - j,
{
    if i < a.len() && j < b.len() {
        lemma_lcs_push(a, b, e, i + 1, j + 1);
    }
    if i < a.len() {
        lemma_lcs_push(a, b, e, i + 1, j);
    }
    if j < b.len() {
        lemma_lcs_push(a, b, e, i, j + 1);
    }
    let x = a.push(e);
    let y = b.push(e);
    assert(lcs(x, y, x.len() as int, j) == 0);
    assert(lcs(x, y, i, y.len() as int) == 0);
    assert(lcs(x, y, x.len() as int, j + 1) == 0);
    assert(lcs(x, y, i + 1, y.len() as int) == 0);
    if i == a.len() {
        assert(lcs(a, b, i, j) == 0);
    } else if j == b.len() {
        assert(lcs(a, b, i, j) == 0);
    }
}

proof fn lemma_lcs_suffix(a: Seq<Line>, b: Seq<Line>, p: int, s: int)
    requires
        0 <= p,
        0 <= s <= a.len() - p,
        s <= b.len() - p,
        forall|k: int|
            a.len() - s <= k < a.len() ==> #[trigger] a[k] == b[k - a.len() + b.len()],
    ensures
        lcs(a, b, p, p) == s + lcs(a.take(a.len() - s), b.take(b.len() - s), p, p),
    decreases s,
{
    if s == 0 {
        assert(a.take(a.len() as int) =~= a);
        assert(b.take(b.len() as int) =~= b);
    } else {
        lemma_lcs_suffix(a, b, p, s - 1);
        let x = a.take(a.len() - s);
        let y = b.take(b.len() - s);
        let e = a[a.len() - s];
        assert(a.take(a.len() - (s - 1)) =~= x.push(e));
        assert(b.take(b.len() - (s - 1)) =~= y.push(e));
        lemma_lcs_push(x, y, e, p, p);
    }
}

proof fn lemma_lcs_shift(a: Seq<Line>, b: Seq<Line>, p: int, i: int, j: int)
    requires
        0 <= p <= a.len(),
        p <= b.len(),
        0 <= i,
        0 <= j,
    ensures
        lcs(a, b, p + i, p + j) == lcs(a.skip(p), b.skip(p), i, j),
    decreases a.len() - i + b.len() - j,
{
    if p + i < a.len() && p + j < b.len() {
        lemma_lcs_shift(a, b, p, i + 1, j + 1);
        lemma_lcs_shift(a, b, p, i + 1, j);
        lemma_lcs_shift(a, b, p, i, j + 1);
    }
}

proof fn lemma_lcs_none(a: Seq<Line>, b: Seq<Line>, i: int, j: int)
    requires
        0 <= i,
        0 <= j,
        !share_a_line(a, b),
    ensures
        lcs(a, b, i, j) == 0,
    decreases a.len() - i + b.len() - j,
{
    if i < a.len() && j < b.len() {
        lemma_lcs_none(a, b, i + 1, j);
        lemma_lcs_none(a, b, i, j + 1);
        assert(a[i] != b[j]);
    }
}

/// A longest common subsequence of two texts is their common beginning, one of what differs,
/// and their common end.
proof fn lemma_lcs_parts(base: Seq<Line>, cur: Seq<Line>)
    ensures
        ({
            let p = prefix_from(base, cur, 0);
            let s = suffix_from(base, cur, p, 0);
            lcs(base, cur, 0, 0) == p + lcs(base_middle(base, cur), cur_middle(base, cur), 0, 0) + s
        }),
{
    lemma_prefix(base, cur, 0);
    let p = prefix_from(base, cur, 0);
    lemma_suffix(base, cur, p, 0);
    let s = suffix_from(base, cur, p, 0);
    lemma_lcs_prefix(base, cur, p);
    lemma_lcs_suffix(base, cur, p, s);
    let x = base.take(base.len() - s);
    let y = cur.take(cur.len() - s);
    lemma_lcs_shift(x, y, p, 0, 0);
    assert(x.skip(p) =~= base_middle(base, cur));
    assert(y.skip(p) =~= cur_middle(base, cur));
}

/// What an edit script keeps from `(i, j)` on, the common end with it.
proof fn lemma_script_keeps(base: Seq<Line>, cur: Seq<Line>, p: int, s: int, i: int, j: int)
    requires
        0 <= p,
        0 <= s,
        p + s <= base.len(),
        p + s <= cur.len(),
        0 <= i <= base.len() - s - p,
        0 <= j <= cur.len() - s - p,
        base.subrange(base.len() - s, base.len() as int) == cur.subrange(
            cur.len() - s,
            cur.len() as int,
        ),
    ensures
        ({
            let a = base.subrange(p, base.len() - s);
            let b = cur.subrange(p, cur.len() - s);
            let k = kept(cur, script(a, b, p, i, j), p + j);
            &&& is_subsequence(k, base, p + i)
            &&& is_subsequence(k, cur, p + j)
            &&& k.len() == lcs(a, b, i, j) + s
        }),
    decreases base.len() - i + cur.len() - j,
{
    let a = base.subrange(p, base.len() - s);
    let b = cur.subrange(p, cur.len() - s);
    let rs = script(a, b, p, i, j);
    let k = kept(cur, rs, p + j);
    let none = Seq::<Line>::empty();
    if i >= a.len() && j >= b.len() {
        lemma_subsequence_prepend(none, base, base.len() - s, base.len() as int);
        lemma_subsequence_prepend(none, cur, cur.len() - s, cur.len() as int);
        assert(k =~= base.subrange(base.len() - s, base.len() as int) + none);
        assert(k =~= cur.subrange(cur.len() - s, cur.len() as int) + none);
    } else if at_rest(a, b, i, j) {
        lemma_script_keeps(base, cur, p, s, i + 1, j + 1);
        lemma_script_order(a, b, p, i + 1, j + 1);
        let more = kept(cur, rs, p + j + 1);
        assert(rs == script(a, b, p, i + 1, j + 1));
        assert(k =~= seq![cur[p + j]] + more);
        assert(k.drop_first() =~= more);
        assert(base[p + i] == a[i]);
        assert(cur[p + j] == b[j]);
    } else {
        lemma_run_end(a, b, i, j);
        let (i2, j2) = run_end(a, b, i, j);
        let r = Region { lo: p + j, hi: p + j2, base: a.subrange(i, i2) };
        let more = script(a, b, p, i2, j2);
        lemma_script_keeps(base, cur, p, s, i2, j2);
        assert(rs == seq![r] + more);
        assert(rs.drop_first() =~= more);
        assert(k =~= kept(cur, more, p + j2));
        lemma_subsequence_earlier(k, base, p + i, p + i2);
        lemma_subsequence_earlier(k, cur, p + j, p + j2);
    }
}

/// The lines that no hunk covers are a longest common subsequence of the two texts, and the
/// hunks hold every other line of the baseline. Left out are texts with so much between their
/// common beginning and end that it becomes one hunk, though some line of it could be kept.
pub proof fn law_kept_lines_are_longest(base: Seq<Line>, cur: Seq<Line>)
    requires
        ({
            let a = base_middle(base, cur);
            let b = cur_middle(base, cur);
            a.len() > MAX_MIDDLE || b.len() > MAX_MIDDLE ==> !share_a_line(a, b)
        }),
    ensures
        ({
            let rs = diff(base, cur);
            let k = kept(cur, rs, 0);
            &&& is_subsequence(k, base, 0)
            &&& is_subsequence(k, cur, 0)
            &&& forall|other: Seq<Line>|
                #[trigger] is_subsequence(other, base, 0) && is_subsequence(other, cur, 0)
                    ==> other.len() <= k.len()
            &&& removed_lines(rs) + k.len() == base.len()
        }),
{
    lemma_prefix(base, cur, 0);
    let p = prefix_from(base, cur, 0);
    lemma_suffix(base, cur, p, 0);
    let s = suffix_from(base, cur, p, 0);
    let a = base_middle(base, cur);
    let b = cur_middle(base, cur);
    let rs = diff(base, cur);
    let tail = cur.subrange(cur.len() - s, cur.len() as int);
    assert(base.subrange(base.len() - s, base.len() as int) =~= tail);
    assert(base.subrange(0, p) =~= cur.subrange(0, p));
    lemma_lcs_parts(base, cur);
    let k = kept(cur, rs, 0);
    if a.len() == 0 || b.len() == 0 || a.len() > MAX_MIDDLE || b.len() > MAX_MIDDLE {
        lemma_script_keeps(base, cur, p, s, a.len() as int, b.len() as int);
        assert(script(a, b, p, a.len() as int, b.len() as int) =~= Seq::<Region>::empty());
        lemma_subsequence_earlier(tail, base, p, base.len() - s);
        lemma_subsequence_earlier(tail, cur, p, cur.len() - s);
        lemma_subsequence_prepend(tail, base, 0, p);
        lemma_subsequence_prepend(tail, cur, 0, p);
        if a.len() > 0 && b.len() > 0 {
            lemma_lcs_none(a, b, 0, 0);
        }
        if rs.len() > 0 {
            assert(rs.drop_first() =~= Seq::<Region>::empty());
            assert(removed_lines(rs) == a.len() + removed_lines(rs.drop_first()));
            assert(kept(cur, rs.drop_first(), rs[0].hi) == cur.subrange(rs[0].hi, cur.len() as int));
        }
        assert(k =~= cur.subrange(0, p) + tail);
    } else {
        lemma_script_keeps(base, cur, p, s, 0, 0);
        lemma_script_order(a, b, p, 0, 0);
        law_script_is_shortest(a, b, p, 0, 0);
        let m = kept(cur, rs, p);
        lemma_subsequence_prepend(m, base, 0, p);
        lemma_subsequence_prepend(m, cur, 0, p);
        assert(k =~= cur.subrange(0, p) + m);
    }
    assert forall|other: Seq<Line>|
        #[trigger] is_subsequence(other, base, 0) && is_subsequence(other, cur, 0) implies other.len()
        <= k.len() by {
        lemma_subsequence_bound(other, base, cur, 0, 0);
    }
}

/// Whether a hunk marks a line: each of its current lines as added where it replaced nothing and
/// as modified otherwise, and where it has none the line at which it stands as deleted.
pub open spec fn marks_line(r: Region, line: int, mark: Change) -> bool {
    ||| r.lo <= line < r.hi && r.base.len() == 0 && mark == Change::Added
    ||| r.lo <= line < r.hi && r.base.len() > 0 && mark == Change::Modified
    ||| r.lo >= r.hi && line == r.lo && mark == Change::Deleted
}

proof fn lemma_marks(rs: Seq<Region>, line: int, mark: Change)
    ensures
        all_marks(rs).contains((line, mark)) <==> exists|k: int|
            0 <= k < rs.len() && marks_line(#[trigger] rs[k], line, mark),
    decreases rs.len(),
{
    if rs.len() > 0 {
        let front = rs.drop_last();
        let last = rs.last();
        lemma_marks(front, line, mark);
        let m = last.marks();
        let a = all_marks(front);
        let all = all_marks(rs);
        assert(all == a + m);
        if all.contains((line, mark)) {
            let i = choose|i: int| 0 <= i < all.len() && all[i] == (line, mark);
            if i < a.len() {
                assert(a[i] == (line, mark));
                let k = choose|k: int| 0 <= k < front.len() && marks_line(#[trigger] front[k], line, mark);
                assert(marks_line(rs[k], line, mark));
            } else {
                assert(m[i - a.len()] == (line, mark));
                assert(marks_line(rs[rs.len() - 1], line, mark));
            }
        }
        if exists|k: int| 0 <= k < rs.len() && marks_line(#[trigger] rs[k], line, mark) {
            let k = choose|k: int| 0 <= k < rs.len() && marks_line(#[trigger] rs[k], line, mark);
            if k < front.len() {
                assert(marks_line(front[k], line, mark));
                let i = choose|i: int| 0 <= i < a.len() && a[i] == (line, mark);
                assert(all[i] == (line, mark));
            } else {
                if last.hi > last.lo {
                    assert(m[line - last.lo] == (line, mark));
                    assert(all[a.len() + line - last.lo] == (line, mark));
                } else {
                    assert(m[0] == (line, mark));
                    assert(all[a.len() as int] == (line, mark));
                }
            }
        }
    }
}

/// The gutter marks exactly the lines of the hunks: a line has a mark where some hunk between
/// the two texts marks it so, and nowhere else.
pub proof fn law_marks_are_those_of_the_hunks(base: Seq<Line>, cur: Seq<Line>, line: int, mark: Change)
    ensures
        all_marks(diff(base, cur)).contains((line, mark)) <==> exists|k: int|
            0 <= k < diff(base, cur).len() && marks_line(#[trigger] diff(base, cur)[k], line, mark),
{
    lemma_marks(diff(base, cur), line, mark);
}

/// Two texts have no marks between them exactly when they are equal.
pub proof fn law_no_marks_iff_equal(base: Seq<Line>, cur: Seq<Line>)
    ensures
        all_marks(diff(base, cur)).len() == 0 <==> base == cur,
{
    law_no_hunks_iff_equal(base, cur);
    let rs = diff(base, cur);
    if rs.len() > 0 {
        let r = rs[0];
        let mark = if r.hi > r.lo {
            if r.base.len() == 0 {
                Change::Added
            } else {
                Change::Modified
            }
        } else {
            Change::Deleted
        };
        lemma_marks(rs, r.lo, mark);
        assert(marks_line(rs[0], r.lo, mark));
        assert(all_marks(rs).contains((r.lo, mark)));
    }
}

proof fn lemma_marks_ascend(rs: Seq<Region>)
    requires
        forall|k: int| 0 <= k < rs.len() ==> (#[trigger] rs[k]).lo <= rs[k].hi,
        forall|k: int, l: int| 0 <= k < l < rs.len() ==> #[trigger] rs[k].hi < #[trigger] rs[l].lo,
    ensures
        forall|i: int, j: int|
            0 <= i < j < all_marks(rs).len() ==> (#[trigger] all_marks(rs)[i]).0 < (#[trigger] all_marks(
                rs,
            )[j]).0,
        rs.len() > 0 ==> forall|i: int|
            0 <= i < all_marks(rs).len() ==> (#[trigger] all_marks(rs)[i]).0 <= rs.last().hi,
    decreases rs.len(),
{
    if rs.len() > 0 {
        let front = rs.drop_last();
        lemma_marks_ascend(front);
        let a = all_marks(front);
        let m = rs.last().marks();
        let all = all_marks(rs);
        assert(all == a + m);
        assert forall|i: int| 0 <= i < a.len() implies (#[trigger] all[i]).0 < rs.last().lo by {
            assert(all[i] == a[i]);
            if front.len() > 0 {
                assert(a[i].0 <= front.last().hi);
                assert(rs[front.len() - 1].hi < rs[rs.len() - 1].lo);
            }
        }
        assert forall|i: int| a.len() <= i < all.len() implies rs.last().lo <= (#[trigger] all[i]).0
            <= rs.last().hi by {
            assert(all[i] == m[i - a.len()]);
        }
        assert forall|i: int, j: int| 0 <= i < j < all.len() implies (#[trigger] all[i]).0 < (
        #[trigger] all[j]).0 by {
            if j < a.len() {
                assert(all[i] == a[i] && all[j] == a[j]);
            } else if i >= a.len() {
                assert(all[i] == m[i - a.len()] && all[j] == m[j - a.len()]);
            }
        }
    }
}

/// The marks come from the top of the buffer to its end, and no line has two.
pub proof fn law_marks_ascend(base: Seq<Line>, cur: Seq<Line>, i: int, j: int)
    requires
        0 <= i < j < all_marks(diff(base, cur)).len(),
    ensures
        all_marks(diff(base, cur))[i].0 < all_marks(diff(base, cur))[j].0,
{
    law_hunks_in_order(base, cur);
    lemma_marks_ascend(diff(base, cur));
}

/// A line has a mark exactly where a hunk owns it, which is then the one that is found for it,
/// and the mark says what kind of change that hunk is.
pub proof fn law_marked_line_finds_its_hunk(base: Seq<Line>, cur: Seq<Line>, line: int, mark: Change)
    ensures
        ({
            let rs = diff(base, cur);
            let k = first_owner(rs, line);
            &&& 0 <= k <= rs.len()
            &&& all_marks(rs).contains((line, mark)) ==> k < rs.len() && rs[k].change() == mark
                && marks_line(rs[k], line, mark)
            &&& k < rs.len() ==> all_marks(rs).contains((line, rs[k].change()))
        }),
{
    law_hunks_in_order(base, cur);
    let rs = diff(base, cur);
    lemma_first_owner(rs, line);
    let k = first_owner(rs, line);
    lemma_marks(rs, line, mark);
    if all_marks(rs).contains((line, mark)) {
        let i = choose|i: int| 0 <= i < rs.len() && marks_line(#[trigger] rs[i], line, mark);
        assert(rs[i].owns(line));
        if k < i {
            assert(rs[k].hi < rs[i].lo);
        }
        assert(k == i);
    }
    if k < rs.len() {
        lemma_marks(rs, line, rs[k].change());
        assert(marks_line(rs[k], line, rs[k].change()));
    }
}

proof fn lemma_first_owner(rs: Seq<Region>, line: int)
    ensures
        0 <= first_owner(rs, line) <= rs.len(),
        first_owner(rs, line) < rs.len() ==> rs[first_owner(rs, line)].owns(line),
        forall|k: int| 0 <= k < first_owner(rs, line) ==> !(#[trigger] rs[k]).owns(line),
    decreases rs.len(),
{
    if rs.len() > 0 && !rs[0].owns(line) {
        let rest = rs.drop_first();
        lemma_first_owner(rest, line);
        let f = first_owner(rest, line);
        assert(f < rest.len() ==> rest[f] == rs[f + 1]);
        assert forall|k: int| 0 <= k < f + 1 implies !(#[trigger] rs[k]).owns(line) by {
            if k > 0 {
                assert(rest[k - 1] == rs[k]);
            }
        }
    }
}

/// A buffer that lacks the end of its baseline has one mark: its last line says that lines were
/// deleted behind it.
pub proof fn law_deleted_end_is_marked_on_the_last_line(base: Seq<Line>, n: int)
    requires
        0 < n < base.len(),
    ensures
        all_marks(diff(base, base.take(n))) == seq![(n - 1, Change::Deleted)],
        diff(base, base.take(n)) == seq![Region { lo: n - 1, hi: n - 1, base: base.skip(n) }],
{
    let cur = base.take(n);
    lemma_prefix(base, cur, 0);
    let p = prefix_from(base, cur, 0);
    assert(p == n) by {
        if p < n {
            assert(base[p] == cur[p]);
        }
    }
    lemma_suffix(base, cur, p, 0);
    let s = suffix_from(base, cur, p, 0);
    assert(base.subrange(p, base.len() - s) =~= base.skip(n));
    let rs = diff(base, cur);
    assert(rs =~= seq![Region { lo: n - 1, hi: n - 1, base: base.skip(n) }]);
    assert(rs.drop_last() =~= Seq::<Region>::empty());
    assert(all_marks(rs.drop_last()) =~= Seq::<(int, Change)>::empty());
    assert(all_marks(rs) =~= seq![(n - 1, Change::Deleted)]);
}

/// A middle of up to two thousand lines on each side is told apart line by line: the hunks
/// leave out a longest common subsequence of the two texts.
pub proof fn law_long_middles_are_diffed(base: Seq<Line>, cur: Seq<Line>, other: Seq<Line>)
    requires
        base_middle(base, cur).len() <= 2000,
        cur_middle(base, cur).len() <= 2000,
        is_subsequence(other, base, 0),
        is_subsequence(other, cur, 0),
    ensures
        other.len() <= kept(cur, diff(base, cur), 0).len(),
{
    law_kept_lines_are_longest(base, cur);
}

} // verus!
