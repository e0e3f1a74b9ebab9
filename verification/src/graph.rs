//! Commit-graph layout for the repository history.
//!
//! Takes log records (a commit and its parents, newest first) and gives each commit a
//! lane. Each row gets the line segments that the renderer draws. A lane keeps its colour
//! while it lives.
use vstd::prelude::*;

use crate::text::begins;
use crate::text::contains;
use crate::text::decimal;
use crate::text::holds;
use crate::text::same;
use crate::text::strip_prefix;
use crate::text::take_chars;
use crate::text::views;
use crate::text::write_decimal;

verus! {

/// One record of the log.
pub struct LogEntry {
    pub hash: String,
    pub parents: Vec<String>,
    pub refs: Vec<String>,
    pub author: String,
    pub timestamp: i64,
    pub subject: String,
    pub body: String,
}

/// Vertical extent of a lane segment within a row's band.
#[derive(Clone, Copy, PartialEq, Eq, Debug, Structural)]
pub enum Half {
    Full,
    Top,
    Bottom,
}

/// A line segment in one row's band: a vertical at a column, a horizontal at the
/// mid-line joining two columns, or a curved connector between the node's column and a
/// lane, in the top half (a merge) or the bottom half (a branch).
#[derive(Clone, Copy, PartialEq, Eq, Debug, Structural)]
pub enum Seg {
    V { col: u16, half: Half, color: u8 },
    H { a: u16, b: u16, color: u8 },
    Bend { col: u16, top: bool, color: u8 },
}

/// What a reference is.
#[derive(Clone, Copy, PartialEq, Eq, Debug, Structural)]
pub enum RefKind {
    Head,
    Branch,
    Remote,
    Tag,
}

/// A reference that points at a commit.
pub struct Ref {
    pub label: String,
    pub kind: RefKind,
}

/// One laid-out commit.
pub struct Row {
    pub node_col: u16,
    pub color: u8,
    pub segs: Vec<Seg>,
    pub short: String,
    pub refs: Vec<Ref>,
    pub author: String,
    pub when: String,
    pub subject: String,
    /// Subject and body, for the tooltip.
    pub message: String,
}

/// A laid-out history.
pub struct Graph {
    pub title: String,
    pub rows: Vec<Row>,
    /// Widest lane index used, for laying out the text column.
    pub max_col: u16,
}

/// Number of lane colours that are cycled through.
pub const PALETTE: u8 = 8;

/// A commit's name.
pub type Hash = Seq<char>;

/// A reference by its text.
pub open spec fn ref_of(d: Seq<char>) -> (Seq<char>, RefKind) {
    if begins(d, "HEAD -> "@) {
        (d.skip("HEAD -> "@.len() as int), RefKind::Head)
    } else if d == "HEAD"@ {
        (d, RefKind::Head)
    } else if begins(d, "tag: "@) {
        (d.skip("tag: "@.len() as int), RefKind::Tag)
    } else if holds(d, "/"@) {
        (d, RefKind::Remote)
    } else {
        (d, RefKind::Branch)
    }
}

fn parse_ref(d: &str) -> (r: Ref)
    ensures
        (r.label@, r.kind) == ref_of(d@),
{
    if let Some(rest) = strip_prefix(d, "HEAD -> ") {
        return Ref { label: rest, kind: RefKind::Head };
    }
    if same(d, "HEAD") {
        return Ref { label: "HEAD".to_owned(), kind: RefKind::Head };
    }
    if let Some(t) = strip_prefix(d, "tag: ") {
        return Ref { label: t, kind: RefKind::Tag };
    }
    if contains(d, "/") {
        return Ref { label: d.to_owned(), kind: RefKind::Remote };
    }
    Ref { label: d.to_owned(), kind: RefKind::Branch }
}

/// How long `d` seconds are, in the largest unit that they fill.
pub open spec fn ago(d: int) -> (int, Seq<char>) {
    if d < 60 {
        (d, "second"@)
    } else if d < 3600 {
        (d / 60, "minute"@)
    } else if d < 86_400 {
        (d / 3600, "hour"@)
    } else if d < 2_592_000 {
        (d / 86_400, "day"@)
    } else if d < 31_536_000 {
        (d / 2_592_000, "month"@)
    } else {
        (d / 31_536_000, "year"@)
    }
}

/// The time that passed between `ts` and `now`, in words; none where `ts` is later.
pub open spec fn time_ago(ts: int, now: int) -> Seq<char> {
    let d = if now > ts {
        now - ts
    } else {
        0
    };
    let (n, unit) = ago(d);
    decimal(n as nat) + " "@ + unit + (if n == 1 {
        ""@
    } else {
        "s"@
    }) + " ago"@
}

fn rel_time(ts: i64, now: i64) -> (r: String)
    requires
        i64::MIN <= now - ts <= i64::MAX,
    ensures
        r@ == time_ago(ts as int, now as int),
{
    let d: u64 = if now > ts {
        (now - ts) as u64
    } else {
        0
    };
    let (n, unit): (u64, &str) = if d < 60 {
        (d, "second")
    } else if d < 3600 {
        (d / 60, "minute")
    } else if d < 86_400 {
        (d / 3600, "hour")
    } else if d < 2_592_000 {
        (d / 86_400, "day")
    } else if d < 31_536_000 {
        (d / 2_592_000, "month")
    } else {
        (d / 31_536_000, "year")
    };
    let mut out = write_decimal(n);
    out.append(" ");
    out.append(unit);
    out.append(if n == 1 { "" } else { "s" });
    out.append(" ago");
    out
}

/// The lanes by what each expects.
pub open spec fn lane_views(v: Seq<Option<String>>) -> Seq<Option<Hash>> {
    Seq::new(
        v.len(),
        |i: int|
            match v[i] {
                Some(s) => Some(s@),
                None => None,
            },
    )
}

/// The state between two rows: what each lane expects, its colour, and the colour that
/// the next new lane gets.
#[verifier::ext_equal]
pub struct Lanes {
    pub lanes: Seq<Option<Hash>>,
    pub colors: Seq<u8>,
    pub next: u8,
}

/// The first lane at or after `k` that expects `what`, or the number of lanes.
pub open spec fn lane_from(lanes: Seq<Option<Hash>>, what: Option<Hash>, k: int) -> int
    decreases lanes.len() - k,
{
    if k >= lanes.len() {
        lanes.len() as int
    } else if lanes[k] == what {
        k
    } else {
        lane_from(lanes, what, k + 1)
    }
}

/// The first lane that expects `what`, or the number of lanes.
pub open spec fn lane_of(lanes: Seq<Option<Hash>>, what: Option<Hash>) -> int {
    lane_from(lanes, what, 0)
}

proof fn lemma_lane_from(lanes: Seq<Option<Hash>>, what: Option<Hash>, k: int)
    requires
        0 <= k <= lanes.len(),
    ensures
        k <= lane_from(lanes, what, k) <= lanes.len(),
        lane_from(lanes, what, k) < lanes.len() ==> lanes[lane_from(lanes, what, k)] == what,
        forall|j: int| k <= j < lane_from(lanes, what, k) ==> lanes[j] != what,
    decreases lanes.len() - k,
{
    if k < lanes.len() && lanes[k] != what {
        lemma_lane_from(lanes, what, k + 1);
    }
}

/// The colour after `c` in the cycle.
pub open spec fn next_color(c: u8) -> u8 {
    ((c + 1) % PALETTE as int) as u8
}

/// A free lane is taken for `what`: the first empty one, else a new one. It gets the
/// next colour.
pub open spec fn claimed(l: Lanes, what: Option<Hash>) -> (Lanes, int) {
    let c = lane_of(l.lanes, None);
    let lanes = if c < l.lanes.len() {
        l.lanes
    } else {
        l.lanes.push(None)
    };
    let colors = if c < l.lanes.len() {
        l.colors
    } else {
        l.colors.push(0)
    };
    (
        Lanes {
            lanes: lanes.update(c, what),
            colors: colors.update(c, l.next),
            next: next_color(l.next),
        },
        c,
    )
}

/// The lane of a commit: the first one that expects it, else a fresh one.
pub open spec fn placed(l: Lanes, hash: Hash) -> (Lanes, int) {
    let c = lane_of(l.lanes, Some(hash));
    if c < l.lanes.len() {
        (l, c)
    } else {
        claimed(l, None)
    }
}

/// Every lane that expected the commit is free again.
pub open spec fn cleared(lanes: Seq<Option<Hash>>, hash: Hash) -> Seq<Option<Hash>> {
    Seq::new(
        lanes.len(),
        |i: int|
            if lanes[i] == Some(hash) {
                None
            } else {
                lanes[i]
            },
    )
}

/// The lanes after the first `k` parents are routed, and the lane and colour of each.
/// A parent that a lane expects already joins it; the first parent otherwise stays in
/// the commit's lane; any other takes a free lane.
pub open spec fn routed(
    l: Lanes,
    parents: Seq<Hash>,
    k: int,
    node: int,
    color: u8,
) -> (Lanes, Seq<(int, u8)>)
    decreases k,
{
    if k <= 0 {
        (l, Seq::empty())
    } else {
        let (b, cols) = routed(l, parents, k - 1, node, color);
        let p = parents[k - 1];
        let c = lane_of(b.lanes, Some(p));
        if c < b.lanes.len() {
            (b, cols.push((c, b.colors[c])))
        } else if k == 1 {
            (
                Lanes {
                    lanes: b.lanes.update(node, Some(p)),
                    colors: b.colors.update(node, color),
                    next: b.next,
                },
                cols.push((node, color)),
            )
        } else {
            let (n, at) = claimed(b, Some(p));
            (n, cols.push((at, b.next)))
        }
    }
}

/// Whether one of the lanes is `node`.
pub open spec fn some_at(cols: Seq<(int, u8)>, node: int) -> bool {
    exists|i: int| 0 <= i < cols.len() && (#[trigger] cols[i]).0 == node
}

/// The number of lanes up to the last one in use.
pub open spec fn used(lanes: Seq<Option<Hash>>, k: int) -> int
    decreases k,
{
    if k <= 0 {
        0
    } else if lanes[k - 1] is Some {
        k
    } else {
        used(lanes, k - 1)
    }
}

/// Trailing empty lanes are dropped.
pub open spec fn trimmed(l: Lanes) -> Lanes {
    let n = used(l.lanes, l.lanes.len() as int);
    Lanes { lanes: l.lanes.take(n), colors: l.colors.take(n), next: l.next }
}

/// What one commit does to the lanes: the lanes behind it, its lane, its colour, and the
/// lanes of its parents.
pub open spec fn advanced(l: Lanes, hash: Hash, parents: Seq<Hash>) -> (
    Lanes,
    int,
    u8,
    Seq<(int, u8)>,
) {
    let (a, node) = placed(l, hash);
    let color = a.colors[node];
    let free = Lanes { lanes: cleared(a.lanes, hash), ..a };
    let (b, cols) = routed(free, parents, parents.len() as int, node, color);
    let ended = if some_at(cols, node) {
        b
    } else {
        Lanes { lanes: b.lanes.update(node, None), ..b }
    };
    (trimmed(ended), node, color, cols)
}

/// The segments of the lanes that come in from above, from lane `c` on. A lane that
/// expected the commit ends in its node; another goes on straight, or jogs to where it
/// stands now.
pub open spec fn incoming(
    before: Lanes,
    after: Seq<Option<Hash>>,
    hash: Hash,
    node: int,
    c: int,
) -> Seq<Seg>
    decreases before.lanes.len() - c,
{
    if c >= before.lanes.len() {
        Seq::empty()
    } else {
        let color = before.colors[c];
        let rest = incoming(before, after, hash, node, c + 1);
        match before.lanes[c] {
            None => rest,
            Some(h) => if h == hash {
                if c as u16 == node as u16 {
                    seq![Seg::V { col: c as u16, half: Half::Top, color }] + rest
                } else {
                    seq![Seg::Bend { col: c as u16, top: true, color }] + rest
                }
            } else {
                let c2 = lane_of(after, Some(h));
                if c2 >= after.len() {
                    rest
                } else if c2 == c {
                    seq![Seg::V { col: c as u16, half: Half::Full, color }] + rest
                } else {
                    seq![
                        Seg::V { col: c as u16, half: Half::Top, color },
                        Seg::H { a: c as u16, b: c2 as u16, color },
                        Seg::V { col: c2 as u16, half: Half::Bottom, color },
                    ] + rest
                }
            },
        }
    }
}

/// The segments from the node to its parents' lanes.
pub open spec fn outgoing(cols: Seq<(int, u8)>, node: int) -> Seq<Seg> {
    Seq::new(
        cols.len(),
        |i: int|
            if cols[i].0 as u16 != node as u16 {
                Seg::Bend { col: cols[i].0 as u16, top: false, color: cols[i].1 }
            } else {
                Seg::V { col: cols[i].0 as u16, half: Half::Bottom, color: cols[i].1 }
            },
    )
}

/// What a row shows.
#[verifier::ext_equal]
pub struct RowView {
    pub node_col: u16,
    pub color: u8,
    pub segs: Seq<Seg>,
    pub short: Seq<char>,
    pub refs: Seq<(Seq<char>, RefKind)>,
    pub author: Seq<char>,
    pub when: Seq<char>,
    pub subject: Seq<char>,
    pub message: Seq<char>,
}

/// References by their text.
pub open spec fn ref_views(v: Seq<Ref>) -> Seq<(Seq<char>, RefKind)> {
    Seq::new(v.len(), |i: int| (v[i].label@, v[i].kind))
}

impl View for Row {
    type V = RowView;

    open spec fn view(&self) -> RowView {
        RowView {
            node_col: self.node_col,
            color: self.color,
            segs: self.segs@,
            short: self.short@,
            refs: ref_views(self.refs@),
            author: self.author@,
            when: self.when@,
            subject: self.subject@,
            message: self.message@,
        }
    }
}

/// Rows by what they show.
pub open spec fn row_views(v: Seq<Row>) -> Seq<RowView> {
    Seq::new(v.len(), |i: int| v[i]@)
}

/// No lanes.
pub open spec fn no_lanes() -> Lanes {
    Lanes { lanes: Seq::empty(), colors: Seq::empty(), next: 0 }
}

/// The lanes behind the first `k` commits.
pub open spec fn lanes_after(entries: Seq<LogEntry>, k: int) -> Lanes
    decreases k,
{
    if k <= 0 {
        no_lanes()
    } else {
        let e = entries[k - 1];
        advanced(lanes_after(entries, k - 1), e.hash@, views(e.parents@)).0
    }
}

/// The lane of commit `k`.
pub open spec fn node_of(entries: Seq<LogEntry>, k: int) -> int {
    let e = entries[k];
    advanced(lanes_after(entries, k), e.hash@, views(e.parents@)).1
}

/// The row of commit `k`.
pub open spec fn row_of(entries: Seq<LogEntry>, k: int, now: int) -> RowView {
    let e = entries[k];
    let before = lanes_after(entries, k);
    let (after, node, color, cols) = advanced(before, e.hash@, views(e.parents@));
    RowView {
        node_col: node as u16,
        color,
        segs: incoming(before, after.lanes, e.hash@, node, 0) + outgoing(cols, node),
        short: e.hash@.take(
            if 7 <= e.hash@.len() {
                7
            } else {
                e.hash@.len() as int
            },
        ),
        refs: Seq::new(e.refs@.len(), |i: int| ref_of(e.refs@[i]@)),
        author: e.author@,
        when: time_ago(e.timestamp as int, now),
        subject: e.subject@,
        message: if e.body@.len() == 0 {
            e.subject@
        } else {
            e.subject@ + "\n\n"@ + e.body@
        },
    }
}

/// The larger of two.
pub open spec fn wider(a: u16, b: u16) -> u16 {
    if a >= b {
        a
    } else {
        b
    }
}

/// The index of the last lane, 0 where there is none.
pub open spec fn last_lane(lanes: Seq<Option<Hash>>) -> int {
    if lanes.len() == 0 {
        0
    } else {
        lanes.len() - 1
    }
}

/// The widest lane index used over the first `k` rows, 0 where there is none.
pub open spec fn widest_after(entries: Seq<LogEntry>, k: int) -> u16
    decreases k,
{
    if k <= 0 {
        0
    } else {
        wider(
            wider(widest_after(entries, k - 1), last_lane(lanes_after(entries, k).lanes) as u16),
            node_of(entries, k - 1) as u16,
        )
    }
}

/// Whether lanes and colours go together.
pub open spec fn paired(l: Lanes) -> bool {
    l.lanes.len() == l.colors.len()
}

fn is_at(lane: &Option<String>, hash: &String) -> (r: bool)
    ensures
        r == (match lane {
            Some(s) => s@ == hash@,
            None => false,
        }),
{
    match lane {
        Some(s) => *s == *hash,
        None => false,
    }
}

fn find_lane(lanes: &Vec<Option<String>>, hash: &String) -> (r: usize)
    ensures
        r == lane_of(lane_views(lanes@), Some(hash@)),
{
    let mut k: usize = 0;
    while k < lanes.len()
        invariant
            k <= lanes@.len(),
            lane_from(lane_views(lanes@), Some(hash@), k as int) == lane_of(
                lane_views(lanes@),
                Some(hash@),
            ),
        decreases lanes.len() - k,
    {
        if is_at(&lanes[k], hash) {
            return k;
        }
        k = k + 1;
    }
    k
}

fn advance_color(c: u8) -> (r: u8)
    requires
        c < PALETTE,
    ensures
        r == next_color(c),
        r < PALETTE,
{
    (c + 1) % PALETTE
}

/// First free lane, extending the lanes if all are taken.
fn free_slot(lanes: &mut Vec<Option<String>>, colors: &mut Vec<u8>) -> (r: usize)
    requires
        old(lanes)@.len() == old(colors)@.len(),
    ensures
        r == lane_of(lane_views(old(lanes)@), None),
        lane_views(final(lanes)@) == (if r < old(lanes)@.len() {
            lane_views(old(lanes)@)
        } else {
            lane_views(old(lanes)@).push(None)
        }),
        final(colors)@ == (if r < old(lanes)@.len() {
            old(colors)@
        } else {
            old(colors)@.push(0)
        }),
        r < final(lanes)@.len(),
        final(lanes)@.len() == final(colors)@.len(),
{
    let ghost before = lane_views(lanes@);
    let mut k: usize = 0;
    while k < lanes.len()
        invariant
            k <= lanes@.len(),
            before == lane_views(lanes@),
            lanes@ == old(lanes)@,
            colors@ == old(colors)@,
            old(lanes)@.len() == old(colors)@.len(),
            lane_from(before, None, k as int) == lane_of(before, None),
        decreases lanes.len() - k,
    {
        if lanes[k].is_none() {
            return k;
        }
        k = k + 1;
    }
    lanes.push(None);
    colors.push(0);
    assert(lane_views(lanes@) =~= before.push(None));
    k
}

fn set_lane(lanes: &mut Vec<Option<String>>, c: usize, what: Option<String>)
    requires
        c < old(lanes)@.len(),
    ensures
        lane_views(final(lanes)@) == lane_views(old(lanes)@).update(
            c as int,
            match what {
                Some(s) => Some(s@),
                None => None,
            },
        ),
        final(lanes)@.len() == old(lanes)@.len(),
{
    let ghost before = lane_views(lanes@);
    lanes.set(c, what);
    assert(lane_views(lanes@) =~= before.update(
        c as int,
        match what {
            Some(s) => Some(s@),
            None => None,
        },
    ));
}

fn copy_lanes(lanes: &Vec<Option<String>>) -> (r: Vec<Option<String>>)
    ensures
        lane_views(r@) == lane_views(lanes@),
{
    let mut out: Vec<Option<String>> = Vec::new();
    let mut k: usize = 0;
    while k < lanes.len()
        invariant
            k <= lanes@.len(),
            lane_views(out@) == lane_views(lanes@).take(k as int),
        decreases lanes.len() - k,
    {
        let ghost before = lane_views(out@);
        let one: Option<String> = match &lanes[k] {
            Some(s) => Some(s.clone()),
            None => None,
        };
        out.push(one);
        assert(lane_views(out@) =~= before.push(lane_views(lanes@)[k as int]));
        k = k + 1;
    }
    assert(lane_views(lanes@).take(k as int) =~= lane_views(lanes@));
    out
}

fn copy_colors(colors: &Vec<u8>) -> (r: Vec<u8>)
    ensures
        r@ == colors@,
{
    let mut out: Vec<u8> = Vec::new();
    let mut k: usize = 0;
    while k < colors.len()
        invariant
            k <= colors@.len(),
            out@ == colors@.take(k as int),
        decreases colors.len() - k,
    {
        out.push(colors[k]);
        k = k + 1;
    }
    assert(colors@.take(k as int) =~= colors@);
    out
}

/// Lanes and colours of parents as mathematical integers.
pub open spec fn col_views(v: Seq<(usize, u8)>) -> Seq<(int, u8)> {
    Seq::new(v.len(), |i: int| (v[i].0 as int, v[i].1))
}

struct Layout {
    lanes: Vec<Option<String>>,
    colors: Vec<u8>,
    next: u8,
}

impl View for Layout {
    type V = Lanes;

    closed spec fn view(&self) -> Lanes {
        Lanes { lanes: lane_views(self.lanes@), colors: self.colors@, next: self.next }
    }
}

impl Layout {
    spec fn wf(&self) -> bool {
        self.lanes@.len() == self.colors@.len() && self.next < PALETTE
    }

    fn claim(&mut self, what: Option<String>) -> (c: usize)
        requires
            old(self).wf(),
        ensures
            final(self).wf(),
            (final(self)@, c as int) == claimed(
                old(self)@,
                match what {
                    Some(s) => Some(s@),
                    None => None,
                },
            ),
            c < final(self).lanes@.len(),
            final(self).lanes@.len() >= old(self).lanes@.len(),
            final(self)@.colors[c as int] == old(self)@.next,
    {
        let ghost l = self@;
        let c: usize = free_slot(&mut self.lanes, &mut self.colors);
        set_lane(&mut self.lanes, c, what);
        self.colors.set(c, self.next);
        self.next = advance_color(self.next);
        assert(self@ =~= claimed(
            l,
            match what {
                Some(s) => Some(s@),
                None => None,
            },
        ).0);
        c
    }

    fn place(&mut self, hash: &String) -> (c: usize)
        requires
            old(self).wf(),
        ensures
            final(self).wf(),
            (final(self)@, c as int) == placed(old(self)@, hash@),
            c < final(self).lanes@.len(),
    {
        let c: usize = find_lane(&self.lanes, hash);
        if c < self.lanes.len() {
            c
        } else {
            self.claim(None)
        }
    }

    fn clear(&mut self, hash: &String)
        requires
            old(self).wf(),
        ensures
            final(self).wf(),
            final(self)@ == (Lanes { lanes: cleared(old(self)@.lanes, hash@), ..old(self)@ }),
            final(self).lanes@.len() == old(self).lanes@.len(),
    {
        let ghost l = self@;
        let n: usize = self.lanes.len();
        let mut k: usize = 0;
        while k < n
            invariant
                n == self.lanes@.len(),
                n == l.lanes.len(),
                self.lanes@.len() == old(self).lanes@.len(),
                k <= n,
                self.wf(),
                self@.colors == l.colors,
                self@.next == l.next,
                self@.lanes == cleared(l.lanes, hash@).take(k as int) + l.lanes.skip(k as int),
            decreases n - k,
        {
            assert(self@.lanes[k as int] == l.lanes[k as int]);
            let ghost before = self@.lanes;
            if is_at(&self.lanes[k], hash) {
                set_lane(&mut self.lanes, k, None);
            }
            assert(self@.lanes =~= before.update(k as int, cleared(l.lanes, hash@)[k as int]));
            assert(self@.lanes =~= cleared(l.lanes, hash@).take(k + 1) + l.lanes.skip(k + 1));
            k = k + 1;
        }
        assert(self@.lanes =~= cleared(l.lanes, hash@));
        assert(self@ =~= (Lanes { lanes: cleared(l.lanes, hash@), ..l }));
    }

    fn route(&mut self, parents: &Vec<String>, node: usize, color: u8) -> (r: Vec<(usize, u8)>)
        requires
            old(self).wf(),
            node < old(self).lanes@.len(),
        ensures
            final(self).wf(),
            (final(self)@, col_views(r@)) == routed(
                old(self)@,
                views(parents@),
                parents@.len() as int,
                node as int,
                color,
            ),
            final(self).lanes@.len() >= old(self).lanes@.len(),
    {
        let ghost l = self@;
        let ghost pv = views(parents@);
        let mut cols: Vec<(usize, u8)> = Vec::new();
        assert(col_views(cols@) =~= Seq::<(int, u8)>::empty());
        let mut k: usize = 0;
        while k < parents.len()
            invariant
                k <= parents@.len(),
                pv == views(parents@),
                self.wf(),
                node < old(self).lanes@.len() <= self.lanes@.len(),
                (self@, col_views(cols@)) == routed(l, pv, k as int, node as int, color),
            decreases parents.len() - k,
        {
            let p = &parents[k];
            assert(pv[k as int] == p@);
            let ghost before = col_views(cols@);
            let c: usize = find_lane(&self.lanes, p);
            if c < self.lanes.len() {
                let kept: u8 = self.colors[c];
                cols.push((c, kept));
                assert(col_views(cols@) =~= before.push((c as int, kept)));
            } else if k == 0 {
                let copy = p.clone();
                set_lane(&mut self.lanes, node, Some(copy));
                self.colors.set(node, color);
                cols.push((node, color));
                assert(col_views(cols@) =~= before.push((node as int, color)));
            } else {
                let copy = p.clone();
                let ghost fresh = self@.next;
                let at: usize = self.claim(Some(copy));
                let kept: u8 = self.colors[at];
                cols.push((at, kept));
                assert(col_views(cols@) =~= before.push((at as int, fresh)));
            }
            assert(self@ =~= routed(l, pv, k + 1, node as int, color).0);
            k = k + 1;
        }
        cols
    }

    fn trim(&mut self)
        requires
            old(self).wf(),
        ensures
            final(self).wf(),
            final(self)@ == trimmed(old(self)@),
    {
        let ghost l = self@;
        while self.lanes.len() > 0 && self.lanes[self.lanes.len() - 1].is_none()
            invariant
                self.wf(),
                self.lanes@.len() <= l.lanes.len(),
                l.lanes.len() == l.colors.len(),
                self@.next == l.next,
                self@.lanes == l.lanes.take(self.lanes@.len() as int),
                self@.colors == l.colors.take(self.lanes@.len() as int),
                used(l.lanes, self.lanes@.len() as int) == used(l.lanes, l.lanes.len() as int),
            decreases self.lanes.len(),
        {
            let ghost k = self.lanes@.len();
            assert(self@.lanes[k - 1] == l.lanes[k - 1]);
            let _ = self.lanes.pop();
            let _ = self.colors.pop();
            assert(self@.lanes =~= l.lanes.take(k - 1));
            assert(self@.colors =~= l.colors.take(k - 1));
        }
        proof {
            let k = self.lanes@.len() as int;
            if k > 0 {
                assert(self@.lanes[k - 1] == l.lanes[k - 1]);
            }
            assert(used(l.lanes, k) == k);
        }
        assert(self@ =~= trimmed(l));
    }
}

fn any_at(cols: &Vec<(usize, u8)>, node: usize) -> (r: bool)
    ensures
        r == some_at(col_views(cols@), node as int),
{
    let mut k: usize = 0;
    while k < cols.len()
        invariant
            k <= cols@.len(),
            forall|j: int| 0 <= j < k ==> (#[trigger] col_views(cols@)[j]).0 != node,
        decreases cols.len() - k,
    {
        if cols[k].0 == node {
            assert(col_views(cols@)[k as int].0 == node);
            return true;
        }
        k = k + 1;
    }
    false
}

fn incoming_segs(
    before: &Vec<Option<String>>,
    before_colors: &Vec<u8>,
    after: &Vec<Option<String>>,
    hash: &String,
    node: usize,
    Ghost(next): Ghost<u8>,
) -> (r: Vec<Seg>)
    requires
        before@.len() == before_colors@.len(),
    ensures
        r@ == incoming(
            (Lanes { lanes: lane_views(before@), colors: before_colors@, next }),
            lane_views(after@),
            hash@,
            node as int,
            0,
        ),
{
    let ghost l = Lanes { lanes: lane_views(before@), colors: before_colors@, next };
    let ghost av = lane_views(after@);
    let mut segs: Vec<Seg> = Vec::new();
    let mut c: usize = 0;
    assert(segs@ + incoming(l, av, hash@, node as int, 0) =~= incoming(l, av, hash@, node as int, 0));
    while c < before.len()
        invariant
            c <= before@.len(),
            before@.len() == before_colors@.len(),
            l == (Lanes { lanes: lane_views(before@), colors: before_colors@, next }),
            av == lane_views(after@),
            segs@ + incoming(l, av, hash@, node as int, c as int) == incoming(
                l,
                av,
                hash@,
                node as int,
                0,
            ),
        decreases before.len() - c,
    {
        let ghost start = segs@;
        let ghost rest = incoming(l, av, hash@, node as int, c + 1);
        let color: u8 = before_colors[c];
        assert(l.lanes[c as int] == lane_views(before@)[c as int]);
        if let Some(h) = &before[c] {
            if *h == *hash {
                if #[verifier::truncate] (c as u16) == #[verifier::truncate] (node as u16) {
                    let s = Seg::V { col: #[verifier::truncate] (c as u16), half: Half::Top, color };
                    segs.push(s);
                    assert(segs@ + rest =~= start + (seq![s] + rest));
                } else {
                    let s = Seg::Bend { col: #[verifier::truncate] (c as u16), top: true, color };
                    segs.push(s);
                    assert(segs@ + rest =~= start + (seq![s] + rest));
                }
            } else {
                let c2: usize = find_lane(after, h);
                if c2 < after.len() {
                    if c2 == c {
                        let s = Seg::V { col: #[verifier::truncate] (c as u16), half: Half::Full, color };
                        segs.push(s);
                        assert(segs@ + rest =~= start + (seq![s] + rest));
                    } else {
                        let s1 = Seg::V { col: #[verifier::truncate] (c as u16), half: Half::Top, color };
                        let s2 = Seg::H {
                            a: #[verifier::truncate] (c as u16),
                            b: #[verifier::truncate] (c2 as u16),
                            color,
                        };
                        let s3 = Seg::V { col: #[verifier::truncate] (c2 as u16), half: Half::Bottom, color };
                        segs.push(s1);
                        segs.push(s2);
                        segs.push(s3);
                        assert(segs@ + rest =~= start + (seq![s1, s2, s3] + rest));
                    }
                }
            }
        }
        c = c + 1;
    }
    assert(segs@ + Seq::<Seg>::empty() =~= segs@);
    segs
}

fn outgoing_segs(segs: &mut Vec<Seg>, cols: &Vec<(usize, u8)>, node: usize)
    ensures
        final(segs)@ == old(segs)@ + outgoing(col_views(cols@), node as int),
{
    let ghost start = segs@;
    let ghost want = outgoing(col_views(cols@), node as int);
    let mut k: usize = 0;
    while k < cols.len()
        invariant
            k <= cols@.len(),
            want == outgoing(col_views(cols@), node as int),
            segs@ == start + want.take(k as int),
        decreases cols.len() - k,
    {
        let c: usize = cols[k].0;
        let color: u8 = cols[k].1;
        let s = if #[verifier::truncate] (c as u16) != #[verifier::truncate] (node as u16) {
            Seg::Bend { col: #[verifier::truncate] (c as u16), top: false, color }
        } else {
            Seg::V { col: #[verifier::truncate] (c as u16), half: Half::Bottom, color }
        };
        segs.push(s);
        assert(want[k as int] == s);
        assert(want.take(k + 1) =~= want.take(k as int).push(s));
        k = k + 1;
    }
    assert(want.take(k as int) =~= want);
}

fn copy_refs(refs: &Vec<String>) -> (r: Vec<Ref>)
    ensures
        ref_views(r@) == Seq::new(refs@.len(), |i: int| ref_of(refs@[i]@)),
{
    let ghost want = Seq::new(refs@.len(), |i: int| ref_of(refs@[i]@));
    let mut out: Vec<Ref> = Vec::new();
    let mut k: usize = 0;
    while k < refs.len()
        invariant
            k <= refs@.len(),
            want == Seq::new(refs@.len(), |i: int| ref_of(refs@[i]@)),
            ref_views(out@) == want.take(k as int),
        decreases refs.len() - k,
    {
        let ghost before = ref_views(out@);
        out.push(parse_ref(refs[k].as_str()));
        assert(ref_views(out@) =~= before.push(want[k as int]));
        k = k + 1;
    }
    assert(want.take(k as int) =~= want);
    out
}

/// Lays out log entries, newest first. `now` is the current unix time for relative
/// dates.
pub fn build(title: String, entries: Vec<LogEntry>, now: i64) -> (r: Graph)
    requires
        forall|k: int|
            0 <= k < entries@.len() ==> i64::MIN <= now - (#[trigger] entries@[k]).timestamp <= i64::MAX,
    ensures
        r.title@ == title@,
        row_views(r.rows@) == Seq::new(entries@.len(), |k: int| row_of(entries@, k, now as int)),
        r.max_col == widest_after(entries@, entries@.len() as int),
{
    let ghost want = Seq::new(entries@.len(), |k: int| row_of(entries@, k, now as int));
    let mut l = Layout { lanes: Vec::new(), colors: Vec::new(), next: 0 };
    assert(l@ =~= no_lanes());
    let mut rows: Vec<Row> = Vec::new();
    let mut max_col: u16 = 0;
    let mut k: usize = 0;
    while k < entries.len()
        invariant
            k <= entries@.len(),
            want == Seq::new(entries@.len(), |k: int| row_of(entries@, k, now as int)),
            forall|k: int|
                0 <= k < entries@.len() ==> i64::MIN <= now - (#[trigger] entries@[k]).timestamp
                    <= i64::MAX,
            l.wf(),
            l@ == lanes_after(entries@, k as int),
            row_views(rows@) == want.take(k as int),
            max_col == widest_after(entries@, k as int),
        decreases entries.len() - k,
    {
        let e = &entries[k];
        let ghost l0 = l@;
        let ghost step = advanced(l0, e.hash@, views(e.parents@));
        let before = copy_lanes(&l.lanes);
        let before_colors = copy_colors(&l.colors);
        let node: usize = l.place(&e.hash);
        let color: u8 = l.colors[node];
        l.clear(&e.hash);
        let cols = l.route(&e.parents, node, color);
        let ghost b = l@;
        if !any_at(&cols, node) {
            set_lane(&mut l.lanes, node, None);
            assert(l@ =~= (Lanes { lanes: b.lanes.update(node as int, None), ..b }));
        }
        l.trim();
        assert(step == (l@, node as int, color, col_views(cols@)));
        assert(node_of(entries@, k as int) == node);
        let mut segs = incoming_segs(&before, &before_colors, &l.lanes, &e.hash, node, Ghost(l0.next));
        outgoing_segs(&mut segs, &cols, node);
        let last: usize = if l.lanes.len() == 0 {
            0
        } else {
            l.lanes.len() - 1
        };
        let wide: u16 = #[verifier::truncate] (last as u16);
        let col: u16 = #[verifier::truncate] (node as u16);
        if wide > max_col {
            max_col = wide;
        }
        if col > max_col {
            max_col = col;
        }
        let mut message = e.subject.clone();
        if !e.body.as_str().is_empty() {
            message.append("\n\n");
            message.append(e.body.as_str());
        }
        let row = Row {
            node_col: col,
            color,
            segs,
            short: take_chars(e.hash.as_str(), 7),
            refs: copy_refs(&e.refs),
            author: e.author.clone(),
            when: rel_time(e.timestamp, now),
            subject: e.subject.clone(),
            message,
        };
        let ghost done = rows@;
        assert(row@ =~= row_of(entries@, k as int, now as int));
        rows.push(row);
        assert(row_views(rows@) =~= row_views(done).push(want[k as int]));
        assert(want.take(k + 1) =~= want.take(k as int).push(want[k as int]));
        k = k + 1;
    }
    assert(want.take(k as int) =~= want);
    Graph { title, rows, max_col }
}

proof fn lemma_used(lanes: Seq<Option<Hash>>, k: int)
    requires
        0 <= k <= lanes.len(),
    ensures
        0 <= used(lanes, k) <= k,
        used(lanes, k) > 0 ==> lanes[used(lanes, k) - 1] is Some,
        forall|j: int| used(lanes, k) <= j < k ==> lanes[j] is None,
    decreases k,
{
    if k > 0 && lanes[k - 1] is None {
        lemma_used(lanes, k - 1);
    }
}

/// Whether every colour is one of the palette.
pub open spec fn in_palette(l: Lanes) -> bool {
    l.next < PALETTE && forall|i: int| 0 <= i < l.colors.len() ==> #[trigger] l.colors[i] < PALETTE
}

proof fn lemma_claimed(l: Lanes, what: Option<Hash>)
    requires
        paired(l),
        in_palette(l),
    ensures
        paired(claimed(l, what).0),
        in_palette(claimed(l, what).0),
        0 <= claimed(l, what).1 < claimed(l, what).0.lanes.len(),
        l.lanes.len() <= claimed(l, what).0.lanes.len(),
{
    lemma_lane_from(l.lanes, None, 0);
}

proof fn lemma_routed(l: Lanes, parents: Seq<Hash>, k: int, node: int, color: u8)
    requires
        paired(l),
        in_palette(l),
        color < PALETTE,
        0 <= node < l.lanes.len(),
        0 <= k <= parents.len(),
    ensures
        ({
            let (b, cols) = routed(l, parents, k, node, color);
            &&& paired(b)
            &&& in_palette(b)
            &&& node < b.lanes.len()
            &&& cols.len() == k
            &&& forall|i: int|
                0 <= i < cols.len() ==> 0 <= (#[trigger] cols[i]).0 < b.lanes.len() && cols[i].1 < PALETTE
        }),
    decreases k,
{
    if k > 0 {
        lemma_routed(l, parents, k - 1, node, color);
        let (b, cols) = routed(l, parents, k - 1, node, color);
        let p = parents[k - 1];
        lemma_lane_from(b.lanes, Some(p), 0);
        lemma_claimed(b, Some(p));
    }
}

/// What holds of the lanes between any two rows: each has a colour of the palette, and
/// the last one is in use, so that the graph does not grow for ever.
pub open spec fn tidy(l: Lanes) -> bool {
    paired(l) && in_palette(l) && (l.lanes.len() > 0 ==> l.lanes.last() is Some)
}

/// A commit keeps the lanes tidy. Its own lane and those of its parents have colours of
/// the palette.
pub proof fn law_commit_keeps_lanes_tidy(l: Lanes, hash: Hash, parents: Seq<Hash>)
    requires
        tidy(l),
    ensures
        ({
            let (after, node, color, cols) = advanced(l, hash, parents);
            &&& tidy(after)
            &&& 0 <= node
            &&& color < PALETTE
            &&& cols.len() == parents.len()
            &&& forall|i: int| 0 <= i < cols.len() ==> (#[trigger] cols[i]).1 < PALETTE
        }),
{
    lemma_lane_from(l.lanes, Some(hash), 0);
    lemma_claimed(l, None);
    let (a, node) = placed(l, hash);
    let color = a.colors[node];
    let free = Lanes { lanes: cleared(a.lanes, hash), ..a };
    lemma_routed(free, parents, parents.len() as int, node, color);
    let (b, cols) = routed(free, parents, parents.len() as int, node, color);
    let ended = if some_at(cols, node) {
        b
    } else {
        Lanes { lanes: b.lanes.update(node, None), ..b }
    };
    lemma_used(ended.lanes, ended.lanes.len() as int);
}

/// Between any two rows of any history the lanes are tidy.
pub proof fn law_lanes_always_tidy(entries: Seq<LogEntry>, k: int)
    requires
        0 <= k <= entries.len(),
    ensures
        tidy(lanes_after(entries, k)),
    decreases k,
{
    if k > 0 {
        law_lanes_always_tidy(entries, k - 1);
        let e = entries[k - 1];
        law_commit_keeps_lanes_tidy(lanes_after(entries, k - 1), e.hash@, views(e.parents@));
    }
}

proof fn lemma_widest_grows(entries: Seq<LogEntry>, j: int, k: int)
    requires
        0 <= j <= k,
    ensures
        widest_after(entries, j) <= widest_after(entries, k),
    decreases k,
{
    if j < k {
        lemma_widest_grows(entries, j, k - 1);
    }
}

/// No node stands in a column behind the widest one.
pub proof fn law_widest_covers_nodes(entries: Seq<LogEntry>, k: int, now: int)
    requires
        0 <= k < entries.len(),
    ensures
        row_of(entries, k, now).node_col <= widest_after(entries, entries.len() as int),
{
    lemma_widest_grows(entries, k + 1, entries.len() as int);
}

/// Whether no commit is expected by two lanes.
pub open spec fn distinct_lanes(lanes: Seq<Option<Hash>>) -> bool {
    forall|i: int, j: int|
        0 <= i < lanes.len() && 0 <= j < lanes.len() && i != j && (#[trigger] lanes[i]) is Some ==> lanes[i]
            != #[trigger] lanes[j]
}

/// Whether every lane in use before is there after, expects the same and has its colour.
pub open spec fn kept(a: Lanes, b: Lanes) -> bool {
    a.lanes.len() <= b.lanes.len() && forall|c: int|
        0 <= c < a.lanes.len() && (#[trigger] a.lanes[c]) is Some ==> b.lanes[c] == a.lanes[c] && b.colors[c]
            == a.colors[c]
}

proof fn lemma_claimed_keeps(l: Lanes, what: Option<Hash>)
    requires
        paired(l),
        distinct_lanes(l.lanes),
        what is Some ==> lane_of(l.lanes, what) >= l.lanes.len(),
    ensures
        ({
            let (b, at) = claimed(l, what);
            &&& paired(b)
            &&& kept(l, b)
            &&& distinct_lanes(b.lanes)
            &&& 0 <= at < b.lanes.len()
            &&& b.lanes[at] == what
            &&& b.colors[at] == l.next
            &&& at < l.lanes.len() ==> l.lanes[at] is None
            &&& forall|c: int|
                0 <= c < b.lanes.len() && c != at ==> c < l.lanes.len() && #[trigger] b.lanes[c] == l.lanes[c]
        }),
{
    lemma_lane_from(l.lanes, None, 0);
    lemma_lane_from(l.lanes, what, 0);
}

proof fn lemma_routed_keeps(l: Lanes, parents: Seq<Hash>, k: int, node: int, color: u8)
    requires
        paired(l),
        distinct_lanes(l.lanes),
        0 <= node < l.lanes.len(),
        l.lanes[node] is None,
        0 <= k <= parents.len(),
    ensures
        ({
            let (b, cols) = routed(l, parents, k, node, color);
            &&& paired(b)
            &&& kept(l, b)
            &&& distinct_lanes(b.lanes)
            &&& cols.len() == k
            &&& k == 0 ==> b == l
            &&& forall|i: int|
                0 <= i < cols.len() ==> 0 <= (#[trigger] cols[i]).0 < b.lanes.len() && b.lanes[cols[i].0] is Some
                    && b.colors[cols[i].0] == cols[i].1
            &&& forall|c: int|
                0 <= c < b.lanes.len() && (#[trigger] b.lanes[c]) is Some ==> (c < l.lanes.len() && l.lanes[c]
                    == b.lanes[c]) || some_at(cols, c)
            &&& k > 0 && lane_of(l.lanes, Some(parents[0])) >= l.lanes.len() ==> cols[0] == (node, color)
                && b.lanes[node] == Some(parents[0])
        }),
    decreases k,
{
    if k > 0 {
        lemma_routed_keeps(l, parents, k - 1, node, color);
        let (b, cols) = routed(l, parents, k - 1, node, color);
        let (n, more) = routed(l, parents, k, node, color);
        let p = parents[k - 1];
        lemma_lane_from(b.lanes, Some(p), 0);
        let c = lane_of(b.lanes, Some(p));
        if c >= b.lanes.len() && k > 1 {
            lemma_claimed_keeps(b, Some(p));
        }
        assert(kept(b, n));
        assert(distinct_lanes(n.lanes));
        assert(more.drop_last() =~= cols);
        assert forall|i: int| 0 <= i < more.len() implies 0 <= (#[trigger] more[i]).0 < n.lanes.len()
            && n.lanes[more[i].0] is Some && n.colors[more[i].0] == more[i].1 by {
            if i < cols.len() {
                assert(more[i] == cols[i]);
                assert(b.lanes[cols[i].0] is Some);
            }
        }
        assert forall|q: int| 0 <= q < n.lanes.len() && (#[trigger] n.lanes[q]) is Some implies (q
            < l.lanes.len() && l.lanes[q] == n.lanes[q]) || some_at(more, q) by {
            if q == more.last().0 {
                assert(more[more.len() - 1].0 == q);
            } else {
                assert(q < b.lanes.len() && b.lanes[q] == n.lanes[q]);
                if some_at(cols, q) {
                    let i = choose|i: int| 0 <= i < cols.len() && (#[trigger] cols[i]).0 == q;
                    assert(more[i].0 == q);
                }
            }
        }
        assert forall|q: int| 0 <= q < l.lanes.len() && (#[trigger] l.lanes[q]) is Some implies n.lanes[q]
            == l.lanes[q] && n.colors[q] == l.colors[q] by {
            assert(b.lanes[q] is Some);
        }
        if k > 1 {
            assert(more[0] == cols[0]);
        }
    }
}

proof fn lemma_used_covers(lanes: Seq<Option<Hash>>, k: int, c: int)
    requires
        0 <= c < k <= lanes.len(),
        lanes[c] is Some,
    ensures
        c < used(lanes, k),
{
    lemma_used(lanes, k);
}

/// What a commit does to the lanes, for the laws below: every lane in use that did not expect
/// the commit stays; every parent's lane is in use and has its colour; every lane in use is one
/// of these.
proof fn lemma_advanced(l: Lanes, hash: Hash, parents: Seq<Hash>)
    requires
        paired(l),
        distinct_lanes(l.lanes),
    ensures
        ({
            let (after, node, color, cols) = advanced(l, hash, parents);
            &&& paired(after)
            &&& distinct_lanes(after.lanes)
            &&& 0 <= node
            &&& node < l.lanes.len() && l.lanes[node] == Some(hash) ==> color == l.colors[node]
            &&& forall|c: int|
                0 <= c < l.lanes.len() && (#[trigger] l.lanes[c]) is Some && l.lanes[c] != Some(hash) ==> c
                    < after.lanes.len() && after.lanes[c] == l.lanes[c] && after.colors[c] == l.colors[c]
            &&& cols.len() == parents.len()
            &&& forall|i: int|
                0 <= i < cols.len() ==> 0 <= (#[trigger] cols[i]).0 < after.lanes.len()
                    && after.lanes[cols[i].0] is Some && after.colors[cols[i].0] == cols[i].1
            &&& forall|c: int|
                0 <= c < after.lanes.len() && (#[trigger] after.lanes[c]) is Some ==> (c < l.lanes.len()
                    && l.lanes[c] == after.lanes[c] && l.lanes[c] != Some(hash)) || some_at(cols, c)
            &&& parents.len() > 0 && (parents[0] == hash || lane_of(l.lanes, Some(parents[0]))
                >= l.lanes.len()) ==> node < after.lanes.len() && after.lanes[node] == Some(parents[0])
                && after.colors[node] == color
        }),
{
    lemma_lane_from(l.lanes, Some(hash), 0);
    if lane_of(l.lanes, Some(hash)) >= l.lanes.len() {
        lemma_claimed_keeps(l, None);
    }
    let (a, node) = placed(l, hash);
    let color = a.colors[node];
    let free = Lanes { lanes: cleared(a.lanes, hash), ..a };
    assert(kept(l, a));
    assert(distinct_lanes(free.lanes));
    assert(free.lanes[node] is None);
    let n = parents.len() as int;
    lemma_routed_keeps(free, parents, n, node, color);
    let (b, cols) = routed(free, parents, n, node, color);
    let ended = if some_at(cols, node) {
        b
    } else {
        Lanes { lanes: b.lanes.update(node, None), ..b }
    };
    let after = trimmed(ended);
    lemma_used(ended.lanes, ended.lanes.len() as int);
    assert forall|c: int| 0 <= c < l.lanes.len() && (#[trigger] l.lanes[c]) is Some && l.lanes[c] != Some(
        hash,
    ) implies c < after.lanes.len() && after.lanes[c] == l.lanes[c] && after.colors[c] == l.colors[c] by {
        assert(a.lanes[c] == l.lanes[c]);
        assert(free.lanes[c] is Some);
        assert(ended.lanes[c] is Some);
        lemma_used_covers(ended.lanes, ended.lanes.len() as int, c);
    }
    assert forall|i: int| 0 <= i < cols.len() implies 0 <= (#[trigger] cols[i]).0 < after.lanes.len()
        && after.lanes[cols[i].0] is Some && after.colors[cols[i].0] == cols[i].1 by {
        assert(ended.lanes[cols[i].0] is Some);
        lemma_used_covers(ended.lanes, ended.lanes.len() as int, cols[i].0);
    }
    assert forall|c: int| 0 <= c < after.lanes.len() && (#[trigger] after.lanes[c]) is Some implies (c
        < l.lanes.len() && l.lanes[c] == after.lanes[c] && l.lanes[c] != Some(hash)) || some_at(cols, c) by {
        assert(b.lanes[c] is Some);
        if !some_at(cols, c) {
            assert(free.lanes[c] == b.lanes[c]);
            assert(a.lanes[c] is Some);
        }
    }
    assert forall|i: int, j: int|
        0 <= i < after.lanes.len() && 0 <= j < after.lanes.len() && i != j && (#[trigger] after.lanes[i]) is Some implies after.lanes[i]
        != #[trigger] after.lanes[j] by {
        assert(b.lanes[i] == after.lanes[i]);
        assert(ended.lanes[j] == after.lanes[j]);
    }
    if n > 0 && (parents[0] == hash || lane_of(l.lanes, Some(parents[0])) >= l.lanes.len()) {
        lemma_lane_from(l.lanes, Some(parents[0]), 0);
        lemma_lane_from(free.lanes, Some(parents[0]), 0);
        let q = lane_of(free.lanes, Some(parents[0]));
        if q < free.lanes.len() {
            assert(a.lanes[q] == Some(parents[0]));
            assert(q < l.lanes.len() && l.lanes[q] == Some(parents[0]));
        }
        assert(cols[0].0 == node);
    }
}

/// Between any two rows of any history no commit is expected by two lanes.
pub proof fn law_lanes_expect_each_commit_once(entries: Seq<LogEntry>, k: int)
    requires
        0 <= k <= entries.len(),
    ensures
        paired(lanes_after(entries, k)),
        distinct_lanes(lanes_after(entries, k).lanes),
    decreases k,
{
    if k > 0 {
        law_lanes_expect_each_commit_once(entries, k - 1);
        let e = entries[k - 1];
        lemma_advanced(lanes_after(entries, k - 1), e.hash@, views(e.parents@));
    }
}

/// A lane keeps its place and its colour while it lives: past every commit that it does not
/// expect, and past the one that it expects where the first parent goes on in it.
pub proof fn law_lane_keeps_its_colour(entries: Seq<LogEntry>, k: int, c: int)
    requires
        0 <= k < entries.len(),
        0 <= c < lanes_after(entries, k).lanes.len(),
        lanes_after(entries, k).lanes[c] is Some,
    ensures
        ({
            let before = lanes_after(entries, k);
            let after = lanes_after(entries, k + 1);
            let hash = entries[k].hash@;
            let parents = views(entries[k].parents@);
            &&& before.lanes[c] != Some(hash) ==> c < after.lanes.len() && after.lanes[c] == before.lanes[c]
                && after.colors[c] == before.colors[c]
            &&& before.lanes[c] == Some(hash) && parents.len() > 0 && lane_of(before.lanes, Some(parents[0]))
                >= before.lanes.len() ==> node_of(entries, k) == c && c < after.lanes.len() && after.lanes[c] == Some(
                parents[0],
            ) && after.colors[c] == before.colors[c]
        }),
{
    law_lanes_expect_each_commit_once(entries, k);
    let before = lanes_after(entries, k);
    let e = entries[k];
    lemma_advanced(before, e.hash@, views(e.parents@));
    lemma_lane_from(before.lanes, Some(e.hash@), 0);
}

/// Whether a segment reaches the lower edge of its row in a column and a colour.
pub open spec fn leaves(s: Seg, col: u16, color: u8) -> bool {
    match s {
        Seg::V { col: c, half, color: d } => c == col && d == color && half != Half::Top,
        Seg::H { .. } => false,
        Seg::Bend { col: c, top, color: d } => c == col && d == color && !top,
    }
}

/// Whether a segment reaches the upper edge of its row in a column and a colour.
pub open spec fn enters(s: Seg, col: u16, color: u8) -> bool {
    match s {
        Seg::V { col: c, half, color: d } => c == col && d == color && half != Half::Bottom,
        Seg::H { .. } => false,
        Seg::Bend { col: c, top, color: d } => c == col && d == color && top,
    }
}

/// Whether one of the segments reaches the lower edge there.
pub open spec fn some_leaves(segs: Seq<Seg>, col: u16, color: u8) -> bool {
    exists|i: int| 0 <= i < segs.len() && leaves(#[trigger] segs[i], col, color)
}

/// Whether one of the segments reaches the upper edge there.
pub open spec fn some_enters(segs: Seq<Seg>, col: u16, color: u8) -> bool {
    exists|i: int| 0 <= i < segs.len() && enters(#[trigger] segs[i], col, color)
}

/// Whether a lane in use has the column and the colour.
pub open spec fn some_lane(l: Lanes, col: u16, color: u8) -> bool {
    exists|c: int|
        0 <= c < l.lanes.len() && (#[trigger] l.lanes[c]) is Some && c as u16 == col && l.colors[c] == color
}

proof fn lemma_some_concat(a: Seq<Seg>, b: Seq<Seg>, col: u16, color: u8)
    ensures
        some_leaves(a + b, col, color) == (some_leaves(a, col, color) || some_leaves(b, col, color)),
        some_enters(a + b, col, color) == (some_enters(a, col, color) || some_enters(b, col, color)),
{
    let r = a + b;
    assert forall|i: int| 0 <= i < a.len() implies r[i] == a[i] by {}
    assert forall|i: int| 0 <= i < b.len() implies r[i + a.len()] == b[i] by {}
    if some_leaves(a, col, color) {
        let i = choose|i: int| 0 <= i < a.len() && leaves(#[trigger] a[i], col, color);
        assert(leaves(r[i], col, color));
    }
    if some_leaves(b, col, color) {
        let i = choose|i: int| 0 <= i < b.len() && leaves(#[trigger] b[i], col, color);
        assert(leaves(r[i + a.len()], col, color));
    }
    if some_enters(a, col, color) {
        let i = choose|i: int| 0 <= i < a.len() && enters(#[trigger] a[i], col, color);
        assert(enters(r[i], col, color));
    }
    if some_enters(b, col, color) {
        let i = choose|i: int| 0 <= i < b.len() && enters(#[trigger] b[i], col, color);
        assert(enters(r[i + a.len()], col, color));
    }
    if some_leaves(r, col, color) {
        let i = choose|i: int| 0 <= i < r.len() && leaves(#[trigger] r[i], col, color);
        if i < a.len() {
            assert(leaves(a[i], col, color));
        } else {
            assert(leaves(b[i - a.len()], col, color));
        }
    }
    if some_enters(r, col, color) {
        let i = choose|i: int| 0 <= i < r.len() && enters(#[trigger] r[i], col, color);
        if i < a.len() {
            assert(enters(a[i], col, color));
        } else {
            assert(enters(b[i - a.len()], col, color));
        }
    }
}

/// Whether a lane at or after `c` is in use, has the column and the colour, and, where `past`,
/// does not expect the commit.
spec fn lane_in(l: Lanes, c: int, hash: Hash, past: bool, col: u16, color: u8) -> bool {
    exists|q: int|
        c <= q < l.lanes.len() && (#[trigger] l.lanes[q]) is Some && (past ==> l.lanes[q] != Some(hash)) && q as u16
            == col && l.colors[q] == color
}

proof fn lemma_incoming(before: Lanes, after: Lanes, hash: Hash, node: int, c: int, col: u16, color: u8)
    requires
        paired(before),
        0 <= c <= before.lanes.len(),
        distinct_lanes(after.lanes),
        forall|q: int|
            0 <= q < before.lanes.len() && (#[trigger] before.lanes[q]) is Some && before.lanes[q] != Some(hash)
                ==> q < after.lanes.len() && after.lanes[q] == before.lanes[q],
    ensures
        some_enters(incoming(before, after.lanes, hash, node, c), col, color) == lane_in(
            before,
            c,
            hash,
            false,
            col,
            color,
        ),
        some_leaves(incoming(before, after.lanes, hash, node, c), col, color) == lane_in(
            before,
            c,
            hash,
            true,
            col,
            color,
        ),
    decreases before.lanes.len() - c,
{
    if c < before.lanes.len() {
        lemma_incoming(before, after, hash, node, c + 1, col, color);
        let rest = incoming(before, after.lanes, hash, node, c + 1);
        let d = before.colors[c];
        let own: Seq<Seg> = match before.lanes[c] {
            None => Seq::empty(),
            Some(h) => if h == hash {
                if c as u16 == node as u16 {
                    seq![Seg::V { col: c as u16, half: Half::Top, color: d }]
                } else {
                    seq![Seg::Bend { col: c as u16, top: true, color: d }]
                }
            } else {
                seq![Seg::V { col: c as u16, half: Half::Full, color: d }]
            },
        };
        if before.lanes[c] is Some && before.lanes[c] != Some(hash) {
            let want = before.lanes[c];
            lemma_lane_from(after.lanes, want, 0);
            assert(after.lanes[c] == want);
            let at = lane_of(after.lanes, want);
            assert(after.lanes[at] == want);
            assert(at == c);
        }
        assert(incoming(before, after.lanes, hash, node, c) =~= own + rest);
        lemma_some_concat(own, rest, col, color);
        let hit = before.lanes[c] is Some && c as u16 == col && d == color;
        if own.len() == 1 {
            assert(own[0] == own.last());
        }
        assert(some_enters(own, col, color) == hit) by {
            if hit {
                assert(enters(own[0], col, color));
            }
        }
        assert(some_leaves(own, col, color) == (hit && before.lanes[c] != Some(hash))) by {
            if hit && before.lanes[c] != Some(hash) {
                assert(leaves(own[0], col, color));
            }
        }
        lemma_lane_in(before, c, hash, false, col, color);
        lemma_lane_in(before, c, hash, true, col, color);
    }
}

proof fn lemma_lane_in(l: Lanes, c: int, hash: Hash, past: bool, col: u16, color: u8)
    requires
        0 <= c < l.lanes.len(),
    ensures
        lane_in(l, c, hash, past, col, color) == ((l.lanes[c] is Some && (past ==> l.lanes[c] != Some(hash))
            && c as u16 == col && l.colors[c] == color) || lane_in(l, c + 1, hash, past, col, color)),
{
    if lane_in(l, c, hash, past, col, color) {
        let q = choose|q: int|
            c <= q < l.lanes.len() && (#[trigger] l.lanes[q]) is Some && (past ==> l.lanes[q] != Some(hash))
                && q as u16 == col && l.colors[q] == color;
        if q != c {
            assert(l.lanes[q] is Some);
        }
    }
    if lane_in(l, c + 1, hash, past, col, color) {
        let q = choose|q: int|
            c + 1 <= q < l.lanes.len() && (#[trigger] l.lanes[q]) is Some && (past ==> l.lanes[q] != Some(hash))
                && q as u16 == col && l.colors[q] == color;
        assert(l.lanes[q] is Some);
    }
}

/// The segments of a row that reach its upper edge are the lanes in use above it, and those
/// that reach its lower edge the lanes in use below it, each in its column and its colour.
pub proof fn law_row_joins_the_lanes(entries: Seq<LogEntry>, k: int, now: int, col: u16, color: u8)
    requires
        0 <= k < entries.len(),
    ensures
        some_enters(row_of(entries, k, now).segs, col, color) == some_lane(lanes_after(entries, k), col, color),
        some_leaves(row_of(entries, k, now).segs, col, color) == some_lane(
            lanes_after(entries, k + 1),
            col,
            color,
        ),
{
    law_lanes_expect_each_commit_once(entries, k);
    let before = lanes_after(entries, k);
    let e = entries[k];
    let hash = e.hash@;
    let parents = views(e.parents@);
    lemma_advanced(before, hash, parents);
    let (after, node, own, cols) = advanced(before, hash, parents);
    assert(after == lanes_after(entries, k + 1));
    lemma_incoming(before, after, hash, node, 0, col, color);
    let into = incoming(before, after.lanes, hash, node, 0);
    let out = outgoing(cols, node);
    lemma_some_concat(into, out, col, color);
    assert(!some_enters(out, col, color));
    assert(some_lane(before, col, color) == lane_in(before, 0, hash, false, col, color)) by {
        if some_lane(before, col, color) {
            let c = choose|c: int|
                0 <= c < before.lanes.len() && (#[trigger] before.lanes[c]) is Some && c as u16 == col
                    && before.colors[c] == color;
            assert(before.lanes[c] is Some);
        }
        if lane_in(before, 0, hash, false, col, color) {
            let c = choose|c: int|
                0 <= c < before.lanes.len() && (#[trigger] before.lanes[c]) is Some && (false ==> before.lanes[c]
                    != Some(hash)) && c as u16 == col && before.colors[c] == color;
            assert(before.lanes[c] is Some);
        }
    }
    if some_lane(after, col, color) {
        let c = choose|c: int|
            0 <= c < after.lanes.len() && (#[trigger] after.lanes[c]) is Some && c as u16 == col && after.colors[c]
                == color;
        if some_at(cols, c) {
            let i = choose|i: int| 0 <= i < cols.len() && (#[trigger] cols[i]).0 == c;
            assert(leaves(out[i], col, color));
        } else {
            assert(before.lanes[c] is Some);
            assert(lane_in(before, 0, hash, true, col, color));
        }
    }
    if lane_in(before, 0, hash, true, col, color) {
        let c = choose|c: int|
            0 <= c < before.lanes.len() && (#[trigger] before.lanes[c]) is Some && (true ==> before.lanes[c]
                != Some(hash)) && c as u16 == col && before.colors[c] == color;
        assert(after.lanes[c] is Some);
    }
    if some_leaves(out, col, color) {
        let i = choose|i: int| 0 <= i < out.len() && leaves(#[trigger] out[i], col, color);
        assert(cols[i].1 == color);
        assert(after.lanes[cols[i].0] is Some);
    }
}

/// A line that leaves a row at its lower edge enters the next row at its upper edge, in the
/// same column and the same colour; and no other line enters there.
pub proof fn law_lines_go_on_in_the_next_row(entries: Seq<LogEntry>, k: int, now: int, col: u16, color: u8)
    requires
        0 <= k,
        k + 1 < entries.len(),
    ensures
        some_leaves(row_of(entries, k, now).segs, col, color) == some_enters(
            row_of(entries, k + 1, now).segs,
            col,
            color,
        ),
{
    law_row_joins_the_lanes(entries, k, now, col, color);
    law_row_joins_the_lanes(entries, k + 1, now, col, color);
}

/// Whether a segment joins the node of a row to the lower edge in a column and a colour: a
/// straight line where the column is the node's own, and a curve where it is another.
pub open spec fn joins_below(s: Seg, node: u16, col: u16, color: u8) -> bool {
    if col == node {
        s == (Seg::V { col, half: Half::Bottom, color })
    } else {
        s == (Seg::Bend { col, top: false, color })
    }
}

/// Whether a segment joins the upper edge in a column and a colour to the node of a row.
pub open spec fn joins_above(s: Seg, node: u16, col: u16, color: u8) -> bool {
    if col == node {
        s == (Seg::V { col, half: Half::Top, color })
    } else {
        s == (Seg::Bend { col, top: true, color })
    }
}

/// Whether a row joins its node downwards there.
pub open spec fn goes_down(r: RowView, col: u16, color: u8) -> bool {
    exists|i: int| 0 <= i < r.segs.len() && joins_below(#[trigger] r.segs[i], r.node_col, col, color)
}

/// Whether a row joins its node upwards there.
pub open spec fn goes_up(r: RowView, col: u16, color: u8) -> bool {
    exists|i: int| 0 <= i < r.segs.len() && joins_above(#[trigger] r.segs[i], r.node_col, col, color)
}

/// Whether a straight line runs through the whole of a row there.
pub open spec fn runs_through(r: RowView, col: u16, color: u8) -> bool {
    r.segs.contains(Seg::V { col, half: Half::Full, color })
}

/// Whether a lane holds a commit between two rows, in a column and a colour.
spec fn lane_holds(l: Lanes, c: int, hash: Hash, color: u8) -> bool {
    0 <= c < l.lanes.len() && l.lanes[c] == Some(hash) && l.colors[c] == color
}

proof fn lemma_incoming_has(before: Lanes, after: Seq<Option<Hash>>, hash: Hash, node: int, from: int, c: int)
    requires
        paired(before),
        0 <= from <= c < before.lanes.len(),
        before.lanes[c] is Some,
        before.lanes[c] == Some(hash) || lane_of(after, before.lanes[c]) == c < after.len(),
    ensures
        ({
            let segs = incoming(before, after, hash, node, from);
            let color = before.colors[c];
            if before.lanes[c] == Some(hash) {
                exists|i: int|
                    0 <= i < segs.len() && joins_above(#[trigger] segs[i], node as u16, c as u16, color)
            } else {
                segs.contains(Seg::V { col: c as u16, half: Half::Full, color })
            }
        }),
    decreases before.lanes.len() - from,
{
    let segs = incoming(before, after, hash, node, from);
    let color = before.colors[c];
    if from < c {
        lemma_incoming_has(before, after, hash, node, from + 1, c);
        let rest = incoming(before, after, hash, node, from + 1);
        let shift = segs.len() - rest.len();
        assert forall|i: int| 0 <= i < rest.len() implies #[trigger] segs[i + shift] == rest[i] by {}
        if before.lanes[c] == Some(hash) {
            let i = choose|i: int|
                0 <= i < rest.len() && joins_above(#[trigger] rest[i], node as u16, c as u16, color);
            assert(joins_above(segs[i + shift], node as u16, c as u16, color));
        } else {
            let s = Seg::V { col: c as u16, half: Half::Full, color };
            let i = choose|i: int| 0 <= i < rest.len() && rest[i] == s;
            assert(segs[i + shift] == s);
        }
    } else if before.lanes[c] == Some(hash) {
        assert(joins_above(segs[0], node as u16, c as u16, color));
    } else {
        assert(segs[0] == (Seg::V { col: c as u16, half: Half::Full, color }));
    }
}

/// What the parents of a commit are routed to: each of them has a lane of its own behind it.
proof fn lemma_routed_to(l: Lanes, parents: Seq<Hash>, k: int, node: int, color: u8, i: int)
    requires
        paired(l),
        distinct_lanes(l.lanes),
        0 <= node < l.lanes.len(),
        l.lanes[node] is None,
        0 <= i < k <= parents.len(),
    ensures
        ({
            let (b, cols) = routed(l, parents, k, node, color);
            &&& cols.len() == k
            &&& lane_holds(b, cols[i].0, parents[i], cols[i].1)
        }),
    decreases k,
{
    lemma_routed_keeps(l, parents, k - 1, node, color);
    lemma_routed_keeps(l, parents, k, node, color);
    let (b, cols) = routed(l, parents, k - 1, node, color);
    let (n, more) = routed(l, parents, k, node, color);
    lemma_lane_from(b.lanes, Some(parents[k - 1]), 0);
    if i < k - 1 {
        lemma_routed_to(l, parents, k - 1, node, color, i);
        assert(more[i] == cols[i]);
        let c = cols[i].0;
        assert(b.lanes[c] is Some);
        if lane_of(b.lanes, Some(parents[k - 1])) >= b.lanes.len() && k > 1 {
            lemma_claimed_keeps(b, Some(parents[k - 1]));
        }
    } else if lane_of(b.lanes, Some(parents[k - 1])) >= b.lanes.len() && k > 1 {
        lemma_claimed_keeps(b, Some(parents[k - 1]));
    }
}

/// Behind a commit each of its parents has a lane, and the row joins the node to it.
proof fn lemma_parent_lane(entries: Seq<LogEntry>, k: int, i: int, now: int) -> (c: int)
    requires
        0 <= k < entries.len(),
        0 <= i < entries[k].parents@.len(),
    ensures
        0 <= c < lanes_after(entries, k + 1).lanes.len(),
        lanes_after(entries, k + 1).lanes[c] == Some(entries[k].parents@[i]@),
        goes_down(row_of(entries, k, now), c as u16, lanes_after(entries, k + 1).colors[c]),
{
    law_lanes_expect_each_commit_once(entries, k);
    let l = lanes_after(entries, k);
    let e = entries[k];
    let hash = e.hash@;
    let parents = views(e.parents@);
    lemma_advanced(l, hash, parents);
    let (after, node, own, cols) = advanced(l, hash, parents);
    lemma_lane_from(l.lanes, Some(hash), 0);
    if lane_of(l.lanes, Some(hash)) >= l.lanes.len() {
        lemma_claimed_keeps(l, None);
    }
    let (a, at) = placed(l, hash);
    let free = Lanes { lanes: cleared(a.lanes, hash), ..a };
    assert(kept(l, a));
    assert(distinct_lanes(free.lanes));
    let n = parents.len() as int;
    lemma_routed_to(free, parents, n, node, own, i);
    let (b, _) = routed(free, parents, n, node, own);
    let c = cols[i].0;
    assert(b.lanes[c] == Some(parents[i]));
    let ended = if some_at(cols, node) {
        b
    } else {
        Lanes { lanes: b.lanes.update(node, None), ..b }
    };
    lemma_routed_keeps(free, parents, n, node, own);
    if !some_at(cols, node) {
        assert(cols[i].0 != node);
    }
    assert(ended.lanes[c] == b.lanes[c]);
    lemma_used_covers(ended.lanes, ended.lanes.len() as int, c);
    lemma_used(ended.lanes, ended.lanes.len() as int);
    assert(after == trimmed(ended));
    assert(after.lanes[c] == ended.lanes[c]);
    assert(parents[i] == e.parents@[i]@);
    let row = row_of(entries, k, now);
    let into = incoming(l, after.lanes, hash, node, 0);
    let out = outgoing(cols, node);
    assert(row.segs[into.len() + i] == out[i]);
    assert(joins_below(row.segs[into.len() + i], row.node_col, c as u16, after.colors[c]));
    c
}

/// A lane that expects a commit goes straight through every row until the commit's own.
proof fn lemma_lane_lives(entries: Seq<LogEntry>, k: int, m: int, c: int, hash: Hash)
    requires
        0 <= k <= m <= entries.len(),
        0 <= c < lanes_after(entries, k).lanes.len(),
        lanes_after(entries, k).lanes[c] == Some(hash),
        forall|q: int| k <= q < m ==> (#[trigger] entries[q]).hash@ != hash,
    ensures
        c < lanes_after(entries, m).lanes.len(),
        lanes_after(entries, m).lanes[c] == Some(hash),
        lanes_after(entries, m).colors[c] == lanes_after(entries, k).colors[c],
    decreases m - k,
{
    if k < m {
        lemma_lane_lives(entries, k, m - 1, c, hash);
        assert(entries[m - 1].hash@ != hash);
        law_lane_keeps_its_colour(entries, m - 1, c);
    }
}

/// A line joins every commit to each of its parents that is shown: it leaves the commit's node
/// downwards, runs straight through every row between, and ends in the parent's node from
/// above, in one column and one colour throughout. Of rows with the parent's hash the first
/// below the commit is the parent.
pub proof fn law_commits_are_joined_to_their_parents(entries: Seq<LogEntry>, k: int, i: int, j: int, now: int)
    requires
        0 <= k < j < entries.len(),
        0 <= i < entries[k].parents@.len(),
        entries[j].hash@ == entries[k].parents@[i]@,
        forall|m: int| k < m < j ==> (#[trigger] entries[m]).hash@ != entries[j].hash@,
    ensures
        exists|col: u16, color: u8|
            {
                &&& #[trigger] goes_down(row_of(entries, k, now), col, color)
                &&& forall|m: int|
                    k < m < j ==> runs_through(#[trigger] row_of(entries, m, now), col, color)
                &&& goes_up(row_of(entries, j, now), col, color)
            },
{
    let c = lemma_parent_lane(entries, k, i, now);
    let hash = entries[j].hash@;
    let color = lanes_after(entries, k + 1).colors[c];
    let col = c as u16;
    assert forall|m: int| k < m < j implies runs_through(#[trigger] row_of(entries, m, now), col, color) by {
        lemma_lane_lives(entries, k + 1, m, c, hash);
        law_lanes_expect_each_commit_once(entries, m);
        law_lanes_expect_each_commit_once(entries, m + 1);
        let before = lanes_after(entries, m);
        let after = lanes_after(entries, m + 1);
        let e = entries[m];
        assert(e.hash@ != hash);
        law_lane_keeps_its_colour(entries, m, c);
        lemma_lane_from(after.lanes, Some(hash), 0);
        let at = lane_of(after.lanes, Some(hash));
        assert(after.lanes[c] == Some(hash) && after.lanes[at] == Some(hash));
        assert(at == c);
        let (_, node, _, cols) = advanced(before, e.hash@, views(e.parents@));
        lemma_incoming_has(before, after.lanes, e.hash@, node, 0, c);
        let into = incoming(before, after.lanes, e.hash@, node, 0);
        let s = Seg::V { col, half: Half::Full, color };
        let x = choose|x: int| 0 <= x < into.len() && into[x] == s;
        assert(row_of(entries, m, now).segs[x] == s);
    }
    lemma_lane_lives(entries, k + 1, j, c, hash);
    law_lanes_expect_each_commit_once(entries, j);
    let before = lanes_after(entries, j);
    let e = entries[j];
    let (after, node, _, cols) = advanced(before, e.hash@, views(e.parents@));
    lemma_incoming_has(before, after.lanes, e.hash@, node, 0, c);
    let into = incoming(before, after.lanes, e.hash@, node, 0);
    let x = choose|x: int| 0 <= x < into.len() && joins_above(#[trigger] into[x], node as u16, col, color);
    assert(row_of(entries, j, now).segs[x] == into[x]);
    assert(goes_up(row_of(entries, j, now), col, color));
}

/// A row joins its node downwards to the lane of each of its parents, whether the parent is
/// shown or not: some line leaves the node for each.
pub proof fn law_every_parent_has_a_line(entries: Seq<LogEntry>, k: int, i: int, now: int)
    requires
        0 <= k < entries.len(),
        0 <= i < entries[k].parents@.len(),
    ensures
        exists|c: int|
            {
                &&& 0 <= c < lanes_after(entries, k + 1).lanes.len()
                &&& #[trigger] lanes_after(entries, k + 1).lanes[c] == Some(entries[k].parents@[i]@)
                &&& goes_down(row_of(entries, k, now), c as u16, lanes_after(entries, k + 1).colors[c])
            },
{
    let c = lemma_parent_lane(entries, k, i, now);
    assert(lanes_after(entries, k + 1).lanes[c] == Some(entries[k].parents@[i]@));
}

/// Every lane that expects a commit from above ends in its node.
pub proof fn law_expected_commit_is_joined_from_above(entries: Seq<LogEntry>, k: int, c: int, now: int)
    requires
        0 <= k < entries.len(),
        0 <= c < lanes_after(entries, k).lanes.len(),
        lanes_after(entries, k).lanes[c] == Some(entries[k].hash@),
    ensures
        goes_up(row_of(entries, k, now), c as u16, lanes_after(entries, k).colors[c]),
{
    law_lanes_expect_each_commit_once(entries, k);
    let before = lanes_after(entries, k);
    let e = entries[k];
    let (after, node, _, _) = advanced(before, e.hash@, views(e.parents@));
    let color = before.colors[c];
    lemma_incoming_has(before, after.lanes, e.hash@, node, 0, c);
    let into = incoming(before, after.lanes, e.hash@, node, 0);
    let x = choose|x: int|
        0 <= x < into.len() && joins_above(#[trigger] into[x], node as u16, c as u16, color);
    assert(row_of(entries, k, now).segs[x] == into[x]);
}

/// A row tells what its commit says: the first seven characters of its hash, its author, its
/// subject, and for the tooltip the subject with the body behind an empty line.
pub proof fn law_row_tells_its_commit(entries: Seq<LogEntry>, k: int, now: int)
    requires
        0 <= k < entries.len(),
    ensures
        ({
            let e = entries[k];
            let r = row_of(entries, k, now);
            &&& r.short.len() <= 7
            &&& e.hash@.len() >= 7 ==> r.short.len() == 7
            &&& e.hash@.len() < 7 ==> r.short == e.hash@
            &&& forall|i: int| 0 <= i < r.short.len() ==> #[trigger] r.short[i] == e.hash@[i]
            &&& r.author == e.author@
            &&& r.subject == e.subject@
            &&& e.body@.len() == 0 ==> r.message == e.subject@
            &&& e.body@.len() > 0 ==> {
                &&& r.message.len() == e.subject@.len() + 2 + e.body@.len()
                &&& r.message.take(e.subject@.len() as int) == e.subject@
                &&& r.message[e.subject@.len() as int] == '\n'
                &&& r.message[e.subject@.len() as int + 1] == '\n'
                &&& r.message.skip(e.subject@.len() as int + 2) == e.body@
            }
            &&& r.refs.len() == e.refs@.len()
        }),
{
    reveal_strlit("\n\n");
    let e = entries[k];
    let r = row_of(entries, k, now);
    if e.body@.len() > 0 {
        assert(r.message.take(e.subject@.len() as int) =~= e.subject@);
        assert(r.message.skip(e.subject@.len() as int + 2) =~= e.body@);
    } else {
        assert(r.message =~= e.subject@);
    }
    if e.hash@.len() < 7 {
        assert(r.short =~= e.hash@);
    }
}

/// What a reference is told as: the branch that is checked out, a tag, a detached head, a branch
/// of a remote, which has a slash, or a local branch.
pub proof fn law_references_are_told_apart(entries: Seq<LogEntry>, k: int, now: int, i: int, name: Seq<char>)
    requires
        0 <= k < entries.len(),
        0 <= i < entries[k].refs@.len(),
    ensures
        ({
            let text = entries[k].refs@[i]@;
            let told = row_of(entries, k, now).refs[i];
            &&& text == "HEAD -> "@ + name ==> told == (name, RefKind::Head)
            &&& text == "HEAD"@ ==> told == ("HEAD"@, RefKind::Head)
            &&& text == "tag: "@ + name ==> told == (name, RefKind::Tag)
            &&& !begins(text, "HEAD -> "@) && !begins(text, "tag: "@) && text != "HEAD"@ ==> {
                &&& told.0 == text
                &&& text.contains('/') ==> told.1 == RefKind::Remote
                &&& !text.contains('/') ==> told.1 == RefKind::Branch
            }
        }),
{
    reveal_strlit("HEAD -> ");
    reveal_strlit("HEAD");
    reveal_strlit("tag: ");
    reveal_strlit("/");
    let text = entries[k].refs@[i]@;
    if text == "HEAD -> "@ + name {
        assert(text.subrange(0, 8) =~= "HEAD -> "@);
        assert(text.skip(8) =~= name);
    }
    if text == "tag: "@ + name {
        assert(text.subrange(0, 5) =~= "tag: "@);
        assert(text.skip(5) =~= name);
        assert(text[0] == 't');
        assert("HEAD"@[0] == 'H');
        if begins(text, "HEAD -> "@) {
            assert(text.subrange(0, 8)[0] == 'H');
        }
    }
    if text == "HEAD"@ {
        assert(text.len() == 4);
    }
    if holds(text, "/"@) {
        let at = choose|at: int| #[trigger] crate::text::occurs_at(text, "/"@, at);
        assert(text.subrange(at, at + 1)[0] == '/');
        assert(text[at] == '/');
    }
    if text.contains('/') {
        let at = choose|at: int| 0 <= at < text.len() && text[at] == '/';
        assert(text.subrange(at, at + 1) =~= "/"@);
        assert(crate::text::occurs_at(text, "/"@, at));
    }
}

/// The age of a commit in words: how many whole units have passed, of the largest unit that has
/// passed once. `unit` seconds are a `name`, and `limit` seconds the next larger one.
pub proof fn law_age_in_whole_units(entries: Seq<LogEntry>, k: int, now: int, unit: int, name: Seq<char>, limit: int, n: nat)
    requires
        0 <= k < entries.len(),
        ({
            ||| (unit, name, limit) == (1int, "second"@, 60int)
            ||| (unit, name, limit) == (60int, "minute"@, 3_600int)
            ||| (unit, name, limit) == (3_600int, "hour"@, 86_400int)
            ||| (unit, name, limit) == (86_400int, "day"@, 2_592_000int)
            ||| (unit, name, limit) == (2_592_000int, "month"@, 31_536_000int)
            ||| (unit, name) == (31_536_000int, "year"@) && now - entries[k].timestamp < limit
        }),
        unit <= now - entries[k].timestamp < limit || unit == 1 && now - entries[k].timestamp == 0,
        n * unit <= now - entries[k].timestamp < (n + 1) * unit,
    ensures
        row_of(entries, k, now).when == decimal(n) + " "@ + name + (if n == 1 {
            ""@
        } else {
            "s"@
        }) + " ago"@,
{
    let d = now - entries[k].timestamp;
    assert(d / unit == n) by (nonlinear_arith)
        requires
            unit > 0,
            n * unit <= d < (n + 1) * unit,
    ;
}

/// A commit from the future happened just now.
pub proof fn law_future_commit_is_now(entries: Seq<LogEntry>, k: int, now: int)
    requires
        0 <= k < entries.len(),
        now < entries[k].timestamp,
    ensures
        row_of(entries, k, now).when == "0 seconds ago"@,
{
    reveal_strlit("0 seconds ago");
    reveal_strlit(" ");
    reveal_strlit("second");
    reveal_strlit("s");
    reveal_strlit(" ago");
    assert(crate::text::digit(0) == '0');
    assert(decimal(0) =~= seq!['0']);
    assert(row_of(entries, k, now).when =~= "0 seconds ago"@);
}

/// A line that starts takes the leftmost free column, or a new one at the right; it gets the next
/// of eight colours in turn, and the other lines stay.
pub proof fn law_new_lines_take_the_leftmost_column(l: Lanes, what: Option<Hash>, j: int)
    requires
        l.lanes.len() == l.colors.len(),
        0 <= j < l.lanes.len(),
    ensures
        ({
            let (m, c) = claimed(l, what);
            &&& 0 <= c <= l.lanes.len()
            &&& m.lanes.len() == m.colors.len()
            &&& c < m.lanes.len()
            &&& m.lanes[c] == what
            &&& m.colors[c] == l.next
            &&& m.next == (l.next + 1) % 8
            &&& j < c ==> l.lanes[j] is Some
            &&& c < l.lanes.len() ==> l.lanes[c] is None
            &&& j != c ==> m.lanes[j] == l.lanes[j] && m.colors[j] == l.colors[j]
        }),
{
    lemma_lane_from(l.lanes, None, 0);
}

/// The graph is as wide as its rightmost line or commit: no commit stands further right.
pub proof fn law_width_covers_every_commit(entries: Seq<LogEntry>, n: int, k: int)
    requires
        0 <= k < n <= entries.len(),
    ensures
        node_of(entries, k) as u16 <= widest_after(entries, n),
        widest_after(entries, n - 1) <= widest_after(entries, n),
        last_lane(lanes_after(entries, k + 1).lanes) as u16 <= widest_after(entries, n),
        widest_after(entries, 0) == 0,
    decreases n,
{
    if k < n - 1 {
        law_width_covers_every_commit(entries, n - 1, k);
    }
}

} // verus!
