//! Which agent sessions run in the terminals, what is stored of them, and how they are
//! brought back.
//!
//! A session that ends, or whose pane is closed, leaves the set; one that was running when
//! the editor was killed is still stored, and is offered again.
use vstd::prelude::*;

use crate::json::get_list;
use crate::json::list_or_none;
use crate::json::members;
use crate::json::opt_text;
use crate::json::parse;
use crate::json::printed_pretty;
use crate::json::read;
use crate::json::set_member;
use crate::json::trees;
use crate::json::under;
use crate::json::under_key;
use crate::json::with_member;
use crate::json::Json;
use crate::json::ObjectBuilder;
use crate::json::Tree;
use crate::paths::extension;
use crate::paths::extension_of;
use crate::text::bare_lines;
use crate::text::begins;
use crate::text::chars_of;
use crate::text::find_place;
use crate::text::is_digit;
use crate::text::lemma_place_of;
use crate::text::opt_view;
use crate::text::parse_number;
use crate::text::parsed_number;
use crate::text::place_of;
use crate::text::plain_lines;
use crate::text::same;
use crate::text::strip_prefix;
use crate::text::text_of;
use crate::text::trim;
use crate::text::trimmed;
use crate::text::views;

verus! {

/// A running session.
pub struct LiveSession {
    pub cwd: String,
    /// By what it is resumed; without it the last session of the folder is continued.
    pub session_id: Option<String>,
}

/// A session by its contents.
pub struct SessionView {
    pub cwd: Seq<char>,
    pub session_id: Option<Seq<char>>,
}

impl View for LiveSession {
    type V = SessionView;

    open spec fn view(&self) -> SessionView {
        SessionView { cwd: self.cwd@, session_id: opt_view(self.session_id) }
    }
}

/// The contents of sessions.
pub open spec fn session_views(v: Seq<LiveSession>) -> Seq<SessionView> {
    Seq::new(v.len(), |i: int| v[i]@)
}

/// A session that can be brought back.
pub struct RestoreItem {
    pub cwd: String,
    pub session_id: Option<String>,
}

impl View for RestoreItem {
    type V = SessionView;

    open spec fn view(&self) -> SessionView {
        SessionView { cwd: self.cwd@, session_id: opt_view(self.session_id) }
    }
}

/// The contents of sessions that can be brought back.
pub open spec fn item_views(v: Seq<RestoreItem>) -> Seq<SessionView> {
    Seq::new(v.len(), |i: int| v[i]@)
}

impl RestoreItem {
    /// The shell command with which the program of the session brings it back.
    pub fn command(&self, program: &str) -> (r: String)
        ensures
            r@ == match self@.session_id {
                Some(id) => program@ + " --resume "@ + id,
                None => program@ + " --continue"@,
            },
    {
        let mut s = program.to_owned();
        match &self.session_id {
            Some(id) => {
                s.append(" --resume ");
                s.append(id.as_str());
            },
            None => {
                s.append(" --continue");
            },
        }
        s
    }
}

/// The folder of a pane among the first `n`: that of the last entry for it.
pub open spec fn cwd_of(terms: Seq<(u64, String)>, id: u64, n: int) -> Option<Seq<char>>
    decreases n,
{
    if n <= 0 {
        None
    } else if terms[n - 1].0 == id {
        Some(terms[n - 1].1@)
    } else {
        cwd_of(terms, id, n - 1)
    }
}

fn find_cwd(terms: &Vec<(u64, String)>, id: u64) -> (r: Option<String>)
    ensures
        opt_view(r) == cwd_of(terms@, id, terms@.len() as int),
{
    let mut k: usize = terms.len();
    while k > 0
        invariant
            k <= terms@.len(),
            cwd_of(terms@, id, k as int) == cwd_of(terms@, id, terms@.len() as int),
        decreases k,
    {
        if terms[k - 1].0 == id {
            return Some(terms[k - 1].1.as_str().to_owned());
        }
        k = k - 1;
    }
    None
}

/// Panes with their sessions, by their contents.
pub open spec fn live_views(v: Seq<(u64, LiveSession)>) -> Seq<(u64, SessionView)> {
    Seq::new(v.len(), |i: int| (v[i].0, v[i].1@))
}

/// Where a pane stands, from the `k`-th on, or the end.
pub open spec fn pane_at(live: Seq<(u64, SessionView)>, id: u64, k: int) -> int
    decreases live.len() - k,
{
    if k >= live.len() {
        live.len() as int
    } else if live[k].0 == id {
        k
    } else {
        pane_at(live, id, k + 1)
    }
}

/// Whether a pane runs a session in the folder it is in.
pub open spec fn is_current(p: (u64, SessionView), ids: Seq<u64>, terms: Seq<(u64, String)>) -> bool {
    ids.contains(p.0) && cwd_of(terms, p.0, terms.len() as int) == Some(p.1.cwd)
}

/// The sessions that are taken among the first `n` panes: those of panes that still run in
/// their folder.
pub open spec fn taken_by(
    live: Seq<(u64, SessionView)>,
    ids: Seq<u64>,
    terms: Seq<(u64, String)>,
    n: int,
) -> Seq<(Seq<char>, Seq<char>)>
    decreases n,
{
    if n <= 0 {
        Seq::empty()
    } else {
        let rest = taken_by(live, ids, terms, n - 1);
        match live[n - 1].1.session_id {
            Some(sid) => if is_current(live[n - 1], ids, terms) {
                rest.push((live[n - 1].1.cwd, sid))
            } else {
                rest
            },
            None => rest,
        }
    }
}

/// The first session from the `k`-th on that is not taken in a folder.
pub open spec fn first_free(
    sessions: Seq<Seq<char>>,
    cwd: Seq<char>,
    taken: Seq<(Seq<char>, Seq<char>)>,
    k: int,
) -> Option<Seq<char>>
    decreases sessions.len() - k,
{
    if k < 0 || k >= sessions.len() {
        None
    } else if taken.contains((cwd, sessions[k])) {
        first_free(sessions, cwd, taken, k + 1)
    } else {
        Some(sessions[k])
    }
}

/// The state while panes are gone through.
pub struct Tally {
    pub live: Seq<(u64, SessionView)>,
    pub taken: Seq<(Seq<char>, Seq<char>)>,
    pub dirty: bool,
}

/// The live panes with one set.
pub open spec fn with_pane(live: Seq<(u64, SessionView)>, id: u64, s: SessionView) -> Seq<
    (u64, SessionView),
> {
    let k = pane_at(live, id, 0);
    if k < live.len() {
        live.update(k, (id, s))
    } else {
        live.push((id, s))
    }
}

/// The state after a pane that runs a session. `sessions` are those of its folder, newest
/// first.
pub open spec fn noted(
    t: Tally,
    id: u64,
    terms: Seq<(u64, String)>,
    sessions: Seq<Seq<char>>,
) -> Tally {
    match cwd_of(terms, id, terms.len() as int) {
        None => t,
        Some(cwd) => {
            let k = pane_at(t.live, id, 0);
            if k < t.live.len() && t.live[k].1.cwd == cwd {
                t
            } else {
                let free = first_free(sessions, cwd, t.taken, 0);
                Tally {
                    live: with_pane(t.live, id, SessionView { cwd, session_id: free }),
                    taken: match free {
                        Some(sid) => t.taken.push((cwd, sid)),
                        None => t.taken,
                    },
                    dirty: true,
                }
            }
        },
    }
}

/// The state after the first `n` panes that run a session.
pub open spec fn tallied(
    start: Tally,
    ids: Seq<u64>,
    terms: Seq<(u64, String)>,
    sessions: Seq<Vec<String>>,
    n: int,
) -> Tally
    decreases n,
{
    if n <= 0 {
        start
    } else {
        noted(
            tallied(start, ids, terms, sessions, n - 1),
            ids[n - 1],
            terms,
            views(sessions[n - 1]@),
        )
    }
}

/// The panes among the first `n` that still run a session and are still there.
pub open spec fn kept(
    live: Seq<(u64, SessionView)>,
    ids: Seq<u64>,
    terms: Seq<(u64, String)>,
    n: int,
) -> Seq<(u64, SessionView)>
    decreases n,
{
    if n <= 0 {
        Seq::empty()
    } else {
        let rest = kept(live, ids, terms, n - 1);
        if ids.contains(live[n - 1].0) && cwd_of(terms, live[n - 1].0, terms.len() as int) is Some {
            rest.push(live[n - 1])
        } else {
            rest
        }
    }
}

/// Follows which panes run a session.
pub struct ClaudeWatcher {
    workspace: String,
    live: Vec<(u64, LiveSession)>,
    dirty: bool,
}

/// What is known of the panes.
#[verifier::ext_equal]
pub struct WatcherView {
    pub workspace: Seq<char>,
    pub live: Seq<(u64, SessionView)>,
    pub dirty: bool,
}

impl View for ClaudeWatcher {
    type V = WatcherView;

    closed spec fn view(&self) -> WatcherView {
        WatcherView {
            workspace: self.workspace@,
            live: live_views(self.live@),
            dirty: self.dirty,
        }
    }
}

/// The state from which panes are gone through.
pub open spec fn start_of(w: WatcherView, ids: Seq<u64>, terms: Seq<(u64, String)>) -> Tally {
    Tally {
        live: w.live,
        taken: taken_by(w.live, ids, terms, w.live.len() as int),
        dirty: w.dirty,
    }
}

/// What is known after panes were looked at, and whether anything changed.
pub open spec fn observed(
    w: WatcherView,
    ids: Seq<u64>,
    terms: Seq<(u64, String)>,
    sessions: Seq<Vec<String>>,
) -> (WatcherView, bool) {
    let t = tallied(start_of(w, ids, terms), ids, terms, sessions, ids.len() as int);
    let left = kept(t.live, ids, terms, t.live.len() as int);
    (
        WatcherView { workspace: w.workspace, live: left, dirty: false },
        t.dirty || left.len() != t.live.len(),
    )
}

fn holds_id(ids: &Vec<u64>, id: u64) -> (r: bool)
    ensures
        r == ids@.contains(id),
{
    let mut k: usize = 0;
    while k < ids.len()
        invariant
            k <= ids@.len(),
            forall|i: int| 0 <= i < k ==> ids@[i] != id,
        decreases ids.len() - k,
    {
        if ids[k] == id {
            return true;
        }
        k = k + 1;
    }
    false
}

/// The contents of pairs of folder and session.
pub open spec fn pair_views(v: Seq<(String, String)>) -> Seq<(Seq<char>, Seq<char>)> {
    Seq::new(v.len(), |i: int| (v[i].0@, v[i].1@))
}

fn is_taken(taken: &Vec<(String, String)>, cwd: &str, sid: &str) -> (r: bool)
    ensures
        r == pair_views(taken@).contains((cwd@, sid@)),
{
    let ghost tv = pair_views(taken@);
    let mut k: usize = 0;
    while k < taken.len()
        invariant
            k <= taken@.len(),
            tv == pair_views(taken@),
            forall|i: int| 0 <= i < k ==> tv[i] != (cwd@, sid@),
        decreases taken.len() - k,
    {
        assert(tv[k as int] == (taken@[k as int].0@, taken@[k as int].1@));
        if same(taken[k].0.as_str(), cwd) && same(taken[k].1.as_str(), sid) {
            assert(tv[k as int] == (cwd@, sid@));
            return true;
        }
        k = k + 1;
    }
    false
}

fn pick_free(sessions: &Vec<String>, cwd: &str, taken: &Vec<(String, String)>) -> (r: Option<String>)
    ensures
        opt_view(r) == first_free(views(sessions@), cwd@, pair_views(taken@), 0),
{
    let ghost sv = views(sessions@);
    let ghost tv = pair_views(taken@);
    let mut k: usize = 0;
    while k < sessions.len()
        invariant
            k <= sessions@.len(),
            sv == views(sessions@),
            tv == pair_views(taken@),
            first_free(sv, cwd@, tv, k as int) == first_free(sv, cwd@, tv, 0),
        decreases sessions.len() - k,
    {
        assert(sv[k as int] == sessions@[k as int]@);
        if !is_taken(taken, cwd, sessions[k].as_str()) {
            return Some(sessions[k].as_str().to_owned());
        }
        k = k + 1;
    }
    None
}

fn push_pair(v: &mut Vec<(String, String)>, a: &str, b: &str)
    ensures
        pair_views(final(v)@) == pair_views(old(v)@).push((a@, b@)),
{
    let ghost so_far = pair_views(v@);
    v.push((a.to_owned(), b.to_owned()));
    assert(pair_views(v@) =~= so_far.push((a@, b@)));
}

impl ClaudeWatcher {
    /// Nothing is running yet.
    pub fn new(workspace: &str) -> (r: ClaudeWatcher)
        ensures
            r@ == (WatcherView { workspace: workspace@, live: Seq::empty(), dirty: false }),
    {
        let r = ClaudeWatcher { workspace: workspace.to_owned(), live: Vec::new(), dirty: false };
        assert(r@.live =~= Seq::<(u64, SessionView)>::empty());
        r
    }

    /// Another workspace is shown: what ran in the one before is forgotten.
    pub fn set_workspace(&mut self, workspace: &str)
        ensures
            final(self)@ == (if workspace@ == old(self)@.workspace {
                old(self)@
            } else {
                WatcherView { workspace: workspace@, live: Seq::empty(), dirty: false }
            }),
    {
        if !same(workspace, self.workspace.as_str()) {
            self.workspace = workspace.to_owned();
            self.live = Vec::new();
            self.dirty = false;
            assert(self@.live =~= Seq::<(u64, SessionView)>::empty());
        }
    }

    fn taken(&self, ids: &Vec<u64>, terms: &Vec<(u64, String)>) -> (r: Vec<(String, String)>)
        ensures
            pair_views(r@) == taken_by(self@.live, ids@, terms@, self@.live.len() as int),
    {
        let ghost lv = self@.live;
        let mut out: Vec<(String, String)> = Vec::new();
        assert(pair_views(out@) =~= Seq::<(Seq<char>, Seq<char>)>::empty());
        let mut k: usize = 0;
        while k < self.live.len()
            invariant
                k <= self.live@.len(),
                lv == self@.live,
                lv.len() == self.live@.len(),
                pair_views(out@) == taken_by(lv, ids@, terms@, k as int),
            decreases self.live.len() - k,
        {
            assert(lv[k as int] == (self.live@[k as int].0, self.live@[k as int].1@));
            let id: u64 = self.live[k].0;
            let s = &self.live[k].1;
            if let Some(sid) = &s.session_id {
                let here = match find_cwd(terms, id) {
                    Some(c) => same(c.as_str(), s.cwd.as_str()),
                    None => false,
                };
                if here && holds_id(ids, id) {
                    push_pair(&mut out, s.cwd.as_str(), sid.as_str());
                }
            }
            k = k + 1;
        }
        out
    }

    fn find_pane(&self, id: u64) -> (r: usize)
        ensures
            r == pane_at(self@.live, id, 0),
            r <= self.live@.len(),
    {
        let ghost lv = self@.live;
        let n: usize = self.live.len();
        let mut k: usize = 0;
        while k < n
            invariant
                n == self.live@.len(),
                k <= n,
                lv == self@.live,
                lv.len() == n,
                pane_at(lv, id, k as int) == pane_at(lv, id, 0),
            decreases n - k,
        {
            assert(lv[k as int] == (self.live@[k as int].0, self.live@[k as int].1@));
            if self.live[k].0 == id {
                return k;
            }
            k = k + 1;
        }
        n
    }

    /// Takes which panes run a session now and in which folder each pane is. For each of
    /// `live_ids`, `sessions` holds the stored sessions of its folder, newest first: several
    /// panes of one folder get different ones. True where the set of running sessions
    /// changed.
    pub fn observe(
        &mut self,
        live_ids: &Vec<u64>,
        terms: &Vec<(u64, String)>,
        sessions: &Vec<Vec<String>>,
    ) -> (r: bool)
        requires
            sessions@.len() == live_ids@.len(),
        ensures
            (final(self)@, r) == observed(old(self)@, live_ids@, terms@, sessions@),
    {
        let ghost start = start_of(self@, live_ids@, terms@);
        let mut taken = self.taken(live_ids, terms);
        let n: usize = live_ids.len();
        let mut k: usize = 0;
        while k < n
            invariant
                k <= n,
                n == live_ids@.len(),
                n == sessions@.len(),
                start == start_of(old(self)@, live_ids@, terms@),
                self@.workspace == old(self)@.workspace,
                (Tally { live: self@.live, taken: pair_views(taken@), dirty: self@.dirty })
                    == tallied(start, live_ids@, terms@, sessions@, k as int),
            decreases n - k,
        {
            let id: u64 = live_ids[k];
            if let Some(cwd) = find_cwd(terms, id) {
                let ghost lv = self@.live;
                let at: usize = self.find_pane(id);
                let mut stays = false;
                if at < self.live.len() {
                    assert(lv[at as int] == (self.live@[at as int].0, self.live@[at as int].1@));
                    stays = same(self.live[at].1.cwd.as_str(), cwd.as_str());
                }
                if !stays {
                    let free = pick_free(&sessions[k], cwd.as_str(), &taken);
                    if let Some(sid) = &free {
                        push_pair(&mut taken, cwd.as_str(), sid.as_str());
                    }
                    let s = LiveSession { cwd, session_id: free };
                    let ghost sv = s@;
                    if at < self.live.len() {
                        self.live.set(at, (id, s));
                        assert(self@.live =~= lv.update(at as int, (id, sv)));
                    } else {
                        self.live.push((id, s));
                        assert(self@.live =~= lv.push((id, sv)));
                    }
                    self.dirty = true;
                }
            }
            k = k + 1;
        }
        let ghost all = self@.live;
        let before: usize = self.live.len();
        let mut old_live: Vec<(u64, LiveSession)> = Vec::new();
        std::mem::swap(&mut old_live, &mut self.live);
        let mut j: usize = 0;
        assert(self@.live =~= Seq::<(u64, SessionView)>::empty());
        while j < before
            invariant
                j <= before,
                before == old_live@.len(),
                all == live_views(old_live@),
                self@.workspace == old(self)@.workspace,
                self@.dirty == tallied(start, live_ids@, terms@, sessions@, n as int).dirty,
                self@.live == kept(all, live_ids@, terms@, j as int),
                self.live@.len() == self@.live.len(),
            decreases before - j,
        {
            assert(all[j as int] == (old_live@[j as int].0, old_live@[j as int].1@));
            let id: u64 = old_live[j].0;
            if holds_id(live_ids, id) && find_cwd(terms, id).is_some() {
                let ghost lv = self@.live;
                let s = &old_live[j].1;
                let copy = LiveSession {
                    cwd: s.cwd.as_str().to_owned(),
                    session_id: match &s.session_id {
                        Some(x) => Some(x.as_str().to_owned()),
                        None => None,
                    },
                };
                let ghost cv = copy@;
                self.live.push((id, copy));
                assert(self@.live =~= lv.push((id, cv)));
                assert(cv == all[j as int].1);
            }
            j = j + 1;
        }
        let changed = self.dirty || self.live.len() != before;
        self.dirty = false;
        changed
    }

    /// The running sessions, to be stored.
    pub fn snapshot(&self) -> (r: Vec<LiveSession>)
        ensures
            session_views(r@) == Seq::new(self@.live.len(), |i: int| self@.live[i].1),
    {
        let ghost want = Seq::new(self@.live.len(), |i: int| self@.live[i].1);
        let mut out: Vec<LiveSession> = Vec::new();
        assert(session_views(out@) =~= want.take(0));
        let mut k: usize = 0;
        while k < self.live.len()
            invariant
                k <= self.live@.len(),
                want == Seq::new(self@.live.len(), |i: int| self@.live[i].1),
                session_views(out@) == want.take(k as int),
            decreases self.live.len() - k,
        {
            let s = &self.live[k].1;
            let copy = LiveSession {
                cwd: s.cwd.as_str().to_owned(),
                session_id: match &s.session_id {
                    Some(x) => Some(x.as_str().to_owned()),
                    None => None,
                },
            };
            let ghost so_far = session_views(out@);
            let ghost cv = copy@;
            out.push(copy);
            assert(session_views(out@) =~= so_far.push(cv));
            assert(cv == want[k as int]);
            assert(want.take(k + 1) =~= want.take(k as int).push(want[k as int]));
            k = k + 1;
        }
        assert(want.take(k as int) =~= want);
        out
    }

    /// The workspace that is shown.
    pub fn workspace(&self) -> (r: &str)
        ensures
            r@ == self@.workspace,
    {
        self.workspace.as_str()
    }
}

/// Whether no pane occurs twice.
pub open spec fn panes_distinct(live: Seq<(u64, SessionView)>) -> bool {
    forall|i: int, j: int|
        0 <= i < j < live.len() ==> (#[trigger] live[i]).0 != (#[trigger] live[j]).0
}

/// Whether two panes have the same session of the same folder.
pub open spec fn clash(a: SessionView, b: SessionView) -> bool {
    a.session_id is Some && a.session_id == b.session_id && a.cwd == b.cwd
}

/// Whether no session of a folder is that of two panes.
pub open spec fn sessions_distinct(live: Seq<(u64, SessionView)>) -> bool {
    forall|i: int, j: int|
        0 <= i < j < live.len() ==> !clash((#[trigger] live[i]).1, (#[trigger] live[j]).1)
}

proof fn lemma_pane_at(live: Seq<(u64, SessionView)>, id: u64, k: int)
    requires
        0 <= k <= live.len(),
    ensures
        k <= pane_at(live, id, k) <= live.len(),
        pane_at(live, id, k) < live.len() ==> live[pane_at(live, id, k)].0 == id,
        forall|j: int| k <= j < pane_at(live, id, k) ==> (#[trigger] live[j]).0 != id,
    decreases live.len() - k,
{
    if k < live.len() && live[k].0 != id {
        lemma_pane_at(live, id, k + 1);
    }
}

/// Whether every pane that is looked at, among the first `n`, is known in the folder it is in.
spec fn settled(
    live: Seq<(u64, SessionView)>,
    ids: Seq<u64>,
    terms: Seq<(u64, String)>,
    n: int,
) -> bool {
    forall|i: int|
        0 <= i < n ==> (cwd_of(terms, #[trigger] ids[i], terms.len() as int) matches Some(cwd) ==> {
            let k = pane_at(live, ids[i], 0);
            k < live.len() && live[k].1.cwd == cwd
        })
}

proof fn lemma_first_pane(live: Seq<(u64, SessionView)>, id: u64, k: int)
    requires
        0 <= k < live.len(),
        live[k].0 == id,
        forall|j: int| 0 <= j < k ==> (#[trigger] live[j]).0 != id,
    ensures
        pane_at(live, id, 0) == k,
{
    lemma_pane_at(live, id, 0);
    let p = pane_at(live, id, 0);
    if p < k {
        assert(live[p].0 != id);
    }
    if p > k {
        assert(live[k].0 != id);
    }
}

proof fn lemma_noted_settles(
    t: Tally,
    ids: Seq<u64>,
    terms: Seq<(u64, String)>,
    sessions: Seq<Seq<char>>,
    n: int,
)
    requires
        0 <= n < ids.len(),
        settled(t.live, ids, terms, n),
    ensures
        settled(noted(t, ids[n], terms, sessions).live, ids, terms, n + 1),
{
    let id = ids[n];
    let after = noted(t, id, terms, sessions).live;
    lemma_pane_at(t.live, id, 0);
    let k = pane_at(t.live, id, 0);
    assert forall|i: int| 0 <= i < n + 1 implies (cwd_of(
        terms,
        #[trigger] ids[i],
        terms.len() as int,
    ) matches Some(cwd) ==> {
        let q = pane_at(after, ids[i], 0);
        q < after.len() && after[q].1.cwd == cwd
    }) by {
        if cwd_of(terms, ids[i], terms.len() as int) is Some && after != t.live {
            if ids[i] == id {
                lemma_first_pane(after, id, k);
            } else {
                let q = pane_at(t.live, ids[i], 0);
                lemma_pane_at(t.live, ids[i], 0);
                assert(after[q] == t.live[q]);
                assert forall|j: int| 0 <= j < q implies (#[trigger] after[j]).0 != ids[i] by {
                    assert(t.live[j].0 != ids[i]);
                }
                lemma_first_pane(after, ids[i], q);
            }
        }
    }
}

proof fn lemma_tallied_settles(
    start: Tally,
    ids: Seq<u64>,
    terms: Seq<(u64, String)>,
    sessions: Seq<Vec<String>>,
    n: int,
)
    requires
        0 <= n <= ids.len(),
    ensures
        settled(tallied(start, ids, terms, sessions, n).live, ids, terms, n),
    decreases n,
{
    if n > 0 {
        lemma_tallied_settles(start, ids, terms, sessions, n - 1);
        lemma_noted_settles(
            tallied(start, ids, terms, sessions, n - 1),
            ids,
            terms,
            views(sessions[n - 1]@),
            n - 1,
        );
    }
}

/// Panes that are kept stay the first of their kind.
proof fn lemma_kept_first(
    live: Seq<(u64, SessionView)>,
    ids: Seq<u64>,
    terms: Seq<(u64, String)>,
    id: u64,
    n: int,
) -> (k: int)
    requires
        0 <= n <= live.len(),
        ids.contains(id),
        cwd_of(terms, id, terms.len() as int) is Some,
    ensures
        ({
            let left = kept(live, ids, terms, n);
            let q = pane_at(live, id, 0);
            if q < n {
                &&& 0 <= k < left.len()
                &&& left[k] == live[q]
                &&& forall|j: int| 0 <= j < k ==> (#[trigger] left[j]).0 != id
            } else {
                forall|j: int| 0 <= j < left.len() ==> (#[trigger] left[j]).0 != id
            }
        }),
    decreases n,
{
    lemma_pane_at(live, id, 0);
    let q = pane_at(live, id, 0);
    if n <= 0 {
        0
    } else {
        let before = lemma_kept_first(live, ids, terms, id, n - 1);
        let prev = kept(live, ids, terms, n - 1);
        let left = kept(live, ids, terms, n);
        assert(forall|j: int| 0 <= j < prev.len() ==> left[j] == prev[j]);
        if q == n - 1 {
            assert(live[n - 1].0 == id);
            assert(left == prev.push(live[n - 1]));
            prev.len() as int
        } else {
            if q >= n {
                assert(live[n - 1].0 != id);
            }
            before
        }
    }
}

proof fn lemma_kept_all(
    live: Seq<(u64, SessionView)>,
    ids: Seq<u64>,
    terms: Seq<(u64, String)>,
    n: int,
)
    requires
        0 <= n <= live.len(),
        forall|i: int|
            0 <= i < live.len() ==> ids.contains((#[trigger] live[i]).0) && cwd_of(
                terms,
                live[i].0,
                terms.len() as int,
            ) is Some,
    ensures
        kept(live, ids, terms, n) == live.take(n),
    decreases n,
{
    if n > 0 {
        lemma_kept_all(live, ids, terms, n - 1);
        assert(live.take(n) =~= live.take(n - 1).push(live[n - 1]));
    } else {
        assert(live.take(0) =~= Seq::<(u64, SessionView)>::empty());
    }
}

proof fn lemma_kept_passes(
    live: Seq<(u64, SessionView)>,
    ids: Seq<u64>,
    terms: Seq<(u64, String)>,
    n: int,
)
    requires
        0 <= n <= live.len(),
    ensures
        forall|i: int|
            0 <= i < kept(live, ids, terms, n).len() ==> ids.contains(
                (#[trigger] kept(live, ids, terms, n)[i]).0,
            ) && cwd_of(terms, kept(live, ids, terms, n)[i].0, terms.len() as int) is Some,
    decreases n,
{
    if n > 0 {
        lemma_kept_passes(live, ids, terms, n - 1);
    }
}

proof fn lemma_settled_stays(
    start: Tally,
    ids: Seq<u64>,
    terms: Seq<(u64, String)>,
    sessions: Seq<Vec<String>>,
    n: int,
)
    requires
        0 <= n <= ids.len(),
        settled(start.live, ids, terms, ids.len() as int),
    ensures
        tallied(start, ids, terms, sessions, n) == start,
    decreases n,
{
    if n > 0 {
        lemma_settled_stays(start, ids, terms, sessions, n - 1);
        assert(cwd_of(terms, ids[n - 1], terms.len() as int) is Some ==> ({
            let k = pane_at(start.live, ids[n - 1], 0);
            k < start.live.len() && start.live[k].1.cwd == cwd_of(
                terms,
                ids[n - 1],
                terms.len() as int,
            )->0
        }));
    }
}

/// Looking at the same panes again changes nothing, whatever sessions were stored meanwhile.
pub proof fn law_observing_again_changes_nothing(
    w: WatcherView,
    ids: Seq<u64>,
    terms: Seq<(u64, String)>,
    first: Seq<Vec<String>>,
    second: Seq<Vec<String>>,
)
    ensures
        ({
            let known = observed(w, ids, terms, first).0;
            observed(known, ids, terms, second) == (known, false)
        }),
{
    let n = ids.len() as int;
    let t = tallied(start_of(w, ids, terms), ids, terms, first, n);
    let live = t.live;
    let left = kept(live, ids, terms, live.len() as int);
    let known = observed(w, ids, terms, first).0;
    lemma_tallied_settles(start_of(w, ids, terms), ids, terms, first, n);
    assert(settled(left, ids, terms, n)) by {
        assert forall|i: int| 0 <= i < n implies (cwd_of(
            terms,
            #[trigger] ids[i],
            terms.len() as int,
        ) matches Some(cwd) ==> {
            let k = pane_at(left, ids[i], 0);
            k < left.len() && left[k].1.cwd == cwd
        }) by {
            if cwd_of(terms, ids[i], terms.len() as int) is Some {
                let k = lemma_kept_first(live, ids, terms, ids[i], live.len() as int);
                lemma_pane_at(live, ids[i], 0);
                lemma_first_pane(left, ids[i], k);
            }
        }
    }
    lemma_kept_passes(live, ids, terms, live.len() as int);
    lemma_kept_all(left, ids, terms, left.len() as int);
    assert(left.take(left.len() as int) =~= left);
    lemma_settled_stays(start_of(known, ids, terms), ids, terms, second, n);
}

proof fn lemma_first_free(
    sessions: Seq<Seq<char>>,
    cwd: Seq<char>,
    taken: Seq<(Seq<char>, Seq<char>)>,
    k: int,
)
    ensures
        first_free(sessions, cwd, taken, k) is Some ==> !taken.contains(
            (cwd, first_free(sessions, cwd, taken, k)->0),
        ),
    decreases sessions.len() - k,
{
    if 0 <= k < sessions.len() && taken.contains((cwd, sessions[k])) {
        lemma_first_free(sessions, cwd, taken, k + 1);
    }
}

proof fn lemma_taken(
    live: Seq<(u64, SessionView)>,
    ids: Seq<u64>,
    terms: Seq<(u64, String)>,
    n: int,
    i: int,
)
    requires
        0 <= i < n <= live.len(),
        is_current(live[i], ids, terms),
        live[i].1.session_id is Some,
    ensures
        taken_by(live, ids, terms, n).contains((live[i].1.cwd, live[i].1.session_id->0)),
    decreases n,
{
    let all = taken_by(live, ids, terms, n);
    let pair = (live[i].1.cwd, live[i].1.session_id->0);
    if i == n - 1 {
        assert(all[all.len() - 1] == pair);
    } else {
        lemma_taken(live, ids, terms, n - 1, i);
        let rest = taken_by(live, ids, terms, n - 1);
        let j = choose|j: int| 0 <= j < rest.len() && rest[j] == pair;
        assert(all[j] == pair);
    }
}

spec fn tally_ok(t: Tally, ids: Seq<u64>, terms: Seq<(u64, String)>) -> bool {
    &&& panes_distinct(t.live)
    &&& forall|i: int|
        0 <= i < t.live.len() && is_current(#[trigger] t.live[i], ids, terms)
            && t.live[i].1.session_id is Some ==> t.taken.contains(
            (t.live[i].1.cwd, t.live[i].1.session_id->0),
        )
    &&& forall|i: int, j: int|
        0 <= i < j < t.live.len() && is_current(#[trigger] t.live[i], ids, terms) && is_current(
            #[trigger] t.live[j],
            ids,
            terms,
        ) ==> !clash(t.live[i].1, t.live[j].1)
}

spec fn in_place(t: Tally, terms: Seq<(u64, String)>, id: u64) -> bool {
    cwd_of(terms, id, terms.len() as int) is Some ==> exists|i: int|
        0 <= i < t.live.len() && (#[trigger] t.live[i]).0 == id && t.live[i].1.cwd == cwd_of(
            terms,
            id,
            terms.len() as int,
        )->0
}

proof fn lemma_noted(
    t: Tally,
    ids: Seq<u64>,
    terms: Seq<(u64, String)>,
    id: u64,
    sessions: Seq<Seq<char>>,
)
    requires
        tally_ok(t, ids, terms),
        ids.contains(id),
    ensures
        tally_ok(noted(t, id, terms, sessions), ids, terms),
        in_place(noted(t, id, terms, sessions), terms, id),
        forall|other: u64|
            in_place(t, terms, other) ==> in_place(noted(t, id, terms, sessions), terms, other),
{
    let r = noted(t, id, terms, sessions);
    let k = pane_at(t.live, id, 0);
    lemma_pane_at(t.live, id, 0);
    match cwd_of(terms, id, terms.len() as int) {
        None => {},
        Some(cwd) => {
            if k < t.live.len() && t.live[k].1.cwd == cwd {
                assert(t.live[k].0 == id);
            } else {
                let free = first_free(sessions, cwd, t.taken, 0);
                lemma_first_free(sessions, cwd, t.taken, 0);
                let new = (id, SessionView { cwd, session_id: free });
                assert(r.live[k] == new);
                assert forall|i: int| 0 <= i < r.live.len() && i != k implies r.live[i]
                    == t.live[i] by {}
                assert forall|p: (Seq<char>, Seq<char>)| t.taken.contains(p) implies r.taken.contains(
                    p,
                ) by {
                    let j = choose|j: int| 0 <= j < t.taken.len() && t.taken[j] == p;
                    assert(r.taken[j] == p);
                }
                if free is Some {
                    assert(r.taken[t.taken.len() as int] == (cwd, free->0));
                }
                assert forall|i: int, j: int| 0 <= i < j < r.live.len() implies (
                #[trigger] r.live[i]).0 != (#[trigger] r.live[j]).0 by {
                    if i == k {
                        assert(r.live[j] == t.live[j]);
                        if k < t.live.len() {
                            assert(t.live[k].0 != t.live[j].0);
                        }
                    } else if j == k {
                        assert(r.live[i] == t.live[i]);
                    } else {
                        assert(t.live[i].0 != t.live[j].0);
                    }
                }
                assert forall|i: int|
                    0 <= i < r.live.len() && is_current(#[trigger] r.live[i], ids, terms)
                        && r.live[i].1.session_id is Some implies r.taken.contains(
                    (r.live[i].1.cwd, r.live[i].1.session_id->0),
                ) by {
                    if i != k {
                        assert(r.live[i] == t.live[i]);
                    }
                }
                assert forall|i: int, j: int|
                    0 <= i < j < r.live.len() && is_current(#[trigger] r.live[i], ids, terms)
                        && is_current(#[trigger] r.live[j], ids, terms) implies !clash(
                    r.live[i].1,
                    r.live[j].1,
                ) by {
                    if i == k {
                        assert(r.live[j] == t.live[j]);
                    } else if j == k {
                        assert(r.live[i] == t.live[i]);
                    } else {
                        assert(r.live[i] == t.live[i] && r.live[j] == t.live[j]);
                    }
                }
                assert forall|other: u64| in_place(t, terms, other) implies in_place(
                    r,
                    terms,
                    other,
                ) by {
                    if cwd_of(terms, other, terms.len() as int) is Some {
                        if other == id {
                            assert(r.live[k].0 == id);
                        } else {
                            let i = choose|i: int|
                                0 <= i < t.live.len() && (#[trigger] t.live[i]).0 == other
                                    && t.live[i].1.cwd == cwd_of(
                                    terms,
                                    other,
                                    terms.len() as int,
                                )->0;
                            assert(r.live[i] == t.live[i]);
                        }
                    }
                }
            }
        },
    }
}

proof fn lemma_tallied(
    start: Tally,
    ids: Seq<u64>,
    terms: Seq<(u64, String)>,
    sessions: Seq<Vec<String>>,
    n: int,
)
    requires
        tally_ok(start, ids, terms),
        0 <= n <= ids.len(),
    ensures
        tally_ok(tallied(start, ids, terms, sessions, n), ids, terms),
        forall|m: int|
            0 <= m < n ==> in_place(
                tallied(start, ids, terms, sessions, n),
                terms,
                #[trigger] ids[m],
            ),
    decreases n,
{
    if n > 0 {
        lemma_tallied(start, ids, terms, sessions, n - 1);
        let t = tallied(start, ids, terms, sessions, n - 1);
        assert(ids.contains(ids[n - 1]));
        lemma_noted(t, ids, terms, ids[n - 1], views(sessions[n - 1]@));
    }
}

proof fn lemma_kept(
    live: Seq<(u64, SessionView)>,
    ids: Seq<u64>,
    terms: Seq<(u64, String)>,
    n: int,
    a: int,
)
    requires
        0 <= n <= live.len(),
        0 <= a < kept(live, ids, terms, n).len(),
    ensures
        0 <= kept_from(live, ids, terms, n, a) < n,
        kept(live, ids, terms, n)[a] == live[kept_from(live, ids, terms, n, a)],
        ids.contains(live[kept_from(live, ids, terms, n, a)].0),
        cwd_of(terms, live[kept_from(live, ids, terms, n, a)].0, terms.len() as int) is Some,
        forall|b: int|
            0 <= b < a ==> kept_from(live, ids, terms, n, b) < kept_from(live, ids, terms, n, a),
    decreases n,
{
    if n > 0 {
        let rest = kept(live, ids, terms, n - 1);
        if a < rest.len() {
            lemma_kept(live, ids, terms, n - 1, a);
            assert forall|b: int| 0 <= b < a implies kept_from(live, ids, terms, n, b) < kept_from(
                live,
                ids,
                terms,
                n,
                a,
            ) by {
                assert(kept_from(live, ids, terms, n - 1, b) < kept_from(
                    live,
                    ids,
                    terms,
                    n - 1,
                    a,
                ));
            }
        } else {
            assert forall|b: int| 0 <= b < a implies kept_from(live, ids, terms, n, b) < kept_from(
                live,
                ids,
                terms,
                n,
                a,
            ) by {
                lemma_kept(live, ids, terms, n - 1, b);
            }
        }
    }
}

spec fn kept_from(
    live: Seq<(u64, SessionView)>,
    ids: Seq<u64>,
    terms: Seq<(u64, String)>,
    n: int,
    a: int,
) -> int
    decreases n,
{
    if n <= 0 {
        -1
    } else if a < kept(live, ids, terms, n - 1).len() {
        kept_from(live, ids, terms, n - 1, a)
    } else {
        n - 1
    }
}

/// Panes of one folder never share a session: where no two did before, no two do after
/// another look at the panes.
pub proof fn law_sessions_stay_distinct(
    w: WatcherView,
    ids: Seq<u64>,
    terms: Seq<(u64, String)>,
    sessions: Seq<Vec<String>>,
)
    requires
        panes_distinct(w.live),
        sessions_distinct(w.live),
    ensures
        panes_distinct(observed(w, ids, terms, sessions).0.live),
        sessions_distinct(observed(w, ids, terms, sessions).0.live),
{
    let start = start_of(w, ids, terms);
    assert forall|i: int|
        0 <= i < start.live.len() && is_current(#[trigger] start.live[i], ids, terms)
            && start.live[i].1.session_id is Some implies start.taken.contains(
        (start.live[i].1.cwd, start.live[i].1.session_id->0),
    ) by {
        lemma_taken(w.live, ids, terms, w.live.len() as int, i);
    }
    lemma_tallied(start, ids, terms, sessions, ids.len() as int);
    let t = tallied(start, ids, terms, sessions, ids.len() as int);
    let n = t.live.len() as int;
    let left = kept(t.live, ids, terms, n);
    assert forall|i: int, j: int| 0 <= i < j < left.len() implies (#[trigger] left[i]).0 != (
    #[trigger] left[j]).0 && !clash(left[i].1, left[j].1) by {
        lemma_kept(t.live, ids, terms, n, i);
        lemma_kept(t.live, ids, terms, n, j);
        let a = kept_from(t.live, ids, terms, n, i);
        let b = kept_from(t.live, ids, terms, n, j);
        assert(a < b);
        lemma_kept_is_current(t, ids, terms, a);
        lemma_kept_is_current(t, ids, terms, b);
        assert(t.live[a].0 != t.live[b].0);
    }
}

proof fn lemma_kept_is_current(t: Tally, ids: Seq<u64>, terms: Seq<(u64, String)>, a: int)
    requires
        panes_distinct(t.live),
        0 <= a < t.live.len(),
        ids.contains(t.live[a].0),
        cwd_of(terms, t.live[a].0, terms.len() as int) is Some,
        forall|m: int| 0 <= m < ids.len() ==> in_place(t, terms, #[trigger] ids[m]),
    ensures
        is_current(t.live[a], ids, terms),
{
    let id = t.live[a].0;
    let m = choose|m: int| 0 <= m < ids.len() && ids[m] == id;
    assert(in_place(t, terms, ids[m]));
    let i = choose|i: int|
        0 <= i < t.live.len() && (#[trigger] t.live[i]).0 == id && t.live[i].1.cwd == cwd_of(
            terms,
            id,
            terms.len() as int,
        )->0;
    if i < a {
        assert(t.live[i].0 != t.live[a].0);
    } else if a < i {
        assert(t.live[a].0 != t.live[i].0);
    }
}

/// A session whose pane no longer runs it, or is gone, is never offered again.
pub proof fn law_ended_sessions_leave(
    w: WatcherView,
    ids: Seq<u64>,
    terms: Seq<(u64, String)>,
    sessions: Seq<Vec<String>>,
    i: int,
)
    requires
        0 <= i < observed(w, ids, terms, sessions).0.live.len(),
    ensures
        ids.contains(observed(w, ids, terms, sessions).0.live[i].0),
        cwd_of(terms, observed(w, ids, terms, sessions).0.live[i].0, terms.len() as int) is Some,
{
    let t = tallied(start_of(w, ids, terms), ids, terms, sessions, ids.len() as int);
    lemma_kept(t.live, ids, terms, t.live.len() as int, i);
}

/// The folder name of a path's stored sessions: slashes, blanks and dots become dashes.
pub open spec fn encoded(cwd: Seq<char>) -> Seq<char> {
    Seq::new(
        cwd.len(),
        |i: int|
            if cwd[i] == '/' || cwd[i] == ' ' || cwd[i] == '.' {
                '-'
            } else {
                cwd[i]
            },
    )
}

/// The folder name of a path's stored sessions.
pub fn encode_cwd(cwd: &str) -> (r: String)
    ensures
        r@ == encoded(cwd@),
{
    let v = chars_of(cwd);
    let ghost want = encoded(cwd@);
    let mut out = String::new();
    let mut k: usize = 0;
    assert(out@ =~= want.take(0));
    while k < v.len()
        invariant
            k <= v@.len(),
            v@ == cwd@,
            want == encoded(cwd@),
            out@ == want.take(k as int),
        decreases v.len() - k,
    {
        let c = v[k];
        if c == '/' || c == ' ' || c == '.' {
            out.push('-');
        } else {
            out.push(c);
        }
        assert(want.take(k + 1) =~= want.take(k as int).push(want[k as int]));
        k = k + 1;
    }
    assert(want.take(k as int) =~= want);
    out
}

/// The id of a stored session by its file name, where it is one.
pub open spec fn id_of_file(name: Seq<char>) -> Option<Seq<char>> {
    if extension_of(name) == Some("jsonl"@) && name.len() >= 6 {
        Some(name.take(name.len() - 6))
    } else {
        None
    }
}

/// Where a session of a time goes among those ordered newest first.
pub open spec fn time_place(sorted: Seq<(u64, Seq<char>)>, time: u64, k: int) -> int
    decreases sorted.len() - k,
{
    if k < sorted.len() && sorted[k].0 >= time {
        time_place(sorted, time, k + 1)
    } else {
        k
    }
}

/// The stored sessions among the first `n` files, newest first; of one time in order.
pub open spec fn newest_first(files: Seq<(u64, String)>, n: int) -> Seq<(u64, Seq<char>)>
    decreases n,
{
    if n <= 0 {
        Seq::empty()
    } else {
        let rest = newest_first(files, n - 1);
        match id_of_file(files[n - 1].1@) {
            Some(id) => rest.insert(
                time_place(rest, files[n - 1].0, 0),
                (files[n - 1].0, id),
            ),
            None => rest,
        }
    }
}

/// The contents of files of sessions with their times.
pub open spec fn timed_views(v: Seq<(u64, String)>) -> Seq<(u64, Seq<char>)> {
    Seq::new(v.len(), |i: int| (v[i].0, v[i].1@))
}

/// The ids of the stored sessions of a folder, newest first, from its files with the times
/// at which they were last written.
pub fn session_ids(files: &Vec<(u64, String)>) -> (r: Vec<String>)
    ensures
        views(r@) == Seq::new(
            newest_first(files@, files@.len() as int).len(),
            |i: int| newest_first(files@, files@.len() as int)[i].1,
        ),
{
    let mut sorted: Vec<(u64, String)> = Vec::new();
    assert(timed_views(sorted@) =~= Seq::<(u64, Seq<char>)>::empty());
    let mut k: usize = 0;
    while k < files.len()
        invariant
            k <= files@.len(),
            timed_views(sorted@) == newest_first(files@, k as int),
        decreases files.len() - k,
    {
        let name = files[k].1.as_str();
        let time: u64 = files[k].0;
        let v = chars_of(name);
        let is_session = match extension(name) {
            Some(e) => same(e.as_str(), "jsonl"),
            None => false,
        };
        if is_session && v.len() >= 6 {
            let id = text_of(&v, 0, v.len() - 6);
            assert(name@.subrange(0, name@.len() - 6) =~= name@.take(name@.len() - 6));
            let ghost sv = timed_views(sorted@);
            let ghost iv = id@;
            let n: usize = sorted.len();
            let mut p: usize = 0;
            while p < n && sorted[p].0 >= time
                invariant
                    n == sorted@.len(),
                    p <= n,
                    sv == timed_views(sorted@),
                    time_place(sv, time, p as int) == time_place(sv, time, 0),
                decreases n - p,
            {
                assert(sv[p as int].0 == sorted@[p as int].0);
                p = p + 1;
            }
            proof {
                if p < n {
                    assert(sv[p as int].0 == sorted@[p as int].0);
                }
            }
            sorted.insert(p, (time, id));
            assert(timed_views(sorted@) =~= sv.insert(p as int, (time, iv)));
        }
        k = k + 1;
    }
    let ghost all = newest_first(files@, files@.len() as int);
    let ghost want = Seq::new(all.len(), |i: int| all[i].1);
    let mut out: Vec<String> = Vec::new();
    assert(views(out@) =~= want.take(0));
    let mut j: usize = 0;
    while j < sorted.len()
        invariant
            j <= sorted@.len(),
            all == timed_views(sorted@),
            want == Seq::new(all.len(), |i: int| all[i].1),
            views(out@) == want.take(j as int),
        decreases sorted.len() - j,
    {
        let ghost so_far = views(out@);
        out.push(sorted[j].1.as_str().to_owned());
        assert(views(out@) =~= so_far.push(want[j as int]));
        assert(want.take(j + 1) =~= want.take(j as int).push(want[j as int]));
        j = j + 1;
    }
    assert(want.take(j as int) =~= want);
    out
}

/// The time of the last start of the machine among the lines from the `k`-th on: the first
/// that tells it.
pub open spec fn boot_line(lines: Seq<Seq<char>>, k: int) -> Option<int>
    decreases lines.len() - k,
{
    if k < 0 || k >= lines.len() {
        None
    } else if begins(lines[k], "btime "@) && parsed_number(
        trimmed(lines[k].skip("btime "@.len() as int)),
        u64::MAX as int,
    ) is Some {
        parsed_number(trimmed(lines[k].skip("btime "@.len() as int)), u64::MAX as int)
    } else {
        boot_line(lines, k + 1)
    }
}

/// The time of the last start of the machine, from the statistics of the system.
pub fn boot_time(stat: &str) -> (r: Option<u64>)
    ensures
        match r {
            Some(t) => boot_line(bare_lines(stat@), 0) == Some(t as int),
            None => boot_line(bare_lines(stat@), 0) is None,
        },
{
    let lines = plain_lines(stat);
    let ghost lv = bare_lines(stat@);
    let mut k: usize = 0;
    while k < lines.len()
        invariant
            k <= lines@.len(),
            lv == views(lines@),
            lv == bare_lines(stat@),
            boot_line(lv, k as int) == boot_line(lv, 0),
        decreases lines.len() - k,
    {
        assert(lv[k as int] == lines@[k as int]@);
        if let Some(rest) = strip_prefix(lines[k].as_str(), "btime ") {
            let bare = trim(rest.as_str());
            if let Some(t) = parse_number(bare.as_str(), u64::MAX) {
                return Some(t);
            }
        }
        k = k + 1;
    }
    None
}

/// Where the digits from the `k`-th character on end.
pub open spec fn digits_end(s: Seq<char>, k: int) -> int
    decreases s.len() - k,
{
    if k < 0 || k >= s.len() || !is_digit(s[k]) {
        k
    } else {
        digits_end(s, k + 1)
    }
}

/// The time of the last start of the machine, from the record of the system's kernel: the
/// digits behind the first "sec = ".
pub open spec fn boot_record(text: Seq<char>) -> Option<int> {
    let k = place_of(text, "sec = "@, 0);
    if k >= text.len() {
        None
    } else {
        let from = k + "sec = "@.len();
        parsed_number(text.subrange(from, digits_end(text, from)), u64::MAX as int)
    }
}

/// The time of the last start of the machine, from the record of the system's kernel.
pub fn recorded_boot_time(text: &str) -> (r: Option<u64>)
    ensures
        match r {
            Some(t) => boot_record(text@) == Some(t as int),
            None => boot_record(text@) is None,
        },
{
    let v = chars_of(text);
    let n: usize = v.len();
    let k: usize = find_place(&v, "sec = ", 0);
    proof {
        lemma_place_of(v@, "sec = "@, 0);
        reveal_strlit("sec = ");
        assert("sec = "@.len() == 6);
    }
    if k >= n {
        return None;
    }
    let from: usize = k + 6;
    let mut end: usize = from;
    while end < n && '0' <= v[end] && v[end] <= '9'
        invariant
            from <= end <= n,
            n == v@.len(),
            digits_end(v@, end as int) == digits_end(v@, from as int),
        decreases n - end,
    {
        end = end + 1;
    }
    let digits = text_of(&v, from, end);
    parse_number(digits.as_str(), u64::MAX)
}

/// What is stored of a session.
pub open spec fn session_tree(s: SessionView) -> Tree {
    Tree::Obj(
        seq![
            ("cwd"@, Tree::Str(s.cwd)),
            (
                "sessionId"@,
                match s.session_id {
                    Some(id) => Tree::Str(id),
                    None => Tree::Null,
                },
            ),
        ],
    )
}

/// What is stored of a workspace.
pub open spec fn entry_tree(boot: Option<u64>, sessions: Seq<SessionView>) -> Tree {
    Tree::Obj(
        seq![
            (
                "boot"@,
                match boot {
                    Some(t) => Tree::Pos(t),
                    None => Tree::Null,
                },
            ),
            ("sessions"@, Tree::Arr(Seq::new(sessions.len(), |i: int| session_tree(sessions[i])))),
        ],
    )
}

/// The members that a store holds; none where it is no object.
pub open spec fn store_of(text: Option<Seq<char>>) -> Seq<(Seq<char>, Tree)> {
    match text {
        Some(t) => match read(t) {
            Some(Tree::Obj(m)) => m,
            _ => Seq::empty(),
        },
        None => Seq::empty(),
    }
}

/// The store with what is known of a workspace; what it holds of others stays.
pub open spec fn stored(
    m: Seq<(Seq<char>, Tree)>,
    workspace: Seq<char>,
    boot: Option<u64>,
    sessions: Seq<SessionView>,
) -> Tree {
    Tree::Obj(with_member(m, workspace, entry_tree(boot, sessions)))
}

/// The sessions of a list of the store, those among the first `n` with a folder.
pub open spec fn restorable(v: Seq<Tree>, n: int) -> Seq<SessionView>
    decreases n,
{
    if n <= 0 {
        Seq::empty()
    } else {
        let rest = restorable(v, n - 1);
        match v[n - 1].str_at("cwd"@) {
            Some(cwd) => if cwd.len() > 0 {
                rest.push(SessionView { cwd, session_id: v[n - 1].str_at("sessionId"@) })
            } else {
                rest
            },
            None => rest,
        }
    }
}

/// The sessions of a workspace that can be brought back.
pub open spec fn candidates(root: Option<Tree>, workspace: Seq<char>) -> Seq<SessionView> {
    let v = list_or_none(under(under(root, workspace), "sessions"@));
    restorable(v, v.len() as int)
}

/// The sessions among the first `n` that have a folder.
pub open spec fn with_folder(sessions: Seq<SessionView>, n: int) -> Seq<SessionView>
    decreases n,
{
    if n <= 0 {
        Seq::empty()
    } else if sessions[n - 1].cwd.len() > 0 {
        with_folder(sessions, n - 1).push(sessions[n - 1])
    } else {
        with_folder(sessions, n - 1)
    }
}

fn session_json(s: &LiveSession) -> (r: Json)
    ensures
        r@ == session_tree(s@),
{
    let mut b = ObjectBuilder::new();
    b.put_str("cwd", s.cwd.as_str());
    match &s.session_id {
        Some(id) => b.put_str("sessionId", id.as_str()),
        None => b.put("sessionId", Json::Null),
    }
    assert(b@ =~= session_tree(s@)->Obj_0);
    b.build()
}

fn entry_json(boot: Option<u64>, sessions: &Vec<LiveSession>) -> (r: Json)
    ensures
        r@ == entry_tree(boot, session_views(sessions@)),
{
    let ghost sv = session_views(sessions@);
    let ghost want = Seq::new(sv.len(), |i: int| session_tree(sv[i]));
    let mut v: Vec<Json> = Vec::new();
    assert(trees(v@) =~= want.take(0));
    let mut k: usize = 0;
    while k < sessions.len()
        invariant
            k <= sessions@.len(),
            sv == session_views(sessions@),
            want == Seq::new(sv.len(), |i: int| session_tree(sv[i])),
            trees(v@) == want.take(k as int),
        decreases sessions.len() - k,
    {
        let ghost so_far = trees(v@);
        let one = session_json(&sessions[k]);
        let ghost ov = one@;
        v.push(one);
        assert(trees(v@) =~= so_far.push(ov));
        assert(want.take(k + 1) =~= want.take(k as int).push(want[k as int]));
        k = k + 1;
    }
    assert(want.take(k as int) =~= want);
    let mut b = ObjectBuilder::new();
    match boot {
        Some(t) => b.put("boot", Json::Pos(t)),
        None => b.put("boot", Json::Null),
    }
    b.put("sessions", Json::list(v));
    assert(b@ =~= entry_tree(boot, sv)->Obj_0);
    b.build()
}

/// Whether a store can be read back, as every store can that was read.
pub open spec fn store_is_plain(m: Seq<(Seq<char>, Tree)>) -> bool {
    crate::json::plain(Tree::Obj(m), crate::json::MAX_DEPTH as int)
}

/// What a store is read as, if there is one.
pub open spec fn told(text: Option<Seq<char>>) -> Option<Tree> {
    match text {
        Some(t) => read(t),
        None => None,
    }
}

/// Whether a store gives back of every other workspace what it gave back before.
pub open spec fn keeps_others(before: Option<Tree>, after: Option<Tree>, workspace: Seq<char>) -> bool {
    forall|other: Seq<char>|
        other != workspace ==> #[trigger] candidates(after, other) == candidates(before, other)
}

/// What is written to the store, whose text is `None` where there is none. What is read back
/// are the sessions that have a folder, and those of other workspaces as they were before.
pub fn save(
    text: Option<&str>,
    workspace: &str,
    boot: Option<u64>,
    sessions: &Vec<LiveSession>,
) -> (r: String)
    ensures
        r@ == printed_pretty(
            stored(store_of(opt_text(text)), workspace@, boot, session_views(sessions@)),
        ),
        candidates(read(r@), workspace@) == with_folder(
            session_views(sessions@),
            sessions@.len() as int,
        ),
        keeps_others(told(opt_text(text)), read(r@), workspace@),
{
    let parsed = match text {
        Some(t) => parse(t),
        None => None,
    };
    let mut root: Vec<(String, Json)> = match parsed {
        Some(Json::Obj(m)) => {
            proof {
                assert(Json::Obj(m)@->Obj_0 =~= members(m@));
            }
            m
        },
        _ => {
            let none: Vec<(String, Json)> = Vec::new();
            assert(members(none@) =~= Seq::<(Seq<char>, Tree)>::empty());
            none
        },
    };
    let ghost m = store_of(opt_text(text));
    assert(members(root@) == m);
    let entry = entry_json(boot, sessions);
    set_member(&mut root, workspace, entry);
    let j = Json::object(root);
    let r = j.to_pretty();
    proof {
        assert(store_is_plain(m));
        assert(j@ == stored(m, workspace@, boot, session_views(sessions@)));
        lemma_read_back(m, workspace@, boot, session_views(sessions@), r@);
        lemma_others_read_back(opt_text(text), workspace@, boot, session_views(sessions@), r@);
    }
    r
}

proof fn lemma_entry_plain(boot: Option<u64>, sessions: Seq<SessionView>, depth: int)
    requires
        depth >= 3,
    ensures
        crate::json::plain(entry_tree(boot, sessions), depth),
{
    reveal_strlit("cwd");
    reveal_strlit("sessionId");
    reveal_strlit("boot");
    reveal_strlit("sessions");
    let e = entry_tree(boot, sessions)->Obj_0;
    let v = e[1].1->Arr_0;
    assert("cwd"@.len() == 3 && "sessionId"@.len() == 9 && "boot"@.len() == 4 && "sessions"@.len()
        == 8);
    assert forall|i: int| 0 <= i < v.len() implies crate::json::plain(#[trigger] v[i], depth - 2) by {
        let s = v[i]->Obj_0;
        assert forall|j: int| 0 <= j < s.len() implies crate::json::plain(
            (#[trigger] s[j]).1,
            depth - 3,
        ) by {}
    }
    assert forall|i: int| 0 <= i < e.len() implies crate::json::plain(
        (#[trigger] e[i]).1,
        depth - 1,
    ) by {}
}

proof fn lemma_session_member(s: SessionView)
    ensures
        session_tree(s).str_at("cwd"@) == Some(s.cwd),
        session_tree(s).str_at("sessionId"@) == s.session_id,
        session_tree(s)->Obj_0[0].0 != session_tree(s)->Obj_0[1].0,
{
    reveal_strlit("cwd");
    reveal_strlit("sessionId");
    let m = session_tree(s)->Obj_0;
    assert("cwd"@.len() == 3 && "sessionId"@.len() == 9);
    assert(m[0].0 == "cwd"@ && m[1].0 == "sessionId"@);
    assert(crate::json::member_from(m, "cwd"@, 0) == 0);
    assert(crate::json::member_from(m, "sessionId"@, 1) == 1);
    assert(crate::json::member_from(m, "sessionId"@, 0) == 1);
}

proof fn lemma_restorable(v: Seq<Tree>, sessions: Seq<SessionView>, n: int)
    requires
        0 <= n <= sessions.len(),
        v.len() == sessions.len(),
        forall|i: int|
            0 <= i < v.len() ==> crate::json::same_value(session_tree(sessions[i]), #[trigger] v[i])
                && crate::json::same_value(v[i], session_tree(sessions[i])),
    ensures
        restorable(v, n) == with_folder(sessions, n),
    decreases n,
{
    if n > 0 {
        lemma_restorable(v, sessions, n - 1);
        let s = sessions[n - 1];
        let t = session_tree(s);
        lemma_session_member(s);
        crate::json::lemma_same_member(t, v[n - 1], "cwd"@);
        crate::json::lemma_same_member(t, v[n - 1], "sessionId"@);
        assert(v[n - 1].str_at("cwd"@) == Some(s.cwd));
        assert(v[n - 1].str_at("sessionId"@) == s.session_id);
    }
}

proof fn lemma_stored_is_plain(
    m: Seq<(Seq<char>, Tree)>,
    workspace: Seq<char>,
    boot: Option<u64>,
    sessions: Seq<SessionView>,
)
    requires
        store_is_plain(m),
    ensures
        store_is_plain(stored(m, workspace, boot, sessions)->Obj_0),
        crate::json::distinct(stored(m, workspace, boot, sessions)->Obj_0),
{
    let w = stored(m, workspace, boot, sessions)->Obj_0;
    let depth = crate::json::MAX_DEPTH as int;
    lemma_entry_plain(boot, sessions, depth - 1);
    crate::json::lemma_set_member_is_plain(m, workspace, entry_tree(boot, sessions), depth);
    crate::json::lemma_plain_members(w, depth);
}

proof fn lemma_read_back(
    m: Seq<(Seq<char>, Tree)>,
    workspace: Seq<char>,
    boot: Option<u64>,
    sessions: Seq<SessionView>,
    text: Seq<char>,
)
    requires
        store_is_plain(m),
        crate::json::plain(stored(m, workspace, boot, sessions), crate::json::MAX_DEPTH as int)
            ==> crate::json::reads_as(text, stored(m, workspace, boot, sessions)),
    ensures
        candidates(read(text), workspace) == with_folder(sessions, sessions.len() as int),
{
    let root = stored(m, workspace, boot, sessions);
    let entry = entry_tree(boot, sessions);
    lemma_stored_is_plain(m, workspace, boot, sessions);
    lemma_entry_plain(boot, sessions, crate::json::MAX_DEPTH - 1);
    crate::json::lemma_plain_members(entry->Obj_0, crate::json::MAX_DEPTH - 1);
    let x = read(text)->0;
    crate::json::law_set_member_sets_only_it(m, workspace, entry, workspace);
    assert(root.get(workspace) == Some(entry));
    crate::json::lemma_same_member(root, x, workspace);
    lemma_same_back(root, x, workspace);
    let y = x.get(workspace)->0;
    crate::json::lemma_same_member(entry, y, "sessions"@);
    lemma_same_back(entry, y, "sessions"@);
    reveal_strlit("boot");
    reveal_strlit("sessions");
    let e = entry->Obj_0;
    assert("boot"@.len() == 4 && "sessions"@.len() == 8);
    assert(crate::json::member_from(e, "sessions"@, 1) == 1);
    assert(crate::json::member_from(e, "sessions"@, 0) == 1);
    let want = e[1].1->Arr_0;
    let v = y.get("sessions"@)->0->Arr_0;
    assert forall|i: int| 0 <= i < v.len() implies crate::json::same_value(
        session_tree(sessions[i]),
        #[trigger] v[i],
    ) && crate::json::same_value(v[i], session_tree(sessions[i])) by {
        assert(want[i] == session_tree(sessions[i]));
    }
    lemma_restorable(v, sessions, sessions.len() as int);
}

proof fn lemma_same_back(a: Tree, b: Tree, key: Seq<char>)
    requires
        crate::json::same_value(a, b),
        crate::json::same_value(b, a),
        a is Obj,
        a.get(key) is Some,
        b.get(key) is Some,
        forall|i: int, j: int|
            0 <= i < j < a->Obj_0.len() ==> #[trigger] a->Obj_0[i].0 != #[trigger] a->Obj_0[j].0,
    ensures
        crate::json::same_value(b.get(key)->0, a.get(key)->0),
{
    let m = a->Obj_0;
    let n = b->Obj_0;
    let l = crate::json::member_from(n, key, 0);
    crate::json::lemma_member_place(n, key);
    assert(n[l].0 == key);
}

proof fn lemma_same_text(a: Tree, b: Tree, key: Seq<char>, depth: int)
    requires
        crate::json::same_value(a, b),
        crate::json::same_value(b, a),
        crate::json::plain(a, depth),
    ensures
        a.str_at(key) == b.str_at(key),
{
    if let Tree::Obj(m) = a {
        crate::json::lemma_plain_members(m, depth);
    }
    crate::json::lemma_same_member(a, b, key);
    if a.get(key) is Some {
        lemma_same_back(a, b, key);
    }
}

proof fn lemma_same_restorable(u: Seq<Tree>, v: Seq<Tree>, depth: int, n: int)
    requires
        0 <= n <= u.len(),
        u.len() == v.len(),
        forall|i: int|
            0 <= i < u.len() ==> crate::json::plain(#[trigger] u[i], depth)
                && crate::json::same_value(u[i], v[i]) && crate::json::same_value(v[i], u[i]),
    ensures
        restorable(u, n) == restorable(v, n),
    decreases n,
{
    if n > 0 {
        lemma_same_restorable(u, v, depth, n - 1);
        assert(crate::json::plain(u[n - 1], depth));
        lemma_same_text(u[n - 1], v[n - 1], "cwd"@, depth);
        lemma_same_text(u[n - 1], v[n - 1], "sessionId"@, depth);
    }
}

/// Entries of a store that are the same give back the same sessions.
proof fn lemma_same_entry(a: Tree, b: Tree, depth: int)
    requires
        crate::json::same_value(a, b),
        crate::json::same_value(b, a),
        crate::json::plain(a, depth),
    ensures
        ({
            let u = list_or_none(under(Some(a), "sessions"@));
            let v = list_or_none(under(Some(b), "sessions"@));
            restorable(u, u.len() as int) == restorable(v, v.len() as int)
        }),
{
    let key = "sessions"@;
    if let Tree::Obj(m) = a {
        crate::json::lemma_plain_members(m, depth);
        crate::json::lemma_member_place(m, key);
    }
    crate::json::lemma_same_member(a, b, key);
    if a.get(key) is Some {
        lemma_same_back(a, b, key);
        let x = a.get(key)->0;
        let y = b.get(key)->0;
        assert(crate::json::plain(x, depth - 1));
        if let Tree::Arr(u) = x {
            let v = y->Arr_0;
            assert forall|i: int| 0 <= i < u.len() implies crate::json::plain(
                #[trigger] u[i],
                depth - 2,
            ) && crate::json::same_value(u[i], v[i]) && crate::json::same_value(v[i], u[i]) by {
                assert(crate::json::same_value(v[i], u[i]));
            }
            lemma_same_restorable(u, v, depth - 2, u.len() as int);
        }
    }
}

proof fn lemma_others_read_back(
    before: Option<Seq<char>>,
    workspace: Seq<char>,
    boot: Option<u64>,
    sessions: Seq<SessionView>,
    text: Seq<char>,
)
    requires
        store_is_plain(store_of(before)),
        store_is_plain(stored(store_of(before), workspace, boot, sessions)->Obj_0)
            ==> crate::json::reads_as(text, stored(store_of(before), workspace, boot, sessions)),
    ensures
        keeps_others(told(before), read(text), workspace),
        read(text) matches Some(Tree::Obj(_)),
{
    let m = store_of(before);
    let root = stored(m, workspace, boot, sessions);
    let entry = entry_tree(boot, sessions);
    lemma_stored_is_plain(m, workspace, boot, sessions);
    let x = read(text)->0;
    assert forall|other: Seq<char>| other != workspace implies #[trigger] candidates(
        read(text),
        other,
    ) == candidates(told(before), other) by {
        crate::json::law_set_member_sets_only_it(m, workspace, entry, other);
        assert(root.get(other) == Tree::Obj(m).get(other));
        assert(under(told(before), other) == Tree::Obj(m).get(other)) by {
            if !(told(before) matches Some(Tree::Obj(_))) {
                crate::json::lemma_member_place(m, other);
            }
        }
        crate::json::lemma_same_member(root, x, other);
        if root.get(other) is Some {
            lemma_same_back(root, x, other);
            crate::json::lemma_plain_members(root->Obj_0, crate::json::MAX_DEPTH as int);
            crate::json::lemma_member_place(root->Obj_0, other);
            lemma_same_entry(root.get(other)->0, x.get(other)->0, crate::json::MAX_DEPTH - 1);
        }
    }
}

/// The sessions of a workspace that can be brought back, from the text of the store.
pub fn load_candidates(text: &str, workspace: &str) -> (r: Vec<RestoreItem>)
    ensures
        item_views(r@) == candidates(read(text@), workspace@),
{
    match parse(text) {
        Some(root) => list_candidates(&root, workspace),
        None => {
            let none: Vec<RestoreItem> = Vec::new();
            assert(item_views(none@) =~= Seq::<SessionView>::empty());
            none
        },
    }
}

/// The sessions of a workspace that can be brought back, from the store.
pub fn list_candidates(root: &Json, workspace: &str) -> (r: Vec<RestoreItem>)
    ensures
        item_views(r@) == candidates(Some(root@), workspace@),
{
    let mut out: Vec<RestoreItem> = Vec::new();
    assert(item_views(out@) =~= Seq::<SessionView>::empty());
    if let Some(v) = get_list(under_key(root.get(workspace), "sessions")) {
        let ghost tv = trees(v@);
        let mut k: usize = 0;
        while k < v.len()
            invariant
                k <= v@.len(),
                tv == trees(v@),
                item_views(out@) == restorable(tv, k as int),
            decreases v.len() - k,
        {
            assert(tv[k as int] == v@[k as int]@);
            if let Some(cwd) = v[k].str_at("cwd") {
                if !cwd.is_empty() {
                    let item = RestoreItem {
                        cwd: cwd.to_owned(),
                        session_id: match v[k].str_at("sessionId") {
                            Some(s) => Some(s.to_owned()),
                            None => None,
                        },
                    };
                    let ghost so_far = item_views(out@);
                    let ghost iv = item@;
                    out.push(item);
                    assert(item_views(out@) =~= so_far.push(iv));
                }
            }
            k = k + 1;
        }
    }
    out
}

proof fn lemma_with_folder(sessions: Seq<SessionView>, n: int)
    requires
        0 <= n <= sessions.len(),
        forall|i: int| 0 <= i < sessions.len() ==> (#[trigger] sessions[i]).cwd.len() > 0,
    ensures
        with_folder(sessions, n) == sessions.take(n),
    decreases n,
{
    if n > 0 {
        lemma_with_folder(sessions, n - 1);
        assert(sessions.take(n) =~= sessions.take(n - 1).push(sessions[n - 1]));
    } else {
        assert(sessions.take(0) =~= Seq::<SessionView>::empty());
    }
}

/// Sessions that were saved for a workspace, each with a folder, are all given back, in order,
/// however often other workspaces were saved since. `texts` are the texts of the store, from
/// the one that was written for the workspace on, and `saved` the workspaces that were saved
/// between them.
pub proof fn law_sessions_survive_other_saves(
    texts: Seq<Seq<char>>,
    saved: Seq<Seq<char>>,
    workspace: Seq<char>,
    sessions: Seq<SessionView>,
)
    requires
        texts.len() == saved.len() + 1,
        candidates(read(texts[0]), workspace) == with_folder(sessions, sessions.len() as int),
        forall|i: int| 0 <= i < sessions.len() ==> (#[trigger] sessions[i]).cwd.len() > 0,
        forall|i: int|
            0 <= i < saved.len() ==> #[trigger] saved[i] != workspace && keeps_others(
                read(texts[i]),
                read(texts[i + 1]),
                saved[i],
            ),
    ensures
        candidates(read(texts.last()), workspace) == sessions,
    decreases saved.len(),
{
    if saved.len() == 0 {
        lemma_with_folder(sessions, sessions.len() as int);
        assert(sessions.take(sessions.len() as int) =~= sessions);
    } else {
        let n = saved.len() - 1;
        assert(saved.drop_last().len() == n);
        assert forall|i: int| 0 <= i < n implies #[trigger] saved.drop_last()[i] != workspace
            && keeps_others(
            read(texts.drop_last()[i]),
            read(texts.drop_last()[i + 1]),
            saved.drop_last()[i],
        ) by {
            assert(saved[i] != workspace);
        }
        law_sessions_survive_other_saves(texts.drop_last(), saved.drop_last(), workspace, sessions);
        assert(saved[n] != workspace);
        assert(texts.drop_last().last() == texts[n]);
        assert(candidates(read(texts[n + 1]), workspace) == candidates(read(texts[n]), workspace));
    }
}

/// Storing the sessions of one workspace keeps what is stored of every other.
pub proof fn law_store_keeps_other_workspaces(
    m: Seq<(Seq<char>, Tree)>,
    workspace: Seq<char>,
    boot: Option<u64>,
    sessions: Seq<SessionView>,
    other: Seq<char>,
)
    requires
        other != workspace,
    ensures
        candidates(Some(stored(m, workspace, boot, sessions)), other) == candidates(
            Some(Tree::Obj(m)),
            other,
        ),
{
    crate::json::law_set_member_sets_only_it(m, workspace, entry_tree(boot, sessions), other);
}

/// Every terminal in which a session runs, and whose folder is known, is watched in that folder.
pub proof fn law_running_sessions_are_watched(
    w: WatcherView,
    ids: Seq<u64>,
    terms: Seq<(u64, String)>,
    sessions: Seq<Vec<String>>,
    i: int,
    cwd: Seq<char>,
)
    requires
        0 <= i < ids.len(),
        cwd_of(terms, ids[i], terms.len() as int) == Some(cwd),
    ensures
        exists|k: int|
            0 <= k < observed(w, ids, terms, sessions).0.live.len() && (#[trigger] observed(
                w,
                ids,
                terms,
                sessions,
            ).0.live[k]).0 == ids[i] && observed(w, ids, terms, sessions).0.live[k].1.cwd == cwd,
{
    let n = ids.len() as int;
    let t = tallied(start_of(w, ids, terms), ids, terms, sessions, n);
    let live = t.live;
    let left = kept(live, ids, terms, live.len() as int);
    lemma_tallied_settles(start_of(w, ids, terms), ids, terms, sessions, n);
    assert(ids.contains(ids[i]));
    let k = lemma_kept_first(live, ids, terms, ids[i], live.len() as int);
    lemma_pane_at(live, ids[i], 0);
    assert(left[k].0 == ids[i]);
    assert(observed(w, ids, terms, sessions).0.live == left);
}

/// A terminal's folder is the last that is told of it.
pub proof fn law_folders_of_terminals(terms: Seq<(u64, String)>, id: u64, n: int, k: int)
    requires
        0 <= k < n <= terms.len(),
        terms[k].0 == id,
        forall|j: int| k < j < n ==> (#[trigger] terms[j]).0 != id,
    ensures
        cwd_of(terms, id, n) == Some(terms[k].1@),
    decreases n,
{
    if k < n - 1 {
        assert(terms[n - 1].0 != id);
        law_folders_of_terminals(terms, id, n - 1, k);
    }
}

/// Two sessions that start in one folder are taken for its newest and its second newest; one in a
/// folder without any is watched without a session.
pub proof fn law_new_sessions_are_the_newest(
    workspace: Seq<char>,
    a: u64,
    b: u64,
    terms: Seq<(u64, String)>,
    cwd: Seq<char>,
    files: Vec<String>,
    none: Vec<String>,
)
    requires
        a != b,
        cwd_of(terms, a, terms.len() as int) == Some(cwd),
        cwd_of(terms, b, terms.len() as int) == Some(cwd),
        files@.len() >= 2,
        files@[0]@ != files@[1]@,
        none@.len() == 0,
    ensures
        observed(
            WatcherView { workspace, live: Seq::empty(), dirty: false },
            seq![a, b],
            terms,
            seq![files, files],
        ) == (
            WatcherView {
                workspace,
                live: seq![
                    (a, SessionView { cwd, session_id: Some(files@[0]@) }),
                    (b, SessionView { cwd, session_id: Some(files@[1]@) }),
                ],
                dirty: false,
            },
            true,
        ),
        observed(
            WatcherView { workspace, live: Seq::empty(), dirty: false },
            seq![a],
            terms,
            seq![none],
        ).0.live == seq![(a, SessionView { cwd, session_id: None })],
{
    let w = WatcherView { workspace, live: Seq::empty(), dirty: false };
    let ids = seq![a, b];
    let sessions = seq![files, files];
    let s0 = start_of(w, ids, terms);
    let names = views(files@);
    assert(names[0] == files@[0]@ && names[1] == files@[1]@);
    assert(s0.taken =~= Seq::<(Seq<char>, Seq<char>)>::empty());
    assert(!s0.taken.contains((cwd, names[0])));
    assert(first_free(names, cwd, s0.taken, 0) == Some(names[0]));
    let one = (a, SessionView { cwd, session_id: Some(names[0]) });
    let two = (b, SessionView { cwd, session_id: Some(names[1]) });
    let t1 = tallied(s0, ids, terms, sessions, 1);
    assert(tallied(s0, ids, terms, sessions, 0) == s0);
    assert(ids[0] == a && ids[1] == b);
    assert(views(sessions[0]@) == names);
    assert(pane_at(s0.live, a, 0) == 0);
    assert(t1.live =~= seq![one]);
    assert(t1.taken =~= seq![(cwd, names[0])]);
    assert(t1.taken.contains((cwd, names[0]))) by {
        assert(t1.taken[0] == (cwd, names[0]));
    }
    assert(!t1.taken.contains((cwd, names[1])));
    assert(first_free(names, cwd, t1.taken, 1) == Some(names[1]));
    assert(first_free(names, cwd, t1.taken, 0) == Some(names[1]));
    assert(pane_at(t1.live, b, 1) == 1);
    assert(pane_at(t1.live, b, 0) == 1);
    let t2 = tallied(s0, ids, terms, sessions, 2);
    assert(views(sessions[1]@) == names);
    assert(t2.live =~= seq![one, two]);
    assert(ids.contains(a)) by {
        assert(ids[0] == a);
    }
    assert(ids.contains(b)) by {
        assert(ids[1] == b);
    }
    assert(kept(t2.live, ids, terms, 0) =~= Seq::<(u64, SessionView)>::empty());
    assert(kept(t2.live, ids, terms, 1) =~= seq![one]);
    assert(kept(t2.live, ids, terms, 2) =~= seq![one, two]);
    let ids1 = seq![a];
    let empty = seq![none];
    let e0 = start_of(w, ids1, terms);
    let e1 = tallied(e0, ids1, terms, empty, 1);
    assert(tallied(e0, ids1, terms, empty, 0) == e0);
    assert(pane_at(e0.live, a, 0) == 0);
    let lone = (a, SessionView { cwd, session_id: None });
    assert(views(empty[0]@).len() == 0);
    assert(e1.live =~= seq![lone]);
    assert(ids1.contains(a)) by {
        assert(ids1[0] == a);
    }
    assert(kept(e1.live, ids1, terms, 0) =~= Seq::<(u64, SessionView)>::empty());
    assert(kept(e1.live, ids1, terms, 1) =~= seq![lone]);
}

proof fn lemma_time_place(sorted: Seq<(u64, Seq<char>)>, time: u64, k: int)
    requires
        0 <= k <= sorted.len(),
    ensures
        k <= time_place(sorted, time, k) <= sorted.len(),
        forall|j: int| k <= j < time_place(sorted, time, k) ==> (#[trigger] sorted[j]).0 >= time,
        time_place(sorted, time, k) < sorted.len() ==> sorted[time_place(sorted, time, k)].0 < time,
    decreases sorted.len() - k,
{
    if k < sorted.len() && sorted[k].0 >= time {
        lemma_time_place(sorted, time, k + 1);
    }
}

/// The sessions of a folder are its files that end in `jsonl`, by their names without that, the one
/// changed last in front.
pub proof fn law_sessions_are_told_newest_first(files: Seq<(u64, String)>, n: int)
    requires
        0 <= n <= files.len(),
    ensures
        newest_first(files, n).len() <= n,
        forall|i: int, j: int|
            0 <= i < j < newest_first(files, n).len() ==> (#[trigger] newest_first(files, n)[i]).0 >= (
            #[trigger] newest_first(files, n)[j]).0,
        forall|i: int|
            0 <= i < n && id_of_file((#[trigger] files[i]).1@) is Some ==> newest_first(
                files,
                n,
            ).contains((files[i].0, id_of_file(files[i].1@)->0)),
    decreases n,
{
    if n > 0 {
        law_sessions_are_told_newest_first(files, n - 1);
        let rest = newest_first(files, n - 1);
        let all = newest_first(files, n);
        let (time, name) = files[n - 1];
        if id_of_file(name@) is Some {
            let p = time_place(rest, time, 0);
            lemma_time_place(rest, time, 0);
            let own = (time, id_of_file(name@)->0);
            assert(all == rest.insert(p, own));
            assert forall|i: int, j: int| 0 <= i < j < all.len() implies (#[trigger] all[i]).0 >= (
            #[trigger] all[j]).0 by {
                let a = if i < p { i } else { i - 1 };
                let b = if j < p { j } else { j - 1 };
                if i != p && j != p {
                    assert(all[i] == rest[a] && all[j] == rest[b]);
                } else if j == p {
                    assert(all[i] == rest[i]);
                } else {
                    assert(all[j] == rest[j - 1]);
                    if j - 1 > p {
                        assert(rest[p].0 >= rest[j - 1].0);
                    }
                }
            }
            assert forall|i: int| 0 <= i < n && id_of_file((#[trigger] files[i]).1@) is Some implies all.contains(
                (files[i].0, id_of_file(files[i].1@)->0),
            ) by {
                if i == n - 1 {
                    assert(all[p] == own);
                } else {
                    let e = (files[i].0, id_of_file(files[i].1@)->0);
                    let k = choose|k: int| 0 <= k < rest.len() && rest[k] == e;
                    if k < p {
                        assert(all[k] == e);
                    } else {
                        assert(all[k + 1] == e);
                    }
                }
            }
        }
    }
}

/// The file of a session is named after it.
pub proof fn law_sessions_are_named_by_their_files(id: Seq<char>)
    requires
        id.len() > 0,
        !id.contains('/'),
    ensures
        id_of_file(id + ".jsonl"@) == Some(id),
{
    reveal_strlit("jsonl");
    reveal_strlit(".jsonl");
    let name = id + ".jsonl"@;
    assert(name =~= id.push('.') + "jsonl"@);
    assert(!"jsonl"@.contains('/'));
    assert(!"jsonl"@.contains('.'));
    crate::paths::law_endings_follow_the_last_dot(id, "jsonl"@);
    assert(name.take(name.len() - 6) =~= id);
}

/// The name of a folder's store is its path with slashes, blanks and dots made hyphens, and has as
/// many characters.
pub proof fn law_stores_are_named_after_folders(cwd: Seq<char>, i: int)
    requires
        0 <= i < cwd.len(),
    ensures
        encoded(cwd).len() == cwd.len(),
        !encoded(cwd).contains('/'),
        !encoded(cwd).contains(' '),
        !encoded(cwd).contains('.'),
        cwd[i] != '/' && cwd[i] != ' ' && cwd[i] != '.' ==> encoded(cwd)[i] == cwd[i],
        cwd[i] == '/' || cwd[i] == ' ' || cwd[i] == '.' ==> encoded(cwd)[i] == '-',
{
}

proof fn lemma_digits_end(a: Seq<char>, d: Seq<char>, rest: Seq<char>, k: int)
    requires
        0 <= k <= d.len(),
        forall|i: int| 0 <= i < d.len() ==> is_digit(#[trigger] d[i]),
        rest.len() == 0 || !is_digit(rest[0]),
    ensures
        digits_end(a + d + rest, a.len() + k) == a.len() + d.len(),
    decreases d.len() - k,
{
    let s = a + d + rest;
    if k < d.len() {
        assert(s[a.len() + k] == d[k]);
        lemma_digits_end(a, d, rest, k + 1);
    } else if rest.len() > 0 {
        assert(s[a.len() as int + d.len()] == rest[0]);
    }
}

/// The time of the last start is the number behind the first `sec = ` of the record.
pub proof fn law_start_is_read_from_the_record(a: Seq<char>, n: u64, rest: Seq<char>)
    requires
        place_of(a + "sec = "@ + crate::text::decimal(n as nat) + rest, "sec = "@, 0) == a.len(),
        rest.len() == 0 || !is_digit(rest[0]),
    ensures
        boot_record(a + "sec = "@ + crate::text::decimal(n as nat) + rest) == Some(n as int),
{
    reveal_strlit("sec = ");
    crate::text::law_decimal_is_read_back(n as nat, u64::MAX as int);
    let front = a + "sec = "@;
    let d = crate::text::decimal(n as nat);
    let text = front + d + rest;
    assert(text =~= a + "sec = "@ + d + rest);
    assert forall|i: int| 0 <= i < d.len() implies is_digit(#[trigger] d[i]) by {
        assert(crate::text::all_digits(d));
    }
    lemma_digits_end(front, d, rest, 0);
    assert(text.subrange(front.len() as int, front.len() as int + d.len()) =~= d);
}

/// The time of the last start is that of the first line that tells it with a number.
pub proof fn law_start_is_read_from_its_line(lines: Seq<Seq<char>>, k: int, at: int, n: u64)
    requires
        0 <= k <= at < lines.len(),
        forall|j: int| k <= j < at ==> !begins(#[trigger] lines[j], "btime "@),
        lines[at] == "btime "@ + crate::text::decimal(n as nat),
    ensures
        boot_line(lines, k) == Some(n as int),
    decreases at - k,
{
    if k < at {
        assert(!begins(lines[k], "btime "@));
        law_start_is_read_from_its_line(lines, k + 1, at, n);
    } else {
        reveal_strlit("btime ");
        let d = crate::text::decimal(n as nat);
        let line = lines[at];
        crate::text::law_decimal_is_read_back(n as nat, u64::MAX as int);
        assert(line.subrange(0, 6) =~= "btime "@);
        assert(line.skip(6) =~= d);
        assert(crate::text::all_digits(d));
        assert(is_digit(d[0]) && is_digit(d[d.len() - 1]));
        crate::text::law_trimming_takes_white_space_only(d);
        let (a, b) = choose|a: Seq<char>, b: Seq<char>|
            crate::text::is_blank(a) && crate::text::is_blank(b) && d == #[trigger] (a + trimmed(d)
                + b);
        if a.len() > 0 {
            assert(crate::text::is_white(a[0]));
            assert(d[0] == a[0]);
        }
        if b.len() > 0 {
            assert(crate::text::is_white(b[b.len() - 1]));
            assert(d[d.len() - 1] == b[b.len() - 1]);
        }
        assert(trimmed(d) =~= d);
    }
}

} // verus!
