//! The bridge from an agent's standard input and output to a running window: which window
//! is meant, and when an exchange is over.
use vstd::prelude::*;

use crate::json::get_list;
use crate::json::list_or_none;
use crate::json::parse;
use crate::json::read;
use crate::json::trees;
use crate::json::Json;
use crate::json::Tree;
use crate::mcp::discovery::lock_name;
use crate::mcp::discovery::lock_tells;
use crate::paths::base_name;
use crate::paths::extension;
use crate::paths::extension_of;
use crate::paths::file_name;
use crate::paths::is_under;
use crate::paths::joined_path;
use crate::paths::law_joined_name_is_last;
use crate::paths::starts_with;
use crate::text::add_bytes;
use crate::text::byte_count;
use crate::text::capped;
use crate::text::chars_of;
use crate::text::decimal;
use crate::text::is_digit;
use crate::text::law_decimal_is_read_back;
use crate::text::parse_number;
use crate::text::parsed_number;
use crate::text::same;
use crate::text::text_of;

verus! {

/// Whether a message has an id that is not null.
pub open spec fn has_id(t: Tree) -> bool {
    match t.get("id"@) {
        Some(id) => id != Tree::Null,
        None => false,
    }
}

fn carries_id(j: &Json) -> (r: bool)
    ensures
        r == has_id(j@),
{
    match j.get("id") {
        Some(id) => match id {
            Json::Null => false,
            _ => true,
        },
        None => false,
    }
}

/// Whether a line of the agent is a request, which an answer is awaited for.
pub fn is_request(line: &str) -> (r: bool)
    ensures
        r == (match read(line@) {
            Some(t) => has_id(t),
            None => false,
        }),
{
    match parse(line) {
        Some(j) => carries_id(&j),
        None => false,
    }
}

/// Whether a message of the window ends the exchange: it is the answer, or no message.
pub fn ends_turn(line: &str) -> (r: bool)
    ensures
        r == (match read(line@) {
            Some(t) => has_id(t),
            None => true,
        }),
{
    match parse(line) {
        Some(j) => carries_id(&j),
        None => true,
    }
}

/// A lock file: its path and its text.
pub struct LockFile {
    pub path: String,
    pub text: String,
}

/// The last component without its extension.
pub open spec fn stem_of(p: Seq<char>) -> Option<Seq<char>> {
    match base_name(p) {
        Some(n) => {
            let k = crate::paths::last_char(n, '.', n.len() as int);
            if k > 0 {
                Some(n.subrange(0, k))
            } else {
                Some(n)
            }
        },
        None => None,
    }
}

/// The port that a lock file is named after.
pub open spec fn port_of(path: Seq<char>) -> Option<int> {
    match stem_of(path) {
        Some(s) => parsed_number(s, 65535),
        None => None,
    }
}

/// The port that a lock file is named after.
pub fn lock_port(path: &str) -> (r: Option<u16>)
    ensures
        match r {
            Some(p) => port_of(path@) == Some(p as int),
            None => port_of(path@) is None,
        },
{
    match file_name(path) {
        Some(name) => {
            let v = chars_of(name.as_str());
            let n: usize = v.len();
            let mut k: usize = n;
            while k > 0 && v[k - 1] != '.'
                invariant
                    n == v@.len(),
                    k <= n,
                    crate::paths::last_char(v@, '.', k as int) == crate::paths::last_char(
                        v@,
                        '.',
                        n as int,
                    ),
                decreases k,
            {
                k = k - 1;
            }
            let end: usize = if k > 1 {
                k - 1
            } else {
                n
            };
            let stem = text_of(&v, 0, end);
            assert(stem_of(path@)->0 =~= stem@);
            match parse_number(stem.as_str(), 65535) {
                Some(p) => Some(p as u16),
                None => None,
            }
        },
        None => None,
    }
}

/// What a lock file of ours offers: the port, the token and the folders.
pub struct Offer {
    pub port: int,
    pub token: Seq<char>,
    pub folders: Seq<Tree>,
}

/// What a lock file offers; none where it is not one of ours.
pub open spec fn offer_of(path: Seq<char>, text: Seq<char>) -> Option<Offer> {
    if extension_of(path) != Some("lock"@) {
        None
    } else {
        match read(text) {
            Some(t) => if t.str_at("ideName"@) == Some("Aether"@) && port_of(path) is Some
                && t.str_at("authToken"@) is Some {
                Some(
                    Offer {
                        port: port_of(path)->0,
                        token: t.str_at("authToken"@)->0,
                        folders: list_or_none(t.get("workspaceFolders"@)),
                    },
                )
            } else {
                None
            },
            None => None,
        }
    }
}

/// The best match so far: its length in bytes, the port and the token.
pub type Best = Option<(usize, int, Seq<char>)>;

/// The length of a folder in bytes.
pub open spec fn folder_len(ws: Seq<char>) -> usize {
    capped(byte_count(ws))
}

/// The best match after the first `k` folders of a window.
pub open spec fn best_folder(best: Best, o: Offer, cwd: Seq<char>, k: int) -> Best
    decreases k,
{
    if k <= 0 {
        best
    } else {
        let b = best_folder(best, o, cwd, k - 1);
        match o.folders[k - 1] {
            Tree::Str(ws) => if is_under(cwd, ws) && (b is None || folder_len(ws) > (b->0).0) {
                Some((folder_len(ws), o.port, o.token))
            } else {
                b
            },
            _ => b,
        }
    }
}

/// The best match and the first window after the first `k` lock files.
pub open spec fn searched(locks: Seq<LockFile>, cwd: Seq<char>, k: int) -> (
    Best,
    Option<(int, Seq<char>)>,
)
    decreases k,
{
    if k <= 0 {
        (None, None)
    } else {
        let (best, first) = searched(locks, cwd, k - 1);
        match offer_of(locks[k - 1].path@, locks[k - 1].text@) {
            Some(o) => (
                best_folder(best, o, cwd, o.folders.len() as int),
                if first is None {
                    Some((o.port, o.token))
                } else {
                    first
                },
            ),
            None => (best, first),
        }
    }
}

/// The window for a directory: the one with the longest folder that holds it, else the
/// first one there is.
pub open spec fn chosen(locks: Seq<LockFile>, cwd: Seq<char>) -> Option<(int, Seq<char>)> {
    let (best, first) = searched(locks, cwd, locks.len() as int);
    match best {
        Some((_, port, token)) => Some((port, token)),
        None => first,
    }
}

spec fn best_view(b: Option<(usize, u16, String)>) -> Best {
    match b {
        Some((l, p, t)) => Some((l, p as int, t@)),
        None => None,
    }
}

spec fn pick_view(b: Option<(u16, String)>) -> Option<(int, Seq<char>)> {
    match b {
        Some((p, t)) => Some((p as int, t@)),
        None => None,
    }
}

/// Finds the running window for a directory: the one with the longest folder that holds
/// it, else the first one there is.
pub fn find_server(locks: &Vec<LockFile>, cwd: &str) -> (r: Option<(u16, String)>)
    ensures
        match r {
            Some((port, token)) => chosen(locks@, cwd@) == Some((port as int, token@)),
            None => chosen(locks@, cwd@) is None,
        },
{
    let mut first: Option<(u16, String)> = None;
    let mut best: Option<(usize, u16, String)> = None;
    let mut k: usize = 0;
    while k < locks.len()
        invariant
            k <= locks@.len(),
            (best_view(best), pick_view(first)) == searched(locks@, cwd@, k as int),
        decreases locks.len() - k,
    {
        let lock = &locks[k];
        let is_lock = match extension(lock.path.as_str()) {
            Some(e) => same(e.as_str(), "lock"),
            None => false,
        };
        if is_lock {
            if let Some(j) = parse(lock.text.as_str()) {
                let ours = match j.str_at("ideName") {
                    Some(n) => same(n, "Aether"),
                    None => false,
                };
                if ours {
                    if let Some(port) = lock_port(lock.path.as_str()) {
                        if let Some(token) = j.str_at("authToken") {
                            let ghost o = offer_of(lock.path@, lock.text@)->0;
                            if first.is_none() {
                                first = Some((port, token.to_owned()));
                            }
                            match get_list(j.get("workspaceFolders")) {
                                Some(folders) => {
                                    best = match_folders(best, folders, port, token, cwd, Ghost(o));
                                },
                                None => {},
                            }
                        }
                    }
                }
            }
        }
        k = k + 1;
    }
    match best {
        Some((_, port, token)) => Some((port, token)),
        None => first,
    }
}

fn match_folders(
    start: Option<(usize, u16, String)>,
    folders: &Vec<Json>,
    port: u16,
    token: &str,
    cwd: &str,
    Ghost(o): Ghost<Offer>,
) -> (r: Option<(usize, u16, String)>)
    requires
        o.port == port,
        o.token == token@,
        o.folders == trees(folders@),
    ensures
        best_view(r) == best_folder(best_view(start), o, cwd@, folders@.len() as int),
{
    let ghost b0 = best_view(start);
    let mut best = start;
    let mut k: usize = 0;
    while k < folders.len()
        invariant
            k <= folders@.len(),
            o.port == port,
            o.token == token@,
            o.folders == trees(folders@),
            best_view(best) == best_folder(b0, o, cwd@, k as int),
        decreases folders.len() - k,
    {
        assert(o.folders[k as int] == folders@[k as int]@);
        if let Json::Str(ws) = &folders[k] {
            if starts_with(cwd, ws.as_str()) {
                let len: usize = add_bytes(0, ws.as_str());
                let better = match &best {
                    Some((l, _, _)) => len > *l,
                    None => true,
                };
                if better {
                    best = Some((len, port, token.to_owned()));
                }
            }
        }
        k = k + 1;
    }
    best
}

/// Whether one of the first `k` folders of a window holds the directory and is `len` bytes
/// long.
pub open spec fn holds_with(o: Offer, cwd: Seq<char>, k: int, len: usize) -> bool {
    exists|i: int|
        0 <= i < k && (#[trigger] o.folders[i]) is Str && is_under(cwd, o.folders[i]->Str_0)
            && folder_len(o.folders[i]->Str_0) == len
}

proof fn lemma_best_folder(best: Best, o: Offer, cwd: Seq<char>, k: int)
    requires
        0 <= k <= o.folders.len(),
    ensures
        ({
            let b = best_folder(best, o, cwd, k);
            &&& best is Some ==> b is Some && (b->0).0 >= (best->0).0
            &&& forall|i: int|
                0 <= i < k && (#[trigger] o.folders[i]) is Str && is_under(
                    cwd,
                    o.folders[i]->Str_0,
                ) ==> b is Some && (b->0).0 >= folder_len(o.folders[i]->Str_0)
            &&& b == best || (b is Some && (b->0).1 == o.port && (b->0).2 == o.token && holds_with(
                o,
                cwd,
                k,
                (b->0).0,
            ))
        }),
    decreases k,
{
    if k > 0 {
        lemma_best_folder(best, o, cwd, k - 1);
        let b = best_folder(best, o, cwd, k - 1);
        let f = o.folders[k - 1];
        let after = best_folder(best, o, cwd, k);
        if after != best {
            if after == b {
                let i = choose|i: int|
                    0 <= i < k - 1 && (#[trigger] o.folders[i]) is Str && is_under(
                        cwd,
                        o.folders[i]->Str_0,
                    ) && folder_len(o.folders[i]->Str_0) == (b->0).0;
                assert(o.folders[i] is Str);
                assert(holds_with(o, cwd, k, (after->0).0));
            } else {
                assert(o.folders[k - 1] is Str);
                assert(holds_with(o, cwd, k, (after->0).0));
            }
        }
    }
}

proof fn lemma_searched(locks: Seq<LockFile>, cwd: Seq<char>, k: int, j: int, i: int)
    requires
        0 <= j < k <= locks.len(),
        offer_of(locks[j].path@, locks[j].text@) matches Some(o) && 0 <= i < o.folders.len()
            && o.folders[i] is Str && is_under(cwd, o.folders[i]->Str_0),
    ensures
        ({
            let o = offer_of(locks[j].path@, locks[j].text@)->0;
            let best = searched(locks, cwd, k).0;
            best is Some && (best->0).0 >= folder_len(o.folders[i]->Str_0)
        }),
    decreases k,
{
    let (best, first) = searched(locks, cwd, k - 1);
    if j < k - 1 {
        lemma_searched(locks, cwd, k - 1, j, i);
    }
    match offer_of(locks[k - 1].path@, locks[k - 1].text@) {
        Some(o) => {
            lemma_best_folder(best, o, cwd, o.folders.len() as int);
        },
        None => {},
    }
}

/// Where some window has a folder that holds the directory, one is found, and no folder
/// that holds the directory is longer than the one it was found by.
pub proof fn law_longest_folder_wins(locks: Seq<LockFile>, cwd: Seq<char>, j: int, i: int)
    requires
        0 <= j < locks.len(),
        offer_of(locks[j].path@, locks[j].text@) matches Some(o) && 0 <= i < o.folders.len()
            && o.folders[i] is Str && is_under(cwd, o.folders[i]->Str_0),
    ensures
        ({
            let o = offer_of(locks[j].path@, locks[j].text@)->0;
            let best = searched(locks, cwd, locks.len() as int).0;
            &&& best is Some
            &&& chosen(locks, cwd) == Some(((best->0).1, (best->0).2))
            &&& (best->0).0 >= folder_len(o.folders[i]->Str_0)
        }),
{
    lemma_searched(locks, cwd, locks.len() as int, j, i);
}

/// The lock file that a window writes is named so that a client finds the port, in whatever
/// folder it lies.
pub proof fn law_lock_is_named_after_its_port(dir: Seq<char>, port: u16)
    ensures
        port_of(joined_path(dir, lock_name(port))) == Some(port as int),
        extension_of(joined_path(dir, lock_name(port))) == Some("lock"@),
{
    reveal_strlit(".lock");
    reveal_strlit("lock");
    reveal_strlit(".");
    reveal_strlit("..");
    let name = lock_name(port);
    let d = decimal(port as nat);
    law_decimal_is_read_back(port as nat, 65535);
    assert(d.len() > 0);
    assert(name.len() == d.len() + 5);
    assert forall|j: int| 0 <= j < name.len() implies name[j] != '/' by {
        if j < d.len() {
            assert(is_digit(d[j]));
        } else {
            assert(name[j] == ".lock"@[j - d.len()]);
        }
    }
    law_joined_name_is_last(dir, name);
    let n = name.len() as int;
    assert(name[n - 1] == ".lock"@[4] && name[n - 2] == ".lock"@[3] && name[n - 3] == ".lock"@[2]
        && name[n - 4] == ".lock"@[1] && name[n - 5] == ".lock"@[0]);
    reveal_with_fuel(crate::paths::last_char, 6);
    assert(crate::paths::last_char(name, '.', n) == n - 5);
    assert(name.subrange(0, n - 5) =~= d);
    assert(name.subrange(n - 4, n) =~= "lock"@);
}

/// A window that has written its lock file is found: alone, from every directory; among others,
/// some window always is.
pub proof fn law_window_is_found(
    dir: Seq<char>,
    port: u16,
    token: Seq<char>,
    folders: Seq<Tree>,
    locks: Seq<LockFile>,
    k: int,
    cwd: Seq<char>,
)
    requires
        0 <= k < locks.len(),
        locks[k].path@ == joined_path(dir, lock_name(port)),
        lock_tells(locks[k].text@, token, folders),
    ensures
        chosen(locks, cwd) is Some,
        locks.len() == 1 ==> chosen(locks, cwd) == Some((port as int, token)),
{
    law_lock_is_named_after_its_port(dir, port);
    let o = offer_of(locks[k].path@, locks[k].text@);
    assert(o is Some && o->0.port == port && o->0.token == token);
    lemma_found_stays(locks, cwd, k + 1, locks.len() as int);
    if locks.len() == 1 {
        reveal_with_fuel(searched, 2);
        lemma_best_is_of_offer(o->0, cwd, o->0.folders.len() as int);
    }
}

proof fn lemma_found_stays(locks: Seq<LockFile>, cwd: Seq<char>, k: int, n: int)
    requires
        0 < k <= n <= locks.len(),
        offer_of(locks[k - 1].path@, locks[k - 1].text@) is Some,
    ensures
        searched(locks, cwd, n).1 is Some,
    decreases n,
{
    if k < n {
        lemma_found_stays(locks, cwd, k, n - 1);
    }
}

proof fn lemma_best_is_of_offer(o: Offer, cwd: Seq<char>, n: int)
    requires
        0 <= n <= o.folders.len(),
    ensures
        match best_folder(None, o, cwd, n) {
            Some((_, port, token)) => port == o.port && token == o.token,
            None => true,
        },
    decreases n,
{
    if n > 0 {
        lemma_best_is_of_offer(o, cwd, n - 1);
    }
}

} // verus!
