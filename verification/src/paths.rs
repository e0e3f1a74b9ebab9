//! Paths as texts, their components parted by `/`.
use vstd::prelude::*;

use crate::text::chars_of;
use crate::text::same;
use crate::text::split;
use crate::text::split_on;
use crate::text::text_of;
use crate::text::views;

verus! {

/// Whether a path starts at the root.
pub open spec fn is_absolute(p: Seq<char>) -> bool {
    p.len() > 0 && p[0] == '/'
}

/// The pieces that name something: neither empty nor a single dot.
pub open spec fn named(pieces: Seq<Seq<char>>) -> Seq<Seq<char>>
    decreases pieces.len(),
{
    if pieces.len() == 0 {
        Seq::empty()
    } else {
        let before = named(pieces.drop_last());
        if pieces.last().len() == 0 || pieces.last() == "."@ {
            before
        } else {
            before.push(pieces.last())
        }
    }
}

/// The components of a path: the root, or a dot that a relative path begins with, then
/// the named pieces.
pub open spec fn components(p: Seq<char>) -> Seq<Seq<char>> {
    let pieces = split_on(p, '/');
    if is_absolute(p) {
        seq!["/"@] + named(pieces)
    } else if pieces[0] == "."@ {
        seq!["."@] + named(pieces)
    } else {
        named(pieces)
    }
}

/// The last component, where it names something.
pub open spec fn base_name(p: Seq<char>) -> Option<Seq<char>> {
    let n = named(split_on(p, '/'));
    if n.len() > 0 && n.last() != ".."@ {
        Some(n.last())
    } else {
        None
    }
}

/// Position of the last `c` before `k`, or -1.
pub open spec fn last_char(s: Seq<char>, c: char, k: int) -> int
    decreases k,
{
    if k <= 0 {
        -1
    } else if s[k - 1] == c {
        k - 1
    } else {
        last_char(s, c, k - 1)
    }
}

/// What follows the last dot of the last component, unless that dot begins it.
pub open spec fn extension_of(p: Seq<char>) -> Option<Seq<char>> {
    match base_name(p) {
        Some(n) => {
            let k = last_char(n, '.', n.len() as int);
            if k > 0 {
                Some(n.subrange(k + 1, n.len() as int))
            } else {
                None
            }
        },
        None => None,
    }
}

/// Whether `p` lies at or below `base`, component by component.
pub open spec fn is_under(p: Seq<char>, base: Seq<char>) -> bool {
    let a = components(p);
    let b = components(base);
    b.len() <= a.len() && a.take(b.len() as int) == b
}

/// Components with each folder above taken together with what it leads out of. Above the root
/// there is the root; a relative path may go up from where it starts.
pub open spec fn resolved(c: Seq<Seq<char>>) -> Seq<Seq<char>>
    decreases c.len(),
{
    if c.len() == 0 {
        Seq::empty()
    } else {
        let before = resolved(c.drop_last());
        if c.last() != ".."@ {
            before.push(c.last())
        } else if before.len() == 0 || before.last() == ".."@ || before.last() == "."@ {
            before.push(".."@)
        } else if before.last() == "/"@ {
            before
        } else {
            before.drop_last()
        }
    }
}

/// Whether `p` leads to `base` or a place below it.
pub open spec fn leads_under(p: Seq<char>, base: Seq<char>) -> bool {
    let a = resolved(components(p));
    let b = resolved(components(base));
    b.len() <= a.len() && a.take(b.len() as int) == b
}

/// The path `b` as seen from `a`.
pub open spec fn joined_path(a: Seq<char>, b: Seq<char>) -> Seq<char> {
    if is_absolute(b) || a.len() == 0 {
        b
    } else if a.last() == '/' {
        a + b
    } else {
        a.push('/') + b
    }
}

fn named_pieces(pieces: &Vec<String>) -> (r: Vec<String>)
    ensures
        views(r@) == named(views(pieces@)),
{
    let ghost pv = views(pieces@);
    let mut out: Vec<String> = Vec::new();
    assert(views(out@) =~= Seq::<Seq<char>>::empty());
    let mut k: usize = 0;
    while k < pieces.len()
        invariant
            k <= pieces@.len(),
            pv == views(pieces@),
            views(out@) == named(pv.take(k as int)),
        decreases pieces.len() - k,
    {
        assert(pv.take(k + 1).drop_last() =~= pv.take(k as int));
        assert(pv.take(k + 1).last() == pieces@[k as int]@);
        let ghost before = views(out@);
        let s = pieces[k].as_str();
        if !s.is_empty() && !same(s, ".") {
            out.push(pieces[k].clone());
            assert(views(out@) =~= before.push(s@));
        }
        k = k + 1;
    }
    assert(pv.take(k as int) =~= pv);
    out
}

/// The components of a path: the root as `/`, a leading dot, and the names.
pub fn component_list(p: &str) -> (r: Vec<String>)
    ensures
        views(r@) == components(p@),
{
    let pieces = split(p, '/');
    let rest = named_pieces(&pieces);
    let v = chars_of(p);
    let mut out: Vec<String> = Vec::new();
    assert(views(pieces@)[0] == pieces@[0]@);
    if v.len() > 0 && v[0] == '/' {
        out.push("/".to_owned());
    } else if same(pieces[0].as_str(), ".") {
        out.push(".".to_owned());
    }
    let ghost head = views(out@);
    let mut k: usize = 0;
    while k < rest.len()
        invariant
            k <= rest@.len(),
            views(out@) == head + views(rest@).take(k as int),
        decreases rest.len() - k,
    {
        let ghost before = views(out@);
        out.push(rest[k].clone());
        assert(views(out@) =~= before.push(views(rest@)[k as int]));
        assert(views(rest@).take(k + 1) =~= views(rest@).take(k as int).push(views(rest@)[k as int]));
        k = k + 1;
    }
    assert(views(rest@).take(k as int) =~= views(rest@));
    assert(views(out@) =~= components(p@));
    out
}

/// The last component, where it names something.
pub fn file_name(p: &str) -> (r: Option<String>)
    ensures
        match r {
            Some(n) => base_name(p@) == Some(n@),
            None => base_name(p@) is None,
        },
{
    let pieces = split(p, '/');
    let mut names = named_pieces(&pieces);
    let ghost nv = views(names@);
    match names.pop() {
        Some(n) => {
            assert(nv.last() == n@);
            if same(n.as_str(), "..") {
                None
            } else {
                Some(n)
            }
        },
        None => None,
    }
}

/// What follows the last dot of the last component, unless that dot begins it.
pub fn extension(p: &str) -> (r: Option<String>)
    ensures
        match r {
            Some(e) => extension_of(p@) == Some(e@),
            None => extension_of(p@) is None,
        },
{
    match file_name(p) {
        Some(n) => {
            let v = chars_of(n.as_str());
            let len: usize = v.len();
            let mut k: usize = len;
            while k > 0 && v[k - 1] != '.'
                invariant
                    len == v@.len(),
                    k <= len,
                    last_char(v@, '.', k as int) == last_char(v@, '.', len as int),
                decreases k,
            {
                k = k - 1;
            }
            if k > 1 {
                Some(text_of(&v, k, len))
            } else {
                None
            }
        },
        None => None,
    }
}

/// Whether `p` lies at or below `base`, component by component.
pub fn starts_with(p: &str, base: &str) -> (r: bool)
    ensures
        r == is_under(p@, base@),
{
    let a = component_list(p);
    let b = component_list(base);
    begins_with(&a, &b)
}

/// Whether the first components are others.
fn begins_with(a: &Vec<String>, b: &Vec<String>) -> (r: bool)
    ensures
        r == (b@.len() <= a@.len() && views(a@).take(b@.len() as int) == views(b@)),
{
    let ghost av = views(a@);
    let ghost bv = views(b@);
    if b.len() > a.len() {
        return false;
    }
    let mut k: usize = 0;
    while k < b.len()
        invariant
            k <= b@.len() <= a@.len(),
            av == views(a@),
            bv == views(b@),
            forall|j: int| 0 <= j < k ==> av[j] == bv[j],
        decreases b.len() - k,
    {
        if a[k] != b[k] {
            assert(av.take(bv.len() as int)[k as int] != bv[k as int]);
            return false;
        }
        k = k + 1;
    }
    assert(av.take(bv.len() as int) =~= bv);
    true
}

fn resolve(c: &Vec<String>) -> (r: Vec<String>)
    ensures
        views(r@) == resolved(views(c@)),
{
    let ghost cv = views(c@);
    let mut out: Vec<String> = Vec::new();
    assert(views(out@) =~= resolved(cv.take(0)));
    let mut k: usize = 0;
    while k < c.len()
        invariant
            k <= c@.len(),
            cv == views(c@),
            views(out@) == resolved(cv.take(k as int)),
        decreases c.len() - k,
    {
        assert(cv.take(k + 1).drop_last() =~= cv.take(k as int));
        assert(cv.take(k + 1).last() == c@[k as int]@);
        let ghost before = views(out@);
        let n: usize = out.len();
        assert(n > 0 ==> before.last() == out@[n - 1]@);
        if !same(c[k].as_str(), "..") {
            out.push(c[k].as_str().to_owned());
            assert(views(out@) =~= before.push(c@[k as int]@));
        } else if n == 0 || same(out[n - 1].as_str(), "..") || same(out[n - 1].as_str(), ".") {
            out.push("..".to_owned());
            assert(views(out@) =~= before.push(".."@));
        } else if !same(out[n - 1].as_str(), "/") {
            let _ = out.pop();
            assert(views(out@) =~= before.drop_last());
        }
        k = k + 1;
    }
    assert(cv.take(k as int) =~= cv);
    out
}

/// Whether `p` leads to `base` or a place below it.
pub fn leads_to(p: &str, base: &str) -> (r: bool)
    ensures
        r == leads_under(p@, base@),
{
    let a = resolve(&component_list(p));
    let b = resolve(&component_list(base));
    begins_with(&a, &b)
}

proof fn lemma_named(pieces: Seq<Seq<char>>)
    ensures
        forall|i: int| 0 <= i < named(pieces).len() ==> #[trigger] named(pieces)[i] != "."@,
    decreases pieces.len(),
{
    if pieces.len() > 0 {
        lemma_named(pieces.drop_last());
        let before = named(pieces.drop_last());
        assert forall|i: int| 0 <= i < named(pieces).len() implies #[trigger] named(pieces)[i]
            != "."@ by {
            if i < before.len() {
                assert(named(pieces)[i] == before[i]);
            }
        }
    }
}

proof fn lemma_resolved(c: Seq<Seq<char>>)
    requires
        c.len() > 0,
        c[0] == "/"@,
        forall|i: int| 0 <= i < c.len() ==> #[trigger] c[i] != "."@,
    ensures
        resolved(c).len() > 0,
        resolved(c)[0] == "/"@,
        forall|i: int|
            0 <= i < resolved(c).len() ==> #[trigger] resolved(c)[i] != ".."@ && resolved(c)[i]
                != "."@,
    decreases c.len(),
{
    reveal_strlit("/");
    reveal_strlit(".");
    reveal_strlit("..");
    assert("/"@.len() == 1 && ".."@.len() == 2 && "."@[0] == '.' && "/"@[0] == '/');
    if c.len() > 1 {
        let before = resolved(c.drop_last());
        lemma_resolved(c.drop_last());
        if c.last() == ".."@ && before.last() != "/"@ {
            assert(before.len() > 1);
            assert(before.drop_last()[0] == before[0]);
        }
    } else {
        assert(resolved(c.drop_last()) == Seq::<Seq<char>>::empty());
        assert(c.last() == c[0] && "/"@ != ".."@);
        assert(resolved(c) =~= seq!["/"@]);
    }
}

/// What a path that starts at the root leads to does not go up.
pub proof fn law_resolved_path_does_not_go_up(p: Seq<char>)
    requires
        is_absolute(p),
    ensures
        !resolved(components(p)).contains(".."@),
{
    let n = named(split_on(p, '/'));
    let c = components(p);
    lemma_named(split_on(p, '/'));
    reveal_strlit("/");
    reveal_strlit(".");
    assert("."@[0] == '.' && "/"@[0] == '/');
    assert forall|i: int| 0 <= i < c.len() implies #[trigger] c[i] != "."@ by {
        if i > 0 {
            assert(c[i] == n[i - 1]);
        }
    }
    lemma_resolved(c);
}

/// A path that does not go up leads where it says.
pub proof fn law_path_that_stays_leads_under(p: Seq<char>, base: Seq<char>)
    requires
        is_under(p, base),
        !components(p).contains(".."@),
    ensures
        leads_under(p, base),
{
    let a = components(p);
    let b = components(base);
    lemma_no_up(a);
    assert forall|i: int| 0 <= i < b.len() implies b[i] != ".."@ by {
        assert(b[i] == a.take(b.len() as int)[i]);
        assert(a.contains(a[i]));
    }
    lemma_no_up(b);
}

proof fn lemma_no_up(c: Seq<Seq<char>>)
    requires
        !c.contains(".."@),
    ensures
        resolved(c) == c,
    decreases c.len(),
{
    if c.len() > 0 {
        assert(c.contains(c.last()));
        assert forall|x: Seq<char>| c.drop_last().contains(x) implies c.contains(x) by {
            let i = choose|i: int| 0 <= i < c.drop_last().len() && c.drop_last()[i] == x;
            assert(c[i] == x);
        }
        lemma_no_up(c.drop_last());
        assert(c.drop_last().push(c.last()) =~= c);
    }
}

/// The path `b` as seen from `a`.
pub fn join(a: &str, b: &str) -> (r: String)
    ensures
        r@ == joined_path(a@, b@),
{
    let v = chars_of(a);
    let w = chars_of(b);
    if (w.len() > 0 && w[0] == '/') || v.len() == 0 {
        return b.to_owned();
    }
    let mut out = a.to_owned();
    if v[v.len() - 1] != '/' {
        out.push('/');
    }
    out.append(b);
    out
}

/// The path of the first `n` components.
pub open spec fn rebuilt(parts: Seq<Seq<char>>, n: int) -> Seq<char>
    decreases n,
{
    if n <= 0 {
        Seq::empty()
    } else {
        joined_path(rebuilt(parts, n - 1), parts[n - 1])
    }
}

/// The path of the first `n` components.
pub fn rebuild(parts: &Vec<String>, n: usize) -> (r: String)
    requires
        n <= parts@.len(),
    ensures
        r@ == rebuilt(views(parts@), n as int),
{
    let ghost pv = views(parts@);
    let mut out = String::new();
    let mut k: usize = 0;
    while k < n
        invariant
            k <= n <= parts@.len(),
            pv == views(parts@),
            out@ == rebuilt(pv, k as int),
        decreases n - k,
    {
        assert(pv[k as int] == parts@[k as int]@);
        out = join(out.as_str(), parts[k].as_str());
        k = k + 1;
    }
    out
}

/// The path without its last component; none for the root and for the empty path.
pub open spec fn parent_of(p: Seq<char>) -> Option<Seq<char>> {
    let parts = components(p);
    if parts.len() == 0 || parts.last() == "/"@ {
        None
    } else {
        Some(rebuilt(parts, parts.len() - 1))
    }
}

/// The path without its last component; none for the root and for the empty path.
pub fn parent(p: &str) -> (r: Option<String>)
    ensures
        crate::text::opt_view(r) == parent_of(p@),
{
    let parts = component_list(p);
    let n: usize = parts.len();
    let ghost pv = views(parts@);
    assert(pv.len() == n);
    if n == 0 {
        return None;
    }
    assert(pv[n - 1] == parts@[n - 1]@);
    if same(parts[n - 1].as_str(), "/") {
        None
    } else {
        Some(rebuild(&parts, n - 1))
    }
}

/// The components of a path below a base, or all of them where it lies elsewhere.
pub open spec fn parts_below(p: Seq<char>, base: Seq<char>) -> Seq<Seq<char>> {
    if is_under(p, base) {
        components(p).skip(components(base).len() as int)
    } else {
        components(p)
    }
}

/// The components of a path below a base, or all of them where it lies elsewhere.
pub fn list_below(p: &str, base: &str) -> (r: Vec<String>)
    ensures
        views(r@) == parts_below(p@, base@),
{
    let all = component_list(p);
    let ghost av = views(all@);
    let from: usize = if starts_with(p, base) {
        let b = component_list(base);
        assert(views(b@).len() == b@.len());
        b.len()
    } else {
        0
    };
    let ghost want = av.skip(from as int);
    let n: usize = all.len();
    let mut out: Vec<String> = Vec::new();
    assert(views(out@) =~= want.take(0));
    let mut k: usize = from;
    while k < n
        invariant
            from <= k <= n,
            n == all@.len(),
            av == views(all@),
            want == av.skip(from as int),
            views(out@) == want.take(k - from),
        decreases n - k,
    {
        let ghost so_far = views(out@);
        out.push(all[k].as_str().to_owned());
        assert(views(out@) =~= so_far.push(want[k - from]));
        assert(want.take(k + 1 - from) =~= want.take(k - from).push(want[k - from]));
        k = k + 1;
    }
    assert(want.take(k - from) =~= want);
    assert(av.skip(0) =~= av);
    out
}

/// A name that is joined to a folder is the last component of the path.
pub proof fn law_joined_name_is_last(dir: Seq<char>, name: Seq<char>)
    requires
        name.len() > 0,
        name != "."@,
        name != ".."@,
        forall|j: int| 0 <= j < name.len() ==> name[j] != '/',
    ensures
        base_name(joined_path(dir, name)) == Some(name),
{
    let p = joined_path(dir, name);
    let at = p.len() - name.len();
    assert(p.subrange(at, p.len() as int) =~= name);
    assert forall|j: int| at <= j < p.len() implies p[j] != '/' by {
        assert(p[j] == name[j - at]);
    }
    crate::text::lemma_split_last(p, '/', 0, at);
    let pieces = split_on(p, '/');
    assert(named(pieces) == named(pieces.drop_last()).push(name));
    assert(named(pieces).last() == name);
}

proof fn lemma_last_char_at(stem: Seq<char>, c: char, tail: Seq<char>, n: int)
    requires
        !tail.contains(c),
        0 <= n <= tail.len(),
    ensures
        last_char(stem.push(c) + tail, c, stem.len() + 1 + n) == stem.len(),
    decreases n,
{
    let s = stem.push(c) + tail;
    if n > 0 {
        assert(s[stem.len() + n] == tail[n - 1]);
        lemma_last_char_at(stem, c, tail, n - 1);
    } else {
        assert(s[stem.len() as int] == c);
    }
}

proof fn lemma_no_char(s: Seq<char>, c: char, n: int)
    requires
        !s.contains(c),
        0 <= n <= s.len(),
    ensures
        last_char(s, c, n) == -1,
    decreases n,
{
    if n > 0 {
        assert(s[n - 1] != c);
        lemma_no_char(s, c, n - 1);
    }
}

proof fn lemma_plain_name(name: Seq<char>)
    requires
        name.len() > 0,
        !name.contains('/'),
        name != "."@,
        name != ".."@,
    ensures
        base_name(name) == Some(name),
{
    let joined = joined_path(Seq::empty(), name);
    assert(joined == name);
    assert forall|j: int| 0 <= j < name.len() implies name[j] != '/' by {
        assert(name.contains(name[j]));
    }
    law_joined_name_is_last(Seq::empty(), name);
}

/// The ending of a file is what stands behind its last dot; a name without a dot, or with one in
/// front only, has none.
pub proof fn law_endings_follow_the_last_dot(stem: Seq<char>, ending: Seq<char>)
    requires
        stem.len() > 0,
        ending.len() > 0,
        !stem.contains('/'),
        !ending.contains('/'),
        !ending.contains('.'),
    ensures
        extension_of(stem.push('.') + ending) == Some(ending),
        extension_of(seq!['.'] + ending) is None,
        extension_of(ending) is None,
{
    reveal_strlit(".");
    reveal_strlit("..");
    let name = stem.push('.') + ending;
    assert(!name.contains('/')) by {
        assert forall|j: int| 0 <= j < name.len() implies name[j] != '/' by {
            if j < stem.len() {
                assert(name[j] == stem[j]);
            } else if j > stem.len() {
                assert(name[j] == ending[j - stem.len() - 1]);
            }
        }
    }
    assert(name.len() >= 3);
    lemma_plain_name(name);
    lemma_last_char_at(stem, '.', ending, ending.len() as int);
    assert(name.subrange(stem.len() as int + 1, name.len() as int) =~= ending);
    let hidden = seq!['.'] + ending;
    assert(hidden =~= Seq::<char>::empty().push('.') + ending);
    lemma_last_char_at(Seq::empty(), '.', ending, ending.len() as int);
    assert(!hidden.contains('/')) by {
        assert forall|j: int| 0 <= j < hidden.len() implies hidden[j] != '/' by {
            if j > 0 {
                assert(hidden[j] == ending[j - 1]);
            }
        }
    }
    if hidden == ".."@ {
        assert(hidden[1] == ending[0]);
    }
    assert(hidden.len() >= 2);
    lemma_plain_name(hidden);
    assert(ending[0] != '.');
    lemma_plain_name(ending);
    lemma_no_char(ending, '.', ending.len() as int);
}

/// Every path stands under itself, and what stands under a path that stands under another stands
/// under that too.
pub proof fn law_paths_stand_under_each_other(a: Seq<char>, b: Seq<char>, c: Seq<char>)
    ensures
        is_under(a, a),
        leads_under(a, a),
        is_under(a, b) && is_under(b, c) ==> is_under(a, c),
        is_under(a, b) && is_under(b, a) ==> components(a) == components(b),
        is_under(a, b) ==> parts_below(a, b).len() == components(a).len() - components(b).len(),
        is_under(a, b) ==> components(b) + parts_below(a, b) == components(a),
{
    let x = components(a);
    let y = components(b);
    let z = components(c);
    assert(x.take(x.len() as int) =~= x);
    let r = resolved(x);
    assert(r.take(r.len() as int) =~= r);
    if is_under(a, b) {
        assert(y + x.skip(y.len() as int) =~= x) by {
            assert forall|i: int| 0 <= i < y.len() implies y[i] == x[i] by {
                assert(x.take(y.len() as int)[i] == x[i]);
            }
        }
        if is_under(b, c) {
            assert(x.take(z.len() as int) =~= z) by {
                assert forall|i: int| 0 <= i < z.len() implies x[i] == z[i] by {
                    assert(y.take(z.len() as int)[i] == y[i]);
                    assert(x.take(y.len() as int)[i] == x[i]);
                }
            }
        }
        if is_under(b, a) {
            assert(x =~= y);
        }
    }
}

} // verus!
