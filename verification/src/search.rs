//! Find in files: the pattern, the filters, what matches, and the rows that show it.
//!
//! Every combination of options is one pattern, so that matching is uniform.
use vstd::prelude::*;

use fancy_regex::Regex;
use vstd::string::StringSliceAdditionalSpecFns;
use vstd::utf8::encode_utf8;

use crate::text::bare_lines;
use crate::text::before;
use crate::text::byte_width;
use crate::text::char_from;
use crate::text::char_index;
use crate::text::chars_of;
use crate::text::from_utf8;
use crate::text::holds;
use crate::text::opt_view;
use crate::text::plain_lines;
use crate::text::same;
use crate::text::split;
use crate::text::split_on;
use crate::text::trim;
use crate::text::trimmed;
use crate::text::utf8_width;
use crate::text::views;

verus! {

/// How a query is matched.
#[derive(Clone, Copy, PartialEq, Eq, Debug, Structural)]
pub struct SearchOpts {
    pub case_sensitive: bool,
    pub whole_word: bool,
    pub regex: bool,
}

/// `fancy_regex::Regex`: a compiled pattern.
#[verifier::external_type_specification]
#[verifier::external_body]
pub struct ExRegex(Regex);

/// The pattern that a regex was compiled from.
pub uninterp spec fn pattern_of(re: Regex) -> Seq<char>;

/// Whether a pattern compiles.
pub uninterp spec fn compiles(pattern: Seq<char>) -> bool;

/// Whether a pattern matches anywhere in a text; not where matching fails.
pub uninterp spec fn pattern_matches(pattern: Seq<char>, text: Seq<char>) -> bool;

/// The first match of a pattern at or after a byte offset; none where matching fails.
pub uninterp spec fn pattern_find(pattern: Seq<char>, text: Seq<char>, from: usize) -> Option<
    (usize, usize),
>;

/// The matches that `Regex::find_iter` goes through, at most `limit` of them; none where matching
/// fails on the way.
pub uninterp spec fn pattern_iter(pattern: Seq<char>, text: Seq<char>, limit: usize) -> Option<
    Seq<(usize, usize)>,
>;

/// The text with every match replaced; none where matching fails.
pub uninterp spec fn pattern_replace(pattern: Seq<char>, text: Seq<char>, with: Seq<char>) -> Option<
    Seq<char>,
>;

/// `Regex::new`: a regex stands for the pattern it was compiled from, and whether it
/// compiles rests on the pattern alone.
#[verifier::external_body]
fn compile(pattern: &str) -> (r: Option<Regex>)
    ensures
        match r {
            Some(re) => compiles(pattern@) && pattern_of(re) == pattern@,
            None => !compiles(pattern@),
        },
{
    Regex::new(pattern).ok()
}

/// `Regex::is_match`, which rests on the pattern and the text; an error is no match.
#[verifier::external_body]
fn is_match(re: &Regex, text: &str) -> (r: bool)
    ensures
        r == pattern_matches(pattern_of(*re), text@),
{
    re.is_match(text).unwrap_or(false)
}

/// `Regex::find_from_pos` at a boundary between characters, which rests on the pattern,
/// the text and the place; an error is no match.
#[verifier::external_body]
fn find_from(re: &Regex, text: &str, from: usize) -> (r: Option<(usize, usize)>)
    requires
        char_from(text@, 0, from as int) is Some,
    ensures
        r == pattern_find(pattern_of(*re), text@, from),
{
    re.find_from_pos(text, from).ok().flatten().map(|m| (m.start(), m.end()))
}

/// `Regex::find_iter`, as far as `limit` matches: they rest on the pattern and the text.
#[verifier::external_body]
fn iterate(re: &Regex, text: &str, limit: usize) -> (r: Option<Vec<(usize, usize)>>)
    ensures
        match r {
            Some(v) => pattern_iter(pattern_of(*re), text@, limit) == Some(v@),
            None => pattern_iter(pattern_of(*re), text@, limit) is None,
        },
{
    let found: fancy_regex::Result<Vec<fancy_regex::Match>> = re.find_iter(text).take(limit).collect();
    Some(found.ok()?.iter().map(|m| (m.start(), m.end())).collect())
}

/// Whether each of the matches starts where the one before it has ended, or later.
pub open spec fn in_turn(hits: Seq<(usize, usize)>) -> bool {
    forall|i: int|
        0 <= i < hits.len() ==> (#[trigger] hits[i]).0 <= hits[i].1 && (i > 0 ==> hits[i - 1].1
            <= hits[i].0)
}

fn are_in_turn(hits: &Vec<(usize, usize)>) -> (r: bool)
    ensures
        r == in_turn(hits@),
{
    let mut k: usize = 0;
    while k < hits.len()
        invariant
            k <= hits@.len(),
            in_turn(hits@.take(k as int)),
        decreases hits.len() - k,
    {
        let (s, e) = hits[k];
        if s > e {
            assert(hits@[k as int].0 > hits@[k as int].1);
            return false;
        }
        if k > 0 {
            let (_, b) = hits[k - 1];
            if b > s {
                assert(hits@[k as int].0 < hits@[k - 1].1);
                return false;
            }
        }
        let ghost upto = hits@.take(k + 1);
        assert forall|i: int| 0 <= i < upto.len() implies (#[trigger] upto[i]).0 <= upto[i].1 && (i > 0
            ==> upto[i - 1].1 <= upto[i].0) by {
            if i < k {
                assert(hits@.take(k as int)[i] == upto[i]);
            }
        }
        k = k + 1;
    }
    assert(hits@.take(k as int) =~= hits@);
    true
}

/// More matches than can stand in a text one behind another: at most one empty match at each
/// place, and as many others as there are bytes.
pub open spec fn match_limit(text: Seq<char>) -> usize {
    let n = encode_utf8(text).len();
    if 2 * n + 2 <= usize::MAX {
        (2 * n + 2) as usize
    } else {
        usize::MAX
    }
}

/// Whether the matches of a pattern in a text can be replaced one behind another. A pattern
/// that moves the start of its matches may have one start before the one before it ends.
pub open spec fn can_replace(pattern: Seq<char>, text: Seq<char>) -> bool {
    match pattern_iter(pattern, text, match_limit(text)) {
        Some(hits) => hits.len() < match_limit(text) && in_turn(hits),
        None => false,
    }
}

/// Whether the matches can be replaced one behind another.
fn is_replaceable(re: &Regex, text: &str) -> (r: bool)
    ensures
        r == can_replace(pattern_of(*re), text@),
{
    let bytes = text.as_bytes();
    assert(bytes@ == text.spec_bytes());
    let n: usize = bytes.len();
    let limit: usize = if n <= (usize::MAX - 2) / 2 {
        2 * n + 2
    } else {
        usize::MAX
    };
    match iterate(re, text, limit) {
        Some(hits) => hits.len() < limit && are_in_turn(&hits),
        None => false,
    }
}

/// `Regex::try_replacen` without a limit, which rests on the pattern, the text and the
/// replacement. Where a match starts before the one before it ends, `try_replacen` panics.
#[verifier::external_body]
fn replace_matches(re: &Regex, text: &str, with: &str) -> (r: Option<String>)
    requires
        can_replace(pattern_of(*re), text@),
    ensures
        match r {
            Some(s) => pattern_replace(pattern_of(*re), text@, with@) == Some(s@),
            None => pattern_replace(pattern_of(*re), text@, with@) is None,
        },
{
    re.try_replacen(text, 0, with).ok().map(|s| s.into_owned())
}

/// Whether a character means something in a pattern.
pub open spec fn is_meta(c: char) -> bool {
    c == '\\' || c == '^' || c == '$' || c == '.' || c == '|' || c == '?' || c == '*' || c == '+' || c
        == '(' || c == ')' || c == '[' || c == ']' || c == '{' || c == '}'
}

fn meta(c: char) -> (r: bool)
    ensures
        r == is_meta(c),
{
    c == '\\' || c == '^' || c == '$' || c == '.' || c == '|' || c == '?' || c == '*' || c == '+' || c
        == '(' || c == ')' || c == '[' || c == ']' || c == '{' || c == '}'
}

/// What stands for a glob from character `i` on: `**` spans directories, `*` and `?` stay
/// within a segment, and everything else stands for itself.
pub open spec fn glob_body(g: Seq<char>, i: int) -> Seq<char>
    decreases g.len() - i,
{
    if i >= g.len() {
        Seq::empty()
    } else if g[i] == '*' {
        if i + 1 < g.len() && g[i + 1] == '*' {
            ".*"@ + glob_body(g, i + 2)
        } else {
            "[^/]*"@ + glob_body(g, i + 1)
        }
    } else if g[i] == '?' {
        "[^/]"@ + glob_body(g, i + 1)
    } else if is_meta(g[i]) {
        seq!['\\', g[i]] + glob_body(g, i + 1)
    } else {
        seq![g[i]] + glob_body(g, i + 1)
    }
}

/// The pattern of a glob. Without a slash it matches any segment of a path; with one it is
/// anchored at the root and goes up to the end of the path.
pub open spec fn pattern_of_glob(g: Seq<char>) -> Seq<char> {
    if holds(g, "/"@) {
        "^"@ + glob_body(g, 0) + "$"@
    } else {
        "(^|/)"@ + glob_body(g, 0) + "(/|$)"@
    }
}

/// The pattern of a glob.
pub fn glob_to_regex(glob: &str) -> (r: String)
    ensures
        r@ == pattern_of_glob(glob@),
{
    let v = chars_of(glob);
    let n: usize = v.len();
    let slash = crate::text::contains(glob, "/");
    let mut re = if slash {
        "^".to_owned()
    } else {
        "(^|/)".to_owned()
    };
    let end = if slash {
        "$"
    } else {
        "(/|$)"
    };
    let ghost head = re@;
    let ghost body = glob_body(v@, 0);
    assert(re@ + body =~= head + body);
    let mut i: usize = 0;
    while i < n
        invariant
            n == v@.len(),
            i <= n,
            re@ + glob_body(v@, i as int) == head + body,
        decreases n - i,
    {
        let ghost so_far = re@;
        let c = v[i];
        if c == '*' {
            if i + 1 < n && v[i + 1] == '*' {
                re.append(".*");
                assert(so_far + (".*"@ + glob_body(v@, i + 2)) =~= re@ + glob_body(v@, i + 2));
                i = i + 1;
            } else {
                re.append("[^/]*");
                assert(so_far + ("[^/]*"@ + glob_body(v@, i + 1)) =~= re@ + glob_body(v@, i + 1));
            }
        } else if c == '?' {
            re.append("[^/]");
            assert(so_far + ("[^/]"@ + glob_body(v@, i + 1)) =~= re@ + glob_body(v@, i + 1));
        } else if meta(c) {
            re.push('\\');
            re.push(c);
            assert(so_far + (seq!['\\', c] + glob_body(v@, i + 1)) =~= re@ + glob_body(v@, i + 1));
        } else {
            re.push(c);
            assert(so_far + (seq![c] + glob_body(v@, i + 1)) =~= re@ + glob_body(v@, i + 1));
        }
        i = i + 1;
    }
    assert(re@ + Seq::<char>::empty() =~= re@);
    re.append(end);
    re
}

/// The patterns of a list of regexes.
pub open spec fn patterns(v: Seq<Regex>) -> Seq<Seq<char>> {
    Seq::new(v.len(), |i: int| pattern_of(v[i]))
}

/// The patterns of those globs that are not empty and compile, without the white space
/// around them.
pub open spec fn glob_patterns(globs: Seq<Seq<char>>, skip_empty: bool) -> Seq<Seq<char>>
    decreases globs.len(),
{
    if globs.len() == 0 {
        Seq::empty()
    } else {
        let rest = glob_patterns(globs.drop_last(), skip_empty);
        let g = trimmed(globs.last());
        if (skip_empty && g.len() == 0) || !compiles(pattern_of_glob(g)) {
            rest
        } else {
            rest.push(pattern_of_glob(g))
        }
    }
}

fn compile_list(globs: &Vec<String>, skip_empty: bool) -> (r: Vec<Regex>)
    ensures
        patterns(r@) == glob_patterns(views(globs@), skip_empty),
{
    let ghost gv = views(globs@);
    let mut out: Vec<Regex> = Vec::new();
    assert(patterns(out@) =~= Seq::<Seq<char>>::empty());
    let mut k: usize = 0;
    while k < globs.len()
        invariant
            k <= globs@.len(),
            gv == views(globs@),
            patterns(out@) == glob_patterns(gv.take(k as int), skip_empty),
        decreases globs.len() - k,
    {
        assert(gv.take(k + 1).drop_last() =~= gv.take(k as int));
        assert(gv.take(k + 1).last() == globs@[k as int]@);
        let ghost done = patterns(out@);
        let g = trim(globs[k].as_str());
        if !(skip_empty && g.as_str().is_empty()) {
            let p = glob_to_regex(g.as_str());
            if let Some(re) = compile(p.as_str()) {
                out.push(re);
                assert(patterns(out@) =~= done.push(p@));
            }
        }
        k = k + 1;
    }
    assert(gv.take(k as int) =~= gv);
    out
}

/// Which paths a search looks at. Without inclusion patterns every path is included; a path
/// that matches an exclude pattern is dropped.
pub struct Filters {
    wanted: Vec<Regex>,
    exclude: Vec<Regex>,
}

/// Whether one of the patterns matches.
pub open spec fn any_matches(ps: Seq<Seq<char>>, text: Seq<char>) -> bool {
    exists|i: int| 0 <= i < ps.len() && pattern_matches(#[trigger] ps[i], text)
}

fn any_match(v: &Vec<Regex>, text: &str) -> (r: bool)
    ensures
        r == any_matches(patterns(v@), text@),
{
    let mut k: usize = 0;
    while k < v.len()
        invariant
            k <= v@.len(),
            forall|i: int| 0 <= i < k ==> !pattern_matches(#[trigger] patterns(v@)[i], text@),
        decreases v.len() - k,
    {
        if is_match(&v[k], text) {
            assert(pattern_matches(patterns(v@)[k as int], text@));
            return true;
        }
        k = k + 1;
    }
    false
}

impl Filters {
    /// The inclusion patterns.
    pub closed spec fn includes(&self) -> Seq<Seq<char>> {
        patterns(self.wanted@)
    }

    /// The exclude patterns.
    pub closed spec fn excludes(&self) -> Seq<Seq<char>> {
        patterns(self.exclude@)
    }

    /// Filters from two comma-separated lists of globs. Globs that do not compile are
    /// passed over.
    pub fn new(wanted: &str, exclude: &str) -> (r: Filters)
        ensures
            r.includes() == glob_patterns(split_on(wanted@, ','), true),
            r.excludes() == glob_patterns(split_on(exclude@, ','), true),
    {
        let a = split(wanted, ',');
        let b = split(exclude, ',');
        Filters { wanted: compile_list(&a, true), exclude: compile_list(&b, true) }
    }

    /// Filters that only exclude.
    pub fn exclude_globs(globs: &Vec<String>) -> (r: Filters)
        ensures
            r.includes() == Seq::<Seq<char>>::empty(),
            r.excludes() == glob_patterns(views(globs@), false),
    {
        let none: Vec<Regex> = Vec::new();
        assert(patterns(none@) =~= Seq::<Seq<char>>::empty());
        Filters { wanted: none, exclude: compile_list(globs, false) }
    }

    /// Whether a path, relative and with forward slashes, passes.
    pub fn allows(&self, rel: &str) -> (r: bool)
        ensures
            r == ((self.includes().len() == 0 || any_matches(self.includes(), rel@)) && !any_matches(
                self.excludes(),
                rel@,
            )),
    {
        if self.wanted.len() > 0 && !any_match(&self.wanted, rel) {
            return false;
        }
        !any_match(&self.exclude, rel)
    }
}

/// The text with a backslash before every character that means something in a pattern.
pub open spec fn escaped(s: Seq<char>) -> Seq<char>
    decreases s.len(),
{
    if s.len() == 0 {
        Seq::empty()
    } else if is_meta(s.last()) {
        escaped(s.drop_last()).push('\\').push(s.last())
    } else {
        escaped(s.drop_last()).push(s.last())
    }
}

/// Puts a backslash before every character that means something in a pattern.
pub fn escape(s: &str) -> (r: String)
    ensures
        r@ == escaped(s@),
{
    let v = chars_of(s);
    let mut out = String::new();
    let mut i: usize = 0;
    while i < v.len()
        invariant
            i <= v@.len(),
            out@ == escaped(v@.take(i as int)),
        decreases v.len() - i,
    {
        assert(v@.take(i + 1).drop_last() =~= v@.take(i as int));
        if meta(v[i]) {
            out.push('\\');
        }
        out.push(v[i]);
        i = i + 1;
    }
    assert(v@.take(i as int) =~= v@);
    out
}

/// The text that an escaped text stands for, from character `i` on.
pub open spec fn unescaped(s: Seq<char>, i: int) -> Seq<char>
    decreases s.len() - i,
{
    if i >= s.len() {
        Seq::empty()
    } else if s[i] == '\\' && i + 1 < s.len() {
        seq![s[i + 1]] + unescaped(s, i + 2)
    } else {
        seq![s[i]] + unescaped(s, i + 1)
    }
}

proof fn lemma_unescaped_push(e: Seq<char>, c: char, i: int)
    requires
        0 <= i <= e.len(),
        ends_clean(e, i),
    ensures
        !is_meta(c) ==> unescaped(e.push(c), i) == unescaped(e, i).push(c) && ends_clean(e.push(c), i),
        unescaped(e.push('\\').push(c), i) == unescaped(e, i).push(c) && ends_clean(
            e.push('\\').push(c),
            i,
        ),
    decreases e.len() - i,
{
    let one = e.push(c);
    let two = e.push('\\').push(c);
    if i >= e.len() {
        assert(unescaped(e, i) =~= Seq::<char>::empty());
        assert(unescaped(two, i + 2) =~= Seq::<char>::empty());
        assert(unescaped(two, i) =~= seq![c]);
        assert(ends_clean(two, i + 2));
        assert(ends_clean(one, i + 1));
        if !is_meta(c) {
            assert(unescaped(one, i + 1) =~= Seq::<char>::empty());
            assert(unescaped(one, i) =~= seq![c]);
        }
    } else if e[i] == '\\' {
        lemma_unescaped_push(e, c, i + 2);
        assert(unescaped(two, i) =~= unescaped(e, i).push(c));
        if !is_meta(c) {
            assert(unescaped(one, i) =~= unescaped(e, i).push(c));
        }
    } else {
        lemma_unescaped_push(e, c, i + 1);
        assert(unescaped(two, i) =~= unescaped(e, i).push(c));
        if !is_meta(c) {
            assert(unescaped(one, i) =~= unescaped(e, i).push(c));
        }
    }
}

/// Whether every backslash of `e`, read from character `i` on, has a character behind it.
pub open spec fn ends_clean(e: Seq<char>, i: int) -> bool
    decreases e.len() - i,
{
    if i >= e.len() {
        i == e.len()
    } else if e[i] == '\\' {
        i + 1 < e.len() && ends_clean(e, i + 2)
    } else {
        ends_clean(e, i + 1)
    }
}

proof fn lemma_escape(s: Seq<char>)
    ensures
        unescaped(escaped(s), 0) == s,
        ends_clean(escaped(s), 0),
    decreases s.len(),
{
    if s.len() == 0 {
        assert(unescaped(escaped(s), 0) =~= s);
    } else {
        lemma_escape(s.drop_last());
        lemma_unescaped_push(escaped(s.drop_last()), s.last(), 0);
        assert(s.drop_last().push(s.last()) =~= s);
    }
}

/// Reading an escaped query back, each backslash with what follows it, gives the query.
pub proof fn law_escape_is_literal(s: Seq<char>)
    ensures
        unescaped(escaped(s), 0) == s,
{
    lemma_escape(s);
}

/// The pattern of a query under its options.
pub open spec fn query_pattern(query: Seq<char>, opts: SearchOpts) -> Seq<char> {
    let base = if opts.regex {
        query
    } else {
        escaped(query)
    };
    let word = if opts.whole_word {
        "\\b(?:"@ + base + ")\\b"@
    } else {
        base
    };
    if opts.case_sensitive {
        word
    } else {
        "(?i)"@ + word
    }
}

/// Compiles a query under its options; none where it is empty or does not compile.
pub fn build_regex(query: &str, opts: SearchOpts) -> (r: Option<Regex>)
    ensures
        match r {
            Some(re) => query@.len() > 0 && compiles(query_pattern(query@, opts)) && pattern_of(re)
                == query_pattern(query@, opts),
            None => query@.len() == 0 || !compiles(query_pattern(query@, opts)),
        },
{
    if query.is_empty() {
        return None;
    }
    let pattern = build_pattern(query, opts);
    compile(pattern.as_str())
}

/// The pattern of a query under its options.
pub fn build_pattern(query: &str, opts: SearchOpts) -> (r: String)
    ensures
        r@ == query_pattern(query@, opts),
{
    let mut pat: String = if opts.regex {
        query.to_owned()
    } else {
        escape(query)
    };
    if opts.whole_word {
        let mut word = "\\b(?:".to_owned();
        word.append(pat.as_str());
        word.append(")\\b");
        pat = word;
    }
    if !opts.case_sensitive {
        let mut any = "(?i)".to_owned();
        any.append(pat.as_str());
        pat = any;
    }
    pat
}

/// The byte offset behind the character that starts at byte offset `at`; none at the end.
pub open spec fn next_offset(line: Seq<char>, at: int) -> Option<int> {
    match char_from(line, 0, at) {
        Some(i) => if i < line.len() && at + utf8_width(line[i]) <= usize::MAX {
            Some(at + utf8_width(line[i]))
        } else {
            None
        },
        None => None,
    }
}

/// Where the search goes on behind a match that was found from `start`: where it ended, or
/// one character later where it was empty. None where that is past the line or no progress.
pub open spec fn resume_at(line: Seq<char>, start: int, found: (usize, usize)) -> Option<int> {
    let next = if found.1 > found.0 {
        Some(found.1 as int)
    } else {
        next_offset(line, found.1 as int)
    };
    match next {
        Some(n) => if n > start && char_from(line, 0, n) is Some {
            Some(n)
        } else {
            None
        },
        None => None,
    }
}

/// The matches of a pattern in a line from byte offset `start` on.
pub open spec fn match_ranges(pattern: Seq<char>, line: Seq<char>, start: int) -> Seq<(usize, usize)>
    decreases usize::MAX - start,
{
    if start < 0 || start > usize::MAX {
        Seq::empty()
    } else {
        match pattern_find(pattern, line, start as usize) {
            Some(m) => match resume_at(line, start, m) {
                Some(n) => if n > start {
                    seq![m] + match_ranges(pattern, line, n)
                } else {
                    seq![m]
                },
                None => seq![m],
            },
            None => Seq::empty(),
        }
    }
}

/// Where the search goes on behind a match that was found from `start`.
pub fn resume(v: &Vec<char>, start: usize, found: (usize, usize)) -> (r: Option<usize>)
    ensures
        match r {
            Some(n) => resume_at(v@, start as int, found) == Some(n as int),
            None => resume_at(v@, start as int, found) is None,
        },
{
    let next: usize = if found.1 > found.0 {
        found.1
    } else {
        match char_index(v, found.1) {
            Some(i) => {
                if i >= v.len() {
                    return None;
                }
                let w: usize = byte_width(v[i]);
                if found.1 > usize::MAX - w {
                    return None;
                }
                found.1 + w
            },
            None => {
                return None;
            },
        }
    };
    if next > start && char_index(v, next).is_some() {
        Some(next)
    } else {
        None
    }
}

/// The byte ranges of a line that match.
pub fn line_ranges(re: &Regex, line: &str) -> (r: Vec<(usize, usize)>)
    ensures
        r@ == match_ranges(pattern_of(*re), line@, 0),
{
    let v = chars_of(line);
    let ghost p = pattern_of(*re);
    let ghost want = match_ranges(p, line@, 0);
    let mut out: Vec<(usize, usize)> = Vec::new();
    let mut start: usize = 0;
    assert(out@ + want =~= want);
    loop
        invariant
            p == pattern_of(*re),
            v@ == line@,
            char_from(line@, 0, start as int) is Some,
            want == match_ranges(p, line@, 0),
            out@ + match_ranges(p, line@, start as int) == want,
        decreases usize::MAX - start,
    {
        match find_from(re, line, start) {
            Some(m) => {
                let ghost so_far = out@;
                out.push(m);
                match resume(&v, start, m) {
                    Some(n) => {
                        assert(so_far + (seq![m] + match_ranges(p, line@, n as int)) =~= out@
                            + match_ranges(p, line@, n as int));
                        start = n;
                    },
                    None => {
                        assert(out@ =~= so_far + seq![m]);
                        return out;
                    },
                }
            },
            None => {
                assert(out@ + Seq::<(usize, usize)>::empty() =~= out@);
                return out;
            },
        }
    }
}

/// One matching line within a file: its number, from 1, its text, and the byte ranges of
/// the text that matched.
pub struct LineMatch {
    pub line: usize,
    pub text: String,
    pub ranges: Vec<(usize, usize)>,
}

/// The contents of a matching line.
pub struct LineView {
    pub line: usize,
    pub text: Seq<char>,
    pub ranges: Seq<(usize, usize)>,
}

impl View for LineMatch {
    type V = LineView;

    open spec fn view(&self) -> LineView {
        LineView { line: self.line, text: self.text@, ranges: self.ranges@ }
    }
}

/// The contents of a list of matching lines.
pub open spec fn line_views(v: Seq<LineMatch>) -> Seq<LineView> {
    Seq::new(v.len(), |i: int| v[i]@)
}

/// All matches within one file.
pub struct FileMatches {
    pub path: String,
    /// The path below the workspace root, for display.
    pub rel: String,
    pub lines: Vec<LineMatch>,
}

/// The contents of a file's matches.
pub struct FileView {
    pub path: Seq<char>,
    pub rel: Seq<char>,
    pub lines: Seq<LineView>,
}

impl View for FileMatches {
    type V = FileView;

    open spec fn view(&self) -> FileView {
        FileView { path: self.path@, rel: self.rel@, lines: line_views(self.lines@) }
    }
}

/// The contents of a list of files.
pub open spec fn file_views(v: Seq<FileMatches>) -> Seq<FileView> {
    Seq::new(v.len(), |i: int| v[i]@)
}

/// The most matching lines that one file gives.
pub const MAX_LINES: usize = 200;

/// The largest file that is searched, in bytes.
pub const MAX_FILE_BYTES: u64 = 2_000_000;

/// The number of matching lines at which a search stops.
pub const MAX_TOTAL_MATCHES: usize = 5000;

/// The number of files that are reported together.
pub const BATCH_FILES: usize = 12;

/// How many bytes at the front of a file are looked at for a zero.
pub const SNIFFED_BYTES: usize = 8000;

/// The matching lines among the first `n`, the first `MAX_LINES` of them.
pub open spec fn matching_lines(pattern: Seq<char>, lines: Seq<Seq<char>>, n: int) -> Seq<LineView>
    decreases n,
{
    if n <= 0 {
        Seq::empty()
    } else {
        let rest = matching_lines(pattern, lines, n - 1);
        let ranges = match_ranges(pattern, lines[n - 1], 0);
        if rest.len() >= MAX_LINES || ranges.len() == 0 {
            rest
        } else {
            rest.push(LineView { line: n as usize, text: lines[n - 1], ranges })
        }
    }
}

proof fn lemma_matching_full(pattern: Seq<char>, lines: Seq<Seq<char>>, k: int, n: int)
    requires
        0 <= k <= n,
        matching_lines(pattern, lines, k).len() >= MAX_LINES,
    ensures
        matching_lines(pattern, lines, n) == matching_lines(pattern, lines, k),
    decreases n - k,
{
    if k < n {
        lemma_matching_full(pattern, lines, k, n - 1);
    }
}

proof fn lemma_matching_bounded(pattern: Seq<char>, lines: Seq<Seq<char>>, n: int)
    ensures
        matching_lines(pattern, lines, n).len() <= MAX_LINES,
    decreases n,
{
    if n > 0 {
        lemma_matching_bounded(pattern, lines, n - 1);
    }
}

/// The matching lines of a text, the first `MAX_LINES` of them.
pub fn scan_text(re: &Regex, text: &str) -> (r: Vec<LineMatch>)
    ensures
        line_views(r@) == matching_lines(
            pattern_of(*re),
            bare_lines(text@),
            bare_lines(text@).len() as int,
        ),
        r@.len() <= MAX_LINES,
{
    let mut lines = plain_lines(text);
    let ghost p = pattern_of(*re);
    let ghost all = bare_lines(text@);
    let n: usize = lines.len();
    assert(views(lines@).len() == n);
    let mut out: Vec<LineMatch> = Vec::new();
    assert(line_views(out@) =~= Seq::<LineView>::empty());
    let mut k: usize = 0;
    while k < n
        invariant
            p == pattern_of(*re),
            n == lines@.len(),
            all == views(lines@),
            all == bare_lines(text@),
            k <= n,
            line_views(out@) == matching_lines(p, all, k as int),
            out@.len() < MAX_LINES,
        decreases n - k,
    {
        assert(all[k as int] == lines@[k as int]@);
        let ranges = line_ranges(re, lines[k].as_str());
        if ranges.len() > 0 {
            let ghost so_far = line_views(out@);
            let m = LineMatch { line: k + 1, text: lines[k].as_str().to_owned(), ranges };
            let ghost mv = m@;
            out.push(m);
            assert(line_views(out@) =~= so_far.push(mv));
            assert(line_views(out@).len() == out@.len());
            if out.len() >= MAX_LINES {
                proof {
                    lemma_matching_full(p, all, k + 1, n as int);
                    lemma_matching_bounded(p, all, k + 1);
                }
                return out;
            }
        }
        k = k + 1;
    }
    out
}

/// Whether one of the first `SNIFFED_BYTES` bytes is zero.
pub open spec fn looks_binary(bytes: Seq<u8>) -> bool {
    exists|i: int| 0 <= i < bytes.len() && i < SNIFFED_BYTES && #[trigger] bytes[i] == 0
}

/// Whether one of the first `SNIFFED_BYTES` bytes is zero.
pub fn sniff(bytes: &Vec<u8>) -> (r: bool)
    ensures
        r == looks_binary(bytes@),
{
    let mut k: usize = 0;
    while k < bytes.len() && k < SNIFFED_BYTES
        invariant
            k <= bytes@.len(),
            k <= SNIFFED_BYTES,
            forall|i: int| 0 <= i < k ==> bytes@[i] != 0,
        decreases bytes.len() - k,
    {
        if bytes[k] == 0 {
            assert(bytes@[k as int] == 0);
            return true;
        }
        k = k + 1;
    }
    false
}

/// The matching lines of a file: none where it looks binary or is not UTF-8.
pub open spec fn file_lines(pattern: Seq<char>, bytes: Seq<u8>) -> Seq<LineView> {
    if looks_binary(bytes) || !vstd::utf8::valid_utf8(bytes) {
        Seq::empty()
    } else {
        let lines = bare_lines(vstd::utf8::decode_utf8(bytes));
        matching_lines(pattern, lines, lines.len() as int)
    }
}

/// The matching lines of a file: none where it looks binary or is not UTF-8.
pub fn scan_file(re: &Regex, bytes: &Vec<u8>) -> (r: Vec<LineMatch>)
    ensures
        line_views(r@) == file_lines(pattern_of(*re), bytes@),
        r@.len() <= MAX_LINES,
{
    let none: Vec<LineMatch> = Vec::new();
    assert(line_views(none@) =~= Seq::<LineView>::empty());
    if sniff(bytes) {
        return none;
    }
    match from_utf8(bytes) {
        Some(text) => scan_text(re, text.as_str()),
        None => none,
    }
}

/// Whether a file is read at all: its path passes and it is not too large.
pub fn wants_file(filters: &Filters, rel: &str, size: u64) -> (r: bool)
    ensures
        r == ((filters.includes().len() == 0 || any_matches(filters.includes(), rel@))
            && !any_matches(filters.excludes(), rel@) && size <= MAX_FILE_BYTES),
{
    filters.allows(rel) && size <= MAX_FILE_BYTES
}

/// The state of a search: the files that wait to be reported, and the matching lines so far.
pub struct SearchRun {
    batch: Vec<FileMatches>,
    total: usize,
}

/// The state of a search.
pub struct RunView {
    pub batch: Seq<FileView>,
    pub total: int,
}

impl View for SearchRun {
    type V = RunView;

    closed spec fn view(&self) -> RunView {
        RunView { batch: file_views(self.batch@), total: self.total as int }
    }
}

/// The state after one more file, what is reported at once, and whether the search is over.
pub open spec fn run_step(run: RunView, file: FileView) -> (RunView, Seq<FileView>, bool) {
    let total = run.total + file.lines.len();
    let batch = if file.lines.len() > 0 {
        run.batch.push(file)
    } else {
        run.batch
    };
    let done = total >= MAX_TOTAL_MATCHES;
    if batch.len() >= BATCH_FILES || done {
        (RunView { batch: Seq::empty(), total }, batch, done)
    } else {
        (RunView { batch, total }, Seq::empty(), done)
    }
}

impl SearchRun {
    /// Whether the search may still take files.
    pub open spec fn running(&self) -> bool {
        self@.total < MAX_TOTAL_MATCHES && self@.batch.len() < BATCH_FILES
    }

    /// A search that has seen nothing.
    pub fn new() -> (r: SearchRun)
        ensures
            r@ == (RunView { batch: Seq::empty(), total: 0 }),
            r.running(),
    {
        let r = SearchRun { batch: Vec::new(), total: 0 };
        assert(r@.batch =~= Seq::<FileView>::empty());
        r
    }

    /// Takes one file: its path, the path below the root, and its bytes. Gives back the files
    /// to report now and whether the search is over.
    pub fn take_file(&mut self, re: &Regex, path: &str, rel: &str, bytes: &Vec<u8>) -> (r: (
        Vec<FileMatches>,
        bool,
    ))
        requires
            old(self).running(),
        ensures
            (final(self)@, file_views(r.0@), r.1) == run_step(
                old(self)@,
                (FileView {
                    path: path@,
                    rel: rel@,
                    lines: file_lines(pattern_of(*re), bytes@),
                }),
            ),
            !r.1 ==> final(self).running(),
    {
        let lines = scan_file(re, bytes);
        let ghost before = file_views(self.batch@);
        let n: usize = lines.len();
        assert(line_views(lines@).len() == n);
        self.total = self.total + n;
        let file = FileMatches { path: path.to_owned(), rel: rel.to_owned(), lines };
        if n > 0 {
            let ghost fv = file@;
            self.batch.push(file);
            assert(file_views(self.batch@) =~= before.push(fv));
        }
        let done = self.total >= MAX_TOTAL_MATCHES;
        let mut out: Vec<FileMatches> = Vec::new();
        assert(file_views(out@) =~= Seq::<FileView>::empty());
        if self.batch.len() >= BATCH_FILES || done {
            std::mem::swap(&mut out, &mut self.batch);
        }
        (out, done)
    }

    /// Ends the search: the files that are still to be reported.
    pub fn finish(self) -> (r: Vec<FileMatches>)
        ensures
            file_views(r@) == self@.batch,
    {
        self.batch
    }
}

/// What a search over the files reports, with what is left to report at the end.
pub open spec fn reported(run: RunView, files: Seq<FileView>) -> Seq<FileView>
    decreases files.len(),
{
    if files.len() == 0 {
        run.batch
    } else {
        let (next, out, done) = run_step(run, files[0]);
        if done {
            out
        } else {
            out + reported(next, files.drop_first())
        }
    }
}

/// The files with a match, up to the one at which the limit is reached.
pub open spec fn hits(total: int, files: Seq<FileView>) -> Seq<FileView>
    decreases files.len(),
{
    if files.len() == 0 {
        Seq::empty()
    } else {
        let own = if files[0].lines.len() > 0 {
            seq![files[0]]
        } else {
            Seq::empty()
        };
        let now = total + files[0].lines.len();
        if now >= MAX_TOTAL_MATCHES {
            own
        } else {
            own + hits(now, files.drop_first())
        }
    }
}

/// A search reports every file with a match once and in order, up to its limit, however the
/// files fall into batches.
pub proof fn law_search_reports_every_hit_once(run: RunView, files: Seq<FileView>)
    ensures
        reported(run, files) == run.batch + hits(run.total, files),
    decreases files.len(),
{
    if files.len() == 0 {
        assert(run.batch + Seq::<FileView>::empty() =~= run.batch);
    } else {
        let (next, out, done) = run_step(run, files[0]);
        let own = if files[0].lines.len() > 0 {
            seq![files[0]]
        } else {
            Seq::empty()
        };
        if !done {
            law_search_reports_every_hit_once(next, files.drop_first());
            assert(out + next.batch =~= run.batch + own);
            assert(out + (next.batch + hits(next.total, files.drop_first())) =~= run.batch + (own
                + hits(next.total, files.drop_first())));
        } else {
            assert(out =~= run.batch + own);
        }
    }
}

/// What one text becomes when every match in it is replaced; none where it stays, where
/// matching fails, and where the matches overlap.
pub open spec fn rewritten(pattern: Seq<char>, text: Seq<char>, with: Seq<char>) -> Option<Seq<char>> {
    if !can_replace(pattern, text) {
        None
    } else {
        match pattern_replace(pattern, text, with) {
            Some(s) => if s == text {
                None
            } else {
                Some(s)
            },
            None => None,
        }
    }
}

/// The text with every match replaced, where that changes it.
pub fn replace_in(re: &Regex, text: &str, replacement: &str) -> (r: Option<String>)
    ensures
        opt_view(r) == rewritten(pattern_of(*re), text@, replacement@),
{
    if !is_replaceable(re, text) {
        return None;
    }
    match replace_matches(re, text, replacement) {
        Some(s) => {
            if same(s.as_str(), text) {
                None
            } else {
                Some(s)
            }
        },
        None => None,
    }
}

/// What each of the texts becomes; none for those that stay as they are. Nothing changes
/// where the query is empty or does not compile.
pub fn replace_all(texts: &Vec<String>, query: &str, opts: SearchOpts, replacement: &str) -> (r: Vec<
    Option<String>,
>)
    ensures
        r@.len() == texts@.len(),
        forall|i: int|
            0 <= i < r@.len() ==> opt_view(#[trigger] r@[i]) == (if query@.len() == 0
                || !compiles(query_pattern(query@, opts)) {
                None
            } else {
                rewritten(query_pattern(query@, opts), texts@[i]@, replacement@)
            }),
{
    let re = build_regex(query, opts);
    let mut out: Vec<Option<String>> = Vec::new();
    let mut k: usize = 0;
    while k < texts.len()
        invariant
            k <= texts@.len(),
            out@.len() == k,
            match re {
                Some(x) => query@.len() > 0 && compiles(query_pattern(query@, opts)) && pattern_of(x)
                    == query_pattern(query@, opts),
                None => query@.len() == 0 || !compiles(query_pattern(query@, opts)),
            },
            forall|i: int|
                0 <= i < k ==> opt_view(#[trigger] out@[i]) == (if query@.len() == 0
                    || !compiles(query_pattern(query@, opts)) {
                    None
                } else {
                    rewritten(query_pattern(query@, opts), texts@[i]@, replacement@)
                }),
        decreases texts.len() - k,
    {
        let one = match &re {
            Some(x) => replace_in(x, texts[k].as_str(), replacement),
            None => None,
        };
        out.push(one);
        k = k + 1;
    }
    out
}

/// The directories that are never worth indexing or searching.
pub open spec fn skip_dirs() -> Seq<Seq<char>> {
    seq![
        ".git"@,
        ".svn"@,
        ".hg"@,
        "target"@,
        "node_modules"@,
        ".aether"@,
        "dist"@,
        "build"@,
        "out"@,
        ".next"@,
        ".nuxt"@,
        ".svelte-kit"@,
        ".venv"@,
        "venv"@,
        "bin"@,
        "obj"@,
        "Pods"@,
        ".expo"@,
        "__pycache__"@,
        ".gradle"@,
        "DerivedData"@,
        "coverage"@,
        ".cache"@,
    ]
}

/// Whether a directory is passed over: version control, builds and dependencies.
pub fn skips_dir(name: &str) -> (r: bool)
    ensures
        r == skip_dirs().contains(name@),
{
    let all: [&str; 23] = [
        ".git",
        ".svn",
        ".hg",
        "target",
        "node_modules",
        ".aether",
        "dist",
        "build",
        "out",
        ".next",
        ".nuxt",
        ".svelte-kit",
        ".venv",
        "venv",
        "bin",
        "obj",
        "Pods",
        ".expo",
        "__pycache__",
        ".gradle",
        "DerivedData",
        "coverage",
        ".cache",
    ];
    let ghost names = skip_dirs();
    assert(forall|i: int| 0 <= i < 23 ==> all@[i]@ == names[i]);
    let mut k: usize = 0;
    while k < 23
        invariant
            k <= 23,
            names == skip_dirs(),
            names.len() == 23,
            forall|i: int| 0 <= i < 23 ==> all@[i]@ == names[i],
            forall|i: int| 0 <= i < k ==> names[i] != name@,
        decreases 23 - k,
    {
        if same(all[k], name) {
            assert(names[k as int] == name@);
            return true;
        }
        k = k + 1;
    }
    false
}

/// Only a search that does not match case has the flag for it, in front of the pattern that it
/// has otherwise; only one for whole words stands between word boundaries; and a query that is
/// no pattern is escaped.
pub proof fn law_options_make_the_pattern(query: Seq<char>, whole_word: bool, regex: bool)
    ensures
        query_pattern(query, SearchOpts { case_sensitive: false, whole_word, regex }) == "(?i)"@
            + query_pattern(query, SearchOpts { case_sensitive: true, whole_word, regex }),
        query_pattern(query, SearchOpts { case_sensitive: true, whole_word: true, regex }) == "\\b(?:"@
            + query_pattern(query, SearchOpts { case_sensitive: true, whole_word: false, regex })
            + ")\\b"@,
        query_pattern(query, SearchOpts { case_sensitive: true, whole_word: false, regex: true }) == query,
        unescaped(
            query_pattern(query, SearchOpts { case_sensitive: true, whole_word: false, regex: false }),
            0,
        ) == query,
{
    lemma_escape(query);
}

/// Whether a character means something in a pattern, so that a text has to escape it.
pub open spec fn needs_escape(c: char) -> bool {
    "\\^$.|?*+()[]{}"@.contains(c)
}

proof fn lemma_needs_escape(c: char)
    ensures
        needs_escape(c) == is_meta(c),
{
    reveal_strlit("\\^$.|?*+()[]{}");
    let s = "\\^$.|?*+()[]{}"@;
    assert(s.len() == 14);
    assert(s[0] == '\\' && s[1] == '^' && s[2] == '$' && s[3] == '.' && s[4] == '|' && s[5] == '?' && s[6]
        == '*' && s[7] == '+' && s[8] == '(' && s[9] == ')' && s[10] == '[' && s[11] == ']' && s[12] == '{'
        && s[13] == '}');
    if s.contains(c) {
        let i = choose|i: int| 0 <= i < s.len() && s[i] == c;
        assert(0 <= i < 14);
    }
}

/// Escaping puts one backslash before each character that means something in a pattern, and
/// nothing else: it goes through the text character by character.
pub proof fn law_escape_goes_by_characters(s: Seq<char>, c: char)
    ensures
        escaped(Seq::empty()).len() == 0,
        needs_escape(c) ==> escaped(s.push(c)) == escaped(s) + seq!['\\', c],
        !needs_escape(c) ==> escaped(s.push(c)) == escaped(s).push(c),
{
    lemma_needs_escape(c);
    assert(s.push(c).drop_last() =~= s);
    if is_meta(c) {
        assert(escaped(s).push('\\').push(c) =~= escaped(s) + seq!['\\', c]);
    }
}

proof fn lemma_glob_concat(a: Seq<char>, b: Seq<char>, i: int)
    requires
        0 <= i <= a.len(),
        b.len() == 0 || b[0] != '*',
    ensures
        glob_body(a + b, i) == glob_body(a, i) + glob_body(b, 0),
    decreases a.len() - i,
{
    let ab = a + b;
    if i >= a.len() {
        lemma_glob_shift(a, b, 0);
        assert(glob_body(a, i) + glob_body(b, 0) =~= glob_body(b, 0));
    } else if a[i] == '*' && i + 1 < a.len() && a[i + 1] == '*' {
        lemma_glob_concat(a, b, i + 2);
        assert(glob_body(ab, i) =~= glob_body(a, i) + glob_body(b, 0));
    } else {
        lemma_glob_concat(a, b, i + 1);
        assert(ab[i] == a[i]);
        if i + 1 < ab.len() && i + 1 >= a.len() {
            assert(ab[i + 1] == b[0]);
        }
        assert(glob_body(ab, i) =~= glob_body(a, i) + glob_body(b, 0));
    }
}

proof fn lemma_glob_shift(a: Seq<char>, b: Seq<char>, j: int)
    requires
        0 <= j,
    ensures
        glob_body(a + b, a.len() + j) == glob_body(b, j),
    decreases b.len() - j,
{
    let ab = a + b;
    if j < b.len() {
        assert(ab[a.len() + j] == b[j]);
        if j + 1 < b.len() {
            assert(ab[a.len() + j + 1] == b[j + 1]);
            lemma_glob_shift(a, b, j + 2);
        }
        lemma_glob_shift(a, b, j + 1);
    }
}

/// A glob stands for its parts one behind the other: two stars for anything, one star for
/// anything within a segment, a question mark for one character within a segment, and every
/// other character for itself.
pub proof fn law_globs_go_by_parts(a: Seq<char>, b: Seq<char>, c: char)
    requires
        b.len() == 0 || b[0] != '*',
    ensures
        glob_body(a + b, 0) == glob_body(a, 0) + glob_body(b, 0),
        glob_body(seq!['*', '*'], 0) == ".*"@,
        glob_body(seq!['*'], 0) == "[^/]*"@,
        glob_body(seq!['?'], 0) == "[^/]"@,
        c != '*' && c != '?' ==> glob_body(seq![c], 0) == escaped(seq![c]),
        glob_body(Seq::empty(), 0).len() == 0,
{
    lemma_glob_concat(a, b, 0);
    let s = seq!['*', '*'];
    assert(glob_body(s, 2) =~= Seq::<char>::empty());
    assert(glob_body(s, 0) =~= ".*"@);
    assert(glob_body(seq!['*'], 1) =~= Seq::<char>::empty());
    assert(glob_body(seq!['*'], 0) =~= "[^/]*"@);
    assert(glob_body(seq!['?'], 1) =~= Seq::<char>::empty());
    assert(glob_body(seq!['?'], 0) =~= "[^/]"@);
    if c != '*' && c != '?' {
        assert(glob_body(seq![c], 1) =~= Seq::<char>::empty());
        assert(seq![c].drop_last() =~= Seq::<char>::empty());
        assert(escaped(seq![c].drop_last()) =~= Seq::<char>::empty());
        assert(glob_body(seq![c], 0) =~= escaped(seq![c]));
    }
}

/// A glob with a slash is held against the whole path, and one without against any part of it
/// between two slashes or the ends.
pub proof fn law_globs_are_anchored(g: Seq<char>)
    ensures
        g.contains('/') ==> pattern_of_glob(g) == "^"@ + glob_body(g, 0) + "$"@,
        !g.contains('/') ==> pattern_of_glob(g) == "(^|/)"@ + glob_body(g, 0) + "(/|$)"@,
{
    reveal_strlit("/");
    if holds(g, "/"@) {
        let at = choose|at: int| #[trigger] crate::text::occurs_at(g, "/"@, at);
        assert(g.subrange(at, at + 1)[0] == '/');
        assert(g[at] == '/');
    }
    if g.contains('/') {
        let at = choose|at: int| 0 <= at < g.len() && g[at] == '/';
        assert(g.subrange(at, at + 1) =~= "/"@);
        assert(crate::text::occurs_at(g, "/"@, at));
    }
}

/// Every glob of a list that compiles gives its pattern, in order; where `skip_empty`, a blank
/// one gives none.
pub proof fn law_every_glob_counts(globs: Seq<Seq<char>>, g: Seq<char>, skip_empty: bool)
    ensures
        glob_patterns(Seq::empty(), skip_empty).len() == 0,
        compiles(pattern_of_glob(trimmed(g))) && (trimmed(g).len() > 0 || !skip_empty) ==> glob_patterns(
            globs.push(g),
            skip_empty,
        ) == glob_patterns(globs, skip_empty).push(pattern_of_glob(trimmed(g))),
        !compiles(pattern_of_glob(trimmed(g))) || trimmed(g).len() == 0 && skip_empty ==> glob_patterns(
            globs.push(g),
            skip_empty,
        ) == glob_patterns(globs, skip_empty),
{
    assert(globs.push(g).drop_last() =~= globs);
}

/// The matches of a line start with the first one, and those behind a match that is not empty
/// are the matches from its end on. A line without a match has none.
pub proof fn law_matches_follow_each_other(pattern: Seq<char>, line: Seq<char>, start: usize)
    ensures
        match pattern_find(pattern, line, start) {
            None => match_ranges(pattern, line, start as int).len() == 0,
            Some(m) => {
                let all = match_ranges(pattern, line, start as int);
                &&& all.len() > 0
                &&& all[0] == m
                &&& m.0 < m.1 && m.1 > start && char_from(line, 0, m.1 as int) is Some ==> all.skip(1)
                    == match_ranges(pattern, line, m.1 as int)
                &&& forall|i: int|
                    m.0 == m.1 && m.1 >= start && #[trigger] char_from(line, 0, m.1 as int) == Some(i) && i
                        < line.len() && m.1 + utf8_width(line[i]) <= usize::MAX && char_from(
                        line,
                        0,
                        m.1 + utf8_width(line[i]),
                    ) is Some ==> all.skip(1) == match_ranges(pattern, line, m.1 + utf8_width(line[i]))
            },
        },
{
    if let Some(m) = pattern_find(pattern, line, start) {
        let all = match_ranges(pattern, line, start as int);
        if let Some(n) = resume_at(line, start as int, m) {
            assert(all.skip(1) =~= match_ranges(pattern, line, n));
        }
    }
}

proof fn lemma_matching(pattern: Seq<char>, lines: Seq<Seq<char>>, n: int)
    requires
        0 <= n <= lines.len() <= usize::MAX,
    ensures
        ({
            let r = matching_lines(pattern, lines, n);
            &&& r.len() <= 200
            &&& forall|i: int|
                0 <= i < r.len() ==> 1 <= (#[trigger] r[i]).line <= n && r[i].text == lines[r[i].line - 1]
                    && r[i].ranges == match_ranges(pattern, lines[r[i].line - 1], 0) && r[i].ranges.len() > 0
            &&& forall|i: int, j: int|
                0 <= i < j < r.len() ==> (#[trigger] r[i]).line < (#[trigger] r[j]).line
            &&& r.len() < 200 ==> forall|k: int|
                0 <= k < n && match_ranges(pattern, #[trigger] lines[k], 0).len() > 0 ==> exists|i: int|
                    0 <= i < r.len() && (#[trigger] r[i]).line == k + 1
        }),
    decreases n,
{
    if n > 0 {
        lemma_matching(pattern, lines, n - 1);
        let b = matching_lines(pattern, lines, n - 1);
        let r = matching_lines(pattern, lines, n);
        assert forall|k: int| r.len() < 200 && 0 <= k < n && match_ranges(
            pattern,
            #[trigger] lines[k],
            0,
        ).len() > 0 implies exists|i: int| 0 <= i < r.len() && (#[trigger] r[i]).line == k + 1 by {
            if k == n - 1 {
                assert(r[r.len() - 1].line == k + 1);
            } else {
                let i = choose|i: int| 0 <= i < b.len() && (#[trigger] b[i]).line == k + 1;
                assert(r[i] == b[i]);
            }
        }
    }
}

/// A file is reported line by line: each matching line once and in order, with its number from
/// one, its text and its matches, and no other line; at two hundred lines it is cut off.
pub proof fn law_matching_lines_are_reported(pattern: Seq<char>, lines: Seq<Seq<char>>, k: int)
    requires
        lines.len() <= usize::MAX,
        0 <= k < lines.len(),
    ensures
        ({
            let r = matching_lines(pattern, lines, lines.len() as int);
            &&& r.len() <= 200
            &&& forall|i: int|
                0 <= i < r.len() ==> 1 <= (#[trigger] r[i]).line <= lines.len() && r[i].text
                    == lines[r[i].line - 1] && r[i].ranges == match_ranges(pattern, lines[r[i].line - 1], 0)
                    && r[i].ranges.len() > 0
            &&& forall|i: int, j: int|
                0 <= i < j < r.len() ==> (#[trigger] r[i]).line < (#[trigger] r[j]).line
            &&& r.len() < 200 && match_ranges(pattern, lines[k], 0).len() > 0 ==> exists|i: int|
                0 <= i < r.len() && (#[trigger] r[i]).line == k + 1
        }),
{
    lemma_matching(pattern, lines, lines.len() as int);
    let r = matching_lines(pattern, lines, lines.len() as int);
    if r.len() < 200 && match_ranges(pattern, lines[k], 0).len() > 0 {
        let i = choose|i: int| 0 <= i < r.len() && (#[trigger] r[i]).line == k + 1;
        assert(r[i].line == k + 1);
    }
}

/// A file with a zero among its first eight thousand bytes is not searched, nor is one that is
/// not text; a zero behind them does not matter.
pub proof fn law_binary_files_are_not_searched(pattern: Seq<char>, bytes: Seq<u8>, i: int)
    requires
        0 <= i < bytes.len(),
        bytes[i] == 0,
    ensures
        i < 8000 ==> file_lines(pattern, bytes).len() == 0,
        !vstd::utf8::valid_utf8(bytes) ==> file_lines(pattern, bytes).len() == 0,
        vstd::utf8::valid_utf8(bytes) && (forall|j: int| 0 <= j < bytes.len() && j < 8000 ==> bytes[j] != 0)
            ==> {
            let lines = bare_lines(vstd::utf8::decode_utf8(bytes));
            file_lines(pattern, bytes) == matching_lines(pattern, lines, lines.len() as int)
        },
{
}

/// A search is over once it has five thousand matching lines, and hands its files over by the
/// dozen or at its end: what waits is always fewer than a dozen. No file with a match is lost,
/// and none without one is reported.
pub proof fn law_search_hands_over_by_the_dozen(run: RunView, file: FileView)
    requires
        run.batch.len() < 12,
    ensures
        ({
            let (next, out, done) = run_step(run, file);
            &&& done == (run.total + file.lines.len() >= 5000)
            &&& next.total == run.total + file.lines.len()
            &&& next.batch.len() < 12
            &&& out.len() == 0 || next.batch.len() == 0
            &&& done ==> next.batch.len() == 0
            &&& out.len() > 0 && !done ==> out.len() == 12
            &&& file.lines.len() > 0 ==> out + next.batch == run.batch.push(file)
            &&& file.lines.len() == 0 ==> out + next.batch == run.batch
        }),
{
    let (next, out, done) = run_step(run, file);
    let all = if file.lines.len() > 0 {
        run.batch.push(file)
    } else {
        run.batch
    };
    assert(out + next.batch =~= all);
}

/// A text is rewritten where its matches can be replaced and that changes it, to what replacing
/// them gives; else it stays.
pub proof fn law_texts_are_rewritten_where_they_change(pattern: Seq<char>, text: Seq<char>, with: Seq<char>, new: Seq<char>)
    requires
        can_replace(pattern, text),
        pattern_replace(pattern, text, with) == Some(new),
    ensures
        new != text ==> rewritten(pattern, text, with) == Some(new),
        new == text ==> rewritten(pattern, text, with) is None,
{
}

} // verus!
