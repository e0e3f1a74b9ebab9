//! Ranked search over lines: quoted phrases and words, scored by how often they occur.
use vstd::prelude::*;

use crate::search::looks_binary;
use crate::search::sniff;
use crate::search::MAX_FILE_BYTES;
use crate::text::add_capped;
use crate::text::ascii_lower;
use crate::text::bare_lines;
use crate::text::capped;
use crate::text::chars_of;
use crate::text::contains;
use crate::text::from_utf8;
use crate::text::holds;
use crate::text::is_blank;
use crate::text::blank;
use crate::text::lower_ascii_char;
use crate::text::lowercase;
use crate::text::occurs_at;
use crate::text::plain_lines;
use crate::text::prefix_at;
use crate::text::same;
use crate::text::text_of;
use crate::text::to_lower;
use crate::text::trim;
use crate::text::trimmed;
use crate::text::views;

verus! {

/// The number of scored lines at which scanning stops.
pub const MAX_CANDIDATES: usize = 3000;

/// The most files that are scanned.
pub const MAX_FILES_SCANNED: usize = 20_000;

/// The words that say nothing about what is looked for.
pub open spec fn stopwords() -> Seq<Seq<char>> {
    seq![
        "a"@,
        "an"@,
        "and"@,
        "the"@,
        "of"@,
        "to"@,
        "in"@,
        "on"@,
        "for"@,
        "is"@,
        "it"@,
        "its"@,
        "as"@,
        "at"@,
        "be"@,
        "by"@,
        "or"@,
        "if"@,
        "no"@,
        "not"@,
        "this"@,
        "that"@,
        "these"@,
        "those"@,
        "with"@,
        "from"@,
        "into"@,
        "about"@,
        "over"@,
        "under"@,
        "then"@,
        "than"@,
        "so"@,
        "we"@,
        "i"@,
        "you"@,
        "he"@,
        "she"@,
        "they"@,
        "them"@,
        "us"@,
        "our"@,
        "your"@,
        "my"@,
        "me"@,
        "do"@,
        "did"@,
        "does"@,
        "done"@,
        "can"@,
        "could"@,
        "should"@,
        "would"@,
        "will"@,
        "what"@,
        "which"@,
        "who"@,
        "when"@,
        "where"@,
        "why"@,
        "how"@,
        "here"@,
        "there"@,
        "all"@,
        "any"@,
        "one"@,
        "more"@,
        "most"@,
        "some"@,
        "such"@,
        "only"@,
        "just"@,
        "also"@,
        "new"@,
        "use"@,
        "used"@,
        "using"@,
        "get"@,
        "got"@,
        "make"@,
        "made"@,
        "see"@,
        "want"@,
        "need"@,
        "yes"@,
        "like"@,
    ]
}

/// Whether a word says nothing about what is looked for.
pub fn is_stopword(word: &str) -> (r: bool)
    ensures
        r == stopwords().contains(word@),
{
    let all: [&str; 86] = [
        "a",
        "an",
        "and",
        "the",
        "of",
        "to",
        "in",
        "on",
        "for",
        "is",
        "it",
        "its",
        "as",
        "at",
        "be",
        "by",
        "or",
        "if",
        "no",
        "not",
        "this",
        "that",
        "these",
        "those",
        "with",
        "from",
        "into",
        "about",
        "over",
        "under",
        "then",
        "than",
        "so",
        "we",
        "i",
        "you",
        "he",
        "she",
        "they",
        "them",
        "us",
        "our",
        "your",
        "my",
        "me",
        "do",
        "did",
        "does",
        "done",
        "can",
        "could",
        "should",
        "would",
        "will",
        "what",
        "which",
        "who",
        "when",
        "where",
        "why",
        "how",
        "here",
        "there",
        "all",
        "any",
        "one",
        "more",
        "most",
        "some",
        "such",
        "only",
        "just",
        "also",
        "new",
        "use",
        "used",
        "using",
        "get",
        "got",
        "make",
        "made",
        "see",
        "want",
        "need",
        "yes",
        "like",
    ];
    let ghost words = stopwords();
    assert(forall|i: int| 0 <= i < 86 ==> all@[i]@ == words[i]);
    let mut k: usize = 0;
    while k < 86
        invariant
            k <= 86,
            words == stopwords(),
            words.len() == 86,
            forall|i: int| 0 <= i < 86 ==> all@[i]@ == words[i],
            forall|i: int| 0 <= i < k ==> words[i] != word@,
        decreases 86 - k,
    {
        if same(all[k], word) {
            assert(words[k as int] == word@);
            return true;
        }
        k = k + 1;
    }
    false
}

/// Where the quote that opened before `k` closes, or the end.
pub open spec fn quote_end(q: Seq<char>, k: int) -> int
    decreases q.len() - k,
{
    if k < q.len() && q[k] != '"' {
        quote_end(q, k + 1)
    } else {
        k
    }
}

/// The quoted phrases from character `k` on that are not blank, in lower case, and what
/// stands outside quotes. A quote that does not close reaches to the end.
pub open spec fn phrases_from(q: Seq<char>, k: int) -> (Seq<Seq<char>>, Seq<char>)
    decreases q.len() - k,
    when 0 <= k
    via phrases_from_decreases
{
    if k >= q.len() {
        (Seq::empty(), Seq::empty())
    } else if q[k] == '"' {
        let e = quote_end(q, k + 1);
        let phrase = q.subrange(k + 1, e);
        let (ps, rest) = phrases_from(
            q,
            if e < q.len() {
                e + 1
            } else {
                e
            },
        );
        if is_blank(phrase) {
            (ps, rest)
        } else {
            (seq![lowercase(phrase)] + ps, rest)
        }
    } else {
        let (ps, rest) = phrases_from(q, k + 1);
        (ps, seq![q[k]] + rest)
    }
}

proof fn lemma_quote_end(q: Seq<char>, k: int)
    requires
        0 <= k <= q.len(),
    ensures
        k <= quote_end(q, k) <= q.len(),
    decreases q.len() - k,
{
    if k < q.len() && q[k] != '"' {
        lemma_quote_end(q, k + 1);
    }
}

#[via_fn]
proof fn phrases_from_decreases(q: Seq<char>, k: int) {
    if 0 <= k < q.len() {
        lemma_quote_end(q, k + 1);
    }
}

/// The quoted phrases of a query, in lower case, and what is left of it.
pub fn extract_phrases(query: &str) -> (r: (Vec<String>, String))
    ensures
        (views(r.0@), r.1@) == phrases_from(query@, 0),
{
    let v = chars_of(query);
    let n: usize = v.len();
    let ghost all = phrases_from(v@, 0);
    let mut phrases: Vec<String> = Vec::new();
    let mut rest = String::new();
    let mut k: usize = 0;
    assert(views(phrases@) + all.0 =~= all.0);
    assert(rest@ + all.1 =~= all.1);
    while k < n
        invariant
            n == v@.len(),
            v@ == query@,
            k <= n,
            all == phrases_from(v@, 0),
            views(phrases@) + phrases_from(v@, k as int).0 == all.0,
            rest@ + phrases_from(v@, k as int).1 == all.1,
        decreases n - k,
    {
        let ghost ps = views(phrases@);
        let ghost left = rest@;
        if v[k] == '"' {
            let mut e: usize = k + 1;
            while e < n && v[e] != '"'
                invariant
                    n == v@.len(),
                    k < e <= n,
                    quote_end(v@, e as int) == quote_end(v@, k + 1),
                decreases n - e,
            {
                e = e + 1;
            }
            let phrase = text_of(&v, k + 1, e);
            let next_at: usize = if e < n {
                e + 1
            } else {
                e
            };
            let ghost next = phrases_from(v@, next_at as int);
            if !blank(phrase.as_str()) {
                let low = to_lower(phrase.as_str());
                let ghost lv = low@;
                phrases.push(low);
                assert(views(phrases@) =~= ps.push(lv));
                assert(ps + (seq![lv] + next.0) =~= ps.push(lv) + next.0);
            }
            k = next_at;
        } else {
            rest.push(v[k]);
            let ghost next = phrases_from(v@, k + 1);
            assert(left + (seq![v@[k as int]] + next.1) =~= left.push(v@[k as int]) + next.1);
            k = k + 1;
        }
    }
    assert(views(phrases@) + Seq::<Seq<char>>::empty() =~= views(phrases@));
    assert(rest@ + Seq::<char>::empty() =~= rest@);
    (phrases, rest)
}

/// Whether a character belongs to a word.
pub open spec fn is_word_char(c: char) -> bool {
    ('0' <= c && c <= '9') || ('a' <= c && c <= 'z') || ('A' <= c && c <= 'Z') || c == '_'
}

/// The words of the first `n` characters, and the word that has begun.
pub open spec fn words_to(s: Seq<char>, n: int) -> (Seq<Seq<char>>, Seq<char>)
    decreases n,
{
    if n <= 0 {
        (Seq::empty(), Seq::empty())
    } else {
        let (done, cur) = words_to(s, n - 1);
        if is_word_char(s[n - 1]) {
            (done, cur.push(ascii_lower(s[n - 1])))
        } else if cur.len() > 0 {
            (done.push(cur), Seq::empty())
        } else {
            (done, cur)
        }
    }
}

/// The words of a text: letters, digits and underscores, in lower case.
pub open spec fn words_of(s: Seq<char>) -> Seq<Seq<char>> {
    let (done, cur) = words_to(s, s.len() as int);
    if cur.len() > 0 {
        done.push(cur)
    } else {
        done
    }
}

/// The words of a text, in lower case.
pub fn tokenize(s: &str) -> (r: Vec<String>)
    ensures
        views(r@) == words_of(s@),
{
    let v = chars_of(s);
    let mut out: Vec<String> = Vec::new();
    let mut cur = String::new();
    let mut k: usize = 0;
    assert(views(out@) =~= Seq::<Seq<char>>::empty());
    while k < v.len()
        invariant
            k <= v@.len(),
            (views(out@), cur@) == words_to(v@, k as int),
        decreases v.len() - k,
    {
        let c = v[k];
        if ('0' <= c && c <= '9') || ('a' <= c && c <= 'z') || ('A' <= c && c <= 'Z') || c == '_' {
            cur.push(lower_ascii_char(c));
        } else if !cur.as_str().is_empty() {
            let ghost done = views(out@);
            let ghost word = cur@;
            out.push(cur);
            cur = String::new();
            assert(views(out@) =~= done.push(word));
        }
        k = k + 1;
    }
    if !cur.as_str().is_empty() {
        let ghost done = views(out@);
        let ghost word = cur@;
        out.push(cur);
        assert(views(out@) =~= done.push(word));
    }
    out
}

/// The words that are not stopwords.
pub open spec fn telling(words: Seq<Seq<char>>) -> Seq<Seq<char>>
    decreases words.len(),
{
    if words.len() == 0 {
        Seq::empty()
    } else if stopwords().contains(words.last()) {
        telling(words.drop_last())
    } else {
        telling(words.drop_last()).push(words.last())
    }
}

fn drop_stopwords(words: Vec<String>) -> (r: Vec<String>)
    ensures
        views(r@) == telling(views(words@)),
{
    let ghost all = views(words@);
    let mut out: Vec<String> = Vec::new();
    assert(views(out@) =~= Seq::<Seq<char>>::empty());
    let mut k: usize = 0;
    while k < words.len()
        invariant
            k <= words@.len(),
            all == views(words@),
            views(out@) == telling(all.take(k as int)),
        decreases words.len() - k,
    {
        assert(all.take(k + 1).drop_last() =~= all.take(k as int));
        assert(all.take(k + 1).last() == words@[k as int]@);
        if !is_stopword(words[k].as_str()) {
            let ghost so_far = views(out@);
            out.push(words[k].as_str().to_owned());
            assert(views(out@) =~= so_far.push(words@[k as int]@));
        }
        k = k + 1;
    }
    assert(all.take(k as int) =~= all);
    out
}

/// What a query looks for.
pub struct Ranker {
    terms: Vec<String>,
    phrases: Vec<String>,
}

/// What a query looks for: its words, and the phrases it quotes.
pub struct RankerView {
    pub terms: Seq<Seq<char>>,
    pub phrases: Seq<Seq<char>>,
}

impl View for Ranker {
    type V = RankerView;

    closed spec fn view(&self) -> RankerView {
        RankerView { terms: views(self.terms@), phrases: views(self.phrases@) }
    }
}

/// What a query looks for.
pub open spec fn ranker_of(query: Seq<char>) -> RankerView {
    let (phrases, rest) = phrases_from(query, 0);
    RankerView { terms: telling(words_of(rest)), phrases }
}

/// How often `t` occurs in `s` from character `k` on, without overlap.
pub open spec fn occurrences(s: Seq<char>, t: Seq<char>, k: int) -> int
    decreases s.len() - k,
{
    if k < 0 || k >= s.len() || t.len() == 0 {
        0
    } else if occurs_at(s, t, k) {
        1 + occurrences(s, t, k + t.len())
    } else {
        occurrences(s, t, k + 1)
    }
}

fn count_occurrences(s: &str, t: &str) -> (r: usize)
    ensures
        r == occurrences(s@, t@, 0),
        r <= s@.len(),
{
    let v = chars_of(s);
    let w = chars_of(t);
    let n: usize = v.len();
    let m: usize = w.len();
    if m == 0 {
        return 0;
    }
    let mut k: usize = 0;
    let mut count: usize = 0;
    while k < n
        invariant
            n == v@.len(),
            m == w@.len(),
            w@ == t@,
            m > 0,
            k <= n,
            count <= k,
            count + occurrences(v@, w@, k as int) == occurrences(v@, w@, 0),
        decreases n - k,
    {
        if prefix_at(&v, k, t) {
            count = count + 1;
            k = k + m;
        } else {
            k = k + 1;
        }
    }
    count
}

/// Whether a line in lower case holds every phrase.
pub open spec fn holds_all(phrases: Seq<Seq<char>>, low: Seq<char>) -> bool {
    forall|i: int| 0 <= i < phrases.len() ==> holds(low, #[trigger] phrases[i])
}

/// What the first `n` words add to the score of a line in lower case, in tenths: ten for
/// the first occurrence and three for each further one.
pub open spec fn term_score(terms: Seq<Seq<char>>, low: Seq<char>, n: int) -> int
    decreases n,
{
    if n <= 0 {
        0
    } else {
        let count = occurrences(low, terms[n - 1], 0);
        term_score(terms, low, n - 1) + (if count > 0 {
            10 + (count - 1) * 3
        } else {
            0
        })
    }
}

/// The score of a line, in tenths; zero where nothing matched. Phrases are required: a line
/// that lacks one is no match, and each adds fifty.
pub open spec fn line_score(r: RankerView, line: Seq<char>) -> int {
    let low = lowercase(line);
    if holds_all(r.phrases, low) {
        50 * r.phrases.len() + term_score(r.terms, low, r.terms.len() as int)
    } else {
        0
    }
}

proof fn lemma_term_score(terms: Seq<Seq<char>>, low: Seq<char>, n: int)
    requires
        n <= terms.len(),
    ensures
        term_score(terms, low, n) >= 0,
    decreases n,
{
    if n > 0 {
        lemma_term_score(terms, low, n - 1);
    }
}

/// A line with every quoted phrase ranks above a line that lacks one, however often that line
/// has the words: the latter is no hit.
pub proof fn law_phrases_rank_above_words(r: RankerView, with: Seq<char>, without: Seq<char>)
    requires
        r.phrases.len() > 0,
        holds_all(r.phrases, lowercase(with)),
        !holds_all(r.phrases, lowercase(without)),
    ensures
        line_score(r, with) >= 50 * r.phrases.len(),
        line_score(r, with) > line_score(r, without),
        line_score(r, without) == 0,
{
    lemma_term_score(r.terms, lowercase(with), r.terms.len() as int);
}

impl Ranker {
    /// What a query looks for.
    pub fn new(query: &str) -> (r: Ranker)
        ensures
            r@ == ranker_of(query@),
    {
        let (phrases, rest) = extract_phrases(query);
        let words = tokenize(rest.as_str());
        Ranker { terms: drop_stopwords(words), phrases }
    }

    /// Whether the query looks for nothing.
    pub fn is_empty(&self) -> (r: bool)
        ensures
            r == (self@.terms.len() == 0 && self@.phrases.len() == 0),
    {
        self.terms.len() == 0 && self.phrases.len() == 0
    }

    /// The score of a line, in tenths, up to `usize::MAX`; none where nothing matched, or where
    /// a phrase is missing.
    pub fn score(&self, line: &str) -> (r: Option<usize>)
        ensures
            match r {
                Some(n) => line_score(self@, line@) > 0 && n == capped(line_score(self@, line@)),
                None => line_score(self@, line@) == 0,
            },
    {
        let low = to_lower(line);
        let ghost lv = low@;
        let ghost rv = self@;
        let mut total: usize = 0;
        let mut k: usize = 0;
        while k < self.phrases.len()
            invariant
                k <= self.phrases@.len(),
                lv == low@,
                lv == lowercase(line@),
                rv == self@,
                forall|i: int| 0 <= i < k ==> holds(lv, #[trigger] rv.phrases[i]),
                total == capped(50 * k),
            decreases self.phrases.len() - k,
        {
            assert(rv.phrases[k as int] == self.phrases@[k as int]@);
            if !contains(low.as_str(), self.phrases[k].as_str()) {
                assert(!holds_all(rv.phrases, lv));
                return None;
            }
            total = add_capped(total, 50);
            k = k + 1;
        }
        assert(holds_all(rv.phrases, lv));
        let ghost base = 50 * k;
        let mut j: usize = 0;
        while j < self.terms.len()
            invariant
                j <= self.terms@.len(),
                lv == low@,
                rv == self@,
                base >= 0,
                term_score(rv.terms, lv, j as int) >= 0,
                total == capped(base + term_score(rv.terms, lv, j as int)),
            decreases self.terms.len() - j,
        {
            assert(rv.terms[j as int] == self.terms@[j as int]@);
            let count: usize = count_occurrences(low.as_str(), self.terms[j].as_str());
            if count > 0 {
                let more: usize = count - 1;
                total = add_capped(total, 10);
                total = add_capped(total, more);
                total = add_capped(total, more);
                total = add_capped(total, more);
            }
            j = j + 1;
        }
        if total > 0 {
            Some(total)
        } else {
            None
        }
    }
}

/// A line that matched.
pub struct Hit {
    pub file: String,
    pub line: usize,
    /// In tenths.
    pub score: usize,
    pub text: String,
}

/// The contents of a hit.
pub struct HitView {
    pub file: Seq<char>,
    pub line: usize,
    pub score: usize,
    pub text: Seq<char>,
}

impl View for Hit {
    type V = HitView;

    open spec fn view(&self) -> HitView {
        HitView { file: self.file@, line: self.line, score: self.score, text: self.text@ }
    }
}

/// The contents of a list of hits.
pub open spec fn hit_views(v: Seq<Hit>) -> Seq<HitView> {
    Seq::new(v.len(), |i: int| v[i]@)
}

/// Where a hit goes among hits ordered best first: behind those that score no less.
pub open spec fn rank(sorted: Seq<HitView>, score: usize, k: int) -> int
    decreases sorted.len() - k,
{
    if k < sorted.len() && sorted[k].score >= score {
        rank(sorted, score, k + 1)
    } else {
        k
    }
}

/// The hits, best first; those of one score stay in order.
pub open spec fn best_first(hits: Seq<HitView>) -> Seq<HitView>
    decreases hits.len(),
{
    if hits.len() == 0 {
        Seq::empty()
    } else {
        let rest = best_first(hits.drop_last());
        rest.insert(rank(rest, hits.last().score, 0), hits.last())
    }
}

proof fn lemma_rank(sorted: Seq<HitView>, score: usize, k: int)
    requires
        0 <= k <= sorted.len(),
    ensures
        k <= rank(sorted, score, k) <= sorted.len(),
        forall|i: int| k <= i < rank(sorted, score, k) ==> (#[trigger] sorted[i]).score >= score,
        rank(sorted, score, k) < sorted.len() ==> sorted[rank(sorted, score, k)].score < score,
    decreases sorted.len() - k,
{
    if k < sorted.len() && sorted[k].score >= score {
        lemma_rank(sorted, score, k + 1);
    }
}

fn sort_hits(hits: Vec<Hit>) -> (r: Vec<Hit>)
    ensures
        hit_views(r@) == best_first(hit_views(hits@)),
{
    let ghost all = hit_views(hits@);
    let n: usize = hits.len();
    let mut left = hits;
    let mut out: Vec<Hit> = Vec::new();
    assert(hit_views(out@) =~= Seq::<HitView>::empty());
    let mut k: usize = 0;
    assert(all.skip(0) =~= all);
    left = reversed(left);
    while k < n
        invariant
            k <= n,
            all.len() == n,
            left@.len() == n - k,
            forall|i: int| 0 <= i < n - k ==> (#[trigger] left@[i])@ == all[n - 1 - i],
            hit_views(out@) == best_first(all.take(k as int)),
        decreases n - k,
    {
        assert(left@[n - k - 1]@ == all[k as int]);
        let hit = match left.pop() {
            Some(h) => h,
            None => {
                return out;
            },
        };
        assert(all.take(k + 1).drop_last() =~= all.take(k as int));
        assert(all.take(k + 1).last() == hit@);
        let ghost sorted = hit_views(out@);
        let m: usize = out.len();
        let mut p: usize = 0;
        while p < m && out[p].score >= hit.score
            invariant
                m == out@.len(),
                p <= m,
                sorted == hit_views(out@),
                rank(sorted, hit.score, p as int) == rank(sorted, hit.score, 0),
            decreases m - p,
        {
            assert(sorted[p as int] == out@[p as int]@);
            p = p + 1;
        }
        proof {
            if p < m {
                assert(sorted[p as int] == out@[p as int]@);
            }
        }
        let ghost hv = hit@;
        out.insert(p, hit);
        assert(hit_views(out@) =~= sorted.insert(p as int, hv));
        k = k + 1;
    }
    assert(all.take(k as int) =~= all);
    out
}

fn reversed(v: Vec<Hit>) -> (r: Vec<Hit>)
    ensures
        r@.len() == v@.len(),
        forall|i: int| 0 <= i < v@.len() ==> (#[trigger] r@[i])@ == v@[v@.len() - 1 - i]@,
{
    let n: usize = v.len();
    let ghost all = v@;
    let mut v = v;
    let mut out: Vec<Hit> = Vec::new();
    while v.len() > 0
        invariant
            v@.len() + out@.len() == n,
            all.len() == n,
            v@ == all.take(v@.len() as int),
            forall|i: int| 0 <= i < out@.len() ==> #[trigger] out@[i] == all[n - 1 - i],
        decreases v.len(),
    {
        match v.pop() {
            Some(h) => {
                out.push(h);
            },
            None => {},
        }
    }
    out
}

/// A ranked list is ordered best first.
pub proof fn law_best_first_is_ordered(hits: Seq<HitView>, i: int, j: int)
    requires
        0 <= i < j < best_first(hits).len(),
    ensures
        best_first(hits)[i].score >= best_first(hits)[j].score,
    decreases hits.len(),
{
    let rest = best_first(hits.drop_last());
    let p = rank(rest, hits.last().score, 0);
    lemma_rank(rest, hits.last().score, 0);
    let all = best_first(hits);
    if i != p && j != p {
        let a = if i < p {
            i
        } else {
            i - 1
        };
        let b = if j < p {
            j
        } else {
            j - 1
        };
        assert(all[i] == rest[a] && all[j] == rest[b]);
        law_best_first_is_ordered(hits.drop_last(), a, b);
    } else if j == p {
        assert(all[i] == rest[i]);
    } else {
        assert(all[j] == rest[j - 1]);
        if j - 1 > p {
            law_best_first_is_ordered(hits.drop_last(), p, j - 1);
        }
    }
}

/// Ranking keeps every hit and adds none.
pub proof fn law_best_first_keeps_hits(hits: Seq<HitView>)
    ensures
        best_first(hits).to_multiset() == hits.to_multiset(),
    decreases hits.len(),
{
    broadcast use vstd::seq_lib::group_to_multiset_ensures;

    if hits.len() > 0 {
        let rest = best_first(hits.drop_last());
        let x = hits.last();
        let p = rank(rest, x.score, 0);
        law_best_first_keeps_hits(hits.drop_last());
        lemma_rank(rest, x.score, 0);
        assert(hits.drop_last().push(x) =~= hits);
        assert(rest.insert(p, x).remove(p) =~= rest);
        assert(rest.insert(p, x)[p] == x);
        assert(rest.insert(p, x).to_multiset().remove(x) =~= rest.to_multiset());
        assert(rest.insert(p, x).to_multiset() =~= rest.to_multiset().insert(x));
    } else {
        assert(best_first(hits) =~= hits);
    }
}

/// The hits so far and those among the first `n` lines of a file, up to `MAX_CANDIDATES`.
pub open spec fn file_hits(
    r: RankerView,
    rel: Seq<char>,
    lines: Seq<Seq<char>>,
    n: int,
    hits: Seq<HitView>,
) -> Seq<HitView>
    decreases n,
{
    if n <= 0 {
        hits
    } else {
        let rest = file_hits(r, rel, lines, n - 1, hits);
        let score = line_score(r, lines[n - 1]);
        if rest.len() >= MAX_CANDIDATES || score == 0 {
            rest
        } else {
            rest.push(
                HitView {
                    file: rel,
                    line: n as usize,
                    score: capped(score),
                    text: trimmed(lines[n - 1]),
                },
            )
        }
    }
}

proof fn lemma_hits_full(
    r: RankerView,
    rel: Seq<char>,
    lines: Seq<Seq<char>>,
    k: int,
    n: int,
    hits: Seq<HitView>,
)
    requires
        0 <= k <= n,
        file_hits(r, rel, lines, k, hits).len() >= MAX_CANDIDATES,
    ensures
        file_hits(r, rel, lines, n, hits) == file_hits(r, rel, lines, k, hits),
    decreases n - k,
{
    if k < n {
        lemma_hits_full(r, rel, lines, k, n - 1, hits);
    }
}

/// The state of a scan: what matched, and how many files were seen.
pub struct Scan {
    hits: Vec<Hit>,
    files: usize,
}

/// The state of a scan.
pub struct ScanView {
    pub hits: Seq<HitView>,
    pub files: int,
}

impl View for Scan {
    type V = ScanView;

    closed spec fn view(&self) -> ScanView {
        ScanView { hits: hit_views(self.hits@), files: self.files as int }
    }
}

impl Scan {
    /// Whether the scan may still take files.
    pub open spec fn running(&self) -> bool {
        self@.hits.len() < MAX_CANDIDATES && self@.files <= MAX_FILES_SCANNED
    }

    /// A scan that has seen nothing.
    pub fn new() -> (r: Scan)
        ensures
            r@ == (ScanView { hits: Seq::empty(), files: 0 }),
            r.running(),
    {
        let r = Scan { hits: Vec::new(), files: 0 };
        assert(r@.hits =~= Seq::<HitView>::empty());
        r
    }

    /// Counts one more file. False where it is one too many, and the scan is cut short.
    pub fn begin_file(&mut self) -> (r: bool)
        requires
            old(self).running(),
        ensures
            final(self)@ == (ScanView { hits: old(self)@.hits, files: old(self)@.files + 1 }),
            r == (old(self)@.files + 1 <= MAX_FILES_SCANNED),
            r ==> final(self).running(),
    {
        self.files = self.files + 1;
        self.files <= MAX_FILES_SCANNED
    }

    /// Whether a file of this size is read.
    pub fn wants(size: u64) -> (r: bool)
        ensures
            r == (size <= MAX_FILE_BYTES),
    {
        size <= MAX_FILE_BYTES
    }

    /// Scans a file, unless it looks binary or is not UTF-8. True where the scan is cut short.
    pub fn take_file(&mut self, ranker: &Ranker, rel: &str, bytes: &Vec<u8>) -> (r: bool)
        requires
            old(self).running(),
        ensures
            final(self)@.files == old(self)@.files,
            final(self)@.hits == (if looks_binary(bytes@) || !vstd::utf8::valid_utf8(bytes@) {
                old(self)@.hits
            } else {
                let lines = bare_lines(vstd::utf8::decode_utf8(bytes@));
                file_hits(ranker@, rel@, lines, lines.len() as int, old(self)@.hits)
            }),
            r == (final(self)@.hits.len() >= MAX_CANDIDATES),
            !r ==> final(self).running(),
    {
        if sniff(bytes) {
            return false;
        }
        let text = match from_utf8(bytes) {
            Some(t) => t,
            None => {
                return false;
            },
        };
        let lines = plain_lines(text.as_str());
        let ghost all = views(lines@);
        let ghost start = self@.hits;
        let ghost files = self@.files;
        let ghost rv = ranker@;
        let n: usize = lines.len();
        let mut k: usize = 0;
        while k < n
            invariant
                k <= n,
                n == lines@.len(),
                all == views(lines@),
                all == bare_lines(vstd::utf8::decode_utf8(bytes@)),
                !looks_binary(bytes@),
                vstd::utf8::valid_utf8(bytes@),
                rv == ranker@,
                start == old(self)@.hits,
                files == old(self)@.files,
                self@.files == files,
                self@.hits == file_hits(rv, rel@, all, k as int, start),
                self@.hits.len() < MAX_CANDIDATES,
            decreases n - k,
        {
            assert(all[k as int] == lines@[k as int]@);
            match ranker.score(lines[k].as_str()) {
                Some(score) => {
                    let ghost so_far = self@.hits;
                    let hit = Hit {
                        file: rel.to_owned(),
                        line: k + 1,
                        score,
                        text: trim(lines[k].as_str()),
                    };
                    let ghost hv = hit@;
                    self.hits.push(hit);
                    assert(self@.hits =~= so_far.push(hv));
                    if self.hits.len() >= MAX_CANDIDATES {
                        proof {
                            lemma_hits_full(rv, rel@, all, k + 1, n as int, start);
                        }
                        return true;
                    }
                },
                None => {},
            }
            k = k + 1;
        }
        false
    }

    /// What was found, best first.
    pub fn finish(self) -> (r: Vec<Hit>)
        ensures
            hit_views(r@) == best_first(self@.hits),
    {
        sort_hits(self.hits)
    }
}

/// The hits among the first `n` lines of a stream.
pub open spec fn stream_hits(r: RankerView, lines: Seq<Seq<char>>, n: int) -> Seq<HitView>
    decreases n,
{
    if n <= 0 {
        Seq::empty()
    } else {
        let rest = stream_hits(r, lines, n - 1);
        let score = line_score(r, lines[n - 1]);
        if score == 0 {
            rest
        } else {
            rest.push(
                HitView {
                    file: Seq::empty(),
                    line: n as usize,
                    score: capped(score),
                    text: lines[n - 1],
                },
            )
        }
    }
}

/// Ranks lines that are at hand, such as what a terminal shows.
pub fn search_lines(lines: &Vec<String>, ranker: &Ranker) -> (r: Vec<Hit>)
    ensures
        hit_views(r@) == best_first(stream_hits(ranker@, views(lines@), lines@.len() as int)),
{
    let ghost all = views(lines@);
    let ghost rv = ranker@;
    let mut hits: Vec<Hit> = Vec::new();
    assert(hit_views(hits@) =~= Seq::<HitView>::empty());
    let mut k: usize = 0;
    while k < lines.len()
        invariant
            k <= lines@.len(),
            all == views(lines@),
            rv == ranker@,
            hit_views(hits@) == stream_hits(rv, all, k as int),
        decreases lines.len() - k,
    {
        assert(all[k as int] == lines@[k as int]@);
        match ranker.score(lines[k].as_str()) {
            Some(score) => {
                let ghost so_far = hit_views(hits@);
                let hit = Hit {
                    file: String::new(),
                    line: k + 1,
                    score,
                    text: lines[k].as_str().to_owned(),
                };
                let ghost hv = hit@;
                hits.push(hit);
                assert(hit_views(hits@) =~= so_far.push(hv));
            },
            None => {},
        }
        k = k + 1;
    }
    sort_hits(hits)
}

proof fn lemma_words_of_run(s: Seq<char>, n: int)
    requires
        0 <= n <= s.len(),
        forall|i: int| 0 <= i < n ==> is_word_char(#[trigger] s[i]),
    ensures
        words_to(s, n).0 == Seq::<Seq<char>>::empty(),
        words_to(s, n).1 == Seq::new(n as nat, |i: int| ascii_lower(s[i])),
    decreases n,
{
    if n > 0 {
        lemma_words_of_run(s, n - 1);
    }
    assert(words_to(s, n).1 =~= Seq::new(n as nat, |i: int| ascii_lower(s[i])));
}

proof fn lemma_words_prefix(a: Seq<char>, b: Seq<char>, n: int)
    requires
        0 <= n <= a.len(),
    ensures
        words_to(a + b, n) == words_to(a, n),
    decreases n,
{
    if n > 0 {
        lemma_words_prefix(a, b, n - 1);
        assert((a + b)[n - 1] == a[n - 1]);
    }
}

proof fn lemma_words_behind(a: Seq<char>, c: char, b: Seq<char>, n: int)
    requires
        !is_word_char(c),
        0 <= n <= b.len(),
    ensures
        words_to(a.push(c) + b, a.len() + 1 + n).0 == words_of(a) + words_to(b, n).0,
        words_to(a.push(c) + b, a.len() + 1 + n).1 == words_to(b, n).1,
    decreases n,
{
    let s = a.push(c) + b;
    if n > 0 {
        lemma_words_behind(a, c, b, n - 1);
        assert(s[a.len() + n] == b[n - 1]);
        let (done, cur) = words_to(b, n - 1);
        assert(words_of(a) + done.push(cur) =~= (words_of(a) + done).push(cur));
    } else {
        assert(s =~= a + (seq![c] + b));
        lemma_words_prefix(a, seq![c] + b, a.len() as int);
        assert(s[a.len() as int] == c);
        assert(words_of(a) + Seq::<Seq<char>>::empty() =~= words_of(a));
    }
}

/// A text is taken apart at what is neither an ASCII letter, a digit nor an underscore: the words
/// before it come first, then those behind it, and a stretch without any is one word in small
/// letters.
pub proof fn law_words_are_parted(a: Seq<char>, c: char, b: Seq<char>)
    ensures
        !(('0' <= c && c <= '9') || ('a' <= c && c <= 'z') || ('A' <= c && c <= 'Z') || c == '_')
            ==> words_of(a.push(c) + b) == words_of(a) + words_of(b),
        a.len() > 0 && (forall|i: int|
            0 <= i < a.len() ==> ('0' <= (#[trigger] a[i]) && a[i] <= '9') || ('a' <= a[i] && a[i]
                <= 'z') || ('A' <= a[i] && a[i] <= 'Z') || a[i] == '_') ==> words_of(a) == seq![
            crate::text::lowered_ascii(a),
        ],
        words_of(Seq::empty()) == Seq::<Seq<char>>::empty(),
{
    if !is_word_char(c) {
        lemma_words_behind(a, c, b, b.len() as int);
        let (done, cur) = words_to(b, b.len() as int);
        assert(words_of(a) + done.push(cur) =~= (words_of(a) + done).push(cur));
        assert(words_of(a.push(c) + b) =~= words_of(a) + words_of(b));
    }
    if a.len() > 0 && (forall|i: int| 0 <= i < a.len() ==> is_word_char(#[trigger] a[i])) {
        lemma_words_of_run(a, a.len() as int);
        assert(words_to(a, a.len() as int).1 =~= crate::text::lowered_ascii(a));
        assert(words_of(a) =~= seq![crate::text::lowered_ascii(a)]);
    }
    if a.len() > 0 && (forall|i: int|
        0 <= i < a.len() ==> ('0' <= (#[trigger] a[i]) && a[i] <= '9') || ('a' <= a[i] && a[i]
            <= 'z') || ('A' <= a[i] && a[i] <= 'Z') || a[i] == '_') {
        assert forall|i: int| 0 <= i < a.len() implies is_word_char(#[trigger] a[i]) by {
            assert(a[i] == a[i]);
        }
    }
}

/// Of the words of a query those that say nothing are left out, and no others.
pub proof fn law_words_that_say_nothing_are_left_out(words: Seq<Seq<char>>, w: Seq<char>)
    ensures
        telling(words).contains(w) <==> words.contains(w) && !stopwords().contains(w),
        telling(words).len() <= words.len(),
        (forall|i: int| 0 <= i < words.len() ==> !stopwords().contains(#[trigger] words[i]))
            ==> telling(words) == words,
    decreases words.len(),
{
    if words.len() > 0 {
        let front = words.drop_last();
        law_words_that_say_nothing_are_left_out(front, w);
        assert(words =~= front.push(words.last()));
        assert(words.contains(w) <==> front.contains(w) || words.last() == w) by {
            if words.contains(w) {
                let i = choose|i: int| 0 <= i < words.len() && words[i] == w;
                if i < front.len() {
                    assert(front[i] == w);
                }
            }
            if front.contains(w) {
                let i = choose|i: int| 0 <= i < front.len() && front[i] == w;
                assert(words[i] == w);
            }
            if words.last() == w {
                assert(words[words.len() - 1] == w);
            }
        }
        if !stopwords().contains(words.last()) {
            let t = telling(front);
            assert(telling(words) == t.push(words.last()));
            assert(t.push(words.last()).contains(w) <==> t.contains(w) || words.last() == w) by {
                let p = t.push(words.last());
                if p.contains(w) {
                    let i = choose|i: int| 0 <= i < p.len() && p[i] == w;
                    if i < t.len() {
                        assert(t[i] == w);
                    }
                }
                if t.contains(w) {
                    let i = choose|i: int| 0 <= i < t.len() && t[i] == w;
                    assert(p[i] == w);
                }
                if words.last() == w {
                    assert(p[p.len() - 1] == w);
                }
            }
        }
        if forall|i: int| 0 <= i < words.len() ==> !stopwords().contains(#[trigger] words[i]) {
            assert forall|i: int| 0 <= i < front.len() implies !stopwords().contains(
                #[trigger] front[i],
            ) by {
                assert(words[i] == front[i]);
            }
            assert(!stopwords().contains(words[words.len() - 1]));
        }
    }
}

proof fn lemma_quote_ends(q: Seq<char>, k: int, e: int)
    requires
        0 <= k <= e <= q.len(),
        forall|i: int| k <= i < e ==> q[i] != '"',
        e == q.len() || q[e] == '"',
    ensures
        quote_end(q, k) == e,
    decreases e - k,
{
    if k < e {
        lemma_quote_ends(q, k + 1, e);
    }
}

proof fn lemma_phrases_tail(a: Seq<char>, b: Seq<char>, k: int)
    requires
        0 <= k <= b.len(),
    ensures
        phrases_from(a + b, a.len() + k) == phrases_from(b, k),
    decreases b.len() - k,
{
    let q = a + b;
    if k < b.len() {
        assert(q[a.len() + k] == b[k]);
        if b[k] == '"' {
            lemma_quote_end_shift(a, b, k + 1);
            let e = quote_end(b, k + 1);
            lemma_quote_end_in(b, k + 1);
            assert(q.subrange(a.len() + k + 1, a.len() + e) =~= b.subrange(k + 1, e));
            lemma_phrases_tail(
                a,
                b,
                if e < b.len() {
                    e + 1
                } else {
                    e
                },
            );
        } else {
            lemma_phrases_tail(a, b, k + 1);
        }
    }
}

proof fn lemma_quote_end_in(q: Seq<char>, k: int)
    requires
        0 <= k <= q.len(),
    ensures
        k <= quote_end(q, k) <= q.len(),
    decreases q.len() - k,
{
    if k < q.len() && q[k] != '"' {
        lemma_quote_end_in(q, k + 1);
    }
}

proof fn lemma_quote_end_shift(a: Seq<char>, b: Seq<char>, k: int)
    requires
        0 <= k <= b.len(),
    ensures
        quote_end(a + b, a.len() + k) == a.len() + quote_end(b, k),
    decreases b.len() - k,
{
    if k < b.len() {
        assert((a + b)[a.len() + k] == b[k]);
        if b[k] != '"' {
            lemma_quote_end_shift(a, b, k + 1);
        }
    }
}

proof fn lemma_phrases_front(a: Seq<char>, b: Seq<char>, k: int)
    requires
        0 <= k <= a.len(),
        !a.contains('"'),
    ensures
        phrases_from(a + b, k).0 == phrases_from(b, 0).0,
        phrases_from(a + b, k).1 == a.subrange(k, a.len() as int) + phrases_from(b, 0).1,
    decreases a.len() - k,
{
    if k < a.len() {
        lemma_phrases_front(a, b, k + 1);
        assert((a + b)[k] == a[k]);
        let rest = phrases_from(b, 0).1;
        assert(seq![a[k]] + (a.subrange(k + 1, a.len() as int) + rest) =~= a.subrange(
            k,
            a.len() as int,
        ) + rest);
    } else {
        lemma_phrases_tail(a, b, 0);
        assert(a.subrange(k, a.len() as int) + phrases_from(b, 0).1 =~= phrases_from(b, 0).1);
    }
}

/// What stands in quotation marks is a phrase, in small letters; what stands around it is read for
/// itself. A text without marks has no phrase and stays whole.
pub proof fn law_quoted_texts_are_phrases(a: Seq<char>, p: Seq<char>, b: Seq<char>)
    requires
        !a.contains('"'),
        !p.contains('"'),
    ensures
        phrases_from(a, 0) == (Seq::<Seq<char>>::empty(), a),
        ({
            let all = phrases_from(a + (seq!['"'] + p + seq!['"'] + b), 0);
            &&& !is_blank(p) ==> all.0 == seq![lowercase(p)] + phrases_from(b, 0).0
            &&& is_blank(p) ==> all.0 == phrases_from(b, 0).0
            &&& all.1 == a + phrases_from(b, 0).1
        }),
{
    let none = Seq::<char>::empty();
    lemma_phrases_front(a, none, 0);
    assert(a + none =~= a);
    assert(a.subrange(0, a.len() as int) =~= a);
    assert(phrases_from(none, 0) == (Seq::<Seq<char>>::empty(), none));
    let q = seq!['"'] + p + seq!['"'] + b;
    lemma_phrases_front(a, q, 0);
    assert(q[0] == '"');
    assert forall|i: int| 1 <= i < p.len() + 1 implies q[i] != '"' by {
        assert(q[i] == p[i - 1]);
    }
    assert(q[p.len() as int + 1] == '"');
    lemma_quote_ends(q, 1, p.len() as int + 1);
    assert(q.subrange(1, p.len() as int + 1) =~= p);
    let front = seq!['"'] + p + seq!['"'];
    lemma_phrases_tail(front, b, 0);
}

proof fn lemma_occurrences(s: Seq<char>, t: Seq<char>, k: int)
    requires
        t.len() > 0,
        0 <= k,
    ensures
        occurrences(s, t, k) >= 0,
        occurrences(s, t, k) > 0 <==> exists|i: int| k <= i && #[trigger] occurs_at(s, t, i),
    decreases s.len() - k,
{
    if k < s.len() {
        if occurs_at(s, t, k) {
            lemma_occurrences(s, t, k + t.len());
        } else {
            lemma_occurrences(s, t, k + 1);
        }
    }
}

proof fn lemma_terms_score(terms: Seq<Seq<char>>, low: Seq<char>, n: int)
    requires
        0 <= n <= terms.len(),
        forall|i: int| 0 <= i < terms.len() ==> (#[trigger] terms[i]).len() > 0,
    ensures
        term_score(terms, low, n) >= 0,
        term_score(terms, low, n) > 0 <==> exists|i: int|
            0 <= i < n && holds(low, #[trigger] terms[i]),
    decreases n,
{
    if n > 0 {
        lemma_terms_score(terms, low, n - 1);
        let t = terms[n - 1];
        lemma_occurrences(low, t, 0);
        if holds(low, t) {
            let k = choose|k: int| occurs_at(low, t, k);
            assert(0 <= k && occurs_at(low, t, k));
        }
    }
}

/// A line is a hit where it holds every phrase of the query and, if there is none, a word of it.
pub proof fn law_hits_hold_what_was_asked(r: RankerView, line: Seq<char>)
    requires
        forall|i: int| 0 <= i < r.terms.len() ==> (#[trigger] r.terms[i]).len() > 0,
    ensures
        line_score(r, line) >= 0,
        line_score(r, line) > 0 <==> (forall|i: int|
            0 <= i < r.phrases.len() ==> holds(lowercase(line), #[trigger] r.phrases[i])) && (
        r.phrases.len() > 0 || exists|i: int|
            0 <= i < r.terms.len() && holds(lowercase(line), #[trigger] r.terms[i])),
{
    lemma_terms_score(r.terms, lowercase(line), r.terms.len() as int);
}

/// A line scores fifty for each phrase, ten for each word that it holds and three more for each
/// further place of a word.
pub proof fn law_scores_add_up(r: RankerView, line: Seq<char>, t: Seq<char>)
    requires
        forall|i: int|
            0 <= i < r.phrases.len() ==> holds(lowercase(line), #[trigger] r.phrases[i]),
        t.len() > 0,
    ensures
        r.terms.len() == 0 ==> line_score(r, line) == 50 * r.phrases.len(),
        ({
            let more = RankerView { terms: r.terms.push(t), phrases: r.phrases };
            let n = occurrences(lowercase(line), t, 0);
            &&& n > 0 <==> holds(lowercase(line), t)
            &&& n == 0 ==> line_score(more, line) == line_score(r, line)
            &&& n > 0 ==> line_score(more, line) == line_score(r, line) + 10 + 3 * (n - 1)
        }),
{
    let low = lowercase(line);
    lemma_occurrences(low, t, 0);
    if holds(low, t) {
        let k = choose|k: int| occurs_at(low, t, k);
        assert(0 <= k && occurs_at(low, t, k));
    }
    lemma_term_score_front(r.terms, t, low, r.terms.len() as int);
    assert(r.terms.push(t)[r.terms.len() as int] == t);
}

proof fn lemma_term_score_front(terms: Seq<Seq<char>>, t: Seq<char>, low: Seq<char>, n: int)
    requires
        0 <= n <= terms.len(),
    ensures
        term_score(terms.push(t), low, n) == term_score(terms, low, n),
    decreases n,
{
    if n > 0 {
        lemma_term_score_front(terms, t, low, n - 1);
        assert(terms.push(t)[n - 1] == terms[n - 1]);
    }
}

proof fn lemma_occurrences_skip(a: Seq<char>, s: Seq<char>, t: Seq<char>, k: int)
    requires
        t.len() > 0,
        0 <= k,
    ensures
        occurrences(a + s, t, a.len() + k) == occurrences(s, t, k),
    decreases s.len() - k,
{
    if k < s.len() {
        let all = a + s;
        let at = a.len() + k;
        if at + t.len() <= all.len() {
            assert(all.subrange(at, at + t.len()) =~= s.subrange(k, k + t.len()));
        }
        if occurs_at(s, t, k) {
            lemma_occurrences_skip(a, s, t, k + t.len());
        } else {
            lemma_occurrences_skip(a, s, t, k + 1);
        }
    }
}

/// Each place of a word counts once: one more word in front is one more place.
pub proof fn law_each_place_counts(s: Seq<char>, t: Seq<char>)
    requires
        t.len() > 0,
    ensures
        occurrences(t + s, t, 0) == 1 + occurrences(s, t, 0),
{
    assert((t + s).subrange(0, t.len() as int) =~= t);
    lemma_occurrences_skip(t, s, t, 0);
}

/// Whether a hit tells a line: where it stands, counted from one, and how well it fits.
pub open spec fn tells_line(h: HitView, r: RankerView, lines: Seq<Seq<char>>, i: int) -> bool {
    &&& 0 <= i < lines.len()
    &&& h.line == i + 1
    &&& line_score(r, lines[i]) <= usize::MAX ==> h.score == line_score(r, lines[i])
}

proof fn lemma_file_hits(
    r: RankerView,
    rel: Seq<char>,
    lines: Seq<Seq<char>>,
    n: int,
    hits: Seq<HitView>,
)
    requires
        0 <= n <= lines.len() <= usize::MAX,
        hits.len() <= 3000,
        forall|i: int| 0 <= i < lines.len() ==> line_score(r, #[trigger] lines[i]) >= 0,
    ensures
        ({
            let all = file_hits(r, rel, lines, n, hits);
            &&& hits.len() <= all.len() <= 3000
            &&& all.take(hits.len() as int) == hits
            &&& forall|k: int|
                hits.len() <= k < all.len() ==> (#[trigger] all[k]).file == rel && tells_line(
                    all[k],
                    r,
                    lines,
                    all[k].line - 1,
                ) && all[k].text == trimmed(lines[all[k].line - 1]) && line_score(
                    r,
                    lines[all[k].line - 1],
                ) != 0
            &&& all.len() < 3000 ==> forall|i: int|
                0 <= i < n && line_score(r, #[trigger] lines[i]) != 0 ==> exists|k: int|
                    hits.len() <= k < all.len() && (#[trigger] all[k]).line == i + 1
        }),
    decreases n,
{
    if n > 0 {
        lemma_file_hits(r, rel, lines, n - 1, hits);
        let rest = file_hits(r, rel, lines, n - 1, hits);
        let all = file_hits(r, rel, lines, n, hits);
        assert(line_score(r, lines[n - 1]) >= 0);
        if rest.len() < MAX_CANDIDATES && line_score(r, lines[n - 1]) != 0 {
            assert(all.take(hits.len() as int) =~= hits) by {
                assert(rest.take(hits.len() as int) == hits);
                assert forall|j: int| 0 <= j < hits.len() implies all[j] == hits[j] by {
                    assert(rest.take(hits.len() as int)[j] == rest[j]);
                }
            }
            assert forall|i: int| 0 <= i < n && line_score(r, #[trigger] lines[i]) != 0
                && all.len() < 3000 implies exists|k: int|
                hits.len() <= k < all.len() && (#[trigger] all[k]).line == i + 1 by {
                if i == n - 1 {
                    assert(all[all.len() - 1].line == n);
                } else {
                    let k = choose|k: int|
                        hits.len() <= k < rest.len() && (#[trigger] rest[k]).line == i + 1;
                    assert(all[k] == rest[k]);
                }
            }
        }
    } else {
        assert(hits.take(hits.len() as int) =~= hits);
    }
}

/// The hits of a file are its lines that score, by their number from one on and without the white
/// space around them; the hits before them stay, and none is left out below three thousand.
pub proof fn law_scoring_lines_are_hits(
    r: RankerView,
    rel: Seq<char>,
    lines: Seq<Seq<char>>,
    hits: Seq<HitView>,
)
    requires
        lines.len() <= usize::MAX,
        hits.len() <= 3000,
        forall|i: int| 0 <= i < r.terms.len() ==> (#[trigger] r.terms[i]).len() > 0,
    ensures
        ({
            let all = file_hits(r, rel, lines, lines.len() as int, hits);
            &&& hits.len() <= all.len() <= 3000
            &&& all.take(hits.len() as int) == hits
            &&& forall|k: int|
                hits.len() <= k < all.len() ==> (#[trigger] all[k]).file == rel && tells_line(
                    all[k],
                    r,
                    lines,
                    all[k].line - 1,
                ) && all[k].text == trimmed(lines[all[k].line - 1]) && line_score(
                    r,
                    lines[all[k].line - 1],
                ) != 0
            &&& all.len() < 3000 ==> forall|i: int|
                0 <= i < lines.len() && line_score(r, #[trigger] lines[i]) != 0 ==> exists|k: int|
                    hits.len() <= k < all.len() && (#[trigger] all[k]).line == i + 1
        }),
{
    assert forall|i: int| 0 <= i < lines.len() implies line_score(r, #[trigger] lines[i]) >= 0 by {
        law_hits_hold_what_was_asked(r, lines[i]);
    }
    lemma_file_hits(r, rel, lines, lines.len() as int, hits);
}

/// The hits of a terminal are its lines that score, as they are and by their number from one on.
pub proof fn law_scoring_lines_of_a_terminal_are_hits(r: RankerView, lines: Seq<Seq<char>>, n: int)
    requires
        0 <= n <= lines.len() <= usize::MAX,
        forall|i: int| 0 <= i < r.terms.len() ==> (#[trigger] r.terms[i]).len() > 0,
    ensures
        ({
            let all = stream_hits(r, lines, n);
            &&& forall|k: int|
                0 <= k < all.len() ==> tells_line(#[trigger] all[k], r, lines, all[k].line - 1)
                    && all[k].line <= n && all[k].text == lines[all[k].line - 1] && line_score(
                    r,
                    lines[all[k].line - 1],
                ) != 0
            &&& forall|i: int|
                0 <= i < n && line_score(r, #[trigger] lines[i]) != 0 ==> exists|k: int|
                    0 <= k < all.len() && (#[trigger] all[k]).line == i + 1
        }),
    decreases n,
{
    if n > 0 {
        law_scoring_lines_of_a_terminal_are_hits(r, lines, n - 1);
        law_hits_hold_what_was_asked(r, lines[n - 1]);
        let rest = stream_hits(r, lines, n - 1);
        let all = stream_hits(r, lines, n);
        assert forall|i: int| 0 <= i < n && line_score(r, #[trigger] lines[i]) != 0 implies exists|k: int|
            0 <= k < all.len() && (#[trigger] all[k]).line == i + 1 by {
            if i == n - 1 {
                assert(all[all.len() - 1].line == n);
            } else {
                let k = choose|k: int| 0 <= k < rest.len() && (#[trigger] rest[k]).line == i + 1;
                assert(all[k] == rest[k]);
            }
        }
    }
}

proof fn lemma_ranked(sorted: Seq<HitView>, score: usize, k: int)
    requires
        0 <= k <= sorted.len(),
    ensures
        k <= rank(sorted, score, k) <= sorted.len(),
        forall|j: int| k <= j < rank(sorted, score, k) ==> (#[trigger] sorted[j]).score >= score,
        rank(sorted, score, k) < sorted.len() ==> sorted[rank(sorted, score, k)].score < score,
    decreases sorted.len() - k,
{
    if k < sorted.len() && sorted[k].score >= score {
        lemma_ranked(sorted, score, k + 1);
    }
}

/// A later hit goes behind all earlier ones that score as much or more, and before all that score
/// less: equal hits stay in the order in which they were found.
pub proof fn law_equal_hits_stay_in_order(hits: Seq<HitView>, h: HitView)
    ensures
        exists|p: int|
            0 <= p <= best_first(hits).len() && best_first(hits.push(h)) == #[trigger] best_first(
                hits,
            ).insert(p, h) && (forall|j: int|
                0 <= j < p ==> (#[trigger] best_first(hits)[j]).score >= h.score) && (forall|j: int|
                p <= j < best_first(hits).len() ==> (#[trigger] best_first(hits)[j]).score < h.score),
{
    let rest = best_first(hits);
    let p = rank(rest, h.score, 0);
    lemma_ranked(rest, h.score, 0);
    assert(hits.push(h).drop_last() =~= hits);
    assert(best_first(hits.push(h)) == rest.insert(p, h));
    assert forall|j: int| p <= j < rest.len() implies (#[trigger] rest[j]).score < h.score by {
        if j > p {
            law_best_first_is_ordered(hits, p, j);
        }
    }
}

/// A search takes files of up to two million bytes, looks at twenty thousand of them and gathers
/// three thousand hits.
pub proof fn law_limits_of_a_search()
    ensures
        MAX_CANDIDATES == 3000,
        MAX_FILES_SCANNED == 20_000,
        MAX_FILE_BYTES == 2_000_000,
{
}

} // verus!
