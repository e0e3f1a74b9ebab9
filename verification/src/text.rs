//! Text as sequences of characters: the helpers that the other modules build on.
use vstd::prelude::*;

verus! {

/// `String::push`: appends one character to the end of the string.
pub assume_specification[ String::push ](s: &mut String, c: char)
    ensures
        final(s)@ == old(s)@.push(c),
;

/// The characters of each string of a list.
pub open spec fn views(v: Seq<String>) -> Seq<Seq<char>> {
    Seq::new(v.len(), |i: int| v[i]@)
}

/// Whether two texts hold the same characters.
pub fn same(a: &str, b: &str) -> (r: bool)
    ensures
        r == (a@ == b@),
{
    a.to_owned() == b.to_owned()
}

/// The characters of a text.
pub fn chars_of(s: &str) -> (r: Vec<char>)
    ensures
        r@ == s@,
{
    let mut out: Vec<char> = Vec::new();
    for c in it: s.chars()
        invariant
            out@ == it.seq().take(it.index() as int),
            it.seq() == s@,
    {
        out.push(c);
    }
    assert(s@.take(s@.len() as int) == s@);
    out
}

/// The text made of the characters `v[lo..hi]`.
pub fn text_of(v: &Vec<char>, lo: usize, hi: usize) -> (r: String)
    requires
        lo <= hi <= v@.len(),
    ensures
        r@ == v@.subrange(lo as int, hi as int),
{
    let mut out = String::new();
    let mut i: usize = lo;
    while i < hi
        invariant
            lo <= i <= hi <= v@.len(),
            out@ == v@.subrange(lo as int, i as int),
        decreases hi - i,
    {
        out.push(v[i]);
        i = i + 1;
    }
    out
}

/// Whether `p` stands in `s` at position `k`.
pub open spec fn occurs_at(s: Seq<char>, p: Seq<char>, k: int) -> bool {
    0 <= k && k + p.len() <= s.len() && s.subrange(k, k + p.len()) == p
}

/// Whether `s` begins with `p`.
pub open spec fn begins(s: Seq<char>, p: Seq<char>) -> bool {
    occurs_at(s, p, 0)
}

/// Whether `s` ends with `p`.
pub open spec fn ends(s: Seq<char>, p: Seq<char>) -> bool {
    occurs_at(s, p, s.len() - p.len())
}

/// Whether `p` stands anywhere in `s`.
pub open spec fn holds(s: Seq<char>, p: Seq<char>) -> bool {
    exists|k: int| occurs_at(s, p, k)
}

/// Whether `p` stands in `v` at position `at`.
pub fn prefix_at(v: &Vec<char>, at: usize, p: &str) -> (r: bool)
    requires
        at <= v@.len(),
    ensures
        r == occurs_at(v@, p@, at as int),
{
    let n: usize = v.len();
    let mut i: usize = at;
    for c in it: p.chars()
        invariant
            n == v@.len(),
            it.seq() == p@,
            at <= i <= n,
            i - at == it.index(),
            forall|j: int| 0 <= j < it.index() ==> v@[at + j] == p@[j],
    {
        if i >= n {
            return false;
        }
        if v[i] != c {
            assert(occurs_at(v@, p@, at as int) ==> v@.subrange(at as int, at + p@.len())[i - at]
                == v@[i as int]);
            return false;
        }
        i = i + 1;
    }
    assert(v@.subrange(at as int, at + p@.len()) == p@);
    true
}

/// Whether `p` stands anywhere in `v`.
pub fn holds_in(v: &Vec<char>, p: &str) -> (r: bool)
    ensures
        r == holds(v@, p@),
{
    let n: usize = v.len();
    let mut k: usize = 0;
    while k < n
        invariant
            n == v@.len(),
            k <= n,
            forall|j: int| 0 <= j < k ==> !occurs_at(v@, p@, j),
        decreases n - k,
    {
        if prefix_at(v, k, p) {
            return true;
        }
        k = k + 1;
    }
    prefix_at(v, n, p)
}

/// Whether `s` begins with `p`.
pub fn starts_with(s: &str, p: &str) -> (r: bool)
    ensures
        r == begins(s@, p@),
{
    let v = chars_of(s);
    prefix_at(&v, 0, p)
}

/// Whether `p` stands anywhere in `s`.
pub fn contains(s: &str, p: &str) -> (r: bool)
    ensures
        r == holds(s@, p@),
{
    let v = chars_of(s);
    holds_in(&v, p)
}

/// The texts of a list, one after the other.
pub open spec fn joined(parts: Seq<Seq<char>>) -> Seq<char>
    decreases parts.len(),
{
    if parts.len() == 0 {
        Seq::empty()
    } else {
        parts[0] + joined(parts.drop_first())
    }
}

/// Position of the first newline of `t` at or after `k`, or the length of `t`.
pub open spec fn newline_from(t: Seq<char>, k: int) -> int
    decreases t.len() - k,
{
    if k >= t.len() {
        t.len() as int
    } else if t[k] == '\n' {
        k
    } else {
        newline_from(t, k + 1)
    }
}

/// Where the line that starts at `from` ends, its newline included.
pub open spec fn line_end(t: Seq<char>, from: int) -> int {
    let k = newline_from(t, from);
    if k < t.len() {
        k + 1
    } else {
        t.len() as int
    }
}

proof fn lemma_newline_from(t: Seq<char>, k: int)
    requires
        0 <= k,
    ensures
        k <= t.len() ==> k <= newline_from(t, k) <= t.len(),
        k < t.len() ==> k < line_end(t, k) <= t.len(),
        forall|j: int| k <= j < newline_from(t, k) && j < t.len() ==> t[j] != '\n',
        newline_from(t, k) < t.len() ==> t[newline_from(t, k)] == '\n',
    decreases t.len() - k,
{
    if k < t.len() && t[k] != '\n' {
        lemma_newline_from(t, k + 1);
    }
}

/// The lines of `t` from position `from` on, each with its newline. A trailing newline
/// adds no empty line.
pub open spec fn lines_from(t: Seq<char>, from: int) -> Seq<Seq<char>>
    decreases t.len() - from,
    when 0 <= from
    via lines_from_decreases
{
    if from >= t.len() {
        Seq::empty()
    } else {
        seq![t.subrange(from, line_end(t, from))] + lines_from(t, line_end(t, from))
    }
}

#[via_fn]
proof fn lines_from_decreases(t: Seq<char>, from: int) {
    lemma_newline_from(t, from);
}

/// The lines of `t`, each with its newline.
pub open spec fn lines_of(t: Seq<char>) -> Seq<Seq<char>> {
    lines_from(t, 0)
}

/// Splits a text into its lines, each with its newline.
pub fn split_lines(text: &str) -> (r: Vec<String>)
    ensures
        views(r@) == lines_of(text@),
{
    let v = chars_of(text);
    let n: usize = v.len();
    let mut out: Vec<String> = Vec::new();
    let mut from: usize = 0;
    while from < n
        invariant
            n == v@.len(),
            from <= n,
            views(out@) + lines_from(v@, from as int) == lines_of(v@),
        decreases n - from,
    {
        let mut k: usize = from;
        while k < n && v[k] != '\n'
            invariant
                n == v@.len(),
                from <= k <= n,
                newline_from(v@, k as int) == newline_from(v@, from as int),
            decreases n - k,
        {
            k = k + 1;
        }
        let end: usize = if k < n { k + 1 } else { n };
        let line = text_of(&v, from, end);
        let ghost before = out@;
        let ghost piece = v@.subrange(from as int, end as int);
        out.push(line);
        assert(views(out@) == views(before) + seq![piece]);
        assert(lines_from(v@, from as int) == seq![piece] + lines_from(v@, end as int));
        assert(views(before) + (seq![piece] + lines_from(v@, end as int)) == (views(before) + seq![
            piece,
        ]) + lines_from(v@, end as int));
        from = end;
    }
    assert(views(out@) + Seq::<Seq<char>>::empty() == views(out@));
    out
}

proof fn lemma_lines_join(t: Seq<char>, from: int)
    requires
        0 <= from <= t.len(),
    ensures
        joined(lines_from(t, from)) == t.subrange(from, t.len() as int),
    decreases t.len() - from,
{
    if from < t.len() {
        lemma_newline_from(t, from);
        let end = line_end(t, from);
        lemma_lines_join(t, end);
        let rest = lines_from(t, end);
        assert((seq![t.subrange(from, end)] + rest).drop_first() == rest);
        assert(t.subrange(from, end) + t.subrange(end, t.len() as int) == t.subrange(
            from,
            t.len() as int,
        ));
    }
}

/// The lines of a text, put together, are the text.
pub proof fn law_lines_join_to_text(t: Seq<char>)
    ensures
        joined(lines_of(t)) == t,
{
    lemma_lines_join(t, 0);
    assert(t.subrange(0, t.len() as int) == t);
}

/// Bytes that a character takes in UTF-8.
pub open spec fn utf8_width(c: char) -> int {
    let u = c as int;
    if u < 0x80 {
        1
    } else if u < 0x800 {
        2
    } else if u < 0x10000 {
        3
    } else {
        4
    }
}

/// Bytes that a character takes in UTF-8.
pub fn byte_width(c: char) -> (r: usize)
    ensures
        r == utf8_width(c),
        1 <= r <= 4,
{
    let u: u32 = c as u32;
    if u < 0x80 {
        1
    } else if u < 0x800 {
        2
    } else if u < 0x10000 {
        3
    } else {
        4
    }
}

/// Index of the character of `s` that stands `off` bytes behind character `i`; none
/// where that is no boundary between characters, or past the end.
pub open spec fn char_from(s: Seq<char>, i: int, off: int) -> Option<int>
    decreases s.len() - i,
{
    if off == 0 {
        Some(i)
    } else if i >= s.len() || utf8_width(s[i]) > off {
        None
    } else {
        char_from(s, i + 1, off - utf8_width(s[i]))
    }
}

/// The character index of byte offset `off`, where it is a boundary between characters.
pub fn char_index(v: &Vec<char>, off: usize) -> (r: Option<usize>)
    ensures
        match r {
            Some(k) => k <= v@.len() && char_from(v@, 0, off as int) == Some(k as int),
            None => char_from(v@, 0, off as int) is None,
        },
{
    let n: usize = v.len();
    let mut i: usize = 0;
    let mut left: usize = off;
    while left > 0
        invariant
            n == v@.len(),
            i <= n,
            char_from(v@, i as int, left as int) == char_from(v@, 0, off as int),
        decreases left,
    {
        if i >= n {
            return None;
        }
        let w: usize = byte_width(v[i]);
        if w > left {
            return None;
        }
        left = left - w;
        i = i + 1;
    }
    Some(i)
}

proof fn lemma_char_from_step(s: Seq<char>, j: int, b: int, off: int)
    requires
        0 <= j,
        0 <= b <= off,
        char_from(s, j, b) is Some,
    ensures
        char_from(s, j, off) == char_from(s, char_from(s, j, b)->0, off - b),
    decreases s.len() - j,
{
    if b > 0 {
        lemma_char_from_step(s, j + 1, b - utf8_width(s[j]), off - utf8_width(s[j]));
    }
}

/// The character index of byte offset `off`, given that character `i` stands at byte
/// offset `b`: the search starts there.
pub fn char_index_from(v: &Vec<char>, i: usize, b: usize, off: usize) -> (r: Option<usize>)
    requires
        i <= v@.len(),
        char_from(v@, 0, b as int) == Some(i as int),
    ensures
        match r {
            Some(k) => k <= v@.len() && char_from(v@, 0, off as int) == Some(k as int),
            None => char_from(v@, 0, off as int) is None,
        },
{
    if off < b {
        return char_index(v, off);
    }
    proof {
        lemma_char_from_step(v@, 0, b as int, off as int);
    }
    let n: usize = v.len();
    let mut k: usize = i;
    let mut left: usize = off - b;
    while left > 0
        invariant
            n == v@.len(),
            k <= n,
            char_from(v@, k as int, left as int) == char_from(v@, 0, off as int),
        decreases left,
    {
        if k >= n {
            return None;
        }
        let w: usize = byte_width(v[k]);
        if w > left {
            return None;
        }
        left = left - w;
        k = k + 1;
    }
    Some(k)
}

proof fn lemma_char_from_monotone(s: Seq<char>, j: int, b: int, off: int)
    requires
        0 <= j,
        0 <= b <= off,
        char_from(s, j, b) is Some,
        char_from(s, j, off) is Some,
    ensures
        j <= char_from(s, j, b)->0 <= char_from(s, j, off)->0,
    decreases s.len() - j,
{
    if off > 0 {
        if b > 0 {
            lemma_char_from_monotone(s, j + 1, b - utf8_width(s[j]), off - utf8_width(s[j]));
        } else {
            lemma_char_from_monotone(s, j + 1, 0, off - utf8_width(s[j]));
        }
    }
}

/// Byte offsets in order give character indices in order.
pub proof fn law_char_index_monotone(s: Seq<char>, b: int, off: int)
    requires
        0 <= b <= off,
        char_from(s, 0, b) is Some,
        char_from(s, 0, off) is Some,
    ensures
        0 <= char_from(s, 0, b)->0 <= char_from(s, 0, off)->0,
{
    lemma_char_from_monotone(s, 0, b, off);
}

/// Lowers an ASCII letter; other characters stay.
pub open spec fn ascii_lower(c: char) -> char {
    if 'A' <= c && c <= 'Z' {
        (c as int + 32) as char
    } else {
        c
    }
}

/// The text with its ASCII letters lowered.
pub open spec fn lowered_ascii(s: Seq<char>) -> Seq<char> {
    Seq::new(s.len(), |i: int| ascii_lower(s[i]))
}

/// Lowers an ASCII letter; other characters stay.
pub fn lower_ascii_char(c: char) -> (r: char)
    ensures
        r == ascii_lower(c),
{
    if 'A' <= c && c <= 'Z' {
        let u: u8 = c as u8;
        (u + 32u8) as char
    } else {
        c
    }
}

/// The text with its ASCII letters lowered.
pub fn lower_ascii(s: &str) -> (r: String)
    ensures
        r@ == lowered_ascii(s@),
{
    let v = chars_of(s);
    let mut out = String::new();
    let mut i: usize = 0;
    while i < v.len()
        invariant
            i <= v@.len(),
            out@ == lowered_ascii(v@).take(i as int),
        decreases v.len() - i,
    {
        out.push(lower_ascii_char(v[i]));
        i = i + 1;
    }
    assert(lowered_ascii(v@).take(i as int) == lowered_ascii(v@));
    out
}

/// Whether a character has the Unicode property `White_Space`.
pub open spec fn is_white(c: char) -> bool {
    let u = c as int;
    (9 <= u <= 13) || u == 0x20 || u == 0x85 || u == 0xA0 || u == 0x1680 || (0x2000 <= u <= 0x200A)
        || u == 0x2028 || u == 0x2029 || u == 0x202F || u == 0x205F || u == 0x3000
}

/// Whether a character has the Unicode property `White_Space`.
pub fn white(c: char) -> (r: bool)
    ensures
        r == is_white(c),
{
    let u: u32 = c as u32;
    (9 <= u && u <= 13) || u == 0x20 || u == 0x85 || u == 0xA0 || u == 0x1680 || (0x2000 <= u && u
        <= 0x200A) || u == 0x2028 || u == 0x2029 || u == 0x202F || u == 0x205F || u == 0x3000
}

/// Whether a text is nothing but white space.
pub open spec fn is_blank(s: Seq<char>) -> bool {
    forall|i: int| 0 <= i < s.len() ==> is_white(#[trigger] s[i])
}

/// Whether a text is nothing but white space.
pub fn blank(s: &str) -> (r: bool)
    ensures
        r == is_blank(s@),
{
    let v = chars_of(s);
    let mut i: usize = 0;
    while i < v.len()
        invariant
            i <= v@.len(),
            v@ == s@,
            forall|j: int| 0 <= j < i ==> is_white(#[trigger] v@[j]),
        decreases v.len() - i,
    {
        if !white(v[i]) {
            return false;
        }
        i = i + 1;
    }
    true
}

/// Where the leading white space of `s[k..hi]` ends.
pub open spec fn trim_from(s: Seq<char>, k: int, hi: int) -> int
    decreases hi - k,
{
    if k < hi && is_white(s[k]) {
        trim_from(s, k + 1, hi)
    } else {
        k
    }
}

/// Where the trailing white space of `s[lo..k]` starts.
pub open spec fn trim_to(s: Seq<char>, lo: int, k: int) -> int
    decreases k - lo,
{
    if lo < k && is_white(s[k - 1]) {
        trim_to(s, lo, k - 1)
    } else {
        k
    }
}

/// The text without the white space at both ends.
pub open spec fn trimmed(s: Seq<char>) -> Seq<char> {
    let lo = trim_from(s, 0, s.len() as int);
    s.subrange(lo, trim_to(s, lo, s.len() as int))
}

/// The text without the white space at both ends.
pub fn trim(s: &str) -> (r: String)
    ensures
        r@ == trimmed(s@),
{
    let v = chars_of(s);
    let n: usize = v.len();
    let mut lo: usize = 0;
    while lo < n && white(v[lo])
        invariant
            n == v@.len(),
            lo <= n,
            trim_from(v@, lo as int, n as int) == trim_from(v@, 0, n as int),
        decreases n - lo,
    {
        lo = lo + 1;
    }
    let mut hi: usize = n;
    while lo < hi && white(v[hi - 1])
        invariant
            n == v@.len(),
            lo <= hi <= n,
            trim_to(v@, lo as int, hi as int) == trim_to(v@, lo as int, n as int),
        decreases hi - lo,
    {
        hi = hi - 1;
    }
    text_of(&v, lo, hi)
}

/// The text in lower case.
pub uninterp spec fn lowercase(s: Seq<char>) -> Seq<char>;

/// Whether a text is ASCII.
pub open spec fn all_ascii(s: Seq<char>) -> bool {
    forall|i: int| 0 <= i < s.len() ==> (#[trigger] s[i] as int) < 128
}

/// `str::to_lowercase`: the Unicode lower case of a text, which rests on the text alone. That
/// of ASCII is its ASCII lower case.
#[verifier::external_body]
pub(crate) fn to_lower(s: &str) -> (r: String)
    ensures
        r@ == lowercase(s@),
        all_ascii(s@) ==> r@ == lowered_ascii(s@),
{
    s.to_lowercase()
}

/// Position of the first `c` in `s` at or after `k`, or the length of `s`.
pub open spec fn find_char(s: Seq<char>, c: char, k: int) -> int
    decreases s.len() - k,
{
    if k >= s.len() {
        s.len() as int
    } else if s[k] == c {
        k
    } else {
        find_char(s, c, k + 1)
    }
}

/// The text before the first `c`, or all of it.
pub open spec fn before_char(s: Seq<char>, c: char) -> Seq<char> {
    s.subrange(0, find_char(s, c, 0))
}

/// The text before the first `c`, or all of it.
pub fn cut_before(s: &str, c: char) -> (r: String)
    ensures
        r@ == before_char(s@, c),
{
    let v = chars_of(s);
    let n: usize = v.len();
    let mut k: usize = 0;
    while k < n && v[k] != c
        invariant
            n == v@.len(),
            k <= n,
            find_char(v@, c, k as int) == find_char(v@, c, 0),
        decreases n - k,
    {
        k = k + 1;
    }
    text_of(&v, 0, k)
}

/// Whether `s` ends with `p`.
pub fn ends_with(s: &str, p: &str) -> (r: bool)
    ensures
        r == ends(s@, p@),
{
    let v = chars_of(s);
    let w = chars_of(p);
    if w.len() > v.len() {
        return false;
    }
    prefix_at(&v, v.len() - w.len(), p)
}

/// Bytes that a text takes in UTF-8.
pub open spec fn byte_count(s: Seq<char>) -> int
    decreases s.len(),
{
    if s.len() == 0 {
        0
    } else {
        byte_count(s.drop_last()) + utf8_width(s.last())
    }
}

/// `n`, or `usize::MAX` where that is less.
pub open spec fn capped(n: int) -> usize {
    if n <= usize::MAX {
        n as usize
    } else {
        usize::MAX
    }
}

/// The sum of two numbers, stopping at `usize::MAX`.
pub fn add_capped(a: usize, b: usize) -> (r: usize)
    ensures
        r == capped(a + b),
{
    if a <= usize::MAX - b {
        a + b
    } else {
        usize::MAX
    }
}

/// Adds the bytes that a text takes in UTF-8 to `base`, stopping at `usize::MAX`.
pub fn add_bytes(base: usize, s: &str) -> (r: usize)
    ensures
        base < usize::MAX ==> r == capped(base + byte_count(s@)),
        base == usize::MAX ==> r == base,
        byte_count(s@) >= 0,
{
    let v = chars_of(s);
    let mut n: usize = base;
    let mut i: usize = 0;
    while i < v.len()
        invariant
            i <= v@.len(),
            base == usize::MAX ==> n == base,
            base < usize::MAX ==> n == capped(base + byte_count(v@.take(i as int))),
            byte_count(v@.take(i as int)) >= 0,
        decreases v.len() - i,
    {
        assert(v@.take(i + 1).drop_last() == v@.take(i as int));
        let w: usize = byte_width(v[i]);
        n = if n > usize::MAX - w {
            usize::MAX
        } else {
            n + w
        };
        i = i + 1;
    }
    assert(v@.take(i as int) == v@);
    n
}

/// What follows `p` in `s`, where `s` begins with `p`.
pub fn strip_prefix(s: &str, p: &str) -> (r: Option<String>)
    ensures
        match r {
            Some(rest) => begins(s@, p@) && rest@ == s@.skip(p@.len() as int),
            None => !begins(s@, p@),
        },
{
    let v = chars_of(s);
    if prefix_at(&v, 0, p) {
        let w = chars_of(p);
        Some(text_of(&v, w.len(), v.len()))
    } else {
        None
    }
}

/// The first `n` characters of a text.
pub fn take_chars(s: &str, n: usize) -> (r: String)
    ensures
        r@ == s@.take(if n <= s@.len() { n as int } else { s@.len() as int }),
{
    let v = chars_of(s);
    let k: usize = if n <= v.len() {
        n
    } else {
        v.len()
    };
    text_of(&v, 0, k)
}

/// The pieces of `s` from `from` on, parted at each `c`.
pub open spec fn split_from(s: Seq<char>, c: char, from: int) -> Seq<Seq<char>>
    decreases s.len() - from,
    when 0 <= from <= s.len()
    via split_from_decreases
{
    let k = find_char(s, c, from);
    if k >= s.len() {
        seq![s.subrange(from, s.len() as int)]
    } else {
        seq![s.subrange(from, k)] + split_from(s, c, k + 1)
    }
}

#[via_fn]
proof fn split_from_decreases(s: Seq<char>, c: char, from: int) {
    lemma_find_char(s, c, from);
}

proof fn lemma_find_char(s: Seq<char>, c: char, k: int)
    requires
        0 <= k <= s.len(),
    ensures
        k <= find_char(s, c, k) <= s.len(),
        find_char(s, c, k) < s.len() ==> s[find_char(s, c, k)] == c,
        forall|j: int| k <= j < find_char(s, c, k) ==> s[j] != c,
    decreases s.len() - k,
{
    if k < s.len() && s[k] != c {
        lemma_find_char(s, c, k + 1);
    }
}

/// The pieces of `s`, parted at each `c`.
pub open spec fn split_on(s: Seq<char>, c: char) -> Seq<Seq<char>> {
    split_from(s, c, 0)
}

/// The last piece of a text from `from` on is what stands behind the last `c`, at `at`.
pub proof fn lemma_split_last(s: Seq<char>, c: char, from: int, at: int)
    requires
        0 <= from <= at <= s.len(),
        at == from || s[at - 1] == c,
        forall|j: int| at <= j < s.len() ==> s[j] != c,
    ensures
        split_from(s, c, from).len() > 0,
        split_from(s, c, from).last() == s.subrange(at, s.len() as int),
    decreases at - from,
{
    lemma_find_char(s, c, from);
    let k = find_char(s, c, from);
    if at == from {
        assert(k >= s.len());
    } else {
        assert(k <= at - 1);
        lemma_split_last(s, c, k + 1, at);
        let rest = split_from(s, c, k + 1);
        let all = split_from(s, c, from);
        assert(all == seq![s.subrange(from, k)] + rest);
        assert(all.last() == rest.last());
    }
}

/// Parts `s` at each `c`.
pub fn split(s: &str, c: char) -> (r: Vec<String>)
    ensures
        views(r@) == split_on(s@, c),
        r@.len() > 0,
{
    let v = chars_of(s);
    let n: usize = v.len();
    let mut out: Vec<String> = Vec::new();
    let mut from: usize = 0;
    loop
        invariant
            n == v@.len(),
            v@ == s@,
            from <= n,
            views(out@) + split_from(v@, c, from as int) == split_on(v@, c),
        decreases n - from,
    {
        let mut k: usize = from;
        while k < n && v[k] != c
            invariant
                n == v@.len(),
                from <= k <= n,
                find_char(v@, c, k as int) == find_char(v@, c, from as int),
            decreases n - k,
        {
            k = k + 1;
        }
        let ghost before = views(out@);
        let piece = text_of(&v, from, k);
        let ghost p = v@.subrange(from as int, k as int);
        out.push(piece);
        assert(views(out@) =~= before + seq![p]);
        if k >= n {
            assert(before + seq![p] == split_on(v@, c));
            return out;
        }
        let ghost rest = split_from(v@, c, k + 1);
        assert(before + (seq![p] + rest) =~= (before + seq![p]) + rest);
        from = k + 1;
    }
}

/// The text from `i` on with every `p` replaced by `w`, from the left and without overlap.
pub open spec fn replaced_from(s: Seq<char>, p: Seq<char>, w: Seq<char>, i: int) -> Seq<char>
    decreases s.len() - i,
    when 0 <= i
{
    if i >= s.len() {
        Seq::empty()
    } else if p.len() > 0 && occurs_at(s, p, i) {
        w + replaced_from(s, p, w, i + p.len())
    } else {
        seq![s[i]] + replaced_from(s, p, w, i + 1)
    }
}

/// The text with every `p` replaced by `w`.
pub open spec fn replaced(s: Seq<char>, p: Seq<char>, w: Seq<char>) -> Seq<char> {
    replaced_from(s, p, w, 0)
}

/// Replaces every `p` of `s` by `w`, from the left and without overlap.
pub fn replace(s: &str, p: &str, w: &str) -> (r: String)
    requires
        p@.len() > 0,
    ensures
        r@ == replaced(s@, p@, w@),
{
    let v = chars_of(s);
    let n: usize = v.len();
    let m: usize = chars_of(p).len();
    let mut out = String::new();
    let mut i: usize = 0;
    assert(out@ + replaced(v@, p@, w@) =~= replaced(v@, p@, w@));
    while i < n
        invariant
            n == v@.len(),
            m == p@.len(),
            m > 0,
            i <= n,
            out@ + replaced_from(v@, p@, w@, i as int) == replaced(v@, p@, w@),
        decreases n - i,
    {
        let ghost before = out@;
        if prefix_at(&v, i, p) {
            let ghost rest = replaced_from(v@, p@, w@, i + m);
            out.append(w);
            assert(before + (w@ + rest) =~= (before + w@) + rest);
            i = i + m;
        } else {
            let ghost rest = replaced_from(v@, p@, w@, i + 1);
            out.push(v[i]);
            assert(before + (seq![v@[i as int]] + rest) =~= before.push(v@[i as int]) + rest);
            i = i + 1;
        }
    }
    assert(out@ + Seq::<char>::empty() =~= out@);
    out
}

/// Where `p` first stands in `s` at or behind `k`, or the end.
pub open spec fn place_of(s: Seq<char>, p: Seq<char>, k: int) -> int
    decreases s.len() - k,
{
    if k >= s.len() {
        s.len() as int
    } else if occurs_at(s, p, k) {
        k
    } else {
        place_of(s, p, k + 1)
    }
}

/// Where `p` first stands at or behind `from`, or the end.
pub fn find_place(v: &Vec<char>, p: &str, from: usize) -> (r: usize)
    requires
        from <= v@.len(),
    ensures
        r == place_of(v@, p@, from as int),
        from <= r <= v@.len(),
{
    let n: usize = v.len();
    let mut k: usize = from;
    while k < n
        invariant
            n == v@.len(),
            from <= k <= n,
            place_of(v@, p@, k as int) == place_of(v@, p@, from as int),
        decreases n - k,
    {
        if prefix_at(v, k, p) {
            return k;
        }
        k = k + 1;
    }
    k
}

/// Where a text is found it stands, and it stands nowhere before.
pub proof fn lemma_place_of(s: Seq<char>, p: Seq<char>, k: int)
    requires
        0 <= k <= s.len(),
    ensures
        k <= place_of(s, p, k) <= s.len(),
        place_of(s, p, k) < s.len() ==> occurs_at(s, p, place_of(s, p, k)),
        forall|j: int| k <= j < place_of(s, p, k) ==> !occurs_at(s, p, j),
    decreases s.len() - k,
{
    if k < s.len() && !occurs_at(s, p, k) {
        lemma_place_of(s, p, k + 1);
    }
}

/// The text with the first `p` replaced by `w`.
pub open spec fn replaced_first(s: Seq<char>, p: Seq<char>, w: Seq<char>) -> Seq<char> {
    let k = place_of(s, p, 0);
    if k < s.len() {
        s.subrange(0, k) + w + s.subrange(k + p.len(), s.len() as int)
    } else {
        s
    }
}

/// The text with the first `p` replaced by `w`.
pub fn replace_first(s: &str, p: &str, w: &str) -> (r: String)
    ensures
        r@ == replaced_first(s@, p@, w@),
{
    let v = chars_of(s);
    let n: usize = v.len();
    let k: usize = find_place(&v, p, 0);
    proof {
        lemma_place_of(v@, p@, 0);
    }
    if k >= n {
        return s.to_owned();
    }
    let m: usize = chars_of(p).len();
    let mut out = text_of(&v, 0, k);
    out.append(w);
    let rest = text_of(&v, k + m, n);
    out.append(rest.as_str());
    out
}

/// What is replaced brings in no character that neither the text nor what stands in has.
pub proof fn lemma_replaced_lacks(s: Seq<char>, p: Seq<char>, w: Seq<char>, i: int, c: char)
    requires
        0 <= i,
        forall|j: int| 0 <= j < s.len() ==> s[j] != c,
        forall|j: int| 0 <= j < w.len() ==> w[j] != c,
    ensures
        forall|j: int|
            0 <= j < replaced_from(s, p, w, i).len()
                ==> replaced_from(s, p, w, i)[j] != c,
    decreases s.len() - i,
{
    let all = replaced_from(s, p, w, i);
    if i < s.len() {
        let (head, next) = if p.len() > 0 && occurs_at(s, p, i) {
            (w, i + p.len())
        } else {
            (seq![s[i]], i + 1)
        };
        lemma_replaced_lacks(s, p, w, next, c);
        let rest = replaced_from(s, p, w, next);
        assert(all =~= head + rest);
        assert forall|j: int| 0 <= j < all.len() implies all[j] != c by {
            if j >= head.len() {
                assert(all[j] == rest[j - head.len()]);
            }
        }
    }
}

/// Replacing a character by a text without it leaves none of it.
pub proof fn lemma_replaced_clears(s: Seq<char>, c: char, w: Seq<char>, i: int)
    requires
        0 <= i,
        forall|j: int| 0 <= j < w.len() ==> w[j] != c,
    ensures
        forall|j: int|
            0 <= j < replaced_from(s, seq![c], w, i).len() ==> replaced_from(s, seq![c], w, i)[j]
                != c,
    decreases s.len() - i,
{
    let p = seq![c];
    let all = replaced_from(s, p, w, i);
    if i < s.len() {
        let (head, next) = if occurs_at(s, p, i) {
            (w, i + 1)
        } else {
            (seq![s[i]], i + 1)
        };
        if s[i] == c {
            assert(s.subrange(i, i + 1) =~= p);
            assert(occurs_at(s, p, i));
        }
        lemma_replaced_clears(s, c, w, next);
        let rest = replaced_from(s, p, w, next);
        assert(all =~= head + rest);
        assert forall|j: int| 0 <= j < all.len() implies all[j] != c by {
            if j >= head.len() {
                assert(all[j] == rest[j - head.len()]);
            }
        }
    }
}

/// The hexadecimal digit `d`.
pub open spec fn hex_digit(d: nat) -> char {
    if d < 10 {
        (48 + d) as char
    } else {
        (87 + d) as char
    }
}

/// The lowest `width` hexadecimal digits of `n`.
pub open spec fn hex(n: nat, width: nat) -> Seq<char>
    decreases width,
{
    if width == 0 {
        Seq::empty()
    } else {
        hex(n / 16, (width - 1) as nat).push(hex_digit(n % 16))
    }
}

/// Writes the lowest `width` hexadecimal digits of `n`.
pub fn write_hex(n: u64, width: u32) -> (r: String)
    ensures
        r@ == hex(n as nat, width as nat),
    decreases width,
{
    if width == 0 {
        String::new()
    } else {
        let mut out = write_hex(n / 16, width - 1);
        let d: u8 = (n % 16) as u8;
        let c: char = if d < 10 {
            (48u8 + d) as char
        } else {
            (87u8 + d) as char
        };
        out.push(c);
        out
    }
}

/// The text without the `p`s that it begins with.
pub open spec fn without_leading(s: Seq<char>, p: Seq<char>) -> Seq<char>
    decreases s.len(),
{
    if p.len() > 0 && begins(s, p) {
        without_leading(s.skip(p.len() as int), p)
    } else {
        s
    }
}

/// The text without the `p`s that it begins with.
pub fn trim_start_matches(s: &str, p: &str) -> (r: String)
    requires
        p@.len() > 0,
    ensures
        r@ == without_leading(s@, p@),
{
    let mut cur = s.to_owned();
    loop
        invariant
            p@.len() > 0,
            without_leading(cur@, p@) == without_leading(s@, p@),
        decreases cur@.len(),
    {
        match strip_prefix(cur.as_str(), p) {
            Some(rest) => {
                cur = rest;
            },
            None => {
                return cur;
            },
        }
    }
}

/// The text without the `c`s that it ends with.
pub open spec fn without_trailing(s: Seq<char>, c: char) -> Seq<char>
    decreases s.len(),
{
    if s.len() > 0 && s.last() == c {
        without_trailing(s.drop_last(), c)
    } else {
        s
    }
}

/// The text without the `c`s that it ends with.
pub fn trim_end_char(s: &str, c: char) -> (r: String)
    ensures
        r@ == without_trailing(s@, c),
{
    let v = chars_of(s);
    let mut n: usize = v.len();
    assert(v@.take(n as int) =~= s@);
    while n > 0 && v[n - 1] == c
        invariant
            n <= v@.len(),
            v@ == s@,
            without_trailing(v@.take(n as int), c) == without_trailing(s@, c),
        decreases n,
    {
        assert(v@.take(n as int).drop_last() =~= v@.take(n - 1));
        n = n - 1;
    }
    assert(v@.take(n as int) =~= v@.subrange(0, n as int));
    text_of(&v, 0, n)
}

/// Whether a character is a decimal digit.
pub open spec fn is_digit(c: char) -> bool {
    '0' <= c && c <= '9'
}

/// The number that the digits `s[0..k]` write.
pub open spec fn number_of(s: Seq<char>, k: int) -> int
    decreases k,
{
    if k <= 0 {
        0
    } else {
        10 * number_of(s, k - 1) + (s[k - 1] as int - '0' as int)
    }
}

/// Whether a text is one or more digits.
pub open spec fn all_digits(s: Seq<char>) -> bool {
    s.len() > 0 && forall|i: int| 0 <= i < s.len() ==> is_digit(#[trigger] s[i])
}

/// The digits of a number that may have a plus sign.
pub open spec fn unsigned_part(s: Seq<char>) -> Seq<char> {
    if s.len() > 0 && s[0] == '+' {
        s.skip(1)
    } else {
        s
    }
}

/// The number up to `max` that a text writes in decimal, with or without a plus sign.
pub open spec fn parsed_number(s: Seq<char>, max: int) -> Option<int> {
    let d = unsigned_part(s);
    if all_digits(d) && number_of(d, d.len() as int) <= max {
        Some(number_of(d, d.len() as int))
    } else {
        None
    }
}

proof fn lemma_number_grows(s: Seq<char>, j: int, k: int)
    requires
        0 <= j <= k <= s.len(),
        all_digits(s),
    ensures
        0 <= number_of(s, j) <= number_of(s, k),
    decreases k,
{
    if j < k {
        lemma_number_grows(s, j, k - 1);
        assert(is_digit(s[k - 1]));
    } else if k > 0 {
        lemma_number_grows(s, k - 1, k - 1);
        assert(is_digit(s[k - 1]));
    }
}

/// Reads a number up to `max`, with or without a plus sign.
pub fn parse_number(s: &str, max: u64) -> (r: Option<u64>)
    ensures
        match r {
            Some(n) => parsed_number(s@, max as int) == Some(n as int),
            None => parsed_number(s@, max as int) is None,
        },
{
    let all = chars_of(s);
    let skip: usize = if all.len() > 0 && all[0] == '+' {
        1
    } else {
        0
    };
    let n: usize = all.len();
    let ghost d = unsigned_part(s@);
    assert(d =~= all@.subrange(skip as int, n as int));
    if skip == n {
        return None;
    }
    let mut total: u64 = 0;
    let mut over: bool = false;
    let mut i: usize = skip;
    while i < n
        invariant
            n == all@.len(),
            skip < n,
            skip <= i <= n,
            all@ == s@,
            d == unsigned_part(s@),
            d == all@.subrange(skip as int, n as int),
            forall|j: int| 0 <= j < i - skip ==> is_digit(#[trigger] d[j]),
            over ==> exists|j: int| 0 <= j <= i - skip && number_of(d, j) > max,
            !over ==> total == number_of(d, i - skip) && total <= max,
        decreases n - i,
    {
        let c = all[i];
        assert(d[i - skip] == c);
        if !('0' <= c && c <= '9') {
            assert(!is_digit(d[i - skip]));
            return None;
        }
        let v: u128 = (c as u32 - 48) as u128;
        if !over {
            let next: u128 = 10 * (total as u128) + v;
            assert(number_of(d, i + 1 - skip) == next);
            if next > max as u128 {
                over = true;
            } else {
                total = next as u64;
            }
        }
        i = i + 1;
    }
    assert(all_digits(d));
    if over {
        proof {
            let j = choose|j: int| 0 <= j <= i - skip && number_of(d, j) > max;
            lemma_number_grows(d, j, d.len() as int);
        }
        None
    } else {
        Some(total)
    }
}

/// `String::from_utf8`: the text that the bytes are in UTF-8, none where they are not.
#[verifier::external_body]
pub(crate) fn from_utf8(bytes: &Vec<u8>) -> (r: Option<String>)
    ensures
        match r {
            Some(s) => vstd::utf8::valid_utf8(bytes@) && s@ == vstd::utf8::decode_utf8(bytes@),
            None => !vstd::utf8::valid_utf8(bytes@),
        },
{
    String::from_utf8(bytes.clone()).ok()
}

/// The text of bytes with what is not UTF-8 replaced.
pub uninterp spec fn lossy_text(bytes: Seq<u8>) -> Seq<char>;

/// `String::from_utf8_lossy`, which rests on the bytes alone; UTF-8 stays as it is.
#[verifier::external_body]
pub(crate) fn from_utf8_lossy(bytes: &Vec<u8>) -> (r: String)
    ensures
        r@ == lossy_text(bytes@),
        vstd::utf8::valid_utf8(bytes@) ==> r@ == vstd::utf8::decode_utf8(bytes@),
{
    String::from_utf8_lossy(bytes).into_owned()
}

/// A line without its newline, or carriage return and newline.
pub open spec fn bare(line: Seq<char>) -> Seq<char> {
    if line.len() > 0 && line.last() == '\n' {
        let l = line.drop_last();
        if l.len() > 0 && l.last() == '\r' {
            l.drop_last()
        } else {
            l
        }
    } else {
        line
    }
}

/// The lines of a text, without their ends.
pub open spec fn bare_lines(t: Seq<char>) -> Seq<Seq<char>> {
    Seq::new(lines_of(t).len(), |i: int| bare(lines_of(t)[i]))
}

/// Splits a text into its lines, without their ends.
pub fn plain_lines(text: &str) -> (r: Vec<String>)
    ensures
        views(r@) == bare_lines(text@),
{
    let full = split_lines(text);
    let ghost want = bare_lines(text@);
    let mut out: Vec<String> = Vec::new();
    let mut k: usize = 0;
    while k < full.len()
        invariant
            k <= full@.len(),
            want == bare_lines(text@),
            views(full@) == lines_of(text@),
            views(out@) == want.take(k as int),
        decreases full.len() - k,
    {
        let v = chars_of(full[k].as_str());
        assert(views(full@)[k as int] == v@);
        let n: usize = v.len();
        let end: usize = if n > 0 && v[n - 1] == '\n' {
            if n > 1 && v[n - 2] == '\r' {
                n - 2
            } else {
                n - 1
            }
        } else {
            n
        };
        let piece = text_of(&v, 0, end);
        assert(piece@ =~= bare(v@));
        let ghost before = views(out@);
        out.push(piece);
        assert(views(out@) =~= before.push(want[k as int]));
        assert(want.take(k + 1) =~= want.take(k as int).push(want[k as int]));
        k = k + 1;
    }
    assert(views(full@).len() == want.len());
    assert(want.take(k as int) =~= want);
    out
}

/// Whether `a` comes before `b`, character by character from the `k`-th on.
pub open spec fn less_from(a: Seq<char>, b: Seq<char>, k: int) -> bool
    decreases a.len() - k,
{
    if k >= b.len() {
        false
    } else if k >= a.len() {
        true
    } else if a[k] == b[k] {
        less_from(a, b, k + 1)
    } else {
        (a[k] as int) < (b[k] as int)
    }
}

/// Whether `a` comes before `b` in the order of their characters.
pub open spec fn less(a: Seq<char>, b: Seq<char>) -> bool {
    less_from(a, b, 0)
}

/// Whether `a` comes before `b` in the order of their characters.
pub fn before(a: &str, b: &str) -> (r: bool)
    ensures
        r == less(a@, b@),
{
    let v = chars_of(a);
    let w = chars_of(b);
    let mut k: usize = 0;
    while k < v.len() && k < w.len() && v[k] == w[k]
        invariant
            k <= v@.len(),
            k <= w@.len(),
            less_from(v@, w@, k as int) == less_from(v@, w@, 0),
        decreases v.len() - k,
    {
        k = k + 1;
    }
    if k >= w.len() {
        false
    } else if k >= v.len() {
        true
    } else {
        v[k] < w[k]
    }
}

/// The text of a string that may be missing.
pub open spec fn opt_view(o: Option<String>) -> Option<Seq<char>> {
    match o {
        Some(s) => Some(s@),
        None => None,
    }
}

/// Whether a list holds a text.
pub fn list_holds(v: &Vec<String>, s: &str) -> (r: bool)
    ensures
        r == views(v@).contains(s@),
{
    let mut k: usize = 0;
    while k < v.len()
        invariant
            k <= v@.len(),
            forall|j: int| 0 <= j < k ==> views(v@)[j] != s@,
        decreases v.len() - k,
    {
        if same(v[k].as_str(), s) {
            assert(views(v@)[k as int] == s@);
            return true;
        }
        k = k + 1;
    }
    false
}

/// A copy of `v[lo..hi]`.
pub fn copy_range(v: &[String], lo: usize, hi: usize) -> (r: Vec<String>)
    requires
        lo <= hi <= v@.len(),
    ensures
        views(r@) == views(v@).subrange(lo as int, hi as int),
{
    let mut out: Vec<String> = Vec::new();
    let mut i: usize = lo;
    while i < hi
        invariant
            lo <= i <= hi <= v@.len(),
            views(out@) == views(v@).subrange(lo as int, i as int),
        decreases hi - i,
    {
        let ghost before = out@;
        out.push(v[i].clone());
        assert(views(out@) == views(before).push(v@[i as int]@));
        i = i + 1;
    }
    out
}

/// The decimal digit `d`.
pub open spec fn digit(d: nat) -> char {
    (48 + d) as char
}

/// `n` written in decimal.
pub open spec fn decimal(n: nat) -> Seq<char>
    decreases n,
{
    if n < 10 {
        seq![digit(n)]
    } else {
        decimal(n / 10).push(digit(n % 10))
    }
}

/// An integer written in decimal, with a minus sign where it is negative.
pub open spec fn signed_decimal(n: int) -> Seq<char> {
    if n < 0 {
        seq!['-'] + decimal((-n) as nat)
    } else {
        decimal(n as nat)
    }
}

/// Writes `n` in decimal.
pub fn write_decimal(n: u64) -> (r: String)
    ensures
        r@ == decimal(n as nat),
    decreases n,
{
    let c: char = (48u8 + (n % 10) as u8) as char;
    if n < 10 {
        let mut out = String::new();
        out.push(c);
        out
    } else {
        let mut out = write_decimal(n / 10);
        out.push(c);
        out
    }
}

/// Writes `n` in decimal, with a minus sign where it is negative.
pub fn write_signed(n: i64) -> (r: String)
    ensures
        r@ == signed_decimal(n as int),
{
    if n < 0 {
        let m: u64 = if n == i64::MIN { 9223372036854775808u64 } else { (-n) as u64 };
        let mut out = String::new();
        out.push('-');
        let d = write_decimal(m);
        out.append(d.as_str());
        out
    } else {
        write_decimal(n as u64)
    }
}

proof fn lemma_number_of_prefix(a: Seq<char>, b: Seq<char>, k: int)
    requires
        k <= a.len(),
        k <= b.len(),
        forall|i: int| 0 <= i < k ==> a[i] == b[i],
    ensures
        number_of(a, k) == number_of(b, k),
    decreases k,
{
    if k > 0 {
        lemma_number_of_prefix(a, b, k - 1);
    }
}

/// A number that is written in decimal is read back.
pub proof fn law_decimal_is_read_back(n: nat, max: int)
    requires
        n <= max,
    ensures
        parsed_number(decimal(n), max) == Some(n as int),
        all_digits(decimal(n)),
{
    lemma_decimal(n);
    assert(is_digit(decimal(n)[0]));
}

proof fn lemma_decimal(n: nat)
    ensures
        all_digits(decimal(n)),
        number_of(decimal(n), decimal(n).len() as int) == n,
    decreases n,
{
    let s = decimal(n);
    if n < 10 {
        assert(digit(n) as int == 48 + n);
        assert(s =~= seq![digit(n)]);
        assert(number_of(s, 0) == 0);
        assert(number_of(s, 1) == 10 * number_of(s, 0) + (s[0] as int - '0' as int));
    } else {
        lemma_decimal(n / 10);
        let head = decimal(n / 10);
        assert(digit(n % 10) as int == 48 + n % 10);
        assert(s =~= head.push(digit(n % 10)));
        lemma_number_of_prefix(s, head, head.len() as int);
        assert forall|i: int| 0 <= i < s.len() implies is_digit(#[trigger] s[i]) by {
            if i < head.len() {
                assert(is_digit(head[i]));
            }
        }
    }
}

proof fn lemma_trim(s: Seq<char>, lo: int, hi: int)
    requires
        0 <= lo <= hi <= s.len(),
    ensures
        lo <= trim_from(s, lo, hi) <= hi,
        forall|j: int| lo <= j < trim_from(s, lo, hi) ==> is_white(#[trigger] s[j]),
        trim_from(s, lo, hi) < hi ==> !is_white(s[trim_from(s, lo, hi)]),
        lo <= trim_to(s, lo, hi) <= hi,
        forall|j: int| trim_to(s, lo, hi) <= j < hi ==> is_white(#[trigger] s[j]),
        lo < trim_to(s, lo, hi) ==> !is_white(s[trim_to(s, lo, hi) - 1]),
    decreases hi - lo,
{
    if lo < hi {
        if is_white(s[lo]) {
            lemma_trim(s, lo + 1, hi);
        }
        lemma_trim_back(s, lo, hi);
    }
}

proof fn lemma_trim_back(s: Seq<char>, lo: int, hi: int)
    requires
        0 <= lo <= hi <= s.len(),
    ensures
        lo <= trim_to(s, lo, hi) <= hi,
        forall|j: int| trim_to(s, lo, hi) <= j < hi ==> is_white(#[trigger] s[j]),
        lo < trim_to(s, lo, hi) ==> !is_white(s[trim_to(s, lo, hi) - 1]),
    decreases hi - lo,
{
    if lo < hi && is_white(s[hi - 1]) {
        lemma_trim_back(s, lo, hi - 1);
    }
}

/// Trimming takes white space from both ends and nothing else: the text is the trimmed one with
/// white space before and behind it, and the trimmed one neither begins nor ends with any.
pub proof fn law_trimming_takes_white_space_only(s: Seq<char>)
    ensures
        exists|a: Seq<char>, b: Seq<char>|
            is_blank(a) && is_blank(b) && s == #[trigger] (a + trimmed(s) + b),
        trimmed(s).len() > 0 ==> !is_white(trimmed(s)[0]) && !is_white(trimmed(s).last()),
        is_blank(s) ==> trimmed(s).len() == 0,
{
    let n = s.len() as int;
    lemma_trim(s, 0, n);
    let lo = trim_from(s, 0, n);
    lemma_trim(s, lo, n);
    let hi = trim_to(s, lo, n);
    let a = s.subrange(0, lo);
    let b = s.subrange(hi, n);
    assert(is_blank(a));
    assert(is_blank(b));
    assert(s =~= a + trimmed(s) + b);
    if is_blank(s) && lo < n {
        assert(is_white(s[lo]));
    }
}

/// The pieces of a text with `c` between them.
pub open spec fn joined_by(parts: Seq<Seq<char>>, c: char) -> Seq<char>
    decreases parts.len(),
{
    if parts.len() == 0 {
        Seq::empty()
    } else if parts.len() == 1 {
        parts[0]
    } else {
        parts[0] + seq![c] + joined_by(parts.drop_first(), c)
    }
}

proof fn lemma_split_joins(s: Seq<char>, c: char, from: int)
    requires
        0 <= from <= s.len(),
    ensures
        split_from(s, c, from).len() > 0,
        joined_by(split_from(s, c, from), c) == s.subrange(from, s.len() as int),
        forall|i: int|
            0 <= i < split_from(s, c, from).len() ==> !(#[trigger] split_from(s, c, from)[i]).contains(
                c,
            ),
    decreases s.len() - from,
{
    lemma_find_char(s, c, from);
    let k = find_char(s, c, from);
    let all = split_from(s, c, from);
    if k >= s.len() {
        assert(all =~= seq![s.subrange(from, s.len() as int)]);
    } else {
        lemma_split_joins(s, c, k + 1);
        let rest = split_from(s, c, k + 1);
        assert(all =~= seq![s.subrange(from, k)] + rest);
        assert(all.drop_first() =~= rest);
        assert(s.subrange(from, k) + seq![c] + s.subrange(k + 1, s.len() as int) =~= s.subrange(
            from,
            s.len() as int,
        ));
        assert forall|i: int| 0 <= i < all.len() implies !(#[trigger] all[i]).contains(c) by {
            if i > 0 {
                assert(all[i] == rest[i - 1]);
            }
        }
    }
}

/// A text that is parted at a character is its pieces with that character between them, and no
/// piece holds it.
pub proof fn law_pieces_join_to_text(s: Seq<char>, c: char)
    ensures
        split_on(s, c).len() > 0,
        joined_by(split_on(s, c), c) == s,
        forall|i: int|
            0 <= i < split_on(s, c).len() ==> !(#[trigger] split_on(s, c)[i]).contains(c),
{
    lemma_split_joins(s, c, 0);
    assert(s.subrange(0, s.len() as int) =~= s);
}

proof fn lemma_char_from_bytes(s: Seq<char>, i: int, off: int)
    requires
        0 <= i <= s.len(),
        0 <= off,
    ensures
        match char_from(s, i, off) {
            Some(k) => i <= k <= s.len() && byte_count(s.take(k)) == byte_count(s.take(i)) + off,
            None => true,
        },
        forall|k: int|
            i <= k <= s.len() && byte_count(#[trigger] s.take(k)) == byte_count(s.take(i)) + off
                ==> char_from(s, i, off) == Some(k),
    decreases s.len() - i,
{
    if i < s.len() {
        assert(s.take(i + 1).drop_last() =~= s.take(i));
        assert(byte_count(s.take(i + 1)) == byte_count(s.take(i)) + utf8_width(s[i]));
        if off > 0 && utf8_width(s[i]) <= off {
            lemma_char_from_bytes(s, i + 1, off - utf8_width(s[i]));
        }
        assert forall|k: int|
            i <= k <= s.len() && byte_count(#[trigger] s.take(k)) == byte_count(s.take(i))
                + off implies char_from(s, i, off) == Some(k) by {
            if k > i {
                lemma_take_bytes(s, i + 1, k);
            }
        }
    }
}

proof fn lemma_take_bytes(s: Seq<char>, i: int, k: int)
    requires
        0 <= i <= k <= s.len(),
    ensures
        byte_count(s.take(i)) + (k - i) <= byte_count(s.take(k)),
    decreases k - i,
{
    if i < k {
        lemma_take_bytes(s, i, k - 1);
        assert(s.take(k).drop_last() =~= s.take(k - 1));
    }
}

/// A byte offset belongs to the character before which just as many bytes stand; one inside a
/// character or behind the text belongs to none.
pub proof fn law_offsets_count_bytes(s: Seq<char>, off: int)
    requires
        0 <= off,
    ensures
        match char_from(s, 0, off) {
            Some(k) => 0 <= k <= s.len() && byte_count(s.take(k)) == off,
            None => forall|k: int|
                0 <= k <= s.len() ==> byte_count(#[trigger] s.take(k)) != off,
        },
{
    assert(s.take(0) =~= Seq::<char>::empty());
    lemma_char_from_bytes(s, 0, off);
}

proof fn lemma_lines(t: Seq<char>, from: int)
    requires
        0 <= from <= t.len(),
    ensures
        forall|i: int|
            0 <= i < lines_from(t, from).len() ==> (#[trigger] lines_from(t, from)[i]).len() > 0
                && !lines_from(t, from)[i].drop_last().contains('\n') && (i
                < lines_from(t, from).len() - 1 ==> lines_from(t, from)[i].last() == '\n'),
    decreases t.len() - from,
{
    if from < t.len() {
        lemma_newline_from(t, from);
        let end = line_end(t, from);
        lemma_lines(t, end);
        let rest = lines_from(t, end);
        let all = lines_from(t, from);
        let first = t.subrange(from, end);
        assert(all =~= seq![first] + rest);
        assert forall|i: int| 0 <= i < all.len() implies (#[trigger] all[i]).len() > 0
            && !all[i].drop_last().contains('\n') && (i < all.len() - 1 ==> all[i].last() == '\n') by {
            if i > 0 {
                assert(all[i] == rest[i - 1]);
            } else {
                assert(all[0] == first);
                let k = newline_from(t, from);
                assert forall|j: int| 0 <= j < first.len() - 1 implies first.drop_last()[j]
                    != '\n' by {
                    assert(first[j] == t[from + j]);
                }
                if all.len() > 1 {
                    assert(end < t.len()) by {
                        if end >= t.len() {
                            assert(rest.len() == 0);
                        }
                    }
                    assert(k < t.len());
                    assert(first.last() == t[k]);
                }
            }
        }
    }
}

/// Every line but the last ends with a newline, none has one inside it, and none is empty.
pub proof fn law_lines_end_at_newlines(t: Seq<char>, i: int)
    requires
        0 <= i < lines_of(t).len(),
    ensures
        lines_of(t)[i].len() > 0,
        !lines_of(t)[i].drop_last().contains('\n'),
        i < lines_of(t).len() - 1 ==> lines_of(t)[i].last() == '\n',
{
    lemma_lines(t, 0);
}

/// A line is shown without the line break at its end, be that a newline alone or one behind a
/// carriage return; what else it holds stays.
pub proof fn law_line_breaks_are_left_out(s: Seq<char>)
    requires
        !s.contains('\n'),
    ensures
        bare(s) == s,
        s.len() == 0 || s.last() != '\r' ==> bare(s.push('\n')) == s,
        bare(s.push('\r').push('\n')) == s,
{
    if s.len() > 0 {
        assert(s[s.len() - 1] != '\n');
    }
    assert(s.push('\n').drop_last() =~= s);
    assert(s.push('\r').push('\n').drop_last() =~= s.push('\r'));
    assert(s.push('\r').drop_last() =~= s);
}

/// Whether `a` and `b` are the same up to `k`, and there `a` ends or has the smaller character.
pub open spec fn parts_below(a: Seq<char>, b: Seq<char>, k: int) -> bool {
    &&& 0 <= k < b.len()
    &&& k <= a.len()
    &&& a.take(k) == b.take(k)
    &&& k == a.len() || a[k] < b[k]
}

proof fn lemma_less_parts(a: Seq<char>, b: Seq<char>, k: int)
    requires
        0 <= k <= a.len(),
        k <= b.len(),
        a.take(k) == b.take(k),
    ensures
        less_from(a, b, k) <==> exists|m: int| k <= m && #[trigger] parts_below(a, b, m),
    decreases a.len() - k,
{
    if k < a.len() && k < b.len() && a[k] == b[k] {
        assert(a.take(k + 1) =~= a.take(k).push(a[k]));
        assert(b.take(k + 1) =~= b.take(k).push(b[k]));
        lemma_less_parts(a, b, k + 1);
        assert(!parts_below(a, b, k));
    } else {
        if less_from(a, b, k) {
            assert(parts_below(a, b, k));
        }
        assert forall|m: int| k <= m && #[trigger] parts_below(a, b, m) implies less_from(a, b, k) by {
            if m > k {
                assert(a.take(m)[k] == b.take(m)[k]);
            }
        }
    }
}

/// Texts are ordered as words in a dictionary: the first place where they differ decides, and one
/// that goes on where the other ends comes behind it.
pub proof fn law_texts_are_ordered_like_words(a: Seq<char>, b: Seq<char>)
    ensures
        less(a, b) <==> exists|k: int| #[trigger] parts_below(a, b, k),
{
    assert(a.take(0) =~= b.take(0));
    lemma_less_parts(a, b, 0);
    if exists|k: int| #[trigger] parts_below(a, b, k) {
        let k = choose|k: int| #[trigger] parts_below(a, b, k);
        assert(0 <= k && parts_below(a, b, k));
    }
}

/// Replacing a character goes by each character on its own: a text of two parts is replaced part
/// by part, and a single character stays unless it is the one meant.
pub proof fn law_characters_are_replaced_one_by_one(a: Seq<char>, b: Seq<char>, c: char, d: char, w: Seq<char>)
    ensures
        replaced(a + b, seq![c], w) == replaced(a, seq![c], w) + replaced(b, seq![c], w),
        replaced(seq![c], seq![c], w) == w,
        c != d ==> replaced(seq![d], seq![c], w) == seq![d],
{
    lemma_replaced_parts(a, b, c, w, 0);
    assert(seq![c].subrange(0, 1) =~= seq![c]);
    assert(occurs_at(seq![c], seq![c], 0));
    assert(replaced_from(seq![c], seq![c], w, 1) =~= Seq::<char>::empty());
    assert(w + Seq::<char>::empty() =~= w);
    if c != d {
        assert(seq![d].subrange(0, 1)[0] == d);
        assert(!occurs_at(seq![d], seq![c], 0));
        assert(replaced_from(seq![d], seq![c], w, 1) =~= Seq::<char>::empty());
        assert(replaced(seq![d], seq![c], w) =~= seq![d]);
    }
}

proof fn lemma_replaced_tail(a: Seq<char>, b: Seq<char>, c: char, w: Seq<char>, i: int)
    requires
        0 <= i,
    ensures
        replaced_from(a + b, seq![c], w, a.len() + i) == replaced_from(b, seq![c], w, i),
    decreases b.len() - i,
{
    let s = a + b;
    let at = a.len() + i;
    if i < b.len() {
        lemma_replaced_tail(a, b, c, w, i + 1);
        assert(s.subrange(at, at + 1) =~= b.subrange(i, i + 1));
        assert(s[at] == b[i]);
    }
}

proof fn lemma_replaced_parts(a: Seq<char>, b: Seq<char>, c: char, w: Seq<char>, i: int)
    requires
        0 <= i <= a.len(),
    ensures
        replaced_from(a + b, seq![c], w, i) == replaced_from(a, seq![c], w, i) + replaced_from(
            b,
            seq![c],
            w,
            0,
        ),
    decreases a.len() - i,
{
    let s = a + b;
    let tail = replaced_from(b, seq![c], w, 0);
    if i < a.len() {
        lemma_replaced_parts(a, b, c, w, i + 1);
        assert(s.subrange(i, i + 1) =~= a.subrange(i, i + 1));
        assert(s[i] == a[i]);
        let rest = replaced_from(a, seq![c], w, i + 1);
        assert(w + (rest + tail) =~= (w + rest) + tail);
        assert(seq![a[i]] + (rest + tail) =~= (seq![a[i]] + rest) + tail);
    } else {
        lemma_replaced_tail(a, b, c, w, 0);
        assert(replaced_from(a, seq![c], w, i) + tail =~= tail);
    }
}

} // verus!
