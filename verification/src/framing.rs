//! Messages on a byte stream: each stands behind a header that tells its length.
use vstd::prelude::*;

use vstd::string::StringSliceAdditionalSpecFns;
use vstd::utf8::encode_utf8;

use crate::json::parse;
use crate::json::read;
use crate::json::Json;
use crate::json::Tree;
use crate::text::begins;
use crate::text::decimal;
use crate::text::from_utf8;
use crate::text::law_decimal_is_read_back;
use crate::text::parse_number;
use crate::text::parsed_number;
use crate::text::strip_prefix;
use crate::text::trim;
use crate::text::trim_from;
use crate::text::trim_to;
use crate::text::trimmed;
use crate::text::write_decimal;

verus! {

/// What the bytes that have come so far hold.
pub enum Inbound {
    /// The message has not come whole.
    More,
    /// What came is no message: nothing more is read.
    End,
    /// The first message, and how many bytes it took.
    Message { value: Json, used: usize },
}

/// Where the body of the first message stands.
pub enum BodyPlace {
    /// It has not come whole.
    More,
    /// The header tells no length.
    Bad,
    /// Between two places.
    Between(int, int),
}

/// The first line feed at or behind `k`, or the end.
pub open spec fn line_feed(b: Seq<u8>, k: int) -> int
    decreases b.len() - k,
{
    if k >= b.len() {
        b.len() as int
    } else if b[k] == 10 {
        k
    } else {
        line_feed(b, k + 1)
    }
}

/// The bytes `b[lo..hi]`, each as the character of its number.
pub open spec fn as_chars(b: Seq<u8>, lo: int, hi: int) -> Seq<char> {
    Seq::new((hi - lo) as nat, |k: int| b[lo + k] as char)
}

/// Where the body of the first message stands: behind a blank line, as long as the last
/// `Content-Length` line from `i` on says, or `length` where there is none.
pub open spec fn body_place(b: Seq<u8>, i: int, length: Option<int>) -> BodyPlace
    decreases b.len() - i,
{
    let e = line_feed(b, i);
    if !(i <= e < b.len()) {
        BodyPlace::More
    } else {
        let line = trimmed(as_chars(b, i, e));
        if line.len() == 0 {
            match length {
                Some(n) => if e + 1 + n <= b.len() {
                    BodyPlace::Between(e + 1, e + 1 + n)
                } else {
                    BodyPlace::More
                },
                None => BodyPlace::Bad,
            }
        } else if begins(line, "Content-Length:"@) {
            let told = trimmed(line.skip("Content-Length:"@.len() as int));
            match parsed_number(told, usize::MAX as int) {
                Some(n) => body_place(b, e + 1, Some(n)),
                None => BodyPlace::Bad,
            }
        } else {
            body_place(b, e + 1, length)
        }
    }
}

/// The document that the bytes of a body are, if they are one in UTF-8.
pub open spec fn message_in(body: Seq<u8>) -> Option<Tree> {
    if vstd::utf8::valid_utf8(body) {
        read(vstd::utf8::decode_utf8(body))
    } else {
        None
    }
}

/// The header of a body of `n` bytes.
pub open spec fn header(n: nat) -> Seq<char> {
    "Content-Length: "@ + decimal(n) + "\r\n\r\n"@
}

/// A text behind its header.
pub open spec fn framed(body: Seq<char>) -> Seq<u8> {
    let bytes = encode_utf8(body);
    let h = header(bytes.len());
    Seq::new(h.len(), |k: int| h[k] as u8) + bytes
}

proof fn lemma_line_feed(b: Seq<u8>, k: int, e: int)
    requires
        0 <= k <= e <= b.len(),
        forall|j: int| k <= j < e ==> b[j] != 10,
        e < b.len() ==> b[e] == 10,
    ensures
        line_feed(b, k) == e,
    decreases e - k,
{
    if k < e {
        lemma_line_feed(b, k + 1, e);
    }
}

/// The line between two places, each byte as the character of its number.
fn line_between(b: &Vec<u8>, lo: usize, hi: usize) -> (r: String)
    requires
        lo <= hi <= b@.len(),
    ensures
        r@ == as_chars(b@, lo as int, hi as int),
{
    let mut out = String::new();
    let mut k: usize = lo;
    while k < hi
        invariant
            lo <= k <= hi <= b@.len(),
            out@ == as_chars(b@, lo as int, k as int),
        decreases hi - k,
    {
        let ghost before = out@;
        out.push(b[k] as char);
        assert(out@ =~= before.push(b@[k as int] as char));
        k = k + 1;
    }
    out
}

/// The first message among the bytes that have come so far.
pub fn next_message(b: &Vec<u8>) -> (r: Inbound)
    ensures
        match body_place(b@, 0, None) {
            BodyPlace::More => r is More,
            BodyPlace::Bad => r is End,
            BodyPlace::Between(lo, hi) => match message_in(b@.subrange(lo, hi)) {
                Some(t) => r matches Inbound::Message { value, used } && value@ == t && used == hi,
                None => r is End,
            },
        },
{
    let n: usize = b.len();
    let mut length: Option<usize> = None;
    let mut i: usize = 0;
    let mut e: usize = 0;
    while e < n
        invariant
            n == b@.len(),
            i <= e <= n,
            forall|j: int| i <= j < e ==> b@[j] != 10,
            body_place(b@, i as int, match length { Some(x) => Some(x as int), None => None })
                == body_place(b@, 0, None),
        decreases n - e,
    {
        if b[e] != 10 {
            e = e + 1;
            continue;
        }
        proof {
            lemma_line_feed(b@, i as int, e as int);
        }
        let whole = line_between(b, i, e);
        let line = trim(whole.as_str());
        if line.as_str().is_empty() {
            return match length {
                Some(x) => if x > n - (e + 1) {
                    Inbound::More
                } else {
                    body_message(b, e + 1, e + 1 + x)
                },
                None => Inbound::End,
            };
        }
        if let Some(told) = strip_prefix(line.as_str(), "Content-Length:") {
            match parse_number(trim(told.as_str()).as_str(), usize::MAX as u64) {
                Some(x) => {
                    length = Some(x as usize);
                },
                None => {
                    return Inbound::End;
                },
            }
        }
        i = e + 1;
        e = e + 1;
    }
    proof {
        lemma_line_feed(b@, i as int, n as int);
    }
    Inbound::More
}

/// The message whose body stands between two places.
fn body_message(b: &Vec<u8>, lo: usize, hi: usize) -> (r: Inbound)
    requires
        lo <= hi <= b@.len(),
    ensures
        match message_in(b@.subrange(lo as int, hi as int)) {
            Some(t) => r matches Inbound::Message { value, used } && value@ == t && used == hi,
            None => r is End,
        },
{
    let mut body: Vec<u8> = Vec::new();
    let mut k: usize = lo;
    while k < hi
        invariant
            lo <= k <= hi <= b@.len(),
            body@ == b@.subrange(lo as int, k as int),
        decreases hi - k,
    {
        body.push(b[k]);
        k = k + 1;
    }
    match from_utf8(&body) {
        Some(text) => match parse(text.as_str()) {
            Some(value) => Inbound::Message { value, used: hi },
            None => Inbound::End,
        },
        None => Inbound::End,
    }
}

/// A text behind its header, as it is sent.
pub fn frame(body: &str) -> (r: Vec<u8>)
    ensures
        r@ == framed(body@),
{
    let bytes = body.as_bytes();
    assert(bytes@ == body.spec_bytes());
    let mut h = "Content-Length: ".to_owned();
    h.append(write_decimal(bytes.len() as u64).as_str());
    h.append("\r\n\r\n");
    assert(h@ == header(encode_utf8(body@).len()));
    let hs = crate::text::chars_of(h.as_str());
    let mut out: Vec<u8> = Vec::new();
    let mut k: usize = 0;
    while k < hs.len()
        invariant
            k <= hs@.len(),
            out@ == Seq::new(k as nat, |j: int| hs@[j] as u8),
        decreases hs.len() - k,
    {
        let ghost before = out@;
        out.push(hs[k] as u8);
        assert(out@ =~= before.push(hs@[k as int] as u8));
        k = k + 1;
    }
    let ghost head = out@;
    let mut k: usize = 0;
    while k < bytes.len()
        invariant
            k <= bytes@.len(),
            out@ == head + bytes@.take(k as int),
        decreases bytes.len() - k,
    {
        out.push(bytes[k]);
        assert(bytes@.take(k + 1) =~= bytes@.take(k as int).push(bytes@[k as int]));
        assert(out@ =~= head + bytes@.take(k + 1));
        k = k + 1;
    }
    assert(bytes@.take(k as int) =~= bytes@);
    out
}

/// What was framed is read back, whatever follows it, and takes the bytes of the frame.
pub proof fn law_frames_are_read_back(body: Seq<char>, rest: Seq<u8>)
    requires
        encode_utf8(body).len() <= usize::MAX,
    ensures
        ({
            let b = framed(body) + rest;
            body_place(b, 0, None) matches BodyPlace::Between(lo, hi) && hi == framed(body).len()
                && message_in(b.subrange(lo, hi)) == read(body)
        }),
{
    let bytes = encode_utf8(body);
    let n = bytes.len();
    let b = framed(body) + rest;
    let h = header(n);
    let d = decimal(n);
    law_decimal_is_read_back(n, usize::MAX as int);
    reveal_strlit("Content-Length: ");
    reveal_strlit("Content-Length:");
    reveal_strlit("\r\n\r\n");
    let e: int = 17 + d.len() as int;
    assert(h.len() == e + 3);
    assert forall|k: int| 0 <= k < h.len() implies (h[k] as int) < 128 && b[k] as char == h[k] && b[k] as int
        == h[k] as int by {
        if 16 <= k < 16 + d.len() {
            assert(h[k] == d[k - 16]);
            assert(crate::text::is_digit(d[k - 16]));
        }
        assert(b[k] == h[k] as u8);
    }
    assert forall|j: int| 0 <= j < e implies b[j] != 10 by {
        if 16 <= j < 16 + d.len() {
            assert(crate::text::is_digit(d[j - 16]));
            assert(h[j] == d[j - 16]);
        }
    }
    assert(h[e] == '\n');
    lemma_line_feed(b, 0, e);
    let s = as_chars(b, 0, e);
    assert(s =~= "Content-Length: "@ + d + seq!['\r']);
    let line = "Content-Length: "@ + d;
    assert(crate::text::is_digit(d[d.len() - 1]));
    assert(s[0] == 'C');
    assert(trim_from(s, 0, s.len() as int) == 0);
    assert(s[s.len() - 1] == '\r');
    assert(s[s.len() - 2] == d[d.len() - 1]);
    assert(trim_to(s, 0, s.len() - 1) == s.len() - 1);
    assert(trim_to(s, 0, s.len() as int) == s.len() - 1);
    assert(trimmed(s) =~= line);
    assert(line.take(15) =~= "Content-Length:"@);
    assert(begins(line, "Content-Length:"@));
    let w = line.skip(15);
    assert(w =~= seq![' '] + d);
    assert(crate::text::is_digit(d[0]));
    assert(w[1] == d[0]);
    assert(trim_from(w, 1, w.len() as int) == 1);
    assert(trim_from(w, 0, w.len() as int) == 1);
    assert(w[w.len() - 1] == d[d.len() - 1]);
    assert(trim_to(w, 1, w.len() as int) == w.len());
    assert(trimmed(w) =~= d);
    assert(body_place(b, 0, None) == body_place(b, e + 1, Some(n as int)));
    assert(h[e + 1] == '\r' && h[e + 2] == '\n');
    lemma_line_feed(b, e + 1, e + 2);
    let s2 = as_chars(b, e + 1, e + 2);
    assert(s2 =~= seq!['\r']);
    assert(trim_from(s2, 1, 1) == 1);
    assert(trim_from(s2, 0, 1) == 1);
    assert(trimmed(s2) =~= Seq::<char>::empty());
    assert(b.subrange(e + 3, e + 3 + n) =~= bytes);
    vstd::utf8::encode_utf8_valid_utf8(body);
    vstd::utf8::encode_utf8_decode_utf8(body);
}

} // verus!
