//! The text encodings that a document can be read in, by the label that the picker shows.

use crate::text::same;
use encoding_rs::Encoding;
use vstd::prelude::*;

verus! {

/// `encoding_rs::Encoding`.
#[verifier::external_type_specification]
#[verifier::external_body]
pub struct ExEncoding(Encoding);

/// The name of an encoding in the Encoding Standard.
pub uninterp spec fn codec_name(e: Encoding) -> Seq<char>;

/// The name of the encoding that `Encoding::for_label` gives for a label.
pub uninterp spec fn labelled(label: Seq<char>) -> Option<Seq<char>>;

/// The text that `Encoding::decode` of the encoding with a name gives for bytes.
pub uninterp spec fn decoded(name: Seq<char>, bytes: Seq<u8>) -> Seq<char>;

/// The names of the encodings that are used here.
pub open spec fn is_codec(name: Seq<char>) -> bool {
    ||| name == "UTF-8"@
    ||| name == "UTF-16LE"@
    ||| name == "UTF-16BE"@
    ||| name == "windows-1250"@
    ||| name == "windows-1251"@
    ||| name == "windows-1252"@
    ||| name == "windows-1253"@
    ||| name == "windows-1254"@
    ||| name == "Shift_JIS"@
    ||| name == "EUC-JP"@
    ||| name == "GBK"@
    ||| name == "Big5"@
    ||| name == "EUC-KR"@
}

/// `Encoding::for_label`: the encoding that has a label. The names of the encodings that are
/// used here are labels of these encodings, as the Encoding Standard lists them.
#[verifier::external_body]
fn for_label(label: &str) -> (r: Option<&'static Encoding>)
    ensures
        match r {
            Some(e) => labelled(label@) == Some(codec_name(*e)),
            None => labelled(label@) is None,
        },
        is_codec(label@) ==> r is Some && codec_name(*r->0) == label@,
{
    Encoding::for_label(label.as_bytes())
}

/// `Encoding::decode`: the text of bytes, what is malformed replaced by U+FFFD. The text rests
/// on the encoding and on the bytes.
#[verifier::external_body]
fn decode_with(codec: &'static Encoding, bytes: &[u8]) -> (r: String)
    requires
        bytes@.len() <= usize::MAX / 8,
    ensures
        r@ == decoded(codec_name(*codec), bytes@),
{
    codec.decode(bytes).0.into_owned()
}

/// How many encodings the picker offers.
pub const ENCODING_COUNT: usize = 15;

/// The label and the encoding of the `k`-th entry of the picker.
pub open spec fn entry(k: int) -> (Seq<char>, Seq<char>) {
    if k == 0 {
        ("UTF-8"@, "UTF-8"@)
    } else if k == 1 {
        ("ASCII"@, "UTF-8"@)
    } else if k == 2 {
        ("UTF-16 LE"@, "UTF-16LE"@)
    } else if k == 3 {
        ("UTF-16 BE"@, "UTF-16BE"@)
    } else if k == 4 {
        ("Western (Windows 1252)"@, "windows-1252"@)
    } else if k == 5 {
        ("Western (ISO 8859-1)"@, "windows-1252"@)
    } else if k == 6 {
        ("Central European (Windows 1250)"@, "windows-1250"@)
    } else if k == 7 {
        ("Cyrillic (Windows 1251)"@, "windows-1251"@)
    } else if k == 8 {
        ("Greek (Windows 1253)"@, "windows-1253"@)
    } else if k == 9 {
        ("Turkish (Windows 1254)"@, "windows-1254"@)
    } else if k == 10 {
        ("Japanese (Shift JIS)"@, "Shift_JIS"@)
    } else if k == 11 {
        ("Japanese (EUC-JP)"@, "EUC-JP"@)
    } else if k == 12 {
        ("Chinese (GBK)"@, "GBK"@)
    } else if k == 13 {
        ("Chinese (Big5)"@, "Big5"@)
    } else {
        ("Korean (EUC-KR)"@, "EUC-KR"@)
    }
}

/// The label and the encoding of the `k`-th entry of the picker.
pub fn entry_at(k: usize) -> (r: (&'static str, &'static str))
    requires
        k < ENCODING_COUNT,
    ensures
        (r.0@, r.1@) == entry(k as int),
        is_codec(r.1@),
{
    match k {
        0 => ("UTF-8", "UTF-8"),
        1 => ("ASCII", "UTF-8"),
        2 => ("UTF-16 LE", "UTF-16LE"),
        3 => ("UTF-16 BE", "UTF-16BE"),
        4 => ("Western (Windows 1252)", "windows-1252"),
        5 => ("Western (ISO 8859-1)", "windows-1252"),
        6 => ("Central European (Windows 1250)", "windows-1250"),
        7 => ("Cyrillic (Windows 1251)", "windows-1251"),
        8 => ("Greek (Windows 1253)", "windows-1253"),
        9 => ("Turkish (Windows 1254)", "windows-1254"),
        10 => ("Japanese (Shift JIS)", "Shift_JIS"),
        11 => ("Japanese (EUC-JP)", "EUC-JP"),
        12 => ("Chinese (GBK)", "GBK"),
        13 => ("Chinese (Big5)", "Big5"),
        _ => ("Korean (EUC-KR)", "EUC-KR"),
    }
}

/// The first entry from the `k`-th on with a label.
pub open spec fn entry_from(label: Seq<char>, k: int) -> int
    decreases ENCODING_COUNT - k,
{
    if k >= ENCODING_COUNT || entry(k).0 == label {
        k
    } else {
        entry_from(label, k + 1)
    }
}

/// The label that is kept with a document: that of the entry, or "UTF-8".
pub open spec fn kept_label(label: Seq<char>) -> Seq<char> {
    let k = entry_from(label, 0);
    if k < ENCODING_COUNT {
        entry(k).0
    } else {
        "UTF-8"@
    }
}

/// The encoding of a label: that of the entry, or UTF-8.
pub open spec fn codec_of(label: Seq<char>) -> Seq<char> {
    let k = entry_from(label, 0);
    if k < ENCODING_COUNT {
        entry(k).1
    } else {
        "UTF-8"@
    }
}

fn find_entry(label: &str) -> (r: Option<(&'static str, &'static str)>)
    ensures
        match r {
            Some(e) => 0 <= entry_from(label@, 0) < ENCODING_COUNT && (e.0@, e.1@) == entry(
                entry_from(label@, 0),
            ) && is_codec(e.1@),
            None => entry_from(label@, 0) >= ENCODING_COUNT,
        },
{
    let mut k: usize = 0;
    while k < ENCODING_COUNT
        invariant
            k <= ENCODING_COUNT,
            entry_from(label@, k as int) == entry_from(label@, 0),
        decreases ENCODING_COUNT - k,
    {
        let e = entry_at(k);
        if same(e.0, label) {
            return Some(e);
        }
        k = k + 1;
    }
    None
}

/// The encoding of a label of the picker; UTF-8 for an unknown label.
pub fn codec_for(label: &str) -> (r: &'static Encoding)
    ensures
        codec_name(*r) == codec_of(label@),
{
    let name: &'static str = match find_entry(label) {
        Some(e) => e.1,
        None => "UTF-8",
    };
    for_label(name).unwrap()
}

/// The label to keep with a document for a label of the picker; "UTF-8" for an unknown label.
pub fn static_label(label: &str) -> (r: &'static str)
    ensures
        r@ == kept_label(label@),
{
    match find_entry(label) {
        Some(e) => e.0,
        None => "UTF-8",
    }
}

/// The text of seven-bit bytes; every other byte is replaced.
pub open spec fn seven_bit(bytes: Seq<u8>) -> Seq<char> {
    Seq::new(
        bytes.len(),
        |i: int|
            if bytes[i] < 128 {
                bytes[i] as char
            } else {
                '\u{FFFD}'
            },
    )
}

/// The text of bytes in the encoding of a label.
pub open spec fn text_in(label: Seq<char>, bytes: Seq<u8>) -> Seq<char> {
    if label == "ASCII"@ {
        seven_bit(bytes)
    } else {
        decoded(codec_of(label), bytes)
    }
}

/// Reads bytes in the encoding of a label. It always succeeds: what is malformed is replaced.
pub fn decode(label: &str, bytes: &[u8]) -> (r: String)
    requires
        bytes@.len() <= usize::MAX / 8,
    ensures
        r@ == text_in(label@, bytes@),
{
    if same(label, "ASCII") {
        let ghost want = seven_bit(bytes@);
        let mut out = String::new();
        let mut k: usize = 0;
        assert(out@ =~= want.take(0));
        while k < bytes.len()
            invariant
                k <= bytes@.len(),
                want == seven_bit(bytes@),
                out@ == want.take(k as int),
            decreases bytes.len() - k,
        {
            let b: u8 = bytes[k];
            if b < 128 {
                out.push(b as char);
            } else {
                out.push('\u{FFFD}');
            }
            assert(want.take(k + 1) =~= want.take(k as int).push(want[k as int]));
            k = k + 1;
        }
        assert(want.take(k as int) =~= want);
        return out;
    }
    decode_with(codec_for(label), bytes)
}

/// A label of the picker is kept as it is, and what is kept is a label of the picker.
pub proof fn law_kept_label_is_stable(label: Seq<char>)
    ensures
        kept_label(kept_label(label)) == kept_label(label),
        codec_of(kept_label(label)) == codec_of(label),
{
    lemma_entry_from(label, 0);
    let k = entry_from(label, 0);
    if k >= ENCODING_COUNT {
        assert(entry(0).0 == "UTF-8"@);
        assert(entry_from("UTF-8"@, 0) == 0);
    }
}

proof fn lemma_entry_from(label: Seq<char>, k: int)
    requires
        0 <= k <= ENCODING_COUNT,
    ensures
        k <= entry_from(label, k) <= ENCODING_COUNT,
        entry_from(label, k) < ENCODING_COUNT ==> entry(entry_from(label, k)).0 == label,
    decreases ENCODING_COUNT - k,
{
    if k < ENCODING_COUNT && entry(k).0 != label {
        lemma_entry_from(label, k + 1);
    }
}

proof fn lemma_entry_is(k: int, i: int, label: Seq<char>)
    requires
        0 <= k <= i < 15,
        entry(i).0 == label,
        forall|j: int| k <= j < i ==> (#[trigger] entry(j)).0 != label,
    ensures
        entry_from(label, k) == i,
    decreases i - k,
{
    if k < i {
        assert(entry(k).0 != label);
        lemma_entry_is(k + 1, i, label);
    }
}

/// Every encoding that can be chosen is read by its own codec.
pub proof fn law_labels_have_their_codecs()
    ensures
        codec_of("UTF-8"@) == "UTF-8"@,
        codec_of("ASCII"@) == "UTF-8"@,
        codec_of("UTF-16 LE"@) == "UTF-16LE"@,
        codec_of("UTF-16 BE"@) == "UTF-16BE"@,
        codec_of("Western (Windows 1252)"@) == "windows-1252"@,
        codec_of("Western (ISO 8859-1)"@) == "windows-1252"@,
        codec_of("Central European (Windows 1250)"@) == "windows-1250"@,
        codec_of("Cyrillic (Windows 1251)"@) == "windows-1251"@,
        codec_of("Greek (Windows 1253)"@) == "windows-1253"@,
        codec_of("Turkish (Windows 1254)"@) == "windows-1254"@,
        codec_of("Japanese (Shift JIS)"@) == "Shift_JIS"@,
        codec_of("Japanese (EUC-JP)"@) == "EUC-JP"@,
        codec_of("Chinese (GBK)"@) == "GBK"@,
        codec_of("Chinese (Big5)"@) == "Big5"@,
        codec_of("Korean (EUC-KR)"@) == "EUC-KR"@,
{
    reveal_strlit("UTF-8");
    reveal_strlit("ASCII");
    reveal_strlit("UTF-16 LE");
    reveal_strlit("UTF-16 BE");
    reveal_strlit("Western (Windows 1252)");
    reveal_strlit("Western (ISO 8859-1)");
    reveal_strlit("Central European (Windows 1250)");
    reveal_strlit("Cyrillic (Windows 1251)");
    reveal_strlit("Greek (Windows 1253)");
    reveal_strlit("Turkish (Windows 1254)");
    reveal_strlit("Japanese (Shift JIS)");
    reveal_strlit("Japanese (EUC-JP)");
    reveal_strlit("Chinese (GBK)");
    reveal_strlit("Chinese (Big5)");
    reveal_strlit("Korean (EUC-KR)");
    assert("UTF-8"@.len() == 5);
    assert("ASCII"@.len() == 5);
    assert("UTF-16 LE"@.len() == 9);
    assert("UTF-16 BE"@.len() == 9);
    assert("Western (Windows 1252)"@.len() == 22);
    assert("Western (ISO 8859-1)"@.len() == 20);
    assert("Central European (Windows 1250)"@.len() == 31);
    assert("Cyrillic (Windows 1251)"@.len() == 23);
    assert("Greek (Windows 1253)"@.len() == 20);
    assert("Turkish (Windows 1254)"@.len() == 22);
    assert("Japanese (Shift JIS)"@.len() == 20);
    assert("Japanese (EUC-JP)"@.len() == 17);
    assert("Chinese (GBK)"@.len() == 13);
    assert("Chinese (Big5)"@.len() == 14);
    assert("Korean (EUC-KR)"@.len() == 15);
    assert("UTF-8"@[0] == 'U' && "ASCII"@[0] == 'A');
    assert("UTF-16 LE"@[7] == 'L' && "UTF-16 BE"@[7] == 'B');
    assert("Western (Windows 1252)"@[0] == 'W' && "Turkish (Windows 1254)"@[0] == 'T');
    assert("Western (ISO 8859-1)"@[0] == 'W' && "Greek (Windows 1253)"@[0] == 'G');
    assert("Western (ISO 8859-1)"@[0] == 'W' && "Japanese (Shift JIS)"@[0] == 'J');
    assert("Greek (Windows 1253)"@[0] == 'G' && "Japanese (Shift JIS)"@[0] == 'J');
    assert(entry(0).0 == "UTF-8"@);
    assert(entry(1).0 == "ASCII"@);
    assert(entry(2).0 == "UTF-16 LE"@);
    assert(entry(3).0 == "UTF-16 BE"@);
    assert(entry(4).0 == "Western (Windows 1252)"@);
    assert(entry(5).0 == "Western (ISO 8859-1)"@);
    assert(entry(6).0 == "Central European (Windows 1250)"@);
    assert(entry(7).0 == "Cyrillic (Windows 1251)"@);
    assert(entry(8).0 == "Greek (Windows 1253)"@);
    assert(entry(9).0 == "Turkish (Windows 1254)"@);
    assert(entry(10).0 == "Japanese (Shift JIS)"@);
    assert(entry(11).0 == "Japanese (EUC-JP)"@);
    assert(entry(12).0 == "Chinese (GBK)"@);
    assert(entry(13).0 == "Chinese (Big5)"@);
    assert(entry(14).0 == "Korean (EUC-KR)"@);
    lemma_entry_is(0, 0, "UTF-8"@);
    lemma_entry_is(0, 1, "ASCII"@);
    lemma_entry_is(0, 2, "UTF-16 LE"@);
    lemma_entry_is(0, 3, "UTF-16 BE"@);
    lemma_entry_is(0, 4, "Western (Windows 1252)"@);
    lemma_entry_is(0, 5, "Western (ISO 8859-1)"@);
    lemma_entry_is(0, 6, "Central European (Windows 1250)"@);
    lemma_entry_is(0, 7, "Cyrillic (Windows 1251)"@);
    lemma_entry_is(0, 8, "Greek (Windows 1253)"@);
    lemma_entry_is(0, 9, "Turkish (Windows 1254)"@);
    lemma_entry_is(0, 10, "Japanese (Shift JIS)"@);
    lemma_entry_is(0, 11, "Japanese (EUC-JP)"@);
    lemma_entry_is(0, 12, "Chinese (GBK)"@);
    lemma_entry_is(0, 13, "Chinese (Big5)"@);
    lemma_entry_is(0, 14, "Korean (EUC-KR)"@);
}

/// Seven-bit text is read byte by byte, and a byte that is none stands for a character that cannot
/// be read.
pub proof fn law_seven_bit_text_is_read_by_bytes(bytes: Seq<u8>, i: int)
    requires
        0 <= i < bytes.len(),
    ensures
        text_in("ASCII"@, bytes).len() == bytes.len(),
        bytes[i] < 128 ==> text_in("ASCII"@, bytes)[i] as int == bytes[i],
        bytes[i] >= 128 ==> text_in("ASCII"@, bytes)[i] == '\u{FFFD}',
{
}

} // verus!
