//! Colour roles, and text painted with them.
use vstd::prelude::*;

verus! {

/// The role that a piece of text plays; the theme gives each role its colour.
#[derive(Clone, Copy, PartialEq, Eq, Debug, Structural)]
pub enum Color {
    Comment,
    Str,
    KeywordControl,
    Keyword,
    Function,
    Type,
    Number,
    Constant,
    Variable,
    Label,
    Invalid,
    Text,
}

/// A piece of text and its colour.
pub type Painted = (Seq<char>, Color);

/// The pieces that a list of spans stands for.
pub open spec fn span_views(v: Seq<(String, Color)>) -> Seq<Painted> {
    Seq::new(v.len(), |i: int| (v[i].0@, v[i].1))
}

/// The pieces of each row.
pub open spec fn row_views(v: Seq<Vec<(String, Color)>>) -> Seq<Seq<Painted>> {
    Seq::new(v.len(), |i: int| span_views(v[i]@))
}

/// One piece, character by character.
pub open spec fn brushed(p: Painted) -> Seq<(char, Color)> {
    Seq::new(p.0.len(), |i: int| (p.0[i], p.1))
}

/// The pieces one after the other, character by character.
pub open spec fn canvas(ps: Seq<Painted>) -> Seq<(char, Color)>
    decreases ps.len(),
{
    if ps.len() == 0 {
        Seq::empty()
    } else {
        canvas(ps.drop_last()) + brushed(ps.last())
    }
}

/// The rows one after the other.
pub open spec fn flat(rows: Seq<Seq<Painted>>) -> Seq<Painted>
    decreases rows.len(),
{
    if rows.len() == 0 {
        Seq::empty()
    } else {
        flat(rows.drop_last()) + rows.last()
    }
}

/// What is painted by two lists of pieces is painted by their concatenation.
pub proof fn lemma_canvas_concat(a: Seq<Painted>, b: Seq<Painted>)
    ensures
        canvas(a + b) == canvas(a) + canvas(b),
    decreases b.len(),
{
    if b.len() == 0 {
        assert(a + b == a);
        assert(canvas(a) + Seq::<(char, Color)>::empty() == canvas(a));
    } else {
        lemma_canvas_concat(a, b.drop_last());
        assert((a + b).drop_last() == a + b.drop_last());
        assert((a + b).last() == b.last());
        assert((canvas(a) + canvas(b.drop_last())) + brushed(b.last()) == canvas(a) + (canvas(
            b.drop_last(),
        ) + brushed(b.last())));
    }
}

/// One more piece paints its own characters behind the rest.
pub proof fn lemma_canvas_push(a: Seq<Painted>, p: Painted)
    ensures
        canvas(a.push(p)) == canvas(a) + brushed(p),
{
    assert(a.push(p).drop_last() == a);
}

/// Appends copies of the spans of `v`.
pub fn append_spans(out: &mut Vec<(String, Color)>, v: &Vec<(String, Color)>)
    ensures
        span_views(final(out)@) == span_views(old(out)@) + span_views(v@),
{
    let ghost start = span_views(out@);
    let mut i: usize = 0;
    while i < v.len()
        invariant
            i <= v@.len(),
            span_views(out@) == start + span_views(v@).take(i as int),
        decreases v.len() - i,
    {
        let ghost before = out@;
        out.push((v[i].0.clone(), v[i].1));
        assert(span_views(out@) == span_views(before).push(span_views(v@)[i as int]));
        assert(span_views(v@).take(i + 1) == span_views(v@).take(i as int).push(
            span_views(v@)[i as int],
        ));
        i = i + 1;
    }
    assert(span_views(v@).take(i as int) == span_views(v@));
}

/// The spans of all rows, one after the other.
pub fn flatten_rows(rows: &Vec<Vec<(String, Color)>>) -> (r: Vec<(String, Color)>)
    ensures
        span_views(r@) == flat(row_views(rows@)),
{
    let mut out: Vec<(String, Color)> = Vec::new();
    let mut i: usize = 0;
    while i < rows.len()
        invariant
            i <= rows@.len(),
            span_views(out@) == flat(row_views(rows@).take(i as int)),
        decreases rows.len() - i,
    {
        append_spans(&mut out, &rows[i]);
        assert(row_views(rows@).take(i + 1).drop_last() == row_views(rows@).take(i as int));
        i = i + 1;
    }
    assert(row_views(rows@).take(i as int) == row_views(rows@));
    out
}

/// Whether two rows hold the same spans.
pub fn line_eq(a: &Vec<(String, Color)>, b: &Vec<(String, Color)>) -> (r: bool)
    ensures
        r == (span_views(a@) == span_views(b@)),
{
    if a.len() != b.len() {
        assert(span_views(a@).len() != span_views(b@).len());
        return false;
    }
    let mut i: usize = 0;
    while i < a.len()
        invariant
            i <= a@.len(),
            a@.len() == b@.len(),
            forall|j: int| 0 <= j < i ==> span_views(a@)[j] == span_views(b@)[j],
        decreases a.len() - i,
    {
        if a[i].0 != b[i].0 || a[i].1 != b[i].1 {
            assert(span_views(a@)[i as int] != span_views(b@)[i as int]);
            return false;
        }
        i = i + 1;
    }
    assert(span_views(a@) == span_views(b@));
    true
}

} // verus!
