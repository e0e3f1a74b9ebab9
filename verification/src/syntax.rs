//! Tree-sitter syntax highlighting: coloured spans of a document.
use vstd::prelude::*;

use tree_sitter_highlight::HighlightConfiguration;

use crate::text::char_from;
use crate::text::char_index_from;
use crate::text::chars_of;
use crate::text::lower_ascii;
use crate::text::lowered_ascii;
use crate::text::newline_from;
use crate::text::same;
use crate::text::text_of;
use crate::text::views;
use crate::theme::brushed;
use crate::theme::canvas;
use crate::theme::flat;
use crate::theme::lemma_canvas_push;
use crate::theme::row_views;
use crate::theme::span_views;
use crate::theme::Color;
use crate::theme::Painted;

verus! {

/// The languages that files are told apart by.
#[derive(Clone, Copy, PartialEq, Eq, Debug, Structural)]
pub enum Lang {
    Rust,
    Json,
    Markdown,
    TypeScript,
    Tsx,
    PlainText,
}

/// The language of a file extension written in lower case.
pub open spec fn lang_of(ext: Seq<char>) -> Lang {
    if ext == "rs"@ {
        Lang::Rust
    } else if ext == "json"@ || ext == "mcp"@ {
        Lang::Json
    } else if ext == "md"@ || ext == "markdown"@ {
        Lang::Markdown
    } else if ext == "ts"@ || ext == "mts"@ || ext == "cts"@ || ext == "js"@ || ext == "mjs"@ || ext
        == "cjs"@ {
        Lang::TypeScript
    } else if ext == "tsx"@ || ext == "jsx"@ {
        Lang::Tsx
    } else {
        Lang::PlainText
    }
}

impl Lang {
    /// The language of a file extension, in any case. The TypeScript grammar is a
    /// superset of JavaScript's, so plain scripts parse under it; the JSX-aware variant
    /// takes the others.
    pub fn from_ext(ext: &str) -> (r: Lang)
        ensures
            r == lang_of(lowered_ascii(ext@)),
    {
        let low = lower_ascii(ext);
        let e = low.as_str();
        if same(e, "rs") {
            Lang::Rust
        } else if same(e, "json") || same(e, "mcp") {
            Lang::Json
        } else if same(e, "md") || same(e, "markdown") {
            Lang::Markdown
        } else if same(e, "ts") || same(e, "mts") || same(e, "cts") || same(e, "js") || same(e, "mjs")
            || same(e, "cjs") {
            Lang::TypeScript
        } else if same(e, "tsx") || same(e, "jsx") {
            Lang::Tsx
        } else {
            Lang::PlainText
        }
    }
}

/// The capture names that are recognised. A highlight is an index into this list.
pub open spec fn capture_names() -> Seq<Seq<char>> {
    seq![
        "attribute"@,
        "comment"@,
        "constant"@,
        "constant.builtin"@,
        "constructor"@,
        "escape"@,
        "function"@,
        "function.builtin"@,
        "function.macro"@,
        "function.method"@,
        "keyword"@,
        "keyword.control"@,
        "label"@,
        "number"@,
        "operator"@,
        "property"@,
        "punctuation"@,
        "punctuation.bracket"@,
        "punctuation.delimiter"@,
        "string"@,
        "string.escape"@,
        "type"@,
        "type.builtin"@,
        "variable"@,
        "variable.builtin"@,
        "variable.parameter"@,
    ]
}

fn name_list() -> (r: Vec<String>)
    ensures
        views(r@) == capture_names(),
{
    let names: [&str; 26] = [
        "attribute",
        "comment",
        "constant",
        "constant.builtin",
        "constructor",
        "escape",
        "function",
        "function.builtin",
        "function.macro",
        "function.method",
        "keyword",
        "keyword.control",
        "label",
        "number",
        "operator",
        "property",
        "punctuation",
        "punctuation.bracket",
        "punctuation.delimiter",
        "string",
        "string.escape",
        "type",
        "type.builtin",
        "variable",
        "variable.builtin",
        "variable.parameter",
    ];
    let mut out: Vec<String> = Vec::new();
    let mut i: usize = 0;
    assert(forall|j: int| 0 <= j < 26 ==> names@[j]@ == capture_names()[j]);
    while i < 26
        invariant
            i <= 26,
            names@.len() == 26,
            forall|j: int| 0 <= j < 26 ==> names@[j]@ == capture_names()[j],
            views(out@) == capture_names().take(i as int),
        decreases 26 - i,
    {
        let ghost before = out@;
        out.push(names[i].to_owned());
        assert(views(out@) == views(before).push(capture_names()[i as int]));
        assert(capture_names().take(i + 1) == capture_names().take(i as int).push(
            capture_names()[i as int],
        ));
        i = i + 1;
    }
    assert(capture_names().take(26) == capture_names());
    out
}

/// The colour of a capture.
pub open spec fn capture_color(name: Seq<char>) -> Color {
    if name == "comment"@ {
        Color::Comment
    } else if name == "string"@ || name == "string.escape"@ || name == "escape"@ {
        Color::Str
    } else if name == "keyword.control"@ {
        Color::KeywordControl
    } else if name == "keyword"@ || name == "operator"@ {
        Color::Keyword
    } else if name == "function"@ || name == "function.builtin"@ || name == "function.macro"@ || name
        == "function.method"@ || name == "attribute"@ {
        Color::Function
    } else if name == "type"@ || name == "type.builtin"@ || name == "constructor"@ {
        Color::Type
    } else if name == "number"@ {
        Color::Number
    } else if name == "constant"@ || name == "constant.builtin"@ || name == "variable.builtin"@ {
        Color::Constant
    } else if name == "property"@ || name == "variable.parameter"@ {
        Color::Variable
    } else if name == "label"@ {
        Color::Label
    } else {
        Color::Text
    }
}

/// The colour of highlight `idx`; an index past the list is plain text.
pub open spec fn highlight_color(idx: int) -> Color {
    if 0 <= idx < capture_names().len() {
        capture_color(capture_names()[idx])
    } else {
        Color::Text
    }
}

fn color_for(names: &Vec<String>, idx: usize) -> (r: Color)
    requires
        views(names@) == capture_names(),
    ensures
        r == highlight_color(idx as int),
{
    assert(views(names@).len() == capture_names().len());
    if idx >= names.len() {
        return Color::Text;
    }
    assert(views(names@)[idx as int] == capture_names()[idx as int]);
    let n = names[idx].as_str();
    if same(n, "comment") {
        Color::Comment
    } else if same(n, "string") || same(n, "string.escape") || same(n, "escape") {
        Color::Str
    } else if same(n, "keyword.control") {
        Color::KeywordControl
    } else if same(n, "keyword") || same(n, "operator") {
        Color::Keyword
    } else if same(n, "function") || same(n, "function.builtin") || same(n, "function.macro") || same(
        n,
        "function.method",
    ) || same(n, "attribute") {
        Color::Function
    } else if same(n, "type") || same(n, "type.builtin") || same(n, "constructor") {
        Color::Type
    } else if same(n, "number") {
        Color::Number
    } else if same(n, "constant") || same(n, "constant.builtin") || same(n, "variable.builtin") {
        Color::Constant
    } else if same(n, "property") || same(n, "variable.parameter") {
        Color::Variable
    } else if same(n, "label") {
        Color::Label
    } else {
        Color::Text
    }
}

/// The grammar crates whose query texts are read.
#[derive(Clone, Copy, PartialEq, Eq, Debug, Structural)]
pub enum QuerySource {
    Rust,
    Json,
    JavaScript,
    TypeScript,
    TypeScriptLocals,
}

/// The text of `HIGHLIGHTS_QUERY` of tree-sitter-rust.
pub uninterp spec fn rust_highlights(source: QuerySource) -> Seq<char>;

/// Reads the constant `HIGHLIGHTS_QUERY` of tree-sitter-rust. Being a constant, its text never
/// differs.
#[verifier::external_body]
fn read_rust_highlights(source: QuerySource) -> (r: String)
    requires
        source == QuerySource::Rust,
    ensures
        r@ == rust_highlights(source),
{
    tree_sitter_rust::HIGHLIGHTS_QUERY.to_string()
}

/// The text of `HIGHLIGHTS_QUERY` of tree-sitter-json.
pub uninterp spec fn json_highlights(source: QuerySource) -> Seq<char>;

/// Reads the constant `HIGHLIGHTS_QUERY` of tree-sitter-json. Being a constant, its text never
/// differs.
#[verifier::external_body]
fn read_json_highlights(source: QuerySource) -> (r: String)
    requires
        source == QuerySource::Json,
    ensures
        r@ == json_highlights(source),
{
    tree_sitter_json::HIGHLIGHTS_QUERY.to_string()
}

/// The text of `HIGHLIGHT_QUERY` of tree-sitter-javascript.
pub uninterp spec fn javascript_highlights(source: QuerySource) -> Seq<char>;

/// Reads the constant `HIGHLIGHT_QUERY` of tree-sitter-javascript. Being a constant, its text never
/// differs.
#[verifier::external_body]
fn read_javascript_highlights(source: QuerySource) -> (r: String)
    requires
        source == QuerySource::JavaScript,
    ensures
        r@ == javascript_highlights(source),
{
    tree_sitter_javascript::HIGHLIGHT_QUERY.to_string()
}

/// The text of `HIGHLIGHTS_QUERY` of tree-sitter-typescript.
pub uninterp spec fn typescript_highlights(source: QuerySource) -> Seq<char>;

/// Reads the constant `HIGHLIGHTS_QUERY` of tree-sitter-typescript. Being a constant, its text never
/// differs.
#[verifier::external_body]
fn read_typescript_highlights(source: QuerySource) -> (r: String)
    requires
        source == QuerySource::TypeScript,
    ensures
        r@ == typescript_highlights(source),
{
    tree_sitter_typescript::HIGHLIGHTS_QUERY.to_string()
}

/// The text of `LOCALS_QUERY` of tree-sitter-typescript.
pub uninterp spec fn typescript_locals(source: QuerySource) -> Seq<char>;

/// Reads the constant `LOCALS_QUERY` of tree-sitter-typescript. Being a constant, its text never
/// differs.
#[verifier::external_body]
fn read_typescript_locals(source: QuerySource) -> (r: String)
    requires
        source == QuerySource::TypeScriptLocals,
    ensures
        r@ == typescript_locals(source),
{
    tree_sitter_typescript::LOCALS_QUERY.to_string()
}

/// The query text that a grammar crate publishes.
pub open spec fn published_query(source: QuerySource) -> Seq<char> {
    match source {
        QuerySource::Rust => rust_highlights(source),
        QuerySource::Json => json_highlights(source),
        QuerySource::JavaScript => javascript_highlights(source),
        QuerySource::TypeScript => typescript_highlights(source),
        QuerySource::TypeScriptLocals => typescript_locals(source),
    }
}

fn query_text(source: QuerySource) -> (r: String)
    ensures
        r@ == published_query(source),
{
    match source {
        QuerySource::Rust => read_rust_highlights(source),
        QuerySource::Json => read_json_highlights(source),
        QuerySource::JavaScript => read_javascript_highlights(source),
        QuerySource::TypeScript => read_typescript_highlights(source),
        QuerySource::TypeScriptLocals => read_typescript_locals(source),
    }
}

/// What a highlight configuration is made of.
#[verifier::ext_equal]
pub struct ConfigParts {
    pub parser: Lang,
    pub name: Seq<char>,
    pub highlights: Seq<char>,
    pub locals: Seq<char>,
    pub captures: Seq<Seq<char>>,
}

/// `tree_sitter_highlight::HighlightConfiguration`: a compiled grammar and its queries.
#[verifier::external_type_specification]
#[verifier::external_body]
pub struct ExHighlightConfiguration(HighlightConfiguration);

/// What a configuration was made of.
pub uninterp spec fn config_parts(c: HighlightConfiguration) -> ConfigParts;

/// Whether the queries compile against the parser.
pub uninterp spec fn config_builds(parts: ConfigParts) -> bool;

/// `HighlightConfiguration::new` on the parser's language, with no injections, then
/// `configure` with the capture names. It fails where a query does not compile, which
/// rests on the parser and the query texts alone.
#[verifier::external_body]
fn build_config(
    parser: Lang,
    name: &str,
    highlights: &str,
    locals: &str,
    captures: &Vec<String>,
) -> (r: Option<HighlightConfiguration>)
    requires
        parser == Lang::Rust || parser == Lang::Json || parser == Lang::TypeScript || parser
            == Lang::Tsx,
    ensures
        ({
            let parts = ConfigParts {
                parser,
                name: name@,
                highlights: highlights@,
                locals: locals@,
                captures: views(captures@),
            };
            match r {
                Some(c) => config_builds(parts) && config_parts(c) == parts,
                None => !config_builds(parts),
            }
        }),
{
    let language = match parser {
        Lang::Rust => tree_sitter_rust::LANGUAGE,
        Lang::Json => tree_sitter_json::LANGUAGE,
        Lang::TypeScript => tree_sitter_typescript::LANGUAGE_TYPESCRIPT,
        _ => tree_sitter_typescript::LANGUAGE_TSX,
    };
    let mut c = HighlightConfiguration::new(language.into(), name, highlights, "", locals).ok()?;
    c.configure(captures.as_slice());
    Some(c)
}

/// One step of a highlighted document. Offsets are byte offsets.
#[derive(Clone, Copy, PartialEq, Eq, Debug, Structural)]
pub enum HighlightStep {
    Start(usize),
    End,
    Source { start: usize, end: usize },
}

/// The steps that tree-sitter gives for a text, unless it fails on the way.
pub uninterp spec fn tree_steps(parts: ConfigParts, text: Seq<char>) -> Option<
    Seq<HighlightStep>,
>;

/// `Highlighter::highlight` on the text's UTF-8, without injections, run to its end. The
/// steps rest on what the configuration was made of and on the text; any error on the
/// way gives none.
#[verifier::external_body]
fn run_highlighter(config: &HighlightConfiguration, text: &str) -> (r: Option<Vec<HighlightStep>>)
    ensures
        match r {
            Some(v) => tree_steps(config_parts(*config), text@) == Some(v@),
            None => tree_steps(config_parts(*config), text@) is None,
        },
{
    let mut hl = tree_sitter_highlight::Highlighter::new();
    let events = hl.highlight(config, text.as_bytes(), None, None, |_| None).ok()?;
    let step = |e| match e {
        tree_sitter_highlight::HighlightEvent::HighlightStart(h) => HighlightStep::Start(h.0),
        tree_sitter_highlight::HighlightEvent::HighlightEnd => HighlightStep::End,
        tree_sitter_highlight::HighlightEvent::Source { start, end } => HighlightStep::Source { start, end },
    };
    events.map(|e| e.map(step)).collect::<Result<Vec<HighlightStep>, _>>().ok()
}

/// The TypeScript query is only what it adds; it is layered on the JavaScript one.
pub open spec fn ts_query() -> Seq<char> {
    published_query(QuerySource::JavaScript) + seq!['\n'] + published_query(QuerySource::TypeScript)
}

/// What the configuration of a language is made of; none where it has no grammar.
pub open spec fn parts_for(lang: Lang) -> Option<ConfigParts> {
    match lang {
        Lang::Rust => Some(
            ConfigParts {
                parser: lang,
                name: "rust"@,
                highlights: published_query(QuerySource::Rust),
                locals: ""@,
                captures: capture_names(),
            },
        ),
        Lang::Json => Some(
            ConfigParts {
                parser: lang,
                name: "json"@,
                highlights: published_query(QuerySource::Json),
                locals: ""@,
                captures: capture_names(),
            },
        ),
        Lang::TypeScript => Some(
            ConfigParts {
                parser: lang,
                name: "typescript"@,
                highlights: ts_query(),
                locals: published_query(QuerySource::TypeScriptLocals),
                captures: capture_names(),
            },
        ),
        Lang::Tsx => Some(
            ConfigParts {
                parser: lang,
                name: "tsx"@,
                highlights: ts_query(),
                locals: published_query(QuerySource::TypeScriptLocals),
                captures: capture_names(),
            },
        ),
        _ => None,
    }
}

/// The configuration of a language: none where it has no grammar, or where its queries
/// do not compile.
pub(crate) fn config_for(lang: Lang) -> (r: Option<HighlightConfiguration>)
    ensures
        match r {
            Some(c) => parts_for(lang) == Some(config_parts(c)) && config_builds(config_parts(c)),
            None => parts_for(lang) is None || !config_builds(parts_for(lang)->0),
        },
{
    let names = name_list();
    match lang {
        Lang::Rust => {
            let q = query_text(QuerySource::Rust);
            build_config(lang, "rust", q.as_str(), "", &names)
        },
        Lang::Json => {
            let q = query_text(QuerySource::Json);
            build_config(lang, "json", q.as_str(), "", &names)
        },
        Lang::TypeScript | Lang::Tsx => {
            let mut q = query_text(QuerySource::JavaScript);
            q.push('\n');
            let more = query_text(QuerySource::TypeScript);
            q.append(more.as_str());
            assert(q@ == ts_query());
            let locals = query_text(QuerySource::TypeScriptLocals);
            let name = if lang == Lang::Tsx { "tsx" } else { "typescript" };
            build_config(lang, name, q.as_str(), locals.as_str(), &names)
        },
        _ => None,
    }
}

/// The colour in force under a stack of open highlights.
pub open spec fn top_color(stack: Seq<usize>) -> Color {
    if stack.len() > 0 {
        highlight_color(stack.last() as int)
    } else {
        Color::Text
    }
}

fn color_at_top(names: &Vec<String>, stack: &Vec<usize>) -> (r: Color)
    requires
        views(names@) == capture_names(),
    ensures
        r == top_color(stack@),
{
    if stack.len() > 0 {
        color_for(names, stack[stack.len() - 1])
    } else {
        Color::Text
    }
}

/// The highlights open after the first `k` steps.
pub open spec fn open_after(steps: Seq<HighlightStep>, k: int) -> Seq<usize>
    decreases k,
{
    if k <= 0 {
        Seq::empty()
    } else {
        let st = open_after(steps, k - 1);
        match steps[k - 1] {
            HighlightStep::Start(i) => st.push(i),
            HighlightStep::End => if st.len() > 0 {
                st.drop_last()
            } else {
                st
            },
            HighlightStep::Source { .. } => st,
        }
    }
}

/// The characters between two byte offsets, as character indices; none where an offset
/// is no boundary between characters, or the range is empty.
pub open spec fn source_range(text: Seq<char>, start: int, end: int) -> Option<(int, int)> {
    let lo = char_from(text, 0, start);
    let hi = char_from(text, 0, end);
    if start < end && lo is Some && hi is Some {
        Some((lo->0, hi->0))
    } else {
        None
    }
}

/// The spans of the first `k` steps: one per stretch of source.
pub open spec fn spans_after(text: Seq<char>, steps: Seq<HighlightStep>, k: int) -> Seq<Painted>
    decreases k,
{
    if k <= 0 {
        Seq::empty()
    } else {
        let sp = spans_after(text, steps, k - 1);
        match steps[k - 1] {
            HighlightStep::Source { start, end } => match source_range(text, start as int, end as int) {
                Some((lo, hi)) => sp.push(
                    (text.subrange(lo, hi), top_color(open_after(steps, k - 1))),
                ),
                None => sp,
            },
            _ => sp,
        }
    }
}

/// Rows after `text[lo..hi]` is written in one colour: a newline ends its row.
pub open spec fn written(
    rows: Seq<Seq<Painted>>,
    text: Seq<char>,
    lo: int,
    hi: int,
    color: Color,
) -> Seq<Seq<Painted>>
    decreases hi - lo,
{
    let k = newline_from(text, lo);
    if lo >= hi {
        rows
    } else if lo <= k < hi {
        let row = rows.last().push((text.subrange(lo, k + 1), color));
        written(rows.drop_last().push(row).push(Seq::empty()), text, k + 1, hi, color)
    } else {
        rows.drop_last().push(rows.last().push((text.subrange(lo, hi), color)))
    }
}

/// The rows of the first `k` steps.
pub open spec fn rows_after(text: Seq<char>, steps: Seq<HighlightStep>, k: int) -> Seq<Seq<Painted>>
    decreases k,
{
    if k <= 0 {
        seq![Seq::empty()]
    } else {
        let rows = rows_after(text, steps, k - 1);
        match steps[k - 1] {
            HighlightStep::Source { start, end } => match source_range(text, start as int, end as int) {
                Some((lo, hi)) => written(rows, text, lo, hi, top_color(open_after(steps, k - 1))),
                None => rows,
            },
            _ => rows,
        }
    }
}

/// The rows of a document; the empty row that a trailing newline opens is left out.
pub open spec fn step_rows(text: Seq<char>, steps: Seq<HighlightStep>) -> Seq<Seq<Painted>> {
    let rows = rows_after(text, steps, steps.len() as int);
    if rows.len() > 1 && rows.last().len() == 0 {
        rows.drop_last()
    } else {
        rows
    }
}

fn push_span(rows: &mut Vec<Vec<(String, Color)>>, text: String, color: Color)
    requires
        old(rows)@.len() > 0,
    ensures
        row_views(final(rows)@) == row_views(old(rows)@).drop_last().push(
            row_views(old(rows)@).last().push((text@, color)),
        ),
        final(rows)@.len() == old(rows)@.len(),
{
    let ghost before = rows@;
    let mut row = match rows.pop() {
        Some(r) => r,
        None => Vec::new(),
    };
    let ghost last = row@;
    assert(last == before.last()@);
    row.push((text, color));
    assert(span_views(row@) == span_views(last).push((text@, color)));
    rows.push(row);
    assert(row_views(rows@) == row_views(before).drop_last().push(span_views(row@)));
}

fn write_rows(rows: &mut Vec<Vec<(String, Color)>>, v: &Vec<char>, lo: usize, hi: usize, color: Color)
    requires
        old(rows)@.len() > 0,
        lo <= hi <= v@.len(),
    ensures
        row_views(final(rows)@) == written(
            row_views(old(rows)@),
            v@,
            lo as int,
            hi as int,
            color,
        ),
        final(rows)@.len() > 0,
{
    let ghost want = written(row_views(rows@), v@, lo as int, hi as int, color);
    let mut at: usize = lo;
    while at < hi
        invariant
            lo <= at <= hi <= v@.len(),
            rows@.len() > 0,
            written(row_views(rows@), v@, at as int, hi as int, color) == want,
        decreases hi - at,
    {
        let mut k: usize = at;
        while k < hi && v[k] != '\n'
            invariant
                at <= k <= hi <= v@.len(),
                newline_from(v@, k as int) == newline_from(v@, at as int),
                forall|j: int| at <= j < k ==> v@[j] != '\n',
            decreases hi - k,
        {
            k = k + 1;
        }
        proof {
            lemma_newline_ge(v@, k as int);
        }
        if k < hi {
            let piece = text_of(v, at, k + 1);
            push_span(rows, piece, color);
            let ghost before = rows@;
            rows.push(Vec::new());
            assert(span_views(rows@.last()@) == Seq::<Painted>::empty());
            assert(row_views(rows@) == row_views(before).push(Seq::empty()));
            at = k + 1;
        } else {
            let piece = text_of(v, at, hi);
            push_span(rows, piece, color);
            at = hi;
        }
    }
}

proof fn lemma_newline_ge(t: Seq<char>, k: int)
    requires
        0 <= k <= t.len(),
    ensures
        k <= newline_from(t, k) <= t.len(),
    decreases t.len() - k,
{
    if k < t.len() && t[k] != '\n' {
        lemma_newline_ge(t, k + 1);
    }
}

/// The rows that highlighting steps write: the text of each row, its newline included.
pub fn rows_of_steps(text: &str, steps: &Vec<HighlightStep>) -> (r: Vec<Vec<(String, Color)>>)
    ensures
        row_views(r@) == step_rows(text@, steps@),
{
    let names = name_list();
    let v = chars_of(text);
    let mut rows: Vec<Vec<(String, Color)>> = Vec::new();
    rows.push(Vec::new());
    assert(span_views(rows@[0]@) == Seq::<Painted>::empty());
    assert(row_views(rows@) == rows_after(v@, steps@, 0));
    let mut stack: Vec<usize> = Vec::new();
    let mut i: usize = 0;
    let mut b: usize = 0;
    let mut k: usize = 0;
    while k < steps.len()
        invariant
            k <= steps@.len(),
            views(names@) == capture_names(),
            stack@ == open_after(steps@, k as int),
            rows@.len() > 0,
            row_views(rows@) == rows_after(v@, steps@, k as int),
            i <= v@.len(),
            char_from(v@, 0, b as int) == Some(i as int),
        decreases steps.len() - k,
    {
        match steps[k] {
            HighlightStep::Start(h) => {
                stack.push(h);
            },
            HighlightStep::End => {
                let _ = stack.pop();
            },
            HighlightStep::Source { start, end } => {
                if start < end {
                    if let Some(lo) = char_index_from(&v, i, b, start) {
                        i = lo;
                        b = start;
                        if let Some(hi) = char_index_from(&v, lo, start, end) {
                            let color = color_at_top(&names, &stack);
                            proof {
                                crate::text::law_char_index_monotone(v@, start as int, end as int);
                            }
                            write_rows(&mut rows, &v, lo, hi, color);
                            i = hi;
                            b = end;
                        }
                    }
                }
            },
        }
        k = k + 1;
    }
    let n: usize = rows.len();
    let ghost full = row_views(rows@);
    if n > 1 && rows[n - 1].len() == 0 {
        let _ = rows.pop();
        assert(row_views(rows@) == full.drop_last());
    }
    rows
}

/// The spans that highlighting steps write, one per stretch of source.
pub fn spans_of_steps(text: &str, steps: &Vec<HighlightStep>) -> (r: Vec<(String, Color)>)
    ensures
        span_views(r@) == spans_after(text@, steps@, steps@.len() as int),
{
    let names = name_list();
    let v = chars_of(text);
    let mut spans: Vec<(String, Color)> = Vec::new();
    let mut stack: Vec<usize> = Vec::new();
    let mut i: usize = 0;
    let mut b: usize = 0;
    let mut k: usize = 0;
    while k < steps.len()
        invariant
            k <= steps@.len(),
            views(names@) == capture_names(),
            stack@ == open_after(steps@, k as int),
            span_views(spans@) == spans_after(v@, steps@, k as int),
            i <= v@.len(),
            char_from(v@, 0, b as int) == Some(i as int),
        decreases steps.len() - k,
    {
        match steps[k] {
            HighlightStep::Start(h) => {
                stack.push(h);
            },
            HighlightStep::End => {
                let _ = stack.pop();
            },
            HighlightStep::Source { start, end } => {
                if start < end {
                    if let Some(lo) = char_index_from(&v, i, b, start) {
                        i = lo;
                        b = start;
                        if let Some(hi) = char_index_from(&v, lo, start, end) {
                            let color = color_at_top(&names, &stack);
                            proof {
                                crate::text::law_char_index_monotone(v@, start as int, end as int);
                            }
                            let piece = text_of(&v, lo, hi);
                            let ghost before = spans@;
                            spans.push((piece, color));
                            assert(span_views(spans@) == span_views(before).push((piece@, color)));
                            i = hi;
                            b = end;
                        }
                    }
                }
            },
        }
        k = k + 1;
    }
    spans
}

/// The steps of a text in a language: none without a grammar, or where highlighting
/// fails.
pub open spec fn lang_steps(lang: Lang, text: Seq<char>) -> Option<Seq<HighlightStep>> {
    match parts_for(lang) {
        Some(parts) => if config_builds(parts) {
            tree_steps(parts, text)
        } else {
            None
        },
        None => None,
    }
}

/// Highlights `text` into rows of coloured spans. None for languages without a
/// grammar, and where highlighting fails.
pub fn highlight_lines(lang: Lang, text: &str) -> (r: Option<Vec<Vec<(String, Color)>>>)
    ensures
        match r {
            Some(rows) => lang_steps(lang, text@) is Some && row_views(rows@) == step_rows(
                text@,
                lang_steps(lang, text@)->0,
            ),
            None => lang_steps(lang, text@) is None,
        },
{
    match config_for(lang) {
        Some(c) => highlight_with(&c, text),
        None => None,
    }
}

/// Highlights `text` into rows with a configuration at hand.
pub(crate) fn highlight_with(config: &HighlightConfiguration, text: &str) -> (r: Option<
    Vec<Vec<(String, Color)>>,
>)
    ensures
        match r {
            Some(rows) => tree_steps(config_parts(*config), text@) is Some && row_views(rows@)
                == step_rows(text@, tree_steps(config_parts(*config), text@)->0),
            None => tree_steps(config_parts(*config), text@) is None,
        },
{
    match run_highlighter(config, text) {
        Some(steps) => Some(rows_of_steps(text, &steps)),
        None => None,
    }
}

/// Highlights `text` into spans, one per stretch of source. None for languages without
/// a grammar, and where highlighting fails.
pub fn highlight_spans(lang: Lang, text: &str) -> (r: Option<Vec<(String, Color)>>)
    ensures
        match r {
            Some(spans) => lang_steps(lang, text@) is Some && span_views(spans@) == spans_after(
                text@,
                lang_steps(lang, text@)->0,
                lang_steps(lang, text@)->0.len() as int,
            ),
            None => lang_steps(lang, text@) is None,
        },
{
    match config_for(lang) {
        Some(c) => match run_highlighter(&c, text) {
            Some(steps) => Some(spans_of_steps(text, &steps)),
            None => None,
        },
        None => None,
    }
}

proof fn lemma_flat_last(rows: Seq<Seq<Painted>>, p: Painted)
    requires
        rows.len() > 0,
    ensures
        flat(rows.drop_last().push(rows.last().push(p))) == flat(rows).push(p),
{
    let more = rows.drop_last().push(rows.last().push(p));
    assert(more.drop_last() == rows.drop_last());
    assert(flat(rows.drop_last()) + rows.last().push(p) == (flat(rows.drop_last()) + rows.last()).push(
        p,
    ));
}

proof fn lemma_written(rows: Seq<Seq<Painted>>, text: Seq<char>, lo: int, hi: int, color: Color)
    requires
        rows.len() > 0,
        0 <= lo <= hi <= text.len(),
    ensures
        written(rows, text, lo, hi, color).len() > 0,
        canvas(flat(written(rows, text, lo, hi, color))) == canvas(flat(rows)) + brushed(
            (text.subrange(lo, hi), color),
        ),
    decreases hi - lo,
{
    let k = newline_from(text, lo);
    if lo >= hi {
        assert(canvas(flat(rows)) + brushed((text.subrange(lo, hi), color)) == canvas(flat(rows)));
    } else if lo <= k < hi {
        let p = (text.subrange(lo, k + 1), color);
        let one = rows.drop_last().push(rows.last().push(p));
        let two = one.push(Seq::empty());
        lemma_flat_last(rows, p);
        lemma_canvas_push(flat(rows), p);
        assert(two.drop_last() == one);
        assert(flat(one) + Seq::<Painted>::empty() == flat(one));
        lemma_written(two, text, k + 1, hi, color);
        assert(canvas(flat(rows)) + brushed(p) + brushed((text.subrange(k + 1, hi), color)) == canvas(
            flat(rows),
        ) + brushed((text.subrange(lo, hi), color)));
    } else {
        let p = (text.subrange(lo, hi), color);
        lemma_flat_last(rows, p);
        lemma_canvas_push(flat(rows), p);
    }
}

proof fn lemma_char_index_bound(text: Seq<char>, i: int, off: int)
    requires
        0 <= i <= text.len(),
    ensures
        char_from(text, i, off) matches Some(k) ==> i <= k <= text.len(),
    decreases text.len() - i,
{
    if off != 0 && i < text.len() && utf8_ok(text, i, off) {
        lemma_char_index_bound(text, i + 1, off - crate::text::utf8_width(text[i]));
    }
}

spec fn utf8_ok(text: Seq<char>, i: int, off: int) -> bool {
    crate::text::utf8_width(text[i]) <= off
}

proof fn lemma_rows_and_spans(text: Seq<char>, steps: Seq<HighlightStep>, k: int)
    requires
        0 <= k <= steps.len(),
    ensures
        rows_after(text, steps, k).len() > 0,
        canvas(flat(rows_after(text, steps, k))) == canvas(spans_after(text, steps, k)),
    decreases k,
{
    if k == 0 {
        assert(seq![Seq::<Painted>::empty()].drop_last() == Seq::<Seq<Painted>>::empty());
        assert(flat(Seq::<Seq<Painted>>::empty()) == Seq::<Painted>::empty());
        assert(flat(seq![Seq::<Painted>::empty()]) == Seq::<Painted>::empty());
    } else {
        lemma_rows_and_spans(text, steps, k - 1);
        if let HighlightStep::Source { start, end } = steps[k - 1] {
            if let Some((lo, hi)) = source_range(text, start as int, end as int) {
                let color = top_color(open_after(steps, k - 1));
                crate::text::law_char_index_monotone(text, start as int, end as int);
                lemma_char_index_bound(text, 0, end as int);
                lemma_written(rows_after(text, steps, k - 1), text, lo, hi, color);
                lemma_canvas_push(spans_after(text, steps, k - 1), (text.subrange(lo, hi), color));
            }
        }
    }
}

/// The rows and the spans of a document paint the same characters in the same colours.
pub proof fn law_rows_and_spans_agree(text: Seq<char>, steps: Seq<HighlightStep>)
    ensures
        canvas(flat(step_rows(text, steps))) == canvas(
            spans_after(text, steps, steps.len() as int),
        ),
{
    lemma_rows_and_spans(text, steps, steps.len() as int);
    let rows = rows_after(text, steps, steps.len() as int);
    if rows.len() > 1 && rows.last().len() == 0 {
        assert(flat(rows) == flat(rows.drop_last()) + rows.last());
        assert(flat(rows.drop_last()) + rows.last() == flat(rows.drop_last()));
    }
}

/// A language is told by the ending of the file.
pub proof fn law_endings_tell_the_language()
    ensures
        lang_of("rs"@) == Lang::Rust,
        lang_of("json"@) == Lang::Json,
        lang_of("mcp"@) == Lang::Json,
        lang_of("md"@) == Lang::Markdown,
        lang_of("markdown"@) == Lang::Markdown,
        lang_of("ts"@) == Lang::TypeScript,
        lang_of("mts"@) == Lang::TypeScript,
        lang_of("cts"@) == Lang::TypeScript,
        lang_of("js"@) == Lang::TypeScript,
        lang_of("mjs"@) == Lang::TypeScript,
        lang_of("cjs"@) == Lang::TypeScript,
        lang_of("tsx"@) == Lang::Tsx,
        lang_of("jsx"@) == Lang::Tsx,
        lang_of(""@) == Lang::PlainText,
{
    reveal_strlit("rs");
    reveal_strlit("json");
    reveal_strlit("mcp");
    reveal_strlit("md");
    reveal_strlit("markdown");
    reveal_strlit("ts");
    reveal_strlit("mts");
    reveal_strlit("cts");
    reveal_strlit("js");
    reveal_strlit("mjs");
    reveal_strlit("cjs");
    reveal_strlit("tsx");
    reveal_strlit("jsx");
    reveal_strlit("");
    assert("rs"@.len() == 2);
    assert("json"@.len() == 4);
    assert("mcp"@.len() == 3);
    assert("md"@.len() == 2);
    assert("markdown"@.len() == 8);
    assert("ts"@.len() == 2);
    assert("mts"@.len() == 3);
    assert("cts"@.len() == 3);
    assert("js"@.len() == 2);
    assert("mjs"@.len() == 3);
    assert("cjs"@.len() == 3);
    assert("tsx"@.len() == 3);
    assert("jsx"@.len() == 3);
    assert("rs"@[0] == 'r' && "md"@[0] == 'm');
    assert("rs"@[0] == 'r' && "ts"@[0] == 't');
    assert("rs"@[0] == 'r' && "js"@[0] == 'j');
    assert("mcp"@[1] == 'c' && "mts"@[1] == 't');
    assert("mcp"@[0] == 'm' && "cts"@[0] == 'c');
    assert("mcp"@[1] == 'c' && "mjs"@[1] == 'j');
    assert("mcp"@[0] == 'm' && "cjs"@[0] == 'c');
    assert("mcp"@[0] == 'm' && "tsx"@[0] == 't');
    assert("mcp"@[0] == 'm' && "jsx"@[0] == 'j');
    assert("md"@[0] == 'm' && "ts"@[0] == 't');
    assert("md"@[0] == 'm' && "js"@[0] == 'j');
    assert("ts"@[0] == 't' && "js"@[0] == 'j');
    assert("mts"@[0] == 'm' && "cts"@[0] == 'c');
    assert("mts"@[1] == 't' && "mjs"@[1] == 'j');
    assert("mts"@[0] == 'm' && "cjs"@[0] == 'c');
    assert("mts"@[0] == 'm' && "tsx"@[0] == 't');
    assert("mts"@[0] == 'm' && "jsx"@[0] == 'j');
    assert("cts"@[0] == 'c' && "mjs"@[0] == 'm');
    assert("cts"@[1] == 't' && "cjs"@[1] == 'j');
    assert("cts"@[0] == 'c' && "tsx"@[0] == 't');
    assert("cts"@[0] == 'c' && "jsx"@[0] == 'j');
    assert("mjs"@[0] == 'm' && "cjs"@[0] == 'c');
    assert("mjs"@[0] == 'm' && "tsx"@[0] == 't');
    assert("mjs"@[0] == 'm' && "jsx"@[0] == 'j');
    assert("cjs"@[0] == 'c' && "tsx"@[0] == 't');
    assert("cjs"@[0] == 'c' && "jsx"@[0] == 'j');
    assert("tsx"@[0] == 't' && "jsx"@[0] == 'j');
}

/// Each kind of text that a grammar captures has its colour.
pub proof fn law_captures_have_their_colours()
    ensures
        capture_color("comment"@) == Color::Comment,
        capture_color("string"@) == Color::Str,
        capture_color("string.escape"@) == Color::Str,
        capture_color("escape"@) == Color::Str,
        capture_color("keyword.control"@) == Color::KeywordControl,
        capture_color("keyword"@) == Color::Keyword,
        capture_color("operator"@) == Color::Keyword,
        capture_color("function"@) == Color::Function,
        capture_color("function.builtin"@) == Color::Function,
        capture_color("function.macro"@) == Color::Function,
        capture_color("function.method"@) == Color::Function,
        capture_color("attribute"@) == Color::Function,
        capture_color("type"@) == Color::Type,
        capture_color("type.builtin"@) == Color::Type,
        capture_color("constructor"@) == Color::Type,
        capture_color("number"@) == Color::Number,
        capture_color("constant"@) == Color::Constant,
        capture_color("constant.builtin"@) == Color::Constant,
        capture_color("variable.builtin"@) == Color::Constant,
        capture_color("property"@) == Color::Variable,
        capture_color("variable.parameter"@) == Color::Variable,
        capture_color("label"@) == Color::Label,
        capture_color("punctuation"@) == Color::Text,
        capture_color("variable"@) == Color::Text,
{
    reveal_strlit("comment");
    reveal_strlit("string");
    reveal_strlit("string.escape");
    reveal_strlit("escape");
    reveal_strlit("keyword.control");
    reveal_strlit("keyword");
    reveal_strlit("operator");
    reveal_strlit("function");
    reveal_strlit("function.builtin");
    reveal_strlit("function.macro");
    reveal_strlit("function.method");
    reveal_strlit("attribute");
    reveal_strlit("type");
    reveal_strlit("type.builtin");
    reveal_strlit("constructor");
    reveal_strlit("number");
    reveal_strlit("constant");
    reveal_strlit("constant.builtin");
    reveal_strlit("variable.builtin");
    reveal_strlit("property");
    reveal_strlit("variable.parameter");
    reveal_strlit("label");
    reveal_strlit("punctuation");
    reveal_strlit("variable");
    assert("comment"@.len() == 7);
    assert("string"@.len() == 6);
    assert("string.escape"@.len() == 13);
    assert("escape"@.len() == 6);
    assert("keyword.control"@.len() == 15);
    assert("keyword"@.len() == 7);
    assert("operator"@.len() == 8);
    assert("function"@.len() == 8);
    assert("function.builtin"@.len() == 16);
    assert("function.macro"@.len() == 14);
    assert("function.method"@.len() == 15);
    assert("attribute"@.len() == 9);
    assert("type"@.len() == 4);
    assert("type.builtin"@.len() == 12);
    assert("constructor"@.len() == 11);
    assert("number"@.len() == 6);
    assert("constant"@.len() == 8);
    assert("constant.builtin"@.len() == 16);
    assert("variable.builtin"@.len() == 16);
    assert("property"@.len() == 8);
    assert("variable.parameter"@.len() == 18);
    assert("label"@.len() == 5);
    assert("punctuation"@.len() == 11);
    assert("variable"@.len() == 8);
    assert("comment"@[0] == 'c' && "keyword"@[0] == 'k');
    assert("string"@[0] == 's' && "escape"@[0] == 'e');
    assert("string"@[0] == 's' && "number"@[0] == 'n');
    assert("escape"@[0] == 'e' && "number"@[0] == 'n');
    assert("keyword.control"@[0] == 'k' && "function.method"@[0] == 'f');
    assert("operator"@[0] == 'o' && "function"@[0] == 'f');
    assert("operator"@[0] == 'o' && "constant"@[0] == 'c');
    assert("operator"@[0] == 'o' && "property"@[0] == 'p');
    assert("operator"@[0] == 'o' && "variable"@[0] == 'v');
    assert("function"@[0] == 'f' && "constant"@[0] == 'c');
    assert("function"@[0] == 'f' && "property"@[0] == 'p');
    assert("function"@[0] == 'f' && "variable"@[0] == 'v');
    assert("function.builtin"@[0] == 'f' && "constant.builtin"@[0] == 'c');
    assert("function.builtin"@[0] == 'f' && "variable.builtin"@[0] == 'v');
    assert("constructor"@[0] == 'c' && "punctuation"@[0] == 'p');
    assert("constant"@[0] == 'c' && "property"@[0] == 'p');
    assert("constant"@[0] == 'c' && "variable"@[0] == 'v');
    assert("constant.builtin"@[0] == 'c' && "variable.builtin"@[0] == 'v');
    assert("property"@[0] == 'p' && "variable"@[0] == 'v');
}

/// A stretch of the source is painted by the innermost capture around it, as it is; one outside
/// all captures is plain.
pub proof fn law_innermost_capture_paints(
    text: Seq<char>,
    steps: Seq<HighlightStep>,
    i: usize,
    start: usize,
    end: usize,
    lo: int,
    hi: int,
)
    requires
        start < end,
        char_from(text, 0, start as int) == Some(lo),
        char_from(text, 0, end as int) == Some(hi),
    ensures
        ({
            let inner = steps.push(HighlightStep::Start(i));
            let all = inner.push(HighlightStep::Source { start, end });
            spans_after(text, all, all.len() as int) == spans_after(
                text,
                steps,
                steps.len() as int,
            ).push((text.subrange(lo, hi), highlight_color(i as int)))
        }),
        ({
            let around = steps.push(HighlightStep::Start(i)).push(HighlightStep::End);
            open_after(around, around.len() as int) == open_after(steps, steps.len() as int)
        }),
        spans_after(text, seq![HighlightStep::Source { start, end }], 1) == seq![
            (text.subrange(lo, hi), Color::Text),
        ],
{
    let n = steps.len() as int;
    let inner = steps.push(HighlightStep::Start(i));
    let all = inner.push(HighlightStep::Source { start, end });
    lemma_steps_front(text, steps, all, n);
    assert(all[n] == HighlightStep::Start(i));
    assert(all[n + 1] == (HighlightStep::Source { start, end }));
    assert(spans_after(text, all, n + 1) == spans_after(text, all, n));
    assert(open_after(all, n + 1) == open_after(all, n).push(i));
    assert(top_color(open_after(all, n + 1)) == highlight_color(i as int));
    let around = inner.push(HighlightStep::End);
    lemma_steps_front(text, steps, around, n);
    assert(around[n] == HighlightStep::Start(i));
    assert(around[n + 1] == HighlightStep::End);
    assert(open_after(around, n + 1) == open_after(around, n).push(i));
    assert(open_after(around, n + 2) =~= open_after(around, n));
    let one = seq![HighlightStep::Source { start, end }];
    assert(spans_after(text, one, 0) =~= Seq::<Painted>::empty());
    assert(open_after(one, 0) =~= Seq::<usize>::empty());
    assert(spans_after(text, one, 1) =~= seq![(text.subrange(lo, hi), Color::Text)]);
}

proof fn lemma_steps_front(
    text: Seq<char>,
    a: Seq<HighlightStep>,
    b: Seq<HighlightStep>,
    k: int,
)
    requires
        0 <= k <= a.len(),
        a.len() <= b.len(),
        forall|i: int| 0 <= i < a.len() ==> a[i] == b[i],
    ensures
        spans_after(text, b, k) == spans_after(text, a, k),
        open_after(b, k) == open_after(a, k),
    decreases k,
{
    if k > 0 {
        lemma_steps_front(text, a, b, k - 1);
    }
}

/// Whether rows end at line breaks: every span but the last of a row is without one, and that of
/// every row but the last row ends with one.
pub open spec fn ends_at_breaks(rows: Seq<Seq<Painted>>) -> bool {
    &&& forall|r: int, s: int|
        0 <= r < rows.len() && 0 <= s < rows[r].len() - 1 ==> !(
        #[trigger] rows[r][s].0).contains('\n')
    &&& forall|r: int|
        0 <= r < rows.len() - 1 ==> (#[trigger] rows[r]).len() > 0 && rows[r].last().0.len() > 0
            && rows[r].last().0.last() == '\n' && !rows[r].last().0.drop_last().contains('\n')
    &&& rows.len() > 0 && rows.last().len() > 0 ==> !rows.last().last().0.contains('\n')
}

proof fn lemma_newline(t: Seq<char>, k: int)
    requires
        0 <= k <= t.len(),
    ensures
        k <= newline_from(t, k) <= t.len(),
        forall|j: int| k <= j < newline_from(t, k) ==> t[j] != '\n',
        newline_from(t, k) < t.len() ==> t[newline_from(t, k)] == '\n',
    decreases t.len() - k,
{
    if k < t.len() && t[k] != '\n' {
        lemma_newline(t, k + 1);
    }
}

proof fn lemma_row_written(rows: Seq<Seq<Painted>>, p: Painted)
    requires
        rows.len() > 0,
        ends_at_breaks(rows),
        !p.0.contains('\n'),
    ensures
        ends_at_breaks(rows.drop_last().push(rows.last().push(p))),
{
    let new = rows.drop_last().push(rows.last().push(p));
    assert forall|r: int, s: int| 0 <= r < new.len() && 0 <= s < new[r].len() - 1 implies !(
    #[trigger] new[r][s].0).contains('\n') by {
        if r < rows.len() - 1 {
            assert(new[r] == rows[r]);
            assert(new[r][s] == rows[r][s]);
        } else {
            assert(new[r][s] == rows[r][s]);
            if s == rows[r].len() - 1 {
                assert(rows.last().last() == rows[r][s]);
            }
        }
    }
    assert forall|r: int| 0 <= r < new.len() - 1 implies (#[trigger] new[r]).len() > 0
        && new[r].last().0.len() > 0 && new[r].last().0.last() == '\n' && !new[r].last().0.drop_last().contains(
        '\n',
    ) by {
        assert(new[r] == rows[r]);
    }
}

proof fn lemma_row_ended(rows: Seq<Seq<Painted>>, p: Painted)
    requires
        rows.len() > 0,
        ends_at_breaks(rows),
        p.0.len() > 0,
        p.0.last() == '\n',
        !p.0.drop_last().contains('\n'),
    ensures
        ends_at_breaks(rows.drop_last().push(rows.last().push(p)).push(Seq::empty())),
{
    let new = rows.drop_last().push(rows.last().push(p)).push(Seq::empty());
    assert forall|r: int, s: int| 0 <= r < new.len() && 0 <= s < new[r].len() - 1 implies !(
    #[trigger] new[r][s].0).contains('\n') by {
        assert(r < rows.len());
        assert(new[r][s] == rows[r][s]);
        if r == rows.len() - 1 && s == rows[r].len() - 1 {
            assert(rows.last().last() == rows[r][s]);
        }
    }
    assert forall|r: int| 0 <= r < new.len() - 1 implies (#[trigger] new[r]).len() > 0
        && new[r].last().0.len() > 0 && new[r].last().0.last() == '\n' && !new[r].last().0.drop_last().contains(
        '\n',
    ) by {
        if r < rows.len() - 1 {
            assert(new[r] == rows[r]);
        } else {
            assert(new[r].last() == p);
        }
    }
}

proof fn lemma_written_breaks(rows: Seq<Seq<Painted>>, text: Seq<char>, lo: int, hi: int, color: Color)
    requires
        rows.len() > 0,
        0 <= lo,
        hi <= text.len(),
        ends_at_breaks(rows),
    ensures
        written(rows, text, lo, hi, color).len() > 0,
        ends_at_breaks(written(rows, text, lo, hi, color)),
    decreases hi - lo,
{
    if lo < hi {
        lemma_newline(text, lo);
        let k = newline_from(text, lo);
        if k < hi {
            let p = (text.subrange(lo, k + 1), color);
            assert(p.0.last() == text[k]);
            assert forall|j: int| 0 <= j < p.0.len() - 1 implies p.0.drop_last()[j] != '\n' by {
                assert(p.0[j] == text[lo + j]);
            }
            lemma_row_ended(rows, p);
            lemma_written_breaks(
                rows.drop_last().push(rows.last().push(p)).push(Seq::empty()),
                text,
                k + 1,
                hi,
                color,
            );
        } else {
            let p = (text.subrange(lo, hi), color);
            assert forall|j: int| 0 <= j < p.0.len() implies p.0[j] != '\n' by {
                assert(p.0[j] == text[lo + j]);
            }
            lemma_row_written(rows, p);
        }
    }
}

/// The rows of a painted text end at its line breaks and nowhere else.
pub proof fn law_rows_end_at_line_breaks(text: Seq<char>, steps: Seq<HighlightStep>, k: int)
    requires
        0 <= k <= steps.len(),
    ensures
        rows_after(text, steps, k).len() > 0,
        ends_at_breaks(rows_after(text, steps, k)),
    decreases k,
{
    if k > 0 {
        law_rows_end_at_line_breaks(text, steps, k - 1);
        if let HighlightStep::Source { start, end } = steps[k - 1] {
            if let Some((lo, hi)) = source_range(text, start as int, end as int) {
                crate::text::law_offsets_count_bytes(text, start as int);
                crate::text::law_offsets_count_bytes(text, end as int);
                lemma_written_breaks(
                    rows_after(text, steps, k - 1),
                    text,
                    lo,
                    hi,
                    top_color(open_after(steps, k - 1)),
                );
            }
        }
    }
}

} // verus!
