//! Syntax highlighting by TextMate-family grammars, line by line.
//!
//! Tokenizing carries a state from line to line. `LineCache` keeps the state at the
//! start of each line, so that an edit only re-tokenizes from the changed line until the
//! carried state meets the cached one again.
use vstd::prelude::*;

use syntect::parsing::ParseState;
use syntect::parsing::ScopeStack;
use syntect::parsing::ScopeStackOp;
use syntect::parsing::SyntaxSet;
use tree_sitter_highlight::HighlightConfiguration;

use crate::syntax::config_builds;
use crate::syntax::config_for;
use crate::syntax::config_parts;
use crate::syntax::highlight_with;
use crate::syntax::lang_of;
use crate::syntax::lang_steps;
use crate::syntax::parts_for;
use crate::syntax::step_rows;
use crate::syntax::Lang;
use crate::text::begins;
use crate::text::char_from;
use crate::text::char_index_from;
use crate::text::chars_of;
use crate::text::holds;
use crate::text::holds_in;
use crate::text::lines_of;
use crate::text::lowered_ascii;
use crate::text::prefix_at;
use crate::text::same;
use crate::text::split_lines;
use crate::text::starts_with;
use crate::text::text_of;
use crate::text::views;
use crate::theme::brushed;
use crate::theme::canvas;
use crate::theme::flat;
use crate::theme::flatten_rows;
use crate::theme::lemma_canvas_concat;
use crate::theme::lemma_canvas_push;
use crate::theme::line_eq;
use crate::theme::row_views;
use crate::theme::span_views;
use crate::theme::Color;
use crate::theme::Painted;

verus! {

/// `syntect::parsing::SyntaxSet`: a set of grammars.
#[verifier::external_type_specification]
#[verifier::external_body]
pub struct ExSyntaxSet(SyntaxSet);

/// `syntect::parsing::ParseState`: where a grammar stands between two lines. States that
/// compare equal are one value here; the converse holds of states without a capture alone.
#[verifier::external_type_specification]
#[verifier::external_body]
pub struct ExParseState(ParseState);

/// `syntect::parsing::ScopeStack`: the scopes open at a place. Its `Eq` is derived, so
/// values that compare equal are one value here.
#[verifier::external_type_specification]
#[verifier::external_body]
pub struct ExScopeStack(ScopeStack);

/// `syntect::parsing::ScopeStackOp`: one change of a scope stack.
#[verifier::external_type_specification]
#[verifier::external_body]
pub struct ExScopeStackOp(ScopeStackOp);

/// Whether a set is the one that `load_defaults_newlines` gives.
pub uninterp spec fn is_bundled(set: SyntaxSet) -> bool;

/// Whether a state was made from a grammar of the bundled set.
pub uninterp spec fn is_bundled_state(state: ParseState) -> bool;

/// The starting state of the bundled grammar for a file extension.
pub uninterp spec fn state_by_extension(ext: Seq<char>) -> Option<ParseState>;

/// The starting state of the bundled grammar for a token: an extension or a name.
pub uninterp spec fn state_by_token(token: Seq<char>) -> Option<ParseState>;

/// The scope changes on a line that starts in a state, each with its byte offset; none
/// where parsing fails.
pub uninterp spec fn line_ops(state: ParseState, line: Seq<char>) -> Option<
    Seq<(usize, ScopeStackOp)>,
>;

/// The state behind a line that starts in a state.
pub uninterp spec fn line_next(state: ParseState, line: Seq<char>) -> ParseState;

/// A scope stack after one change.
pub uninterp spec fn stack_after(stack: ScopeStack, op: ScopeStackOp) -> ScopeStack;

/// The scopes of a stack, outermost first, each as its dotted name.
pub uninterp spec fn stack_scopes(stack: ScopeStack) -> Seq<Seq<char>>;

/// The stack that a whitespace-separated list of scopes describes.
pub uninterp spec fn stack_of_text(text: Seq<char>) -> Option<ScopeStack>;

/// `SyntaxSet::load_defaults_newlines`: the grammars that syntect bundles, for lines
/// that keep their newline.
#[verifier::external_body]
fn load_grammars() -> (r: SyntaxSet)
    ensures
        is_bundled(r),
{
    SyntaxSet::load_defaults_newlines()
}

/// `SyntaxSet::find_syntax_by_extension`, then `ParseState::new`. On the bundled set the
/// result rests on the extension alone.
#[verifier::external_body]
fn find_by_extension(set: &SyntaxSet, ext: &str) -> (r: Option<ParseState>)
    requires
        is_bundled(*set),
    ensures
        r == state_by_extension(ext@),
        r matches Some(s) ==> is_bundled_state(s),
{
    set.find_syntax_by_extension(ext).map(ParseState::new)
}

/// `SyntaxSet::find_syntax_by_token`, then `ParseState::new`. On the bundled set the
/// result rests on the token alone.
#[verifier::external_body]
fn find_by_token(set: &SyntaxSet, token: &str) -> (r: Option<ParseState>)
    requires
        is_bundled(*set),
    ensures
        r == state_by_token(token@),
        r matches Some(s) ==> is_bundled_state(s),
{
    set.find_syntax_by_token(token).map(ParseState::new)
}

/// `ParseState::parse_line` with the bundled set, on a state that was made from it. What
/// comes back, and the state left behind, rest on the state and the line.
#[verifier::external_body]
fn parse_line(state: &mut ParseState, line: &str, set: &SyntaxSet) -> (r: Option<
    Vec<(usize, ScopeStackOp)>,
>)
    requires
        is_bundled(*set),
        is_bundled_state(*old(state)),
    ensures
        match r {
            Some(v) => line_ops(*old(state), line@) == Some(v@),
            None => line_ops(*old(state), line@) is None,
        },
        *final(state) == line_next(*old(state), line@),
        is_bundled_state(*final(state)),
{
    state.parse_line(line, set).ok()
}

/// `ScopeStack::apply`; a change that cannot be made is passed over, as far as it was
/// not made. The stack left behind rests on the stack and the change.
#[verifier::external_body]
fn apply_op(stack: &mut ScopeStack, op: &ScopeStackOp)
    ensures
        *final(stack) == stack_after(*old(stack), *op),
{
    stack.apply(op).ok();
}

/// `ScopeStack::as_slice`, each scope written out by `Scope::build_string`.
#[verifier::external_body]
fn scope_names(stack: &ScopeStack) -> (r: Vec<String>)
    ensures
        views(r@) == stack_scopes(*stack),
{
    stack.as_slice().iter().map(|s| s.build_string()).collect()
}

/// `ScopeStack::from_str`: a list without a scope gives the empty stack.
#[verifier::external_body]
fn parse_stack(text: &str) -> (r: Option<ScopeStack>)
    ensures
        r == stack_of_text(text@),
        text@.len() == 0 ==> r is Some && stack_scopes(r->0) == Seq::<Seq<char>>::empty(),
{
    text.parse::<ScopeStack>().ok()
}

/// `ParseState::clone`: an equal state.
#[verifier::external_body]
fn copy_state(state: &ParseState) -> (r: ParseState)
    ensures
        r == *state,
{
    state.clone()
}

/// `ScopeStack::clone`: an equal stack.
#[verifier::external_body]
fn copy_stack(stack: &ScopeStack) -> (r: ScopeStack)
    ensures
        r == *stack,
{
    stack.clone()
}

/// Whether some level of a state holds what a match has captured, for back-references to it.
pub uninterp spec fn holds_capture(state: ParseState) -> bool;

/// `ParseState::eq`: states that it calls equal are, and it calls equal states without a capture
/// equal. It may tell equal states with one apart: what has been captured is compared by where
/// it lies in memory.
#[verifier::external_body]
fn same_state(a: &ParseState, b: &ParseState) -> (r: bool)
    ensures
        r ==> *a == *b,
        *a == *b && !holds_capture(*a) ==> r,
{
    a == b
}

/// `ScopeStack::eq`, which compares all that a stack holds.
#[verifier::external_body]
fn same_stack(a: &ScopeStack, b: &ScopeStack) -> (r: bool)
    ensures
        r == (*a == *b),
{
    a == b
}

/// Extensions of scripts that the JavaScript grammar takes where no other does.
pub open spec fn is_script(ext: Seq<char>) -> bool {
    ext == "ts"@ || ext == "mts"@ || ext == "cts"@ || ext == "tsx"@ || ext == "jsx"@ || ext
        == "mjs"@ || ext == "cjs"@
}

/// The starting state for a file extension: by extension, else by token, else, for
/// scripts, that of JavaScript.
pub open spec fn state_for(ext: Seq<char>) -> Option<ParseState> {
    if state_by_extension(ext) is Some {
        state_by_extension(ext)
    } else if state_by_token(ext) is Some {
        state_by_token(ext)
    } else if is_script(ext) {
        state_by_extension("js"@)
    } else {
        None
    }
}

fn syntax_for(set: &SyntaxSet, ext: &str) -> (r: Option<ParseState>)
    requires
        is_bundled(*set),
    ensures
        r == state_for(ext@),
        r matches Some(s) ==> is_bundled_state(s),
{
    let by_ext = find_by_extension(set, ext);
    if by_ext.is_some() {
        return by_ext;
    }
    let by_token = find_by_token(set, ext);
    if by_token.is_some() {
        return by_token;
    }
    if same(ext, "ts") || same(ext, "mts") || same(ext, "cts") || same(ext, "tsx") || same(ext, "jsx")
        || same(ext, "mjs") || same(ext, "cjs") {
        find_by_extension(set, "js")
    } else {
        None
    }
}

/// True if there is a grammar for this extension.
pub fn supports(ext: &str) -> (r: bool)
    ensures
        r == (state_for(ext@) is Some),
{
    let set = load_grammars();
    syntax_for(&set, ext).is_some()
}

/// The colour of a scope, by its leading standard segment.
pub open spec fn color_of_scope(s: Seq<char>) -> Color {
    if begins(s, "comment"@) {
        Color::Comment
    } else if begins(s, "string"@) || begins(s, "constant.character"@) {
        Color::Str
    } else if begins(s, "keyword.control"@) {
        Color::KeywordControl
    } else if begins(s, "keyword"@) || begins(s, "storage"@) {
        Color::Keyword
    } else if holds(s, "entity.name.function"@) || holds(s, "support.function"@) || holds(
        s,
        "meta.function-call"@,
    ) {
        Color::Function
    } else if holds(s, "entity.name.type"@) || holds(s, "support.type"@) || holds(
        s,
        "entity.name.class"@,
    ) || holds(s, "entity.other.inherited-class"@) {
        Color::Type
    } else if begins(s, "constant.numeric"@) {
        Color::Number
    } else if begins(s, "constant"@) || begins(s, "support.constant"@) {
        Color::Constant
    } else if begins(s, "variable"@) || begins(s, "entity.name"@) {
        Color::Variable
    } else if begins(s, "invalid"@) {
        Color::Invalid
    } else {
        Color::Text
    }
}

/// The colour of a scope, by its leading standard segment.
pub fn scope_color(s: &str) -> (r: Color)
    ensures
        r == color_of_scope(s@),
{
    let v = chars_of(s);
    if prefix_at(&v, 0, "comment") {
        Color::Comment
    } else if prefix_at(&v, 0, "string") || prefix_at(&v, 0, "constant.character") {
        Color::Str
    } else if prefix_at(&v, 0, "keyword.control") {
        Color::KeywordControl
    } else if prefix_at(&v, 0, "keyword") || prefix_at(&v, 0, "storage") {
        Color::Keyword
    } else if holds_in(&v, "entity.name.function") || holds_in(&v, "support.function") || holds_in(
        &v,
        "meta.function-call",
    ) {
        Color::Function
    } else if holds_in(&v, "entity.name.type") || holds_in(&v, "support.type") || holds_in(
        &v,
        "entity.name.class",
    ) || holds_in(&v, "entity.other.inherited-class") {
        Color::Type
    } else if prefix_at(&v, 0, "constant.numeric") {
        Color::Number
    } else if prefix_at(&v, 0, "constant") || prefix_at(&v, 0, "support.constant") {
        Color::Constant
    } else if prefix_at(&v, 0, "variable") || prefix_at(&v, 0, "entity.name") {
        Color::Variable
    } else if prefix_at(&v, 0, "invalid") {
        Color::Invalid
    } else {
        Color::Text
    }
}

/// The colour of a semantic token type; none where the grammar's colour stays.
pub open spec fn color_of_token(t: Seq<char>) -> Option<Color> {
    if t == "namespace"@ || t == "type"@ || t == "class"@ || t == "enum"@ || t == "interface"@ || t
        == "struct"@ || t == "typeParameter"@ || t == "decorator"@ {
        Some(Color::Type)
    } else if t == "function"@ || t == "method"@ || t == "macro"@ {
        Some(Color::Function)
    } else if t == "parameter"@ {
        Some(Color::Number)
    } else if t == "variable"@ || t == "property"@ || t == "enumMember"@ || t == "event"@ {
        Some(Color::Variable)
    } else if t == "keyword"@ || t == "modifier"@ {
        Some(Color::Keyword)
    } else if t == "string"@ {
        Some(Color::Str)
    } else if t == "number"@ {
        Some(Color::Number)
    } else if t == "comment"@ {
        Some(Color::Comment)
    } else {
        None
    }
}

/// The colour of a semantic token type; `None` leaves the grammar's colour. Parameters
/// get a hue of their own.
pub fn semantic_color(token_type: &str) -> (r: Option<Color>)
    ensures
        r == color_of_token(token_type@),
{
    let t = token_type;
    if same(t, "namespace") || same(t, "type") || same(t, "class") || same(t, "enum") || same(
        t,
        "interface",
    ) || same(t, "struct") || same(t, "typeParameter") || same(t, "decorator") {
        Some(Color::Type)
    } else if same(t, "function") || same(t, "method") || same(t, "macro") {
        Some(Color::Function)
    } else if same(t, "parameter") {
        Some(Color::Number)
    } else if same(t, "variable") || same(t, "property") || same(t, "enumMember") || same(t, "event") {
        Some(Color::Variable)
    } else if same(t, "keyword") || same(t, "modifier") {
        Some(Color::Keyword)
    } else if same(t, "string") {
        Some(Color::Str)
    } else if same(t, "number") {
        Some(Color::Number)
    } else if same(t, "comment") {
        Some(Color::Comment)
    } else {
        None
    }
}

/// Line and start of the `k`-th semantic token: groups of five numbers, of which the
/// first two are deltas to the token before.
pub open spec fn token_place(data: Seq<u32>, k: int) -> (int, int)
    decreases k,
{
    if k <= 0 {
        (0, 0)
    } else {
        let (line, start) = token_place(data, k - 1);
        let dl = data[5 * (k - 1)] as int;
        let ds = data[5 * (k - 1) + 1] as int;
        if dl > 0 {
            (line + dl, ds)
        } else {
            (line, start + ds)
        }
    }
}

/// The tokens of the first `k` groups that have a colour of their own.
pub open spec fn tokens_after(data: Seq<u32>, legend: Seq<Seq<char>>, k: int) -> Seq<
    (int, int, int, Color),
>
    decreases k,
{
    if k <= 0 {
        Seq::empty()
    } else {
        let before = tokens_after(data, legend, k - 1);
        let (line, start) = token_place(data, k);
        let t = data[5 * (k - 1) + 3] as int;
        if t < legend.len() && color_of_token(legend[t]) is Some {
            before.push((line, start, data[5 * (k - 1) + 2] as int, color_of_token(legend[t])->0))
        } else {
            before
        }
    }
}

/// Tokens as mathematical integers.
pub open spec fn token_views(v: Seq<(u32, u32, u32, Color)>) -> Seq<(int, int, int, Color)> {
    Seq::new(v.len(), |i: int| (v[i].0 as int, v[i].1 as int, v[i].2 as int, v[i].3))
}

/// Decodes semantic tokens against the server's legend into absolute
/// `(line, start, length, colour)`. Tokens without a colour of their own are left out,
/// and so is what follows the last whole group.
pub fn decode_semantic(data: &[u32], legend: &[String]) -> (r: Vec<(u32, u32, u32, Color)>)
    requires
        forall|k: int|
            0 <= k <= data@.len() / 5 ==> (#[trigger] token_place(data@, k)).0 <= u32::MAX
                && token_place(data@, k).1 <= u32::MAX,
    ensures
        token_views(r@) == tokens_after(data@, views(legend@), data@.len() as int / 5),
{
    let n: usize = data.len() / 5;
    let mut out: Vec<(u32, u32, u32, Color)> = Vec::new();
    let mut line: u32 = 0;
    let mut start: u32 = 0;
    let mut k: usize = 0;
    while k < n
        invariant
            n == data@.len() / 5,
            data@.len() <= usize::MAX,
            k <= n,
            forall|j: int|
                0 <= j <= data@.len() / 5 ==> (#[trigger] token_place(data@, j)).0 <= u32::MAX
                    && token_place(data@, j).1 <= u32::MAX,
            (line as int, start as int) == token_place(data@, k as int),
            token_views(out@) == tokens_after(data@, views(legend@), k as int),
        decreases n - k,
    {
        let dl: u32 = data[5 * k];
        let ds: u32 = data[5 * k + 1];
        let len: u32 = data[5 * k + 2];
        let t: usize = data[5 * k + 3] as usize;
        let ghost place = token_place(data@, k + 1);
        if dl > 0 {
            line = line + dl;
            start = ds;
        } else {
            start = start + ds;
        }
        let ghost before = out@;
        if t < legend.len() {
            assert(views(legend@)[t as int] == legend@[t as int]@);
            if let Some(color) = semantic_color(legend[t].as_str()) {
                out.push((line, start, len, color));
                assert(token_views(out@) == token_views(before).push(
                    (line as int, start as int, len as int, color),
                ));
            }
        }
        k = k + 1;
    }
    out
}

/// Whether a scope marks a key of a mapping.
pub open spec fn is_key_scope(s: Seq<char>) -> bool {
    begins(s, "meta.mapping.key"@) || begins(s, "support.type.property-name"@)
}

/// The colour under a list of open scopes: the innermost one decides, but a mapping key
/// anywhere among them colours as a property name.
pub open spec fn color_of_scopes(scopes: Seq<Seq<char>>) -> Color {
    if exists|i: int| 0 <= i < scopes.len() && is_key_scope(#[trigger] scopes[i]) {
        Color::Variable
    } else if scopes.len() > 0 {
        color_of_scope(scopes.last())
    } else {
        Color::Text
    }
}

/// The colour under a list of open scopes.
pub fn color_for_scopes(scopes: &Vec<String>) -> (r: Color)
    ensures
        r == color_of_scopes(views(scopes@)),
{
    let mut i: usize = 0;
    while i < scopes.len()
        invariant
            i <= scopes@.len(),
            forall|j: int| 0 <= j < i ==> !is_key_scope(#[trigger] views(scopes@)[j]),
        decreases scopes.len() - i,
    {
        let s = scopes[i].as_str();
        assert(views(scopes@)[i as int] == s@);
        if starts_with(s, "meta.mapping.key") || starts_with(s, "support.type.property-name") {
            return Color::Variable;
        }
        i = i + 1;
    }
    if scopes.len() > 0 {
        scope_color(scopes[scopes.len() - 1].as_str())
    } else {
        Color::Text
    }
}

fn color_for_stack(stack: &ScopeStack) -> (r: Color)
    ensures
        r == color_of_scopes(stack_scopes(*stack)),
{
    let names = scope_names(stack);
    color_for_scopes(&names)
}

/// The spans of a line from character `last` on, and the stack behind it, when the
/// scope changes from the `k`-th on are still to be made. A change at a place that is no
/// boundary between characters only changes the stack.
pub open spec fn walked(
    line: Seq<char>,
    ops: Seq<(usize, ScopeStackOp)>,
    k: int,
    last: int,
    stack: ScopeStack,
) -> (Seq<Painted>, ScopeStack)
    decreases ops.len() - k,
{
    if k >= ops.len() {
        if last < line.len() {
            (
                seq![(line.subrange(last, line.len() as int), color_of_scopes(stack_scopes(stack)))],
                stack,
            )
        } else {
            (Seq::empty(), stack)
        }
    } else {
        let after = stack_after(stack, ops[k].1);
        match char_from(line, 0, ops[k].0 as int) {
            Some(at) if at > last => {
                let (rest, end) = walked(line, ops, k + 1, at, after);
                (
                    seq![(line.subrange(last, at), color_of_scopes(stack_scopes(stack)))] + rest,
                    end,
                )
            },
            _ => walked(line, ops, k + 1, last, after),
        }
    }
}

fn walk_line(v: &Vec<char>, ops: &Vec<(usize, ScopeStackOp)>, stack: &mut ScopeStack) -> (r: Vec<
    (String, Color),
>)
    ensures
        (span_views(r@), *final(stack)) == walked(v@, ops@, 0, 0, *old(stack)),
{
    let ghost want = walked(v@, ops@, 0, 0, *stack);
    let mut out: Vec<(String, Color)> = Vec::new();
    let n: usize = v.len();
    let mut last: usize = 0;
    let mut i: usize = 0;
    let mut b: usize = 0;
    let mut k: usize = 0;
    assert(span_views(out@) + want.0 == want.0);
    while k < ops.len()
        invariant
            n == v@.len(),
            k <= ops@.len(),
            last <= n,
            i <= n,
            char_from(v@, 0, b as int) == Some(i as int),
            span_views(out@) + walked(v@, ops@, k as int, last as int, *stack).0 == want.0,
            walked(v@, ops@, k as int, last as int, *stack).1 == want.1,
        decreases ops.len() - k,
    {
        let off: usize = ops[k].0;
        let ghost rest = walked(v@, ops@, k as int, last as int, *stack);
        match char_index_from(v, i, b, off) {
            Some(at) => {
                i = at;
                b = off;
                if at > last {
                    let color = color_for_stack(stack);
                    let piece = text_of(v, last, at);
                    let ghost before = span_views(out@);
                    let ghost p: Painted = (piece@, color);
                    out.push((piece, color));
                    assert(span_views(out@) == before + seq![p]);
                    apply_op(stack, &ops[k].1);
                    proof {
                        let more = walked(v@, ops@, k + 1, at as int, *stack).0;
                        assert(rest.0 == seq![p] + more);
                        assert(before + (seq![p] + more) == (before + seq![p]) + more);
                    }
                    last = at;
                } else {
                    apply_op(stack, &ops[k].1);
                }
            },
            None => {
                apply_op(stack, &ops[k].1);
            },
        }
        k = k + 1;
    }
    if last < n {
        let color = color_for_stack(stack);
        let piece = text_of(v, last, n);
        let ghost before = span_views(out@);
        let ghost p: Painted = (piece@, color);
        out.push((piece, color));
        assert(span_views(out@) == before + seq![p]);
    } else {
        assert(span_views(out@) + Seq::<Painted>::empty() == span_views(out@));
    }
    out
}

/// Where the string that is open at `i` closes; past the end where it does not.
pub open spec fn string_close(line: Seq<char>, i: int) -> int
    decreases line.len() + 1 - i,
{
    if i >= line.len() || line[i] == '"' {
        i
    } else if line[i] == '\\' {
        string_close(line, i + 2)
    } else {
        string_close(line, i + 1)
    }
}

/// The first place at or after `i` that is neither a blank nor a tab.
pub open spec fn past_blanks(line: Seq<char>, i: int) -> int
    decreases line.len() - i,
{
    if i < line.len() && (line[i] == ' ' || line[i] == '\t') {
        past_blanks(line, i + 1)
    } else {
        i
    }
}

proof fn lemma_string_close(line: Seq<char>, i: int)
    ensures
        string_close(line, i) >= i,
    decreases line.len() + 1 - i,
{
    if i < line.len() && line[i] != '"' {
        lemma_string_close(line, i + 1);
        lemma_string_close(line, i + 2);
    }
}

/// The strings of a line from `i` on that a colon follows: their places, quotes
/// included. A string that does not close on the line ends the search.
pub open spec fn key_ranges(line: Seq<char>, i: int) -> Seq<(int, int)>
    decreases line.len() - i,
    via key_ranges_decreases
{
    if i >= line.len() {
        Seq::empty()
    } else if line[i] != '"' {
        key_ranges(line, i + 1)
    } else {
        let q = string_close(line, i + 1);
        if q >= line.len() {
            Seq::empty()
        } else {
            let j = past_blanks(line, q + 1);
            let rest = key_ranges(line, q + 1);
            if j < line.len() && line[j] == ':' {
                seq![(i, q + 1)] + rest
            } else {
                rest
            }
        }
    }
}

#[via_fn]
proof fn key_ranges_decreases(line: Seq<char>, i: int) {
    lemma_string_close(line, i + 1);
}

/// Whether ranges are non-empty, in order and apart.
pub open spec fn in_order(keys: Seq<(int, int)>) -> bool {
    &&& forall|i: int| 0 <= i < keys.len() ==> 0 <= #[trigger] keys[i].0 < keys[i].1
    &&& forall|i: int, j: int| 0 <= i < j < keys.len() ==> #[trigger] keys[i].1 <= #[trigger] keys[j].0
}

proof fn lemma_key_ranges(line: Seq<char>, i: int)
    requires
        0 <= i,
    ensures
        in_order(key_ranges(line, i)),
        forall|k: int|
            0 <= k < key_ranges(line, i).len() ==> i <= #[trigger] key_ranges(line, i)[k].0
                && key_ranges(line, i)[k].1 <= line.len(),
    decreases line.len() - i,
{
    if i >= line.len() {
    } else if line[i] != '"' {
        lemma_key_ranges(line, i + 1);
        assert(key_ranges(line, i) == key_ranges(line, i + 1));
    } else {
        lemma_string_close(line, i + 1);
        let q = string_close(line, i + 1);
        if q < line.len() {
            lemma_key_ranges(line, q + 1);
            let rest = key_ranges(line, q + 1);
            let all = seq![(i, q + 1)] + rest;
            assert(key_ranges(line, i) == all || key_ranges(line, i) == rest);
            assert(forall|k: int| 1 <= k < all.len() ==> #[trigger] all[k] == rest[k - 1]);
        }
    }
}

/// Ranges as mathematical integers.
pub open spec fn range_views(v: Seq<(usize, usize)>) -> Seq<(int, int)> {
    Seq::new(v.len(), |i: int| (v[i].0 as int, v[i].1 as int))
}

fn find_keys(v: &Vec<char>) -> (r: Vec<(usize, usize)>)
    ensures
        range_views(r@) == key_ranges(v@, 0),
{
    let n: usize = v.len();
    let ghost want = key_ranges(v@, 0);
    let mut keys: Vec<(usize, usize)> = Vec::new();
    let mut i: usize = 0;
    assert(range_views(keys@) + want == want);
    while i < n
        invariant_except_break
            i <= n,
            range_views(keys@) + key_ranges(v@, i as int) == want,
        invariant
            n == v@.len(),
        ensures
            range_views(keys@) == want,
        decreases n - i,
    {
        if v[i] != '"' {
            i = i + 1;
            assert(range_views(keys@) + Seq::<(int, int)>::empty() == range_views(keys@));
            continue;
        }
        let start: usize = i;
        let mut q: usize = i + 1;
        let mut over: bool = false;
        while q < n && v[q] != '"'
            invariant
                n == v@.len(),
                start < q,
                q <= n,
                over ==> q == n && string_close(v@, start + 1) >= n,
                !over ==> string_close(v@, q as int) == string_close(v@, start + 1),
            decreases n - q,
        {
            if v[q] == '\\' {
                if n - q < 2 {
                    assert(string_close(v@, q + 2) == q + 2);
                    over = true;
                    q = n;
                } else {
                    q = q + 2;
                }
            } else {
                q = q + 1;
            }
        }
        if q >= n {
            assert(range_views(keys@) + Seq::<(int, int)>::empty() == range_views(keys@));
            break;
        }
        let end: usize = q + 1;
        let mut j: usize = end;
        while j < n && (v[j] == ' ' || v[j] == '\t')
            invariant
                n == v@.len(),
                end <= j <= n,
                past_blanks(v@, j as int) == past_blanks(v@, end as int),
            decreases n - j,
        {
            j = j + 1;
        }
        let ghost before = range_views(keys@);
        let ghost rest = key_ranges(v@, end as int);
        proof {
            lemma_string_close(v@, start + 1);
            assert(string_close(v@, start + 1) == q);
            let found = past_blanks(v@, end as int);
            assert(key_ranges(v@, start as int) == if found < n && v@[found] == ':' {
                seq![(start as int, end as int)] + rest
            } else {
                rest
            });
        }
        if j < n && v[j] == ':' {
            keys.push((start, end));
            assert(range_views(keys@) == before + seq![(start as int, end as int)]);
            assert(before + (seq![(start as int, end as int)] + rest) == (before + seq![
                (start as int, end as int),
            ]) + rest);
        }
        i = end;
        assert(range_views(keys@) + Seq::<(int, int)>::empty() == range_views(keys@));
    }
    keys
}

/// What stays of a span from `cur` on when the keys from the `k`-th on are cut out of it
/// and painted as property names. The span starts at character `off` of its line.
pub open spec fn cut(
    p: Painted,
    off: int,
    cur: int,
    keys: Seq<(int, int)>,
    k: int,
) -> Seq<Painted>
    decreases keys.len() - k,
{
    let end = off + p.0.len();
    if k >= keys.len() {
        if cur < end {
            seq![(p.0.subrange(cur - off, p.0.len() as int), p.1)]
        } else {
            Seq::empty()
        }
    } else {
        let (klo, khi) = keys[k];
        if khi <= cur || klo >= end {
            cut(p, off, cur, keys, k + 1)
        } else {
            let lo = if klo > cur {
                klo
            } else {
                cur
            };
            let hi = if khi < end {
                khi
            } else {
                end
            };
            let head = if lo > cur {
                seq![(p.0.subrange(cur - off, lo - off), p.1)]
            } else {
                Seq::empty()
            };
            head + seq![(p.0.subrange(lo - off, hi - off), Color::Variable)] + cut(
                p,
                off,
                hi,
                keys,
                k + 1,
            )
        }
    }
}

/// The characters of a list of pieces.
pub open spec fn text_len(ps: Seq<Painted>) -> int
    decreases ps.len(),
{
    if ps.len() == 0 {
        0
    } else {
        text_len(ps.drop_last()) + ps.last().0.len()
    }
}

/// The pieces with the keys painted as property names.
pub open spec fn keyed(ps: Seq<Painted>, keys: Seq<(int, int)>) -> Seq<Painted>
    decreases ps.len(),
{
    if ps.len() == 0 {
        Seq::empty()
    } else {
        let off = text_len(ps.drop_last());
        keyed(ps.drop_last(), keys) + cut(ps.last(), off, off, keys, 0)
    }
}

/// The pieces of a line of a mapping language: strings that a colon follows are painted
/// as property names.
pub open spec fn recolored(line: Seq<char>, ps: Seq<Painted>) -> Seq<Painted> {
    let keys = key_ranges(line, 0);
    if keys.len() == 0 {
        ps
    } else {
        keyed(ps, keys)
    }
}

fn cut_span(
    out: &mut Vec<(String, Color)>,
    s: &Vec<char>,
    c: Color,
    off: usize,
    keys: &Vec<(usize, usize)>,
)
    requires
        off + s@.len() <= usize::MAX,
        in_order(range_views(keys@)),
    ensures
        span_views(final(out)@) == span_views(old(out)@) + cut(
            (s@, c),
            off as int,
            off as int,
            range_views(keys@),
            0,
        ),
{
    let ghost kv = range_views(keys@);
    let ghost p: Painted = (s@, c);
    let ghost want = span_views(out@) + cut(p, off as int, off as int, kv, 0);
    let end: usize = off + s.len();
    let mut cur: usize = off;
    let mut k: usize = 0;
    while k < keys.len()
        invariant
            k <= keys@.len(),
            kv == range_views(keys@),
            in_order(kv),
            p == (s@, c),
            end == off + s@.len(),
            off <= cur <= end,
            span_views(out@) + cut(p, off as int, cur as int, kv, k as int) == want,
        decreases keys.len() - k,
    {
        let klo: usize = keys[k].0;
        let khi: usize = keys[k].1;
        assert(kv[k as int] == (klo as int, khi as int));
        let ghost rest = cut(p, off as int, cur as int, kv, k as int);
        let ghost start = span_views(out@);
        if khi <= cur || klo >= end {
        } else {
            let lo: usize = if klo > cur {
                klo
            } else {
                cur
            };
            let hi: usize = if khi < end {
                khi
            } else {
                end
            };
            let ghost head: Seq<Painted> = if lo > cur {
                seq![(p.0.subrange(cur - off, lo - off), p.1)]
            } else {
                Seq::empty()
            };
            if lo > cur {
                let piece = text_of(s, cur - off, lo - off);
                out.push((piece, c));
            }
            assert(span_views(out@) == start + head);
            let ghost mid = span_views(out@);
            let piece = text_of(s, lo - off, hi - off);
            out.push((piece, Color::Variable));
            proof {
                let key: Painted = (p.0.subrange(lo - off, hi - off), Color::Variable);
                let tail = cut(p, off as int, hi as int, kv, k + 1);
                assert(span_views(out@) == mid + seq![key]);
                assert(rest == head + seq![key] + tail);
                assert(start + (head + seq![key] + tail) == ((start + head) + seq![key]) + tail);
            }
            cur = hi;
        }
        k = k + 1;
    }
    if cur < end {
        let ghost start = span_views(out@);
        let piece = text_of(s, cur - off, s.len());
        out.push((piece, c));
        assert(span_views(out@) == start + seq![(s@.subrange(cur - off, s@.len() as int), c)]);
    } else {
        assert(span_views(out@) + Seq::<Painted>::empty() == span_views(out@));
    }
}

/// Paints the keys of a line of a mapping language as property names, quotes included:
/// the grammar scopes keys and string values alike, but a string that a colon follows is
/// a key.
fn recolor_json_keys(line: &Vec<char>, spans: Vec<(String, Color)>) -> (r: Vec<(String, Color)>)
    requires
        text_len(span_views(spans@)) <= usize::MAX,
    ensures
        span_views(r@) == recolored(line@, span_views(spans@)),
{
    let keys = find_keys(line);
    let ghost kv = range_views(keys@);
    if keys.len() == 0 {
        return spans;
    }
    proof {
        lemma_key_ranges(line@, 0);
    }
    let ghost ps = span_views(spans@);
    let mut out: Vec<(String, Color)> = Vec::new();
    let mut off: usize = 0;
    let mut i: usize = 0;
    while i < spans.len()
        invariant
            i <= spans@.len(),
            ps == span_views(spans@),
            kv == range_views(keys@),
            in_order(kv),
            text_len(ps) <= usize::MAX,
            off == text_len(ps.take(i as int)),
            span_views(out@) == keyed(ps.take(i as int), kv),
        decreases spans.len() - i,
    {
        let s = chars_of(spans[i].0.as_str());
        proof {
            assert(ps.take(i + 1).drop_last() == ps.take(i as int));
            assert(ps.take(i + 1).last() == (s@, spans@[i as int].1));
            lemma_text_len_take(ps, i + 1);
        }
        cut_span(&mut out, &s, spans[i].1, off, &keys);
        off = off + s.len();
        i = i + 1;
    }
    assert(ps.take(i as int) == ps);
    out
}

proof fn lemma_text_len_take(ps: Seq<Painted>, k: int)
    requires
        0 <= k <= ps.len(),
    ensures
        0 <= text_len(ps.take(k)) <= text_len(ps),
    decreases ps.len(),
{
    if k == ps.len() {
        assert(ps.take(k) == ps);
        if ps.len() > 0 {
            lemma_text_len_take(ps.drop_last(), ps.len() - 1);
            assert(ps.drop_last().take(ps.len() - 1) == ps.drop_last());
        }
    } else {
        lemma_text_len_take(ps.drop_last(), k);
        assert(ps.drop_last().take(k) == ps.take(k));
    }
}

/// What is painted, with the characters inside the ranges painted as property names. The
/// first character is number `from`.
pub open spec fn overlaid(cv: Seq<(char, Color)>, keys: Seq<(int, int)>, from: int) -> Seq<
    (char, Color),
> {
    Seq::new(
        cv.len(),
        |x: int|
            if in_a_range(keys, from + x) {
                (cv[x].0, Color::Variable)
            } else {
                cv[x]
            },
    )
}

/// Whether character `x` lies inside one of the ranges.
pub open spec fn in_a_range(keys: Seq<(int, int)>, x: int) -> bool {
    exists|j: int| 0 <= j < keys.len() && #[trigger] keys[j].0 <= x < keys[j].1
}

proof fn lemma_cut(p: Painted, off: int, cur: int, keys: Seq<(int, int)>, k: int)
    requires
        in_order(keys),
        0 <= off <= cur <= off + p.0.len(),
        0 <= k <= keys.len(),
        cur < off + p.0.len() ==> forall|j: int|
            0 <= j < k ==> #[trigger] keys[j].1 <= cur || keys[j].0 >= off + p.0.len(),
    ensures
        canvas(cut(p, off, cur, keys, k)) == overlaid(brushed(p).skip(cur - off), keys, cur),
    decreases keys.len() - k,
{
    let end = off + p.0.len();
    let goal = overlaid(brushed(p).skip(cur - off), keys, cur);
    if k >= keys.len() {
        if cur < end {
            let q: Painted = (p.0.subrange(cur - off, p.0.len() as int), p.1);
            lemma_canvas_push(Seq::empty(), q);
            assert(Seq::<Painted>::empty().push(q) == seq![q]);
            assert(canvas(Seq::<Painted>::empty()) + brushed(q) == brushed(q));
            assert(brushed(q) == goal);
        } else {
            assert(goal == Seq::<(char, Color)>::empty());
        }
    } else {
        let (klo, khi) = keys[k];
        if khi <= cur || klo >= end {
            lemma_cut(p, off, cur, keys, k + 1);
        } else {
            let lo = if klo > cur {
                klo
            } else {
                cur
            };
            let hi = if khi < end {
                khi
            } else {
                end
            };
            let head: Seq<Painted> = if lo > cur {
                seq![(p.0.subrange(cur - off, lo - off), p.1)]
            } else {
                Seq::empty()
            };
            let key: Painted = (p.0.subrange(lo - off, hi - off), Color::Variable);
            let tail = cut(p, off, hi, keys, k + 1);
            lemma_cut(p, off, hi, keys, k + 1);
            lemma_canvas_concat(head + seq![key], tail);
            lemma_canvas_push(head, key);
            assert(head.push(key) == head + seq![key]);
            if lo > cur {
                lemma_canvas_push(Seq::empty(), head[0]);
                assert(Seq::<Painted>::empty().push(head[0]) == head);
                assert(canvas(Seq::<Painted>::empty()) + brushed(head[0]) == brushed(head[0]));
            }
            let got = canvas(head) + brushed(key) + canvas(tail);
            assert(got.len() == goal.len());
            assert forall|x: int| 0 <= x < goal.len() implies got[x] == goal[x] by {
                if x < lo - cur {
                    assert(!in_a_range(keys, cur + x));
                } else if x < hi - cur {
                    assert(keys[k].0 <= cur + x < keys[k].1);
                } else {
                    assert(canvas(tail)[x - (hi - cur)] == goal[x]);
                }
            }
            assert(got == goal);
        }
    }
}

proof fn lemma_keyed(ps: Seq<Painted>, keys: Seq<(int, int)>)
    requires
        in_order(keys),
    ensures
        canvas(ps).len() == text_len(ps),
        canvas(keyed(ps, keys)) == overlaid(canvas(ps), keys, 0),
    decreases ps.len(),
{
    if ps.len() == 0 {
        assert(canvas(keyed(ps, keys)) == overlaid(canvas(ps), keys, 0));
    } else {
        let off = text_len(ps.drop_last());
        lemma_keyed(ps.drop_last(), keys);
        lemma_cut(ps.last(), off, off, keys, 0);
        lemma_canvas_concat(keyed(ps.drop_last(), keys), cut(ps.last(), off, off, keys, 0));
        assert(brushed(ps.last()).skip(0) == brushed(ps.last()));
        assert(canvas(keyed(ps, keys)) == overlaid(canvas(ps), keys, 0));
    }
}

/// Recolouring keeps the text. It paints the keys of the line as property names, and
/// leaves the colour of every other character.
pub proof fn law_recolor_paints_keys(line: Seq<char>, ps: Seq<Painted>)
    ensures
        canvas(recolored(line, ps)) == overlaid(canvas(ps), key_ranges(line, 0), 0),
{
    lemma_key_ranges(line, 0);
    lemma_keyed(ps, key_ranges(line, 0));
    if key_ranges(line, 0).len() == 0 {
        assert(canvas(ps) == overlaid(canvas(ps), key_ranges(line, 0), 0));
    }
}

/// The carried state at the start of a line.
pub struct LineStart {
    pub state: ParseState,
    pub stack: ScopeStack,
}

/// Whether the keys of a file with this extension are told from its strings.
pub open spec fn has_keys(ext: Seq<char>) -> bool {
    ext == "json"@ || ext == "jsonc"@ || ext == "mcp"@
}

/// The spans of a line that starts in a state, and the state behind it.
pub open spec fn tokenized(ext: Seq<char>, at: LineStart, line: Seq<char>) -> (
    Seq<Painted>,
    LineStart,
) {
    let state = line_next(at.state, line);
    let (plain, stack) = match line_ops(at.state, line) {
        Some(ops) => walked(line, ops, 0, 0, at.stack),
        None => (seq![(line, Color::Text)], at.stack),
    };
    let spans = if has_keys(ext) {
        recolored(line, plain)
    } else {
        plain
    };
    (spans, LineStart { state, stack })
}

proof fn lemma_walked_len(
    line: Seq<char>,
    ops: Seq<(usize, ScopeStackOp)>,
    k: int,
    last: int,
    stack: ScopeStack,
)
    requires
        0 <= k <= ops.len(),
        0 <= last <= line.len(),
    ensures
        text_len(walked(line, ops, k, last, stack).0) == line.len() - last,
        canvas_text(walked(line, ops, k, last, stack).0) == line.subrange(last, line.len() as int),
    decreases ops.len() - k,
{
    let got = walked(line, ops, k, last, stack).0;
    if k >= ops.len() {
        if last < line.len() {
            assert(got.drop_last() == Seq::<Painted>::empty());
            assert(text_len(got.drop_last()) == 0);
            assert(canvas_text(got.drop_last()) == Seq::<char>::empty());
            assert(canvas_text(got) == line.subrange(last, line.len() as int));
        } else {
            assert(canvas_text(got) == line.subrange(last, line.len() as int));
        }
    } else {
        let after = stack_after(stack, ops[k].1);
        let at = char_from(line, 0, ops[k].0 as int);
        if at is Some && at->0 > last {
            lemma_char_bound(line, 0, ops[k].0 as int);
            let p: Painted = (line.subrange(last, at->0), color_of_scopes(stack_scopes(stack)));
            let rest = walked(line, ops, k + 1, at->0, after).0;
            lemma_walked_len(line, ops, k + 1, at->0, after);
            lemma_text_concat(seq![p], rest);
            assert(got == seq![p] + rest);
            assert(seq![p].drop_last() == Seq::<Painted>::empty());
            assert(text_len(seq![p].drop_last()) == 0);
            assert(canvas_text(seq![p].drop_last()) == Seq::<char>::empty());
            assert(canvas_text(seq![p]) == p.0);
            assert(line.subrange(last, at->0) + line.subrange(at->0, line.len() as int)
                == line.subrange(last, line.len() as int));
        } else {
            lemma_walked_len(line, ops, k + 1, last, after);
        }
    }
}

proof fn lemma_char_bound(s: Seq<char>, i: int, off: int)
    requires
        0 <= i <= s.len(),
    ensures
        char_from(s, i, off) matches Some(k) ==> i <= k <= s.len(),
    decreases s.len() - i,
{
    if off != 0 && i < s.len() && crate::text::utf8_width(s[i]) <= off {
        lemma_char_bound(s, i + 1, off - crate::text::utf8_width(s[i]));
    }
}

/// The text of a list of pieces.
pub open spec fn canvas_text(ps: Seq<Painted>) -> Seq<char>
    decreases ps.len(),
{
    if ps.len() == 0 {
        Seq::empty()
    } else {
        canvas_text(ps.drop_last()) + ps.last().0
    }
}

proof fn lemma_text_concat(a: Seq<Painted>, b: Seq<Painted>)
    ensures
        text_len(a + b) == text_len(a) + text_len(b),
        canvas_text(a + b) == canvas_text(a) + canvas_text(b),
    decreases b.len(),
{
    if b.len() == 0 {
        assert(a + b == a);
        assert(canvas_text(a) + canvas_text(b) == canvas_text(a));
    } else {
        lemma_text_concat(a, b.drop_last());
        assert((a + b).drop_last() == a + b.drop_last());
        assert(canvas_text(a) + canvas_text(b.drop_last()) + b.last().0 == canvas_text(a) + (
        canvas_text(b.drop_last()) + b.last().0));
    }
}

proof fn lemma_canvas_text(ps: Seq<Painted>)
    ensures
        canvas(ps).len() == canvas_text(ps).len(),
        forall|i: int| 0 <= i < canvas(ps).len() ==> (#[trigger] canvas(ps)[i]).0 == canvas_text(ps)[i],
    decreases ps.len(),
{
    if ps.len() > 0 {
        lemma_canvas_text(ps.drop_last());
    }
}

/// The spans of a line, put together, are the line.
pub proof fn law_spans_join_to_line(ext: Seq<char>, at: LineStart, line: Seq<char>)
    ensures
        canvas_text(tokenized(ext, at, line).0) == line,
{
    let plain = match line_ops(at.state, line) {
        Some(ops) => walked(line, ops, 0, 0, at.stack).0,
        None => seq![(line, Color::Text)],
    };
    assert(canvas_text(plain) == line) by {
        match line_ops(at.state, line) {
            Some(ops) => {
                lemma_walked_len(line, ops, 0, 0, at.stack);
                assert(line.subrange(0, line.len() as int) == line);
            },
            None => {
                assert(plain.drop_last() == Seq::<Painted>::empty());
                assert(canvas_text(plain.drop_last()) == Seq::<char>::empty());
                assert(canvas_text(plain) == line);
            },
        }
    }
    let got = tokenized(ext, at, line).0;
    if has_keys(ext) {
        law_recolor_paints_keys(line, plain);
    }
    lemma_canvas_text(plain);
    lemma_canvas_text(got);
    assert(canvas_text(got).len() == line.len());
    assert forall|i: int| 0 <= i < line.len() implies canvas_text(got)[i] == line[i] by {
        assert(canvas(got)[i].0 == canvas_text(got)[i]);
        assert(canvas(plain)[i].0 == canvas_text(plain)[i]);
    }
    assert(canvas_text(got) == line);
}

/// What a line cache holds.
#[verifier::ext_equal]
pub struct Cached {
    pub starts: Seq<LineStart>,
    pub spans: Seq<Seq<Painted>>,
    pub last_end: int,
}

/// Incremental tokenizer state of one document: the carried state at the start of each
/// line, and the coloured spans of each line, newline included.
pub struct LineCache {
    ext: String,
    set: SyntaxSet,
    starts: Vec<LineStart>,
    spans: Vec<Vec<(String, Color)>>,
    last_end: usize,
}

impl View for LineCache {
    type V = Cached;

    closed spec fn view(&self) -> Cached {
        Cached { starts: self.starts@, spans: row_views(self.spans@), last_end: self.last_end as int }
    }
}

/// Whether a cache for an extension has seen no text: no rows, and the grammar's first state.
pub open spec fn is_fresh(ext: Seq<char>, c: Cached) -> bool {
    &&& c.starts.len() == 1
    &&& c.spans.len() == 0
    &&& c.last_end == 0
    &&& state_for(ext) == Some(c.starts[0].state)
    &&& stack_of_text(""@) == Some(c.starts[0].stack)
}

/// The cache made ready for a text of `n` lines: where lines came or went, empty rows
/// are put in at the edit or rows are dropped there, so that the tail lines up again.
pub open spec fn aligned(c: Cached, n: int, start: int) -> Cached {
    let o = c.spans.len();
    if o == 0 || n == o || start >= n {
        c
    } else if n > o {
        let fill = c.starts[if start + 1 < c.starts.len() {
            start + 1
        } else {
            c.starts.len() - 1
        }];
        Cached {
            starts: c.starts.take(start + 1) + Seq::new((n - o) as nat, |i: int| fill) + c.starts.skip(
                start + 1,
            ),
            spans: c.spans.take(start) + Seq::new((n - o) as nat, |i: int| Seq::<Painted>::empty())
                + c.spans.skip(start),
            last_end: c.last_end,
        }
    } else {
        Cached {
            starts: c.starts.take(start + 1) + c.starts.skip(start + 1 + o - n),
            spans: c.spans.take(start) + c.spans.skip(start + o - n),
            last_end: c.last_end,
        }
    }
}

/// The line before which re-tokenizing must not stop.
pub open spec fn barrier(c: Cached, n: int, start: int) -> int {
    let o = c.spans.len();
    if o != 0 && n > o && start < n {
        start + n - o
    } else {
        start
    }
}

/// The cache with line `i` tokenized anew.
pub open spec fn retold(ext: Seq<char>, lines: Seq<Seq<char>>, c: Cached, i: int) -> Cached {
    let (sp, next) = tokenized(ext, c.starts[i], lines[i]);
    Cached {
        starts: if i + 1 < c.starts.len() {
            c.starts.update(i + 1, next)
        } else {
            c.starts.push(next)
        },
        spans: if i < c.spans.len() {
            c.spans.update(i, sp)
        } else {
            c.spans.push(sp)
        },
        last_end: i + 1,
    }
}

/// The cache with the lines from `start` up to `end` tokenized anew.
pub open spec fn retokenized(
    ext: Seq<char>,
    lines: Seq<Seq<char>>,
    c: Cached,
    start: int,
    end: int,
) -> Cached
    decreases end - start,
{
    if end <= start {
        c
    } else {
        retold(ext, lines, retokenized(ext, lines, c, start, end - 1), end - 1)
    }
}

/// Whether tokenizing from `start` on may stop before line `end`: there are no more lines, or
/// `end` is behind the barrier and the state carried to it is the one that was cached, so that
/// the tail cannot change.
pub open spec fn may_stop(
    ext: Seq<char>,
    lines: Seq<Seq<char>>,
    c: Cached,
    bar: int,
    start: int,
    end: int,
) -> bool {
    end == lines.len() || (c.spans.len() == lines.len() && bar < end < lines.len() && retokenized(
        ext,
        lines,
        c,
        start,
        end,
    ).starts[end] == c.starts[end])
}

/// Whether tokenizing from `start` up to `end` goes past a line before which it may stop only
/// where the state that is cached for that line holds a capture.
pub open spec fn passes_only_captures(
    ext: Seq<char>,
    lines: Seq<Seq<char>>,
    c: Cached,
    bar: int,
    start: int,
    end: int,
) -> bool {
    forall|k: int|
        start < k < end && #[trigger] may_stop(ext, lines, c, bar, start, k) ==> holds_capture(
            c.starts[k].state,
        )
}

/// The first line from `k` on before which tokenizing may stop.
pub open spec fn first_stop(
    ext: Seq<char>,
    lines: Seq<Seq<char>>,
    c: Cached,
    bar: int,
    start: int,
    k: int,
) -> int
    decreases lines.len() - k,
{
    if k >= lines.len() || may_stop(ext, lines, c, bar, start, k) {
        k
    } else {
        first_stop(ext, lines, c, bar, start, k + 1)
    }
}

/// The line at which re-tokenizing starts.
pub open spec fn first_line(c: Cached, dirty: int) -> int {
    if dirty < c.starts.len() - 1 {
        dirty
    } else {
        c.starts.len() - 1
    }
}

/// The cache after a refresh for a text whose first changed line is `dirty`, where tokenizing
/// stops before line `end`.
pub open spec fn refreshed(
    ext: Seq<char>,
    lines: Seq<Seq<char>>,
    c: Cached,
    dirty: int,
    end: int,
) -> Cached {
    let n = lines.len() as int;
    let start = first_line(c, dirty);
    let done = retokenized(ext, lines, aligned(c, n, start), start, end);
    Cached {
        starts: if done.starts.len() > n + 1 {
            done.starts.take(n + 1)
        } else {
            done.starts
        },
        spans: if done.spans.len() > n {
            done.spans.take(n)
        } else {
            done.spans
        },
        last_end: if done.last_end > n {
            n
        } else {
            done.last_end
        },
    }
}

/// Whether `b` is `a` after a refresh for a text whose first changed line is `dirty`. Tokenizing
/// stops only where it may, and goes on behind such a line only where the state that is met
/// there holds a capture.
pub open spec fn is_refresh(
    ext: Seq<char>,
    lines: Seq<Seq<char>>,
    a: Cached,
    b: Cached,
    dirty: int,
) -> bool {
    let n = lines.len() as int;
    let start = first_line(a, dirty);
    let end = if start < n {
        b.last_end
    } else {
        n
    };
    &&& start < n ==> start < end
    &&& may_stop(ext, lines, aligned(a, n, start), barrier(a, n, start), start, end)
    &&& passes_only_captures(ext, lines, aligned(a, n, start), barrier(a, n, start), start, end)
    &&& b == refreshed(ext, lines, a, dirty, end)
}

/// Whether every state is that of a bundled grammar.
pub open spec fn all_bundled(starts: Seq<LineStart>) -> bool {
    forall|i: int| 0 <= i < starts.len() ==> is_bundled_state((#[trigger] starts[i]).state)
}

/// Whether a cache has one start per line and one behind the last.
pub open spec fn well_formed(c: Cached) -> bool {
    c.starts.len() == c.spans.len() + 1 && all_bundled(c.starts)
}

fn copy_start(s: &LineStart) -> (r: LineStart)
    ensures
        r == *s,
{
    LineStart { state: copy_state(&s.state), stack: copy_stack(&s.stack) }
}

proof fn lemma_retokenized(ext: Seq<char>, lines: Seq<Seq<char>>, c: Cached, start: int, end: int)
    requires
        0 <= start <= c.spans.len(),
        c.starts.len() == c.spans.len() + 1,
        start <= end <= lines.len(),
    ensures
        ({
            let r = retokenized(ext, lines, c, start, end);
            &&& r.spans.len() == if c.spans.len() > end {
                c.spans.len() as int
            } else {
                end
            }
            &&& r.starts.len() == r.spans.len() + 1
            &&& r.last_end == if start < end {
                end
            } else {
                c.last_end
            }
            &&& forall|j: int| 0 <= j < start ==> #[trigger] r.spans[j] == c.spans[j]
            &&& forall|j: int| 0 <= j <= start ==> #[trigger] r.starts[j] == c.starts[j]
            &&& forall|j: int| end <= j < c.spans.len() ==> #[trigger] r.spans[j] == c.spans[j]
            &&& forall|j: int| end < j < c.starts.len() ==> #[trigger] r.starts[j] == c.starts[j]
            &&& forall|j: int|
                start <= j < end ==> (#[trigger] r.spans[j], r.starts[j + 1]) == tokenized(
                    ext,
                    r.starts[j],
                    lines[j],
                )
        }),
    decreases end - start,
{
    if start < end {
        lemma_retokenized(ext, lines, c, start, end - 1);
        let b = retokenized(ext, lines, c, start, end - 1);
        let r = retokenized(ext, lines, c, start, end);
        assert(r == retold(ext, lines, b, end - 1));
        assert forall|j: int| start <= j < end implies (#[trigger] r.spans[j], r.starts[j + 1])
            == tokenized(ext, r.starts[j], lines[j]) by {
            if j < end - 1 {
                assert(r.spans[j] == b.spans[j]);
                assert(r.starts[j + 1] == b.starts[j + 1]);
                assert(r.starts[j] == b.starts[j]);
            }
        }
    }
}

proof fn lemma_aligned(c: Cached, n: int, start: int)
    requires
        0 <= start <= c.spans.len(),
        c.starts.len() == c.spans.len() + 1,
    ensures
        aligned(c, n, start).starts.len() == aligned(c, n, start).spans.len() + 1,
        start <= aligned(c, n, start).spans.len(),
        c.spans.len() > 0 && start < n ==> aligned(c, n, start).spans.len() == n,
{
}

impl LineCache {
    /// Whether the cache is in order.
    pub closed spec fn wf(&self) -> bool {
        is_bundled(self.set) && well_formed(self@)
    }

    /// The extension that the cache was made for.
    pub closed spec fn extension(&self) -> Seq<char> {
        self.ext@
    }

    /// A fresh cache for a file extension, if there is a grammar for it.
    pub fn new(ext: &str) -> (r: Option<LineCache>)
        ensures
            match r {
                Some(c) => {
                    &&& c.wf()
                    &&& c.extension() == ext@
                    &&& is_fresh(ext@, c@)
                    &&& stack_scopes(c@.starts[0].stack).len() == 0
                },
                None => state_for(ext@) is None,
            },
    {
        let set = load_grammars();
        match syntax_for(&set, ext) {
            Some(state) => {
                proof {
                    reveal_strlit("");
                }
                match parse_stack("") {
                    Some(stack) => {
                        let mut starts: Vec<LineStart> = Vec::new();
                        starts.push(LineStart { state, stack });
                        Some(LineCache { ext: ext.to_owned(), set, starts, spans: Vec::new(), last_end: 0 })
                    },
                    None => None,
                }
            },
            None => None,
        }
    }

    /// Exclusive end of the line range that the last pass re-tokenized.
    pub fn last_changed_end(&self) -> (r: usize)
        ensures
            r == self@.last_end,
    {
        self.last_end
    }

    /// The cached spans of one line, if it has been tokenized.
    pub fn line_spans(&self, line: usize) -> (r: Option<&Vec<(String, Color)>>)
        ensures
            match r {
                Some(v) => line < self@.spans.len() && span_views(v@) == self@.spans[line as int],
                None => line >= self@.spans.len(),
            },
    {
        if line < self.spans.len() {
            Some(&self.spans[line])
        } else {
            None
        }
    }

    /// Number of cached lines. A trailing newline adds no empty line.
    pub fn line_count(&self) -> (r: usize)
        ensures
            r == self@.spans.len(),
    {
        self.spans.len()
    }

    /// The extension that the cache was made for.
    pub fn ext(&self) -> (r: &str)
        ensures
            r@ == self.extension(),
    {
        self.ext.as_str()
    }

    /// The spans of the whole document.
    pub fn flatten(&self) -> (r: Vec<(String, Color)>)
        ensures
            span_views(r@) == flat(self@.spans),
    {
        flatten_rows(&self.spans)
    }

    /// Re-tokenizes `text` from `dirty_line` on and returns the spans of the whole
    /// document. Pass 0 for a fresh document.
    pub fn highlight(&mut self, text: &str, dirty_line: usize) -> (r: Vec<(String, Color)>)
        requires
            old(self).wf(),
        ensures
            final(self).wf(),
            final(self).extension() == old(self).extension(),
            is_refresh(
                old(self).extension(),
                lines_of(text@),
                old(self)@,
                final(self)@,
                dirty_line as int,
            ),
            span_views(r@) == flat(final(self)@.spans),
    {
        let _ = self.refresh(text, dirty_line);
        self.flatten()
    }

    fn tokenize(&self, at: &LineStart, line: &str) -> (r: (Vec<(String, Color)>, LineStart))
        requires
            is_bundled(self.set),
            is_bundled_state(at.state),
        ensures
            (span_views(r.0@), r.1) == tokenized(self.extension(), *at, line@),
            is_bundled_state(r.1.state),
    {
        let mut state = copy_state(&at.state);
        let mut stack = copy_stack(&at.stack);
        let v = chars_of(line);
        let plain: Vec<(String, Color)> = match parse_line(&mut state, line, &self.set) {
            Some(ops) => {
                proof {
                    lemma_walked_len(v@, ops@, 0, 0, at.stack);
                }
                walk_line(&v, &ops, &mut stack)
            },
            None => {
                let mut one: Vec<(String, Color)> = Vec::new();
                one.push((line.to_owned(), Color::Text));
                proof {
                    let got = span_views(one@);
                    assert(got == seq![(line@, Color::Text)]);
                    assert(got.drop_last() == Seq::<Painted>::empty());
                    assert(text_len(got.drop_last()) == 0);
                    assert(text_len(got) == line@.len());
                }
                one
            },
        };
        let n: usize = v.len();
        let e = self.ext.as_str();
        let spans = if same(e, "json") || same(e, "jsonc") || same(e, "mcp") {
            recolor_json_keys(&v, plain)
        } else {
            plain
        };
        (spans, LineStart { state, stack })
    }

    fn align(&mut self, n: usize, start: usize)
        requires
            old(self).wf(),
            start <= old(self)@.spans.len(),
        ensures
            final(self).wf(),
            final(self).extension() == old(self).extension(),
            final(self)@ == aligned(old(self)@, n as int, start as int),
    {
        let ghost c = self@;
        let ghost rows = self.spans@;
        let ghost begun = self.starts@;
        let o: usize = self.spans.len();
        if o == 0 || n == o || start >= n {
            return;
        }
        if n > o {
            let k: usize = n - o;
            let mut j: usize = 0;
            while j < k
                invariant
                    j <= k,
                    start <= rows.len(),
                    self.starts@ == begun,
                    self.ext@ == old(self).ext@,
                    self.set == old(self).set,
                    self.last_end == old(self).last_end,
                    rows == old(self).spans@,
                    self.spans@.len() == rows.len() + j,
                    row_views(self.spans@) == row_views(rows).take(start as int) + Seq::new(
                        j as nat,
                        |i: int| Seq::<Painted>::empty(),
                    ) + row_views(rows).skip(start as int),
                decreases k - j,
            {
                let ghost before = self.spans@;
                self.spans.insert(start, Vec::new());
                assert(span_views(self.spans@[start as int]@) == Seq::<Painted>::empty());
                assert(row_views(self.spans@) == row_views(before).insert(
                    start as int,
                    Seq::<Painted>::empty(),
                ));
                j = j + 1;
            }
            let at: usize = if start + 1 < self.starts.len() {
                start + 1
            } else {
                self.starts.len() - 1
            };
            let fill = copy_start(&self.starts[at]);
            let ghost sp = self.spans@;
            let mut j: usize = 0;
            while j < k
                invariant
                    j <= k,
                    start < n,
                    start + 1 <= begun.len(),
                    self.spans@ == sp,
                    self.ext@ == old(self).ext@,
                    self.set == old(self).set,
                    self.last_end == old(self).last_end,
                    self.starts@ == begun.take(start + 1) + Seq::new(j as nat, |i: int| fill)
                        + begun.skip(start + 1),
                decreases k - j,
            {
                let ghost before = self.starts@;
                let one = copy_start(&fill);
                self.starts.insert(start + 1, one);
                assert(self.starts@ == before.insert(start + 1, fill));
                j = j + 1;
            }
        } else {
            let k: usize = o - n;
            let mut j: usize = 0;
            while j < k
                invariant
                    j <= k,
                    k == o - n,
                    n < o,
                    start < n,
                    o == rows.len(),
                    begun.len() == o + 1,
                    self.ext@ == old(self).ext@,
                    self.set == old(self).set,
                    self.last_end == old(self).last_end,
                    self.spans@ == rows.take(start as int) + rows.skip(start + j),
                    self.starts@ == begun.take(start + 1) + begun.skip(start + 1 + j),
                decreases k - j,
            {
                let ghost before = self.spans@;
                let ghost begun_before = self.starts@;
                let _ = self.spans.remove(start);
                let _ = self.starts.remove(start + 1);
                assert(self.spans@ == before.remove(start as int));
                assert(self.starts@ == begun_before.remove(start + 1));
                j = j + 1;
            }
            assert(row_views(self.spans@) == row_views(rows).take(start as int) + row_views(
                rows,
            ).skip(start + k));
        }
        assert(self@.starts == aligned(c, n as int, start as int).starts);
        assert(self@.spans == aligned(c, n as int, start as int).spans);
    }

    /// Re-tokenizes without flattening; returns the `[start, end)` range of lines that
    /// was re-tokenized.
    #[verifier::rlimit(60)]
    #[verifier::spinoff_prover]
    pub fn refresh(&mut self, text: &str, dirty_line: usize) -> (r: (usize, usize))
        requires
            old(self).wf(),
        ensures
            final(self).wf(),
            final(self).extension() == old(self).extension(),
            is_refresh(
                old(self).extension(),
                lines_of(text@),
                old(self)@,
                final(self)@,
                dirty_line as int,
            ),
            r.0 == first_line(old(self)@, dirty_line as int),
            r.1 == if final(self)@.last_end > r.0 {
                final(self)@.last_end
            } else {
                r.0 as int
            },
    {
        let lines = split_lines(text);
        let ghost lv = lines_of(text@);
        let n: usize = lines.len();
        let ghost c0 = self@;
        let start: usize = if dirty_line < self.starts.len() - 1 {
            dirty_line
        } else {
            self.starts.len() - 1
        };
        let old_count: usize = self.spans.len();
        let bar: usize = if old_count != 0 && n > old_count && start < n {
            start + (n - old_count)
        } else {
            start
        };
        self.align(n, start);
        let ghost ready = self@;
        let aligned_now: bool = self.spans.len() == n;
        let ghost ext = self.extension();
        proof {
            lemma_aligned(c0, n as int, start as int);
        }
        let mut i: usize = start;
        while i < n
            invariant_except_break
                start <= i,
                start <= n ==> i <= n,
                start >= n ==> i == start,
                self@ == retokenized(ext, lv, ready, start as int, i as int),
                passes_only_captures(ext, lv, ready, bar as int, start as int, i as int),
                start < i < n && may_stop(ext, lv, ready, bar as int, start as int, i as int)
                    ==> holds_capture(ready.starts[i as int].state),
            invariant
                n == lines@.len(),
                lv == views(lines@),
                ext == self.extension(),
                self.ext@ == old(self).ext@,
                is_bundled(self.set),
                all_bundled(self.starts@),
                aligned_now == (ready.spans.len() == n),
                start <= ready.spans.len(),
                ready.starts.len() == ready.spans.len() + 1,
                start <= bar,
            ensures
                start < n ==> start < self@.last_end && self@ == retokenized(
                    ext,
                    lv,
                    ready,
                    start as int,
                    self@.last_end,
                ) && may_stop(ext, lv, ready, bar as int, start as int, self@.last_end)
                    && passes_only_captures(
                    ext,
                    lv,
                    ready,
                    bar as int,
                    start as int,
                    self@.last_end,
                ),
                start >= n ==> self@ == ready,
            decreases n - i,
        {
            assert(lv[i as int] == lines@[i as int]@);
            let ghost before = self@;
            let ghost rows = self.spans@;
            proof {
                lemma_retokenized(ext, lv, ready, start as int, i as int);
            }
            let (sp, next) = self.tokenize(&self.starts[i], lines[i].as_str());
            if i < self.spans.len() {
                self.spans.set(i, sp);
                assert(row_views(self.spans@) == row_views(rows).update(i as int, span_views(sp@)));
            } else {
                self.spans.push(sp);
                assert(row_views(self.spans@) == row_views(rows).push(span_views(sp@)));
            }
            self.last_end = i + 1;
            let ghost told = retold(ext, lv, before, i as int);
            assert(told == retokenized(ext, lv, ready, start as int, i + 1));
            if i + 1 < self.starts.len() {
                if aligned_now && i + 1 > bar && same_state(&self.starts[i + 1].state, &next.state)
                    && same_stack(&self.starts[i + 1].stack, &next.stack) {
                    assert(self.starts@ =~= told.starts);
                    break;
                }
                self.starts.set(i + 1, next);
            } else {
                self.starts.push(next);
            }
            assert(self@ == told);
            assert(told.starts[i + 1] == next);
            i = i + 1;
        }
        let ghost done = self@;
        proof {
            if start < n {
                lemma_retokenized(ext, lv, ready, start as int, self@.last_end);
            }
        }
        let ghost rows = self.spans@;
        self.spans.truncate(n);
        if self.starts.len() > n {
            self.starts.truncate(n + 1);
        }
        if self.last_end > n {
            self.last_end = n;
        }
        proof {
            let stop = if start < n {
                done.last_end
            } else {
                n as int
            };
            let want = refreshed(ext, lv, c0, dirty_line as int, stop);
            assert(done == retokenized(ext, lv, ready, start as int, stop));
            if rows.len() > n {
                assert(row_views(self.spans@) =~= row_views(rows).take(n as int));
            }
            assert(self@.spans =~= want.spans);
            assert(self@.starts =~= want.starts);
            assert(self@.last_end == want.last_end);
        }
        let end: usize = if self.last_end > start {
            self.last_end
        } else {
            start
        };
        (start, end)
    }
}

/// Whether a cache is what tokenizing `lines` from its first state gives.
pub open spec fn is_valid(ext: Seq<char>, lines: Seq<Seq<char>>, c: Cached) -> bool {
    &&& c.spans.len() == lines.len()
    &&& c.starts.len() == lines.len() + 1
    &&& forall|i: int|
        0 <= i < lines.len() ==> (#[trigger] c.spans[i], c.starts[i + 1]) == tokenized(
            ext,
            c.starts[i],
            lines[i],
        )
}

/// Whether `new` is `old` with the lines from `start` on edited in one place: what comes
/// before is the same, and so is what follows the edited line, moved by as many lines as
/// came or went.
pub open spec fn is_edit_at(old_lines: Seq<Seq<char>>, new_lines: Seq<Seq<char>>, start: int) -> bool {
    let d = new_lines.len() - old_lines.len();
    &&& 0 <= start <= old_lines.len()
    &&& forall|j: int|
        0 <= j < start && j < new_lines.len() ==> #[trigger] new_lines[j] == old_lines[j]
    &&& forall|j: int|
        start < j < new_lines.len() && start + d < j ==> #[trigger] new_lines[j] == old_lines[j - d]
}

/// A refresh after one edit leaves a cache that is in order for the new text: stopping
/// where the carried state meets the cached one again loses nothing.
pub proof fn law_refresh_is_valid(
    ext: Seq<char>,
    old_lines: Seq<Seq<char>>,
    new_lines: Seq<Seq<char>>,
    c: Cached,
    r: Cached,
    dirty: int,
)
    requires
        0 <= dirty,
        is_valid(ext, old_lines, c),
        is_edit_at(old_lines, new_lines, first_line(c, dirty)),
        is_refresh(ext, new_lines, c, r, dirty),
    ensures
        is_valid(ext, new_lines, r),
        r.starts[0] == c.starts[0],
{
    let n = new_lines.len() as int;
    let o = old_lines.len() as int;
    let d = n - o;
    let start = first_line(c, dirty);
    let ready = aligned(c, n, start);
    let bar = barrier(c, n, start);
    lemma_aligned(c, n, start);
    if start >= n {
        assert(ready == c);
        assert forall|j: int| 0 <= j < n implies (#[trigger] r.spans[j], r.starts[j + 1])
            == tokenized(ext, r.starts[j], new_lines[j]) by {
            assert(r.spans[j] == c.spans[j]);
        }
    } else {
        let end = r.last_end;
        let done = retokenized(ext, new_lines, ready, start, end);
        lemma_retokenized(ext, new_lines, ready, start, end);
        assert forall|j: int| 0 <= j < n implies (#[trigger] r.spans[j], r.starts[j + 1])
            == tokenized(ext, r.starts[j], new_lines[j]) by {
            assert(r.spans[j] == done.spans[j]);
            if j < start {
                assert(ready.spans[j] == c.spans[j]);
                assert(done.starts[j] == ready.starts[j]);
                assert(done.starts[j + 1] == ready.starts[j + 1]);
            } else if j >= end {
                assert(done.starts[end] == ready.starts[end]);
                assert(done.starts[j] == ready.starts[j]);
                assert(done.starts[j + 1] == ready.starts[j + 1]);
                assert(o != 0);
                assert(ready.spans[j] == c.spans[j - d]);
                assert(ready.starts[j] == c.starts[j - d]);
                assert(ready.starts[j + 1] == c.starts[j - d + 1]);
            }
        }
        assert(done.starts[0] == ready.starts[0]);
    }
}

/// A refresh never stops before the first line before which it may, and stops right there where
/// the state that is met holds no capture.
pub proof fn law_refresh_stops_where_it_may(
    ext: Seq<char>,
    lines: Seq<Seq<char>>,
    c: Cached,
    r: Cached,
    dirty: int,
)
    requires
        0 <= dirty,
        well_formed(c),
        is_refresh(ext, lines, c, r, dirty),
        first_line(c, dirty) < lines.len(),
    ensures
        ({
            let n = lines.len() as int;
            let start = first_line(c, dirty);
            let ready = aligned(c, n, start);
            let stop = first_stop(ext, lines, ready, barrier(c, n, start), start, start + 1);
            &&& stop <= r.last_end <= n
            &&& stop < n && !holds_capture(ready.starts[stop].state) ==> r.last_end == stop
        }),
{
    let n = lines.len() as int;
    let start = first_line(c, dirty);
    lemma_first_stop(
        ext,
        lines,
        aligned(c, n, start),
        barrier(c, n, start),
        start,
        start + 1,
        r.last_end,
    );
}

/// An edit of one line that leaves the state behind it as it was re-tokenizes that line alone,
/// unless that state holds a capture.
pub proof fn law_edit_that_keeps_the_state_is_local(
    ext: Seq<char>,
    lines: Seq<Seq<char>>,
    c: Cached,
    r: Cached,
    dirty: int,
)
    requires
        0 <= dirty < lines.len() - 1,
        c.spans.len() == lines.len(),
        well_formed(c),
        is_refresh(ext, lines, c, r, dirty),
        tokenized(ext, c.starts[dirty], lines[dirty]).1 == c.starts[dirty + 1],
        !holds_capture(c.starts[dirty + 1].state),
    ensures
        r.last_end == dirty + 1,
{
    let n = lines.len() as int;
    assert(aligned(c, n, dirty) == c);
    assert(retokenized(ext, lines, c, dirty, dirty) == c);
    assert(retokenized(ext, lines, c, dirty, dirty + 1) == retold(ext, lines, c, dirty));
    assert(may_stop(ext, lines, c, dirty, dirty, dirty + 1));
    law_refresh_stops_where_it_may(ext, lines, c, r, dirty);
}

proof fn lemma_first_stop(
    ext: Seq<char>,
    lines: Seq<Seq<char>>,
    c: Cached,
    bar: int,
    start: int,
    k: int,
    end: int,
)
    requires
        k <= end,
        may_stop(ext, lines, c, bar, start, end),
    ensures
        k <= first_stop(ext, lines, c, bar, start, k) <= end,
        may_stop(ext, lines, c, bar, start, first_stop(ext, lines, c, bar, start, k)),
    decreases lines.len() - k,
{
    if k < lines.len() && !may_stop(ext, lines, c, bar, start, k) {
        lemma_first_stop(ext, lines, c, bar, start, k + 1, end);
    }
}

/// Two caches in order for the same text, from the same first state, hold the same.
pub proof fn law_valid_cache_is_unique(ext: Seq<char>, lines: Seq<Seq<char>>, a: Cached, b: Cached)
    requires
        is_valid(ext, lines, a),
        is_valid(ext, lines, b),
        a.starts[0] == b.starts[0],
    ensures
        a.spans == b.spans,
        a.starts == b.starts,
{
    assert forall|k: int| 0 <= k <= lines.len() implies a.starts[k] == b.starts[k] by {
        lemma_same_starts(ext, lines, a, b, k);
    }
    assert(a.starts == b.starts);
    assert forall|k: int| 0 <= k < lines.len() implies a.spans[k] == b.spans[k] by {
        assert(a.spans[k] == tokenized(ext, a.starts[k], lines[k]).0);
        assert(b.spans[k] == tokenized(ext, b.starts[k], lines[k]).0);
    }
    assert(a.spans == b.spans);
}

proof fn lemma_same_starts(ext: Seq<char>, lines: Seq<Seq<char>>, a: Cached, b: Cached, k: int)
    requires
        is_valid(ext, lines, a),
        is_valid(ext, lines, b),
        a.starts[0] == b.starts[0],
        0 <= k <= lines.len(),
    ensures
        a.starts[k] == b.starts[k],
    decreases k,
{
    if k > 0 {
        lemma_same_starts(ext, lines, a, b, k - 1);
        assert((a.spans[k - 1], a.starts[k]) == tokenized(ext, a.starts[k - 1], lines[k - 1]));
        assert((b.spans[k - 1], b.starts[k]) == tokenized(ext, b.starts[k - 1], lines[k - 1]));
    }
}

/// Highlighting after one edit gives the spans and the states that highlighting the new text
/// afresh gives.
pub proof fn law_incremental_equals_fresh(
    ext: Seq<char>,
    old_lines: Seq<Seq<char>>,
    new_lines: Seq<Seq<char>>,
    c: Cached,
    r: Cached,
    dirty: int,
    fresh: Cached,
    whole: Cached,
)
    requires
        0 <= dirty,
        is_valid(ext, old_lines, c),
        is_edit_at(old_lines, new_lines, first_line(c, dirty)),
        is_refresh(ext, new_lines, c, r, dirty),
        fresh.spans.len() == 0,
        fresh.starts.len() == 1,
        fresh.starts[0] == c.starts[0],
        is_refresh(ext, new_lines, fresh, whole, 0),
    ensures
        r.spans == whole.spans,
        r.starts == whole.starts,
{
    law_refresh_is_valid(ext, old_lines, new_lines, c, r, dirty);
    law_refresh_is_valid(ext, Seq::empty(), new_lines, fresh, whole, 0);
    law_valid_cache_is_unique(ext, new_lines, r, whole);
}

/// After one line of a text was edited, highlighting from that line on gives the spans that a
/// fresh cache gives for the new text.
pub proof fn law_edited_line_equals_fresh(
    ext: Seq<char>,
    old_lines: Seq<Seq<char>>,
    new_lines: Seq<Seq<char>>,
    first: Cached,
    c: Cached,
    r: Cached,
    dirty: int,
    fresh: Cached,
    whole: Cached,
)
    requires
        is_fresh(ext, first),
        is_refresh(ext, old_lines, first, c, 0),
        new_lines.len() == old_lines.len(),
        0 <= dirty < old_lines.len(),
        forall|j: int|
            0 <= j < old_lines.len() && j != dirty ==> #[trigger] new_lines[j] == old_lines[j],
        is_refresh(ext, new_lines, c, r, dirty),
        is_fresh(ext, fresh),
        is_refresh(ext, new_lines, fresh, whole, 0),
    ensures
        flat(r.spans) == flat(whole.spans),
{
    law_refresh_is_valid(ext, Seq::empty(), old_lines, first, c, 0);
    assert(first.starts[0] == fresh.starts[0]);
    law_incremental_equals_fresh(ext, old_lines, new_lines, c, r, dirty, fresh, whole);
}

/// Lines outside the range that a refresh reports kept their cached spans: those before
/// it as they were, those behind it moved by as many lines as came or went.
pub proof fn law_refresh_keeps_other_lines(
    ext: Seq<char>,
    lines: Seq<Seq<char>>,
    c: Cached,
    r: Cached,
    dirty: int,
)
    requires
        0 <= dirty,
        well_formed(c),
        is_refresh(ext, lines, c, r, dirty),
    ensures
        ({
            let start = first_line(c, dirty);
            let kept = aligned(c, lines.len() as int, start).spans;
            &&& r.spans.len() == lines.len()
            &&& forall|j: int|
                0 <= j < start && j < lines.len() ==> #[trigger] r.spans[j] == c.spans[j]
            &&& forall|j: int|
                start <= j < lines.len() && r.last_end <= j ==> j < kept.len()
                    && #[trigger] r.spans[j] == kept[j]
        }),
{
    let n = lines.len() as int;
    let start = first_line(c, dirty);
    let ready = aligned(c, n, start);
    lemma_aligned(c, n, start);
    if start < n {
        lemma_retokenized(ext, lines, ready, start, r.last_end);
    }
    assert forall|j: int| 0 <= j < start && j < n implies #[trigger] r.spans[j] == c.spans[j] by {
        assert(ready.spans[j] == c.spans[j]);
    }
}

/// How far two lists of rows agree, from row `p` on.
pub open spec fn rows_agree_to(a: Seq<Seq<Painted>>, b: Seq<Seq<Painted>>, p: int) -> int
    decreases a.len() - p,
{
    if p < a.len() && p < b.len() && a[p] == b[p] {
        rows_agree_to(a, b, p + 1)
    } else {
        p
    }
}

/// Where the agreeing tails of `a[..ea]` and `b[..eb]` start, not before `start`: the
/// place in `b`.
pub open spec fn rows_agree_from(
    a: Seq<Seq<Painted>>,
    b: Seq<Seq<Painted>>,
    start: int,
    ea: int,
    eb: int,
) -> int
    decreases ea - start,
{
    if ea > start && eb > start && a[ea - 1] == b[eb - 1] {
        rows_agree_from(a, b, start, ea - 1, eb - 1)
    } else {
        eb
    }
}

/// What a tree cache holds.
#[verifier::ext_equal]
pub struct TreeCached {
    pub spans: Seq<Seq<Painted>>,
    pub last_end: int,
}

/// The rows of a text in a language; no rows where there is no highlighting.
pub open spec fn lang_rows(lang: Lang, text: Seq<char>) -> Seq<Seq<Painted>> {
    match lang_steps(lang, text) {
        Some(steps) => step_rows(text, steps),
        None => Seq::empty(),
    }
}

/// Line cache for scripts, by tree-sitter. It parses the whole document each time and
/// reports the smallest range of lines that changed.
pub struct TsCache {
    lang: Lang,
    config: Option<HighlightConfiguration>,
    spans: Vec<Vec<(String, Color)>>,
    last_end: usize,
}

impl View for TsCache {
    type V = TreeCached;

    closed spec fn view(&self) -> TreeCached {
        TreeCached { spans: row_views(self.spans@), last_end: self.last_end as int }
    }
}

impl TsCache {
    /// The language that the cache is for.
    pub closed spec fn language(&self) -> Lang {
        self.lang
    }

    /// Whether the cache is in order.
    pub closed spec fn wf(&self) -> bool {
        match self.config {
            Some(c) => parts_for(self.lang) == Some(config_parts(c)) && config_builds(config_parts(c)),
            None => parts_for(self.lang) is None || !config_builds(parts_for(self.lang)->0),
        }
    }

    /// A fresh cache for a script extension; none for other extensions.
    pub fn new(ext: &str) -> (r: Option<TsCache>)
        ensures
            ({
                let lang = lang_of(lowered_ascii(ext@));
                match r {
                    Some(c) => {
                        &&& lang == Lang::TypeScript || lang == Lang::Tsx
                        &&& c.wf()
                        &&& c.language() == lang
                        &&& c@.spans.len() == 0
                        &&& c@.last_end == 0
                    },
                    None => lang != Lang::TypeScript && lang != Lang::Tsx,
                }
            }),
    {
        let lang = Lang::from_ext(ext);
        if lang == Lang::TypeScript || lang == Lang::Tsx {
            let config = config_for(lang);
            Some(TsCache { lang, config, spans: Vec::new(), last_end: 0 })
        } else {
            None
        }
    }

    /// Highlights `text`; returns the `[start, end)` range of lines that changed.
    pub fn refresh(&mut self, text: &str, _dirty: usize) -> (r: (usize, usize))
        requires
            old(self).wf(),
        ensures
            final(self).wf(),
            final(self).language() == old(self).language(),
            final(self)@.spans == lang_rows(old(self).language(), text@),
            ({
                let a = old(self)@.spans;
                let b = final(self)@.spans;
                let start = rows_agree_to(a, b, 0);
                let end = rows_agree_from(a, b, start, a.len() as int, b.len() as int);
                r.0 == start && r.1 == end && 0 <= start <= end <= b.len()
            }),
            final(self)@.last_end == r.1,
    {
        let rows: Vec<Vec<(String, Color)>> = match &self.config {
            Some(c) => match highlight_with(c, text) {
                Some(rows) => rows,
                None => Vec::new(),
            },
            None => Vec::new(),
        };
        let ghost a = row_views(self.spans@);
        let ghost b = row_views(rows@);
        assert(b == lang_rows(self.lang, text@));
        let mut start: usize = 0;
        while start < self.spans.len() && start < rows.len() && line_eq(&self.spans[start], &rows[start])
            invariant
                start <= self.spans@.len(),
                start <= rows@.len(),
                a == row_views(self.spans@),
                b == row_views(rows@),
                rows_agree_to(a, b, start as int) == rows_agree_to(a, b, 0),
            decreases rows.len() - start,
        {
            start = start + 1;
        }
        let mut eo: usize = self.spans.len();
        let mut en: usize = rows.len();
        while eo > start && en > start && line_eq(&self.spans[eo - 1], &rows[en - 1])
            invariant
                start <= eo <= self.spans@.len(),
                start <= en <= rows@.len(),
                a == row_views(self.spans@),
                b == row_views(rows@),
                rows_agree_from(a, b, start as int, eo as int, en as int) == rows_agree_from(
                    a,
                    b,
                    start as int,
                    a.len() as int,
                    b.len() as int,
                ),
            decreases eo - start,
        {
            eo = eo - 1;
            en = en - 1;
        }
        self.spans = rows;
        self.last_end = en;
        (start, en)
    }

    /// Highlights `text` and returns the spans of the whole document.
    pub fn highlight(&mut self, text: &str, dirty: usize) -> (r: Vec<(String, Color)>)
        requires
            old(self).wf(),
        ensures
            final(self).wf(),
            final(self).language() == old(self).language(),
            final(self)@.spans == lang_rows(old(self).language(), text@),
            ({
                let a = old(self)@.spans;
                let b = final(self)@.spans;
                final(self)@.last_end == rows_agree_from(
                    a,
                    b,
                    rows_agree_to(a, b, 0),
                    a.len() as int,
                    b.len() as int,
                )
            }),
            span_views(r@) == flat(final(self)@.spans),
    {
        let _ = self.refresh(text, dirty);
        self.flatten()
    }

    /// The spans of the whole document.
    pub fn flatten(&self) -> (r: Vec<(String, Color)>)
        ensures
            span_views(r@) == flat(self@.spans),
    {
        flatten_rows(&self.spans)
    }

    /// Number of cached lines.
    pub fn line_count(&self) -> (r: usize)
        ensures
            r == self@.spans.len(),
    {
        self.spans.len()
    }

    /// The cached spans of one line, if there is such a line.
    pub fn line_spans(&self, line: usize) -> (r: Option<&Vec<(String, Color)>>)
        ensures
            match r {
                Some(v) => line < self@.spans.len() && span_views(v@) == self@.spans[line as int],
                None => line >= self@.spans.len(),
            },
    {
        if line < self.spans.len() {
            Some(&self.spans[line])
        } else {
            None
        }
    }

    /// Exclusive end of the range of lines that the last pass changed.
    pub fn last_changed_end(&self) -> (r: usize)
        ensures
            r == self@.last_end,
    {
        self.last_end
    }
}

proof fn lemma_rows_agree_to(a: Seq<Seq<Painted>>, b: Seq<Seq<Painted>>, p: int)
    requires
        0 <= p <= a.len(),
        p <= b.len(),
        forall|j: int| 0 <= j < p ==> a[j] == b[j],
    ensures
        p <= rows_agree_to(a, b, p) <= a.len(),
        rows_agree_to(a, b, p) <= b.len(),
        forall|j: int| 0 <= j < rows_agree_to(a, b, p) ==> a[j] == b[j],
    decreases a.len() - p,
{
    if p < a.len() && p < b.len() && a[p] == b[p] {
        lemma_rows_agree_to(a, b, p + 1);
    }
}

proof fn lemma_rows_agree_from(
    a: Seq<Seq<Painted>>,
    b: Seq<Seq<Painted>>,
    start: int,
    ea: int,
    eb: int,
)
    requires
        0 <= start <= ea <= a.len(),
        start <= eb <= b.len(),
        ea - a.len() == eb - b.len(),
        forall|j: int| eb <= j < b.len() ==> #[trigger] b[j] == a[j - b.len() + a.len()],
    ensures
        start <= rows_agree_from(a, b, start, ea, eb) <= eb,
        forall|j: int|
            rows_agree_from(a, b, start, ea, eb) <= j < b.len() ==> #[trigger] b[j] == a[j - b.len()
                + a.len()],
    decreases ea - start,
{
    if ea > start && eb > start && a[ea - 1] == b[eb - 1] {
        lemma_rows_agree_from(a, b, start, ea - 1, eb - 1);
    }
}

/// Rows outside the range that a tree cache reports did not change: those before it are
/// the old ones, those behind it the old ones counted from the end.
pub proof fn law_tree_range_covers_changes(a: Seq<Seq<Painted>>, b: Seq<Seq<Painted>>)
    ensures
        ({
            let start = rows_agree_to(a, b, 0);
            let end = rows_agree_from(a, b, start, a.len() as int, b.len() as int);
            &&& 0 <= start <= end <= b.len()
            &&& forall|j: int| 0 <= j < start ==> #[trigger] b[j] == a[j]
            &&& forall|j: int| end <= j < b.len() ==> #[trigger] b[j] == a[j - b.len() + a.len()]
        }),
{
    lemma_rows_agree_to(a, b, 0);
    lemma_rows_agree_from(a, b, rows_agree_to(a, b, 0), a.len() as int, b.len() as int);
}

/// Whether `b` is `a` after a refresh that reports the lines `lo..hi`.
pub open spec fn refreshes(
    a: Highlighter,
    b: Highlighter,
    text: Seq<char>,
    dirty: int,
    lo: int,
    hi: int,
) -> bool {
    match (a, b) {
        (Highlighter::Syntect(x), Highlighter::Syntect(y)) => {
            &&& y.extension() == x.extension()
            &&& is_refresh(x.extension(), lines_of(text), x@, y@, dirty)
            &&& lo == first_line(x@, dirty)
            &&& hi == if y@.last_end > lo {
                y@.last_end
            } else {
                lo
            }
        },
        (Highlighter::Tree(x), Highlighter::Tree(y)) => {
            &&& y.language() == x.language()
            &&& y@.spans == lang_rows(x.language(), text)
            &&& lo == rows_agree_to(x@.spans, y@.spans, 0)
            &&& hi == rows_agree_from(
                x@.spans,
                y@.spans,
                lo,
                x@.spans.len() as int,
                y@.spans.len() as int,
            )
            &&& y@.last_end == hi
        },
        _ => false,
    }
}

/// The highlighter of a document: tree-sitter for scripts, a TextMate grammar for
/// everything else. Both give spans per line.
pub enum Highlighter {
    Syntect(LineCache),
    Tree(TsCache),
}

impl Highlighter {
    /// Whether the cache inside is in order.
    pub open spec fn wf(&self) -> bool {
        match self {
            Highlighter::Syntect(c) => c.wf(),
            Highlighter::Tree(c) => c.wf(),
        }
    }

    /// The rows that are cached.
    pub open spec fn rows(&self) -> Seq<Seq<Painted>> {
        match self {
            Highlighter::Syntect(c) => c@.spans,
            Highlighter::Tree(c) => c@.spans,
        }
    }

    /// Exclusive end of the range of lines that the last pass changed.
    pub open spec fn changed_end(&self) -> int {
        match self {
            Highlighter::Syntect(c) => c@.last_end,
            Highlighter::Tree(c) => c@.last_end,
        }
    }

    /// Tree-sitter for script extensions, otherwise the grammar for `ext` if there is
    /// one. `None` is plain text.
    pub fn new(ext: &str) -> (r: Option<Highlighter>)
        ensures
            ({
                let lang = lang_of(lowered_ascii(ext@));
                let script = lang == Lang::TypeScript || lang == Lang::Tsx;
                match r {
                    Some(h) => h.wf() && h.rows().len() == 0 && match h {
                        Highlighter::Syntect(c) => !script && c.extension() == ext@ && is_fresh(
                            ext@,
                            c@,
                        ),
                        Highlighter::Tree(c) => script && c.language() == lang && c@.last_end == 0,
                    },
                    None => !script && state_for(ext@) is None,
                }
            }),
    {
        match TsCache::new(ext) {
            Some(c) => Some(Highlighter::Tree(c)),
            None => match LineCache::new(ext) {
                Some(c) => Some(Highlighter::Syntect(c)),
                None => None,
            },
        }
    }

    /// Re-tokenizes; returns the range of lines that changed.
    pub fn refresh(&mut self, text: &str, dirty: usize) -> (r: (usize, usize))
        requires
            old(self).wf(),
        ensures
            final(self).wf(),
            refreshes(*old(self), *final(self), text@, dirty as int, r.0 as int, r.1 as int),
    {
        match self {
            Highlighter::Syntect(c) => c.refresh(text, dirty),
            Highlighter::Tree(c) => c.refresh(text, dirty),
        }
    }

    /// Re-tokenizes and returns the spans of the whole document.
    pub fn highlight(&mut self, text: &str, dirty: usize) -> (r: Vec<(String, Color)>)
        requires
            old(self).wf(),
        ensures
            final(self).wf(),
            exists|lo: int, hi: int| #[trigger]
                refreshes(*old(self), *final(self), text@, dirty as int, lo, hi),
            span_views(r@) == flat(final(self).rows()),
    {
        let (lo, hi) = self.refresh(text, dirty);
        assert(refreshes(*old(self), *self, text@, dirty as int, lo as int, hi as int));
        self.flatten()
    }

    /// The spans of the whole document.
    pub fn flatten(&self) -> (r: Vec<(String, Color)>)
        ensures
            span_views(r@) == flat(self.rows()),
    {
        match self {
            Highlighter::Syntect(c) => c.flatten(),
            Highlighter::Tree(c) => c.flatten(),
        }
    }

    /// Number of cached lines.
    pub fn line_count(&self) -> (r: usize)
        ensures
            r == self.rows().len(),
    {
        match self {
            Highlighter::Syntect(c) => c.line_count(),
            Highlighter::Tree(c) => c.line_count(),
        }
    }

    /// The cached spans of one line, if there is such a line.
    pub fn line_spans(&self, line: usize) -> (r: Option<&Vec<(String, Color)>>)
        ensures
            match r {
                Some(v) => line < self.rows().len() && span_views(v@) == self.rows()[line as int],
                None => line >= self.rows().len(),
            },
    {
        match self {
            Highlighter::Syntect(c) => c.line_spans(line),
            Highlighter::Tree(c) => c.line_spans(line),
        }
    }

    /// Exclusive end of the range of lines that the last pass changed.
    pub fn last_changed_end(&self) -> (r: usize)
        ensures
            r == self.changed_end(),
    {
        match self {
            Highlighter::Syntect(c) => c.last_changed_end(),
            Highlighter::Tree(c) => c.last_changed_end(),
        }
    }
}

/// Each kind of token that a language server names has its colour.
pub proof fn law_tokens_have_their_colours()
    ensures
        color_of_token("namespace"@) == Some(Color::Type),
        color_of_token("type"@) == Some(Color::Type),
        color_of_token("class"@) == Some(Color::Type),
        color_of_token("enum"@) == Some(Color::Type),
        color_of_token("interface"@) == Some(Color::Type),
        color_of_token("struct"@) == Some(Color::Type),
        color_of_token("typeParameter"@) == Some(Color::Type),
        color_of_token("decorator"@) == Some(Color::Type),
        color_of_token("function"@) == Some(Color::Function),
        color_of_token("method"@) == Some(Color::Function),
        color_of_token("macro"@) == Some(Color::Function),
        color_of_token("parameter"@) == Some(Color::Number),
        color_of_token("variable"@) == Some(Color::Variable),
        color_of_token("property"@) == Some(Color::Variable),
        color_of_token("enumMember"@) == Some(Color::Variable),
        color_of_token("event"@) == Some(Color::Variable),
        color_of_token("keyword"@) == Some(Color::Keyword),
        color_of_token("modifier"@) == Some(Color::Keyword),
        color_of_token("string"@) == Some(Color::Str),
        color_of_token("number"@) == Some(Color::Number),
        color_of_token("comment"@) == Some(Color::Comment),
{
    reveal_strlit("namespace");
    reveal_strlit("type");
    reveal_strlit("class");
    reveal_strlit("enum");
    reveal_strlit("interface");
    reveal_strlit("struct");
    reveal_strlit("typeParameter");
    reveal_strlit("decorator");
    reveal_strlit("function");
    reveal_strlit("method");
    reveal_strlit("macro");
    reveal_strlit("parameter");
    reveal_strlit("variable");
    reveal_strlit("property");
    reveal_strlit("enumMember");
    reveal_strlit("event");
    reveal_strlit("keyword");
    reveal_strlit("modifier");
    reveal_strlit("string");
    reveal_strlit("number");
    reveal_strlit("comment");
    assert("namespace"@.len() == 9);
    assert("type"@.len() == 4);
    assert("class"@.len() == 5);
    assert("enum"@.len() == 4);
    assert("interface"@.len() == 9);
    assert("struct"@.len() == 6);
    assert("typeParameter"@.len() == 13);
    assert("decorator"@.len() == 9);
    assert("function"@.len() == 8);
    assert("method"@.len() == 6);
    assert("macro"@.len() == 5);
    assert("parameter"@.len() == 9);
    assert("variable"@.len() == 8);
    assert("property"@.len() == 8);
    assert("enumMember"@.len() == 10);
    assert("event"@.len() == 5);
    assert("keyword"@.len() == 7);
    assert("modifier"@.len() == 8);
    assert("string"@.len() == 6);
    assert("number"@.len() == 6);
    assert("comment"@.len() == 7);
    assert("namespace"@[0] == 'n' && "interface"@[0] == 'i');
    assert("namespace"@[0] == 'n' && "decorator"@[0] == 'd');
    assert("namespace"@[0] == 'n' && "parameter"@[0] == 'p');
    assert("type"@[0] == 't' && "enum"@[0] == 'e');
    assert("class"@[0] == 'c' && "macro"@[0] == 'm');
    assert("class"@[0] == 'c' && "event"@[0] == 'e');
    assert("interface"@[0] == 'i' && "decorator"@[0] == 'd');
    assert("interface"@[0] == 'i' && "parameter"@[0] == 'p');
    assert("struct"@[0] == 's' && "method"@[0] == 'm');
    assert("struct"@[3] == 'u' && "string"@[3] == 'i');
    assert("struct"@[0] == 's' && "number"@[0] == 'n');
    assert("decorator"@[0] == 'd' && "parameter"@[0] == 'p');
    assert("function"@[0] == 'f' && "variable"@[0] == 'v');
    assert("function"@[0] == 'f' && "property"@[0] == 'p');
    assert("function"@[0] == 'f' && "modifier"@[0] == 'm');
    assert("method"@[0] == 'm' && "string"@[0] == 's');
    assert("method"@[0] == 'm' && "number"@[0] == 'n');
    assert("macro"@[0] == 'm' && "event"@[0] == 'e');
    assert("variable"@[0] == 'v' && "property"@[0] == 'p');
    assert("variable"@[0] == 'v' && "modifier"@[0] == 'm');
    assert("property"@[0] == 'p' && "modifier"@[0] == 'm');
    assert("keyword"@[0] == 'k' && "comment"@[0] == 'c');
    assert("string"@[0] == 's' && "number"@[0] == 'n');
}

/// A token stands where the one before it does, further on by what it says: on a later line counted
/// from its front, on the same line from where the one before starts.
pub proof fn law_tokens_follow_each_other(data: Seq<u32>, k: int)
    requires
        0 <= k,
        5 * k + 4 < data.len(),
    ensures
        data[5 * k] == 0 ==> token_place(data, k + 1) == (
            token_place(data, k).0,
            token_place(data, k).1 + data[5 * k + 1],
        ),
        data[5 * k] > 0 ==> token_place(data, k + 1) == (
            token_place(data, k).0 + data[5 * k],
            data[5 * k + 1] as int,
        ),
        token_place(data, 0) == (0int, 0int),
{
}

/// Every token of a kind that has a colour is painted with it, where it stands and as far as it
/// goes; the others are not.
pub proof fn law_named_tokens_are_painted(data: Seq<u32>, legend: Seq<Seq<char>>, n: int)
    requires
        0 <= n,
        5 * n <= data.len(),
    ensures
        tokens_after(data, legend, n).len() <= n,
        forall|k: int|
            0 <= k < n && 0 <= #[trigger] data[5 * k + 3] < legend.len() && color_of_token(
                legend[data[5 * k + 3] as int],
            ) is Some ==> exists|i: int|
                0 <= i < tokens_after(data, legend, n).len() && #[trigger] tokens_after(
                    data,
                    legend,
                    n,
                )[i] == (
                    token_place(data, k + 1).0,
                    token_place(data, k + 1).1,
                    data[5 * k + 2] as int,
                    color_of_token(legend[data[5 * k + 3] as int])->0,
                ),
    decreases n,
{
    if n > 0 {
        law_named_tokens_are_painted(data, legend, n - 1);
        let before = tokens_after(data, legend, n - 1);
        let all = tokens_after(data, legend, n);
        assert(forall|i: int| 0 <= i < before.len() ==> all[i] == before[i]);
        assert forall|k: int|
            0 <= k < n && 0 <= #[trigger] data[5 * k + 3] < legend.len() && color_of_token(
                legend[data[5 * k + 3] as int],
            ) is Some implies exists|i: int|
            0 <= i < all.len() && #[trigger] all[i] == (
                token_place(data, k + 1).0,
                token_place(data, k + 1).1,
                data[5 * k + 2] as int,
                color_of_token(legend[data[5 * k + 3] as int])->0,
            ) by {
            if k < n - 1 {
                let i = choose|i: int|
                    0 <= i < before.len() && #[trigger] before[i] == (
                        token_place(data, k + 1).0,
                        token_place(data, k + 1).1,
                        data[5 * k + 2] as int,
                        color_of_token(legend[data[5 * k + 3] as int])->0,
                    );
                assert(all[i] == before[i]);
            } else {
                assert(all[all.len() - 1].0 == token_place(data, k + 1).0);
            }
        }
    }
}

/// Comments, texts and the keywords that steer a program are told by how their scope begins.
pub proof fn law_scopes_tell_by_their_front(rest: Seq<char>)
    ensures
        color_of_scope("comment"@ + rest) == Color::Comment,
        color_of_scope("string"@ + rest) == Color::Str,
        color_of_scope("constant.character"@ + rest) == Color::Str,
        color_of_scope("keyword.control"@ + rest) == Color::KeywordControl,
        color_of_scope("storage"@ + rest) == Color::Keyword,
{
    reveal_strlit("comment");
    reveal_strlit("string");
    reveal_strlit("constant.character");
    reveal_strlit("keyword.control");
    reveal_strlit("keyword");
    reveal_strlit("storage");
    lemma_begins("comment"@, rest);
    lemma_begins("string"@, rest);
    lemma_begins("constant.character"@, rest);
    lemma_begins("keyword.control"@, rest);
    lemma_begins("storage"@, rest);
    lemma_other_front("string"@ + rest, "comment"@, 0);
    lemma_other_front("constant.character"@ + rest, "comment"@, 2);
    lemma_other_front("keyword.control"@ + rest, "comment"@, 0);
    lemma_other_front("keyword.control"@ + rest, "string"@, 0);
    lemma_other_front("keyword.control"@ + rest, "constant.character"@, 0);
    lemma_other_front("storage"@ + rest, "comment"@, 0);
    lemma_other_front("storage"@ + rest, "string"@, 2);
    lemma_other_front("storage"@ + rest, "constant.character"@, 0);
    lemma_other_front("storage"@ + rest, "keyword.control"@, 0);
}

proof fn lemma_begins(p: Seq<char>, rest: Seq<char>)
    ensures
        begins(p + rest, p),
{
    assert((p + rest).subrange(0, p.len() as int) =~= p);
}

proof fn lemma_other_front(s: Seq<char>, p: Seq<char>, i: int)
    requires
        0 <= i < s.len(),
        i < p.len(),
        s[i] != p[i],
    ensures
        !begins(s, p),
{
    if begins(s, p) {
        assert(s.subrange(0, p.len() as int)[i] == s[i]);
    }
}

/// A line is painted by the scopes that are open: up to where they change by those before, from
/// there on by those after.
pub proof fn law_lines_are_painted_by_open_scopes(
    line: Seq<char>,
    at: usize,
    op: ScopeStackOp,
    stack: ScopeStack,
    k: int,
)
    requires
        char_from(line, 0, at as int) == Some(k),
        0 < k < line.len(),
    ensures
        walked(line, Seq::empty(), 0, 0, stack) == (
            seq![(line, color_of_scopes(stack_scopes(stack)))],
            stack,
        ),
        walked(line, seq![(at, op)], 0, 0, stack).0 == seq![
            (line.take(k), color_of_scopes(stack_scopes(stack))),
            (line.skip(k), color_of_scopes(stack_scopes(stack_after(stack, op)))),
        ],
        walked(line, seq![(at, op)], 0, 0, stack).1 == stack_after(stack, op),
{
    let none = Seq::<(usize, ScopeStackOp)>::empty();
    assert(line.subrange(0, line.len() as int) =~= line);
    let ops = seq![(at, op)];
    let after = stack_after(stack, op);
    assert(line.subrange(k, line.len() as int) =~= line.skip(k));
    assert(line.subrange(0, k) =~= line.take(k));
    assert(walked(line, ops, 1, k, after).0 =~= seq![
        (line.skip(k), color_of_scopes(stack_scopes(after))),
    ]);
    assert(walked(line, ops, 0, 0, stack).0 =~= seq![
        (line.take(k), color_of_scopes(stack_scopes(stack))),
        (line.skip(k), color_of_scopes(stack_scopes(after))),
    ]);
}

proof fn lemma_text_closes(line: Seq<char>, i: int, q: int)
    requires
        0 <= i <= q < line.len(),
        line[q] == '"',
        forall|j: int| i <= j < q ==> line[j] != '"' && line[j] != '\\',
    ensures
        string_close(line, i) == q,
    decreases q - i,
{
    if i < q {
        assert(line[i] != '"' && line[i] != '\\');
        lemma_text_closes(line, i + 1, q);
    }
}

/// A quoted text before a colon is a key, blanks between them or not; one before anything else is
/// none.
pub proof fn law_texts_before_a_colon_are_keys(name: Seq<char>, c: char, rest: Seq<char>)
    requires
        !name.contains('"'),
        !name.contains('\\'),
        c != ' ' && c != '\t',
    ensures
        ({
            let line = seq!['"'] + name + seq!['"', c] + rest;
            &&& c == ':' ==> key_ranges(line, 0) == seq![(0int, name.len() as int + 2)] + key_ranges(
                line,
                name.len() as int + 2,
            )
            &&& c != ':' ==> key_ranges(line, 0) == key_ranges(line, name.len() as int + 2)
        }),
{
    let line = seq!['"'] + name + seq!['"', c] + rest;
    let q = name.len() as int + 1;
    assert forall|j: int| 1 <= j < q implies line[j] != '"' && line[j] != '\\' by {
        assert(line[j] == name[j - 1]);
        assert(name.contains(name[j - 1]));
    }
    assert(line[q] == '"' && line[q + 1] == c && line[0] == '"');
    lemma_text_closes(line, 1, q);
    assert(past_blanks(line, q + 1) == q + 1);
}

/// A mapping's key is painted as one whatever else it is; otherwise the innermost scope counts, and
/// without any a text is plain.
pub proof fn law_innermost_scope_counts(scopes: Seq<Seq<char>>, i: int)
    ensures
        0 <= i < scopes.len() && (begins(scopes[i], "meta.mapping.key"@) || begins(
            scopes[i],
            "support.type.property-name"@,
        )) ==> color_of_scopes(scopes) == Color::Variable,
        scopes.len() > 0 && (forall|j: int|
            0 <= j < scopes.len() ==> !begins(#[trigger] scopes[j], "meta.mapping.key"@) && !begins(
                scopes[j],
                "support.type.property-name"@,
            )) ==> color_of_scopes(scopes) == color_of_scope(scopes[scopes.len() - 1]),
        scopes.len() == 0 ==> color_of_scopes(scopes) == Color::Text,
{
    if 0 <= i < scopes.len() && (begins(scopes[i], "meta.mapping.key"@) || begins(
        scopes[i],
        "support.type.property-name"@,
    )) {
        assert(is_key_scope(scopes[i]));
    }
}

} // verus!
