//! Markdown for the reading pane: CommonMark with tables, task lists and strikethrough,
//! as a sequence of blocks.
//!
//! A block is a run of styled text, an image or a table. Blocks let images keep room of
//! their own and be drawn where they stand.
use vstd::prelude::*;

use pulldown_cmark::Event;
use pulldown_cmark::Tag;
use pulldown_cmark::TagEnd;

use crate::text::add_bytes;
use crate::text::before_char;
use crate::text::blank;
use crate::text::byte_count;
use crate::text::capped;
use crate::text::chars_of;
use crate::text::cut_before;
use crate::text::decimal;
use crate::text::ends;
use crate::text::ends_with;
use crate::text::is_blank;
use crate::text::is_white;
use crate::text::lowercase;
use crate::text::to_lower;
use crate::text::trim;
use crate::text::trimmed;
use crate::text::views;
use crate::text::white;
use crate::text::write_decimal;

verus! {

/// `pulldown_cmark::Event`: one step of a parsed document.
#[verifier::external_type_specification]
#[verifier::external_body]
pub struct ExEvent<'a>(Event<'a>);

/// What an element is, when it opens. `T` is the type of text.
pub enum Opening<T> {
    Heading(u8),
    CodeBlock,
    Link(T),
    Image(T),
    List(Option<u64>),
    Item,
    BlockQuote,
    Table,
    TableHead,
    TableRow,
    TableCell,
    Strong,
    Emphasis,
    Other,
}

/// What an element is, when it closes.
#[derive(Clone, Copy, PartialEq, Eq, Debug, Structural)]
pub enum Closing {
    Heading,
    CodeBlock,
    Link,
    Image,
    List,
    Item,
    BlockQuote,
    Paragraph,
    Table,
    Strong,
    Emphasis,
    Other,
}

/// What stands between elements. `T` is the type of text.
pub enum Leaf<T> {
    Text(T),
    Code(T),
    SoftBreak,
    HardBreak,
    Rule,
    Task(bool),
}

/// One step of a document. `T` is the type of text.
pub enum Step<T> {
    Open(Opening<T>),
    Close(Closing),
    Inline(Leaf<T>),
    Other,
}

impl View for Opening<String> {
    type V = Opening<Seq<char>>;

    open spec fn view(&self) -> Opening<Seq<char>> {
        match self {
            Opening::Heading(l) => Opening::Heading(*l),
            Opening::CodeBlock => Opening::CodeBlock,
            Opening::Link(t) => Opening::Link(t@),
            Opening::Image(t) => Opening::Image(t@),
            Opening::List(n) => Opening::List(*n),
            Opening::Item => Opening::Item,
            Opening::BlockQuote => Opening::BlockQuote,
            Opening::Table => Opening::Table,
            Opening::TableHead => Opening::TableHead,
            Opening::TableRow => Opening::TableRow,
            Opening::TableCell => Opening::TableCell,
            Opening::Strong => Opening::Strong,
            Opening::Emphasis => Opening::Emphasis,
            Opening::Other => Opening::Other,
        }
    }
}

impl View for Leaf<String> {
    type V = Leaf<Seq<char>>;

    open spec fn view(&self) -> Leaf<Seq<char>> {
        match self {
            Leaf::Text(t) => Leaf::Text(t@),
            Leaf::Code(t) => Leaf::Code(t@),
            Leaf::SoftBreak => Leaf::SoftBreak,
            Leaf::HardBreak => Leaf::HardBreak,
            Leaf::Rule => Leaf::Rule,
            Leaf::Task(done) => Leaf::Task(*done),
        }
    }
}

impl View for Step<String> {
    type V = Step<Seq<char>>;

    open spec fn view(&self) -> Step<Seq<char>> {
        match self {
            Step::Open(t) => Step::Open(t@),
            Step::Close(t) => Step::Close(*t),
            Step::Inline(l) => Step::Inline(l@),
            Step::Other => Step::Other,
        }
    }
}

/// The events of a document under the options for strikethrough, tables and task lists.
pub uninterp spec fn markdown_events(
    src: Seq<char>,
    strikethrough: bool,
    tables: bool,
    tasklists: bool,
) -> Seq<Event<'static>>;

/// What an event opens, if it opens an element.
pub uninterp spec fn event_opens(e: Event<'static>) -> Option<Opening<Seq<char>>>;

/// What an event closes, if it closes an element.
pub uninterp spec fn event_closes(e: Event<'static>) -> Option<Closing>;

/// What an event writes, if it stands between elements.
pub uninterp spec fn event_leaf(e: Event<'static>) -> Option<Leaf<Seq<char>>>;

/// `pulldown_cmark::Parser::new_ext`, run to its end; `Event::into_static` makes the
/// events outlive the source. They rest on the source and the options alone.
#[verifier::external_body]
fn parse_events(src: &str, strikethrough: bool, tables: bool, tasklists: bool) -> (r: Vec<
    Event<'static>,
>)
    ensures
        r@ == markdown_events(src@, strikethrough, tables, tasklists),
{
    let mut options = pulldown_cmark::Options::empty();
    options.set(pulldown_cmark::Options::ENABLE_STRIKETHROUGH, strikethrough);
    options.set(pulldown_cmark::Options::ENABLE_TABLES, tables);
    options.set(pulldown_cmark::Options::ENABLE_TASKLISTS, tasklists);
    pulldown_cmark::Parser::new_ext(src, options).map(|e| e.into_static()).collect()
}

/// Tells the variants of `pulldown_cmark::Tag` inside `Event::Start` apart.
#[verifier::external_body]
fn opening(e: &Event<'static>) -> (r: Option<Opening<String>>)
    ensures
        match r {
            Some(t) => event_opens(*e) == Some(t@),
            None => event_opens(*e) is None,
        },
{
    let Event::Start(t) = e else { return None };
    Some(match t {
        Tag::Heading { level, .. } => Opening::Heading(*level as u8),
        Tag::CodeBlock(_) => Opening::CodeBlock,
        Tag::Link { dest_url, .. } => Opening::Link(dest_url.to_string()),
        Tag::Image { dest_url, .. } => Opening::Image(dest_url.to_string()),
        Tag::List(n) => Opening::List(*n),
        Tag::Item => Opening::Item,
        Tag::BlockQuote(_) => Opening::BlockQuote,
        Tag::Table(_) => Opening::Table,
        Tag::TableHead => Opening::TableHead, Tag::TableRow => Opening::TableRow,
        Tag::TableCell => Opening::TableCell,
        Tag::Strong => Opening::Strong, Tag::Emphasis => Opening::Emphasis, _ => Opening::Other })
}

/// Tells the variants of `pulldown_cmark::TagEnd` inside `Event::End` apart.
#[verifier::external_body]
fn closing(e: &Event<'static>) -> (r: Option<Closing>)
    ensures
        r == event_closes(*e),
{
    let Event::End(t) = e else { return None };
    Some(match t {
        TagEnd::Heading(_) => Closing::Heading,
        TagEnd::CodeBlock => Closing::CodeBlock,
        TagEnd::Link => Closing::Link,
        TagEnd::Image => Closing::Image,
        TagEnd::List(_) => Closing::List,
        TagEnd::Item => Closing::Item,
        TagEnd::BlockQuote(_) => Closing::BlockQuote,
        TagEnd::Paragraph => Closing::Paragraph,
        TagEnd::Table => Closing::Table,
        TagEnd::Strong => Closing::Strong,
        TagEnd::Emphasis => Closing::Emphasis, _ => Closing::Other })
}

/// Tells the other variants of `pulldown_cmark::Event` apart: text, inline code, breaks,
/// rules and task markers.
#[verifier::external_body]
fn leaf(e: &Event<'static>) -> (r: Option<Leaf<String>>)
    ensures
        match r {
            Some(l) => event_leaf(*e) == Some(l@),
            None => event_leaf(*e) is None,
        },
{
    match e {
        Event::Text(t) => Some(Leaf::Text(t.to_string())),
        Event::Code(t) => Some(Leaf::Code(t.to_string())),
        Event::SoftBreak => Some(Leaf::SoftBreak),
        Event::HardBreak => Some(Leaf::HardBreak),
        Event::Rule => Some(Leaf::Rule),
        Event::TaskListMarker(done) => Some(Leaf::Task(*done)),
        _ => None,
    }
}

/// The step that an event is.
pub open spec fn step_of(e: Event<'static>) -> Step<Seq<char>> {
    match event_opens(e) {
        Some(t) => Step::Open(t),
        None => match event_closes(e) {
            Some(t) => Step::Close(t),
            None => match event_leaf(e) {
                Some(l) => Step::Inline(l),
                None => Step::Other,
            },
        },
    }
}

fn step(e: &Event<'static>) -> (r: Step<String>)
    ensures
        r@ == step_of(*e),
{
    match opening(e) {
        Some(t) => Step::Open(t),
        None => match closing(e) {
            Some(t) => Step::Close(t),
            None => match leaf(e) {
                Some(l) => Step::Inline(l),
                None => Step::Other,
            },
        },
    }
}

/// The role of a run of text: its family and colour.
#[derive(Clone, Copy, PartialEq, Eq, Debug, Structural)]
pub enum Face {
    Body,
    Heading,
    Code,
    Link,
    Quote,
    List,
    Rule,
}

/// How a run of text is set.
#[derive(Clone, Copy, PartialEq, Eq, Debug, Structural)]
pub struct Look {
    pub face: Face,
    pub bold: bool,
    pub italic: bool,
}

/// The font metrics of a block.
#[derive(Clone, Copy, PartialEq, Eq, Debug, Structural)]
pub enum Size {
    Body,
    Heading(u8),
}

/// The room behind a block, from least to most: 5, 8, 10 and 22 units at zoom one.
#[derive(Clone, Copy, PartialEq, Eq, Debug, Structural)]
pub enum Gap {
    ListItem,
    HeadBottom,
    Block,
    HeadTop,
}

/// A block of a document.
pub enum Block {
    /// Runs of text; `links` holds byte ranges of the text and where they lead.
    Text { runs: Vec<(String, Look)>, size: Size, links: Vec<(usize, usize, String)>, gap: Gap },
    Image { url: String },
    /// The first row is the header.
    Table { rows: Vec<Vec<String>> },
}

/// What a block holds.
#[verifier::ext_equal]
pub enum BlockView {
    Text {
        runs: Seq<(Seq<char>, Look)>,
        size: Size,
        links: Seq<(usize, usize, Seq<char>)>,
        gap: Gap,
    },
    Image { url: Seq<char> },
    Table { rows: Seq<Seq<Seq<char>>> },
}

/// Runs of text by their characters.
pub open spec fn run_views(v: Seq<(String, Look)>) -> Seq<(Seq<char>, Look)> {
    Seq::new(v.len(), |i: int| (v[i].0@, v[i].1))
}

/// Links by their characters.
pub open spec fn link_views(v: Seq<(usize, usize, String)>) -> Seq<(usize, usize, Seq<char>)> {
    Seq::new(v.len(), |i: int| (v[i].0, v[i].1, v[i].2@))
}

/// Rows of a table by their characters.
pub open spec fn table_views(v: Seq<Vec<String>>) -> Seq<Seq<Seq<char>>> {
    Seq::new(v.len(), |i: int| views(v[i]@))
}

impl View for Block {
    type V = BlockView;

    open spec fn view(&self) -> BlockView {
        match self {
            Block::Text { runs, size, links, gap } => BlockView::Text {
                runs: run_views(runs@),
                size: *size,
                links: link_views(links@),
                gap: *gap,
            },
            Block::Image { url } => BlockView::Image { url: url@ },
            Block::Table { rows } => BlockView::Table { rows: table_views(rows@) },
        }
    }
}

/// Blocks by what they hold.
pub open spec fn block_views(v: Seq<Block>) -> Seq<BlockView> {
    Seq::new(v.len(), |i: int| v[i]@)
}

/// A document being written.
#[verifier::ext_equal]
pub struct Draft {
    pub blocks: Seq<BlockView>,
    pub images: Seq<Seq<char>>,
    pub runs: Seq<(Seq<char>, Look)>,
    pub links: Seq<(usize, usize, Seq<char>)>,
    pub link_open: Option<(usize, Seq<char>)>,
    pub heading: Option<u8>,
    pub code: bool,
    pub link: bool,
    pub quote: bool,
    pub bold: u32,
    pub italic: u32,
    pub lists: Seq<Option<u64>>,
    pub image_depth: u32,
    pub in_table: bool,
    pub rows: Seq<Seq<Seq<char>>>,
}

/// An empty document.
pub open spec fn empty_draft() -> Draft {
    Draft {
        blocks: Seq::empty(),
        images: Seq::empty(),
        runs: Seq::empty(),
        links: Seq::empty(),
        link_open: None,
        heading: None,
        code: false,
        link: false,
        quote: false,
        bold: 0,
        italic: 0,
        lists: Seq::empty(),
        image_depth: 0,
        in_table: false,
        rows: Seq::empty(),
    }
}

/// Body text without emphasis.
pub open spec fn plain() -> Look {
    Look { face: Face::Body, bold: false, italic: false }
}

/// How text is set at this point: the block's role gives the face, emphasis adds weight
/// and slant. Headings are bold, quotes are slanted.
pub open spec fn look_at(d: Draft) -> Look {
    let strong = d.bold > 0;
    let slanted = d.italic > 0;
    if d.heading is Some {
        Look { face: Face::Heading, bold: true, italic: slanted }
    } else if d.code {
        Look { face: Face::Code, bold: strong, italic: slanted }
    } else if d.link {
        Look { face: Face::Link, bold: strong, italic: slanted }
    } else if d.quote {
        Look { face: Face::Quote, bold: strong, italic: true }
    } else {
        Look { face: Face::Body, bold: strong, italic: slanted }
    }
}

/// Whether the runs hold nothing but white space.
pub open spec fn all_blank(runs: Seq<(Seq<char>, Look)>) -> bool {
    forall|i: int| 0 <= i < runs.len() ==> is_blank((#[trigger] runs[i]).0)
}

/// The runs gathered so far become a block, unless they are blank.
pub open spec fn flushed(d: Draft, size: Size, gap: Gap) -> Draft {
    if all_blank(d.runs) {
        Draft { runs: Seq::empty(), links: Seq::empty(), ..d }
    } else {
        Draft {
            blocks: d.blocks.push(BlockView::Text { runs: d.runs, size, links: d.links, gap }),
            runs: Seq::empty(),
            links: Seq::empty(),
            ..d
        }
    }
}

/// A run is added.
pub open spec fn with_run(d: Draft, text: Seq<char>, look: Look) -> Draft {
    Draft { runs: d.runs.push((text, look)), ..d }
}

/// The bytes of the runs gathered so far, at most `usize::MAX`.
pub open spec fn runs_bytes(runs: Seq<(Seq<char>, Look)>) -> usize
    decreases runs.len(),
{
    if runs.len() == 0 {
        0
    } else {
        let before = runs_bytes(runs.drop_last());
        if before == usize::MAX {
            usize::MAX
        } else {
            capped(before + byte_count(runs.last().0))
        }
    }
}

/// The last block, if it is text, gets the room that stands above a heading.
pub open spec fn room_above(d: Draft) -> Draft {
    if d.blocks.len() > 0 {
        match d.blocks.last() {
            BlockView::Text { runs, size, links, gap } => Draft {
                blocks: d.blocks.drop_last().push(
                    BlockView::Text { runs, size, links, gap: Gap::HeadTop },
                ),
                ..d
            },
            _ => d,
        }
    } else {
        d
    }
}

/// One more, up to the largest number.
pub open spec fn one_more(n: u32) -> u32 {
    if n < u32::MAX {
        (n + 1) as u32
    } else {
        n
    }
}

/// One less, down to zero.
pub open spec fn one_less(n: u32) -> u32 {
    if n > 0 {
        (n - 1) as u32
    } else {
        0
    }
}

/// Whether an image leads to an SVG, whatever its query string.
pub open spec fn is_svg(url: Seq<char>) -> bool {
    ends(lowercase(before_char(url, '?')), ".svg"@)
}

/// `n` copies of four blanks.
pub open spec fn indent(n: int) -> Seq<char>
    decreases n,
{
    if n <= 0 {
        Seq::empty()
    } else {
        indent(n - 1) + "    "@
    }
}

/// What stands in front of a list item: its number in an ordered list, else a bullet.
pub open spec fn marker(lists: Seq<Option<u64>>) -> Seq<char> {
    if lists.len() > 0 && lists.last() is Some {
        decimal(lists.last()->0 as nat) + ". "@
    } else {
        "•  "@
    }
}

/// The lists with the number of the innermost one moved on.
pub open spec fn counted(lists: Seq<Option<u64>>) -> Seq<Option<u64>> {
    if lists.len() > 0 && lists.last() is Some {
        let n = lists.last()->0;
        lists.drop_last().push(
            Some(
                if n < u64::MAX {
                    (n + 1) as u64
                } else {
                    n
                },
            ),
        )
    } else {
        lists
    }
}

/// Text is added to the last cell of the last row, if there is one.
pub open spec fn into_cell(rows: Seq<Seq<Seq<char>>>, text: Seq<char>) -> Seq<Seq<Seq<char>>> {
    if rows.len() > 0 && rows.last().len() > 0 {
        rows.drop_last().push(rows.last().drop_last().push(rows.last().last() + text))
    } else {
        rows
    }
}

/// The document after an element opens.
pub open spec fn opened(d: Draft, t: Opening<Seq<char>>) -> Draft {
    match t {
        Opening::Heading(level) => Draft {
            heading: Some(level),
            ..room_above(flushed(d, Size::Body, Gap::HeadTop))
        },
        Opening::CodeBlock => with_run(Draft { code: true, ..d }, "\n"@, plain()),
        Opening::Link(url) => Draft { link: true, link_open: Some((runs_bytes(d.runs), url)), ..d },
        Opening::Image(url) => {
            let inside = Draft { image_depth: one_more(d.image_depth), ..d };
            if url.len() > 0 && !is_svg(url) {
                let f = flushed(inside, Size::Body, Gap::Block);
                Draft {
                    images: f.images.push(url),
                    blocks: f.blocks.push(BlockView::Image { url }),
                    ..f
                }
            } else {
                inside
            }
        },
        Opening::List(start) => Draft { lists: d.lists.push(start), ..d },
        Opening::Item => {
            let text = indent(d.lists.len() - 1) + marker(d.lists);
            with_run(
                Draft { lists: counted(d.lists), ..d },
                text,
                Look { face: Face::List, bold: false, italic: false },
            )
        },
        Opening::BlockQuote => Draft { quote: true, ..d },
        Opening::Table => Draft {
            in_table: true,
            rows: Seq::empty(),
            ..flushed(d, Size::Body, Gap::Block)
        },
        Opening::TableHead | Opening::TableRow => Draft { rows: d.rows.push(Seq::empty()), ..d },
        Opening::TableCell => if d.rows.len() > 0 {
            Draft {
                rows: d.rows.drop_last().push(d.rows.last().push(Seq::empty())),
                ..d
            }
        } else {
            d
        },
        Opening::Strong => Draft { bold: one_more(d.bold), ..d },
        Opening::Emphasis => Draft { italic: one_more(d.italic), ..d },
        Opening::Other => d,
    }
}

/// The document after an element closes.
pub open spec fn closed(d: Draft, t: Closing) -> Draft {
    match t {
        Closing::Heading => Draft {
            heading: None,
            ..flushed(
                d,
                match d.heading {
                    Some(level) => Size::Heading(level),
                    None => Size::Body,
                },
                Gap::HeadBottom,
            )
        },
        Closing::CodeBlock => with_run(Draft { code: false, ..d }, "\n"@, plain()),
        Closing::Link => {
            let end = runs_bytes(d.runs);
            let links = match d.link_open {
                Some((start, url)) => if end > start {
                    d.links.push((start, end, url))
                } else {
                    d.links
                },
                None => d.links,
            };
            Draft { link: false, link_open: None, links, ..d }
        },
        Closing::Image => Draft { image_depth: one_less(d.image_depth), ..d },
        Closing::List => {
            let lists = if d.lists.len() > 0 {
                d.lists.drop_last()
            } else {
                d.lists
            };
            let out = Draft { lists, ..d };
            if lists.len() == 0 {
                with_run(out, "\n"@, plain())
            } else {
                out
            }
        },
        Closing::Item => flushed(d, Size::Body, Gap::ListItem),
        Closing::BlockQuote => with_run(Draft { quote: false, ..d }, "\n"@, plain()),
        Closing::Paragraph => with_run(d, "\n\n"@, plain()),
        Closing::Table => {
            let blocks = if d.rows.len() > 0 {
                d.blocks.push(BlockView::Table { rows: d.rows })
            } else {
                d.blocks
            };
            Draft { in_table: false, blocks, rows: Seq::empty(), ..d }
        },
        Closing::Strong => Draft { bold: one_less(d.bold), ..d },
        Closing::Emphasis => Draft { italic: one_less(d.italic), ..d },
        Closing::Other => d,
    }
}

/// The document after what stands between elements. In a table text goes into the cell;
/// the text inside an image is left out.
pub open spec fn written(d: Draft, l: Leaf<Seq<char>>) -> Draft {
    match l {
        Leaf::Text(t) => if d.in_table {
            Draft { rows: into_cell(d.rows, t), ..d }
        } else if d.image_depth == 0 {
            with_run(d, t, look_at(d))
        } else {
            d
        },
        Leaf::Code(t) => if d.in_table {
            Draft { rows: into_cell(d.rows, t), ..d }
        } else {
            with_run(d, t, Look { face: Face::Code, bold: false, italic: false })
        },
        Leaf::SoftBreak => with_run(d, " "@, plain()),
        Leaf::HardBreak => with_run(d, "\n"@, plain()),
        Leaf::Rule => with_run(
            d,
            "\n────────────────\n\n"@,
            Look { face: Face::Rule, bold: false, italic: false },
        ),
        Leaf::Task(done) => with_run(
            d,
            if done {
                "[x] "@
            } else {
                "[ ] "@
            },
            look_at(d),
        ),
    }
}

/// The document after one step.
pub open spec fn stepped(d: Draft, s: Step<Seq<char>>) -> Draft {
    match s {
        Step::Open(t) => opened(d, t),
        Step::Close(t) => closed(d, t),
        Step::Inline(l) => written(d, l),
        Step::Other => d,
    }
}

/// The document after the first `k` steps.
pub open spec fn draft_after(steps: Seq<Step<Seq<char>>>, k: int) -> Draft
    decreases k,
{
    if k <= 0 {
        empty_draft()
    } else {
        stepped(draft_after(steps, k - 1), steps[k - 1])
    }
}

/// The whole document: what is left over becomes the last block.
pub open spec fn laid_out(steps: Seq<Step<Seq<char>>>) -> Draft {
    flushed(draft_after(steps, steps.len() as int), Size::Body, Gap::Block)
}

struct Writer {
    blocks: Vec<Block>,
    images: Vec<String>,
    runs: Vec<(String, Look)>,
    links: Vec<(usize, usize, String)>,
    link_open: Option<(usize, String)>,
    heading: Option<u8>,
    code: bool,
    link: bool,
    quote: bool,
    bold: u32,
    italic: u32,
    lists: Vec<Option<u64>>,
    image_depth: u32,
    in_table: bool,
    rows: Vec<Vec<String>>,
}

impl View for Writer {
    type V = Draft;

    closed spec fn view(&self) -> Draft {
        Draft {
            blocks: block_views(self.blocks@),
            images: views(self.images@),
            runs: run_views(self.runs@),
            links: link_views(self.links@),
            link_open: match self.link_open {
                Some((n, url)) => Some((n, url@)),
                None => None,
            },
            heading: self.heading,
            code: self.code,
            link: self.link,
            quote: self.quote,
            bold: self.bold,
            italic: self.italic,
            lists: self.lists@,
            image_depth: self.image_depth,
            in_table: self.in_table,
            rows: table_views(self.rows@),
        }
    }
}

impl Writer {
    fn new() -> (r: Writer)
        ensures
            r@ == empty_draft(),
    {
        let r = Writer {
            blocks: Vec::new(),
            images: Vec::new(),
            runs: Vec::new(),
            links: Vec::new(),
            link_open: None,
            heading: None,
            code: false,
            link: false,
            quote: false,
            bold: 0,
            italic: 0,
            lists: Vec::new(),
            image_depth: 0,
            in_table: false,
            rows: Vec::new(),
        };
        assert(r@ =~= empty_draft());
        r
    }

    fn look(&self) -> (r: Look)
        ensures
            r == look_at(self@),
    {
        let strong = self.bold > 0;
        let slanted = self.italic > 0;
        if self.heading.is_some() {
            Look { face: Face::Heading, bold: true, italic: slanted }
        } else if self.code {
            Look { face: Face::Code, bold: strong, italic: slanted }
        } else if self.link {
            Look { face: Face::Link, bold: strong, italic: slanted }
        } else if self.quote {
            Look { face: Face::Quote, bold: strong, italic: true }
        } else {
            Look { face: Face::Body, bold: strong, italic: slanted }
        }
    }

    fn add_run(&mut self, text: String, look: Look)
        ensures
            final(self)@ == with_run(old(self)@, text@, look),
    {
        let ghost before = self.runs@;
        self.runs.push((text, look));
        assert(run_views(self.runs@) == run_views(before).push((text@, look)));
        assert(self@ =~= with_run(old(self)@, text@, look));
    }

    fn blank_runs(&self) -> (r: bool)
        ensures
            r == all_blank(self@.runs),
    {
        let mut i: usize = 0;
        while i < self.runs.len()
            invariant
                i <= self.runs@.len(),
                forall|j: int| 0 <= j < i ==> is_blank((#[trigger] self@.runs[j]).0),
            decreases self.runs.len() - i,
        {
            assert(self@.runs[i as int].0 == self.runs@[i as int].0@);
            if !blank(self.runs[i].0.as_str()) {
                return false;
            }
            i = i + 1;
        }
        true
    }

    fn flush(&mut self, size: Size, gap: Gap)
        ensures
            final(self)@ == flushed(old(self)@, size, gap),
    {
        let blank_all = self.blank_runs();
        let mut runs: Vec<(String, Look)> = Vec::new();
        let mut links: Vec<(usize, usize, String)> = Vec::new();
        std::mem::swap(&mut runs, &mut self.runs);
        std::mem::swap(&mut links, &mut self.links);
        assert(run_views(self.runs@) =~= Seq::<(Seq<char>, Look)>::empty());
        assert(link_views(self.links@) =~= Seq::<(usize, usize, Seq<char>)>::empty());
        if !blank_all {
            let ghost before = self.blocks@;
            let b = Block::Text { runs, size, links, gap };
            self.blocks.push(b);
            assert(block_views(self.blocks@) =~= block_views(before).push(b@));
        }
        assert(self@ =~= flushed(old(self)@, size, gap));
    }

    fn bytes(&self) -> (r: usize)
        ensures
            r == runs_bytes(self@.runs),
    {
        let mut n: usize = 0;
        let mut i: usize = 0;
        while i < self.runs.len()
            invariant
                i <= self.runs@.len(),
                n == runs_bytes(self@.runs.take(i as int)),
            decreases self.runs.len() - i,
        {
            n = add_bytes(n, self.runs[i].0.as_str());
            assert(self@.runs.take(i + 1).drop_last() == self@.runs.take(i as int));
            i = i + 1;
        }
        assert(self@.runs.take(i as int) == self@.runs);
        n
    }

    fn widen_last(&mut self)
        ensures
            final(self)@ == room_above(old(self)@),
    {
        let ghost before = self.blocks@;
        match self.blocks.pop() {
            Some(Block::Text { runs, size, links, gap }) => {
                let b = Block::Text { runs, size, links, gap: Gap::HeadTop };
                self.blocks.push(b);
                assert(block_views(before).last() == before.last()@);
                assert(block_views(self.blocks@) =~= block_views(before).drop_last().push(b@));
            },
            Some(other) => {
                assert(block_views(before).last() == before.last()@);
                self.blocks.push(other);
                assert(self.blocks@ =~= before);
            },
            None => {},
        }
        assert(self@ =~= room_above(old(self)@));
    }

    fn fill_cell(&mut self, text: &str)
        ensures
            final(self)@ == (Draft { rows: into_cell(old(self)@.rows, text@), ..old(self)@ }),
    {
        let ghost before = self.rows@;
        let ghost tv = table_views(self.rows@);
        match self.rows.pop() {
            Some(mut row) => {
                let ghost cells = row@;
                assert(tv.last() == views(cells));
                match row.pop() {
                    Some(mut cell) => {
                        let ghost was = cell@;
                        assert(views(cells).last() == was);
                        cell.append(text);
                        row.push(cell);
                        assert(views(row@) =~= views(cells).drop_last().push(was + text@));
                    },
                    None => {},
                }
                self.rows.push(row);
                assert(table_views(self.rows@) =~= tv.drop_last().push(views(row@)));
                proof {
                    if cells.len() == 0 {
                        assert(views(row@) =~= tv.last());
                        assert(table_views(self.rows@) =~= tv);
                    }
                }
            },
            None => {},
        }
        assert(self@ =~= (Draft { rows: into_cell(old(self)@.rows, text@), ..old(self)@ }));
    }

    fn open(&mut self, t: Opening<String>)
        ensures
            final(self)@ == opened(old(self)@, t@),
    {
        let ghost d = self@;
        match t {
            Opening::Heading(level) => {
                self.flush(Size::Body, Gap::HeadTop);
                self.widen_last();
                self.heading = Some(level);
            },
            Opening::CodeBlock => {
                self.code = true;
                assert(self@ =~= (Draft { code: true, ..d }));
                self.add_run("\n".to_owned(), Look { face: Face::Body, bold: false, italic: false });
            },
            Opening::Link(url) => {
                let at: usize = self.bytes();
                self.link = true;
                self.link_open = Some((at, url));
            },
            Opening::Image(url) => {
                self.image_depth = if self.image_depth < u32::MAX {
                    self.image_depth + 1
                } else {
                    self.image_depth
                };
                assert(self@ =~= (Draft { image_depth: one_more(d.image_depth), ..d }));
                let path = cut_before(url.as_str(), '?');
                let low = to_lower(path.as_str());
                let svg = ends_with(low.as_str(), ".svg");
                if !url.as_str().is_empty() && !svg {
                    self.flush(Size::Body, Gap::Block);
                    let ghost f = self@;
                    let ghost before = self.blocks@;
                    let ghost shown = self.images@;
                    let copy = url.clone();
                    self.images.push(copy);
                    self.blocks.push(Block::Image { url });
                    assert(views(self.images@) =~= views(shown).push(url@));
                    assert(block_views(self.blocks@) =~= block_views(before).push(
                        BlockView::Image { url: url@ },
                    ));
                }
            },
            Opening::List(start) => {
                self.lists.push(start);
            },
            Opening::Item => {
                let mut text = String::new();
                let n: usize = self.lists.len();
                let mut i: usize = 1;
                while i < n
                    invariant
                        n == self.lists@.len(),
                        1 <= i,
                        i <= n || (n == 0 && i == 1),
                        text@ == indent(i - 1),
                        self@ == d,
                    decreases n - i,
                {
                    text.append("    ");
                    i = i + 1;
                }
                assert(indent(0) == Seq::<char>::empty());
                assert(text@ == indent(n - 1));
                let last: Option<u64> = if n > 0 {
                    self.lists[n - 1]
                } else {
                    None
                };
                match last {
                    Some(k) => {
                        let num = write_decimal(k);
                        let ghost lead = text@;
                        text.append(num.as_str());
                        text.append(". ");
                        assert(text@ =~= lead + marker(d.lists));
                        let next: u64 = if k < u64::MAX {
                            k + 1
                        } else {
                            k
                        };
                        self.lists.set(n - 1, Some(next));
                        assert(self.lists@ =~= counted(d.lists));
                    },
                    None => {
                        text.append("•  ");
                    },
                }
                assert(self@ =~= (Draft { lists: counted(d.lists), ..d }));
                self.add_run(text, Look { face: Face::List, bold: false, italic: false });
            },
            Opening::BlockQuote => {
                self.quote = true;
            },
            Opening::Table => {
                self.flush(Size::Body, Gap::Block);
                self.in_table = true;
                self.rows = Vec::new();
                assert(table_views(self.rows@) =~= Seq::<Seq<Seq<char>>>::empty());
            },
            Opening::TableHead | Opening::TableRow => {
                let ghost before = self.rows@;
                self.rows.push(Vec::new());
                assert(views(self.rows@.last()@) =~= Seq::<Seq<char>>::empty());
                assert(table_views(self.rows@) =~= table_views(before).push(Seq::empty()));
            },
            Opening::TableCell => {
                let ghost before = self.rows@;
                match self.rows.pop() {
                    Some(mut row) => {
                        let ghost cells = row@;
                        assert(table_views(before).last() == views(cells));
                        row.push(String::new());
                        assert(views(row@) =~= views(cells).push(Seq::empty()));
                        self.rows.push(row);
                        assert(table_views(self.rows@) =~= table_views(before).drop_last().push(
                            views(row@),
                        ));
                    },
                    None => {},
                }
            },
            Opening::Strong => {
                self.bold = if self.bold < u32::MAX {
                    self.bold + 1
                } else {
                    self.bold
                };
            },
            Opening::Emphasis => {
                self.italic = if self.italic < u32::MAX {
                    self.italic + 1
                } else {
                    self.italic
                };
            },
            Opening::Other => {},
        }
        assert(self@ =~= opened(d, t@));
    }

    #[verifier::rlimit(40)]
    fn close(&mut self, t: Closing)
        ensures
            final(self)@ == closed(old(self)@, t),
    {
        let ghost d = self@;
        let body = Look { face: Face::Body, bold: false, italic: false };
        match t {
            Closing::Heading => {
                let size = match self.heading {
                    Some(level) => Size::Heading(level),
                    None => Size::Body,
                };
                self.flush(size, Gap::HeadBottom);
                self.heading = None;
                assert(self@ =~= closed(d, t));
            },
            Closing::CodeBlock => {
                self.code = false;
                assert(self@ =~= (Draft { code: false, ..d }));
                self.add_run("\n".to_owned(), body);
                assert(self@ =~= closed(d, t));
            },
            Closing::Link => {
                self.link = false;
                let end: usize = self.bytes();
                let open = self.link_open.take();
                if let Some((start, url)) = open {
                    if end > start {
                        let ghost before = self.links@;
                        self.links.push((start, end, url));
                        assert(link_views(self.links@) =~= link_views(before).push((start, end, url@)));
                    }
                }
                assert(self@ =~= closed(d, t));
            },
            Closing::Image => {
                if self.image_depth > 0 {
                    self.image_depth = self.image_depth - 1;
                }
                assert(self@ =~= closed(d, t));
            },
            Closing::List => {
                let _ = self.lists.pop();
                if self.lists.len() == 0 {
                    assert(self@ =~= (Draft { lists: Seq::empty(), ..d }));
                    self.add_run("\n".to_owned(), body);
                }
                assert(self@ =~= closed(d, t));
            },
            Closing::Item => {
                self.flush(Size::Body, Gap::ListItem);
                assert(self@ =~= closed(d, t));
            },
            Closing::BlockQuote => {
                self.quote = false;
                assert(self@ =~= (Draft { quote: false, ..d }));
                self.add_run("\n".to_owned(), body);
                assert(self@ =~= closed(d, t));
            },
            Closing::Paragraph => {
                self.add_run("\n\n".to_owned(), body);
                assert(self@ =~= closed(d, t));
            },
            Closing::Table => {
                self.in_table = false;
                let mut rows: Vec<Vec<String>> = Vec::new();
                std::mem::swap(&mut rows, &mut self.rows);
                assert(table_views(self.rows@) =~= Seq::<Seq<Seq<char>>>::empty());
                if rows.len() > 0 {
                    let ghost before = self.blocks@;
                    let b = Block::Table { rows };
                    self.blocks.push(b);
                    assert(block_views(self.blocks@) =~= block_views(before).push(b@));
                }
                assert(self@ =~= closed(d, t));
            },
            Closing::Strong => {
                if self.bold > 0 {
                    self.bold = self.bold - 1;
                }
                assert(self@ =~= closed(d, t));
            },
            Closing::Emphasis => {
                if self.italic > 0 {
                    self.italic = self.italic - 1;
                }
                assert(self@ =~= closed(d, t));
            },
            Closing::Other => {},
        }
    }

    fn write(&mut self, l: Leaf<String>)
        ensures
            final(self)@ == written(old(self)@, l@),
    {
        let body = Look { face: Face::Body, bold: false, italic: false };
        match l {
            Leaf::Text(t) => {
                if self.in_table {
                    self.fill_cell(t.as_str());
                } else if self.image_depth == 0 {
                    let look = self.look();
                    self.add_run(t, look);
                }
            },
            Leaf::Code(t) => {
                if self.in_table {
                    self.fill_cell(t.as_str());
                } else {
                    self.add_run(t, Look { face: Face::Code, bold: false, italic: false });
                }
            },
            Leaf::SoftBreak => {
                self.add_run(" ".to_owned(), body);
            },
            Leaf::HardBreak => {
                self.add_run("\n".to_owned(), body);
            },
            Leaf::Rule => {
                self.add_run(
                    "\n────────────────\n\n".to_owned(),
                    Look { face: Face::Rule, bold: false, italic: false },
                );
            },
            Leaf::Task(done) => {
                let look = self.look();
                let text = if done {
                    "[x] "
                } else {
                    "[ ] "
                };
                self.add_run(text.to_owned(), look);
            },
        }
    }

    fn take_step(&mut self, s: Step<String>)
        ensures
            final(self)@ == stepped(old(self)@, s@),
    {
        match s {
            Step::Open(t) => self.open(t),
            Step::Close(t) => self.close(t),
            Step::Inline(l) => self.write(l),
            Step::Other => {},
        }
    }
}

/// Steps by their text.
pub open spec fn step_views(v: Seq<Step<String>>) -> Seq<Step<Seq<char>>> {
    Seq::new(v.len(), |i: int| v[i]@)
}

/// Lays the steps of a document out in blocks; returns them with the images they show.
pub fn lay_out(steps: Vec<Step<String>>) -> (r: (Vec<Block>, Vec<String>))
    ensures
        block_views(r.0@) == laid_out(step_views(steps@)).blocks,
        views(r.1@) == laid_out(step_views(steps@)).images,
{
    let ghost sv = step_views(steps@);
    let mut w = Writer::new();
    let mut left = steps;
    let mut flipped: Vec<Step<String>> = Vec::new();
    while left.len() > 0
        invariant
            sv == step_views(steps@),
            flipped@.len() + left@.len() == steps@.len(),
            left@ == steps@.take(left@.len() as int),
            forall|i: int| 0 <= i < flipped@.len() ==> #[trigger] flipped@[i] == steps@[steps@.len() - 1 - i],
        decreases left.len(),
    {
        if let Some(s) = left.pop() {
            flipped.push(s);
        }
    }
    let ghost mut k: int = 0;
    while flipped.len() > 0
        invariant
            sv == step_views(steps@),
            0 <= k <= steps@.len(),
            flipped@.len() == steps@.len() - k,
            forall|i: int| 0 <= i < flipped@.len() ==> #[trigger] flipped@[i] == steps@[steps@.len() - 1 - i],
            w@ == draft_after(sv, k),
        decreases flipped.len(),
    {
        if let Some(s) = flipped.pop() {
            assert(sv[k] == s@);
            w.take_step(s);
            proof {
                k = k + 1;
            }
        }
    }
    w.flush(Size::Body, Gap::Block);
    (w.blocks, w.images)
}

/// The steps of a source.
pub open spec fn steps_of(src: Seq<char>) -> Seq<Step<Seq<char>>> {
    let events = markdown_events(src, true, true, true);
    Seq::new(events.len(), |i: int| step_of(events[i]))
}

/// A rendered document, and what it was rendered from.
pub struct Markdown {
    blocks: Vec<Block>,
    image_urls: Vec<String>,
    last_key: String,
}

impl Markdown {
    /// The blocks of the document.
    pub closed spec fn shown(&self) -> Seq<BlockView> {
        block_views(self.blocks@)
    }

    /// The images of the document.
    pub closed spec fn pictures(&self) -> Seq<Seq<char>> {
        views(self.image_urls@)
    }

    /// The key of the content that is shown.
    pub closed spec fn key(&self) -> Seq<char> {
        self.last_key@
    }

    /// An empty pane.
    pub fn new() -> (r: Markdown)
        ensures
            r.shown() == Seq::<BlockView>::empty(),
            r.pictures() == Seq::<Seq<char>>::empty(),
            r.key() == Seq::<char>::empty(),
    {
        let r = Markdown { blocks: Vec::new(), image_urls: Vec::new(), last_key: String::new() };
        assert(r.shown() =~= Seq::<BlockView>::empty());
        assert(r.pictures() =~= Seq::<Seq<char>>::empty());
        r
    }

    /// Shows `src`, the content named `key`. It is parsed anew only when the key or the
    /// width to wrap at changed.
    pub fn set(&mut self, key: &str, src: &str, same_width: bool)
        ensures
            old(self).key() == key@ && same_width ==> *final(self) == *old(self),
            !(old(self).key() == key@ && same_width) ==> {
                &&& final(self).key() == key@
                &&& final(self).shown() == laid_out(steps_of(src@)).blocks
                &&& final(self).pictures() == laid_out(steps_of(src@)).images
            },
    {
        let k = key.to_owned();
        if self.last_key == k && same_width {
            return;
        }
        let events = parse_events(src, true, true, true);
        let mut steps: Vec<Step<String>> = Vec::new();
        let mut i: usize = 0;
        while i < events.len()
            invariant
                i <= events@.len(),
                events@ == markdown_events(src@, true, true, true),
                step_views(steps@) == steps_of(src@).take(i as int),
            decreases events.len() - i,
        {
            let ghost before = steps@;
            let s = step(&events[i]);
            steps.push(s);
            assert(step_views(steps@) =~= step_views(before).push(s@));
            assert(steps_of(src@).take(i + 1) =~= steps_of(src@).take(i as int).push(
                steps_of(src@)[i as int],
            ));
            i = i + 1;
        }
        assert(steps_of(src@).take(i as int) =~= steps_of(src@));
        let (blocks, images) = lay_out(steps);
        self.blocks = blocks;
        self.image_urls = images;
        self.last_key = k;
    }

    /// All images that the document shows, in order.
    pub fn image_urls(&self) -> (r: &Vec<String>)
        ensures
            views(r@) == self.pictures(),
    {
        &self.image_urls
    }

    /// The blocks of the document, in order.
    pub fn blocks(&self) -> (r: &Vec<Block>)
        ensures
            block_views(r@) == self.shown(),
    {
        &self.blocks
    }
}

/// The images among blocks, in order.
pub open spec fn pictures_in(blocks: Seq<BlockView>) -> Seq<Seq<char>>
    decreases blocks.len(),
{
    if blocks.len() == 0 {
        Seq::empty()
    } else {
        let before = pictures_in(blocks.drop_last());
        match blocks.last() {
            BlockView::Image { url } => before.push(url),
            _ => before,
        }
    }
}

/// Whether links stand inside a text: each begins before it ends, and ends inside.
pub open spec fn links_fit(
    links: Seq<(usize, usize, Seq<char>)>,
    runs: Seq<(Seq<char>, Look)>,
) -> bool {
    forall|i: int|
        0 <= i < links.len() ==> (#[trigger] links[i]).0 < links[i].1 <= runs_bytes(runs)
}

/// Whether a block is sound: text is not blank and its links stand inside it, and a table has a
/// row.
pub open spec fn block_is_sound(b: BlockView) -> bool {
    match b {
        BlockView::Text { runs, links, .. } => !all_blank(runs) && links_fit(links, runs),
        BlockView::Image { url } => url.len() > 0 && !is_svg(url),
        BlockView::Table { rows } => rows.len() > 0,
    }
}

spec fn draft_is_sound(d: Draft) -> bool {
    &&& forall|i: int| 0 <= i < d.blocks.len() ==> block_is_sound(#[trigger] d.blocks[i])
    &&& d.images == pictures_in(d.blocks)
    &&& links_fit(d.links, d.runs)
}

proof fn lemma_bytes_grow(runs: Seq<(Seq<char>, Look)>, text: Seq<char>, look: Look)
    ensures
        runs_bytes(runs.push((text, look))) >= runs_bytes(runs),
{
    lemma_byte_count(text);
    assert(runs.push((text, look)).drop_last() =~= runs);
}

proof fn lemma_byte_count(s: Seq<char>)
    ensures
        byte_count(s) >= 0,
    decreases s.len(),
{
    if s.len() > 0 {
        lemma_byte_count(s.drop_last());
    }
}

proof fn lemma_flush_sound(d: Draft, size: Size, gap: Gap)
    requires
        draft_is_sound(d),
    ensures
        draft_is_sound(flushed(d, size, gap)),
{
    let f = flushed(d, size, gap);
    if !all_blank(d.runs) {
        assert(f.blocks.drop_last() =~= d.blocks);
    }
}

proof fn lemma_run_sound(d: Draft, text: Seq<char>, look: Look)
    requires
        draft_is_sound(d),
    ensures
        draft_is_sound(with_run(d, text, look)),
{
    lemma_bytes_grow(d.runs, text, look);
    let n = with_run(d, text, look);
    assert forall|i: int| 0 <= i < n.links.len() implies (#[trigger] n.links[i]).0 < n.links[i].1
        <= runs_bytes(n.runs) by {
        assert(d.links[i].0 < d.links[i].1 <= runs_bytes(d.runs));
    }
}

proof fn lemma_open_sound(d: Draft, t: Opening<Seq<char>>)
    requires
        draft_is_sound(d),
    ensures
        draft_is_sound(opened(d, t)),
{
    match t {
        Opening::Heading(level) => {
            let f = flushed(d, Size::Body, Gap::HeadTop);
            lemma_flush_sound(d, Size::Body, Gap::HeadTop);
            let n = room_above(f);
            if f.blocks.len() > 0 {
                if let BlockView::Text { runs, size, links, gap } = f.blocks.last() {
                    assert(block_is_sound(f.blocks[f.blocks.len() - 1]));
                    assert(n.blocks.drop_last() =~= f.blocks.drop_last());
                    assert(pictures_in(n.blocks) == pictures_in(f.blocks));
                }
            }
        },
        Opening::CodeBlock => {
            lemma_run_sound(Draft { code: true, ..d }, "\n"@, plain());
        },
        Opening::Image(url) => {
            let inside = Draft { image_depth: one_more(d.image_depth), ..d };
            if url.len() > 0 && !is_svg(url) {
                let f = flushed(inside, Size::Body, Gap::Block);
                lemma_flush_sound(inside, Size::Body, Gap::Block);
                assert(opened(d, t).blocks.drop_last() =~= f.blocks);
            }
        },
        Opening::Item => {
            let text = indent(d.lists.len() - 1) + marker(d.lists);
            lemma_run_sound(
                Draft { lists: counted(d.lists), ..d },
                text,
                Look { face: Face::List, bold: false, italic: false },
            );
        },
        Opening::Table => {
            lemma_flush_sound(d, Size::Body, Gap::Block);
        },
        _ => {},
    }
}

proof fn lemma_close_sound(d: Draft, t: Closing)
    requires
        draft_is_sound(d),
    ensures
        draft_is_sound(closed(d, t)),
{
    match t {
        Closing::Heading => {
            lemma_flush_sound(
                d,
                match d.heading {
                    Some(level) => Size::Heading(level),
                    None => Size::Body,
                },
                Gap::HeadBottom,
            );
        },
        Closing::CodeBlock => {
            lemma_run_sound(Draft { code: false, ..d }, "\n"@, plain());
        },
        Closing::List => {
            let lists = if d.lists.len() > 0 {
                d.lists.drop_last()
            } else {
                d.lists
            };
            lemma_run_sound(Draft { lists, ..d }, "\n"@, plain());
        },
        Closing::Item => {
            lemma_flush_sound(d, Size::Body, Gap::ListItem);
        },
        Closing::BlockQuote => {
            lemma_run_sound(Draft { quote: false, ..d }, "\n"@, plain());
        },
        Closing::Paragraph => {
            lemma_run_sound(d, "\n\n"@, plain());
        },
        Closing::Table => {
            if d.rows.len() > 0 {
                assert(closed(d, t).blocks.drop_last() =~= d.blocks);
            }
        },
        _ => {},
    }
}

proof fn lemma_write_sound(d: Draft, l: Leaf<Seq<char>>)
    requires
        draft_is_sound(d),
    ensures
        draft_is_sound(written(d, l)),
{
    match l {
        Leaf::Text(t) => {
            lemma_run_sound(d, t, look_at(d));
        },
        Leaf::Code(t) => {
            lemma_run_sound(d, t, Look { face: Face::Code, bold: false, italic: false });
        },
        Leaf::SoftBreak => {
            lemma_run_sound(d, " "@, plain());
        },
        Leaf::HardBreak => {
            lemma_run_sound(d, "\n"@, plain());
        },
        Leaf::Rule => {
            lemma_run_sound(
                d,
                "\n────────────────\n\n"@,
                Look { face: Face::Rule, bold: false, italic: false },
            );
        },
        Leaf::Task(done) => {
            lemma_run_sound(
                d,
                if done {
                    "[x] "@
                } else {
                    "[ ] "@
                },
                look_at(d),
            );
        },
    }
}

proof fn lemma_draft_sound(steps: Seq<Step<Seq<char>>>, k: int)
    requires
        k <= steps.len(),
    ensures
        draft_is_sound(draft_after(steps, k)),
    decreases k,
{
    if k > 0 {
        lemma_draft_sound(steps, k - 1);
        let d = draft_after(steps, k - 1);
        match steps[k - 1] {
            Step::Open(t) => lemma_open_sound(d, t),
            Step::Close(t) => lemma_close_sound(d, t),
            Step::Inline(l) => lemma_write_sound(d, l),
            Step::Other => {},
        }
    }
}

/// Whatever a document holds, the images that it lists are those that its blocks show, in
/// order; no block of text is blank, every link stands inside its text, every image has an
/// address that is no SVG, and every table has a row.
pub proof fn law_laid_out_is_sound(steps: Seq<Step<Seq<char>>>)
    ensures
        laid_out(steps).images == pictures_in(laid_out(steps).blocks),
        forall|i: int|
            0 <= i < laid_out(steps).blocks.len() ==> block_is_sound(
                #[trigger] laid_out(steps).blocks[i],
            ),
{
    lemma_draft_sound(steps, steps.len() as int);
    lemma_flush_sound(draft_after(steps, steps.len() as int), Size::Body, Gap::Block);
}

/// The larger of two numbers.
pub open spec fn larger(a: int, b: int) -> int {
    if a >= b {
        a
    } else {
        b
    }
}

/// How many columns the first `n` rows have, at least one.
pub open spec fn column_count(rows: Seq<Seq<Seq<char>>>, n: int) -> int
    decreases n,
{
    if n <= 0 {
        1
    } else {
        larger(column_count(rows, n - 1), rows[n - 1].len() as int)
    }
}

/// The length of the longest word of a text from the `k`-th character on, `run` characters of a
/// word standing before it; words are parted by white space.
pub open spec fn longest_word(s: Seq<char>, k: int, run: int) -> int
    decreases s.len() - k,
{
    if k < 0 || k >= s.len() {
        run
    } else if is_white(s[k]) {
        larger(run, longest_word(s, k + 1, 0))
    } else {
        larger(run + 1, longest_word(s, k + 1, run + 1))
    }
}

/// The text of a cell without the white space around it; empty where the row is short.
pub open spec fn cell_text(row: Seq<Seq<char>>, i: int) -> Seq<char> {
    if 0 <= i < row.len() {
        trimmed(row[i])
    } else {
        Seq::empty()
    }
}

/// The length of the longest cell of a column among the first `n` rows, at least one.
pub open spec fn column_weight(rows: Seq<Seq<Seq<char>>>, i: int, n: int) -> int
    decreases n,
{
    if n <= 0 {
        1
    } else {
        larger(column_weight(rows, i, n - 1), cell_text(rows[n - 1], i).len() as int)
    }
}

/// The length of the longest word of a column among the first `n` rows, at least one.
pub open spec fn column_word(rows: Seq<Seq<Seq<char>>>, i: int, n: int) -> int
    decreases n,
{
    if n <= 0 {
        1
    } else {
        larger(column_word(rows, i, n - 1), longest_word(cell_text(rows[n - 1], i), 0, 0))
    }
}

fn word_length(s: &str) -> (r: usize)
    ensures
        r == longest_word(s@, 0, 0),
{
    let v = chars_of(s);
    let n: usize = v.len();
    let mut best: usize = 0;
    let mut run: usize = 0;
    let mut k: usize = 0;
    while k < n
        invariant
            n == v@.len(),
            v@ == s@,
            run <= k <= n,
            run <= best,
            larger(best as int, longest_word(v@, k as int, run as int)) == longest_word(v@, 0, 0),
        decreases n - k,
    {
        if white(v[k]) {
            run = 0;
        } else {
            run = run + 1;
            if run > best {
                best = run;
            }
        }
        k = k + 1;
    }
    best
}

/// What the columns of a table need: for each, the length of its longest cell and that of its
/// longest word, in characters. The first decides how the width is shared, the second what a
/// column is not made narrower than.
pub fn measure_columns(rows: &Vec<Vec<String>>) -> (r: Vec<(usize, usize)>)
    ensures
        r@.len() == column_count(table_views(rows@), rows@.len() as int),
        forall|i: int|
            0 <= i < r@.len() ==> (#[trigger] r@[i]).0 == column_weight(
                table_views(rows@),
                i,
                rows@.len() as int,
            ) && r@[i].1 == column_word(table_views(rows@), i, rows@.len() as int),
{
    let ghost tv = table_views(rows@);
    let mut columns: usize = 1;
    let mut k: usize = 0;
    while k < rows.len()
        invariant
            k <= rows@.len(),
            tv == table_views(rows@),
            columns == column_count(tv, k as int),
        decreases rows.len() - k,
    {
        assert(tv[k as int].len() == rows@[k as int]@.len());
        if rows[k].len() > columns {
            columns = rows[k].len();
        }
        k = k + 1;
    }
    let mut out: Vec<(usize, usize)> = Vec::new();
    let mut i: usize = 0;
    while i < columns
        invariant
            i <= columns,
            tv == table_views(rows@),
            out@.len() == i,
            forall|c: int|
                0 <= c < i ==> (#[trigger] out@[c]).0 == column_weight(tv, c, tv.len() as int)
                    && out@[c].1 == column_word(tv, c, tv.len() as int),
        decreases columns - i,
    {
        let mut weight: usize = 1;
        let mut word: usize = 1;
        let mut j: usize = 0;
        while j < rows.len()
            invariant
                j <= rows@.len(),
                tv == table_views(rows@),
                weight == column_weight(tv, i as int, j as int),
                word == column_word(tv, i as int, j as int),
            decreases rows.len() - j,
        {
            assert(tv[j as int] == views(rows@[j as int]@));
            if i < rows[j].len() {
                assert(tv[j as int][i as int] == rows@[j as int]@[i as int]@);
                let cell = trim(rows[j][i].as_str());
                let len: usize = chars_of(cell.as_str()).len();
                if len > weight {
                    weight = len;
                }
                let longest: usize = word_length(cell.as_str());
                if longest > word {
                    word = longest;
                }
            } else {
                assert(cell_text(tv[j as int], i as int).len() == 0);
            }
            j = j + 1;
        }
        out.push((weight, word));
        i = i + 1;
    }
    out
}

/// The text of runs, one behind the other.
pub open spec fn runs_text(runs: Seq<(Seq<char>, Look)>) -> Seq<char>
    decreases runs.len(),
{
    if runs.len() == 0 {
        Seq::empty()
    } else {
        runs_text(runs.drop_last()) + runs.last().0
    }
}

/// The text of blocks, one behind the other; images and tables have none.
pub open spec fn blocks_text(blocks: Seq<BlockView>) -> Seq<char>
    decreases blocks.len(),
{
    if blocks.len() == 0 {
        Seq::empty()
    } else {
        blocks_text(blocks.drop_last()) + match blocks.last() {
            BlockView::Text { runs, .. } => runs_text(runs),
            _ => Seq::empty(),
        }
    }
}

/// The characters of a text that are no white space.
pub open spec fn visible(s: Seq<char>) -> Seq<char>
    decreases s.len(),
{
    if s.len() == 0 {
        Seq::empty()
    } else if is_white(s.last()) {
        visible(s.drop_last())
    } else {
        visible(s.drop_last()).push(s.last())
    }
}

/// All text of a document that is being written.
pub open spec fn draft_text(d: Draft) -> Seq<char> {
    blocks_text(d.blocks) + runs_text(d.runs)
}

/// What one step between elements writes outside tables and images: texts as they are, one blank
/// for a soft break, a line feed for a hard one, a box for a task, and a rule of its own.
pub open spec fn piece(s: Step<Seq<char>>) -> Seq<char> {
    match s {
        Step::Inline(Leaf::Text(t)) => t,
        Step::Inline(Leaf::Code(t)) => t,
        Step::Inline(Leaf::SoftBreak) => seq![' '],
        Step::Inline(Leaf::HardBreak) => seq!['\n'],
        Step::Inline(Leaf::Task(true)) => seq!['[', 'x', ']', ' '],
        Step::Inline(Leaf::Task(false)) => seq!['[', ' ', ']', ' '],
        Step::Inline(Leaf::Rule) => "\n────────────────\n\n"@,
        _ => Seq::empty(),
    }
}

/// What the steps from `k` up to `m` write, one behind the other.
pub open spec fn pieces(steps: Seq<Step<Seq<char>>>, k: int, m: int) -> Seq<char>
    decreases m - k,
{
    if m <= k {
        Seq::empty()
    } else {
        pieces(steps, k, m - 1) + piece(steps[m - 1])
    }
}

proof fn lemma_visible_concat(a: Seq<char>, b: Seq<char>)
    ensures
        visible(a + b) == visible(a) + visible(b),
    decreases b.len(),
{
    if b.len() == 0 {
        assert(a + b =~= a);
        assert(visible(a) + visible(b) =~= visible(a));
    } else {
        lemma_visible_concat(a, b.drop_last());
        assert((a + b).drop_last() =~= a + b.drop_last());
        assert(visible(a + b) =~= visible(a) + visible(b));
    }
}

proof fn lemma_visible_blank(s: Seq<char>)
    ensures
        is_blank(s) <==> visible(s).len() == 0,
    decreases s.len(),
{
    if s.len() > 0 {
        lemma_visible_blank(s.drop_last());
        if is_blank(s) {
            assert(is_white(s[s.len() - 1]));
            assert forall|i: int| 0 <= i < s.drop_last().len() implies is_white(
                #[trigger] s.drop_last()[i],
            ) by {
                assert(s[i] == s.drop_last()[i]);
            }
        } else if is_white(s.last()) {
            assert forall|i: int| is_blank(s.drop_last()) && 0 <= i < s.len() implies is_white(
                #[trigger] s[i],
            ) by {
                if i < s.len() - 1 {
                    assert(s.drop_last()[i] == s[i]);
                }
            }
        }
    }
}

proof fn lemma_runs_push(runs: Seq<(Seq<char>, Look)>, text: Seq<char>, look: Look)
    ensures
        runs_text(runs.push((text, look))) == runs_text(runs) + text,
{
    assert(runs.push((text, look)).drop_last() =~= runs);
}

proof fn lemma_runs_blank(runs: Seq<(Seq<char>, Look)>)
    ensures
        all_blank(runs) <==> visible(runs_text(runs)).len() == 0,
    decreases runs.len(),
{
    if runs.len() > 0 {
        lemma_runs_blank(runs.drop_last());
        lemma_visible_concat(runs_text(runs.drop_last()), runs.last().0);
        lemma_visible_blank(runs.last().0);
        if all_blank(runs) {
            assert(is_blank(runs[runs.len() - 1].0));
            assert forall|i: int| 0 <= i < runs.drop_last().len() implies is_blank(
                (#[trigger] runs.drop_last()[i]).0,
            ) by {
                assert(runs[i] == runs.drop_last()[i]);
            }
        } else {
            assert forall|i: int|
                all_blank(runs.drop_last()) && is_blank(runs.last().0) && 0 <= i < runs.len() implies is_blank(
                (#[trigger] runs[i]).0,
            ) by {
                if i < runs.len() - 1 {
                    assert(runs.drop_last()[i] == runs[i]);
                }
            }
        }
    }
}

proof fn lemma_visible_flush(d: Draft, size: Size, gap: Gap)
    ensures
        visible(draft_text(flushed(d, size, gap))) == visible(draft_text(d)),
{
    let f = flushed(d, size, gap);
    lemma_runs_blank(d.runs);
    lemma_visible_concat(blocks_text(d.blocks), runs_text(d.runs));
    lemma_visible_concat(blocks_text(f.blocks), runs_text(f.runs));
    if all_blank(d.runs) {
        assert(visible(runs_text(d.runs)) =~= Seq::<char>::empty());
    } else {
        assert(f.blocks.drop_last() =~= d.blocks);
        assert(blocks_text(f.blocks) == blocks_text(d.blocks) + runs_text(d.runs));
    }
    assert(visible(runs_text(f.runs)) =~= Seq::<char>::empty());
    assert(visible(draft_text(f)) =~= visible(draft_text(d)));
}

proof fn lemma_visible_run(d: Draft, text: Seq<char>, look: Look)
    ensures
        visible(draft_text(with_run(d, text, look))) == visible(draft_text(d)) + visible(text),
{
    lemma_runs_push(d.runs, text, look);
    let b = blocks_text(d.blocks);
    assert(b + (runs_text(d.runs) + text) =~= draft_text(d) + text);
    lemma_visible_concat(draft_text(d), text);
}

proof fn lemma_visible_white(s: Seq<char>)
    requires
        forall|i: int| 0 <= i < s.len() ==> is_white(#[trigger] s[i]),
    ensures
        visible(s) == Seq::<char>::empty(),
{
    lemma_visible_blank(s);
    assert(visible(s) =~= Seq::<char>::empty());
}

proof fn lemma_visible_room(d: Draft)
    ensures
        draft_text(room_above(d)) == draft_text(d),
{
    let r = room_above(d);
    if d.blocks.len() > 0 {
        if let BlockView::Text { runs, size, links, gap } = d.blocks.last() {
            assert(r.blocks.drop_last() =~= d.blocks.drop_last());
        }
    }
}

/// What can be seen of a step: outside tables a text inside no image, code, a task's box and a
/// rule, and what marks a list item; nothing else.
pub open spec fn seen(d: Draft, s: Step<Seq<char>>) -> Seq<char> {
    match s {
        Step::Inline(Leaf::Text(t)) => if d.in_table || d.image_depth > 0 {
            Seq::empty()
        } else {
            visible(t)
        },
        Step::Inline(Leaf::Code(t)) => if d.in_table {
            Seq::empty()
        } else {
            visible(t)
        },
        Step::Inline(Leaf::Task(true)) => seq!['[', 'x', ']'],
        Step::Inline(Leaf::Task(false)) => seq!['[', ']'],
        Step::Inline(Leaf::Rule) => visible("────────────────"@),
        Step::Open(Opening::Item) => if d.lists.len() > 0 && d.lists.last() is Some {
            visible(decimal(d.lists.last()->0 as nat)).push('.')
        } else {
            seq!['•']
        },
        _ => Seq::empty(),
    }
}

proof fn lemma_visible_item(d: Draft)
    ensures
        visible(draft_text(opened(d, Opening::Item))) == visible(draft_text(d)) + seen(
            d,
            Step::Open(Opening::Item),
        ),
{
    let v = visible(draft_text(d));
    let s = Step::<Seq<char>>::Open(Opening::Item);
    let ind = indent(d.lists.len() - 1);
    let mk = marker(d.lists);
    lemma_visible_run(
        Draft { lists: counted(d.lists), ..d },
        ind + mk,
        Look { face: Face::List, bold: false, italic: false },
    );
    lemma_indent(d.lists.len() - 1);
    lemma_visible_concat(ind, mk);
    reveal_strlit("•  ");
    reveal_strlit(". ");
    if d.lists.len() > 0 && d.lists.last() is Some {
        lemma_visible_concat(decimal(d.lists.last()->0 as nat), ". "@);
        assert(". "@.drop_last() =~= seq!['.']);
        assert(seq!['.'].drop_last() =~= Seq::<char>::empty());
        assert(visible(". "@) =~= seq!['.']) by {
            reveal_with_fuel(visible, 3);
        }
    } else {
        assert("•  "@.drop_last() =~= seq!['•', ' ']);
        assert(seq!['•', ' '].drop_last() =~= seq!['•']);
        assert(seq!['•'].drop_last() =~= Seq::<char>::empty());
        assert(visible("•  "@) =~= seq!['•']) by {
            reveal_with_fuel(visible, 4);
        }
    }
    assert(v + visible(ind + mk) =~= v + seen(d, s));
}

proof fn lemma_visible_rule(d: Draft)
    ensures
        visible(draft_text(written(d, Leaf::Rule))) == visible(draft_text(d)) + visible(
            "────────────────"@,
        ),
{
    reveal_strlit("\n");
    reveal_strlit("\n\n");
    lemma_visible_white("\n"@);
    lemma_visible_white("\n\n"@);
    reveal_strlit("\n────────────────\n\n");
    reveal_strlit("────────────────");
    lemma_visible_run(
        d,
        "\n────────────────\n\n"@,
        Look { face: Face::Rule, bold: false, italic: false },
    );
    assert("\n────────────────\n\n"@ =~= "\n"@ + "────────────────"@ + "\n\n"@);
    lemma_visible_concat("\n"@ + "────────────────"@, "\n\n"@);
    lemma_visible_concat("\n"@, "────────────────"@);
    assert(visible("\n────────────────\n\n"@) =~= visible("────────────────"@));
}

proof fn lemma_visible_task(d: Draft, done: bool)
    ensures
        visible(draft_text(written(d, Leaf::Task(done)))) == visible(draft_text(d)) + seen(
            d,
            Step::Inline(Leaf::Task(done)),
        ),
{
    reveal_strlit("[x] ");
    reveal_strlit("[ ] ");
    lemma_visible_run(
        d,
        if done {
            "[x] "@
        } else {
            "[ ] "@
        },
        look_at(d),
    );
    assert("[x] "@ =~= seq!['[', 'x', ']', ' ']);
    assert("[ ] "@ =~= seq!['[', ' ', ']', ' ']);
    let a = seq!['[', 'x', ']', ' '];
    assert(a.drop_last() =~= seq!['[', 'x', ']']);
    assert(seq!['[', 'x', ']'].drop_last() =~= seq!['[', 'x']);
    assert(seq!['[', 'x'].drop_last() =~= seq!['[']);
    assert(seq!['['].drop_last() =~= Seq::<char>::empty());
    let b = seq!['[', ' ', ']', ' '];
    assert(b.drop_last() =~= seq!['[', ' ', ']']);
    assert(seq!['[', ' ', ']'].drop_last() =~= seq!['[', ' ']);
    assert(seq!['[', ' '].drop_last() =~= seq!['[']);
    assert(visible(a) =~= seq!['[', 'x', ']']) by {
        reveal_with_fuel(visible, 5);
    }
    assert(visible(b) =~= seq!['[', ']']) by {
        reveal_with_fuel(visible, 5);
    }
}

/// No character that can be seen is lost, doubled or made up: after each step a document shows
/// what it showed before and then what the step shows.
pub proof fn law_every_step_shows_its_text(d: Draft, s: Step<Seq<char>>)
    ensures
        visible(draft_text(stepped(d, s))) == visible(draft_text(d)) + seen(d, s),
{
    reveal_strlit("\n");
    reveal_strlit("\n\n");
    reveal_strlit(" ");
    lemma_visible_white("\n"@);
    lemma_visible_white("\n\n"@);
    lemma_visible_white(" "@);
    let v = visible(draft_text(d));
    assert(v + Seq::<char>::empty() =~= v);
    match s {
        Step::Open(Opening::Heading(level)) => {
            let f = flushed(d, Size::Body, Gap::HeadTop);
            lemma_visible_flush(d, Size::Body, Gap::HeadTop);
            lemma_visible_room(f);
        },
        Step::Open(Opening::CodeBlock) => lemma_visible_run(Draft { code: true, ..d }, "\n"@, plain()),
        Step::Open(Opening::Image(url)) => {
            let inside = Draft { image_depth: one_more(d.image_depth), ..d };
            let f = flushed(inside, Size::Body, Gap::Block);
            lemma_visible_flush(inside, Size::Body, Gap::Block);
            let b = f.blocks.push(BlockView::Image { url });
            assert(b.drop_last() =~= f.blocks);
            assert(blocks_text(b) =~= blocks_text(f.blocks));
        },
        Step::Open(Opening::Table) => lemma_visible_flush(d, Size::Body, Gap::Block),
        Step::Open(Opening::Item) => lemma_visible_item(d),
        Step::Close(Closing::Heading) => lemma_visible_flush(
            d,
            match d.heading {
                Some(level) => Size::Heading(level),
                None => Size::Body,
            },
            Gap::HeadBottom,
        ),
        Step::Close(Closing::CodeBlock) => lemma_visible_run(Draft { code: false, ..d }, "\n"@, plain()),
        Step::Close(Closing::List) => {
            let lists = if d.lists.len() > 0 {
                d.lists.drop_last()
            } else {
                d.lists
            };
            lemma_visible_run(Draft { lists, ..d }, "\n"@, plain());
        },
        Step::Close(Closing::Item) => lemma_visible_flush(d, Size::Body, Gap::ListItem),
        Step::Close(Closing::BlockQuote) => lemma_visible_run(Draft { quote: false, ..d }, "\n"@, plain()),
        Step::Close(Closing::Paragraph) => lemma_visible_run(d, "\n\n"@, plain()),
        Step::Close(Closing::Table) => {
            if d.rows.len() > 0 {
                let b = d.blocks.push(BlockView::Table { rows: d.rows });
                assert(b.drop_last() =~= d.blocks);
                assert(blocks_text(b) =~= blocks_text(d.blocks));
            }
        },
        Step::Inline(Leaf::Text(t)) => lemma_visible_run(d, t, look_at(d)),
        Step::Inline(Leaf::Code(t)) => lemma_visible_run(
            d,
            t,
            Look { face: Face::Code, bold: false, italic: false },
        ),
        Step::Inline(Leaf::SoftBreak) => lemma_visible_run(d, " "@, plain()),
        Step::Inline(Leaf::HardBreak) => lemma_visible_run(d, "\n"@, plain()),
        Step::Inline(Leaf::Rule) => lemma_visible_rule(d),
        Step::Inline(Leaf::Task(done)) => lemma_visible_task(d, done),
        _ => {},
    }
}

proof fn lemma_indent(n: int)
    ensures
        visible(indent(n)) == Seq::<char>::empty(),
        indent(n).len() == if n > 0 {
            4 * n
        } else {
            0
        },
        forall|i: int| 0 <= i < indent(n).len() ==> #[trigger] indent(n)[i] == ' ',
    decreases n,
{
    if n > 0 {
        lemma_indent(n - 1);
        reveal_strlit("    ");
        lemma_visible_concat(indent(n - 1), "    "@);
        lemma_visible_white("    "@);
        assert(visible(indent(n)) =~= Seq::<char>::empty());
    } else {
        assert(visible(indent(n)) =~= Seq::<char>::empty());
    }
}

/// Whether a text has come into a document: it begins the runs that are being gathered, or those
/// of a block.
spec fn carries(d: Draft, text: Seq<char>) -> bool {
    ||| crate::text::begins(runs_text(d.runs), text)
    ||| exists|i: int| 0 <= i < d.blocks.len() && block_begins(#[trigger] d.blocks[i], text)
}

spec fn block_begins(b: BlockView, text: Seq<char>) -> bool {
    match b {
        BlockView::Text { runs, .. } => crate::text::begins(runs_text(runs), text),
        _ => false,
    }
}

proof fn lemma_carries_run(d: Draft, text: Seq<char>, look: Look, t: Seq<char>)
    requires
        carries(d, t),
    ensures
        carries(with_run(d, text, look), t),
{
    let n = with_run(d, text, look);
    lemma_runs_push(d.runs, text, look);
    if crate::text::begins(runs_text(d.runs), t) {
        assert(runs_text(n.runs).subrange(0, t.len() as int) =~= runs_text(d.runs).subrange(
            0,
            t.len() as int,
        ));
    } else {
        let i = choose|i: int| 0 <= i < d.blocks.len() && block_begins(#[trigger] d.blocks[i], t);
        assert(block_begins(n.blocks[i], t));
    }
}

proof fn lemma_carries_flush(d: Draft, size: Size, gap: Gap, t: Seq<char>)
    requires
        carries(d, t),
        visible(t).len() > 0,
    ensures
        carries(flushed(d, size, gap), t),
        exists|i: int|
            0 <= i < flushed(d, size, gap).blocks.len() && block_begins(
                #[trigger] flushed(d, size, gap).blocks[i],
                t,
            ),
{
    let f = flushed(d, size, gap);
    if exists|i: int| 0 <= i < d.blocks.len() && block_begins(#[trigger] d.blocks[i], t) {
        let i = choose|i: int| 0 <= i < d.blocks.len() && block_begins(#[trigger] d.blocks[i], t);
        assert(block_begins(f.blocks[i], t));
    } else {
        lemma_runs_blank(d.runs);
        let r = runs_text(d.runs);
        lemma_visible_concat(t, r.skip(t.len() as int));
        assert(r =~= t + r.skip(t.len() as int));
        assert(block_begins(f.blocks[f.blocks.len() - 1], t));
    }
}

proof fn lemma_carries_push(d: Draft, b: BlockView, t: Seq<char>)
    requires
        carries(d, t),
    ensures
        carries(Draft { blocks: d.blocks.push(b), ..d }, t),
{
    let n = Draft { blocks: d.blocks.push(b), ..d };
    if !crate::text::begins(runs_text(d.runs), t) {
        let i = choose|i: int| 0 <= i < d.blocks.len() && block_begins(#[trigger] d.blocks[i], t);
        assert(n.blocks[i] == d.blocks[i]);
        assert(block_begins(n.blocks[i], t));
    }
}

proof fn lemma_carries_room(d: Draft, t: Seq<char>)
    requires
        carries(d, t),
    ensures
        carries(room_above(d), t),
{
    let n = room_above(d);
    if !crate::text::begins(runs_text(d.runs), t) {
        let i = choose|i: int| 0 <= i < d.blocks.len() && block_begins(#[trigger] d.blocks[i], t);
        assert(block_begins(n.blocks[i], t));
    }
}

proof fn lemma_carries_on(d: Draft, e: Draft, t: Seq<char>)
    requires
        carries(d, t),
        e.runs == d.runs,
        e.blocks == d.blocks,
    ensures
        carries(e, t),
{
}

proof fn lemma_carries_step(d: Draft, s: Step<Seq<char>>, t: Seq<char>)
    requires
        carries(d, t),
        visible(t).len() > 0,
    ensures
        carries(stepped(d, s), t),
{
    match s {
        Step::Open(Opening::Heading(level)) => {
            lemma_carries_flush(d, Size::Body, Gap::HeadTop, t);
            let f = flushed(d, Size::Body, Gap::HeadTop);
            lemma_carries_room(f, t);
            lemma_carries_on(room_above(f), stepped(d, s), t);
        },
        Step::Open(Opening::CodeBlock) => {
            lemma_carries_on(d, Draft { code: true, ..d }, t);
            lemma_carries_run(Draft { code: true, ..d }, "\n"@, plain(), t);
        },
        Step::Open(Opening::Image(url)) => {
            let inside = Draft { image_depth: one_more(d.image_depth), ..d };
            lemma_carries_on(d, inside, t);
            let f = flushed(inside, Size::Body, Gap::Block);
            lemma_carries_flush(inside, Size::Body, Gap::Block, t);
            lemma_carries_push(f, BlockView::Image { url }, t);
            if url.len() > 0 && !is_svg(url) {
                lemma_carries_on(
                    Draft { blocks: f.blocks.push(BlockView::Image { url }), ..f },
                    stepped(d, s),
                    t,
                );
            }
        },
        Step::Open(Opening::Table) => {
            lemma_carries_flush(d, Size::Body, Gap::Block, t);
            lemma_carries_on(flushed(d, Size::Body, Gap::Block), stepped(d, s), t);
        },
        Step::Open(Opening::Item) => {
            let c = Draft { lists: counted(d.lists), ..d };
            lemma_carries_on(d, c, t);
            lemma_carries_run(
                c,
                indent(d.lists.len() - 1) + marker(d.lists),
                Look { face: Face::List, bold: false, italic: false },
                t,
            );
        },
        Step::Close(Closing::Heading) => {
            let size = match d.heading {
                Some(level) => Size::Heading(level),
                None => Size::Body,
            };
            lemma_carries_flush(d, size, Gap::HeadBottom, t);
            lemma_carries_on(flushed(d, size, Gap::HeadBottom), stepped(d, s), t);
        },
        Step::Close(Closing::CodeBlock) => {
            lemma_carries_on(d, Draft { code: false, ..d }, t);
            lemma_carries_run(Draft { code: false, ..d }, "\n"@, plain(), t);
        },
        Step::Close(Closing::List) => {
            let lists = if d.lists.len() > 0 {
                d.lists.drop_last()
            } else {
                d.lists
            };
            lemma_carries_on(d, Draft { lists, ..d }, t);
            lemma_carries_run(Draft { lists, ..d }, "\n"@, plain(), t);
        },
        Step::Close(Closing::Item) => lemma_carries_flush(d, Size::Body, Gap::ListItem, t),
        Step::Close(Closing::BlockQuote) => {
            lemma_carries_on(d, Draft { quote: false, ..d }, t);
            lemma_carries_run(Draft { quote: false, ..d }, "\n"@, plain(), t);
        },
        Step::Close(Closing::Paragraph) => lemma_carries_run(d, "\n\n"@, plain(), t),
        Step::Close(Closing::Table) => {
            lemma_carries_push(d, BlockView::Table { rows: d.rows }, t);
            if d.rows.len() > 0 {
                lemma_carries_on(
                    Draft { blocks: d.blocks.push(BlockView::Table { rows: d.rows }), ..d },
                    stepped(d, s),
                    t,
                );
            } else {
                lemma_carries_on(d, stepped(d, s), t);
            }
        },
        Step::Inline(Leaf::Text(text)) => {
            lemma_carries_run(d, text, look_at(d), t);
            if d.in_table {
                lemma_carries_on(d, stepped(d, s), t);
            }
        },
        Step::Inline(Leaf::Code(text)) => {
            lemma_carries_run(d, text, Look { face: Face::Code, bold: false, italic: false }, t);
            if d.in_table {
                lemma_carries_on(d, stepped(d, s), t);
            }
        },
        Step::Inline(Leaf::SoftBreak) => lemma_carries_run(d, stepped(d, s).runs.last().0, plain(), t),
        Step::Inline(Leaf::HardBreak) => lemma_carries_run(d, stepped(d, s).runs.last().0, plain(), t),
        Step::Inline(Leaf::Rule) => lemma_carries_run(
            d,
            stepped(d, s).runs.last().0,
            Look { face: Face::Rule, bold: false, italic: false },
            t,
        ),
        Step::Inline(Leaf::Task(done)) => lemma_carries_run(d, stepped(d, s).runs.last().0, look_at(d), t),
        _ => lemma_carries_on(d, stepped(d, s), t),
    }
}

proof fn lemma_carries_all(steps: Seq<Step<Seq<char>>>, k: int, n: int, t: Seq<char>)
    requires
        0 <= k <= n <= steps.len(),
        carries(draft_after(steps, k), t),
        visible(t).len() > 0,
    ensures
        carries(draft_after(steps, n), t),
    decreases n - k,
{
    if k < n {
        lemma_carries_all(steps, k, n - 1, t);
        lemma_carries_step(draft_after(steps, n - 1), steps[n - 1], t);
    }
}

proof fn lemma_pieces(steps: Seq<Step<Seq<char>>>, k: int, m: int)
    requires
        0 <= k <= m <= steps.len(),
        !draft_after(steps, k).in_table,
        draft_after(steps, k).image_depth == 0,
        forall|i: int| k <= i < m ==> (#[trigger] steps[i]) is Inline,
    ensures
        !draft_after(steps, m).in_table,
        draft_after(steps, m).image_depth == 0,
        runs_text(draft_after(steps, m).runs) == runs_text(draft_after(steps, k).runs) + pieces(
            steps,
            k,
            m,
        ),
        draft_after(steps, m).blocks == draft_after(steps, k).blocks,
        draft_after(steps, m).heading == draft_after(steps, k).heading,
        draft_after(steps, m).links == draft_after(steps, k).links,
        draft_after(steps, m).link_open == draft_after(steps, k).link_open,
    decreases m - k,
{
    if k < m {
        lemma_pieces(steps, k, m - 1);
        assert(steps[m - 1] is Inline);
        let d = draft_after(steps, m - 1);
        let s = steps[m - 1];
        let n = stepped(d, s);
        reveal_strlit(" ");
        reveal_strlit("\n");
        reveal_strlit("[x] ");
        reveal_strlit("[ ] ");
        assert(" "@ =~= seq![' ']);
        assert("\n"@ =~= seq!['\n']);
        assert("[x] "@ =~= seq!['[', 'x', ']', ' ']);
        assert("[ ] "@ =~= seq!['[', ' ', ']', ' ']);
        lemma_runs_push(d.runs, n.runs.last().0, n.runs.last().1);
        assert(n.runs == d.runs.push((n.runs.last().0, n.runs.last().1)));
        assert(n.runs.last().0 == piece(s));
        assert(runs_text(draft_after(steps, k).runs) + pieces(steps, k, m - 1) + piece(s) =~= runs_text(
            draft_after(steps, k).runs,
        ) + (pieces(steps, k, m - 1) + piece(s)));
    } else {
        assert(runs_text(draft_after(steps, k).runs) + pieces(steps, k, m) =~= runs_text(
            draft_after(steps, k).runs,
        ));
    }
}

/// What a stretch of texts and breaks writes stands in one block of the document, unbroken: the
/// texts as they are, with exactly one blank where a soft break parts them and a line feed where
/// a hard one does. Left out are stretches that show nothing.
pub proof fn law_texts_stand_as_they_were_written(steps: Seq<Step<Seq<char>>>, k: int, m: int)
    requires
        0 <= k <= m <= steps.len(),
        !draft_after(steps, k).in_table,
        draft_after(steps, k).image_depth == 0,
        forall|i: int| k <= i < m ==> (#[trigger] steps[i]) is Inline,
        visible(pieces(steps, k, m)).len() > 0,
    ensures
        exists|b: int|
            0 <= b < laid_out(steps).blocks.len() && (#[trigger] laid_out(steps).blocks[b] matches BlockView::Text {
                runs,
                ..
            } && crate::text::holds(runs_text(runs), pieces(steps, k, m))),
{
    lemma_pieces(steps, k, m);
    let d = draft_after(steps, m);
    let t = runs_text(d.runs);
    let before = runs_text(draft_after(steps, k).runs);
    let p = pieces(steps, k, m);
    lemma_visible_concat(before, p);
    assert(t.subrange(0, t.len() as int) =~= t);
    assert(carries(d, t));
    let n = steps.len() as int;
    lemma_carries_all(steps, m, n, t);
    let last = draft_after(steps, n);
    lemma_carries_flush(last, Size::Body, Gap::Block, t);
    let f = laid_out(steps);
    let b = choose|b: int| 0 <= b < f.blocks.len() && block_begins(#[trigger] f.blocks[b], t);
    let all = runs_text(f.blocks[b]->runs);
    assert(all.subrange(0, t.len() as int) == t);
    let rest = all.skip(t.len() as int);
    assert(all =~= t + rest);
    assert(t == before + p);
    assert(all.subrange(before.len() as int, before.len() as int + p.len()) =~= p);
    assert(crate::text::occurs_at(all, p, before.len() as int));
    assert(crate::text::holds(all, p));
}

/// A heading stands in a block of its own, in the size of its level and bold, with the room of a
/// heading above and below it; what follows is body text again.
pub proof fn law_headings_stand_alone(d: Draft, level: u8, t: Seq<char>)
    requires
        !d.in_table,
        d.image_depth == 0,
        visible(t).len() > 0,
    ensures
        ({
            let h = stepped(
                stepped(
                    stepped(d, Step::Open(Opening::Heading(level))),
                    Step::Inline(Leaf::Text(t)),
                ),
                Step::Close(Closing::Heading),
            );
            &&& h.blocks.len() > 0
            &&& h.blocks.last() == BlockView::Text {
                runs: seq![
                    (t, Look { face: Face::Heading, bold: true, italic: d.italic > 0 }),
                ],
                size: Size::Heading(level),
                links: Seq::empty(),
                gap: Gap::HeadBottom,
            }
            &&& h.runs.len() == 0
            &&& h.heading is None
            &&& h.blocks.len() > 1 && h.blocks[h.blocks.len() - 2] is Text
                ==> h.blocks[h.blocks.len() - 2]->gap == Gap::HeadTop
        }),
{
    let o = stepped(d, Step::Open(Opening::Heading(level)));
    let w = stepped(o, Step::Inline(Leaf::Text(t)));
    let f = flushed(d, Size::Body, Gap::HeadTop);
    assert(f.runs.len() == 0 && f.links.len() == 0);
    let run = (t, Look { face: Face::Heading, bold: true, italic: d.italic > 0 });
    assert(w.runs =~= seq![run]);
    assert(w.links =~= Seq::empty());
    lemma_visible_blank(t);
    assert(!all_blank(w.runs)) by {
        assert(w.runs[0].0 == t);
    }
}

/// Emphasis changes how the text inside it is set and nothing else, and ends where it closes:
/// strong text is bold, emphasised text is slanted.
pub proof fn law_emphasis_sets_the_text_inside(d: Draft, t: Seq<char>)
    requires
        !d.in_table,
        d.image_depth == 0,
    ensures
        d.bold < u32::MAX ==> ({
            let s = stepped(
                stepped(stepped(d, Step::Open(Opening::Strong)), Step::Inline(Leaf::Text(t))),
                Step::Close(Closing::Strong),
            );
            let p = stepped(d, Step::Inline(Leaf::Text(t)));
            &&& s.runs.last() == (t, Look { bold: true, ..p.runs.last().1 })
            &&& s == Draft { runs: p.runs.drop_last().push(s.runs.last()), ..p }
        }),
        d.italic < u32::MAX ==> ({
            let s = stepped(
                stepped(stepped(d, Step::Open(Opening::Emphasis)), Step::Inline(Leaf::Text(t))),
                Step::Close(Closing::Emphasis),
            );
            let p = stepped(d, Step::Inline(Leaf::Text(t)));
            &&& s.runs.last() == (t, Look { italic: true, ..p.runs.last().1 })
            &&& s == Draft { runs: p.runs.drop_last().push(s.runs.last()), ..p }
        }),
{
    let p = stepped(d, Step::Inline(Leaf::Text(t)));
    assert(p.runs.drop_last() =~= d.runs);
}

/// Plain text is set in the face of the block that it stands in, and bold or slanted only where
/// the text asks for it: a quote is slanted, code and links have a face of their own.
pub proof fn law_texts_have_the_face_of_their_block(d: Draft, t: Seq<char>, url: Seq<char>)
    requires
        !d.in_table,
        d.image_depth == 0,
        d.heading is None,
        !d.code,
        !d.link,
        !d.quote,
        d.bold == 0,
        d.italic == 0,
    ensures
        stepped(d, Step::Inline(Leaf::Text(t))).runs.last() == (
            t,
            Look { face: Face::Body, bold: false, italic: false },
        ),
        stepped(
            stepped(d, Step::Open(Opening::BlockQuote)),
            Step::Inline(Leaf::Text(t)),
        ).runs.last() == (t, Look { face: Face::Quote, bold: false, italic: true }),
        stepped(
            stepped(d, Step::Open(Opening::CodeBlock)),
            Step::Inline(Leaf::Text(t)),
        ).runs.last() == (t, Look { face: Face::Code, bold: false, italic: false }),
        stepped(
            stepped(d, Step::Open(Opening::Link(url))),
            Step::Inline(Leaf::Text(t)),
        ).runs.last() == (t, Look { face: Face::Link, bold: false, italic: false }),
        stepped(d, Step::Inline(Leaf::Code(t))).runs.last() == (
            t,
            Look { face: Face::Code, bold: false, italic: false },
        ),
        ({
            let q = stepped(
                stepped(d, Step::Open(Opening::BlockQuote)),
                Step::Close(Closing::BlockQuote),
            );
            !q.quote && stepped(q, Step::Inline(Leaf::Text(t))).runs.last() == (
                t,
                Look { face: Face::Body, bold: false, italic: false },
            )
        }),
        ({
            let c = stepped(
                stepped(d, Step::Open(Opening::CodeBlock)),
                Step::Close(Closing::CodeBlock),
            );
            !c.code && stepped(c, Step::Inline(Leaf::Text(t))).runs.last() == (
                t,
                Look { face: Face::Body, bold: false, italic: false },
            )
        }),
{
}

proof fn lemma_bytes_add(a: Seq<char>, b: Seq<char>)
    ensures
        crate::text::byte_count(a + b) == crate::text::byte_count(a) + crate::text::byte_count(b),
        b.len() > 0 ==> crate::text::byte_count(b) > 0,
    decreases b.len(),
{
    lemma_byte_count(a);
    lemma_byte_count(b);
    if b.len() == 0 {
        assert(a + b =~= a);
    } else {
        lemma_bytes_add(a, b.drop_last());
        lemma_byte_count(b.drop_last());
        assert((a + b).drop_last() =~= a + b.drop_last());
    }
}

proof fn lemma_runs_bytes(runs: Seq<(Seq<char>, Look)>)
    requires
        crate::text::byte_count(runs_text(runs)) < usize::MAX,
    ensures
        runs_bytes(runs) == crate::text::byte_count(runs_text(runs)),
    decreases runs.len(),
{
    if runs.len() > 0 {
        lemma_bytes_add(runs_text(runs.drop_last()), runs.last().0);
        lemma_byte_count(runs.last().0);
        lemma_runs_bytes(runs.drop_last());
    }
}

/// A link covers exactly the text between its opening and its closing, counted in bytes of the
/// block's text, and leads where it was said to. One without text is left out.
pub proof fn law_links_cover_their_text(d: Draft, url: Seq<char>, t: Seq<char>)
    requires
        !d.in_table,
        d.image_depth == 0,
        crate::text::byte_count(runs_text(d.runs) + t) < usize::MAX,
    ensures
        ({
            let s = stepped(
                stepped(stepped(d, Step::Open(Opening::Link(url))), Step::Inline(Leaf::Text(t))),
                Step::Close(Closing::Link),
            );
            &&& runs_text(s.runs) == runs_text(d.runs) + t
            &&& t.len() == 0 ==> s.links == d.links
            &&& t.len() > 0 ==> s.links.len() == d.links.len() + 1
            &&& t.len() > 0 ==> s.links.drop_last() == d.links
            &&& t.len() > 0 ==> s.links.last().0 == crate::text::byte_count(runs_text(d.runs))
            &&& t.len() > 0 ==> s.links.last().1 == crate::text::byte_count(runs_text(d.runs) + t)
            &&& t.len() > 0 ==> s.links.last().2 == url
            &&& !s.link
            &&& s.link_open is None
        }),
{
    let o = stepped(d, Step::Open(Opening::Link(url)));
    let w = stepped(o, Step::Inline(Leaf::Text(t)));
    lemma_runs_push(d.runs, t, w.runs.last().1);
    assert(w.runs == d.runs.push((t, w.runs.last().1)));
    lemma_bytes_add(runs_text(d.runs), t);
    lemma_byte_count(t);
    lemma_runs_bytes(d.runs);
    lemma_runs_bytes(w.runs);
    let s = stepped(w, Step::Close(Closing::Link));
    if t.len() > 0 {
        assert(s.links.drop_last() =~= d.links);
    }
}

/// The items of a list: those of an ordered one are numbered on from where it starts, those of
/// the others get a bullet, each level stands four blanks further in, and each item is a block.
pub proof fn law_items_are_marked_and_counted(d: Draft, n: u64, t: Seq<char>, start: Option<u64>)
    requires
        !d.in_table,
        d.image_depth == 0,
        n < u64::MAX,
        visible(t).len() > 0,
    ensures
        ({
            let l = stepped(d, Step::Open(Opening::List(Some(n))));
            let first = stepped(l, Step::Open(Opening::Item));
            let i = stepped(
                stepped(first, Step::Inline(Leaf::Text(t))),
                Step::Close(Closing::Item),
            );
            let second = stepped(i, Step::Open(Opening::Item));
            &&& first.runs.last().0 == Seq::new(4 * d.lists.len(), |k: int| ' ') + decimal(
                n as nat,
            ) + seq!['.', ' ']
            &&& second.runs.last().0 == Seq::new(4 * d.lists.len(), |k: int| ' ') + decimal(
                (n + 1) as nat,
            ) + seq!['.', ' ']
            &&& first.runs.last().1.face == Face::List
            &&& i.runs.len() == 0
            &&& i.blocks.len() == d.blocks.len() + 1
            &&& i.blocks.last() is Text
            &&& i.blocks.last()->gap == Gap::ListItem
            &&& i.blocks.last()->size == Size::Body
        }),
        ({
            let b = stepped(
                stepped(d, Step::Open(Opening::List(None))),
                Step::Open(Opening::Item),
            );
            b.runs.last().0 == Seq::new(4 * d.lists.len(), |k: int| ' ') + seq!['•', ' ', ' ']
        }),
        stepped(
            stepped(d, Step::Open(Opening::List(start))),
            Step::Close(Closing::List),
        ).lists == d.lists,
{
    reveal_strlit(". ");
    reveal_strlit("•  ");
    let blanks = Seq::new(4 * d.lists.len(), |k: int| ' ');
    lemma_indent(d.lists.len() as int);
    assert(indent(d.lists.len() as int) =~= blanks);
    let l = stepped(d, Step::Open(Opening::List(Some(n))));
    assert(l.lists.last() == Some(n));
    let first = stepped(l, Step::Open(Opening::Item));
    assert(first.runs.last().0 =~= blanks + decimal(n as nat) + seq!['.', ' ']);
    let w = stepped(first, Step::Inline(Leaf::Text(t)));
    lemma_visible_blank(t);
    assert(!all_blank(w.runs)) by {
        assert(w.runs[w.runs.len() - 1].0 == t);
    }
    let i = stepped(w, Step::Close(Closing::Item));
    assert(i.lists.len() == d.lists.len() + 1);
    assert(i.lists.last() == Some((n + 1) as u64));
    let second = stepped(i, Step::Open(Opening::Item));
    assert(second.runs.last().0 =~= blanks + decimal((n + 1) as nat) + seq!['.', ' ']);
    let o = stepped(d, Step::Open(Opening::List(None)));
    assert(o.lists.last() is None);
    let b = stepped(o, Step::Open(Opening::Item));
    assert(b.runs.last().0 =~= blanks + seq!['•', ' ', ' ']);
    let e = stepped(d, Step::Open(Opening::List(start)));
    assert(e.lists.drop_last() =~= d.lists);
}

/// A table holds the cells of its rows as they were written, texts and code alike, and is a block
/// of its own behind the text before it.
pub proof fn law_tables_hold_their_cells(
    d: Draft,
    a: Seq<char>,
    b: Seq<char>,
    c: Seq<char>,
    more: Seq<char>,
)
    ensures
        ({
            let t = stepped(d, Step::Open(Opening::Table));
            let h = stepped(t, Step::Open(Opening::TableHead));
            let x = stepped(
                stepped(h, Step::Open(Opening::TableCell)),
                Step::Inline(Leaf::Text(a)),
            );
            let y = stepped(
                stepped(x, Step::Open(Opening::TableCell)),
                Step::Inline(Leaf::Code(b)),
            );
            let r = stepped(y, Step::Open(Opening::TableRow));
            let z = stepped(
                stepped(
                    stepped(r, Step::Open(Opening::TableCell)),
                    Step::Inline(Leaf::Text(c)),
                ),
                Step::Inline(Leaf::Text(more)),
            );
            let e = stepped(z, Step::Close(Closing::Table));
            &&& e.blocks.len() > 0
            &&& e.blocks.last() == BlockView::Table { rows: seq![seq![a, b], seq![c + more]] }
            &&& !e.in_table
            &&& e.runs.len() == 0
            &&& e.rows.len() == 0
            &&& visible(draft_text(e)) == visible(draft_text(d))
        }),
{
    let t = stepped(d, Step::Open(Opening::Table));
    let h = stepped(t, Step::Open(Opening::TableHead));
    let none = Seq::<char>::empty();
    assert(h.rows =~= seq![Seq::<Seq<char>>::empty()]);
    let x0 = stepped(h, Step::Open(Opening::TableCell));
    assert(x0.rows =~= seq![seq![none]]) by {
        assert(x0.rows[0] =~= seq![none]);
    }
    let x = stepped(x0, Step::Inline(Leaf::Text(a)));
    assert(none + a =~= a);
    assert(none + b =~= b);
    assert(none + c =~= c);
    assert(x.rows =~= seq![seq![a]]) by {
        assert(x.rows[0] =~= seq![a]);
    }
    let y0 = stepped(x, Step::Open(Opening::TableCell));
    assert(y0.rows =~= seq![seq![a, none]]) by {
        assert(y0.rows[0] =~= seq![a, none]);
    }
    let y = stepped(y0, Step::Inline(Leaf::Code(b)));
    assert(y.rows =~= seq![seq![a, b]]) by {
        assert(y.rows[0] =~= seq![a, b]);
    }
    let r = stepped(y, Step::Open(Opening::TableRow));
    assert(r.rows =~= seq![seq![a, b], Seq::<Seq<char>>::empty()]);
    let z0 = stepped(r, Step::Open(Opening::TableCell));
    assert(z0.rows =~= seq![seq![a, b], seq![none]]) by {
        assert(z0.rows[1] =~= seq![none]);
    }
    let z1 = stepped(z0, Step::Inline(Leaf::Text(c)));
    assert(z1.rows =~= seq![seq![a, b], seq![c]]) by {
        assert(z1.rows[1] =~= seq![c]);
    }
    let z = stepped(z1, Step::Inline(Leaf::Text(more)));
    assert(z.rows =~= seq![seq![a, b], seq![c + more]]) by {
        assert(z.rows[1] =~= seq![c + more]);
    }
    let e = stepped(z, Step::Close(Closing::Table));
    lemma_visible_flush(d, Size::Body, Gap::Block);
    assert(e.blocks.drop_last() =~= t.blocks);
    assert(blocks_text(e.blocks) =~= blocks_text(t.blocks));
    assert(e.runs == t.runs);
}

/// An image stands in a block of its own between the texts around it, without its alternative
/// text; one that leads nowhere, or to an SVG, is left out.
pub proof fn law_images_stand_alone(d: Draft, url: Seq<char>, t: Seq<char>)
    requires
        !d.in_table,
        d.image_depth == 0,
    ensures
        ({
            let o = stepped(d, Step::Open(Opening::Image(url)));
            let e = stepped(
                stepped(o, Step::Inline(Leaf::Text(t))),
                Step::Close(Closing::Image),
            );
            let shown = url.len() > 0 && !crate::text::ends(
                lowercase(crate::text::before_char(url, '?')),
                seq!['.', 's', 'v', 'g'],
            );
            &&& shown ==> e.blocks.len() > 0 && e.blocks.last() == BlockView::Image { url }
            &&& shown ==> e.images == d.images.push(url) && e.runs.len() == 0
            &&& shown ==> visible(draft_text(e)) == visible(draft_text(d))
            &&& !shown ==> e == d
        }),
{
    reveal_strlit(".svg");
    assert(".svg"@ =~= seq!['.', 's', 'v', 'g']);
    let o = stepped(d, Step::Open(Opening::Image(url)));
    law_every_step_shows_its_text(d, Step::Open(Opening::Image(url)));
    assert(visible(draft_text(d)) + Seq::<char>::empty() =~= visible(draft_text(d)));
    let w = stepped(o, Step::Inline(Leaf::Text(t)));
    assert(w == o);
    let e = stepped(w, Step::Close(Closing::Image));
    assert(e.blocks == o.blocks && e.runs == o.runs);
    if url.len() == 0 || is_svg(url) {
        assert(e =~= d);
    }
}

/// The columns of a table are as many as the longest row has cells, at least one; each is as
/// wide as its longest cell, without the white space around it, and one character at least.
pub proof fn law_columns_fit_their_cells(rows: Seq<Seq<Seq<char>>>, i: int, n: int)
    requires
        0 <= n <= rows.len(),
    ensures
        column_count(rows, n) >= 1,
        forall|k: int| 0 <= k < n ==> (#[trigger] rows[k]).len() <= column_count(rows, n),
        column_count(rows, n) == 1 || exists|k: int|
            0 <= k < n && (#[trigger] rows[k]).len() == column_count(rows, n),
        column_weight(rows, i, n) >= 1,
        forall|k: int|
            0 <= k < n && 0 <= i < (#[trigger] rows[k]).len() ==> crate::text::trimmed(
                rows[k][i],
            ).len() <= column_weight(rows, i, n),
        column_weight(rows, i, n) == 1 || exists|k: int|
            0 <= k < n && 0 <= i < (#[trigger] rows[k]).len() && crate::text::trimmed(
                rows[k][i],
            ).len() == column_weight(rows, i, n),
    decreases n,
{
    if n > 0 {
        law_columns_fit_their_cells(rows, i, n - 1);
        assert(rows[n - 1] == rows[n - 1]);
    }
}

/// Whether the characters from `a` up to `b` belong to one word.
pub open spec fn in_one_word(s: Seq<char>, a: int, b: int) -> bool {
    0 <= a <= b <= s.len() && forall|k: int| a <= k < b ==> !is_white(#[trigger] s[k])
}

proof fn lemma_longest_word(s: Seq<char>, k: int, run: int)
    requires
        0 <= k <= s.len(),
        0 <= run <= k,
        in_one_word(s, k - run, k),
    ensures
        longest_word(s, k, run) >= run,
        forall|a: int, b: int|
            #[trigger] in_one_word(s, a, b) && (a >= k - run && a <= b) ==> b - a <= longest_word(
                s,
                k,
                run,
            ),
        exists|a: int, b: int|
            #[trigger] in_one_word(s, a, b) && b - a == longest_word(s, k, run),
    decreases s.len() - k,
{
    let r = longest_word(s, k, run);
    if k >= s.len() {
        assert(in_one_word(s, k - run, k) && k - (k - run) == r);
    } else if is_white(s[k]) {
        lemma_longest_word(s, k + 1, 0);
        assert forall|a: int, b: int|
            #[trigger] in_one_word(s, a, b) && (a >= k - run && a <= b) implies b - a <= r by {
            if a <= k < b {
                assert(!is_white(s[k]));
            }
        }
        if r == run {
            assert(in_one_word(s, k - run, k) && k - (k - run) == r);
        }
    } else {
        assert(in_one_word(s, k + 1 - (run + 1), k + 1));
        lemma_longest_word(s, k + 1, run + 1);
        if r == run + 1 {
            assert(in_one_word(s, k - run, k + 1) && k + 1 - (k - run) == r);
        }
    }
}

/// No word of a column is longer than what is said to be its longest, and one is as long, or the
/// measure is one character.
pub proof fn law_columns_fit_their_words(rows: Seq<Seq<Seq<char>>>, i: int, n: int)
    requires
        0 <= n <= rows.len(),
    ensures
        column_word(rows, i, n) >= 1,
        forall|k: int, a: int, b: int|
            0 <= k < n && 0 <= i < (#[trigger] rows[k]).len() && #[trigger] in_one_word(
                crate::text::trimmed(rows[k][i]),
                a,
                b,
            ) ==> b - a <= column_word(rows, i, n),
        column_word(rows, i, n) == 1 || exists|k: int, a: int, b: int|
            0 <= k < n && 0 <= i < (#[trigger] rows[k]).len() && #[trigger] in_one_word(
                crate::text::trimmed(rows[k][i]),
                a,
                b,
            ) && b - a == column_word(rows, i, n),
    decreases n,
{
    if n > 0 {
        law_columns_fit_their_words(rows, i, n - 1);
        let c = cell_text(rows[n - 1], i);
        assert(in_one_word(c, 0, 0));
        lemma_longest_word(c, 0, 0);
        let w = longest_word(c, 0, 0);
        let (a, b) = choose|a: int, b: int| #[trigger] in_one_word(c, a, b) && b - a == w;
        assert(in_one_word(c, a, b));
        if 0 <= i < rows[n - 1].len() {
            assert(c == crate::text::trimmed(rows[n - 1][i]));
        } else {
            assert(w <= 1);
        }
        assert forall|k: int, a: int, b: int|
            0 <= k < n && 0 <= i < (#[trigger] rows[k]).len() && #[trigger] in_one_word(
                crate::text::trimmed(rows[k][i]),
                a,
                b,
            ) implies b - a <= column_word(rows, i, n) by {
            if k == n - 1 {
                assert(b - a <= w);
            }
        }
    }
}

} // verus!
