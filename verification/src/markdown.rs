//! Markdown events, as a CommonMark parser reports them, in plain values.

use vstd::prelude::*;
use std::ops::Range;
use crate::text::{chars_of, string_of, trim, trim_chars};
use pulldown_cmark::{CowStr, Event, Parser, Tag};

verus! {

/// The kind of element an event opens or closes.
#[derive(Debug, PartialEq)]
pub enum MdTag {
    Paragraph,
    Heading,
    BlockQuote,
    CodeBlock,
    List,
    Item,
    Table,
    Emphasis,
    Strong,
    /// A link, with its destination and title.
    Link(String, String),
    /// An image, with its destination and title.
    Image(String, String),
    Other,
}

/// What an event is.
#[derive(Debug, PartialEq)]
pub enum MdEventKind {
    /// The start of an element.
    Start(MdTag),
    /// The end of an element.
    End(MdTag),
    /// Text.
    Text,
    /// Inline code.
    Code,
    /// Raw HTML.
    Html,
    /// Anything else (breaks, rules, footnote references, task markers).
    Other,
}

/// One event of a Markdown document: its kind, its text (for text, code and
/// HTML), whether that text is a slice of the source, and the byte range of
/// the source it comes from.
#[derive(Debug, PartialEq)]
pub struct MdEvent {
    pub kind: MdEventKind,
    pub text: String,
    pub borrowed: bool,
    pub start: usize,
    pub end: usize,
}

/// The events that CommonMark parsing of `content` reports, in order.
pub uninterp spec fn markdown_events_of(content: Seq<char>) -> Seq<MdEvent>;

/// The events of `content`, by `pulldown_cmark::Parser::new(content).into_offset_iter()`,
/// each converted one for one by `md_event`.  Its contract claims only that
/// they are a function of `content` alone.
#[verifier::external_body]
pub(crate) fn markdown_events(content: &str) -> (events: Vec<MdEvent>)
    ensures
        events@ == markdown_events_of(content@),
{
    Parser::new(content).into_offset_iter().map(|(e, r)| md_event(e, r)).collect()
}

/// The tags of `pulldown_cmark`, held opaquely.
#[verifier::external_type_specification]
#[verifier::external_body]
pub struct ExTag<'a>(Tag<'a>);

/// The events of `pulldown_cmark`, held opaquely.
#[verifier::external_type_specification]
#[verifier::external_body]
pub struct ExEvent<'a>(Event<'a>);

/// The strings of `pulldown_cmark`, held opaquely.
#[verifier::external_type_specification]
#[verifier::external_body]
pub struct ExCowStr<'a>(CowStr<'a>);

/// A `pulldown_cmark::Event` at the source range `range`, converted one for one.
#[verifier::external_body]
fn md_event(e: Event, range: Range<usize>) -> MdEvent {
    let (kind, (text, borrowed)) = match e {
        Event::Start(t) => (MdEventKind::Start(md_tag(t)), (String::new(), false)),
        Event::End(t) => (MdEventKind::End(md_tag(t)), (String::new(), false)),
        Event::Text(s) => (MdEventKind::Text, md_text(s)),
        Event::Html(s) => (MdEventKind::Html, md_text(s)),
        Event::Code(s) => (MdEventKind::Code, md_text(s)),
        _ => (MdEventKind::Other, (String::new(), false)),
    };
    MdEvent { kind, text, borrowed, start: range.start, end: range.end }
}

/// A `pulldown_cmark::CowStr` as its text and whether it borrows from the source.
#[verifier::external_body]
fn md_text(s: CowStr) -> (String, bool) {
    match s {
        CowStr::Borrowed(b) => (b.to_string(), true),
        other => (other.to_string(), false),
    }
}

/// The tag kind of a `pulldown_cmark::Tag`, converted one for one.
#[verifier::external_body]
fn md_tag(tag: Tag) -> MdTag {
    match tag {
        Tag::Paragraph => MdTag::Paragraph,
        Tag::Heading(..) => MdTag::Heading,
        Tag::BlockQuote => MdTag::BlockQuote,
        Tag::CodeBlock(_) => MdTag::CodeBlock,
        Tag::List(_) => MdTag::List,
        Tag::Item => MdTag::Item,
        Tag::Table(_) => MdTag::Table,
        Tag::Emphasis => MdTag::Emphasis,
        Tag::Strong => MdTag::Strong,
        Tag::Link(_, dest, title) => MdTag::Link(dest.to_string(), title.to_string()),
        Tag::Image(_, dest, title) => MdTag::Image(dest.to_string(), title.to_string()),
        _ => MdTag::Other,
    }
}


/// Where the wikilink scanner stands.
#[derive(Clone, Copy, Debug, PartialEq, Eq, Structural)]
pub enum ScanState {
    OutsideLink,
    MaybeOpen,
    MaybeInsideLink,
    MaybeClose,
    Ignore,
}

/// Which events switch the scanner into and out of ignoring.
#[derive(Clone, Copy, Debug, PartialEq, Eq, Structural)]
pub enum IgnoreRule {
    /// Code blocks, links and images are ignored.
    CodeLinksImages,
    /// Inline KaTeX spans (`<span class="katex-inline">` … `</span>`) are ignored.
    KatexSpans,
}

/// Whether the event is text that is exactly the source character `c`.
pub open spec fn is_bracket(e: MdEvent, c: char) -> bool {
    e.kind == MdEventKind::Text && e.borrowed && e.text@ == seq![c]
}

/// Whether the event starts (or, with `start` false, ends) what `rule` ignores.
pub open spec fn switches_ignore(e: MdEvent, rule: IgnoreRule, start: bool) -> bool {
    match rule {
        IgnoreRule::CodeLinksImages => match e.kind {
            MdEventKind::Start(t) => start && (t == MdTag::CodeBlock || t is Link || t is Image),
            MdEventKind::End(t) => !start && (t == MdTag::CodeBlock || t is Link || t is Image),
            _ => false,
        },
        IgnoreRule::KatexSpans => e.kind == MdEventKind::Html && e.borrowed && if start {
            e.text@ == "<span class=\"katex-inline\">"@
        } else {
            e.text@ == "</span>"@
        },
    }
}

/// A wikilink found by the scanner: its trimmed text and the source range of
/// the event that closed it.
pub struct SpecFound {
    pub text: Seq<char>,
    pub range: Range<usize>,
}

/// One step of the wikilink scanner: the state, the buffered link text and
/// the link found, if any, after the event `e`.
pub open spec fn scan_step(st: ScanState, buf: Seq<char>, e: MdEvent, rule: IgnoreRule) -> (
    ScanState,
    Seq<char>,
    Option<SpecFound>,
) {
    if switches_ignore(e, rule, true) {
        (ScanState::Ignore, buf, None)
    } else if switches_ignore(e, rule, false) {
        (ScanState::OutsideLink, buf, None)
    } else if is_bracket(e, '[') {
        match st {
            ScanState::OutsideLink => (ScanState::MaybeOpen, buf, None),
            ScanState::MaybeOpen => (ScanState::MaybeInsideLink, buf, None),
            ScanState::MaybeInsideLink => (ScanState::OutsideLink, buf, None),
            ScanState::MaybeClose => (ScanState::OutsideLink, Seq::empty(), None),
            ScanState::Ignore => (ScanState::Ignore, buf, None),
        }
    } else if is_bracket(e, ']') {
        match st {
            ScanState::MaybeOpen => (ScanState::OutsideLink, buf, None),
            ScanState::MaybeInsideLink => (ScanState::MaybeClose, buf, None),
            ScanState::MaybeClose => (
                ScanState::OutsideLink,
                Seq::empty(),
                Some(SpecFound { text: trim(buf), range: Range { start: e.start, end: e.end } }),
            ),
            _ => (st, buf, None),
        }
    } else if e.kind == MdEventKind::Text && st == ScanState::MaybeInsideLink {
        if buf.len() == 0 {
            (st, e.text@, None)
        } else {
            (ScanState::OutsideLink, Seq::empty(), None)
        }
    } else {
        (st, buf, None)
    }
}

/// The scanner after all of `events`: its state, its buffer and the links found.
pub open spec fn scan(events: Seq<MdEvent>, rule: IgnoreRule) -> (
    ScanState,
    Seq<char>,
    Seq<SpecFound>,
)
    decreases events.len(),
{
    if events.len() == 0 {
        (ScanState::OutsideLink, Seq::empty(), Seq::empty())
    } else {
        let (st, buf, found) = scan(events.drop_last(), rule);
        let (st2, buf2, f) = scan_step(st, buf, events.last(), rule);
        (
            st2,
            buf2,
            match f {
                Some(x) => found.push(x),
                None => found,
            },
        )
    }
}

/// The wikilinks found in `events`.
pub open spec fn wikilinks_in(events: Seq<MdEvent>, rule: IgnoreRule) -> Seq<SpecFound> {
    scan(events, rule).2
}

/// A found link as a plain value.
pub open spec fn found_view(f: (String, Range<usize>)) -> SpecFound {
    SpecFound { text: f.0@, range: f.1 }
}

fn is_bracket_event(e: &MdEvent, c: char) -> (b: bool)
    ensures
        b == is_bracket(*e, c),
{
    match e.kind {
        MdEventKind::Text => {
            if !e.borrowed {
                return false;
            }
            let t = chars_of(e.text.as_str());
            let b = t.len() == 1 && t[0] == c;
            proof {
                if b {
                    assert(t@ =~= seq![c]);
                }
                if e.text@ == seq![c] {
                    assert(t@[0] == c);
                }
            }
            b
        },
        _ => false,
    }
}

fn tag_is_ignored(t: &MdTag) -> (b: bool)
    ensures
        b == (*t == MdTag::CodeBlock || *t is Link || *t is Image),
{
    match t {
        MdTag::CodeBlock => true,
        MdTag::Link(..) => true,
        MdTag::Image(..) => true,
        _ => false,
    }
}

fn str_eq(a: &str, b: &str) -> (r: bool)
    ensures
        r == (a@ == b@),
{
    crate::text::chars_eq(&chars_of(a), &chars_of(b))
}

fn switches_ignore_event(e: &MdEvent, rule: IgnoreRule, start: bool) -> (b: bool)
    ensures
        b == switches_ignore(*e, rule, start),
{
    match rule {
        IgnoreRule::CodeLinksImages => match &e.kind {
            MdEventKind::Start(t) => start && tag_is_ignored(t),
            MdEventKind::End(t) => !start && tag_is_ignored(t),
            _ => false,
        },
        IgnoreRule::KatexSpans => match e.kind {
            MdEventKind::Html => e.borrowed && if start {
                str_eq(e.text.as_str(), "<span class=\"katex-inline\">")
            } else {
                str_eq(e.text.as_str(), "</span>")
            },
            _ => false,
        },
    }
}

/// Runs the wikilink scanner over `events`.
pub fn scan_events(events: &Vec<MdEvent>, rule: IgnoreRule) -> (r: Vec<(String, Range<usize>)>)
    ensures
        r@.map_values(|f: (String, Range<usize>)| found_view(f)) == wikilinks_in(events@, rule),
{
    let mut st = ScanState::OutsideLink;
    let mut buf: Vec<char> = Vec::new();
    let mut out: Vec<(String, Range<usize>)> = Vec::new();
    let mut k: usize = 0;
    while k < events.len()
        invariant
            k <= events@.len(),
            scan(events@.subrange(0, k as int), rule) == (
                st,
                buf@,
                out@.map_values(|f: (String, Range<usize>)| found_view(f)),
            ),
        decreases events@.len() - k,
    {
        let e = &events[k];
        proof {
            let pre = events@.subrange(0, k + 1);
            assert(pre.drop_last() =~= events@.subrange(0, k as int));
            assert(pre.last() == events@[k as int]);
        }
        if switches_ignore_event(e, rule, true) {
            st = ScanState::Ignore;
        } else if switches_ignore_event(e, rule, false) {
            st = ScanState::OutsideLink;
        } else if is_bracket_event(e, '[') {
            match st {
                ScanState::OutsideLink => st = ScanState::MaybeOpen,
                ScanState::MaybeOpen => st = ScanState::MaybeInsideLink,
                ScanState::MaybeInsideLink => st = ScanState::OutsideLink,
                ScanState::MaybeClose => {
                    buf = Vec::new();
                    st = ScanState::OutsideLink;
                },
                ScanState::Ignore => {},
            }
        } else if is_bracket_event(e, ']') {
            match st {
                ScanState::MaybeOpen => st = ScanState::OutsideLink,
                ScanState::MaybeInsideLink => st = ScanState::MaybeClose,
                ScanState::MaybeClose => {
                    let text = string_of(&trim_chars(&buf));
                    out.push((text, Range { start: e.start, end: e.end }));
                    buf = Vec::new();
                    st = ScanState::OutsideLink;
                },
                _ => {},
            }
        } else {
            let is_text = match e.kind {
                MdEventKind::Text => true,
                _ => false,
            };
            if is_text && st == ScanState::MaybeInsideLink {
                if buf.len() == 0 {
                    buf = chars_of(e.text.as_str());
                } else {
                    buf = Vec::new();
                    st = ScanState::OutsideLink;
                }
            }
        }
        k = k + 1;
        assert(out@.map_values(|f: (String, Range<usize>)| found_view(f)) =~= scan(
            events@.subrange(0, k as int),
            rule,
        ).2);
    }
    assert(events@.subrange(0, events@.len() as int) =~= events@);
    out
}


/// Finds all wikilinks in `content` outside code blocks, links and images:
/// their texts (trimmed) and the source ranges of their closing brackets, in order.
pub fn for_each_wikilink(content: &str) -> (r: Vec<(String, Range<usize>)>)
    ensures
        r@.map_values(|f: (String, Range<usize>)| found_view(f)) == wikilinks_in(
            markdown_events_of(content@),
            IgnoreRule::CodeLinksImages,
        ),
{
    let events = markdown_events(content);
    scan_events(&events, IgnoreRule::CodeLinksImages)
}

/// Finds all wikilinks in `content` outside inline KaTeX spans: their texts
/// (trimmed), in order.
pub fn for_each_internal_link(content: &str) -> (r: Vec<String>)
    ensures
        r@.map_values(|t: String| t@) == wikilinks_in(
            markdown_events_of(content@),
            IgnoreRule::KatexSpans,
        ).map_values(|f: SpecFound| f.text),
{
    let events = markdown_events(content);
    let found = scan_events(&events, IgnoreRule::KatexSpans);
    let mut r: Vec<String> = Vec::new();
    let mut k: usize = 0;
    while k < found.len()
        invariant
            k <= found@.len(),
            r@.map_values(|t: String| t@) == found@.subrange(0, k as int).map_values(
                |f: (String, Range<usize>)| f.0@,
            ),
        decreases found@.len() - k,
    {
        let t = found[k].0.clone();
        assert(t@ == found@[k as int].0@);
        let ghost before = r@;
        r.push(t);
        proof {
            assert(r@.map_values(|t: String| t@) =~= before.map_values(|t: String| t@).push(t@));
            assert(found@.subrange(0, k + 1).map_values(|f: (String, Range<usize>)| f.0@)
                =~= found@.subrange(0, k as int).map_values(|f: (String, Range<usize>)| f.0@).push(
                found@[k as int].0@,
            ));
        }
        k = k + 1;
        assert(r@.map_values(|t: String| t@) =~= found@.subrange(0, k as int).map_values(
            |f: (String, Range<usize>)| f.0@,
        ));
    }
    proof {
        assert(found@.subrange(0, found@.len() as int) =~= found@);
        let w = wikilinks_in(markdown_events_of(content@), IgnoreRule::KatexSpans);
        assert(w.map_values(|f: SpecFound| f.text) =~= found@.map_values(
            |f: (String, Range<usize>)| f.0@,
        ));
    }
    r
}

/// The destination and title of each Markdown link among `events`, in order.
pub open spec fn links_in(events: Seq<MdEvent>) -> Seq<(Seq<char>, Seq<char>)>
    decreases events.len(),
{
    if events.len() == 0 {
        Seq::empty()
    } else {
        let init = links_in(events.drop_last());
        match events.last().kind {
            MdEventKind::Start(MdTag::Link(dest, title)) => init.push((dest@, title@)),
            _ => init,
        }
    }
}

/// Finds all Markdown links in `content`: the destination and title of each, in order.
pub fn for_each_link(content: &str) -> (r: Vec<(String, String)>)
    ensures
        r@.map_values(|l: (String, String)| (l.0@, l.1@)) == links_in(markdown_events_of(content@)),
{
    let events = markdown_events(content);
    let mut r: Vec<(String, String)> = Vec::new();
    let mut k: usize = 0;
    while k < events.len()
        invariant
            k <= events@.len(),
            r@.map_values(|l: (String, String)| (l.0@, l.1@)) == links_in(
                events@.subrange(0, k as int),
            ),
        decreases events@.len() - k,
    {
        proof {
            let pre = events@.subrange(0, k + 1);
            assert(pre.drop_last() =~= events@.subrange(0, k as int));
            assert(pre.last() == events@[k as int]);
        }
        match &events[k].kind {
            MdEventKind::Start(MdTag::Link(dest, title)) => {
                r.push((dest.clone(), title.clone()));
            },
            _ => {},
        }
        k = k + 1;
        assert(r@.map_values(|l: (String, String)| (l.0@, l.1@)) =~= links_in(
            events@.subrange(0, k as int),
        ));
    }
    assert(events@.subrange(0, events@.len() as int) =~= events@);
    r
}

} // verus!
