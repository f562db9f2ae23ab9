//! The HTML renderer's own decisions: which link destinations point at other
//! notes and how they are rewritten, and the table of contents that each
//! page carries.

use vstd::prelude::*;
use crate::book::{Book, BookItem, Chapter};
use crate::context::opt_view;
use crate::path::{path_to_root, spec_path_to_root};
use crate::text::{chars_of, ends_with, ends_with_chars, extend_chars, find_char, find_char_in, slice_range, starts_with, string_of};
use pulldown_cmark::{html::push_html, Event, Options, Parser, Tag};

verus! {

/// Whether `c` is a lowercase ASCII letter.
pub open spec fn is_lower_alpha(c: char) -> bool {
    'a' <= c && c <= 'z'
}

/// Whether `c` may follow the first character of a scheme: a lowercase ASCII
/// letter, an ASCII digit, `+`, `-` or `.`.
pub open spec fn is_scheme_char(c: char) -> bool {
    is_lower_alpha(c) || ('0' <= c && c <= '9') || c == '+' || c == '-' || c == '.'
}

/// Whether `s` starts with a URL scheme and its colon, such as `https:` or
/// `mailto:`: a lowercase ASCII letter, then scheme characters, then `:`.
pub open spec fn spec_has_scheme(s: Seq<char>) -> bool {
    exists|k: int|
        #![trigger s[k]]
        0 < k < s.len() && s[k] == ':' && is_lower_alpha(s[0]) && forall|j: int|
            1 <= j < k ==> is_scheme_char(#[trigger] s[j])
}

/// Whether `dest` starts with a URL scheme, so that it leads out of the book.
pub fn has_scheme(dest: &str) -> (b: bool)
    ensures
        b == spec_has_scheme(dest@),
{
    let s = chars_of(dest);
    if s.len() == 0 || !('a' <= s[0] && s[0] <= 'z') {
        return false;
    }
    let mut k: usize = 1;
    while k < s.len() && (('a' <= s[k] && s[k] <= 'z') || ('0' <= s[k] && s[k] <= '9') || s[k] == '+'
        || s[k] == '-' || s[k] == '.')
        invariant
            1 <= k <= s@.len(),
            forall|j: int| 1 <= j < k ==> is_scheme_char(#[trigger] s@[j]),
        decreases s@.len() - k,
    {
        k = k + 1;
    }
    let b = k < s.len() && s[k] == ':';
    proof {
        if spec_has_scheme(dest@) {
            let w = choose|w: int|
                #![trigger s@[w]]
                0 < w < s@.len() && s@[w] == ':' && is_lower_alpha(s@[0]) && forall|j: int|
                    1 <= j < w ==> is_scheme_char(#[trigger] s@[j]);
            if k < w {
                assert(is_scheme_char(s@[k as int]));
            }
            assert(!is_scheme_char(s@[w]));
            assert(k == w);
        }
        if b {
            assert(s@[k as int] == ':');
        }
    }
    b
}

/// Where the anchor of a link destination starts: at its first `#`, or at
/// its end when it has none.
pub open spec fn anchor_start(dest: Seq<char>) -> int {
    match find_char(dest, '#') {
        Some(i) => i,
        None => dest.len() as int,
    }
}

/// Whether the path `p` names a file with the extension `md`: it ends in
/// `.md` after a file name (not right after a `/`, and not as the whole path).
pub open spec fn has_md_extension(p: Seq<char>) -> bool {
    p.len() > 3 && ends_with(p, seq!['.', 'm', 'd']) && p[p.len() - 4] != '/'
}

/// The destination that a link to `dest` gets in a rendered page: a link
/// that is neither an anchor on the same page nor a URL with a scheme, and
/// whose path (the part before any `#`) has the extension `md`, points at
/// the `.html` page instead, keeping its anchor.
pub open spec fn spec_fix_link(dest: Seq<char>) -> Seq<char> {
    let h = anchor_start(dest);
    let path = dest.subrange(0, h);
    if starts_with(dest, seq!['#']) || spec_has_scheme(dest) || !has_md_extension(path) {
        dest
    } else {
        path.subrange(0, path.len() - 3) + seq!['.', 'h', 't', 'm', 'l'] + dest.subrange(h, dest.len() as int)
    }
}

/// Changes a link to a `.md` file into one to its `.html` page, unless it has
/// a scheme or is an anchor; keeps any anchor.
pub fn fix_link(dest: &str) -> (r: String)
    ensures
        r@ == spec_fix_link(dest@),
{
    let s = chars_of(dest);
    if (s.len() > 0 && s[0] == '#') || has_scheme(dest) {
        proof {
            if s@.len() > 0 && s@[0] == '#' {
                assert(s@.subrange(0, 1) =~= seq!['#']);
            }
        }
        return string_of(&s);
    }
    proof {
        if starts_with(dest@, seq!['#']) {
            assert(dest@.subrange(0, 1)[0] == dest@[0]);
            assert(seq!['#'][0] == '#');
        }
        assert(!starts_with(dest@, seq!['#']));
        assert(!spec_has_scheme(dest@));
        crate::text::lemma_find_from_some(s@, seq!['#'], 0);
    }
    let n = s.len();
    let h = match find_char_in(&s, '#') {
        Some(i) => i,
        None => n,
    };
    proof {
        if h < n {
            assert(crate::text::matches_at(s@, seq!['#'], h as int));
        }
    }
    assert(h == anchor_start(dest@));
    assert(h <= n);
    let path = slice_range(&s, 0, h);
    let md = ['.', 'm', 'd'];
    assert(md@ =~= seq!['.', 'm', 'd']);
    let is_md = path.len() > 3 && ends_with_chars(&path, &md) && path[path.len() - 4] != '/';
    if !is_md {
        return string_of(&s);
    }
    let mut out = slice_range(&path, 0, path.len() - 3);
    let html = ['.', 'h', 't', 'm', 'l'];
    assert(html@ =~= seq!['.', 'h', 't', 'm', 'l']);
    extend_chars(&mut out, &html);
    let anchor = slice_range(&s, h, n);
    extend_chars(&mut out, &anchor);
    assert(out@ =~= path@.subrange(0, path@.len() - 3) + seq!['.', 'h', 't', 'm', 'l'] + dest@.subrange(h as int, dest@.len() as int));
    string_of(&out)
}

/// The decimal digit for `d < 10`.
pub open spec fn decimal_digit(d: nat) -> char {
    (('0' as nat) + d) as char
}

/// The decimal numeral of `n`, without leading zeros.
pub open spec fn decimal(n: nat) -> Seq<char>
    decreases n,
{
    if n < 10 {
        seq![decimal_digit(n)]
    } else {
        decimal(n / 10) + seq![decimal_digit(n % 10)]
    }
}

fn push_decimal(out: &mut Vec<char>, n: u32)
    ensures
        final(out)@ == old(out)@ + decimal(n as nat),
    decreases n,
{
    if n >= 10 {
        push_decimal(out, n / 10);
    }
    let d = (n % 10) as u8;
    let c = (('0' as u8) + d) as char;
    assert(c == decimal_digit((n % 10) as nat));
    out.push(c);
}

/// The numbers of `number` each followed by a dot.
pub open spec fn dotted(number: Seq<u32>) -> Seq<char>
    decreases number.len(),
{
    if number.len() == 0 {
        Seq::empty()
    } else {
        dotted(number.drop_last()) + decimal(number.last() as nat) + seq!['.']
    }
}

/// How a section number is shown: `0` for the empty number, else each part
/// followed by a dot, as in `1.2.`.
pub open spec fn spec_section_label(number: Seq<u32>) -> Seq<char> {
    if number.len() == 0 {
        seq!['0']
    } else {
        dotted(number)
    }
}

/// The section number `number` as it is shown in the table of contents.
pub fn section_label(number: &[u32]) -> (r: String)
    ensures
        r@ == spec_section_label(number@),
{
    if number.len() == 0 {
        return string_of(&['0']);
    }
    let mut out: Vec<char> = Vec::new();
    let mut k: usize = 0;
    while k < number.len()
        invariant
            k <= number@.len(),
            out@ == dotted(number@.subrange(0, k as int)),
        decreases number@.len() - k,
    {
        let ghost before = out@;
        push_decimal(&mut out, number[k]);
        out.push('.');
        proof {
            let t = number@.subrange(0, k + 1);
            assert(t.drop_last() =~= number@.subrange(0, k as int));
            assert(t.last() == number@[k as int]);
            assert(out@ =~= dotted(t));
        }
        k = k + 1;
    }
    assert(number@.subrange(0, number@.len() as int) =~= number@);
    string_of(&out)
}

/// The HTML renderer of a book of notes.
pub struct HtmlMdzk;

impl HtmlMdzk {
    /// The name the renderer is known by.
    pub fn name(&self) -> (r: &'static str)
        ensures
            r@ == "mdzk"@,
    {
        "mdzk"
    }
}

/// An entry of the table of contents that each rendered page carries.
pub enum TocEntry {
    /// The title of a part of the book.
    Part(String),
    /// A chapter: its section label, whether it has sub-chapters, its name and
    /// its path (none for a draft).
    Chapter { section: Option<String>, has_sub_items: bool, name: String, path: Option<String> },
    /// A separator.
    Spacer,
}

/// Whether `e` is the table of contents entry of `item`.
pub open spec fn is_toc_entry(e: TocEntry, item: BookItem) -> bool {
    match item {
        BookItem::PartTitle(t) => e matches TocEntry::Part(p) && p@ == t@,
        BookItem::Chapter(c) => e matches TocEntry::Chapter { section, has_sub_items, name, path } && {
            &&& opt_view(section) == match c.number {
                Some(n) => Some(spec_section_label(n@)),
                None => None::<Seq<char>>,
            }
            &&& has_sub_items == c.has_sub_items
            &&& name@ == c.name@
            &&& opt_view(path) == opt_view(c.path)
        },
        BookItem::Separator => e is Spacer,
    }
}

/// The table of contents of `book`: one entry for each of its items, in order.
pub fn toc_entries(book: &Book) -> (r: Vec<TocEntry>)
    ensures
        r@.len() == book.items@.len(),
        forall|i: int| 0 <= i < r@.len() ==> is_toc_entry(#[trigger] r@[i], book.items@[i]),
{
    let mut r: Vec<TocEntry> = Vec::new();
    let mut k: usize = 0;
    while k < book.items.len()
        invariant
            k <= book.items@.len(),
            r@.len() == k,
            forall|i: int| 0 <= i < k ==> is_toc_entry(#[trigger] r@[i], book.items@[i]),
        decreases book.items@.len() - k,
    {
        let e = match &book.items[k] {
            BookItem::PartTitle(t) => TocEntry::Part(t.clone()),
            BookItem::Chapter(c) => TocEntry::Chapter {
                section: match &c.number {
                    Some(n) => Some(section_label(n.as_slice())),
                    None => None,
                },
                has_sub_items: c.has_sub_items,
                name: c.name.clone(),
                path: match &c.path {
                    Some(p) => Some(p.clone()),
                    None => None,
                },
            },
            BookItem::Separator => TocEntry::Spacer,
        };
        r.push(e);
        k = k + 1;
    }
    r
}

/// The HTML that rendering the Markdown `text` gives, with the parser
/// options `options`, where each link and image destination `d` is replaced
/// by `spec_fix_link(d)` before rendering.
pub uninterp spec fn rendered_html(text: Seq<char>, options: u32) -> Seq<char>;

/// The CommonMark extensions that pages are rendered with: tables,
/// footnotes, strikethrough, task lists and heading attributes.
pub const RENDER_OPTIONS: u32 = 94;

/// Renders `text` to HTML with `pulldown_cmark` (`Parser::new_ext` with the
/// options of the bits `options`, then `html::push_html`), each link and image
/// destination passed through [`fix_link`] on the way.  Its contract claims
/// only that the HTML is a function of the text and the options.
#[verifier::external_body]
pub(crate) fn markdown_html(text: &str, options: u32) -> (html: String)
    ensures
        html@ == rendered_html(text@, options),
{
    let events = Parser::new_ext(text, Options::from_bits_truncate(options)).map(|e| match e {
        Event::Start(Tag::Link(kind, dest, title)) => Event::Start(Tag::Link(kind, fix_link(&dest).into(), title)),
        Event::Start(Tag::Image(kind, dest, title)) => Event::Start(Tag::Image(kind, fix_link(&dest).into(), title)),
        other => other,
    });
    let mut html = String::new();
    push_html(&mut html, events);
    html
}

/// Renders the Markdown of a note to HTML, with links to other notes
/// pointing at their pages.
pub fn render_markdown(text: &str) -> (html: String)
    ensures
        html@ == rendered_html(text@, RENDER_OPTIONS),
{
    markdown_html(text, RENDER_OPTIONS)
}

/// What the page of a chapter shows: its HTML, its title, its path in the
/// book, the way back to the book's root and its section number.
pub struct NotePage {
    pub content: String,
    pub title: String,
    pub path: String,
    pub path_to_root: String,
    pub section: Option<Vec<u32>>,
}

/// Whether `p` is the page of the chapter `c`, which has the path `path`.
pub open spec fn is_page_of(p: NotePage, c: Chapter, path: Seq<char>) -> bool {
    &&& p.content@ == rendered_html(c.content@, RENDER_OPTIONS)
    &&& p.title@ == c.name@
    &&& p.path@ == path
    &&& p.path_to_root@ == spec_path_to_root(path)
    &&& match (p.section, c.number) {
        (Some(a), Some(b)) => a@ == b@,
        (None, None) => true,
        _ => false,
    }
}

/// The chapters of `items` that get a page: those that are not drafts.
pub open spec fn paged(items: Seq<BookItem>) -> Seq<(Chapter, Seq<char>)>
    decreases items.len(),
{
    if items.len() == 0 {
        Seq::empty()
    } else {
        paged(items.drop_last()) + match items.last() {
            BookItem::Chapter(c) => match c.path {
                Some(p) => seq![(c, p@)],
                None => Seq::empty(),
            },
            _ => Seq::empty(),
        }
    }
}

/// The page of `c` at `path`.
pub fn note_page(c: &Chapter, path: &str) -> (p: NotePage)
    ensures
        is_page_of(p, *c, path@),
{
    NotePage {
        content: render_markdown(c.content.as_str()),
        title: c.name.clone(),
        path: path.to_string(),
        path_to_root: path_to_root(path),
        section: match &c.number {
            Some(n) => Some(n.clone()),
            None => None,
        },
    }
}

/// The pages of `book`: one for each chapter that is not a draft, in the
/// order of the book.
pub fn note_pages(book: &Book) -> (r: Vec<NotePage>)
    ensures
        r@.len() == paged(book.items@).len(),
        forall|i: int|
            0 <= i < r@.len() ==> is_page_of(
                #[trigger] r@[i],
                paged(book.items@)[i].0,
                paged(book.items@)[i].1,
            ),
{
    let mut r: Vec<NotePage> = Vec::new();
    let mut k: usize = 0;
    while k < book.items.len()
        invariant
            k <= book.items@.len(),
            r@.len() == paged(book.items@.subrange(0, k as int)).len(),
            forall|i: int|
                0 <= i < r@.len() ==> is_page_of(
                    #[trigger] r@[i],
                    paged(book.items@.subrange(0, k as int))[i].0,
                    paged(book.items@.subrange(0, k as int))[i].1,
                ),
        decreases book.items@.len() - k,
    {
        let ghost prev = book.items@.subrange(0, k as int);
        let ghost next = book.items@.subrange(0, k + 1);
        proof {
            assert(next.drop_last() =~= prev);
            assert(next.last() == book.items@[k as int]);
        }
        match &book.items[k] {
            BookItem::Chapter(c) => match &c.path {
                Some(p) => {
                    let page = note_page(c, p.as_str());
                    r.push(page);
                },
                None => {},
            },
            _ => {},
        }
        k = k + 1;
    }
    assert(book.items@.subrange(0, book.items@.len() as int) =~= book.items@);
    r
}

} // verus!
