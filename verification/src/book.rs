//! Books of notes as mdBook hands them to preprocessors: the items in the
//! order a pass over the book visits them, and the preprocessors that
//! rewrite them.

use vstd::prelude::*;
use crate::context::opt_view;
use crate::katex::{Katex, spec_render_chapter_math};
use crate::markdown::{IgnoreRule, markdown_events_of, wikilinks_in, SpecFound};
use crate::path::{diff_from_parent, spec_diff_from_parent};
use crate::text::{chars_of, escape_href_bytes, extend_chars, replace_first, replace_first_chars, string_of};
use crate::wikilink::{
    NameMap, PathIndex, SpecAnchor, Anchor, anchor_id, missing_link_close, missing_link_open,
    parse_link, spec_parse_link,
};

verus! {

/// A chapter of a book.
pub struct Chapter {
    /// The chapter's title.
    pub name: String,
    /// The chapter's Markdown.
    pub content: String,
    /// The section number, if it has one.
    pub number: Option<Vec<u32>>,
    /// Whether the chapter has sub-chapters.
    pub has_sub_items: bool,
    /// The chapter's path in the rendered book; none for a draft.
    pub path: Option<String>,
    /// The chapter's source file, relative to the book's source directory.
    pub source_path: Option<String>,
}

/// An item of a book's table of contents.
pub enum BookItem {
    Chapter(Chapter),
    Separator,
    PartTitle(String),
}

/// A book: its items in the order a pass over it visits them (each chapter
/// before its sub-chapters, as mdBook's iterator yields them, or after them,
/// as its `for_each_mut` visits them).
pub struct Book {
    pub items: Vec<BookItem>,
}

/// Whether two chapters are the same but for their contents.
pub open spec fn same_but_content(a: Chapter, b: Chapter) -> bool {
    &&& a.name == b.name
    &&& a.number == b.number
    &&& a.has_sub_items == b.has_sub_items
    &&& a.path == b.path
    &&& a.source_path == b.source_path
}

/// Whether `after` is `before` with the content of each chapter `i` being
/// `content(i)`.
pub open spec fn rewritten(
    before: Seq<BookItem>,
    after: Seq<BookItem>,
    content: spec_fn(int) -> Seq<char>,
) -> bool {
    &&& after.len() == before.len()
    &&& forall|i: int|
        0 <= i < before.len() ==> match #[trigger] before[i] {
            BookItem::Chapter(c) => after[i] matches BookItem::Chapter(d) && same_but_content(c, d)
                && d.content@ == content(i),
            _ => after[i] == before[i],
        }
}

/// The chapter an item is, if it is one.
pub fn get_chapter(it: &BookItem) -> (r: Option<&Chapter>)
    ensures
        match *it {
            BookItem::Chapter(c) => r == Some(&c),
            _ => r is None,
        },
{
    match it {
        BookItem::Chapter(ch) => Some(ch),
        _ => None,
    }
}

/// The content of the `i`th item if it is a chapter.
pub open spec fn chapter_of(items: Seq<BookItem>, i: int) -> Option<Chapter> {
    match items[i] {
        BookItem::Chapter(c) => Some(c),
        _ => None,
    }
}

impl Katex {
    /// Renders the math of every chapter of `book` with KaTeX.
    pub fn run(&self, book: Book) -> (r: Book)
        ensures
            rewritten(
                book.items@,
                r.items@,
                |i: int| spec_render_chapter_math(chapter_of(book.items@, i)->Some_0.content@),
            ),
    {
        let ghost before = book.items@;
        let mut items = book.items;
        let mut out: Vec<BookItem> = Vec::new();
        let mut k = items.len();
        while k > 0
            invariant
                k <= before.len(),
                items@ == before.subrange(0, k as int),
                out@.len() == before.len() - k,
                forall|t: int|
                    0 <= t < out@.len() ==> match #[trigger] before[k + t] {
                        BookItem::Chapter(c) => out@[t] matches BookItem::Chapter(d) && same_but_content(
                            c,
                            d,
                        ) && d.content@ == spec_render_chapter_math(c.content@),
                        _ => out@[t] == before[k + t],
                    },
            decreases k,
        {
            let item = items.pop().unwrap();
            k = k - 1;
            assert(item == before[k as int]);
            let new_item = match item {
                BookItem::Chapter(c) => {
                    let content = self.render_chapter(c.content.as_str());
                    BookItem::Chapter(Chapter { content, ..c })
                },
                other => other,
            };
            let ghost prev = out@;
            out.insert(0, new_item);
            assert forall|t: int| 0 <= t < out@.len() implies match #[trigger] before[k + t] {
                BookItem::Chapter(c) => out@[t] matches BookItem::Chapter(d) && same_but_content(c, d)
                    && d.content@ == spec_render_chapter_math(c.content@),
                _ => out@[t] == before[k + t],
            } by {
                if t > 0 {
                    assert(out@[t] == prev[t - 1]);
                    assert(before[k + t] == before[(k + 1) + (t - 1)]);
                }
            }
            assert(items@ =~= before.subrange(0, k as int));
        }
        proof {
            assert forall|i: int| 0 <= i < before.len() implies match #[trigger] before[i] {
                BookItem::Chapter(c) => out@[i] matches BookItem::Chapter(d) && same_but_content(c, d)
                    && d.content@ == (|i: int| spec_render_chapter_math(chapter_of(before, i)->Some_0.content@))(i),
                _ => out@[i] == before[i],
            } by {
                assert(before[0 + i] == before[i]);
            }
        }
        Book { items: out }
    }
}


/// The path each chapter title names: the path of the last chapter with
/// that title that has a path.
pub open spec fn chapter_index(items: Seq<BookItem>) -> Map<Seq<char>, String>
    decreases items.len(),
{
    if items.len() == 0 {
        Map::empty()
    } else {
        let m = chapter_index(items.drop_last());
        match items.last() {
            BookItem::Chapter(c) => match c.path {
                Some(p) => m.insert(c.name@, p),
                None => m,
            },
            _ => m,
        }
    }
}

/// The index of chapter titles to paths.
pub fn build_chapter_index(items: &Vec<BookItem>) -> (r: PathIndex)
    ensures
        r@ == chapter_index(items@),
{
    let mut index = PathIndex::new();
    let mut k: usize = 0;
    while k < items.len()
        invariant
            k <= items@.len(),
            index@ == chapter_index(items@.subrange(0, k as int)),
        decreases items@.len() - k,
    {
        proof {
            let pre = items@.subrange(0, k + 1);
            assert(pre.drop_last() =~= items@.subrange(0, k as int));
            assert(pre.last() == items@[k as int]);
        }
        match &items[k] {
            BookItem::Chapter(c) => match &c.path {
                Some(p) => index.insert(c.name.as_str(), p.clone()),
                None => {},
            },
            _ => {},
        }
        k = k + 1;
    }
    assert(items@.subrange(0, items@.len() as int) =~= items@);
    index
}

/// The texts of the wikilinks of `content` outside inline math.
pub open spec fn link_texts(content: Seq<char>) -> Seq<Seq<char>> {
    wikilinks_in(markdown_events_of(content), IgnoreRule::KatexSpans).map_values(
        |f: SpecFound| f.text,
    )
}

/// `#` and the id of an anchor, nothing for none; a block reference keeps
/// its `^` in the id.
pub open spec fn anchor_href(a: SpecAnchor) -> Seq<char> {
    match a {
        SpecAnchor::Header(h) => seq!['#'] + anchor_id(h),
        SpecAnchor::Blockref(b) => seq!['#'] + anchor_id(seq!['^'] + b),
        SpecAnchor::Absent => Seq::empty(),
    }
}

/// The path of a chapter, empty for a draft.
pub open spec fn path_or_empty(p: Option<String>) -> Seq<char> {
    match p {
        Some(s) => s@,
        None => Seq::empty(),
    }
}

/// What a wikilink with the parts `p` becomes in the chapter at `ch_path`:
/// a link `[title](<href>)` to the chapter its note names, or the
/// marked-up title when no chapter has that title.
pub open spec fn book_link_cmark(
    p: crate::wikilink::SpecLinkParts,
    ch_path: Seq<char>,
    index: Map<Seq<char>, String>,
) -> Seq<char> {
    let title = match p.alias {
        Some(a) => a,
        None => p.note,
    };
    if index.contains_key(p.note) {
        let href = spec_diff_from_parent(index[p.note]@, ch_path)->Some_0 + anchor_href(p.anchor);
        seq!['['] + title + seq![']', '(', '<'] + escape_href_bytes(vstd::utf8::encode_utf8(href))
            + seq!['>', ')']
    } else {
        missing_link_open() + title + missing_link_close()
    }
}

/// A wikilink with the parts `p` in the chapter at `ch_path` shows its
/// alias when it has one, and only otherwise the note's name: as a link
/// `[shown](<href>)` whose href, before escaping, is the relative path from
/// the chapter's directory to the chapter the note names, followed by `#`
/// and the anchor's id (a block reference keeping its `^`); or, when no
/// chapter has that name, as the shown text marked up as missing.
pub proof fn law_book_links_show_alias(
    p: crate::wikilink::SpecLinkParts,
    ch_path: Seq<char>,
    index: Map<Seq<char>, String>,
)
    ensures
        book_link_cmark(p, ch_path, index) == ({
            let shown = match p.alias {
                Some(a) => a,
                None => p.note,
            };
            if index.contains_key(p.note) {
                seq!['['] + shown + seq![']', '(', '<'] + escape_href_bytes(
                    vstd::utf8::encode_utf8(
                        spec_diff_from_parent(index[p.note]@, ch_path)->Some_0 + match p.anchor {
                            SpecAnchor::Header(h) => seq!['#'] + anchor_id(h),
                            SpecAnchor::Blockref(b) => seq!['#'] + anchor_id(seq!['^'] + b),
                            SpecAnchor::Absent => Seq::<char>::empty(),
                        },
                    ),
                ) + seq!['>', ')']
            } else {
                missing_link_open() + shown + missing_link_close()
            }
        }),
{
}

/// A wikilink with an alias shows the alias: when its note names a chapter
/// the link it becomes starts with `[alias]`, and when none does it becomes
/// the alias marked up as missing.  The link to the same place without an
/// alias differs only in showing the note's name.
pub proof fn law_aliased_book_links_show_the_alias(
    p: crate::wikilink::SpecLinkParts,
    a: Seq<char>,
    ch_path: Seq<char>,
    index: Map<Seq<char>, String>,
)
    requires
        p.alias == Some(a),
    ensures
        index.contains_key(p.note) ==> book_link_cmark(p, ch_path, index).subrange(0, a.len() + 2int)
            == seq!['['] + a + seq![']'],
        !index.contains_key(p.note) ==> book_link_cmark(p, ch_path, index) == missing_link_open() + a
            + missing_link_close(),
        index.contains_key(p.note) ==> book_link_cmark(p, ch_path, index) == seq!['['] + a
            + book_link_cmark(
            crate::wikilink::SpecLinkParts { alias: None, ..p },
            ch_path,
            index,
        ).subrange(p.note.len() + 1int, book_link_cmark(
            crate::wikilink::SpecLinkParts { alias: None, ..p },
            ch_path,
            index,
        ).len() as int),
{
    let q = crate::wikilink::SpecLinkParts { alias: None, ..p };
    law_book_links_show_alias(p, ch_path, index);
    law_book_links_show_alias(q, ch_path, index);
    if index.contains_key(p.note) {
        let l = book_link_cmark(p, ch_path, index);
        let m = book_link_cmark(q, ch_path, index);
        assert(l.subrange(0, a.len() + 2int) =~= seq!['['] + a + seq![']']);
        assert(l =~= seq!['['] + a + m.subrange(p.note.len() + 1int, m.len() as int));
    }
}

/// `[[text]]`.
pub open spec fn link_pattern(text: Seq<char>) -> Seq<char> {
    seq!['[', '['] + text + seq![']', ']']
}

/// The content after the wikilinks `texts`, one after the other, are
/// replaced (at the first occurrence of `[[text]]`) by the links they
/// become in the chapter at `ch_path`; a text that does not read as a
/// wikilink is left.
pub open spec fn rewrite_links(
    texts: Seq<Seq<char>>,
    content: Seq<char>,
    ch_path: Seq<char>,
    index: Map<Seq<char>, String>,
) -> Seq<char>
    decreases texts.len(),
{
    if texts.len() == 0 {
        content
    } else {
        let c = rewrite_links(texts.drop_last(), content, ch_path, index);
        let t = texts.last();
        match spec_parse_link(t) {
            Ok(p) => replace_first(c, link_pattern(t), book_link_cmark(p, ch_path, index)),
            Err(_) => c,
        }
    }
}

/// Whether every wikilink of the chapter `c` that leads to a chapter of
/// `index` can be written as a path relative to `c`.
pub open spec fn links_resolvable(c: Chapter, index: Map<Seq<char>, String>) -> bool {
    forall|t: int|
        0 <= t < link_texts(c.content@).len() ==> match spec_parse_link(
            #[trigger] link_texts(c.content@)[t],
        ) {
            Ok(p) => index.contains_key(p.note) ==> c.path is Some && spec_diff_from_parent(
                index[p.note]@,
                c.path->Some_0@,
            ) is Some,
            Err(_) => true,
        }
}

/// Whether every chapter of `items` has only wikilinks that can be resolved.
pub open spec fn book_links_resolvable(items: Seq<BookItem>) -> bool {
    forall|i: int|
        0 <= i < items.len() ==> match #[trigger] items[i] {
            BookItem::Chapter(c) => links_resolvable(c, chapter_index(items)),
            _ => true,
        }
}

fn anchor_href_chars(a: &Anchor) -> (r: Vec<char>)
    ensures
        r@ == anchor_href(a@),
{
    match a {
        Anchor::Header(h) => {
            let mut r = vec!['#'];
            extend_chars(&mut r, &chars_of(crate::wikilink::id_from_content(h.as_str()).as_str()));
            r
        },
        Anchor::Blockref(b) => {
            let mut raw = vec!['^'];
            extend_chars(&mut raw, &chars_of(b.as_str()));
            let id = crate::wikilink::id_from_content(string_of(&raw).as_str());
            let mut r = vec!['#'];
            extend_chars(&mut r, &chars_of(id.as_str()));
            assert(raw@ =~= seq!['^'] + b@);
            r
        },
        Anchor::Absent => Vec::new(),
    }
}

/// The content of a chapter at `path` with its wikilinks rewritten.
fn rewrite_chapter_links(content: &str, path: &Option<String>, index: &PathIndex) -> (r: String)
    requires
        forall|t: int|
            0 <= t < link_texts(content@).len() ==> match spec_parse_link(
                #[trigger] link_texts(content@)[t],
            ) {
                Ok(p) => index@.contains_key(p.note) ==> path is Some && spec_diff_from_parent(
                    index@[p.note]@,
                    path->Some_0@,
                ) is Some,
                Err(_) => true,
            },
    ensures
        r@ == rewrite_links(link_texts(content@), content@, path_or_empty(*path), index@),
{
    let texts = crate::markdown::for_each_internal_link(content);
    let ghost ts = link_texts(content@);
    assert(texts@.map_values(|t: String| t@) =~= ts);
    let mut out = chars_of(content);
    let mut k: usize = 0;
    while k < texts.len()
        invariant
            k <= texts@.len(),
            texts@.map_values(|t: String| t@) == ts,
            ts == link_texts(content@),
            forall|t: int|
                0 <= t < ts.len() ==> match spec_parse_link(#[trigger] ts[t]) {
                    Ok(p) => index@.contains_key(p.note) ==> path is Some && spec_diff_from_parent(
                        index@[p.note]@,
                        path->Some_0@,
                    ) is Some,
                    Err(_) => true,
                },
            out@ == rewrite_links(ts.subrange(0, k as int), content@, path_or_empty(*path), index@),
        decreases texts@.len() - k,
    {
        let text = texts[k].as_str();
        assert(ts[k as int] == text@);
        proof {
            let pre = ts.subrange(0, k + 1);
            assert(pre.drop_last() =~= ts.subrange(0, k as int));
            assert(pre.last() == ts[k as int]);
        }
        match parse_link(text) {
            Ok(parts) => {
                let title = match &parts.alias {
                    Some(a) => a.clone(),
                    None => parts.note.clone(),
                };
                let cm = match index.get(&chars_of(parts.note.as_str())) {
                    Some(dest) => {
                        let cur = path.as_ref().unwrap();
                        let rel = diff_from_parent(dest.as_str(), cur.as_str()).unwrap();
                        let mut href = chars_of(rel.as_str());
                        extend_chars(&mut href, &anchor_href_chars(&parts.anchor));
                        let esc = crate::text::escape_special_chars(string_of(&href).as_str());
                        let mut c = vec!['['];
                        extend_chars(&mut c, &chars_of(title.as_str()));
                        c.push(']');
                        c.push('(');
                        c.push('<');
                        extend_chars(&mut c, &chars_of(esc.as_str()));
                        c.push('>');
                        c.push(')');
                        c
                    },
                    None => {
                        let mut c = chars_of("<span class=\"missing-link\" style=\"color:darkred;\">");
                        extend_chars(&mut c, &chars_of(title.as_str()));
                        extend_chars(&mut c, &chars_of("</span>"));
                        c
                    },
                };
                assert(cm@ =~= book_link_cmark(parts@, path_or_empty(*path), index@));
                let mut pat = vec!['[', '['];
                extend_chars(&mut pat, &chars_of(text));
                pat.push(']');
                pat.push(']');
                assert(pat@ =~= link_pattern(text@));
                out = replace_first_chars(&out, &pat, &cm);
            },
            Err(_) => {},
        }
        k = k + 1;
    }
    assert(ts.subrange(0, ts.len() as int) =~= ts);
    string_of(&out)
}

/// Whether every wikilink of `content` that leads to a chapter of `index`
/// can be written as a path relative to `path`.
fn chapter_links_resolvable(content: &str, path: &Option<String>, index: &PathIndex) -> (b: bool)
    ensures
        b == forall|t: int|
            0 <= t < link_texts(content@).len() ==> match spec_parse_link(
                #[trigger] link_texts(content@)[t],
            ) {
                Ok(p) => index@.contains_key(p.note) ==> path is Some && spec_diff_from_parent(
                    index@[p.note]@,
                    path->Some_0@,
                ) is Some,
                Err(_) => true,
            },
{
    let texts = crate::markdown::for_each_internal_link(content);
    let ghost ts = link_texts(content@);
    assert(texts@.map_values(|t: String| t@) =~= ts);
    let mut k: usize = 0;
    while k < texts.len()
        invariant
            k <= texts@.len(),
            texts@.map_values(|t: String| t@) == ts,
            ts == link_texts(content@),
            forall|t: int|
                0 <= t < k ==> match spec_parse_link(#[trigger] ts[t]) {
                    Ok(p) => index@.contains_key(p.note) ==> path is Some && spec_diff_from_parent(
                        index@[p.note]@,
                        path->Some_0@,
                    ) is Some,
                    Err(_) => true,
                },
        decreases texts@.len() - k,
    {
        let text = texts[k].as_str();
        assert(ts[k as int] == text@);
        match parse_link(text) {
            Ok(parts) => match index.get(&chars_of(parts.note.as_str())) {
                Some(dest) => match path {
                    Some(cur) => {
                        if diff_from_parent(dest.as_str(), cur.as_str()).is_none() {
                            return false;
                        }
                    },
                    None => {
                        return false;
                    },
                },
                None => {},
            },
            Err(_) => {},
        }
        k = k + 1;
    }
    true
}

/// The mdBook preprocessor that turns wikilinks into links between chapters.
pub struct WikiLinks;

impl WikiLinks {
    /// The name the preprocessor is known by.
    pub fn name(&self) -> (r: &'static str)
        ensures
            r@ == "wikilink-preprocessor"@,
    {
        "wikilink-preprocessor"
    }

    /// Whether every wikilink of `book` that leads to a chapter can be
    /// written as a path relative to the chapter it stands in, as `run`
    /// needs.
    pub fn resolvable(&self, book: &Book) -> (b: bool)
        ensures
            b == book_links_resolvable(book.items@),
    {
        let index = build_chapter_index(&book.items);
        let mut k: usize = 0;
        while k < book.items.len()
            invariant
                k <= book.items@.len(),
                index@ == chapter_index(book.items@),
                forall|i: int|
                    0 <= i < k ==> match #[trigger] book.items@[i] {
                        BookItem::Chapter(c) => links_resolvable(c, chapter_index(book.items@)),
                        _ => true,
                    },
            decreases book.items@.len() - k,
        {
            match &book.items[k] {
                BookItem::Chapter(c) => {
                    if !chapter_links_resolvable(c.content.as_str(), &c.path, &index) {
                        assert(!links_resolvable(*c, chapter_index(book.items@)));
                        return false;
                    }
                },
                _ => {},
            }
            k = k + 1;
        }
        true
    }

    /// Turns the wikilinks of every chapter into links to the chapters whose
    /// titles they name (of chapters with one title, the last), or into the
    /// marked-up title when no chapter has it.
    pub fn run(&self, book: Book) -> (r: Book)
        requires
            book_links_resolvable(book.items@),
        ensures
            rewritten(
                book.items@,
                r.items@,
                |i: int|
                    {
                        let c = chapter_of(book.items@, i)->Some_0;
                        rewrite_links(
                            link_texts(c.content@),
                            c.content@,
                            path_or_empty(c.path),
                            chapter_index(book.items@),
                        )
                    },
            ),
    {
        let ghost before = book.items@;
        let index = build_chapter_index(&book.items);
        let mut items = book.items;
        let mut out: Vec<BookItem> = Vec::new();
        let mut k = items.len();
        while k > 0
            invariant
                k <= before.len(),
                items@ == before.subrange(0, k as int),
                index@ == chapter_index(before),
                book_links_resolvable(before),
                out@.len() == before.len() - k,
                forall|t: int|
                    0 <= t < out@.len() ==> match #[trigger] before[k + t] {
                        BookItem::Chapter(c) => out@[t] matches BookItem::Chapter(d) && same_but_content(
                            c,
                            d,
                        ) && d.content@ == rewrite_links(
                            link_texts(c.content@),
                            c.content@,
                            path_or_empty(c.path),
                            chapter_index(before),
                        ),
                        _ => out@[t] == before[k + t],
                    },
            decreases k,
        {
            let item = items.pop().unwrap();
            k = k - 1;
            assert(item == before[k as int]);
            let new_item = match item {
                BookItem::Chapter(c) => {
                    let content = rewrite_chapter_links(c.content.as_str(), &c.path, &index);
                    BookItem::Chapter(Chapter { content, ..c })
                },
                other => other,
            };
            let ghost prev = out@;
            out.insert(0, new_item);
            assert forall|t: int| 0 <= t < out@.len() implies match #[trigger] before[k + t] {
                BookItem::Chapter(c) => out@[t] matches BookItem::Chapter(d) && same_but_content(c, d)
                    && d.content@ == rewrite_links(
                    link_texts(c.content@),
                    c.content@,
                    path_or_empty(c.path),
                    chapter_index(before),
                ),
                _ => out@[t] == before[k + t],
            } by {
                if t > 0 {
                    assert(out@[t] == prev[t - 1]);
                    assert(before[k + t] == before[(k + 1) + (t - 1)]);
                }
            }
            assert(items@ =~= before.subrange(0, k as int));
        }
        proof {
            assert forall|i: int| 0 <= i < before.len() implies match #[trigger] before[i] {
                BookItem::Chapter(c) => out@[i] matches BookItem::Chapter(d) && same_but_content(c, d)
                    && d.content@ == (|i: int|
                    {
                        let c = chapter_of(before, i)->Some_0;
                        rewrite_links(
                            link_texts(c.content@),
                            c.content@,
                            path_or_empty(c.path),
                            chapter_index(before),
                        )
                    })(i),
                _ => out@[i] == before[i],
            } by {
                assert(before[0 + i] == before[i]);
            }
        }
        Book { items: out }
    }
}

} // verus!
