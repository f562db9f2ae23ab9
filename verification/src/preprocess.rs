//! The mdzk preprocessor: front matter, `README` pages, wikilinks, math and
//! backlinks, over a whole book.

use vstd::prelude::*;
use crate::book::{Book, BookItem, Chapter, link_pattern, link_texts, path_or_empty};
use crate::frontmatter::{FrontMatterConfig, apply_front_matter_with, date_div, format_date, opt_text,
    spec_strip_front_matter, offset_date_text, date_shown};
use crate::katex::{render_math, spec_render_math};
use crate::path::{components, diff_from_parent, parent_components, same_path, spec_diff_from_parent,
    spec_is_readme_file};
use crate::readme::{convert_readme, spec_readme_links, with_index_file_name};
use crate::text::{chars_of, escape_href_bytes, extend_chars, replace_first, replace_first_chars, string_of};
use crate::wikilink::{
    LinkParts, NameMap, SpecAnchor, SpecLinkParts, Anchor, anchor_ids, missing_link_close,
    missing_link_open, parse_link, spec_anchor_ids, spec_anchor_suffix, spec_parse_link,
};

verus! {

/// Which parts of the preprocessor run.
pub struct MdzkOptions {
    pub wikilinks: bool,
    pub math: bool,
    pub readme: bool,
    pub front_matter: bool,
}

/// Whether a part is enabled by its setting: it is unless set to `false`.
pub fn enabled(setting: Option<bool>) -> (b: bool)
    ensures
        b == !(setting == Some(false)),
{
    match setting {
        Some(false) => false,
        _ => true,
    }
}

/// A chapter's name, content and path, as plain text.
pub struct ChapterView {
    pub name: Seq<char>,
    pub content: Seq<char>,
    pub path: Option<Seq<char>>,
}

/// The name, content and path of `c`.
pub open spec fn view_of(c: Chapter) -> ChapterView {
    ChapterView { name: c.name@, content: c.content@, path: opt_text(c.path) }
}

/// A chapter with its front matter (title and date text) applied.
pub open spec fn front_view(c: ChapterView, title: Option<Seq<char>>, date: Option<Seq<char>>) -> ChapterView {
    ChapterView {
        name: match title {
            Some(t) => t,
            None => c.name,
        },
        content: spec_strip_front_matter(c.content) + match date {
            Some(d) => date_div(d),
            None => Seq::empty(),
        },
        path: c.path,
    }
}

/// A chapter with its `README` conversion done.
pub open spec fn readme_view(c: ChapterView) -> ChapterView {
    match c.path {
        Some(p) => if spec_is_readme_file(p) {
            ChapterView { name: c.name, content: c.content, path: Some(with_index_file_name(p)) }
        } else {
            ChapterView { name: c.name, content: spec_readme_links(c.content), path: c.path }
        },
        None => c,
    }
}

/// A chapter after the first pass: front matter, then `README` conversion.
pub open spec fn first_pass(
    c: ChapterView,
    front: Option<(Option<Seq<char>>, Option<Seq<char>>)>,
    opts: MdzkOptions,
) -> ChapterView {
    let c1 = if opts.front_matter {
        match front {
            Some((t, d)) => front_view(c, t, d),
            None => c,
        }
    } else {
        c
    };
    if opts.readme {
        readme_view(c1)
    } else {
        c1
    }
}

/// A chapter's front matter as plain text: its title and its date text.
pub open spec fn front_text(f: Option<(FrontMatterConfig, Option<String>)>) -> Option<
    (Option<Seq<char>>, Option<Seq<char>>),
> {
    match f {
        Some((cfg, d)) => Some((opt_text(cfg.title), opt_text(d))),
        None => None,
    }
}

/// The chapters of `items` after the first pass (none for other items).
pub open spec fn first_pass_items(
    items: Seq<BookItem>,
    fronts: Seq<Option<(Option<Seq<char>>, Option<Seq<char>>)>>,
    opts: MdzkOptions,
) -> Seq<Option<ChapterView>> {
    Seq::new(
        items.len(),
        |i: int|
            match items[i] {
                BookItem::Chapter(c) => Some(first_pass(view_of(c), fronts[i], opts)),
                _ => None,
            },
    )
}

/// The path each chapter name names: of chapters with a path and one name, the last.
pub open spec fn views_index(vs: Seq<Option<ChapterView>>) -> Map<Seq<char>, Seq<char>>
    decreases vs.len(),
{
    if vs.len() == 0 {
        Map::empty()
    } else {
        let m = views_index(vs.drop_last());
        match vs.last() {
            Some(c) => match c.path {
                Some(p) => m.insert(c.name, p),
                None => m,
            },
            None => m,
        }
    }
}

/// The path a wikilink with the parts `p` leads to: its note name itself
/// when no chapter has a path, the path of the chapter with that name, or
/// none.
pub open spec fn dest_of(p: SpecLinkParts, index: Map<Seq<char>, Seq<char>>) -> Option<Seq<char>> {
    if index == Map::<Seq<char>, Seq<char>>::empty() {
        Some(p.note)
    } else if index.contains_key(p.note) {
        Some(index[p.note])
    } else {
        None
    }
}

/// What a wikilink with the parts `p` becomes in the chapter at `file`.
pub open spec fn mdzk_link_cmark(
    p: SpecLinkParts,
    index: Map<Seq<char>, Seq<char>>,
    file: Seq<char>,
) -> Seq<char> {
    let title = match p.alias {
        Some(a) => a,
        None => p.note,
    };
    match dest_of(p, index) {
        Some(path) => {
            let href = spec_diff_from_parent(path, file)->Some_0 + spec_anchor_suffix(
                spec_anchor_ids(p.anchor),
            );
            seq!['['] + title + seq![']', '(', '<'] + escape_href_bytes(
                vstd::utf8::encode_utf8(href),
            ) + seq!['>', ')']
        },
        None => missing_link_open() + title + missing_link_close(),
    }
}

/// The content after the wikilinks `texts` are replaced, one after the
/// other, by what they become in the chapter at `file`.
pub open spec fn mdzk_rewrite(
    texts: Seq<Seq<char>>,
    content: Seq<char>,
    file: Seq<char>,
    index: Map<Seq<char>, Seq<char>>,
) -> Seq<char>
    decreases texts.len(),
{
    if texts.len() == 0 {
        content
    } else {
        let c = mdzk_rewrite(texts.drop_last(), content, file, index);
        let t = texts.last();
        match spec_parse_link(t) {
            Ok(p) => replace_first(c, link_pattern(t), mdzk_link_cmark(p, index, file)),
            Err(_) => c,
        }
    }
}

/// A chapter's content after the second pass: wikilinks, then math.
pub open spec fn second_pass(c: ChapterView, index: Map<Seq<char>, Seq<char>>, opts: MdzkOptions) -> Seq<
    char,
> {
    let c2 = if opts.wikilinks {
        mdzk_rewrite(link_texts(c.content), c.content, path_or_empty_seq(c.path), index)
    } else {
        c.content
    };
    if opts.math {
        spec_render_math(c2)
    } else {
        c2
    }
}

/// The backlinks that the wikilinks `texts` of chapter `b` give the path
/// `key`: its path and name, once for each link that leads there.
pub open spec fn entries_from(
    texts: Seq<Seq<char>>,
    b: ChapterView,
    key: Seq<char>,
    index: Map<Seq<char>, Seq<char>>,
) -> Seq<(Seq<char>, Seq<char>)>
    decreases texts.len(),
{
    if texts.len() == 0 {
        Seq::empty()
    } else {
        let init = entries_from(texts.drop_last(), b, key, index);
        match spec_parse_link(texts.last()) {
            Ok(p) => match dest_of(p, index) {
                Some(d) => if components(d) == components(key) {
                    init.push((path_or_empty_seq(b.path), b.name))
                } else {
                    init
                },
                None => init,
            },
            Err(_) => init,
        }
    }
}

/// A path, empty when there is none.
pub open spec fn path_or_empty_seq(p: Option<Seq<char>>) -> Seq<char> {
    match p {
        Some(s) => s,
        None => Seq::empty(),
    }
}

/// The backlinks of the path `key` from all chapters `vs`, in order.
pub open spec fn backlink_entries(
    vs: Seq<Option<ChapterView>>,
    key: Seq<char>,
    index: Map<Seq<char>, Seq<char>>,
) -> Seq<(Seq<char>, Seq<char>)>
    decreases vs.len(),
{
    if vs.len() == 0 {
        Seq::empty()
    } else {
        backlink_entries(vs.drop_last(), key, index) + match vs.last() {
            Some(b) => entries_from(link_texts(b.content), b, key, index),
            None => Seq::empty(),
        }
    }
}

/// The lines that list the backlinks `es` in the chapter at `file`.
pub open spec fn mdzk_backlink_lines(es: Seq<(Seq<char>, Seq<char>)>, file: Seq<char>) -> Seq<char>
    decreases es.len(),
{
    if es.len() == 0 {
        Seq::empty()
    } else {
        mdzk_backlink_lines(es.drop_last(), file) + "> - ["@ + es.last().1 + "](<"@
            + spec_diff_from_parent(es.last().0, file)->Some_0 + ">)\n"@
    }
}

/// The content of the chapter `c` of `vs` after all passes.
pub open spec fn final_content(
    c: ChapterView,
    vs: Seq<Option<ChapterView>>,
    opts: MdzkOptions,
) -> Seq<char> {
    let index = views_index(vs);
    let c2 = second_pass(c, index, opts);
    match c.path {
        Some(p) => {
            let es = if opts.wikilinks {
                backlink_entries(vs, p, index)
            } else {
                Seq::empty()
            };
            if es.len() > 0 {
                c2 + mdzk_backlink_lines(es, p)
            } else {
                c2
            }
        },
        None => c2,
    }
}

/// Whether a path has a parent.
pub open spec fn has_parent(p: Seq<char>) -> bool {
    parent_components(components(p)) is Some
}

/// Whether the wikilinks of chapter `c` can be written: when it has links
/// that read as such it has a path with a parent, and the paths they lead
/// to can be written relative to it.
pub open spec fn chapter_links_ok(c: ChapterView, index: Map<Seq<char>, Seq<char>>) -> bool {
    forall|t: int|
        0 <= t < link_texts(c.content).len() ==> match spec_parse_link(
            #[trigger] link_texts(c.content)[t],
        ) {
            Ok(p) => c.path is Some && has_parent(c.path->Some_0) && (dest_of(p, index) matches Some(
                d,
            ) ==> spec_diff_from_parent(d, c.path->Some_0) is Some),
            Err(_) => true,
        }
}

/// Whether the backlinks of chapter `c` can be written relative to it.
pub open spec fn chapter_backlinks_ok(c: ChapterView, vs: Seq<Option<ChapterView>>) -> bool {
    c.path matches Some(p) ==> forall|e: int|
        0 <= e < backlink_entries(vs, p, views_index(vs)).len() ==> spec_diff_from_parent(
            (#[trigger] backlink_entries(vs, p, views_index(vs))[e]).0,
            p,
        ) is Some
}

/// Whether the preprocessor can write every link of the chapters `vs`.
pub open spec fn links_ok(vs: Seq<Option<ChapterView>>, opts: MdzkOptions) -> bool {
    opts.wikilinks ==> forall|i: int|
        0 <= i < vs.len() ==> (#[trigger] vs[i] matches Some(c) ==> chapter_links_ok(
            c,
            views_index(vs),
        ) && chapter_backlinks_ok(c, vs))
}


/// The chapters of `items` as plain text (none for other items).
pub open spec fn chapter_views(items: Seq<BookItem>) -> Seq<Option<ChapterView>> {
    Seq::new(
        items.len(),
        |i: int|
            match items[i] {
                BookItem::Chapter(c) => Some(view_of(c)),
                _ => None,
            },
    )
}

/// The index of an index of paths, as plain text.
pub open spec fn index_text(m: Map<Seq<char>, String>) -> Map<Seq<char>, Seq<char>> {
    m.map_values(|s: String| s@)
}

/// Whether `after` is `before` after the first pass with the front matter `front`.
pub open spec fn first_passed(
    before: BookItem,
    after: BookItem,
    front: Option<(Option<Seq<char>>, Option<Seq<char>>)>,
    opts: MdzkOptions,
) -> bool {
    match before {
        BookItem::Chapter(c) => after matches BookItem::Chapter(d) && d.number == c.number
            && d.has_sub_items == c.has_sub_items && d.source_path == c.source_path && view_of(d)
            == first_pass(view_of(c), front, opts),
        _ => after == before,
    }
}

fn first_pass_chapter(c: Chapter, front: Option<(FrontMatterConfig, Option<String>)>, opts: &MdzkOptions) -> (r: Chapter)
    ensures
        first_passed(BookItem::Chapter(c), BookItem::Chapter(r), front_text(front), *opts),
{
    let mut ch = c;
    if opts.front_matter {
        match front {
            Some((cfg, date)) => {
                apply_front_matter_with(&mut ch, cfg, date);
            },
            None => {},
        }
    }
    let ghost mid = view_of(ch);
    if opts.readme {
        convert_readme(&mut ch);
        proof {
            match mid.path {
                Some(p) => {},
                None => {},
            }
        }
    }
    ch
}

fn first_pass_exec(
    items: Vec<BookItem>,
    fronts: Vec<Option<(FrontMatterConfig, Option<String>)>>,
    opts: &MdzkOptions,
) -> (r: Vec<BookItem>)
    requires
        fronts@.len() == items@.len(),
    ensures
        r@.len() == items@.len(),
        forall|i: int|
            0 <= i < items@.len() ==> first_passed(
                #[trigger] items@[i],
                r@[i],
                front_text(fronts@[i]),
                *opts,
            ),
{
    let ghost before = items@;
    let ghost fs = fronts@;
    let mut items = items;
    let mut fronts = fronts;
    let mut out: Vec<BookItem> = Vec::new();
    let mut k = items.len();
    while k > 0
        invariant
            k <= before.len(),
            fs.len() == before.len(),
            items@ == before.subrange(0, k as int),
            fronts@ == fs.subrange(0, k as int),
            out@.len() == before.len() - k,
            forall|t: int|
                0 <= t < out@.len() ==> first_passed(
                    #[trigger] before[k + t],
                    out@[t],
                    front_text(fs[k + t]),
                    *opts,
                ),
        decreases k,
    {
        let item = items.pop().unwrap();
        let front = fronts.pop().unwrap();
        k = k - 1;
        assert(item == before[k as int]);
        assert(front == fs[k as int]);
        let new_item = match item {
            BookItem::Chapter(c) => BookItem::Chapter(first_pass_chapter(c, front, opts)),
            other => other,
        };
        let ghost prev = out@;
        out.insert(0, new_item);
        assert forall|t: int| 0 <= t < out@.len() implies first_passed(
            #[trigger] before[k + t],
            out@[t],
            front_text(fs[k + t]),
            *opts,
        ) by {
            if t > 0 {
                assert(out@[t] == prev[t - 1]);
                assert(before[k + t] == before[(k + 1) + (t - 1)]);
                assert(fs[k + t] == fs[(k + 1) + (t - 1)]);
            }
        }
        assert(items@ =~= before.subrange(0, k as int));
        assert(fronts@ =~= fs.subrange(0, k as int));
    }
    proof {
        assert forall|i: int| 0 <= i < before.len() implies first_passed(
            #[trigger] before[i],
            out@[i],
            front_text(fs[i]),
            *opts,
        ) by {
            assert(before[0 + i] == before[i]);
            assert(fs[0 + i] == fs[i]);
        }
    }
    out
}

fn build_views_index(items: &Vec<BookItem>) -> (r: NameMap<String>)
    ensures
        index_text(r@) == views_index(chapter_views(items@)),
{
    let mut index: NameMap<String> = NameMap::new();
    let mut k: usize = 0;
    assert(index_text(index@) =~= Map::<Seq<char>, Seq<char>>::empty());
    while k < items.len()
        invariant
            k <= items@.len(),
            index_text(index@) == views_index(chapter_views(items@).subrange(0, k as int)),
        decreases items@.len() - k,
    {
        let ghost vs = chapter_views(items@);
        proof {
            let pre = vs.subrange(0, k + 1);
            assert(pre.drop_last() =~= vs.subrange(0, k as int));
            assert(pre.last() == vs[k as int]);
        }
        let ghost m0 = index@;
        match &items[k] {
            BookItem::Chapter(c) => match &c.path {
                Some(p) => {
                    index.insert(c.name.as_str(), p.clone());
                    assert(index_text(index@) =~= index_text(m0).insert(c.name@, p@));
                },
                None => {},
            },
            _ => {},
        }
        k = k + 1;
    }
    assert(chapter_views(items@).subrange(0, items@.len() as int) =~= chapter_views(items@));
    index
}

proof fn lemma_index_text_empty(m: Map<Seq<char>, String>)
    ensures
        (m == Map::<Seq<char>, String>::empty()) == (index_text(m) == Map::<Seq<char>, Seq<char>>::empty()),
{
    if m == Map::<Seq<char>, String>::empty() {
        assert(index_text(m) =~= Map::<Seq<char>, Seq<char>>::empty());
    } else {
        if index_text(m) == Map::<Seq<char>, Seq<char>>::empty() {
            assert(m =~= Map::<Seq<char>, String>::empty()) by {
                assert forall|k: Seq<char>| !m.contains_key(k) by {
                    if m.contains_key(k) {
                        assert(index_text(m).contains_key(k));
                    }
                }
            }
        }
    }
}

fn dest_exec(parts: &LinkParts, index: &NameMap<String>) -> (r: Option<String>)
    ensures
        opt_text(r) == dest_of(parts@, index_text(index@)),
{
    proof {
        lemma_index_text_empty(index@);
    }
    if index.is_empty() {
        Some(parts.note.clone())
    } else {
        match index.get(&chars_of(parts.note.as_str())) {
            Some(p) => Some(p.clone()),
            None => None,
        }
    }
}

fn mdzk_cmark_exec(parts: &LinkParts, index: &NameMap<String>, file: &Option<String>) -> (r: Vec<char>)
    requires
        dest_of(parts@, index_text(index@)) matches Some(d) ==> file is Some && spec_diff_from_parent(
            d,
            file->Some_0@,
        ) is Some,
    ensures
        r@ == mdzk_link_cmark(parts@, index_text(index@), path_or_empty(*file)),
{
    let title = match &parts.alias {
        Some(a) => a.clone(),
        None => parts.note.clone(),
    };
    let r = match dest_exec(parts, index) {
        Some(dest) => {
            let cur = file.as_ref().unwrap();
            let rel = diff_from_parent(dest.as_str(), cur.as_str()).unwrap();
            let mut href = chars_of(rel.as_str());
            extend_chars(&mut href, &crate::wikilink::anchor_suffix(&anchor_ids(&parts.anchor)));
            let esc = crate::text::escape_special_chars(string_of(&href).as_str());
            let mut c = vec!['['];
            extend_chars(&mut c, &chars_of(title.as_str()));
            c.push(']');
            c.push('(');
            c.push('<');
            extend_chars(&mut c, &chars_of(esc.as_str()));
            c.push('>');
            c.push(')');
            c
        },
        None => {
            let mut c = chars_of("<span class=\"missing-link\" style=\"color:darkred;\">");
            extend_chars(&mut c, &chars_of(title.as_str()));
            extend_chars(&mut c, &chars_of("</span>"));
            c
        },
    };
    assert(r@ =~= mdzk_link_cmark(parts@, index_text(index@), path_or_empty(*file)));
    r
}

fn rewrite_exec(content: &str, file: &Option<String>, index: &NameMap<String>) -> (r: Vec<char>)
    requires
        chapter_links_ok(
            ChapterView { name: Seq::empty(), content: content@, path: opt_text(*file) },
            index_text(index@),
        ),
    ensures
        r@ == mdzk_rewrite(link_texts(content@), content@, path_or_empty(*file), index_text(index@)),
{
    let texts = crate::markdown::for_each_internal_link(content);
    let ghost ts = link_texts(content@);
    assert(texts@.map_values(|t: String| t@) =~= ts);
    let mut out = chars_of(content);
    let mut k: usize = 0;
    while k < texts.len()
        invariant
            k <= texts@.len(),
            texts@.map_values(|t: String| t@) == ts,
            ts == link_texts(content@),
            chapter_links_ok(
                ChapterView { name: Seq::empty(), content: content@, path: opt_text(*file) },
                index_text(index@),
            ),
            out@ == mdzk_rewrite(ts.subrange(0, k as int), content@, path_or_empty(*file), index_text(index@)),
        decreases texts@.len() - k,
    {
        let text = texts[k].as_str();
        assert(ts[k as int] == text@);
        proof {
            let pre = ts.subrange(0, k + 1);
            assert(pre.drop_last() =~= ts.subrange(0, k as int));
            assert(pre.last() == ts[k as int]);
        }
        match parse_link(text) {
            Ok(parts) => {
                let cm = mdzk_cmark_exec(&parts, index, file);
                let mut pat = vec!['[', '['];
                extend_chars(&mut pat, &chars_of(text));
                pat.push(']');
                pat.push(']');
                assert(pat@ =~= link_pattern(text@));
                out = replace_first_chars(&out, &pat, &cm);
            },
            Err(_) => {},
        }
        k = k + 1;
    }
    assert(ts.subrange(0, ts.len() as int) =~= ts);
    out
}

fn entries_exec(
    items: &Vec<BookItem>,
    texts: &Vec<Vec<String>>,
    key: &String,
    index: &NameMap<String>,
) -> (r: Vec<(String, String)>)
    requires
        texts@.len() == items@.len(),
        forall|j: int|
            0 <= j < items@.len() ==> match #[trigger] items@[j] {
                BookItem::Chapter(b) => texts@[j]@.map_values(|t: String| t@) == link_texts(b.content@),
                _ => true,
            },
    ensures
        r@.map_values(|e: (String, String)| (e.0@, e.1@)) == backlink_entries(
            chapter_views(items@),
            key@,
            index_text(index@),
        ),
{
    let ghost vs = chapter_views(items@);
    let ghost idx = index_text(index@);
    let mut out: Vec<(String, String)> = Vec::new();
    let mut k: usize = 0;
    while k < items.len()
        invariant
            k <= items@.len(),
            vs == chapter_views(items@),
            idx == index_text(index@),
            texts@.len() == items@.len(),
            forall|j: int|
                0 <= j < items@.len() ==> match #[trigger] items@[j] {
                    BookItem::Chapter(b) => texts@[j]@.map_values(|t: String| t@) == link_texts(b.content@),
                    _ => true,
                },
            out@.map_values(|e: (String, String)| (e.0@, e.1@)) == backlink_entries(
                vs.subrange(0, k as int),
                key@,
                idx,
            ),
        decreases items@.len() - k,
    {
        proof {
            let pre = vs.subrange(0, k + 1);
            assert(pre.drop_last() =~= vs.subrange(0, k as int));
            assert(pre.last() == vs[k as int]);
        }
        match &items[k] {
            BookItem::Chapter(b) => {
                let ts = &texts[k];
                let ghost tv = link_texts(b.content@);
                let ghost bv = view_of(*b);
                let ghost start = out@.map_values(|e: (String, String)| (e.0@, e.1@));
                let bpath = match &b.path {
                    Some(p) => p.clone(),
                    None => String::new(),
                };
                assert(bpath@ == path_or_empty_seq(bv.path));
                let mut t: usize = 0;
                assert(tv.subrange(0, 0) =~= Seq::<Seq<char>>::empty());
                while t < ts.len()
                    invariant
                        t <= ts@.len(),
                        ts@.map_values(|x: String| x@) == tv,
                        bv == view_of(*b),
                        bpath@ == path_or_empty_seq(bv.path),
                        idx == index_text(index@),
                        out@.map_values(|e: (String, String)| (e.0@, e.1@)) == start + entries_from(
                            tv.subrange(0, t as int),
                            bv,
                            key@,
                            idx,
                        ),
                    decreases ts@.len() - t,
                {
                    proof {
                        let pre = tv.subrange(0, t + 1);
                        assert(pre.drop_last() =~= tv.subrange(0, t as int));
                        assert(pre.last() == tv[t as int]);
                        assert(tv[t as int] == ts@[t as int]@);
                    }
                    let ghost before = out@.map_values(|e: (String, String)| (e.0@, e.1@));
                    let ghost init = entries_from(tv.subrange(0, t as int), bv, key@, idx);
                    let ghost next = entries_from(tv.subrange(0, t + 1), bv, key@, idx);
                    assert(before == start + init);
                    match parse_link(ts[t].as_str()) {
                        Ok(parts) => match dest_exec(&parts, index) {
                            Some(d) => {
                                if same_path(d.as_str(), key.as_str()) {
                                    out.push((bpath.clone(), b.name.clone()));
                                    assert(next == init.push((path_or_empty_seq(bv.path), bv.name)));
                                    assert(out@.map_values(|e: (String, String)| (e.0@, e.1@)) =~= before.push(
                                        (bpath@, b.name@),
                                    ));
                                    let ghost x = (bpath@, b.name@);
                                    assert(x == (path_or_empty_seq(bv.path), bv.name));
                                    assert((start + init).push(x) =~= start + init.push(x));
                                } else {
                                    assert(next == init);
                                }
                            },
                            None => {
                                assert(next == init);
                            },
                        },
                        Err(_) => {
                            assert(next == init);
                        },
                    }
                    t = t + 1;
                }
                assert(tv.subrange(0, tv.len() as int) =~= tv);
            },
            _ => {
                assert(out@.map_values(|e: (String, String)| (e.0@, e.1@)) =~= out@.map_values(
                    |e: (String, String)| (e.0@, e.1@),
                ) + Seq::<(Seq<char>, Seq<char>)>::empty());
            },
        }
        k = k + 1;
    }
    assert(vs.subrange(0, vs.len() as int) =~= vs);
    out
}

fn backlink_lines_exec(es: &Vec<(String, String)>, file: &String) -> (r: Vec<char>)
    requires
        forall|e: int|
            0 <= e < es@.len() ==> spec_diff_from_parent((#[trigger] es@[e]).0@, file@) is Some,
    ensures
        r@ == mdzk_backlink_lines(es@.map_values(|e: (String, String)| (e.0@, e.1@)), file@),
{
    let ghost ev = es@.map_values(|e: (String, String)| (e.0@, e.1@));
    let mut out: Vec<char> = Vec::new();
    let mut k: usize = 0;
    while k < es.len()
        invariant
            k <= es@.len(),
            ev == es@.map_values(|e: (String, String)| (e.0@, e.1@)),
            forall|e: int|
                0 <= e < es@.len() ==> spec_diff_from_parent((#[trigger] es@[e]).0@, file@) is Some,
            out@ == mdzk_backlink_lines(ev.subrange(0, k as int), file@),
        decreases es@.len() - k,
    {
        proof {
            let pre = ev.subrange(0, k + 1);
            assert(pre.drop_last() =~= ev.subrange(0, k as int));
            assert(pre.last() == ev[k as int]);
        }
        let rel = diff_from_parent(es[k].0.as_str(), file.as_str()).unwrap();
        let ghost before = out@;
        extend_chars(&mut out, &chars_of("> - ["));
        extend_chars(&mut out, &chars_of(es[k].1.as_str()));
        extend_chars(&mut out, &chars_of("](<"));
        extend_chars(&mut out, &chars_of(rel.as_str()));
        extend_chars(&mut out, &chars_of(">)\n"));
        assert(out@ =~= before + "> - ["@ + ev[k as int].1 + "](<"@ + rel@ + ">)\n"@);
        k = k + 1;
    }
    assert(ev.subrange(0, ev.len() as int) =~= ev);
    out
}


fn has_parent_exec(p: &str) -> (b: bool)
    ensures
        b == has_parent(p@),
{
    let s = chars_of(p);
    let cs = crate::path::path_components(&s);
    if cs.len() == 0 {
        return false;
    }
    let last = cs.len() - 1;
    assert(components(p@).last() == crate::path::comp_view(s@, cs@[last as int]));
    match cs[last].kind {
        crate::path::CompKind::RootDir => false,
        _ => true,
    }
}

fn chapter_links_ok_exec(content: &str, file: &Option<String>, index: &NameMap<String>) -> (b: bool)
    ensures
        b == chapter_links_ok(
            ChapterView { name: Seq::empty(), content: content@, path: opt_text(*file) },
            index_text(index@),
        ),
{
    let ghost cv = ChapterView { name: Seq::empty(), content: content@, path: opt_text(*file) };
    let texts = crate::markdown::for_each_internal_link(content);
    let ghost ts = link_texts(content@);
    assert(texts@.map_values(|t: String| t@) =~= ts);
    let mut k: usize = 0;
    while k < texts.len()
        invariant
            k <= texts@.len(),
            texts@.map_values(|t: String| t@) == ts,
            ts == link_texts(content@),
            cv == (ChapterView { name: Seq::empty(), content: content@, path: opt_text(*file) }),
            forall|t: int|
                0 <= t < k ==> match spec_parse_link(#[trigger] ts[t]) {
                    Ok(p) => cv.path is Some && has_parent(cv.path->Some_0) && (dest_of(
                        p,
                        index_text(index@),
                    ) matches Some(d) ==> spec_diff_from_parent(d, cv.path->Some_0) is Some),
                    Err(_) => true,
                },
        decreases texts@.len() - k,
    {
        let text = texts[k].as_str();
        assert(ts[k as int] == text@);
        match parse_link(text) {
            Ok(parts) => {
                let cur = match file {
                    Some(f) => f,
                    None => {
                        return false;
                    },
                };
                if !has_parent_exec(cur.as_str()) {
                    return false;
                }
                match dest_exec(&parts, index) {
                    Some(d) => {
                        if diff_from_parent(d.as_str(), cur.as_str()).is_none() {
                            return false;
                        }
                    },
                    None => {},
                }
            },
            Err(_) => {},
        }
        k = k + 1;
    }
    true
}

fn copy_text(o: &Option<String>) -> (r: Option<String>)
    ensures
        opt_text(r) == opt_text(*o),
{
    match o {
        Some(s) => Some(s.clone()),
        None => None,
    }
}

/// The chapters of `items` after the first pass, as chapters that carry
/// only their name, content and path (other items become separators).
fn first_pass_views(
    items: &Vec<BookItem>,
    fronts: &Vec<Option<(FrontMatterConfig, Option<String>)>>,
    opts: &MdzkOptions,
) -> (r: Vec<BookItem>)
    requires
        fronts@.len() == items@.len(),
    ensures
        chapter_views(r@) == first_pass_items(
            items@,
            fronts@.map_values(|f: Option<(FrontMatterConfig, Option<String>)>| front_text(f)),
            *opts,
        ),
{
    let ghost fts = fronts@.map_values(|f: Option<(FrontMatterConfig, Option<String>)>| front_text(f));
    let mut r: Vec<BookItem> = Vec::new();
    let mut k: usize = 0;
    while k < items.len()
        invariant
            k <= items@.len(),
            fronts@.len() == items@.len(),
            fts == fronts@.map_values(|f: Option<(FrontMatterConfig, Option<String>)>| front_text(f)),
            r@.len() == k,
            forall|j: int|
                0 <= j < k ==> #[trigger] chapter_views(r@)[j] == first_pass_items(items@, fts, *opts)[j],
        decreases items@.len() - k,
    {
        let ghost prev = r@;
        let item = match &items[k] {
            BookItem::Chapter(c) => {
                let copy = Chapter {
                    name: c.name.clone(),
                    content: c.content.clone(),
                    number: None,
                    has_sub_items: false,
                    path: copy_text(&c.path),
                    source_path: None,
                };
                let front = match &fronts[k] {
                    Some((cfg, d)) => Some(
                        (FrontMatterConfig { title: copy_text(&cfg.title), date: copy_text(&cfg.date) }, copy_text(d)),
                    ),
                    None => None,
                };
                assert(view_of(copy) == view_of(*c));
                assert(front_text(front) == fts[k as int]);
                BookItem::Chapter(first_pass_chapter(copy, front, opts))
            },
            _ => BookItem::Separator,
        };
        r.push(item);
        proof {
            assert forall|j: int| 0 <= j < k + 1 implies #[trigger] chapter_views(r@)[j] == first_pass_items(
                items@,
                fts,
                *opts,
            )[j] by {
                if j < k {
                    assert(r@[j] == prev[j]);
                    assert(chapter_views(prev)[j] == first_pass_items(items@, fts, *opts)[j]);
                }
            }
        }
        k = k + 1;
    }
    assert(chapter_views(r@) =~= first_pass_items(items@, fts, *opts));
    r
}

impl MdzkPreprocessor {
    /// Whether every link the preprocessor writes for `book` (with the front
    /// matter `fronts` of its items) can be written, as `run` needs: each
    /// wikilink stands in a chapter with a path that has a parent, and its
    /// destination and every backlink can be written relative to it.
    pub fn links_writable(
        &self,
        opts: &MdzkOptions,
        fronts: &Vec<Option<(FrontMatterConfig, Option<String>)>>,
        book: &Book,
    ) -> (b: bool)
        requires
            fronts@.len() == book.items@.len(),
        ensures
            b == links_ok(
                first_pass_items(
                    book.items@,
                    fronts@.map_values(|f: Option<(FrontMatterConfig, Option<String>)>| front_text(f)),
                    *opts,
                ),
                *opts,
            ),
    {
        let ghost vs = first_pass_items(
            book.items@,
            fronts@.map_values(|f: Option<(FrontMatterConfig, Option<String>)>| front_text(f)),
            *opts,
        );
        if !opts.wikilinks {
            return true;
        }
        let mid = first_pass_views(&book.items, fronts, opts);
        let index = build_views_index(&mid);
        let mut texts: Vec<Vec<String>> = Vec::new();
        let mut k: usize = 0;
        while k < mid.len()
            invariant
                k <= mid@.len(),
                texts@.len() == k,
                forall|j: int|
                    0 <= j < k ==> match #[trigger] mid@[j] {
                        BookItem::Chapter(b) => texts@[j]@.map_values(|t: String| t@) == link_texts(b.content@),
                        _ => true,
                    },
            decreases mid@.len() - k,
        {
            match &mid[k] {
                BookItem::Chapter(b) => {
                    let ts = crate::markdown::for_each_internal_link(b.content.as_str());
                    assert(ts@.map_values(|t: String| t@) =~= link_texts(b.content@));
                    texts.push(ts);
                },
                _ => texts.push(Vec::new()),
            }
            k = k + 1;
        }
        k = 0;
        while k < mid.len()
            invariant
                k <= mid@.len(),
                opts.wikilinks,
                vs == first_pass_items(
                    book.items@,
                    fronts@.map_values(|f: Option<(FrontMatterConfig, Option<String>)>| front_text(f)),
                    *opts,
                ),
                chapter_views(mid@) == vs,
                index_text(index@) == views_index(vs),
                texts@.len() == mid@.len(),
                forall|j: int|
                    0 <= j < mid@.len() ==> match #[trigger] mid@[j] {
                        BookItem::Chapter(b) => texts@[j]@.map_values(|t: String| t@) == link_texts(b.content@),
                        _ => true,
                    },
                forall|i: int|
                    0 <= i < k ==> (#[trigger] vs[i] matches Some(c) ==> chapter_links_ok(c, views_index(vs))
                        && chapter_backlinks_ok(c, vs)),
            decreases mid@.len() - k,
        {
            let ghost kk = k as int;
            assert(vs[kk] == chapter_views(mid@)[kk]);
            match &mid[k] {
                BookItem::Chapter(c) => {
                    assert(vs[kk] == Some(view_of(*c)));
                    if !chapter_links_ok_exec(c.content.as_str(), &c.path, &index) {
                        assert(!chapter_links_ok(view_of(*c), views_index(vs)));
                        return false;
                    }
                    match &c.path {
                        Some(p) => {
                            let es = entries_exec(&mid, &texts, p, &index);
                            let ghost ev = es@.map_values(|x: (String, String)| (x.0@, x.1@));
                            assert(ev == backlink_entries(vs, p@, views_index(vs)));
                            let mut e: usize = 0;
                            while e < es.len()
                                invariant
                                    e <= es@.len(),
                                    opts.wikilinks,
                                    vs == first_pass_items(
                                        book.items@,
                                        fronts@.map_values(|f: Option<(FrontMatterConfig, Option<String>)>| front_text(f)),
                                        *opts,
                                    ),
                                    vs[kk] == Some(view_of(*c)),
                                    0 <= kk < vs.len(),
                                    c.path == Some(*p),
                                    ev == backlink_entries(vs, p@, views_index(vs)),
                                    ev == es@.map_values(|x: (String, String)| (x.0@, x.1@)),
                                    forall|t: int| 0 <= t < e ==> spec_diff_from_parent((#[trigger] ev[t]).0, p@) is Some,
                                decreases es@.len() - e,
                            {
                                assert(ev[e as int] == (es@[e as int].0@, es@[e as int].1@));
                                if diff_from_parent(es[e].0.as_str(), p.as_str()).is_none() {
                                    assert(view_of(*c).path == Some(p@));
                                    assert(backlink_entries(vs, p@, views_index(vs))[e as int].0 == es@[e as int].0@);
                                    assert(!chapter_backlinks_ok(view_of(*c), vs));
                                    return false;
                                }
                                e = e + 1;
                            }
                            assert(chapter_backlinks_ok(view_of(*c), vs));
                        },
                        None => {},
                    }
                },
                _ => {},
            }
            k = k + 1;
        }
        true
    }
}

/// Whether `after` is the item `before` once preprocessed, where `v` is the
/// chapter after the first pass and `vs` all chapters after the first pass.
pub open spec fn preprocessed(
    before: BookItem,
    after: BookItem,
    v: Option<ChapterView>,
    vs: Seq<Option<ChapterView>>,
    opts: MdzkOptions,
) -> bool {
    match before {
        BookItem::Chapter(c) => after matches BookItem::Chapter(d) && d.number == c.number
            && d.has_sub_items == c.has_sub_items && d.source_path == c.source_path && d.name@
            == v->Some_0.name && opt_text(d.path) == v->Some_0.path && d.content@ == final_content(
            v->Some_0,
            vs,
            opts,
        ),
        _ => after == before,
    }
}

/// The mdzk preprocessor.
pub struct MdzkPreprocessor;

impl MdzkPreprocessor {
    /// The name the preprocessor is known by.
    pub fn name(&self) -> (r: &'static str)
        ensures
            r@ == "mdzk"@,
    {
        "mdzk"
    }

    /// Preprocesses `book` with the parts that `opts` enables.
    ///
    /// First, each chapter's front matter (given in `fronts`, with the text
    /// its date is shown as) is applied, and `README` pages become `index.md`
    /// (or links to them lead there).  Then each chapter's wikilinks become
    /// links to the chapters whose names they give (the last of chapters
    /// with one name), and its math becomes KaTeX markup.  Last, each chapter
    /// lists the chapters whose wikilinks lead to it, once per link.
    pub fn run(
        &self,
        opts: &MdzkOptions,
        fronts: Vec<Option<(FrontMatterConfig, Option<String>)>>,
        book: Book,
    ) -> (r: Book)
        requires
            fronts@.len() == book.items@.len(),
            links_ok(
                first_pass_items(
                    book.items@,
                    fronts@.map_values(|f: Option<(FrontMatterConfig, Option<String>)>| front_text(f)),
                    *opts,
                ),
                *opts,
            ),
        ensures
            r.items@.len() == book.items@.len(),
            forall|i: int|
                0 <= i < book.items@.len() ==> preprocessed(
                    #[trigger] book.items@[i],
                    r.items@[i],
                    first_pass_items(
                        book.items@,
                        fronts@.map_values(|f: Option<(FrontMatterConfig, Option<String>)>| front_text(f)),
                        *opts,
                    )[i],
                    first_pass_items(
                        book.items@,
                        fronts@.map_values(|f: Option<(FrontMatterConfig, Option<String>)>| front_text(f)),
                        *opts,
                    ),
                    *opts,
                ),
    {
        let ghost before = book.items@;
        let ghost fts = fronts@.map_values(|f: Option<(FrontMatterConfig, Option<String>)>| front_text(f));
        let ghost vs = first_pass_items(before, fts, *opts);
        let mid = first_pass_exec(book.items, fronts, opts);
        proof {
            assert forall|i: int| 0 <= i < before.len() implies #[trigger] chapter_views(mid@)[i] == vs[i] by {
                assert(first_passed(before[i], mid@[i], front_text(fronts@[i]), *opts));
            }
            assert(chapter_views(mid@) =~= vs);
        }
        let index = build_views_index(&mid);
        let ghost idx = index_text(index@);
        let mut texts: Vec<Vec<String>> = Vec::new();
        let mut k: usize = 0;
        while k < mid.len()
            invariant
                k <= mid@.len(),
                texts@.len() == k,
                forall|j: int|
                    0 <= j < k ==> match #[trigger] mid@[j] {
                        BookItem::Chapter(b) => texts@[j]@.map_values(|t: String| t@) == link_texts(b.content@),
                        _ => true,
                    },
            decreases mid@.len() - k,
        {
            match &mid[k] {
                BookItem::Chapter(b) => {
                    let ts = crate::markdown::for_each_internal_link(b.content.as_str());
                    assert(ts@.map_values(|t: String| t@) =~= link_texts(b.content@));
                    texts.push(ts);
                },
                _ => texts.push(Vec::new()),
            }
            k = k + 1;
        }
        let mut contents: Vec<Option<Vec<char>>> = Vec::new();
        k = 0;
        while k < mid.len()
            invariant
                k <= mid@.len(),
                mid@.len() == before.len(),
                chapter_views(mid@) == vs,
                idx == index_text(index@),
                idx == views_index(vs),
                links_ok(vs, *opts),
                texts@.len() == mid@.len(),
                forall|j: int|
                    0 <= j < mid@.len() ==> match #[trigger] mid@[j] {
                        BookItem::Chapter(b) => texts@[j]@.map_values(|t: String| t@) == link_texts(b.content@),
                        _ => true,
                    },
                contents@.len() == k,
                forall|j: int|
                    0 <= j < k ==> match #[trigger] mid@[j] {
                        BookItem::Chapter(c) => contents@[j] matches Some(v) && v@ == final_content(
                            vs[j]->Some_0,
                            vs,
                            *opts,
                        ),
                        _ => true,
                    },
            decreases mid@.len() - k,
        {
            let ghost kk = k as int;
            match &mid[k] {
                BookItem::Chapter(c) => {
                    let ghost cv = vs[kk]->Some_0;
                    assert(chapter_views(mid@)[kk] == Some(view_of(*c)));
                    assert(cv == view_of(*c));
                    let c2 = if opts.wikilinks {
                        assert(vs[kk] matches Some(cc) ==> chapter_links_ok(cc, views_index(vs)));
                        assert(chapter_links_ok(
                            ChapterView { name: Seq::empty(), content: c.content@, path: opt_text(c.path) },
                            index_text(index@),
                        ));
                        rewrite_exec(c.content.as_str(), &c.path, &index)
                    } else {
                        chars_of(c.content.as_str())
                    };
                    let mut c3 = if opts.math {
                        chars_of(render_math(string_of(&c2).as_str()).as_str())
                    } else {
                        c2
                    };
                    assert(c3@ == second_pass(cv, idx, *opts));
                    match &c.path {
                        Some(p) => {
                            if opts.wikilinks {
                                let es = entries_exec(&mid, &texts, p, &index);
                                assert(chapter_backlinks_ok(cv, vs));
                                assert(cv.path == Some(p@));
                                assert forall|e: int| 0 <= e < es@.len() implies spec_diff_from_parent(
                                    (#[trigger] es@[e]).0@,
                                    p@,
                                ) is Some by {
                                    let ev = es@.map_values(|x: (String, String)| (x.0@, x.1@));
                                    assert(ev[e] == (es@[e].0@, es@[e].1@));
                                    assert(ev == backlink_entries(vs, p@, views_index(vs)));
                                    assert(spec_diff_from_parent(backlink_entries(vs, p@, views_index(vs))[e].0, p@) is Some);
                                }
                                if es.len() > 0 {
                                    let lines = backlink_lines_exec(&es, p);
                                    extend_chars(&mut c3, &lines);
                                }
                            }
                        },
                        None => {},
                    }
                    assert(c3@ == final_content(cv, vs, *opts));
                    contents.push(Some(c3));
                },
                _ => contents.push(None),
            }
            k = k + 1;
        }
        let mut items = mid;
        let ghost mids = items@;
        let mut out: Vec<BookItem> = Vec::new();
        k = items.len();
        while k > 0
            invariant
                k <= before.len(),
                mids.len() == before.len(),
                items@ == mids.subrange(0, k as int),
                contents@.len() == k,
                chapter_views(mids) == vs,
                forall|j: int| 0 <= j < before.len() ==> first_passed(#[trigger] before[j], mids[j], fts[j], *opts),
                forall|j: int|
                    0 <= j < k ==> match #[trigger] mids[j] {
                        BookItem::Chapter(c) => contents@[j] matches Some(v) && v@ == final_content(
                            vs[j]->Some_0,
                            vs,
                            *opts,
                        ),
                        _ => true,
                    },
                out@.len() == before.len() - k,
                forall|t: int|
                    0 <= t < out@.len() ==> preprocessed(
                        #[trigger] before[k + t],
                        out@[t],
                        vs[k + t],
                        vs,
                        *opts,
                    ),
            decreases k,
        {
            let item = items.pop().unwrap();
            let content = contents.pop().unwrap();
            k = k - 1;
            assert(item == mids[k as int]);
            assert(first_passed(before[k as int], mids[k as int], fts[k as int], *opts));
            assert(chapter_views(mids)[k as int] == vs[k as int]);
            let new_item = match item {
                BookItem::Chapter(c) => {
                    let text = match content {
                        Some(v) => string_of(&v),
                        None => c.content.clone(),
                    };
                    BookItem::Chapter(Chapter { content: text, ..c })
                },
                other => other,
            };
            let ghost prev = out@;
            out.insert(0, new_item);
            assert forall|t: int| 0 <= t < out@.len() implies preprocessed(
                #[trigger] before[k + t],
                out@[t],
                vs[k + t],
                vs,
                *opts,
            ) by {
                if t > 0 {
                    assert(out@[t] == prev[t - 1]);
                    assert(before[k + t] == before[(k + 1) + (t - 1)]);
                    assert(vs[k + t] == vs[(k + 1) + (t - 1)]);
                }
            }
            assert(items@ =~= mids.subrange(0, k as int));
        }
        proof {
            assert forall|i: int| 0 <= i < before.len() implies preprocessed(
                #[trigger] before[i],
                out@[i],
                vs[i],
                vs,
                *opts,
            ) by {
                assert(before[0 + i] == before[i]);
                assert(vs[0 + i] == vs[i]);
            }
        }
        Book { items: out }
    }
}

/// What precedes a chapter's list of backlinks: a rule, then the header
/// `header` as a second-level heading when one is configured.
pub open spec fn spec_prefix(header: Option<String>) -> Seq<char> {
    "\n\n---\n\n"@ + match header {
        Some(h) => "## "@ + h@ + "\n\n"@,
        None => Seq::empty(),
    }
}

/// What precedes a chapter's list of backlinks, with the configured
/// backlinks header `header` (the text of `mdzk.backlinks-header`).
pub fn prefix(header: Option<String>) -> (r: String)
    ensures
        r@ == spec_prefix(header),
{
    let mut r = chars_of("\n\n---\n\n");
    let ghost start = r@;
    match &header {
        Some(h) => {
            extend_chars(&mut r, &chars_of("## "));
            extend_chars(&mut r, &chars_of(h.as_str()));
            extend_chars(&mut r, &chars_of("\n\n"));
        },
        None => {
            assert(r@ =~= start + Seq::<char>::empty());
        },
    }
    string_of(&r)
}

/// The heading of a list of backlinks, with the configured header `header`:
/// a third-level heading with the class `backlinks-header`, or nothing.
pub open spec fn spec_backlinks_header(header: Option<String>) -> Seq<char> {
    match header {
        Some(h) => "### "@ + h@ + " {.backlinks-header}"@,
        None => Seq::empty(),
    }
}

/// The heading of a list of backlinks, with the configured header `header`.
pub fn backlinks_header(header: Option<String>) -> (r: String)
    ensures
        r@ == spec_backlinks_header(header),
{
    match &header {
        Some(h) => {
            let mut r = chars_of("### ");
            extend_chars(&mut r, &chars_of(h.as_str()));
            extend_chars(&mut r, &chars_of(" {.backlinks-header}"));
            string_of(&r)
        },
        None => String::new(),
    }
}

/// The first entry of `map` whose path is the same path as `path`.
pub open spec fn lookup_path(map: Seq<(String, Vec<(String, String)>)>, path: Seq<char>) -> Option<
    Seq<(Seq<char>, Seq<char>)>,
>
    decreases map.len(),
{
    if map.len() == 0 {
        None
    } else if components(map[0].0@) == components(path) {
        Some(map[0].1@.map_values(|e: (String, String)| (e.0@, e.1@)))
    } else {
        lookup_path(map.drop_first(), path)
    }
}

/// The lines that list the backlinks `es` (path and name) in the chapter
/// at `file`, each a quoted list item linking to the path relative to the
/// chapter's directory.
pub open spec fn insert_lines(es: Seq<(Seq<char>, Seq<char>)>, file: Seq<char>) -> Seq<char>
    decreases es.len(),
{
    if es.len() == 0 {
        Seq::empty()
    } else {
        insert_lines(es.drop_last(), file) + "\n> - ["@ + es.last().1 + "](<"@
            + spec_diff_from_parent(es.last().0, file)->Some_0 + ">)"@
    }
}

/// Whether every backlink of `es` can be linked to from `file`.
pub open spec fn all_reachable(es: Seq<(Seq<char>, Seq<char>)>, file: Seq<char>) -> bool {
    forall|e: int| 0 <= e < es.len() ==> spec_diff_from_parent((#[trigger] es[e]).0, file) is Some
}

fn find_path(map: &Vec<(String, Vec<(String, String)>)>, path: &str) -> (r: Option<usize>)
    ensures
        match r {
            Some(i) => i < map@.len() && lookup_path(map@, path@) == Some(
                map@[i as int].1@.map_values(|e: (String, String)| (e.0@, e.1@)),
            ),
            None => lookup_path(map@, path@) is None,
        },
{
    let mut k: usize = 0;
    assert(map@.subrange(0, map@.len() as int) =~= map@);
    while k < map.len()
        invariant
            k <= map@.len(),
            lookup_path(map@, path@) == lookup_path(map@.subrange(k as int, map@.len() as int), path@),
        decreases map@.len() - k,
    {
        let ghost t = map@.subrange(k as int, map@.len() as int);
        assert(t[0] == map@[k as int]);
        if same_path(map[k].0.as_str(), path) {
            return Some(k);
        }
        assert(t.drop_first() =~= map@.subrange(k + 1, map@.len() as int));
        k = k + 1;
    }
    None
}

/// Lists at the end of chapter `ch` its backlinks from `backlinks_map` (the
/// entry for its path: the path and name of each chapter linking to it),
/// after `pre`, when it has a path and that entry has any.
pub fn insert_backlinks(ch: &mut Chapter, backlinks_map: &Vec<(String, Vec<(String, String)>)>, pre: &str)
    requires
        old(ch).path matches Some(p) ==> (lookup_path(backlinks_map@, p@) matches Some(es) ==> all_reachable(
            es,
            p@,
        )),
    ensures
        final(ch).name == old(ch).name,
        final(ch).number == old(ch).number,
        final(ch).has_sub_items == old(ch).has_sub_items,
        final(ch).path == old(ch).path,
        final(ch).source_path == old(ch).source_path,
        final(ch).content@ == match old(ch).path {
            Some(p) => match lookup_path(backlinks_map@, p@) {
                Some(es) => if es.len() > 0 {
                    old(ch).content@ + pre@ + insert_lines(es, p@)
                } else {
                    old(ch).content@
                },
                None => old(ch).content@,
            },
            None => old(ch).content@,
        },
{
    let path = match &ch.path {
        Some(p) => p.clone(),
        None => {
            return;
        },
    };
    let i = match find_path(backlinks_map, path.as_str()) {
        Some(i) => i,
        None => {
            return;
        },
    };
    let es = &backlinks_map[i].1;
    if es.len() == 0 {
        return;
    }
    let ghost ev = es@.map_values(|e: (String, String)| (e.0@, e.1@));
    let mut out = chars_of(ch.content.as_str());
    extend_chars(&mut out, &chars_of(pre));
    let ghost start = out@;
    let mut k: usize = 0;
    while k < es.len()
        invariant
            k <= es@.len(),
            ev == es@.map_values(|e: (String, String)| (e.0@, e.1@)),
            all_reachable(ev, path@),
            out@ == start + insert_lines(ev.subrange(0, k as int), path@),
        decreases es@.len() - k,
    {
        proof {
            let t = ev.subrange(0, k + 1);
            assert(t.drop_last() =~= ev.subrange(0, k as int));
            assert(t.last() == ev[k as int]);
            assert(spec_diff_from_parent(ev[k as int].0, path@) is Some);
        }
        let rel = diff_from_parent(es[k].0.as_str(), path.as_str()).unwrap();
        let ghost before = out@;
        extend_chars(&mut out, &chars_of("\n> - ["));
        extend_chars(&mut out, &chars_of(es[k].1.as_str()));
        extend_chars(&mut out, &chars_of("](<"));
        extend_chars(&mut out, &chars_of(rel.as_str()));
        extend_chars(&mut out, &chars_of(">)"));
        assert(out@ =~= before + "\n> - ["@ + ev[k as int].1 + "](<"@ + rel@ + ">)"@);
        k = k + 1;
    }
    assert(ev.subrange(0, ev.len() as int) =~= ev);
    ch.content = string_of(&out);
}

} // verus!
