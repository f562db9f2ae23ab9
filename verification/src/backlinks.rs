//! Backlinks: each chapter lists the chapters that link to it.
//!
//! Links are found as the text `[[link]]` or `[[link|title]]`: two opening
//! brackets, a link of characters other than `]` and `|`, optionally `|` and
//! a title of characters other than `]`, and two closing brackets.  The link
//! names the source file of a chapter, with or without its `.md` extension.

use vstd::prelude::*;
use crate::book::{Book, BookItem, Chapter, chapter_of, rewritten, same_but_content};
use crate::path::{components, diff_from_parent, spec_diff_from_parent, path_components, comps_view,
    is_clean_path, law_diff_from_parent_rejoins, normalize_onto, join_components};
use crate::text::{chars_of, extend_chars, slice_range, string_of};

verus! {

/// The first index at or after `i` whose character is `]`, or `|` when
/// `bar` is set; the length of `s` when there is none.
pub open spec fn run_end(s: Seq<char>, i: int, bar: bool) -> int
    decreases s.len() - i,
{
    if i < 0 || i >= s.len() {
        s.len() as int
    } else if s[i] == ']' || (bar && s[i] == '|') {
        i
    } else {
        run_end(s, i + 1, bar)
    }
}

/// The link written at `p`, if a link starts there: the end of its link
/// text and the end of the whole `[[...]]`.
pub open spec fn link_at(s: Seq<char>, p: int) -> Option<(int, int)> {
    if 0 <= p && p + 2 <= s.len() && s[p] == '[' && s[p + 1] == '[' {
        let e1 = run_end(s, p + 2, true);
        if e1 == p + 2 || e1 >= s.len() {
            None
        } else if s[e1] == ']' {
            if e1 + 1 < s.len() && s[e1 + 1] == ']' {
                Some((e1, e1 + 2))
            } else {
                None
            }
        } else {
            let e2 = run_end(s, e1 + 1, false);
            if e2 > e1 + 1 && e2 + 1 < s.len() && s[e2 + 1] == ']' {
                Some((e1, e2 + 2))
            } else {
                None
            }
        }
    } else {
        None
    }
}

/// The link texts of the links in `s` from `pos` on, found from the left
/// without overlapping.
pub open spec fn links_from(s: Seq<char>, pos: int) -> Seq<Seq<char>>
    decreases s.len() - pos,
{
    if pos < 0 || pos >= s.len() {
        Seq::empty()
    } else {
        match link_at(s, pos) {
            Some((e1, end)) => if end > pos {
                seq![s.subrange(pos + 2, e1)] + links_from(s, end)
            } else {
                Seq::empty()
            },
            None => links_from(s, pos + 1),
        }
    }
}

proof fn lemma_run_end(s: Seq<char>, i: int, bar: bool)
    requires
        0 <= i <= s.len(),
    ensures
        i <= run_end(s, i, bar) <= s.len(),
        run_end(s, i, bar) < s.len() ==> (s[run_end(s, i, bar)] == ']' || (bar && s[run_end(s, i, bar)] == '|')),
    decreases s.len() - i,
{
    if i < s.len() && !(s[i] == ']' || (bar && s[i] == '|')) {
        lemma_run_end(s, i + 1, bar);
    }
}

fn find_run_end(s: &[char], i: usize, bar: bool) -> (r: usize)
    requires
        i <= s@.len(),
    ensures
        r as int == run_end(s@, i as int, bar),
{
    let mut j = i;
    while j < s.len() && !(s[j] == ']' || (bar && s[j] == '|'))
        invariant
            i <= j <= s@.len(),
            run_end(s@, i as int, bar) == run_end(s@, j as int, bar),
        decreases s@.len() - j,
    {
        j = j + 1;
    }
    j
}

fn find_link_at(s: &[char], p: usize) -> (r: Option<(usize, usize)>)
    requires
        p < s@.len(),
    ensures
        match r {
            Some((e1, end)) => link_at(s@, p as int) == Some((e1 as int, end as int)) && p + 2 <= e1
                < end <= s@.len(),
            None => link_at(s@, p as int) is None,
        },
{
    if s.len() - p < 2 || s[p] != '[' || s[p + 1] != '[' {
        return None;
    }
    proof {
        lemma_run_end(s@, p + 2, true);
    }
    let e1 = find_run_end(s, p + 2, true);
    if e1 == p + 2 || e1 >= s.len() {
        return None;
    }
    if s[e1] == ']' {
        if e1 + 1 < s.len() && s[e1 + 1] == ']' {
            Some((e1, e1 + 2))
        } else {
            None
        }
    } else {
        proof {
            lemma_run_end(s@, e1 + 1, false);
        }
        let e2 = find_run_end(s, e1 + 1, false);
        if e2 > e1 + 1 && e2 < s.len() - 1 && s[e2 + 1] == ']' {
            Some((e1, e2 + 2))
        } else {
            None
        }
    }
}

/// The link texts of the `[[link]]` and `[[link|title]]` links of `content`, in order.
pub fn link_targets(content: &str) -> (r: Vec<String>)
    ensures
        r@.map_values(|t: String| t@) == links_from(content@, 0),
{
    let s = chars_of(content);
    let mut out: Vec<String> = Vec::new();
    let mut pos: usize = 0;
    while pos < s.len()
        invariant
            pos <= s@.len(),
            s@ == content@,
            out@.map_values(|t: String| t@) + links_from(s@, pos as int) == links_from(s@, 0),
        decreases s@.len() - pos,
    {
        let ghost before = out@.map_values(|t: String| t@);
        match find_link_at(&s, pos) {
            Some((e1, end)) => {
                let text = slice_range(&s, pos + 2, e1);
                out.push(string_of(&text));
                assert(out@.map_values(|t: String| t@) =~= before.push(text@));
                assert(links_from(s@, pos as int) == seq![text@] + links_from(s@, end as int));
                assert(before.push(text@) + links_from(s@, end as int) =~= before + links_from(
                    s@,
                    pos as int,
                ));
                pos = end;
            },
            None => {
                pos = pos + 1;
            },
        }
    }
    assert(links_from(s@, pos as int) =~= Seq::<Seq<char>>::empty());
    assert(out@.map_values(|t: String| t@) =~= links_from(s@, 0));
    out
}

/// The end of the path `s[..e]` once trailing `/` and `.` segments are
/// left out.
pub open spec fn name_end(s: Seq<char>, e: int) -> int
    decreases e,
{
    if e <= 0 || e > s.len() {
        if e <= 0 {
            0
        } else {
            e
        }
    } else if s[e - 1] == '/' {
        name_end(s, e - 1)
    } else if s[e - 1] == '.' && (e == 1 || s[e - 2] == '/') {
        name_end(s, e - 1)
    } else {
        e
    }
}

/// The start of the segment of `s` that ends at `e`.
pub open spec fn name_start(s: Seq<char>, a: int) -> int
    decreases a,
{
    if a <= 0 || a > s.len() {
        if a <= 0 {
            0
        } else {
            a
        }
    } else if s[a - 1] != '/' {
        name_start(s, a - 1)
    } else {
        a
    }
}

/// The length of the stem of the file name `name`: up to its last `.`, or
/// all of it when it has no `.` but at its start.
pub open spec fn stem_len(name: Seq<char>) -> int {
    match crate::path::rfind_char(name, '.') {
        Some(i) => if i == 0 {
            name.len() as int
        } else {
            i
        },
        None => name.len() as int,
    }
}

/// The path `s` with its file name's extension set to `md` (what
/// `PathBuf::set_extension("md")` does): cut after the stem of the file name
/// and `.md` added; unchanged when it names no file.
pub open spec fn with_md_extension(s: Seq<char>) -> Seq<char> {
    let e = name_end(s, s.len() as int);
    let a = name_start(s, e);
    let name = s.subrange(a, e);
    if e == 0 || name == seq!['.', '.'] {
        s
    } else {
        s.subrange(0, a + stem_len(name)) + seq!['.', 'm', 'd']
    }
}

proof fn lemma_name_bounds(s: Seq<char>)
    ensures
        0 <= name_start(s, name_end(s, s.len() as int)) <= name_end(s, s.len() as int) <= s.len(),
{
    lemma_name_end(s, s.len() as int);
    lemma_name_start(s, name_end(s, s.len() as int));
}

proof fn lemma_name_end(s: Seq<char>, e: int)
    requires
        0 <= e <= s.len(),
    ensures
        0 <= name_end(s, e) <= e,
    decreases e,
{
    if e > 0 && (s[e - 1] == '/' || (s[e - 1] == '.' && (e == 1 || s[e - 2] == '/'))) {
        lemma_name_end(s, e - 1);
    }
}

proof fn lemma_name_start(s: Seq<char>, a: int)
    requires
        0 <= a <= s.len(),
    ensures
        0 <= name_start(s, a) <= a,
    decreases a,
{
    if a > 0 && s[a - 1] != '/' {
        lemma_name_start(s, a - 1);
    }
}

proof fn lemma_rfind_char(s: Seq<char>, c: char)
    ensures
        crate::path::rfind_char(s, c) matches Some(i) ==> 0 <= i < s.len(),
    decreases s.len(),
{
    if s.len() > 0 && s.last() != c {
        lemma_rfind_char(s.drop_last(), c);
    }
}

/// The path `path` with the extension of its file name set to `md`.
pub fn set_md_extension(path: &str) -> (r: String)
    ensures
        r@ == with_md_extension(path@),
{
    let s = chars_of(path);
    let mut e = s.len();
    proof {
        lemma_name_bounds(s@);
    }
    while e > 0 && (s[e - 1] == '/' || (s[e - 1] == '.' && (e == 1 || s[e - 2] == '/')))
        invariant
            e <= s@.len(),
            name_end(s@, s@.len() as int) == name_end(s@, e as int),
        decreases e,
    {
        e = e - 1;
    }
    let mut a = e;
    while a > 0 && s[a - 1] != '/'
        invariant
            a <= e <= s@.len(),
            name_start(s@, e as int) == name_start(s@, a as int),
        decreases a,
    {
        a = a - 1;
    }
    assert(name_end(s@, e as int) == e);
    assert(name_start(s@, a as int) == a);
    let name = slice_range(&s, a, e);
    if e == 0 || (name.len() == 2 && name[0] == '.' && name[1] == '.') {
        proof {
            if e != 0 {
                assert(name@ =~= seq!['.', '.']);
            }
        }
        return string_of(&s);
    }
    assert(name@ != seq!['.', '.']) by {
        if name@ == seq!['.', '.'] {
            assert(name@.len() == 2);
        }
    }
    let mut k = name.len();
    let mut found: Option<usize> = None;
    proof {
        assert(name@.subrange(0, name@.len() as int) =~= name@);
        lemma_rfind_char(name@, '.');
    }
    while k > 0
        invariant_except_break
            found is None,
        invariant
            k <= name@.len(),
            crate::path::rfind_char(name@, '.') == crate::path::rfind_char(name@.subrange(0, k as int), '.'),
        ensures
            found matches Some(d) ==> crate::path::rfind_char(name@, '.') == Some(d as int) && d < name@.len(),
            found is None ==> crate::path::rfind_char(name@, '.') is None,
        decreases k,
    {
        proof {
            let t = name@.subrange(0, k as int);
            assert(t.drop_last() =~= name@.subrange(0, k - 1));
            assert(t.last() == name@[k - 1]);
        }
        if name[k - 1] == '.' {
            found = Some(k - 1);
            break;
        }
        k = k - 1;
    }
    let stem = match found {
        Some(d) => if d == 0 {
            name.len()
        } else {
            d
        },
        None => name.len(),
    };
    let mut out = slice_range(&s, 0, a + stem);
    out.push('.');
    out.push('m');
    out.push('d');
    string_of(&out)
}


/// The characters of `text` with ` `, `<`, `>` and `?` percent-encoded.
pub open spec fn escape_link(text: Seq<char>) -> Seq<char>
    decreases text.len(),
{
    if text.len() == 0 {
        Seq::empty()
    } else {
        let c = text.last();
        escape_link(text.drop_last()) + if c == ' ' {
            "%20"@
        } else if c == '<' {
            "%3C"@
        } else if c == '>' {
            "%3E"@
        } else if c == '?' {
            "%3F"@
        } else {
            seq![c]
        }
    }
}

/// `text` with ` `, `<`, `>` and `?` percent-encoded, for a link destination.
pub fn escape_special_chars(text: &str) -> (r: String)
    ensures
        r@ == escape_link(text@),
{
    let t = chars_of(text);
    let mut out: Vec<char> = Vec::new();
    let mut k: usize = 0;
    while k < t.len()
        invariant
            k <= t@.len(),
            out@ == escape_link(t@.subrange(0, k as int)),
        decreases t@.len() - k,
    {
        proof {
            let pre = t@.subrange(0, k + 1);
            assert(pre.drop_last() =~= t@.subrange(0, k as int));
            assert(pre.last() == t@[k as int]);
        }
        let c = t[k];
        let ghost before = out@;
        if c == ' ' {
            extend_chars(&mut out, &chars_of("%20"));
        } else if c == '<' {
            extend_chars(&mut out, &chars_of("%3C"));
        } else if c == '>' {
            extend_chars(&mut out, &chars_of("%3E"));
        } else if c == '?' {
            extend_chars(&mut out, &chars_of("%3F"));
        } else {
            out.push(c);
            assert(out@ =~= before + seq![c]);
        }
        k = k + 1;
    }
    assert(t@.subrange(0, t@.len() as int) =~= t@);
    string_of(&out)
}

/// The links of chapter `b`, each with its extension set to `md`.
pub open spec fn md_links(b: Chapter) -> Seq<Seq<char>> {
    links_from(b.content@, 0).map_values(|l: Seq<char>| with_md_extension(l))
}

/// Whether chapter `b` links to the source path `key`.
pub open spec fn links_to(b: Chapter, key: Seq<char>) -> bool {
    exists|t: int| 0 <= t < md_links(b).len() && components(#[trigger] md_links(b)[t]) == components(key)
}

/// The chapters of `items` that have a source path and link to `key`, in order.
pub open spec fn backlinkers(items: Seq<BookItem>, key: Seq<char>) -> Seq<Chapter>
    decreases items.len(),
{
    if items.len() == 0 {
        Seq::empty()
    } else {
        let init = backlinkers(items.drop_last(), key);
        match items.last() {
            BookItem::Chapter(b) => if b.source_path is Some && links_to(b, key) {
                init.push(b)
            } else {
                init
            },
            _ => init,
        }
    }
}

/// The line listing the backlink from `b` in the chapter whose source is `sp`.
pub open spec fn backlink_line(b: Chapter, sp: Seq<char>) -> Seq<char> {
    "> - ["@ + b.name@ + "](<"@ + escape_link(
        spec_diff_from_parent(b.source_path->Some_0@, sp)->Some_0,
    ) + ">)\n"@
}

/// A backlink listed in a chapter leads back to the chapter that links to
/// it: between clean paths, the line for `b` in the chapter whose source is
/// `sp` is `> - [name](<href>)` with the escaped href `h` that, followed
/// from the directory holding `sp` and normalised, leads to the source path
/// of `b`.
pub proof fn law_backlinks_lead_back(b: Chapter, sp: Seq<char>) -> (h: Seq<char>)
    requires
        b.source_path is Some,
        is_clean_path(b.source_path->Some_0@),
        is_clean_path(sp),
    ensures
        backlink_line(b, sp) == "> - ["@ + b.name@ + "](<"@ + escape_link(h) + ">)\n"@,
        normalize_onto(components(sp).drop_last(), components(h)) == components(b.source_path->Some_0@),
{
    let cs = law_diff_from_parent_rejoins(b.source_path->Some_0@, sp);
    join_components(cs)
}

/// Every backlink line, between any paths, shows the linking chapter's name
/// and, escaped, the way from the directory holding the listing chapter to
/// the linking chapter's source, never that source path as it stands.
pub proof fn law_backlink_line_names_the_way_back(b: Chapter, sp: Seq<char>)
    ensures
        backlink_line(b, sp) == "> - ["@ + b.name@ + "](<"@ + escape_link(
            spec_diff_from_parent(b.source_path->Some_0@, sp)->Some_0,
        ) + ">)\n"@,
{
}

/// The lines listing the backlinks from `bs`.
pub open spec fn backlink_lines(bs: Seq<Chapter>, sp: Seq<char>) -> Seq<char>
    decreases bs.len(),
{
    if bs.len() == 0 {
        Seq::empty()
    } else {
        backlink_lines(bs.drop_last(), sp) + backlink_line(bs.last(), sp)
    }
}

/// The header configured for the list of backlinks.
pub enum BacklinksHeader {
    /// None is configured.
    Unset,
    /// A text is configured.
    Text(String),
    /// Something that is not a text is configured; it is not used.
    NotText,
}

/// What precedes the backlinks of a chapter.
pub open spec fn spec_backlink_prefix(h: BacklinksHeader) -> Seq<char> {
    match h {
        BacklinksHeader::Unset => "\n\n"@,
        BacklinksHeader::Text(t) => "\n\n---\n\n## "@ + t@ + "\n\n"@,
        BacklinksHeader::NotText => "\n\n---\n\n"@,
    }
}

/// What precedes the backlinks of a chapter: a rule and the header, when
/// one is configured.
pub fn backlink_prefix(h: &BacklinksHeader) -> (r: String)
    ensures
        r@ == spec_backlink_prefix(*h),
{
    match h {
        BacklinksHeader::Unset => "\n\n".to_string(),
        BacklinksHeader::Text(t) => {
            let mut r = chars_of("\n\n---\n\n## ");
            extend_chars(&mut r, &chars_of(t.as_str()));
            extend_chars(&mut r, &chars_of("\n\n"));
            string_of(&r)
        },
        BacklinksHeader::NotText => "\n\n---\n\n".to_string(),
    }
}

/// The content of chapter `c` of `items` with its backlinks listed.
pub open spec fn with_backlinks(c: Chapter, items: Seq<BookItem>, prefix: Seq<char>) -> Seq<char> {
    match c.source_path {
        Some(sp) => {
            let bs = backlinkers(items, sp@);
            if bs.len() > 0 {
                c.content@ + prefix + backlink_lines(bs, sp@)
            } else {
                c.content@
            }
        },
        None => c.content@,
    }
}

/// Whether every backlink can be written as a relative path.
pub open spec fn backlinks_resolvable(items: Seq<BookItem>) -> bool {
    forall|i: int, j: int|
        0 <= i < items.len() && 0 <= j < items.len() ==> match (#[trigger] items[i], #[trigger] items[j]) {
            (BookItem::Chapter(c), BookItem::Chapter(b)) => (c.source_path is Some
                && b.source_path is Some && links_to(b, c.source_path->Some_0@))
                ==> spec_diff_from_parent(b.source_path->Some_0@, c.source_path->Some_0@) is Some,
            _ => true,
        }
}

/// The md links of a chapter.
fn md_link_targets(content: &str) -> (r: Vec<String>)
    ensures
        r@.map_values(|t: String| t@) == links_from(content@, 0).map_values(
            |l: Seq<char>| with_md_extension(l),
        ),
{
    let links = link_targets(content);
    let ghost ls = links@.map_values(|t: String| t@);
    let mut out: Vec<String> = Vec::new();
    let mut k: usize = 0;
    while k < links.len()
        invariant
            k <= links@.len(),
            ls == links@.map_values(|t: String| t@),
            out@.map_values(|t: String| t@) == ls.subrange(0, k as int).map_values(
                |l: Seq<char>| with_md_extension(l),
            ),
        decreases links@.len() - k,
    {
        let ghost before = out@.map_values(|t: String| t@);
        let m = set_md_extension(links[k].as_str());
        out.push(m);
        assert(out@.map_values(|t: String| t@) =~= before.push(m@));
        assert(ls.subrange(0, k + 1).map_values(|l: Seq<char>| with_md_extension(l))
            =~= ls.subrange(0, k as int).map_values(|l: Seq<char>| with_md_extension(l)).push(
            with_md_extension(ls[k as int]),
        ));
        k = k + 1;
    }
    assert(ls.subrange(0, ls.len() as int) =~= ls);
    out
}

fn links_to_exec(targets: &Vec<String>, key: &str, Ghost(b): Ghost<Chapter>) -> (r: bool)
    requires
        targets@.map_values(|t: String| t@) == md_links(b),
    ensures
        r == links_to(b, key@),
{
    let mut k: usize = 0;
    while k < targets.len()
        invariant
            k <= targets@.len(),
            targets@.map_values(|t: String| t@) == md_links(b),
            forall|t: int| 0 <= t < k ==> components(#[trigger] md_links(b)[t]) != components(key@),
        decreases targets@.len() - k,
    {
        assert(md_links(b)[k as int] == targets@[k as int]@);
        if crate::path::same_path(targets[k].as_str(), key) {
            return true;
        }
        k = k + 1;
    }
    false
}

/// Whether every link between chapters of `book` that [`Backlinks::run`]
/// lists can be written as a relative path.
fn all_resolvable(book: &Book) -> (b: bool)
    ensures
        b == backlinks_resolvable(book.items@),
{
    let items = &book.items;
    let mut targets: Vec<Vec<String>> = Vec::new();
    let mut k: usize = 0;
    while k < items.len()
        invariant
            k <= items@.len(),
            targets@.len() == k,
            forall|j: int|
                0 <= j < k ==> match #[trigger] items@[j] {
                    BookItem::Chapter(b) => targets@[j]@.map_values(|t: String| t@) == md_links(b),
                    _ => true,
                },
        decreases items@.len() - k,
    {
        match &items[k] {
            BookItem::Chapter(b) => targets.push(md_link_targets(b.content.as_str())),
            _ => targets.push(Vec::new()),
        }
        k = k + 1;
    }
    let mut i: usize = 0;
    while i < items.len()
        invariant
            i <= items@.len(),
            items@ == book.items@,
            targets@.len() == items@.len(),
            forall|j: int|
                0 <= j < items@.len() ==> match #[trigger] items@[j] {
                    BookItem::Chapter(b) => targets@[j]@.map_values(|t: String| t@) == md_links(b),
                    _ => true,
                },
            forall|a: int, j: int|
                0 <= a < i && 0 <= j < items@.len() ==> match (#[trigger] items@[a], #[trigger] items@[j]) {
                    (BookItem::Chapter(c), BookItem::Chapter(b)) => (c.source_path is Some
                        && b.source_path is Some && links_to(b, c.source_path->Some_0@))
                        ==> spec_diff_from_parent(b.source_path->Some_0@, c.source_path->Some_0@) is Some,
                    _ => true,
                },
        decreases items@.len() - i,
    {
        let ghost ii = i as int;
        match &items[i] {
            BookItem::Chapter(c) => match &c.source_path {
                Some(sp) => {
                    let mut j: usize = 0;
                    while j < items.len()
                        invariant
                            i < items@.len(),
                            items@ == book.items@,
                            ii == i,
                            j <= items@.len(),
                            items@[ii] == BookItem::Chapter(*c),
                            c.source_path == Some(*sp),
                            targets@.len() == items@.len(),
                            forall|t: int|
                                0 <= t < items@.len() ==> match #[trigger] items@[t] {
                                    BookItem::Chapter(b) => targets@[t]@.map_values(|t: String| t@) == md_links(b),
                                    _ => true,
                                },
                            forall|t: int|
                                0 <= t < j ==> match #[trigger] items@[t] {
                                    BookItem::Chapter(b) => (b.source_path is Some && links_to(b, sp@))
                                        ==> spec_diff_from_parent(b.source_path->Some_0@, sp@) is Some,
                                    _ => true,
                                },
                        decreases items@.len() - j,
                    {
                        match &items[j] {
                            BookItem::Chapter(b) => match &b.source_path {
                                Some(bsp) => {
                                    if links_to_exec(&targets[j], sp.as_str(), Ghost(*b)) {
                                        if diff_from_parent(bsp.as_str(), sp.as_str()).is_none() {
                                            proof {
                                                assert(items@[j as int] == BookItem::Chapter(*b));
                                                assert(links_to(*b, sp@));
                                                assert(!backlinks_resolvable(items@)) by {
                                                    let pair = (items@[ii], items@[j as int]);
                                                    assert(pair == (items@[ii], items@[j as int]));
                                                }
                                            }
                                            return false;
                                        }
                                    }
                                },
                                None => {},
                            },
                            _ => {},
                        }
                        j = j + 1;
                    }
                    proof {
                        assert forall|a: int, t: int|
                            0 <= a <= ii && 0 <= t < items@.len() implies match (#[trigger] items@[a], #[trigger] items@[t]) {
                            (BookItem::Chapter(c2), BookItem::Chapter(b)) => (c2.source_path is Some
                                && b.source_path is Some && links_to(b, c2.source_path->Some_0@))
                                ==> spec_diff_from_parent(b.source_path->Some_0@, c2.source_path->Some_0@) is Some,
                            _ => true,
                        } by {
                            if a == ii {
                                assert(match items@[t] {
                                    BookItem::Chapter(b) => (b.source_path is Some && links_to(b, sp@))
                                        ==> spec_diff_from_parent(b.source_path->Some_0@, sp@) is Some,
                                    _ => true,
                                });
                            }
                        }
                    }
                },
                None => {},
            },
            _ => {},
        }
        i = i + 1;
    }
    true
}

/// The source path of the `i`th item if it is a chapter that has one.
pub open spec fn source_of(items: Seq<BookItem>, i: int) -> Option<String> {
    match items[i] {
        BookItem::Chapter(c) => c.source_path,
        _ => None,
    }
}

fn backlink_lines_for(
    items: &Vec<BookItem>,
    targets: &Vec<Vec<String>>,
    sp: &String,
) -> (r: (Vec<char>, bool))
    requires
        targets@.len() == items@.len(),
        forall|j: int|
            0 <= j < items@.len() ==> match #[trigger] items@[j] {
                BookItem::Chapter(b) => targets@[j]@.map_values(|t: String| t@) == md_links(b),
                _ => true,
            },
        forall|j: int|
            0 <= j < items@.len() ==> match #[trigger] items@[j] {
                BookItem::Chapter(b) => (b.source_path is Some && links_to(b, sp@))
                    ==> spec_diff_from_parent(b.source_path->Some_0@, sp@) is Some,
                _ => true,
            },
    ensures
        r.0@ == backlink_lines(backlinkers(items@, sp@), sp@),
        r.1 == (backlinkers(items@, sp@).len() > 0),
{
    let mut out: Vec<char> = Vec::new();
    let mut any = false;
    let mut k: usize = 0;
    while k < items.len()
        invariant
            k <= items@.len(),
            targets@.len() == items@.len(),
            forall|j: int|
                0 <= j < items@.len() ==> match #[trigger] items@[j] {
                    BookItem::Chapter(b) => targets@[j]@.map_values(|t: String| t@) == md_links(b),
                    _ => true,
                },
            forall|j: int|
                0 <= j < items@.len() ==> match #[trigger] items@[j] {
                    BookItem::Chapter(b) => (b.source_path is Some && links_to(b, sp@))
                        ==> spec_diff_from_parent(b.source_path->Some_0@, sp@) is Some,
                    _ => true,
                },
            out@ == backlink_lines(backlinkers(items@.subrange(0, k as int), sp@), sp@),
            any == (backlinkers(items@.subrange(0, k as int), sp@).len() > 0),
        decreases items@.len() - k,
    {
        proof {
            let pre = items@.subrange(0, k + 1);
            assert(pre.drop_last() =~= items@.subrange(0, k as int));
            assert(pre.last() == items@[k as int]);
        }
        match &items[k] {
            BookItem::Chapter(b) => match &b.source_path {
                Some(bsp) => {
                    if links_to_exec(&targets[k], sp.as_str(), Ghost(*b)) {
                        let rel = diff_from_parent(bsp.as_str(), sp.as_str()).unwrap();
                        let esc = escape_special_chars(rel.as_str());
                        let mut line = chars_of("> - [");
                        extend_chars(&mut line, &chars_of(b.name.as_str()));
                        extend_chars(&mut line, &chars_of("](<"));
                        extend_chars(&mut line, &chars_of(esc.as_str()));
                        extend_chars(&mut line, &chars_of(">)\n"));
                        assert(line@ =~= backlink_line(*b, sp@));
                        let ghost init = backlinkers(items@.subrange(0, k as int), sp@);
                        assert(init.push(*b).drop_last() =~= init);
                        extend_chars(&mut out, &line);
                        any = true;
                    }
                },
                None => {},
            },
            _ => {},
        }
        k = k + 1;
    }
    assert(items@.subrange(0, items@.len() as int) =~= items@);
    (out, any)
}

/// The mdBook preprocessor that lists, at the end of each chapter, the
/// chapters that link to it.
pub struct Backlinks;

impl Backlinks {
    /// The name the preprocessor is known by.
    pub fn name(&self) -> (r: &'static str)
        ensures
            r@ == "backlinks"@,
    {
        "backlinks"
    }

    /// Whether every link between chapters of `book` that [`Backlinks::run`]
    /// lists can be written as a relative path, as `run` needs.
    pub fn resolvable(&self, book: &Book) -> (b: bool)
        ensures
            b == backlinks_resolvable(book.items@),
    {
        all_resolvable(book)
    }

    /// Appends to each chapter with a source path the list of chapters that
    /// link to it (in the book's order), after the prefix that `header`
    /// gives; a chapter that no chapter links to is left as it is.
    pub fn run(&self, header: &BacklinksHeader, book: Book) -> (r: Book)
        requires
            backlinks_resolvable(book.items@),
        ensures
            rewritten(
                book.items@,
                r.items@,
                |i: int|
                    with_backlinks(
                        chapter_of(book.items@, i)->Some_0,
                        book.items@,
                        spec_backlink_prefix(*header),
                    ),
            ),
    {
        let ghost before = book.items@;
        let prefix = chars_of(backlink_prefix(header).as_str());
        let mut targets: Vec<Vec<String>> = Vec::new();
        let mut k: usize = 0;
        while k < book.items.len()
            invariant
                k <= before.len(),
                book.items@ == before,
                targets@.len() == k,
                forall|j: int|
                    0 <= j < k ==> match #[trigger] before[j] {
                        BookItem::Chapter(b) => targets@[j]@.map_values(|t: String| t@) == md_links(b),
                        _ => true,
                    },
            decreases before.len() - k,
        {
            match &book.items[k] {
                BookItem::Chapter(b) => targets.push(md_link_targets(b.content.as_str())),
                _ => targets.push(Vec::new()),
            }
            k = k + 1;
        }
        let mut contents: Vec<Option<Vec<char>>> = Vec::new();
        k = 0;
        while k < book.items.len()
            invariant
                k <= before.len(),
                book.items@ == before,
                targets@.len() == before.len(),
                backlinks_resolvable(before),
                prefix@ == spec_backlink_prefix(*header),
                forall|j: int|
                    0 <= j < before.len() ==> match #[trigger] before[j] {
                        BookItem::Chapter(b) => targets@[j]@.map_values(|t: String| t@) == md_links(b),
                        _ => true,
                    },
                contents@.len() == k,
                forall|j: int|
                    0 <= j < k ==> match #[trigger] before[j] {
                        BookItem::Chapter(c) => contents@[j] matches Some(v) && v@ == with_backlinks(
                            c,
                            before,
                            prefix@,
                        ),
                        _ => true,
                    },
            decreases before.len() - k,
        {
            let ghost kk = k as int;
            match &book.items[k] {
                BookItem::Chapter(c) => {
                    let mut content = chars_of(c.content.as_str());
                    match &c.source_path {
                        Some(sp) => {
                            proof {
                                assert forall|j: int| 0 <= j < before.len() implies match #[trigger] before[j] {
                                    BookItem::Chapter(b) => (b.source_path is Some && links_to(b, sp@))
                                        ==> spec_diff_from_parent(b.source_path->Some_0@, sp@) is Some,
                                    _ => true,
                                } by {
                                    let pair = (before[kk], before[j]);
                                    assert(pair == (before[kk], before[j]));
                                }
                            }
                            let (lines, any) = backlink_lines_for(&book.items, &targets, sp);
                            if any {
                                extend_chars(&mut content, &prefix);
                                extend_chars(&mut content, &lines);
                            }
                        },
                        None => {},
                    }
                    contents.push(Some(content));
                },
                _ => contents.push(None),
            }
            k = k + 1;
        }
        let mut items = book.items;
        let mut out: Vec<BookItem> = Vec::new();
        k = items.len();
        while k > 0
            invariant
                k <= before.len(),
                items@ == before.subrange(0, k as int),
                contents@.len() == k,
                forall|j: int|
                    0 <= j < k ==> match #[trigger] before[j] {
                        BookItem::Chapter(c) => contents@[j] matches Some(v) && v@ == with_backlinks(
                            c,
                            before,
                            prefix@,
                        ),
                        _ => true,
                    },
                prefix@ == spec_backlink_prefix(*header),
                out@.len() == before.len() - k,
                forall|t: int|
                    0 <= t < out@.len() ==> match #[trigger] before[k + t] {
                        BookItem::Chapter(c) => out@[t] matches BookItem::Chapter(d) && same_but_content(
                            c,
                            d,
                        ) && d.content@ == with_backlinks(c, before, prefix@),
                        _ => out@[t] == before[k + t],
                    },
            decreases k,
        {
            let item = items.pop().unwrap();
            let content = contents.pop().unwrap();
            k = k - 1;
            assert(item == before[k as int]);
            let new_item = match item {
                BookItem::Chapter(c) => {
                    let text = match content {
                        Some(v) => string_of(&v),
                        None => c.content.clone(),
                    };
                    BookItem::Chapter(Chapter { content: text, ..c })
                },
                other => other,
            };
            let ghost prev = out@;
            out.insert(0, new_item);
            assert forall|t: int| 0 <= t < out@.len() implies match #[trigger] before[k + t] {
                BookItem::Chapter(c) => out@[t] matches BookItem::Chapter(d) && same_but_content(c, d)
                    && d.content@ == with_backlinks(c, before, prefix@),
                _ => out@[t] == before[k + t],
            } by {
                if t > 0 {
                    assert(out@[t] == prev[t - 1]);
                    assert(before[k + t] == before[(k + 1) + (t - 1)]);
                }
            }
            assert(items@ =~= before.subrange(0, k as int));
        }
        proof {
            assert forall|i: int| 0 <= i < before.len() implies match #[trigger] before[i] {
                BookItem::Chapter(c) => out@[i] matches BookItem::Chapter(d) && same_but_content(c, d)
                    && d.content@ == (|i: int|
                    with_backlinks(
                        chapter_of(before, i)->Some_0,
                        before,
                        spec_backlink_prefix(*header),
                    ))(i),
                _ => out@[i] == before[i],
            } by {
                assert(before[0 + i] == before[i]);
            }
        }
        Book { items: out }
    }
}

} // verus!
