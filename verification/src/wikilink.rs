//! Wikilinks: `[[Note title#header|alias]]`.
//!
//! The text between the double brackets names a note, optionally an anchor in
//! it (`#Header` or the block reference `#^id`), and optionally, after a `|`,
//! the text to show for the link.  Surrounding whitespace of each part is not
//! significant.

use vstd::prelude::*;
use crate::text::{find_char, find_char_in, slice_range, trim, trim_chars, string_of, chars_of};

verus! {

/// Why the inside of a wikilink could not be read.
#[derive(Clone, Copy, Debug, PartialEq, Eq, Structural)]
pub enum LinkError {
    /// Nothing names the destination note.
    EmptyDestination,
    /// A `#` (or `#^`) is followed by no anchor text.
    EmptyAnchor,
    /// A `|` is followed by no alias.
    EmptyAlias,
}

/// The part of a note a link points into.
pub enum SpecAnchor {
    Header(Seq<char>),
    Blockref(Seq<char>),
    Absent,
}

/// The part of a note a link points into.
#[derive(Debug, PartialEq)]
pub enum Anchor {
    /// A header, by its id.
    Header(String),
    /// A block reference, by its id.
    Blockref(String),
    /// The note as a whole.
    Absent,
}

impl View for Anchor {
    type V = SpecAnchor;

    open spec fn view(&self) -> SpecAnchor {
        match self {
            Anchor::Header(s) => SpecAnchor::Header(s@),
            Anchor::Blockref(s) => SpecAnchor::Blockref(s@),
            Anchor::Absent => SpecAnchor::Absent,
        }
    }
}

/// The parts of a wikilink as written.
pub struct SpecLinkParts {
    pub note: Seq<char>,
    pub anchor: SpecAnchor,
    pub alias: Option<Seq<char>>,
}

/// The parts of a wikilink as written: the destination note's name, the
/// anchor text and the alias, each without surrounding whitespace.
#[derive(Debug, PartialEq)]
pub struct LinkParts {
    pub note: String,
    pub anchor: Anchor,
    pub alias: Option<String>,
}

impl View for LinkParts {
    type V = SpecLinkParts;

    open spec fn view(&self) -> SpecLinkParts {
        SpecLinkParts {
            note: self.note@,
            anchor: self.anchor@,
            alias: match self.alias {
                Some(a) => Some(a@),
                None => None,
            },
        }
    }
}

/// The anchor written after the first `#` of a destination.
pub open spec fn spec_parse_anchor(text: Seq<char>) -> Result<SpecAnchor, LinkError> {
    let t = trim(text);
    if t.len() > 0 && t[0] == '^' {
        let id = trim(t.drop_first());
        if id.len() == 0 {
            Err(LinkError::EmptyAnchor)
        } else {
            Ok(SpecAnchor::Blockref(id))
        }
    } else if t.len() == 0 {
        Err(LinkError::EmptyAnchor)
    } else {
        Ok(SpecAnchor::Header(t))
    }
}

/// How the inside of a wikilink reads: the destination is everything before
/// the first `|`, the alias everything after it; within the destination the
/// note name is everything before the first `#` and the anchor everything
/// after it.
pub open spec fn spec_parse_link(s: Seq<char>) -> Result<SpecLinkParts, LinkError> {
    let dest = match find_char(s, '|') {
        Some(i) => s.subrange(0, i),
        None => s,
    };
    let alias = match find_char(s, '|') {
        Some(i) => Some(trim(s.subrange(i + 1, s.len() as int))),
        None => None,
    };
    let note = match find_char(dest, '#') {
        Some(j) => trim(dest.subrange(0, j)),
        None => trim(dest),
    };
    let anchor = match find_char(dest, '#') {
        Some(j) => spec_parse_anchor(dest.subrange(j + 1, dest.len() as int)),
        None => Ok(SpecAnchor::Absent),
    };
    if note.len() == 0 {
        Err(LinkError::EmptyDestination)
    } else if anchor is Err {
        Err(anchor->Err_0)
    } else if alias matches Some(a) && a.len() == 0 {
        Err(LinkError::EmptyAlias)
    } else {
        Ok(SpecLinkParts { note, anchor: anchor->Ok_0, alias })
    }
}

fn parse_anchor(text: &[char]) -> (r: Result<Anchor, LinkError>)
    ensures
        match r {
            Ok(a) => spec_parse_anchor(text@) == Ok::<SpecAnchor, LinkError>(a@),
            Err(e) => spec_parse_anchor(text@) == Err::<SpecAnchor, LinkError>(e),
        },
{
    let t = trim_chars(text);
    if t.len() > 0 && t[0] == '^' {
        let rest = slice_range(&t, 1, t.len());
        assert(rest@ =~= t@.drop_first());
        let id = trim_chars(&rest);
        if id.len() == 0 {
            Err(LinkError::EmptyAnchor)
        } else {
            Ok(Anchor::Blockref(string_of(&id)))
        }
    } else if t.len() == 0 {
        Err(LinkError::EmptyAnchor)
    } else {
        Ok(Anchor::Header(string_of(&t)))
    }
}

/// Reads the inside of a wikilink (the text between `[[` and `]]`).
pub fn parse_link(internals: &str) -> (r: Result<LinkParts, LinkError>)
    ensures
        match r {
            Ok(p) => spec_parse_link(internals@) == Ok::<SpecLinkParts, LinkError>(p@),
            Err(e) => spec_parse_link(internals@) == Err::<SpecLinkParts, LinkError>(e),
        },
{
    let s = chars_of(internals);
    let bar = find_char_in(&s, '|');
    proof {
        crate::text::lemma_find_from_some(s@, seq!['|'], 0);
    }
    let (dest, alias) = match bar {
        Some(i) => {
            let n = s.len();
            assert(crate::text::matches_at(s@, seq!['|'], i as int));
            let d = slice_range(&s, 0, i);
            let a = slice_range(&s, i + 1, n);
            (d, Some(trim_chars(&a)))
        },
        None => (slice_range(&s, 0, s.len()), None),
    };
    assert(bar is None ==> dest@ =~= s@);
    let hash = find_char_in(&dest, '#');
    proof {
        crate::text::lemma_find_from_some(dest@, seq!['#'], 0);
    }
    let (note, anchor) = match hash {
        Some(j) => {
            let dn = dest.len();
            assert(crate::text::matches_at(dest@, seq!['#'], j as int));
            let n = slice_range(&dest, 0, j);
            let a = slice_range(&dest, j + 1, dn);
            (trim_chars(&n), parse_anchor(&a))
        },
        None => (trim_chars(&dest), Ok(Anchor::Absent)),
    };
    if note.len() == 0 {
        return Err(LinkError::EmptyDestination);
    }
    let anchor = match anchor {
        Ok(a) => a,
        Err(e) => {
            return Err(e);
        },
    };
    match &alias {
        Some(a) => {
            if a.len() == 0 {
                return Err(LinkError::EmptyAlias);
            }
        },
        None => {},
    }
    let alias = match alias {
        Some(a) => Some(string_of(&a)),
        None => None,
    };
    Ok(LinkParts { note: string_of(&note), anchor, alias })
}


/// The id that a header or block reference text becomes in a link (what
/// `mdbook::utils::id_from_content` computes: markup stripped, lowercased,
/// whitespace turned into `-`).
pub uninterp spec fn anchor_id(text: Seq<char>) -> Seq<char>;

/// The anchor id of `text`, by `mdbook::utils::id_from_content`.  Its
/// contract claims only that the result is a function of `text` alone.
#[verifier::external_body]
pub(crate) fn id_from_content(text: &str) -> (r: String)
    ensures
        r@ == anchor_id(text@),
{
    #[allow(deprecated)]
    mdbook::utils::id_from_content(text)
}

/// `a` with its text turned into an anchor id.
pub open spec fn spec_anchor_ids(a: SpecAnchor) -> SpecAnchor {
    match a {
        SpecAnchor::Header(t) => SpecAnchor::Header(anchor_id(t)),
        SpecAnchor::Blockref(t) => SpecAnchor::Blockref(anchor_id(t)),
        SpecAnchor::Absent => SpecAnchor::Absent,
    }
}

/// The anchor `a` with its text turned into an anchor id.
pub fn anchor_ids(a: &Anchor) -> (r: Anchor)
    ensures
        r@ == spec_anchor_ids(a@),
{
    match a {
        Anchor::Header(t) => Anchor::Header(id_from_content(t.as_str())),
        Anchor::Blockref(t) => Anchor::Blockref(id_from_content(t.as_str())),
        Anchor::Absent => Anchor::Absent,
    }
}

/// A lookup from names to values; a later entry for a name replaces an
/// earlier one.
pub struct NameMap<V> {
    entries: Vec<(Vec<char>, V)>,
}

/// A lookup from note names to paths.
pub type PathIndex = NameMap<String>;

/// The map that the entries `es` stand for, later entries winning.
pub open spec fn index_map<V>(es: Seq<(Vec<char>, V)>) -> Map<Seq<char>, V>
    decreases es.len(),
{
    if es.len() == 0 {
        Map::empty()
    } else {
        index_map(es.drop_last()).insert(es.last().0@, es.last().1)
    }
}

proof fn lemma_index_map_tail<V>(es: Seq<(Vec<char>, V)>, k: int, key: Seq<char>)
    requires
        0 <= k <= es.len(),
        forall|j: int| k <= j < es.len() ==> (#[trigger] es[j]).0@ != key,
    ensures
        index_map(es).contains_key(key) == index_map(es.subrange(0, k)).contains_key(key),
        index_map(es).contains_key(key) ==> index_map(es)[key] == index_map(
            es.subrange(0, k),
        )[key],
    decreases es.len() - k,
{
    if k < es.len() {
        let e2 = es.drop_last();
        assert forall|j: int| k <= j < e2.len() implies (#[trigger] e2[j]).0@ != key by {
            assert(e2[j] == es[j]);
        }
        lemma_index_map_tail(e2, k, key);
        assert(e2.subrange(0, k) =~= es.subrange(0, k));
        assert(es.last() == es[es.len() - 1]);
    } else {
        assert(es.subrange(0, k) =~= es);
    }
}

impl<V> View for NameMap<V> {
    type V = Map<Seq<char>, V>;

    closed spec fn view(&self) -> Map<Seq<char>, V> {
        index_map(self.entries@)
    }
}

impl<V> NameMap<V> {
    /// A map with no entries.
    pub fn new() -> (r: NameMap<V>)
        ensures
            r@ == Map::<Seq<char>, V>::empty(),
    {
        NameMap { entries: Vec::new() }
    }

    /// Maps `name` to `value`, replacing what `name` mapped to before.
    pub fn insert(&mut self, name: &str, value: V)
        ensures
            final(self)@ == old(self)@.insert(name@, value),
    {
        let key = chars_of(name);
        self.entries.push((key, value));
        assert(self.entries@.drop_last() =~= old(self).entries@);
    }

    /// Whether the map has no name.
    pub fn is_empty(&self) -> (b: bool)
        ensures
            b == (self@ == Map::<Seq<char>, V>::empty()),
    {
        let b = self.entries.len() == 0;
        proof {
            if !b {
                assert(self@.contains_key(self.entries@.last().0@));
                assert(self@ != Map::<Seq<char>, V>::empty());
            } else {
                assert(self@ =~= Map::<Seq<char>, V>::empty());
            }
        }
        b
    }

    /// What `name` maps to.
    pub fn get(&self, name: &[char]) -> (r: Option<&V>)
        ensures
            match r {
                Some(v) => self@.contains_key(name@) && self@[name@] == *v,
                None => !self@.contains_key(name@),
            },
    {
        let mut k = self.entries.len();
        while k > 0
            invariant
                k <= self.entries@.len(),
                forall|j: int|
                    k <= j < self.entries@.len() ==> (#[trigger] self.entries@[j]).0@ != name@,
            decreases k,
        {
            if crate::text::chars_eq(&self.entries[k - 1].0, name) {
                proof {
                    lemma_index_map_tail(self.entries@, k as int, name@);
                    let pre = self.entries@.subrange(0, k as int);
                    assert(pre.last() == self.entries@[k - 1]);
                }
                return Some(&self.entries[k - 1].1);
            }
            k = k - 1;
        }
        proof {
            lemma_index_map_tail(self.entries@, 0, name@);
            assert(self.entries@.subrange(0, 0).len() == 0);
        }
        None
    }
}

/// A wikilink resolved against the notes it may lead to.
pub struct SpecWikiLink {
    pub path: Option<Seq<char>>,
    pub title: Seq<char>,
    pub anchor: SpecAnchor,
}

/// A wikilink resolved against the notes it may lead to: the path of the
/// destination (none when it is missing), the text to show and the anchor.
#[derive(Debug, PartialEq)]
pub struct WikiLink {
    pub path: Option<String>,
    pub title: String,
    pub anchor: Anchor,
}

impl View for WikiLink {
    type V = SpecWikiLink;

    open spec fn view(&self) -> SpecWikiLink {
        SpecWikiLink {
            path: match self.path {
                Some(p) => Some(p@),
                None => None,
            },
            title: self.title@,
            anchor: self.anchor@,
        }
    }
}

/// The wikilink made of the parts `p`, its anchor ids `anchor`, looked up in `index`:
/// with an empty index the note name is taken as the path.
pub open spec fn spec_wikilink_of(
    p: SpecLinkParts,
    anchor: SpecAnchor,
    index: Map<Seq<char>, String>,
) -> SpecWikiLink {
    SpecWikiLink {
        path: if index == Map::<Seq<char>, String>::empty() {
            Some(p.note)
        } else if index.contains_key(p.note) {
            Some(index[p.note]@)
        } else {
            None
        },
        title: match p.alias {
            Some(a) => a,
            None => p.note,
        },
        anchor,
    }
}

/// The link `[title](<href>)`, or the marked-up title of a missing note, that
/// a wikilink becomes in a note at `cur_path`.
pub open spec fn spec_wikilink_cmark(link: SpecWikiLink, cur_path: Seq<char>) -> Seq<char> {
    match link.path {
        Some(path) => {
            let rel = crate::path::spec_diff_paths(path, cur_path)->Some_0;
            let href = rel + spec_anchor_suffix(link.anchor);
            seq!['['] + link.title + seq![']', '(', '<'] + crate::text::escape_href_bytes(
                vstd::utf8::encode_utf8(href),
            ) + seq!['>', ')']
        },
        None => missing_link_open() + link.title + missing_link_close(),
    }
}

/// `#id` for an anchor, nothing for none.
pub open spec fn spec_anchor_suffix(a: SpecAnchor) -> Seq<char> {
    match a {
        SpecAnchor::Header(id) => seq!['#'] + id,
        SpecAnchor::Blockref(id) => seq!['#'] + id,
        SpecAnchor::Absent => Seq::empty(),
    }
}

/// The markup that opens the title of a link to a missing note.
pub open spec fn missing_link_open() -> Seq<char> {
    "<span class=\"missing-link\" style=\"color:darkred;\">"@
}

/// The markup that closes the title of a link to a missing note.
pub open spec fn missing_link_close() -> Seq<char> {
    "</span>"@
}

pub(crate) fn anchor_suffix(a: &Anchor) -> (r: Vec<char>)
    ensures
        r@ == spec_anchor_suffix(a@),
{
    match a {
        Anchor::Header(id) | Anchor::Blockref(id) => {
            let mut r = vec!['#'];
            crate::text::extend_chars(&mut r, &chars_of(id.as_str()));
            r
        },
        Anchor::Absent => Vec::new(),
    }
}

impl WikiLink {
    /// The wikilink made of the parts `parts` and the anchor `anchor` (the
    /// anchor of `parts` turned into ids), looked up in `index`.
    pub fn from_parts(parts: LinkParts, anchor: Anchor, index: &PathIndex) -> (r: WikiLink)
        ensures
            r@ == spec_wikilink_of(parts@, anchor@, index@),
    {
        let note = chars_of(parts.note.as_str());
        let path = if index.is_empty() {
            Some(parts.note.clone())
        } else {
            match index.get(&note) {
                Some(p) => Some(p.clone()),
                None => None,
            }
        };
        let title = match parts.alias {
            Some(a) => a,
            None => parts.note,
        };
        WikiLink { path, title, anchor }
    }

    /// Reads a wikilink, taking its note name as its path.
    pub fn from(internals: &str) -> (r: Result<WikiLink, LinkError>)
        ensures
            match spec_parse_link(internals@) {
                Ok(p) => r is Ok && r->Ok_0@ == spec_wikilink_of(
                    p,
                    spec_anchor_ids(p.anchor),
                    Map::empty(),
                ),
                Err(e) => r == Err::<WikiLink, LinkError>(e),
            },
    {
        Self::from_with_index(internals, &PathIndex::new())
    }

    /// Reads a wikilink and looks its note up in `index` (an empty index takes
    /// the note name as the path).
    pub fn from_with_index(internals: &str, index: &PathIndex) -> (r: Result<WikiLink, LinkError>)
        ensures
            match spec_parse_link(internals@) {
                Ok(p) => r is Ok && r->Ok_0@ == spec_wikilink_of(
                    p,
                    spec_anchor_ids(p.anchor),
                    index@,
                ),
                Err(e) => r == Err::<WikiLink, LinkError>(e),
            },
    {
        match parse_link(internals) {
            Ok(parts) => {
                let anchor = anchor_ids(&parts.anchor);
                Ok(Self::from_parts(parts, anchor, index))
            },
            Err(e) => Err(e),
        }
    }

    /// The CommonMark link this wikilink becomes in the note at `cur_path`:
    /// `[title](<href>)` with the escaped path from `cur_path` to the
    /// destination and its anchor, or the marked-up title when the
    /// destination is missing.
    pub fn cmark(&self, cur_path: &str) -> (r: String)
        requires
            self.path matches Some(p) ==> crate::path::spec_diff_paths(p@, cur_path@) is Some,
        ensures
            r@ == spec_wikilink_cmark(self@, cur_path@),
    {
        match &self.path {
            Some(path) => {
                let rel = crate::path::diff_paths(path.as_str(), cur_path).unwrap();
                let mut href = chars_of(rel.as_str());
                crate::text::extend_chars(&mut href, &anchor_suffix(&self.anchor));
                let hs = string_of(&href);
                let esc = crate::text::escape_special_chars(hs.as_str());
                let mut out = vec!['['];
                crate::text::extend_chars(&mut out, &chars_of(self.title.as_str()));
                out.push(']');
                out.push('(');
                out.push('<');
                crate::text::extend_chars(&mut out, &chars_of(esc.as_str()));
                out.push('>');
                out.push(')');
                assert(out@ =~= spec_wikilink_cmark(self@, cur_path@));
                string_of(&out)
            },
            None => {
                let mut out = chars_of("<span class=\"missing-link\" style=\"color:darkred;\">");
                crate::text::extend_chars(&mut out, &chars_of(self.title.as_str()));
                crate::text::extend_chars(&mut out, &chars_of("</span>"));
                string_of(&out)
            },
        }
    }
}


/// Reads wikilinks (the grammar of `[[note#anchor|alias]]`).
pub struct WikilinkParser;

/// Reads wikilinks in the mdBook preprocessor.
pub struct WikiLinkParser;

impl WikiLinkParser {
    /// Reads the inside of a wikilink; see [`parse_link`].
    pub fn parse(internals: &str) -> (r: Result<LinkParts, LinkError>)
        ensures
            match r {
                Ok(p) => spec_parse_link(internals@) == Ok::<SpecLinkParts, LinkError>(p@),
                Err(e) => spec_parse_link(internals@) == Err::<SpecLinkParts, LinkError>(e),
            },
    {
        parse_link(internals)
    }
}

/// Reads wikilinks between the notes of a note graph.
pub struct InternalLinkParser;

impl InternalLinkParser {
    /// Reads the inside of a wikilink; see [`parse_link`].
    pub fn parse(internals: &str) -> (r: Result<LinkParts, LinkError>)
        ensures
            match r {
                Ok(p) => spec_parse_link(internals@) == Ok::<SpecLinkParts, LinkError>(p@),
                Err(e) => spec_parse_link(internals@) == Err::<SpecLinkParts, LinkError>(e),
            },
    {
        parse_link(internals)
    }
}

/// A link between notes as written in a note.
pub struct SpecInternalLink {
    pub dest_title: Seq<char>,
    pub dest_path: Option<Seq<char>>,
    pub link_text: Seq<char>,
    pub anchor: SpecAnchor,
}

/// A link between notes as written in a note: the destination's title and,
/// once known, its path, the text to show and the anchor.
#[derive(Debug, PartialEq)]
pub struct InternalLink {
    pub dest_title: String,
    pub dest_path: Option<String>,
    pub link_text: String,
    pub anchor: Anchor,
}

impl View for InternalLink {
    type V = SpecInternalLink;

    open spec fn view(&self) -> SpecInternalLink {
        SpecInternalLink {
            dest_title: self.dest_title@,
            dest_path: match self.dest_path {
                Some(p) => Some(p@),
                None => None,
            },
            link_text: self.link_text@,
            anchor: self.anchor@,
        }
    }
}

/// The internal link that the parts `p` of a wikilink stand for, with anchor `anchor`.
pub open spec fn spec_internal_link_of(p: SpecLinkParts, anchor: SpecAnchor) -> SpecInternalLink {
    SpecInternalLink {
        dest_title: p.note,
        dest_path: None,
        link_text: match p.alias {
            Some(a) => a,
            None => p.note,
        },
        anchor,
    }
}

/// The CommonMark link `[text](href)` that an internal link becomes in the
/// directory `cur_dir`: the href is the path from `cur_dir` to the
/// destination (its title while its path is unknown) with the anchor, escaped.
pub open spec fn spec_internal_link_cmark(link: SpecInternalLink, cur_dir: Seq<char>) -> Seq<char> {
    let base = match link.dest_path {
        Some(p) => crate::path::spec_diff_paths(p, cur_dir)->Some_0,
        None => link.dest_title,
    };
    let href = base + spec_anchor_suffix(link.anchor);
    seq!['['] + link.link_text + seq![']', '('] + crate::text::escape_href_bytes(
        vstd::utf8::encode_utf8(href),
    ) + seq![')']
}

impl InternalLink {
    /// Reads a wikilink into an internal link whose path is not yet known.
    pub fn from(internals: &str) -> (r: Result<InternalLink, LinkError>)
        ensures
            match spec_parse_link(internals@) {
                Ok(p) => r is Ok && r->Ok_0@ == spec_internal_link_of(p, spec_anchor_ids(p.anchor)),
                Err(e) => r == Err::<InternalLink, LinkError>(e),
            },
    {
        match parse_link(internals) {
            Ok(parts) => {
                let anchor = anchor_ids(&parts.anchor);
                let link_text = match &parts.alias {
                    Some(a) => a.clone(),
                    None => parts.note.clone(),
                };
                Ok(InternalLink { dest_title: parts.note, dest_path: None, link_text, anchor })
            },
            Err(e) => Err(e),
        }
    }

    /// The CommonMark link this internal link becomes in the directory `cur_dir`.
    pub fn cmark(&self, cur_dir: &str) -> (r: String)
        requires
            self.dest_path matches Some(p) ==> crate::path::spec_diff_paths(p@, cur_dir@) is Some,
        ensures
            r@ == spec_internal_link_cmark(self@, cur_dir@),
    {
        let mut href = match &self.dest_path {
            Some(p) => chars_of(crate::path::diff_paths(p.as_str(), cur_dir).unwrap().as_str()),
            None => chars_of(self.dest_title.as_str()),
        };
        crate::text::extend_chars(&mut href, &anchor_suffix(&self.anchor));
        let hs = string_of(&href);
        let esc = crate::text::escape_special_chars(hs.as_str());
        let mut out = vec!['['];
        crate::text::extend_chars(&mut out, &chars_of(self.link_text.as_str()));
        out.push(']');
        out.push('(');
        crate::text::extend_chars(&mut out, &chars_of(esc.as_str()));
        out.push(')');
        assert(out@ =~= spec_internal_link_cmark(self@, cur_dir@));
        string_of(&out)
    }
}

} // verus!
