//! What a wikilink means where it stands: the note it is written in, the
//! note it leads to, its alias and its anchor; and what a link becomes once
//! its context is known.

use vstd::prelude::*;
use crate::path::{diff_from_parent, spec_diff_from_parent};
use crate::text::{chars_of, escape_href_bytes, extend_chars, string_of};
use crate::vault::{Note, note_path};
use crate::wikilink::{
    Anchor, NameMap, SpecAnchor, anchor_ids, parse_link, spec_anchor_ids, spec_anchor_suffix,
    spec_parse_link,
};

verus! {

/// A wikilink in its context: its text, the note it is written in, the note
/// it leads to (if any), its alias and its anchor.
pub struct WikilinkContext<'a> {
    pub text: &'a str,
    pub source: &'a Note,
    pub destination: Option<&'a Note>,
    pub alias: Option<String>,
    pub anchor: Anchor,
}

/// An optional string as plain text.
pub open spec fn opt_view(o: Option<String>) -> Option<Seq<char>> {
    match o {
        Some(s) => Some(s@),
        None => None,
    }
}

/// The note an optional reference refers to.
pub open spec fn deref_note(o: Option<&Note>) -> Option<Note> {
    match o {
        Some(d) => Some(*d),
        None => None,
    }
}

/// The CommonMark link `[title](href)`, with the href escaped.
pub open spec fn spec_link_cmark(title: Seq<char>, href: Seq<char>) -> Seq<char> {
    seq!['['] + title + seq![']', '('] + escape_href_bytes(vstd::utf8::encode_utf8(href)) + seq![')']
}

/// The href of a link from the note `src` to the note `dest`: the path from
/// the directory holding `src` to `dest`, with the anchor.
pub open spec fn spec_context_href(dest: Note, src: Note, anchor: SpecAnchor) -> Seq<char> {
    spec_diff_from_parent(note_path(dest), note_path(src))->Some_0 + spec_anchor_suffix(anchor)
}

/// The link a wikilink from `src` to `dest` becomes: titled by its alias, or
/// else by the title of `dest`.
pub open spec fn spec_context_cmark(
    dest: Note,
    src: Note,
    alias: Option<Seq<char>>,
    anchor: SpecAnchor,
) -> Seq<char> {
    spec_link_cmark(
        match alias {
            Some(a) => a,
            None => dest.title@,
        },
        spec_context_href(dest, src, anchor),
    )
}

/// A wikilink from `src` that leads to `dest` becomes a CommonMark link that
/// shows its alias, or else the title of `dest`, and whose href, before
/// escaping, is the relative path from the directory of `src` to `dest`,
/// followed by `#` and the anchor's id when the wikilink names a header or
/// a block: the anchor is never lost.
pub proof fn law_links_keep_alias_and_anchor(
    dest: Note,
    src: Note,
    alias: Option<Seq<char>>,
    anchor: SpecAnchor,
)
    requires
        linkable(dest, src),
    ensures
        spec_context_cmark(dest, src, alias, anchor) == seq!['['] + match alias {
            Some(a) => a,
            None => dest.title@,
        } + seq![']', '('] + escape_href_bytes(
            vstd::utf8::encode_utf8(
                spec_diff_from_parent(note_path(dest), note_path(src))->Some_0 + match anchor {
                    SpecAnchor::Header(id) => seq!['#'] + id,
                    SpecAnchor::Blockref(id) => seq!['#'] + id,
                    SpecAnchor::Absent => Seq::<char>::empty(),
                },
            ),
        ) + seq![')'],
{
}

/// A link to a header or block of a note is the link to the note itself
/// with the escaped `#` and anchor id added just before its closing
/// parenthesis: naming an anchor changes nothing else and never loses it.
pub proof fn law_anchor_extends_link(dest: Note, src: Note, alias: Option<Seq<char>>, id: Seq<char>)
    requires
        linkable(dest, src),
    ensures
        spec_context_cmark(dest, src, alias, SpecAnchor::Header(id)) == spec_context_cmark(
            dest,
            src,
            alias,
            SpecAnchor::Absent,
        ).drop_last() + escape_href_bytes(vstd::utf8::encode_utf8(seq!['#'] + id)) + seq![')'],
        spec_context_cmark(dest, src, alias, SpecAnchor::Blockref(id)) == spec_context_cmark(
            dest,
            src,
            alias,
            SpecAnchor::Header(id),
        ),
{
    let rel = spec_diff_from_parent(note_path(dest), note_path(src))->Some_0;
    let tail = seq!['#'] + id;
    law_links_keep_alias_and_anchor(dest, src, alias, SpecAnchor::Header(id));
    law_links_keep_alias_and_anchor(dest, src, alias, SpecAnchor::Blockref(id));
    law_links_keep_alias_and_anchor(dest, src, alias, SpecAnchor::Absent);
    assert(rel + Seq::<char>::empty() =~= rel);
    crate::text::lemma_encode_utf8_concat(rel, tail);
    crate::text::lemma_escape_href_concat(vstd::utf8::encode_utf8(rel), vstd::utf8::encode_utf8(tail));
    let title = match alias {
        Some(a) => a,
        None => dest.title@,
    };
    let plain = seq!['['] + title + seq![']', '('] + escape_href_bytes(vstd::utf8::encode_utf8(rel)) + seq![')'];
    assert(plain.drop_last() =~= seq!['['] + title + seq![']', '('] + escape_href_bytes(vstd::utf8::encode_utf8(rel)));
    assert(seq!['['] + title + seq![']', '('] + escape_href_bytes(vstd::utf8::encode_utf8(rel + tail)) + seq![')']
        =~= plain.drop_last() + escape_href_bytes(vstd::utf8::encode_utf8(tail)) + seq![')']);
}

/// Whether a link from `src` to `dest` can be written as a relative path.
pub open spec fn linkable(dest: Note, src: Note) -> bool {
    spec_diff_from_parent(note_path(dest), note_path(src)) is Some
}

/// The note that the name `name` leads to among `notes`, by `lookup`.
pub open spec fn lookup_note(
    name: Seq<char>,
    notes: Seq<Note>,
    lookup: Map<Seq<char>, usize>,
) -> Option<Note> {
    if lookup.contains_key(name) {
        Some(notes[lookup[name] as int])
    } else {
        None
    }
}

impl<'a> WikilinkContext<'a> {
    /// The context of the wikilink `text` in `source`, before anything is known of it.
    pub fn new(text: &'a str, source: &'a Note) -> (ctx: WikilinkContext<'a>)
        ensures
            ctx.text == text,
            ctx.source == source,
            ctx.destination is None,
            ctx.alias is None,
            ctx.anchor@ == SpecAnchor::Absent,
    {
        WikilinkContext { text, source, destination: None, alias: None, anchor: Anchor::Absent }
    }

    /// The context of the wikilink `text` in `source`: its destination is the
    /// note of `notes` that `lookup` gives for the note it names; a text that
    /// does not read as a wikilink leads nowhere.
    pub fn establish(
        text: &'a str,
        source: &'a Note,
        notes: &'a [Note],
        lookup: &NameMap<usize>,
    ) -> (ctx: WikilinkContext<'a>)
        requires
            forall|k: Seq<char>| #[trigger] lookup@.contains_key(k) ==> lookup@[k] < notes@.len(),
        ensures
            ctx.text == text,
            ctx.source == source,
            match spec_parse_link(text@) {
                Ok(p) => {
                    &&& deref_note(ctx.destination) == lookup_note(p.note, notes@, lookup@)
                    &&& opt_view(ctx.alias) == p.alias
                    &&& ctx.anchor@ == spec_anchor_ids(p.anchor)
                },
                Err(_) => {
                    &&& ctx.destination is None
                    &&& ctx.alias is None
                    &&& ctx.anchor@ == SpecAnchor::Absent
                },
            },
    {
        match parse_link(text) {
            Ok(parts) => {
                let name = chars_of(parts.note.as_str());
                let destination = match lookup.get(&name) {
                    Some(i) => Some(&notes[*i]),
                    None => None,
                };
                let anchor = anchor_ids(&parts.anchor);
                WikilinkContext { text, source, destination, alias: parts.alias, anchor }
            },
            Err(_) => WikilinkContext::new(text, source),
        }
    }
}

/// Writes the link that a context stands for.
fn context_cmark(dest: &Note, ctx: &WikilinkContext) -> (r: String)
    requires
        linkable(*dest, *ctx.source),
    ensures
        r@ == spec_context_cmark(*dest, *ctx.source, opt_view(ctx.alias), ctx.anchor@),
{
    let dest_path = dest.path();
    let src_path = ctx.source.path();
    let rel = diff_from_parent(dest_path.as_str(), src_path.as_str()).unwrap();
    let mut href = chars_of(rel.as_str());
    match &ctx.anchor {
        Anchor::Header(id) | Anchor::Blockref(id) => {
            href.push('#');
            extend_chars(&mut href, &chars_of(id.as_str()));
        },
        Anchor::Absent => {},
    }
    assert(href@ =~= spec_context_href(*dest, *ctx.source, ctx.anchor@));
    let hs = string_of(&href);
    let esc = crate::text::escape_special_chars(hs.as_str());
    let title = match &ctx.alias {
        Some(a) => a,
        None => &dest.title,
    };
    let mut out = vec!['['];
    extend_chars(&mut out, &chars_of(title.as_str()));
    out.push(']');
    out.push('(');
    extend_chars(&mut out, &chars_of(esc.as_str()));
    out.push(')');
    assert(out@ =~= spec_context_cmark(*dest, *ctx.source, opt_view(ctx.alias), ctx.anchor@));
    string_of(&out)
}

/// What turns the text of a wikilink into what stands in its place.
pub trait WikilinkHandler {
    /// Rewrites `text`, the text standing for the wikilink of `ctx`; an error
    /// stops the building of the vault.
    fn run(&self, text: &mut String, ctx: &WikilinkContext) -> (r: Result<(), crate::builder::Error>)
        requires
            ctx.destination matches Some(d) ==> linkable(*d, *ctx.source),
    ;
}

/// What renders a wikilink.
pub trait WikilinkRenderer {
    /// The text that stands for the wikilink of `ctx`.
    fn render(&self, ctx: &WikilinkContext) -> String
        requires
            ctx.destination matches Some(d) ==> linkable(*d, *ctx.source),
    ;
}

/// What fills in a wikilink's context from its text.
pub trait WikilinkPreprocessor {
    /// Fills in `ctx` from its text.
    fn run(&self, ctx: &mut WikilinkContext);
}

/// Turns wikilinks that lead to a note into CommonMark links.
pub struct CommonMarkHandler;

impl WikilinkHandler for CommonMarkHandler {
    /// Replaces `text` with the CommonMark link to the destination of `ctx`,
    /// when it has one; otherwise leaves `text` as it is.  It never fails.
    fn run(&self, text: &mut String, ctx: &WikilinkContext) -> (r: Result<(), crate::builder::Error>)
        ensures
            r is Ok,
            match ctx.destination {
                Some(d) => final(text)@ == spec_context_cmark(
                    *d,
                    *ctx.source,
                    opt_view(ctx.alias),
                    ctx.anchor@,
                ),
                None => final(text)@ == old(text)@,
            },
    {
        match ctx.destination {
            Some(dest) => {
                *text = context_cmark(dest, ctx);
            },
            None => {},
        }
        Ok(())
    }
}

/// Renders wikilinks as CommonMark.
pub struct CommonMarkRenderer;

impl WikilinkRenderer for CommonMarkRenderer {
    /// The CommonMark link to the destination of `ctx`, or the wikilink's
    /// text as it was when it leads nowhere.
    fn render(&self, ctx: &WikilinkContext) -> (r: String)
        ensures
            r@ == match ctx.destination {
                Some(d) => spec_context_cmark(*d, *ctx.source, opt_view(ctx.alias), ctx.anchor@),
                None => ctx.text@,
            },
    {
        match ctx.destination {
            Some(dest) => context_cmark(dest, ctx),
            None => ctx.text.to_string(),
        }
    }
}

/// Fills in a context's alias and anchor from its text.
pub struct MdzkPreprocessor;

impl WikilinkPreprocessor for MdzkPreprocessor {
    /// Reads the text of `ctx` and sets its alias and anchor from it; a text
    /// that does not read as a wikilink leaves the context as it was.  The
    /// destination is left as it was.
    fn run(&self, ctx: &mut WikilinkContext)
        ensures
            final(ctx).text == old(ctx).text,
            final(ctx).source == old(ctx).source,
            final(ctx).destination == old(ctx).destination,
            match spec_parse_link(old(ctx).text@) {
                Ok(p) => {
                    &&& opt_view(final(ctx).alias) == p.alias
                    &&& final(ctx).anchor@ == spec_anchor_ids(p.anchor)
                },
                Err(_) => {
                    &&& opt_view(final(ctx).alias) == opt_view(old(ctx).alias)
                    &&& final(ctx).anchor@ == old(ctx).anchor@
                },
            },
    {
        match parse_link(ctx.text) {
            Ok(parts) => {
                ctx.anchor = anchor_ids(&parts.anchor);
                ctx.alias = parts.alias;
            },
            Err(_) => {},
        }
    }
}

} // verus!

