//! The vault: notes and the arcs between them.
//!
//! A vault is a directed graph whose nodes are notes.  Each note knows, for
//! every note of the vault, whether it links to it and from which places of
//! its content; this adjacency matrix makes the incoming arcs of a note (its
//! backlinks) as quick to find as its outgoing ones.

use vstd::prelude::*;
use std::ops::Range;
use crate::time::{DateTime, UtcOffset};
use crate::wikilink::{NameMap, spec_anchor_ids, spec_parse_link};
use crate::builder::Error;
use crate::context::{CommonMarkHandler, WikilinkContext, WikilinkHandler, spec_context_cmark, linkable};
use crate::markdown::{IgnoreRule, SpecFound, found_view, markdown_events_of, wikilinks_in};
use crate::text::{chars_of, extend_chars, replace_first, replace_first_chars, string_of};

verus! {

/// Uniquely identifies a note: a hash of the note's path.
#[derive(Clone, Copy, PartialEq, Eq, Hash, Debug, Structural)]
pub struct NoteId(pub u64);

/// The value that `std`'s default hasher gives for the string `s`.
pub uninterp spec fn std_hash(s: Seq<char>) -> u64;

/// The 64-bit FNV-1a hash of the bytes `bs`, starting from the state `h`:
/// each byte is xored into the state, which is then multiplied by the FNV
/// prime, wrapping.
pub open spec fn fnv1a_from(h: u64, bs: Seq<u8>) -> u64
    decreases bs.len(),
{
    if bs.len() == 0 {
        h
    } else {
        fnv1a_from(((h ^ (bs[0] as u64)) * 0x100000001b3) as u64, bs.drop_first())
    }
}

/// The 64-bit FNV-1a hash of the bytes `bs`.
pub open spec fn fnv1a(bs: Seq<u8>) -> u64 {
    fnv1a_from(0xcbf29ce484222325, bs)
}

/// `a + b`, wrapping around at `2^64`.
pub open spec fn wrap_add(a: u64, b: u64) -> u64 {
    if a + b <= u64::MAX {
        (a + b) as u64
    } else {
        (a + b - 0x1_0000_0000_0000_0000) as u64
    }
}

/// The tally of component lengths after one more component of length `len`:
/// the length is added, wrapping, and the bits rotated right by two.
pub open spec fn mix_len(bits: u64, len: int) -> u64 {
    let t = wrap_add(bits, len as u64);
    (t >> 2u64) | (t << 62u64)
}

/// The component bytes of the path `bs` (UTF-8) from position `i` on, while
/// the current component started at `start`, and the tally `bits` of their
/// lengths: `/` separators are left out, and so is a `.` component that
/// follows a separator (as `Path::components` drops it).
pub open spec fn path_scan(bs: Seq<u8>, i: int, start: int, bits: u64) -> (Seq<u8>, u64)
    decreases bs.len() - i,
{
    if i >= bs.len() {
        if start < bs.len() {
            (bs.subrange(start, bs.len() as int), mix_len(bits, bs.len() - start))
        } else {
            (Seq::empty(), bits)
        }
    } else if bs[i] == 47u8 {
        let piece = if i > start {
            bs.subrange(start, i)
        } else {
            Seq::empty()
        };
        let b1 = if i > start {
            mix_len(bits, i - start)
        } else {
            bits
        };
        let next = i + 1;
        let skip = if next == bs.len() - 1 && bs[next] == 46u8 {
            1int
        } else if next + 1 < bs.len() && bs[next] == 46u8 && bs[next + 1] == 47u8 {
            1int
        } else {
            0int
        };
        let rest = path_scan(bs, i + 1, next + skip, b1);
        (piece + rest.0, rest.1)
    } else {
        path_scan(bs, i + 1, start, bits)
    }
}

/// The eight bytes of `n`, least significant first.
pub open spec fn le_bytes(n: u64) -> Seq<u8> {
    seq![
        (n & 0xff) as u8,
        ((n >> 8u64) & 0xff) as u8,
        ((n >> 16u64) & 0xff) as u8,
        ((n >> 24u64) & 0xff) as u8,
        ((n >> 32u64) & 0xff) as u8,
        ((n >> 40u64) & 0xff) as u8,
        ((n >> 48u64) & 0xff) as u8,
        ((n >> 56u64) & 0xff) as u8,
    ]
}

/// The bytes hashed for the path `s`: the bytes of its components, then the
/// tally of their lengths as eight little-endian bytes.
pub open spec fn path_id_bytes(s: Seq<char>) -> Seq<u8> {
    let scan = path_scan(vstd::utf8::encode_utf8(s), 0, 0, 0);
    scan.0 + le_bytes(scan.1)
}

/// The id hash of the path `s`: the FNV-1a hash of [`path_id_bytes`].
pub open spec fn fnv_path_hash(s: Seq<char>) -> u64 {
    fnv1a(path_id_bytes(s))
}

/// Hashes `s` with `std::collections::hash_map::DefaultHasher` (created by
/// `new`, so with fixed keys).  Its contract claims only that the result is a
/// function of `s` alone.
#[verifier::external_body]
fn hash_string(s: &str) -> (h: u64)
    ensures
        h == std_hash(s@),
{
    let mut hasher = std::collections::hash_map::DefaultHasher::new();
    std::hash::Hash::hash(s, &mut hasher);
    std::hash::Hasher::finish(&hasher)
}

/// The hash of `bytes` by `fnv::FnvHasher`: a default hasher (state
/// `0xcbf29ce484222325`), one `write` of the bytes (each xored in, then a
/// wrapping multiplication by `0x100000001b3`), and `finish`, which gives
/// the state.  Its contract states that FNV-1a result.
#[verifier::external_body]
fn fnv_hash(bytes: &[u8]) -> (h: u64)
    ensures
        h == fnv1a(bytes@),
{
    let mut hasher = fnv::FnvHasher::default();
    std::hash::Hasher::write(&mut hasher, bytes);
    std::hash::Hasher::finish(&hasher)
}

/// The eight bytes of `n`, least significant first.
fn push_le_bytes(out: &mut Vec<u8>, n: u64)
    ensures
        final(out)@ == old(out)@ + le_bytes(n),
{
    out.push((n & 0xff) as u8);
    out.push(((n >> 8u64) & 0xff) as u8);
    out.push(((n >> 16u64) & 0xff) as u8);
    out.push(((n >> 24u64) & 0xff) as u8);
    out.push(((n >> 32u64) & 0xff) as u8);
    out.push(((n >> 40u64) & 0xff) as u8);
    out.push(((n >> 48u64) & 0xff) as u8);
    out.push(((n >> 56u64) & 0xff) as u8);
    assert(final(out)@ =~= old(out)@ + le_bytes(n));
}

/// `a + b`, wrapping around at `2^64`.
fn wrapping_sum(a: u64, b: u64) -> (r: u64)
    ensures
        r == wrap_add(a, b),
{
    if b <= u64::MAX - a {
        a + b
    } else {
        b - (u64::MAX - a) - 1
    }
}

/// The tally `bits` after one more component of length `len`.
fn mix_len_of(bits: u64, len: u64) -> (r: u64)
    ensures
        r == mix_len(bits, len as int),
{
    let t = wrapping_sum(bits, len);
    (t >> 2u64) | (t << 62u64)
}

/// Appends the bytes `bs[a..b]` to `out`.
fn push_range(out: &mut Vec<u8>, bs: &[u8], a: usize, b: usize)
    requires
        a <= b <= bs@.len(),
    ensures
        final(out)@ == old(out)@ + bs@.subrange(a as int, b as int),
{
    let mut k: usize = a;
    while k < b
        invariant
            a <= k <= b <= bs@.len(),
            out@ == old(out)@ + bs@.subrange(a as int, k as int),
        decreases b - k,
    {
        out.push(bs[k]);
        assert(out@ =~= old(out)@ + bs@.subrange(a as int, k + 1));
        k = k + 1;
    }
}

/// The bytes of `path` that [`path_id_bytes`] describes.
fn path_id_bytes_of(path: &str) -> (r: Vec<u8>)
    ensures
        r@ == path_id_bytes(path@),
{
    let bs = path.as_bytes();
    let n = bs.len();
    let ghost total = path_scan(bs@, 0, 0, 0);
    let mut out: Vec<u8> = Vec::new();
    let mut bits: u64 = 0;
    let mut i: usize = 0;
    let mut start: usize = 0;
    while i < n
        invariant
            n == bs@.len(),
            total == path_scan(bs@, 0, 0, 0),
            i <= n,
            start <= n,
            out@ + path_scan(bs@, i as int, start as int, bits).0 == total.0,
            path_scan(bs@, i as int, start as int, bits).1 == total.1,
        decreases n - i,
    {
        if bs[i] == 47u8 {
            let ghost out0 = out@;
            let ghost bits0 = bits;
            if i > start {
                push_range(&mut out, bs, start, i);
                bits = mix_len_of(bits, (i - start) as u64);
            }
            let next = i + 1;
            let mut skip: usize = 0;
            if next < n && bs[next] == 46u8 {
                if next == n - 1 {
                    skip = 1;
                } else if bs[next + 1] == 47u8 {
                    skip = 1;
                }
            }
            proof {
                let piece = if i > start {
                    bs@.subrange(start as int, i as int)
                } else {
                    Seq::empty()
                };
                let rest = path_scan(bs@, i + 1, (next + skip) as int, bits);
                assert(path_scan(bs@, i as int, start as int, bits0) == (piece + rest.0, rest.1));
                assert(out@ =~= out0 + piece);
                assert(out0 + (piece + rest.0) =~= out@ + rest.0);
            }
            start = next + skip;
        }
        i = i + 1;
    }
    proof {
        let last = path_scan(bs@, n as int, start as int, bits);
        if start >= n {
            assert(last.0 =~= Seq::<u8>::empty());
            assert(out@ =~= total.0);
        }
    }
    if start < n {
        push_range(&mut out, bs, start, n);
        bits = mix_len_of(bits, (n - start) as u64);
    }
    assert(out@ =~= total.0);
    push_le_bytes(&mut out, bits);
    out
}

/// The lowercase hexadecimal digit for `d < 16`.
pub open spec fn hex_lower(d: nat) -> char {
    if d < 10 {
        (('0' as nat) + d) as char
    } else {
        (('a' as nat) + (d - 10)) as char
    }
}

/// The lowercase hexadecimal numeral of `n`, without leading zeros.
pub open spec fn hex_digits(n: nat) -> Seq<char>
    decreases n,
{
    if n < 16 {
        seq![hex_lower(n)]
    } else {
        hex_digits(n / 16) + seq![hex_lower(n % 16)]
    }
}

fn hex_digits_of(n: u64) -> (r: Vec<char>)
    ensures
        r@ == hex_digits(n as nat),
    decreases n,
{
    let d = (n % 16) as u8;
    let c = if d < 10 {
        (('0' as u8) + d) as char
    } else {
        (('a' as u8) + (d - 10)) as char
    };
    assert(c == hex_lower((n % 16) as nat));
    if n < 16 {
        vec![c]
    } else {
        let mut r = hex_digits_of(n / 16);
        r.push(c);
        r
    }
}

impl NoteId {
    /// The id that hashing the string `s` gives.
    pub fn from(s: &str) -> (id: NoteId)
        ensures
            id.0 == std_hash(s@),
    {
        NoteId(hash_string(s))
    }

    /// The id of the note at `path` (relative to the vault's root).
    pub fn from_path(path: &str) -> (id: NoteId)
        ensures
            id.0 == fnv_path_hash(path@),
    {
        NoteId(fnv_hash(path_id_bytes_of(path).as_slice()))
    }

    /// The id in lowercase hexadecimal, as notes are referred to in output.
    pub fn to_hex(&self) -> (r: String)
        ensures
            r@ == hex_digits(self.0 as nat),
    {
        crate::text::string_of(&hex_digits_of(self.0))
    }
}

/// An arc between two notes: connected by links at the given source ranges,
/// or not connected.
#[derive(Clone, Debug, PartialEq, Eq)]
pub enum Arc {
    Connected(Vec<Range<usize>>),
    NotConnected,
}

/// The link ranges of an arc, none when it is not connected.
pub open spec fn arc_ranges(a: Arc) -> Option<Seq<Range<usize>>> {
    match a {
        Arc::Connected(v) => Some(v@),
        Arc::NotConnected => None,
    }
}

impl Arc {
    /// Records one more link along this arc, at `range`.
    pub fn push_link_range(&mut self, range: Range<usize>)
        ensures
            arc_ranges(*final(self)) == Some(
                match arc_ranges(*old(self)) {
                    Some(rs) => rs,
                    None => Seq::empty(),
                }.push(range),
            ),
    {
        match self {
            Arc::Connected(ranges) => ranges.push(range),
            Arc::NotConnected => {
                *self = Arc::Connected(vec![range]);
            },
        }
    }
}

/// An edge between two notes of the note graph: connected by links at the
/// given source ranges, or not connected.
#[derive(Clone, Debug, PartialEq)]
pub enum Edge {
    Connected(Vec<Range<usize>>),
    NotConnected,
}

/// The link ranges of an edge, none when it is not connected.
pub open spec fn edge_ranges(e: Edge) -> Option<Seq<Range<usize>>> {
    match e {
        Edge::Connected(v) => Some(v@),
        Edge::NotConnected => None,
    }
}

impl Edge {
    /// Records one more link along this edge, at `range`.
    pub fn push_link_range(&mut self, range: Range<usize>)
        ensures
            edge_ranges(*final(self)) == Some(
                match edge_ranges(*old(self)) {
                    Some(rs) => rs,
                    None => Seq::empty(),
                }.push(range),
            ),
    {
        match self {
            Edge::Connected(ranges) => ranges.push(range),
            Edge::NotConnected => {
                *self = Edge::Connected(vec![range]);
            },
        }
    }
}

/// Values of front matter fields other than title, tags and date, held as parsed.
#[verifier::external_type_specification]
#[verifier::external_body]
pub struct ExJsonValue(serde_json::Value);


/// A node of a [`Vault`]: a note of the Zettelkasten.
pub struct Note {
    /// The title of the note.
    pub title: String,
    /// The path of the note relative to the root of its vault, if it has one.
    pub path: Option<String>,
    /// The tags assigned to the note.
    pub tags: Vec<String>,
    /// The date assigned to the note.
    pub date: Option<DateTime>,
    /// Further front matter fields, as they were.
    pub extra: Vec<(String, serde_json::Value)>,
    /// The content of the source file that produced this note.
    pub original_content: String,
    /// The content of the note in CommonMark, its wikilinks turned into links.
    pub content: String,
    /// Links that lead nowhere, with their source ranges.
    pub invalid_arcs: Vec<(Range<usize>, String)>,
    /// The id of the note.
    pub id: NoteId,
    /// For each note of the vault, by id, the arc from this note to it.
    pub adjacencies: Vec<(NoteId, Arc)>,
}

/// The fields a note's front matter may set.
pub struct FrontMatter {
    pub title: Option<String>,
    pub tags: Option<Vec<String>>,
    pub date: Option<String>,
    pub extra: Vec<(String, serde_json::Value)>,
}

/// A note as read from its file: its path relative to the vault's root, the
/// file's content, its front matter (when it has one that reads as such) and
/// the content that follows the front matter.
pub struct NoteSource {
    pub path: String,
    pub original_content: String,
    pub front_matter: Option<FrontMatter>,
    pub body: String,
}

/// The path a note is known by: its path, or its title when it has none.
pub open spec fn note_path(n: Note) -> Seq<char> {
    match n.path {
        Some(p) => p@,
        None => n.title@,
    }
}

/// The ids of the notes that the adjacencies `adj` connect to, in order.
pub open spec fn connected_ids(adj: Seq<(NoteId, Arc)>) -> Seq<NoteId>
    decreases adj.len(),
{
    if adj.len() == 0 {
        Seq::empty()
    } else {
        let init = connected_ids(adj.drop_last());
        if adj.last().1 is Connected {
            init.push(adj.last().0)
        } else {
            init
        }
    }
}

/// The title a note from `path` gets without front matter: its file stem.
pub open spec fn default_title(path: Seq<char>) -> Seq<char> {
    match crate::path::file_stem(path) {
        Some(stem) => stem,
        None => Seq::empty(),
    }
}

impl Note {
    /// The note that the file `src` holds: the title, tags, date and other
    /// fields come from its front matter, the title falling back to the file
    /// stem; its content is what follows the front matter; dates without an
    /// offset are taken at `local`.  It has no arcs yet.
    pub fn from_source(src: NoteSource, local: UtcOffset) -> (n: Note)
        ensures
            n.id.0 == fnv_path_hash(src.path@),
            n.path matches Some(p) && p@ == src.path@,
            n.original_content@ == src.original_content@,
            n.content@ == src.body@,
            n.title@ == (match src.front_matter {
                Some(fm) => match fm.title {
                    Some(t) => t@,
                    None => default_title(src.path@),
                },
                None => default_title(src.path@),
            }),
            n.tags@ == (match src.front_matter {
                Some(fm) => match fm.tags {
                    Some(t) => t@,
                    None => Seq::empty(),
                },
                None => Seq::empty(),
            }),
            n.date == (match src.front_matter {
                Some(fm) => match fm.date {
                    Some(d) => crate::time::spec_parse_datestring(d@, local),
                    None => None,
                },
                None => None,
            }),
            n.extra@ == (match src.front_matter {
                Some(fm) => fm.extra@,
                None => Seq::empty(),
            }),
            n.invalid_arcs@.len() == 0,
            n.adjacencies@.len() == 0,
    {
        let id = NoteId::from_path(src.path.as_str());
        let stem = crate::path::file_stem_of(src.path.as_str());
        let default = match stem {
            Some(s) => s,
            None => String::new(),
        };
        let (title, tags, date, extra) = match src.front_matter {
            Some(fm) => {
                let title = match fm.title {
                    Some(t) => t,
                    None => default,
                };
                let tags = match fm.tags {
                    Some(t) => t,
                    None => Vec::new(),
                };
                let date = match fm.date {
                    Some(d) => crate::time::parse_datestring(d.as_str(), local),
                    None => None,
                };
                (title, tags, date, fm.extra)
            },
            None => (default, Vec::new(), None, Vec::new()),
        };
        Note {
            title,
            path: Some(src.path),
            tags,
            date,
            extra,
            original_content: src.original_content,
            content: src.body,
            invalid_arcs: Vec::new(),
            id,
            adjacencies: Vec::new(),
        }
    }

    /// Takes the front matter `front_matter` of the note's file into
    /// account, `body` being what follows it: the title, tags and date it
    /// sets replace the note's (dates without an offset are taken at
    /// `local`), its other fields become the note's extra fields, and the
    /// note's content becomes `body`.
    pub fn process_front_matter(&mut self, front_matter: Option<FrontMatter>, body: String, local: UtcOffset)
        ensures
            final(self).title@ == (match front_matter {
                Some(fm) => match fm.title {
                    Some(t) => t@,
                    None => old(self).title@,
                },
                None => old(self).title@,
            }),
            final(self).tags@ == (match front_matter {
                Some(fm) => match fm.tags {
                    Some(t) => t@,
                    None => old(self).tags@,
                },
                None => old(self).tags@,
            }),
            final(self).date == (match front_matter {
                Some(fm) => match fm.date {
                    Some(d) => crate::time::spec_parse_datestring(d@, local),
                    None => old(self).date,
                },
                None => old(self).date,
            }),
            final(self).extra@ == (match front_matter {
                Some(fm) => fm.extra@,
                None => old(self).extra@,
            }),
            final(self).content@ == body@,
            final(self).path == old(self).path,
            final(self).original_content == old(self).original_content,
            final(self).invalid_arcs == old(self).invalid_arcs,
            final(self).id == old(self).id,
            final(self).adjacencies == old(self).adjacencies,
    {
        match front_matter {
            Some(fm) => {
                match fm.title {
                    Some(t) => {
                        self.title = t;
                    },
                    None => {},
                }
                match fm.tags {
                    Some(t) => {
                        self.tags = t;
                    },
                    None => {},
                }
                match fm.date {
                    Some(d) => {
                        self.date = crate::time::parse_datestring(d.as_str(), local);
                    },
                    None => {},
                }
                self.extra = fm.extra;
            },
            None => {},
        }
        self.content = body;
    }

    /// The path the note is known by: its path, or its title when it has none.
    pub fn path(&self) -> (r: String)
        ensures
            r@ == note_path(*self),
    {
        match &self.path {
            Some(p) => p.clone(),
            None => self.title.clone(),
        }
    }

    /// The ids of the notes this note has arcs to, in the vault's order.
    pub fn outgoing_arcs(&self) -> (r: Vec<NoteId>)
        ensures
            r@ == connected_ids(self.adjacencies@),
    {
        let mut r: Vec<NoteId> = Vec::new();
        let mut k: usize = 0;
        while k < self.adjacencies.len()
            invariant
                k <= self.adjacencies@.len(),
                r@ == connected_ids(self.adjacencies@.subrange(0, k as int)),
            decreases self.adjacencies@.len() - k,
        {
            proof {
                let pre = self.adjacencies@.subrange(0, k + 1);
                assert(pre.drop_last() =~= self.adjacencies@.subrange(0, k as int));
                assert(pre.last() == self.adjacencies@[k as int]);
            }
            match &self.adjacencies[k].1 {
                Arc::Connected(_) => r.push(self.adjacencies[k].0),
                Arc::NotConnected => {},
            }
            k = k + 1;
        }
        assert(self.adjacencies@.subrange(0, self.adjacencies@.len() as int) =~= self.adjacencies@);
        r
    }
}


/// Whether no note after the `i`th of `notes` has its id.
pub open spec fn is_last_with_id(notes: Seq<Note>, i: int) -> bool {
    forall|j: int| i < j < notes.len() ==> (#[trigger] notes[j]).id != notes[i].id
}

/// The positions among the first `k` of `notes` of the notes a vault keeps:
/// those that no later note with the same id replaces, in order.
pub open spec fn kept_upto(notes: Seq<Note>, k: int) -> Seq<int>
    decreases k,
{
    if k <= 0 {
        Seq::empty()
    } else if is_last_with_id(notes, k - 1) {
        kept_upto(notes, k - 1).push(k - 1)
    } else {
        kept_upto(notes, k - 1)
    }
}

/// The positions in `notes` of the notes a vault made of them keeps.
pub open spec fn kept_positions(notes: Seq<Note>) -> Seq<int> {
    kept_upto(notes, notes.len() as int)
}

/// The ids of the notes a vault made of `notes` keeps, in its order.
pub open spec fn kept_ids(notes: Seq<Note>) -> Seq<NoteId> {
    kept_positions(notes).map_values(|i: int| notes[i].id)
}

/// The last position of `id` in `ids`, or -1.
pub open spec fn index_of_id(ids: Seq<NoteId>, id: NoteId) -> int
    decreases ids.len(),
{
    if ids.len() == 0 {
        -1
    } else if ids.last() == id {
        ids.len() - 1
    } else {
        index_of_id(ids.drop_last(), id)
    }
}

/// Which note each title and path names: the position of the last note of
/// `notes` with that title or path.
pub open spec fn name_index(notes: Seq<Note>) -> Map<Seq<char>, usize>
    decreases notes.len(),
{
    if notes.len() == 0 {
        Map::empty()
    } else {
        let k = (notes.len() - 1) as usize;
        let m = name_index(notes.drop_last()).insert(notes.last().title@, k);
        match notes.last().path {
            Some(p) => m.insert(p@, k),
            None => m,
        }
    }
}

/// The id each title and path of `notes` names.
pub open spec fn id_index(notes: Seq<Note>) -> Map<Seq<char>, NoteId> {
    name_index(notes).map_values(|i: usize| notes[i as int].id)
}

/// The position in `notes` of the note the wikilink `text` leads to.
pub open spec fn link_target(text: Seq<char>, notes: Seq<Note>) -> Option<usize> {
    match spec_parse_link(text) {
        Ok(p) => if name_index(notes).contains_key(p.note) {
            Some(name_index(notes)[p.note])
        } else {
            None
        },
        Err(_) => None,
    }
}

/// What the wikilink `text` in `src` is written as: the CommonMark link to
/// its destination, or the text itself when it leads nowhere.
pub open spec fn link_text_for(text: Seq<char>, src: Note, notes: Seq<Note>) -> Seq<char> {
    match spec_parse_link(text) {
        Ok(p) => match link_target(text, notes) {
            Some(d) => spec_context_cmark(notes[d as int], src, p.alias, spec_anchor_ids(p.anchor)),
            None => text,
        },
        Err(_) => text,
    }
}

/// `[[text]]`.
pub open spec fn wikilink_pattern(text: Seq<char>) -> Seq<char> {
    seq!['[', '['] + text + seq![']', ']']
}

/// The link ranges `a` with `r` added.
pub open spec fn with_range(a: Option<Seq<Range<usize>>>, r: Range<usize>) -> Option<
    Seq<Range<usize>>,
> {
    Some(
        match a {
            Some(rs) => rs,
            None => Seq::empty(),
        }.push(r),
    )
}

/// The content and the arcs (by position among the kept notes) of `src`
/// after the wikilinks `found` of it are resolved against `notes`, one after
/// the other: each is replaced, at its first occurrence as `[[text]]`, by
/// what it is written as, and each that leads to a note adds its range to the
/// arc to that note.
pub open spec fn link_notes(found: Seq<SpecFound>, src: Note, notes: Seq<Note>) -> (
    Seq<char>,
    Seq<Option<Seq<Range<usize>>>>,
)
    decreases found.len(),
{
    if found.len() == 0 {
        (src.content@, Seq::new(kept_positions(notes).len(), |j: int| None))
    } else {
        let (c, adj) = link_notes(found.drop_last(), src, notes);
        let f = found.last();
        let c2 = replace_first(c, wikilink_pattern(f.text), link_text_for(f.text, src, notes));
        match link_target(f.text, notes) {
            Some(d) => {
                let p = index_of_id(kept_ids(notes), notes[d as int].id);
                (c2, adj.update(p, with_range(adj[p], f.range)))
            },
            None => (c2, adj),
        }
    }
}

/// The wikilinks of a note's content.
pub open spec fn note_links(src: Note) -> Seq<SpecFound> {
    wikilinks_in(markdown_events_of(src.content@), IgnoreRule::CodeLinksImages)
}

/// The content and arcs of `src` once its wikilinks are resolved against `notes`.
pub open spec fn linked(src: Note, notes: Seq<Note>) -> (Seq<char>, Seq<Option<Seq<Range<usize>>>>) {
    link_notes(note_links(src), src, notes)
}

/// The arcs of adjacencies as plain values.
pub open spec fn adj_view(adj: Seq<(NoteId, Arc)>) -> Seq<Option<Seq<Range<usize>>>> {
    adj.map_values(|e: (NoteId, Arc)| arc_ranges(e.1))
}

/// Whether `adj` has one entry for each id of `ids`, in order.
pub open spec fn adjacency_shape(adj: Seq<(NoteId, Arc)>, ids: Seq<NoteId>) -> bool {
    &&& adj.len() == ids.len()
    &&& forall|j: int| 0 <= j < adj.len() ==> (#[trigger] adj[j]).0 == ids[j]
}

proof fn lemma_kept_upto(notes: Seq<Note>, k: int)
    requires
        0 <= k <= notes.len(),
    ensures
        forall|p: int|
            0 <= p < kept_upto(notes, k).len() ==> 0 <= #[trigger] kept_upto(notes, k)[p] < k
                && is_last_with_id(notes, kept_upto(notes, k)[p]),
        forall|p: int, q: int|
            0 <= p < q < kept_upto(notes, k).len() ==> #[trigger] kept_upto(notes, k)[p]
                < #[trigger] kept_upto(notes, k)[q],
        forall|i: int| 0 <= i < k && is_last_with_id(notes, i) ==> #[trigger] kept_upto(notes, k).contains(i),
    decreases k,
{
    if k > 0 {
        lemma_kept_upto(notes, k - 1);
        let prev = kept_upto(notes, k - 1);
        if is_last_with_id(notes, k - 1) {
            assert forall|i: int| 0 <= i < k && is_last_with_id(notes, i) implies #[trigger] kept_upto(notes, k).contains(i) by {
                if i == k - 1 {
                    assert(kept_upto(notes, k)[prev.len() as int] == i);
                } else {
                    assert(prev.contains(i));
                    let w = choose|w: int| 0 <= w < prev.len() && prev[w] == i;
                    assert(kept_upto(notes, k)[w] == i);
                }
            }
        }
    }
}

/// Of the notes with one id, the last is kept.
proof fn lemma_id_kept(notes: Seq<Note>, d: int)
    requires
        0 <= d < notes.len(),
    ensures
        exists|p: int| 0 <= p < kept_positions(notes).len() && #[trigger] notes[kept_positions(notes)[p]].id == notes[d].id,
    decreases notes.len() - d,
{
    lemma_kept_upto(notes, notes.len() as int);
    if is_last_with_id(notes, d) {
        assert(kept_positions(notes).contains(d));
        let w = choose|w: int| 0 <= w < kept_positions(notes).len() && kept_positions(notes)[w] == d;
        assert(notes[kept_positions(notes)[w]].id == notes[d].id);
    } else {
        let j = choose|j: int| d < j < notes.len() && (#[trigger] notes[j]).id == notes[d].id;
        lemma_id_kept(notes, j);
    }
}

proof fn lemma_index_of_id(ids: Seq<NoteId>, id: NoteId)
    ensures
        -1 <= index_of_id(ids, id) < ids.len(),
        index_of_id(ids, id) >= 0 ==> ids[index_of_id(ids, id)] == id,
        index_of_id(ids, id) == -1 <==> !ids.contains(id),
    decreases ids.len(),
{
    if ids.len() > 0 {
        lemma_index_of_id(ids.drop_last(), id);
        if ids.last() != id {
            if ids.contains(id) {
                let w = choose|w: int| 0 <= w < ids.len() && ids[w] == id;
                assert(ids.drop_last()[w] == id);
            }
            if ids.drop_last().contains(id) {
                let w = choose|w: int| 0 <= w < ids.drop_last().len() && ids.drop_last()[w] == id;
                assert(ids[w] == id);
            }
        } else {
            assert(ids[ids.len() - 1] == id);
        }
    }
}

/// The kept notes have distinct ids, and each id of `notes` is among them.
proof fn lemma_kept_ids(notes: Seq<Note>)
    ensures
        kept_ids(notes).len() == kept_positions(notes).len(),
        forall|a: int, b: int|
            0 <= a < b < kept_ids(notes).len() ==> #[trigger] kept_ids(notes)[a] != #[trigger] kept_ids(notes)[b],
        forall|d: int| 0 <= d < notes.len() ==> 0 <= #[trigger] index_of_id(kept_ids(notes), notes[d].id) < kept_ids(notes).len(),
        forall|d: int| 0 <= d < notes.len() ==> kept_ids(notes)[index_of_id(kept_ids(notes), notes[d].id)] == #[trigger] notes[d].id,
{
    lemma_kept_upto(notes, notes.len() as int);
    let ks = kept_positions(notes);
    assert forall|a: int, b: int| 0 <= a < b < kept_ids(notes).len() implies #[trigger] kept_ids(notes)[a] != #[trigger] kept_ids(notes)[b] by {
        assert(ks[a] < ks[b]);
        assert(is_last_with_id(notes, ks[a]));
        assert(notes[ks[b]].id != notes[ks[a]].id);
    }
    assert forall|d: int| 0 <= d < notes.len() implies 0 <= #[trigger] index_of_id(kept_ids(notes), notes[d].id) < kept_ids(notes).len() && kept_ids(notes)[index_of_id(kept_ids(notes), notes[d].id)] == notes[d].id by {
        lemma_id_kept(notes, d);
        let p = choose|p: int| 0 <= p < ks.len() && #[trigger] notes[ks[p]].id == notes[d].id;
        assert(kept_ids(notes)[p] == notes[d].id);
        lemma_index_of_id(kept_ids(notes), notes[d].id);
    }
}

/// Every title and path names a position of `notes`.
proof fn lemma_name_index(notes: Seq<Note>)
    ensures
        forall|k: Seq<char>| #[trigger] name_index(notes).contains_key(k) ==> name_index(notes)[k] < notes.len(),
    decreases notes.len(),
{
    if notes.len() > 0 {
        lemma_name_index(notes.drop_last());
        let prev = name_index(notes.drop_last());
        let k = (notes.len() - 1) as usize;
        let m = prev.insert(notes.last().title@, k);
        assert forall|key: Seq<char>| #[trigger] m.contains_key(key) implies m[key] < notes.len() by {
            if key != notes.last().title@ {
                assert(prev.contains_key(key));
            }
        }
    }
}

fn kept_indices(notes: &Vec<Note>) -> (r: Vec<usize>)
    ensures
        r@.len() == kept_positions(notes@).len(),
        forall|p: int| 0 <= p < r@.len() ==> r@[p] as int == #[trigger] kept_positions(notes@)[p],
{
    let n = notes.len();
    let mut r: Vec<usize> = Vec::new();
    let mut k: usize = 0;
    while k < n
        invariant
            k <= n,
            n == notes@.len(),
            r@.len() == kept_upto(notes@, k as int).len(),
            forall|p: int| 0 <= p < r@.len() ==> r@[p] as int == #[trigger] kept_upto(notes@, k as int)[p],
        decreases n - k,
    {
        let mut last = true;
        let mut j = k + 1;
        while j < n
            invariant
                k < n,
                k < j <= n,
                n == notes@.len(),
                last <==> (forall|t: int| k < t < j ==> (#[trigger] notes@[t]).id != notes@[k as int].id),
            decreases n - j,
        {
            if notes[j].id == notes[k].id {
                last = false;
            }
            j = j + 1;
        }
        if last {
            r.push(k);
        }
        k = k + 1;
    }
    r
}

fn lookups(notes: &Vec<Note>) -> (r: (NameMap<usize>, NameMap<NoteId>))
    ensures
        r.0@ == name_index(notes@),
        r.1@ == id_index(notes@),
{
    let mut names: NameMap<usize> = NameMap::new();
    let mut ids: NameMap<NoteId> = NameMap::new();
    let mut k: usize = 0;
    while k < notes.len()
        invariant
            k <= notes@.len(),
            names@ == name_index(notes@.subrange(0, k as int)),
            ids@ == name_index(notes@.subrange(0, k as int)).map_values(|i: usize| notes@[i as int].id),
            forall|key: Seq<char>| #[trigger] names@.contains_key(key) ==> names@[key] < k,
        decreases notes@.len() - k,
    {
        let ghost pre = notes@.subrange(0, k as int);
        let ghost m0 = name_index(pre);
        let note = &notes[k];
        names.insert(note.title.as_str(), k);
        ids.insert(note.title.as_str(), note.id);
        let ghost m1 = m0.insert(note.title@, k);
        assert(ids@ =~= m1.map_values(|i: usize| notes@[i as int].id));
        match &note.path {
            Some(p) => {
                names.insert(p.as_str(), k);
                ids.insert(p.as_str(), note.id);
                assert(ids@ =~= m1.insert(p@, k).map_values(|i: usize| notes@[i as int].id));
            },
            None => {},
        }
        proof {
            let next = notes@.subrange(0, k + 1);
            assert(next.drop_last() =~= pre);
            assert(next.last() == notes@[k as int]);
        }
        k = k + 1;
    }
    assert(notes@.subrange(0, notes@.len() as int) =~= notes@);
    (names, ids)
}

fn index_in(ids: &Vec<NoteId>, id: NoteId) -> (r: Option<usize>)
    ensures
        match r {
            Some(p) => p == index_of_id(ids@, id),
            None => index_of_id(ids@, id) == -1,
        },
{
    let mut k = ids.len();
    assert(ids@.subrange(0, k as int) =~= ids@);
    while k > 0
        invariant
            k <= ids@.len(),
            index_of_id(ids@, id) == index_of_id(ids@.subrange(0, k as int), id),
        decreases k,
    {
        proof {
            let t = ids@.subrange(0, k as int);
            assert(t.drop_last() =~= ids@.subrange(0, k - 1));
            assert(t.last() == ids@[k - 1]);
        }
        if ids[k - 1] == id {
            return Some(k - 1);
        }
        k = k - 1;
    }
    None
}


/// Resolves the wikilinks of `src` against `notes`: its content with each
/// replaced and its arcs to the kept notes, whose ids are `ids`.
fn link_note(src: &Note, notes: &Vec<Note>, lookup: &NameMap<usize>, ids: &Vec<NoteId>) -> (r: (
    Vec<char>,
    Vec<(NoteId, Arc)>,
))
    requires
        lookup@ == name_index(notes@),
        ids@ == kept_ids(notes@),
        links_linkable(*src, notes@),
    ensures
        r.0@ == linked(*src, notes@).0,
        adj_view(r.1@) == linked(*src, notes@).1,
        adjacency_shape(r.1@, ids@),
{
    proof {
        lemma_kept_ids(notes@);
        lemma_name_index(notes@);
    }
    let ghost fs = note_links(*src);
    let mut adj: Vec<(NoteId, Arc)> = Vec::new();
    let mut j: usize = 0;
    while j < ids.len()
        invariant
            j <= ids@.len(),
            adjacency_shape(adj@, ids@.subrange(0, j as int)),
            forall|t: int| 0 <= t < adj@.len() ==> arc_ranges((#[trigger] adj@[t]).1) is None,
        decreases ids@.len() - j,
    {
        adj.push((ids[j], Arc::NotConnected));
        j = j + 1;
    }
    assert(ids@.subrange(0, ids@.len() as int) =~= ids@);
    assert(adj_view(adj@) =~= Seq::new(kept_positions(notes@).len(), |j: int| None));
    let found = crate::markdown::for_each_wikilink(src.content.as_str());
    let mut content = chars_of(src.content.as_str());
    assert(fs.subrange(0, 0) =~= Seq::<SpecFound>::empty());
    let mut k: usize = 0;
    while k < found.len()
        invariant
            k <= found@.len(),
            found@.map_values(|f: (String, Range<usize>)| found_view(f)) == fs,
            fs == note_links(*src),
            lookup@ == name_index(notes@),
            ids@ == kept_ids(notes@),
            links_linkable(*src, notes@),
            forall|d: int| 0 <= d < notes@.len() ==> 0 <= #[trigger] index_of_id(kept_ids(notes@), notes@[d].id) < kept_ids(notes@).len(),
            forall|key: Seq<char>| #[trigger] name_index(notes@).contains_key(key) ==> name_index(notes@)[key] < notes@.len(),
            content@ == link_notes(fs.subrange(0, k as int), *src, notes@).0,
            adj_view(adj@) == link_notes(fs.subrange(0, k as int), *src, notes@).1,
            adjacency_shape(adj@, ids@),
        decreases found@.len() - k,
    {
        let text = found[k].0.as_str();
        let ghost f = fs[k as int];
        assert(f == found_view(found@[k as int]));
        let ctx = WikilinkContext::establish(text, src, notes.as_slice(), lookup);
        let mut fin = found[k].0.clone();
        proof {
            match ctx.destination {
                Some(d) => {
                    let pd = spec_parse_link(text@)->Ok_0;
                    assert(*d == notes@[name_index(notes@)[pd.note] as int]);
                    assert(fs[k as int] == note_links(*src)[k as int]);
                    assert(link_target(note_links(*src)[k as int].text, notes@) == Some(
                        name_index(notes@)[pd.note],
                    ));
                },
                None => {},
            }
        }
        let handled = CommonMarkHandler.run(&mut fin, &ctx);
        assert(handled is Ok);
        let ghost prev_adj = adj@;
        match ctx.destination {
            Some(d) => {
                let ghost pd = spec_parse_link(text@)->Ok_0;
                let ghost di = name_index(notes@)[pd.note] as int;
                assert(d.id == notes@[di].id);
                let p = index_in(ids, d.id).unwrap();
                let (eid, mut arc) = adj.remove(p);
                arc.push_link_range(Range { start: found[k].1.start, end: found[k].1.end });
                adj.insert(p, (eid, arc));
                assert(adj@ =~= prev_adj.update(p as int, (eid, arc)));
                assert(adj_view(adj@) =~= adj_view(prev_adj).update(
                    p as int,
                    with_range(adj_view(prev_adj)[p as int], f.range),
                ));
            },
            None => {},
        }
        let mut pat = vec!['[', '['];
        extend_chars(&mut pat, &chars_of(text));
        pat.push(']');
        pat.push(']');
        assert(pat@ =~= wikilink_pattern(f.text));
        content = replace_first_chars(&content, &pat, &chars_of(fin.as_str()));
        proof {
            let pre = fs.subrange(0, k + 1);
            assert(pre.drop_last() =~= fs.subrange(0, k as int));
            assert(pre.last() == f);
        }
        k = k + 1;
    }
    assert(fs.subrange(0, fs.len() as int) =~= fs);
    (content, adj)
}


/// `base` with the wikilinks `found` replaced in turn, each at the first
/// occurrence of `[[text]]`, by the texts `outs`.
pub open spec fn substituted(found: Seq<SpecFound>, base: Seq<char>, outs: Seq<Seq<char>>) -> Seq<char>
    decreases found.len(),
{
    if found.len() == 0 || outs.len() == 0 {
        base
    } else {
        replace_first(
            substituted(found.drop_last(), base, outs.drop_last()),
            wikilink_pattern(found.last().text),
            outs.last(),
        )
    }
}

/// Runs the handlers `handlers` in order on `text` for the wikilink of
/// `ctx`; the first error stops them and is returned.
fn run_handlers(
    handlers: &[Box<dyn WikilinkHandler>],
    text: &mut String,
    ctx: &WikilinkContext,
) -> (r: Result<(), Error>)
    requires
        ctx.destination matches Some(d) ==> linkable(*d, *ctx.source),
    ensures
        r is Err ==> handlers@.len() > 0,
{
    let mut j: usize = 0;
    while j < handlers.len()
        invariant
            ctx.destination matches Some(d) ==> linkable(*d, *ctx.source),
        decreases handlers@.len() - j,
    {
        match handlers[j].run(text, ctx) {
            Ok(()) => {},
            Err(e) => {
                return Err(e);
            },
        }
        j = j + 1;
    }
    Ok(())
}

/// Resolves the wikilinks of `src` against `notes` with the handlers
/// `handlers`: its content with each replaced by what the handlers wrote for
/// it (the texts returned beside), and its arcs to the kept notes, whose ids
/// are `ids`; or the first error of a handler.
fn link_note_with(
    src: &Note,
    notes: &Vec<Note>,
    lookup: &NameMap<usize>,
    ids: &Vec<NoteId>,
    handlers: &[Box<dyn WikilinkHandler>],
) -> (r: (Result<(Vec<char>, Vec<(NoteId, Arc)>), Error>, Ghost<Seq<Seq<char>>>))
    requires
        lookup@ == name_index(notes@),
        ids@ == kept_ids(notes@),
        links_linkable(*src, notes@),
    ensures
        r.0 is Err ==> handlers@.len() > 0,
        r.0 matches Ok(ca) ==> {
            &&& r.1@.len() == note_links(*src).len()
            &&& ca.0@ == substituted(note_links(*src), src.content@, r.1@)
            &&& adj_view(ca.1@) == linked(*src, notes@).1
            &&& adjacency_shape(ca.1@, ids@)
        },
{
    proof {
        lemma_kept_ids(notes@);
        lemma_name_index(notes@);
    }
    let ghost fs = note_links(*src);
    let mut adj: Vec<(NoteId, Arc)> = Vec::new();
    let mut j: usize = 0;
    while j < ids.len()
        invariant
            j <= ids@.len(),
            adjacency_shape(adj@, ids@.subrange(0, j as int)),
            forall|t: int| 0 <= t < adj@.len() ==> arc_ranges((#[trigger] adj@[t]).1) is None,
        decreases ids@.len() - j,
    {
        adj.push((ids[j], Arc::NotConnected));
        j = j + 1;
    }
    assert(ids@.subrange(0, ids@.len() as int) =~= ids@);
    assert(adj_view(adj@) =~= Seq::new(kept_positions(notes@).len(), |j: int| None));
    let found = crate::markdown::for_each_wikilink(src.content.as_str());
    let mut content = chars_of(src.content.as_str());
    let ghost mut outs: Seq<Seq<char>> = Seq::empty();
    assert(fs.subrange(0, 0) =~= Seq::<SpecFound>::empty());
    let mut k: usize = 0;
    while k < found.len()
        invariant
            k <= found@.len(),
            found@.map_values(|f: (String, Range<usize>)| found_view(f)) == fs,
            fs == note_links(*src),
            lookup@ == name_index(notes@),
            ids@ == kept_ids(notes@),
            links_linkable(*src, notes@),
            forall|d: int| 0 <= d < notes@.len() ==> 0 <= #[trigger] index_of_id(kept_ids(notes@), notes@[d].id) < kept_ids(notes@).len(),
            forall|key: Seq<char>| #[trigger] name_index(notes@).contains_key(key) ==> name_index(notes@)[key] < notes@.len(),
            outs.len() == k,
            content@ == substituted(fs.subrange(0, k as int), src.content@, outs),
            adj_view(adj@) == link_notes(fs.subrange(0, k as int), *src, notes@).1,
            adjacency_shape(adj@, ids@),
        decreases found@.len() - k,
    {
        let text = found[k].0.as_str();
        let ghost f = fs[k as int];
        assert(f == found_view(found@[k as int]));
        let ctx = WikilinkContext::establish(text, src, notes.as_slice(), lookup);
        let mut fin = found[k].0.clone();
        proof {
            match ctx.destination {
                Some(d) => {
                    let pd = spec_parse_link(text@)->Ok_0;
                    assert(*d == notes@[name_index(notes@)[pd.note] as int]);
                    assert(fs[k as int] == note_links(*src)[k as int]);
                    assert(link_target(note_links(*src)[k as int].text, notes@) == Some(
                        name_index(notes@)[pd.note],
                    ));
                },
                None => {},
            }
        }
        match run_handlers(handlers, &mut fin, &ctx) {
            Ok(()) => {},
            Err(e) => {
                return (Err(e), Ghost(outs));
            },
        }
        let ghost prev_adj = adj@;
        match ctx.destination {
            Some(d) => {
                let ghost pd = spec_parse_link(text@)->Ok_0;
                let ghost di = name_index(notes@)[pd.note] as int;
                assert(d.id == notes@[di].id);
                let p = index_in(ids, d.id).unwrap();
                let (eid, mut arc) = adj.remove(p);
                arc.push_link_range(Range { start: found[k].1.start, end: found[k].1.end });
                adj.insert(p, (eid, arc));
                assert(adj@ =~= prev_adj.update(p as int, (eid, arc)));
                assert(adj_view(adj@) =~= adj_view(prev_adj).update(
                    p as int,
                    with_range(adj_view(prev_adj)[p as int], f.range),
                ));
            },
            None => {},
        }
        let mut pat = vec!['[', '['];
        extend_chars(&mut pat, &chars_of(text));
        pat.push(']');
        pat.push(']');
        assert(pat@ =~= wikilink_pattern(f.text));
        content = replace_first_chars(&content, &pat, &chars_of(fin.as_str()));
        proof {
            let pre = fs.subrange(0, k + 1);
            assert(pre.drop_last() =~= fs.subrange(0, k as int));
            assert(pre.last() == f);
            let outs2 = outs.push(fin@);
            assert(outs2.drop_last() =~= outs);
            outs = outs2;
        }
        k = k + 1;
    }
    assert(fs.subrange(0, fs.len() as int) =~= fs);
    (Ok((content, adj)), Ghost(outs))
}

/// Whether the note `n` of a vault is the `i`th of `notes` with the content
/// `content` and its arcs to every kept note.
pub open spec fn built_with_content(n: Note, notes: Seq<Note>, i: int, content: Seq<char>) -> bool {
    let src = notes[i];
    &&& n.title == src.title
    &&& n.path == src.path
    &&& n.tags == src.tags
    &&& n.date == src.date
    &&& n.extra == src.extra
    &&& n.original_content == src.original_content
    &&& n.invalid_arcs == src.invalid_arcs
    &&& n.id == src.id
    &&& n.content@ == content
    &&& adj_view(n.adjacencies@) == linked(src, notes).1
    &&& adjacency_shape(n.adjacencies@, kept_ids(notes))
}

/// Whether the note `n` of a vault is what the vault made of the `i`th of
/// `notes`: the same note with its wikilinks resolved and its arcs to every
/// kept note.
pub open spec fn built_from(n: Note, notes: Seq<Note>, i: int) -> bool {
    built_with_content(n, notes, i, linked(notes[i], notes).0)
}

/// Whether the note `n` of a vault is the `i`th of `notes` with each of its
/// wikilinks replaced by the texts `outs` that the handlers wrote, and its
/// arcs to every kept note.
pub open spec fn handled_from(n: Note, notes: Seq<Note>, i: int, outs: Seq<Seq<char>>) -> bool {
    &&& outs.len() == note_links(notes[i]).len()
    &&& built_with_content(n, notes, i, substituted(note_links(notes[i]), notes[i].content@, outs))
}

/// Whether `v` is the vault of the notes `notes`, read from the directory
/// `root`, whose kept notes had their wikilinks rewritten by handlers: each
/// note as [`handled_from`] says for some texts the handlers wrote.
pub open spec fn handled_vault(v: Vault, notes: Seq<Note>, root: Seq<char>) -> bool {
    &&& v.wf()
    &&& v.root_path() == root
    &&& v.notes().len() == kept_positions(notes).len()
    &&& forall|p: int|
        0 <= p < v.notes().len() ==> note_handled(#[trigger] v.notes()[p], notes, kept_positions(notes)[p])
    &&& v.lookup() == id_index(notes)
}

/// Whether the note `n` of a vault is the `i`th of `notes` with its
/// wikilinks replaced by some texts that handlers wrote, as [`handled_from`]
/// says.
pub open spec fn note_handled(n: Note, notes: Seq<Note>, i: int) -> bool {
    exists|outs: Seq<Seq<char>>| #[trigger] handled_from(n, notes, i, outs)
}

/// The ids of `ns`, in order.
pub open spec fn ids_of(ns: Seq<Note>) -> Seq<NoteId> {
    ns.map_values(|n: Note| n.id)
}

/// Whether the notes `ns` make a vault: no id twice, and each note with one
/// arc for each note, in order.
pub open spec fn notes_wf(ns: Seq<Note>) -> bool {
    &&& forall|a: int, b: int| 0 <= a < b < ns.len() ==> (#[trigger] ns[a]).id != (#[trigger] ns[b]).id
    &&& forall|a: int| 0 <= a < ns.len() ==> adjacency_shape((#[trigger] ns[a]).adjacencies@, ids_of(ns))
}

/// Whether every note of `notes` can link to every other by a relative path.
pub open spec fn all_linkable(notes: Seq<Note>) -> bool {
    forall|i: int, k: int|
        0 <= i < notes.len() && 0 <= k < notes.len() ==> linkable(#[trigger] notes[i], #[trigger] notes[k])
}

/// Whether every wikilink of `src` that leads to one of `notes` can be
/// written as a relative path from `src` to that note.
pub open spec fn links_linkable(src: Note, notes: Seq<Note>) -> bool {
    forall|t: int|
        0 <= t < note_links(src).len() ==> match link_target(#[trigger] note_links(src)[t].text, notes) {
            Some(k) => linkable(notes[k as int], src),
            None => true,
        }
}

/// Whether, of the notes that a vault made of `notes` keeps, every wikilink
/// that leads to a note can be written as a relative path to it.
pub open spec fn linked_notes_linkable(notes: Seq<Note>) -> bool {
    forall|t: int|
        0 <= t < kept_positions(notes).len() ==> links_linkable(
            notes[#[trigger] kept_positions(notes)[t]],
            notes,
        )
}

/// Whether every wikilink of `src` that leads to one of `notes` (named by
/// `lookup`) can be written as a relative path from `src` to that note.
fn note_links_linkable(src: &Note, notes: &Vec<Note>, lookup: &NameMap<usize>) -> (b: bool)
    requires
        lookup@ == name_index(notes@),
    ensures
        b == links_linkable(*src, notes@),
{
    proof {
        lemma_name_index(notes@);
    }
    let ghost fs = note_links(*src);
    let found = crate::markdown::for_each_wikilink(src.content.as_str());
    let mut k: usize = 0;
    while k < found.len()
        invariant
            k <= found@.len(),
            found@.map_values(|f: (String, Range<usize>)| found_view(f)) == fs,
            fs == note_links(*src),
            lookup@ == name_index(notes@),
            forall|key: Seq<char>| #[trigger] name_index(notes@).contains_key(key) ==> name_index(notes@)[key] < notes@.len(),
            forall|t: int|
                0 <= t < k ==> match link_target(#[trigger] fs[t].text, notes@) {
                    Some(j) => linkable(notes@[j as int], *src),
                    None => true,
                },
        decreases found@.len() - k,
    {
        let text = found[k].0.as_str();
        assert(fs[k as int] == found_view(found@[k as int]));
        let ctx = WikilinkContext::establish(text, src, notes.as_slice(), lookup);
        match ctx.destination {
            Some(d) => {
                proof {
                    let pd = spec_parse_link(text@)->Ok_0;
                    assert(*d == notes@[name_index(notes@)[pd.note] as int]);
                    assert(link_target(fs[k as int].text, notes@) == Some(name_index(notes@)[pd.note]));
                }
                let dest = d.path();
                let from = src.path();
                if crate::path::diff_from_parent(dest.as_str(), from.as_str()).is_none() {
                    assert(!links_linkable(*src, notes@)) by {
                        assert(note_links(*src)[k as int] == fs[k as int]);
                    }
                    return false;
                }
            },
            None => {
                proof {
                    match spec_parse_link(text@) {
                        Ok(pd) => {
                            assert(!name_index(notes@).contains_key(pd.note));
                        },
                        Err(_) => {},
                    }
                    assert(link_target(fs[k as int].text, notes@) is None);
                }
            },
        }
        k = k + 1;
    }
    assert forall|t: int| 0 <= t < note_links(*src).len() implies match link_target(
        #[trigger] note_links(*src)[t].text,
        notes@,
    ) {
        Some(j) => linkable(notes@[j as int], *src),
        None => true,
    } by {
        assert(note_links(*src)[t] == fs[t]);
    }
    true
}

/// Whether, of the notes that a vault made of `notes` keeps, every wikilink
/// that leads to a note can be written as a relative path to it, as
/// [`Vault::from_notes`] needs.
pub fn linked_notes_are_linkable(notes: &Vec<Note>) -> (b: bool)
    ensures
        b == linked_notes_linkable(notes@),
{
    proof {
        lemma_kept_upto(notes@, notes@.len() as int);
    }
    let kept = kept_indices(notes);
    let (lookup, _) = lookups(notes);
    let mut p: usize = 0;
    while p < kept.len()
        invariant
            p <= kept@.len(),
            kept@.len() == kept_positions(notes@).len(),
            forall|t: int| 0 <= t < kept@.len() ==> kept@[t] as int == #[trigger] kept_positions(notes@)[t],
            forall|t: int| 0 <= t < kept_positions(notes@).len() ==> 0 <= #[trigger] kept_positions(notes@)[t] < notes@.len(),
            lookup@ == name_index(notes@),
            forall|t: int|
                0 <= t < p ==> links_linkable(notes@[#[trigger] kept_positions(notes@)[t]], notes@),
        decreases kept@.len() - p,
    {
        assert(kept@[p as int] as int == kept_positions(notes@)[p as int]);
        if !note_links_linkable(&notes[kept[p]], notes, &lookup) {
            assert(!linked_notes_linkable(notes@)) by {
                assert(!links_linkable(notes@[kept_positions(notes@)[p as int]], notes@));
            }
            return false;
        }
        p = p + 1;
    }
    true
}

/// Notes that can all reach each other by relative paths can in particular
/// reach every note their wikilinks lead to.
pub proof fn law_all_linkable_links_linkable(notes: Seq<Note>)
    requires
        all_linkable(notes),
    ensures
        linked_notes_linkable(notes),
{
    lemma_kept_upto(notes, notes.len() as int);
    lemma_name_index(notes);
    assert forall|t: int| 0 <= t < kept_positions(notes).len() implies links_linkable(
        notes[#[trigger] kept_positions(notes)[t]],
        notes,
    ) by {
        let i = kept_positions(notes)[t];
        assert forall|u: int| 0 <= u < note_links(notes[i]).len() implies match link_target(
            #[trigger] note_links(notes[i])[u].text,
            notes,
        ) {
            Some(k) => linkable(notes[k as int], notes[i]),
            None => true,
        } by {
            match link_target(note_links(notes[i])[u].text, notes) {
                Some(k) => {
                    assert(linkable(notes[k as int], notes[i]));
                },
                None => {},
            }
        }
    }
}

/// Whether every note of `notes` can link to every other by a relative
/// path (enough for [`Vault::from_notes`], which needs less).
pub fn notes_linkable(notes: &Vec<Note>) -> (b: bool)
    ensures
        b == all_linkable(notes@),
{
    let mut i: usize = 0;
    while i < notes.len()
        invariant
            i <= notes@.len(),
            forall|a: int, k: int| 0 <= a < i && 0 <= k < notes@.len() ==> linkable(#[trigger] notes@[a], #[trigger] notes@[k]),
        decreases notes@.len() - i,
    {
        let dest = notes[i].path();
        let mut k: usize = 0;
        while k < notes.len()
            invariant
                i < notes@.len(),
                k <= notes@.len(),
                dest@ == note_path(notes@[i as int]),
                forall|a: int, c: int| 0 <= a < i && 0 <= c < notes@.len() ==> linkable(#[trigger] notes@[a], #[trigger] notes@[c]),
                forall|c: int| 0 <= c < k ==> linkable(notes@[i as int], #[trigger] notes@[c]),
            decreases notes@.len() - k,
        {
            let src = notes[k].path();
            if crate::path::diff_from_parent(dest.as_str(), src.as_str()).is_none() {
                assert(!linkable(notes@[i as int], notes@[k as int]));
                return false;
            }
            k = k + 1;
        }
        i = i + 1;
    }
    true
}

/// A directed graph whose nodes are notes.
///
/// The graph is held as an adjacency matrix: each note has, for every note
/// of the vault in order, the arc to it.  This makes the arcs into a note
/// (its backlinks) as quick to find as the arcs out of it.
pub struct Vault {
    root: String,
    notes: Vec<Note>,
    id_lookup: NameMap<NoteId>,
}

impl Vault {
    /// The notes of the vault, in order.
    pub closed spec fn notes(&self) -> Seq<Note> {
        self.notes@
    }

    /// The id that each title and path names.
    pub closed spec fn lookup(&self) -> Map<Seq<char>, NoteId> {
        self.id_lookup@
    }

    /// The root directory of the vault.
    pub closed spec fn root_path(&self) -> Seq<char> {
        self.root@
    }

    /// Whether the vault's notes make a vault.
    pub open spec fn wf(&self) -> bool {
        notes_wf(self.notes())
    }

    /// The vault whose notes are the kept notes of `notes` (at the positions
    /// `kept`), with the contents `contents` and the arcs `adjs`.
    fn assemble(
        root: String,
        notes: Vec<Note>,
        kept: Vec<usize>,
        id_lookup: NameMap<NoteId>,
        contents: Vec<Vec<char>>,
        adjs: Vec<Vec<(NoteId, Arc)>>,
        Ghost(expect): Ghost<Seq<Seq<char>>>,
    ) -> (v: Vault)
        requires
            kept@.len() == kept_positions(notes@).len(),
            forall|t: int| 0 <= t < kept@.len() ==> kept@[t] as int == #[trigger] kept_positions(notes@)[t],
            id_lookup@ == id_index(notes@),
            contents@.len() == kept@.len(),
            adjs@.len() == kept@.len(),
            expect.len() == kept@.len(),
            forall|t: int| 0 <= t < kept@.len() ==> (#[trigger] contents@[t])@ == expect[t],
            forall|t: int|
                0 <= t < kept@.len() ==> adj_view((#[trigger] adjs@[t])@) == linked(notes@[kept_positions(notes@)[t]], notes@).1
                    && adjacency_shape(adjs@[t]@, kept_ids(notes@)),
        ensures
            v.wf(),
            v.root_path() == root@,
            v.notes().len() == kept_positions(notes@).len(),
            forall|p: int|
                0 <= p < v.notes().len() ==> built_with_content(
                    #[trigger] v.notes()[p],
                    notes@,
                    kept_positions(notes@)[p],
                    expect[p],
                ),
            v.lookup() == id_index(notes@),
    {
        proof {
            lemma_kept_ids(notes@);
            lemma_kept_upto(notes@, notes@.len() as int);
        }
        let ghost orig = notes@;
        let mut contents = contents;
        let mut adjs = adjs;
        let mut notes = notes;
        let mut out: Vec<Note> = Vec::new();
        let mut q: usize = kept.len();
        let mut i: usize = notes.len();
        proof {
            if q > 0 {
                assert(kept@[q - 1] as int == kept_positions(orig)[q - 1]);
            }
        }
        while i > 0
            invariant
                i <= orig.len(),
                q <= kept@.len(),
                kept@.len() == kept_positions(orig).len(),
                forall|t: int| 0 <= t < kept@.len() ==> kept@[t] as int == #[trigger] kept_positions(orig)[t],
                forall|t: int| 0 <= t < kept_positions(orig).len() ==> 0 <= #[trigger] kept_positions(orig)[t] < orig.len(),
                forall|a: int, b: int|
                    0 <= a < b < kept_positions(orig).len() ==> #[trigger] kept_positions(orig)[a]
                        < #[trigger] kept_positions(orig)[b],
                q > 0 ==> kept@[q - 1] < i,
                q < kept@.len() ==> kept@[q as int] >= i,
                notes@ == orig.subrange(0, i as int),
                contents@.len() == q,
                adjs@.len() == q,
                forall|t: int|
                    0 <= t < q ==> (#[trigger] contents@[t])@ == expect[t],
                forall|t: int|
                    0 <= t < q ==> adj_view((#[trigger] adjs@[t])@) == linked(orig[kept_positions(orig)[t]], orig).1
                        && adjacency_shape(adjs@[t]@, kept_ids(orig)),
                out@.len() == kept@.len() - q,
                forall|t: int|
                    0 <= t < out@.len() ==> built_with_content(#[trigger] out@[t], orig, kept_positions(orig)[q + t], expect[q + t]),
            decreases i,
        {
            let note = notes.pop().unwrap();
            i = i - 1;
            assert(note == orig[i as int]);
            if q > 0 && kept[q - 1] == i {
                let c = contents.pop().unwrap();
                let a = adjs.pop().unwrap();
                q = q - 1;
                let n = Note {
                    title: note.title,
                    path: note.path,
                    tags: note.tags,
                    date: note.date,
                    extra: note.extra,
                    original_content: note.original_content,
                    content: string_of(&c),
                    invalid_arcs: note.invalid_arcs,
                    id: note.id,
                    adjacencies: a,
                };
                let ghost prev = out@;
                out.insert(0, n);
                assert forall|t: int| 0 <= t < out@.len() implies built_with_content(#[trigger] out@[t], orig, kept_positions(orig)[q + t], expect[q + t]) by {
                    if t > 0 {
                        assert(out@[t] == prev[t - 1]);
                    }
                }
            }
            assert(notes@ =~= orig.subrange(0, i as int));
            proof {
                if q > 0 {
                    assert(kept@[q - 1] as int == kept_positions(orig)[q - 1]);
                    if q < kept@.len() {
                        assert(kept@[q as int] as int == kept_positions(orig)[q as int]);
                        assert(kept_positions(orig)[q - 1] < kept_positions(orig)[q as int]);
                    }
                }
            }
        }
        proof {
            if q > 0 {
                assert(kept@[q - 1] < 0);
            }
            let ns = out@;
            assert(ids_of(ns) =~= kept_ids(orig));
            assert forall|a: int, b: int| 0 <= a < b < ns.len() implies (#[trigger] ns[a]).id != (#[trigger] ns[b]).id by {
                assert(ns[a].id == kept_ids(orig)[a]);
                assert(ns[b].id == kept_ids(orig)[b]);
            }
        }
        Vault { root, notes: out, id_lookup }
    }

    /// The vault of the notes `notes`, read from the directory `root`, with
    /// each wikilink of a kept note that the handlers `handlers` rewrite, in
    /// order, replaced (at the first occurrence of `[[text]]`) by what they
    /// wrote; the arcs are those of [`Vault::from_notes`].  The first error of
    /// a handler stops the building and is returned.
    pub fn from_notes_with(
        root: String,
        notes: Vec<Note>,
        handlers: &[Box<dyn WikilinkHandler>],
    ) -> (r: Result<Vault, Error>)
        requires
            linked_notes_linkable(notes@),
        ensures
            r is Err ==> handlers@.len() > 0,
            r matches Ok(v) ==> handled_vault(v, notes@, root@),
    {
        proof {
            lemma_kept_ids(notes@);
            lemma_kept_upto(notes@, notes@.len() as int);
        }
        let ghost orig = notes@;
        let kept = kept_indices(&notes);
        let mut ids: Vec<NoteId> = Vec::new();
        let mut p: usize = 0;
        while p < kept.len()
            invariant
                p <= kept@.len(),
                kept@.len() == kept_positions(orig).len(),
                forall|t: int| 0 <= t < kept@.len() ==> kept@[t] as int == #[trigger] kept_positions(orig)[t],
                forall|t: int| 0 <= t < kept_positions(orig).len() ==> 0 <= #[trigger] kept_positions(orig)[t] < orig.len(),
                notes@ == orig,
                ids@ == kept_ids(orig).subrange(0, p as int),
            decreases kept@.len() - p,
        {
            assert(kept@[p as int] as int == kept_positions(orig)[p as int]);
            ids.push(notes[kept[p]].id);
            assert(ids@ =~= kept_ids(orig).subrange(0, p + 1));
            p = p + 1;
        }
        assert(ids@ =~= kept_ids(orig));
        let (lookup, id_lookup) = lookups(&notes);
        let mut contents: Vec<Vec<char>> = Vec::new();
        let mut adjs: Vec<Vec<(NoteId, Arc)>> = Vec::new();
        let ghost mut all_outs: Seq<Seq<Seq<char>>> = Seq::empty();
        p = 0;
        while p < kept.len()
            invariant
                p <= kept@.len(),
                kept@.len() == kept_positions(orig).len(),
                forall|t: int| 0 <= t < kept@.len() ==> kept@[t] as int == #[trigger] kept_positions(orig)[t],
                forall|t: int| 0 <= t < kept_positions(orig).len() ==> 0 <= #[trigger] kept_positions(orig)[t] < orig.len(),
                notes@ == orig,
                linked_notes_linkable(orig),
                ids@ == kept_ids(orig),
                lookup@ == name_index(orig),
                contents@.len() == p,
                adjs@.len() == p,
                all_outs.len() == p,
                forall|t: int|
                    0 <= t < p ==> (#[trigger] all_outs[t]).len() == note_links(orig[kept_positions(orig)[t]]).len(),
                forall|t: int|
                    0 <= t < p ==> (#[trigger] contents@[t])@ == substituted(
                        note_links(orig[kept_positions(orig)[t]]),
                        orig[kept_positions(orig)[t]].content@,
                        all_outs[t],
                    ),
                forall|t: int|
                    0 <= t < p ==> adj_view((#[trigger] adjs@[t])@) == linked(orig[kept_positions(orig)[t]], orig).1
                        && adjacency_shape(adjs@[t]@, kept_ids(orig)),
            decreases kept@.len() - p,
        {
            assert(kept@[p as int] as int == kept_positions(orig)[p as int]);
            let src = &notes[kept[p]];
            proof {
                let i = kept_positions(orig)[p as int];
                assert(links_linkable(orig[i], orig));
            }
            let (res, Ghost(outs)) = link_note_with(src, &notes, &lookup, &ids, handlers);
            match res {
                Ok((c, a)) => {
                    contents.push(c);
                    adjs.push(a);
                    proof {
                        all_outs = all_outs.push(outs);
                    }
                },
                Err(e) => {
                    return Err(e);
                },
            }
            p = p + 1;
        }
        let ghost expect = Seq::new(
            kept@.len() as nat,
            |t: int|
                substituted(
                    note_links(orig[kept_positions(orig)[t]]),
                    orig[kept_positions(orig)[t]].content@,
                    all_outs[t],
                ),
        );
        let v = Vault::assemble(root, notes, kept, id_lookup, contents, adjs, Ghost(expect));
        assert forall|p: int| 0 <= p < v.notes().len() implies note_handled(
            #[trigger] v.notes()[p],
            notes@,
            kept_positions(notes@)[p],
        ) by {
            assert(built_with_content(v.notes()[p], orig, kept_positions(orig)[p], expect[p]));
            assert(handled_from(v.notes()[p], notes@, kept_positions(notes@)[p], all_outs[p]));
        }
        assert(handled_vault(v, notes@, root@));
        Ok(v)
    }

    /// The vault of the notes `notes`, read from the directory `root`.
    ///
    /// Of notes with one id the last is kept.  A title or path names the last
    /// note with that title or path.  Every wikilink of each kept note that
    /// leads to a note is replaced (at the first occurrence of `[[text]]`) by
    /// a CommonMark link to it, and adds its source range to the arc to it.
    pub fn from_notes(root: String, notes: Vec<Note>) -> (v: Vault)
        requires
            linked_notes_linkable(notes@),
        ensures
            v.wf(),
            v.root_path() == root@,
            v.notes().len() == kept_positions(notes@).len(),
            forall|p: int|
                0 <= p < v.notes().len() ==> built_from(
                    #[trigger] v.notes()[p],
                    notes@,
                    kept_positions(notes@)[p],
                ),
            v.lookup() == id_index(notes@),
    {
        proof {
            lemma_kept_ids(notes@);
            lemma_kept_upto(notes@, notes@.len() as int);
        }
        let ghost orig = notes@;
        let kept = kept_indices(&notes);
        let mut ids: Vec<NoteId> = Vec::new();
        let mut p: usize = 0;
        while p < kept.len()
            invariant
                p <= kept@.len(),
                kept@.len() == kept_positions(orig).len(),
                forall|t: int| 0 <= t < kept@.len() ==> kept@[t] as int == #[trigger] kept_positions(orig)[t],
                forall|t: int| 0 <= t < kept_positions(orig).len() ==> 0 <= #[trigger] kept_positions(orig)[t] < orig.len(),
                notes@ == orig,
                ids@ == kept_ids(orig).subrange(0, p as int),
            decreases kept@.len() - p,
        {
            assert(kept@[p as int] as int == kept_positions(orig)[p as int]);
            ids.push(notes[kept[p]].id);
            assert(ids@ =~= kept_ids(orig).subrange(0, p + 1));
            p = p + 1;
        }
        assert(ids@ =~= kept_ids(orig));
        let (lookup, id_lookup) = lookups(&notes);
        let mut contents: Vec<Vec<char>> = Vec::new();
        let mut adjs: Vec<Vec<(NoteId, Arc)>> = Vec::new();
        p = 0;
        while p < kept.len()
            invariant
                p <= kept@.len(),
                kept@.len() == kept_positions(orig).len(),
                forall|t: int| 0 <= t < kept@.len() ==> kept@[t] as int == #[trigger] kept_positions(orig)[t],
                forall|t: int| 0 <= t < kept_positions(orig).len() ==> 0 <= #[trigger] kept_positions(orig)[t] < orig.len(),
                notes@ == orig,
                linked_notes_linkable(orig),
                ids@ == kept_ids(orig),
                lookup@ == name_index(orig),
                contents@.len() == p,
                adjs@.len() == p,
                forall|t: int|
                    0 <= t < p ==> (#[trigger] contents@[t])@ == linked(orig[kept_positions(orig)[t]], orig).0,
                forall|t: int|
                    0 <= t < p ==> adj_view((#[trigger] adjs@[t])@) == linked(orig[kept_positions(orig)[t]], orig).1
                        && adjacency_shape(adjs@[t]@, kept_ids(orig)),
            decreases kept@.len() - p,
        {
            assert(kept@[p as int] as int == kept_positions(orig)[p as int]);
            let src = &notes[kept[p]];
            proof {
                let i = kept_positions(orig)[p as int];
                assert(links_linkable(orig[i], orig));
            }
            let (c, a) = link_note(src, &notes, &lookup, &ids);
            contents.push(c);
            adjs.push(a);
            p = p + 1;
        }
        let ghost expect = Seq::new(kept@.len() as nat, |t: int| linked(orig[kept_positions(orig)[t]], orig).0);
        let v = Vault::assemble(root, notes, kept, id_lookup, contents, adjs, Ghost(expect));
        assert forall|p: int| 0 <= p < v.notes().len() implies built_from(
            #[trigger] v.notes()[p],
            orig,
            kept_positions(orig)[p],
        ) by {
            assert(built_with_content(v.notes()[p], orig, kept_positions(orig)[p], expect[p]));
        }
        v
    }

    /// The root directory of the vault.
    pub fn root(&self) -> (r: &String)
        ensures
            r@ == self.root_path(),
    {
        &self.root
    }

    /// The number of notes in the vault.
    pub fn len(&self) -> (r: usize)
        ensures
            r == self.notes().len(),
    {
        self.notes.len()
    }

    /// Whether the vault has no notes.
    pub fn is_empty(&self) -> (r: bool)
        ensures
            r == (self.notes().len() == 0),
    {
        self.notes.len() == 0
    }

    /// The notes of the vault, in order.
    pub fn iter(&self) -> (r: &[Note])
        ensures
            r@ == self.notes(),
    {
        self.notes.as_slice()
    }

    /// The id of the note that `title_or_path` names: of notes with the same
    /// title, the last read.
    pub fn id_of(&self, title_or_path: &str) -> (r: Option<NoteId>)
        ensures
            r == (if self.lookup().contains_key(title_or_path@) {
                Some(self.lookup()[title_or_path@])
            } else {
                None
            }),
    {
        match self.id_lookup.get(&chars_of(title_or_path)) {
            Some(id) => Some(*id),
            None => None,
        }
    }
}


/// The note of `ns` with the id `id`, if any.
pub open spec fn note_with_id(ns: Seq<Note>, id: NoteId) -> Option<Note> {
    let j = index_of_id(ids_of(ns), id);
    if j >= 0 {
        Some(ns[j])
    } else {
        None
    }
}

/// The ids of the notes of `ns` with an arc to the `j`th note, in order.
pub open spec fn arcs_into(ns: Seq<Note>, j: int) -> Seq<NoteId>
    decreases ns.len(),
{
    if ns.len() == 0 {
        Seq::empty()
    } else {
        let init = arcs_into(ns.drop_last(), j);
        if ns.last().adjacencies@[j].1 is Connected {
            init.push(ns.last().id)
        } else {
            init
        }
    }
}

/// The ids of the notes of `ns` with an arc to the note with id `id`: its backlinks.
pub open spec fn incoming(ns: Seq<Note>, id: NoteId) -> Seq<NoteId> {
    let j = index_of_id(ids_of(ns), id);
    if j >= 0 {
        arcs_into(ns, j)
    } else {
        Seq::empty()
    }
}

/// The ids of the notes that the note of `ns` with id `id` has arcs to.
pub open spec fn outgoing(ns: Seq<Note>, id: NoteId) -> Seq<NoteId> {
    match note_with_id(ns, id) {
        Some(n) => connected_ids(n.adjacencies@),
        None => Seq::empty(),
    }
}

fn note_index(notes: &Vec<Note>, id: &NoteId) -> (r: Option<usize>)
    ensures
        match r {
            Some(p) => p == index_of_id(ids_of(notes@), *id) && p < notes@.len(),
            None => index_of_id(ids_of(notes@), *id) == -1,
        },
{
    let mut k = notes.len();
    assert(ids_of(notes@).subrange(0, k as int) =~= ids_of(notes@));
    while k > 0
        invariant
            k <= notes@.len(),
            index_of_id(ids_of(notes@), *id) == index_of_id(ids_of(notes@).subrange(0, k as int), *id),
        decreases k,
    {
        proof {
            let t = ids_of(notes@).subrange(0, k as int);
            assert(t.drop_last() =~= ids_of(notes@).subrange(0, k - 1));
            assert(t.last() == notes@[k - 1].id);
        }
        if notes[k - 1].id == *id {
            return Some(k - 1);
        }
        k = k - 1;
    }
    None
}

impl Vault {
    /// The note with the id `id`, if the vault has one.
    pub fn get(&self, id: &NoteId) -> (r: Option<&Note>)
        ensures
            deref_opt(r) == note_with_id(self.notes(), *id),
    {
        match note_index(&self.notes, id) {
            Some(p) => Some(&self.notes[p]),
            None => None,
        }
    }

    /// The note with the id `id`, if the vault has one, to be changed in
    /// place: what it holds afterwards becomes that note of the vault, and
    /// nothing else of the vault changes.
    pub fn get_mut(&mut self, id: &NoteId) -> (r: Option<&mut Note>)
        ensures
            match r {
                Some(n) => {
                    let j = index_of_id(ids_of(old(self).notes()), *id);
                    &&& note_with_id(old(self).notes(), *id) == Some(*n)
                    &&& final(self).notes() == old(self).notes().update(j, *final(n))
                },
                None => {
                    &&& note_with_id(old(self).notes(), *id) is None
                    &&& final(self).notes() == old(self).notes()
                },
            },
            final(self).lookup() == old(self).lookup(),
            final(self).root_path() == old(self).root_path(),
    {
        match note_index(&self.notes, id) {
            Some(p) => Some(&mut self.notes[p]),
            None => None,
        }
    }

    /// The ids of the notes with an arc to the note with id `id` (its
    /// backlinks), in the vault's order; none when the vault has no such note.
    pub fn incoming_arcs(&self, id: &NoteId) -> (r: Vec<NoteId>)
        requires
            self.wf(),
        ensures
            r@ == incoming(self.notes(), *id),
    {
        let ghost ns = self.notes@;
        let j = match note_index(&self.notes, id) {
            Some(j) => j,
            None => {
                return Vec::new();
            },
        };
        let mut r: Vec<NoteId> = Vec::new();
        let mut k: usize = 0;
        while k < self.notes.len()
            invariant
                ns == self.notes@,
                notes_wf(ns),
                j < ns.len(),
                k <= ns.len(),
                r@ == arcs_into(ns.subrange(0, k as int), j as int),
            decreases ns.len() - k,
        {
            proof {
                let pre = ns.subrange(0, k + 1);
                assert(pre.drop_last() =~= ns.subrange(0, k as int));
                assert(pre.last() == ns[k as int]);
                assert(adjacency_shape(ns[k as int].adjacencies@, ids_of(ns)));
            }
            let note = &self.notes[k];
            match &note.adjacencies[j].1 {
                Arc::Connected(_) => r.push(note.id),
                Arc::NotConnected => {},
            }
            k = k + 1;
        }
        assert(ns.subrange(0, ns.len() as int) =~= ns);
        r
    }

    /// The ids of the notes that the note with id `id` has arcs to, in the
    /// vault's order; none when the vault has no such note.
    pub fn outgoing_arcs(&self, id: &NoteId) -> (r: Vec<NoteId>)
        ensures
            r@ == outgoing(self.notes(), *id),
    {
        match self.get(id) {
            Some(note) => note.outgoing_arcs(),
            None => Vec::new(),
        }
    }
}

/// An optional reference to a note, as the note.
pub open spec fn deref_opt(o: Option<&Note>) -> Option<Note> {
    match o {
        Some(n) => Some(*n),
        None => None,
    }
}

proof fn lemma_index_of_distinct(ids: Seq<NoteId>, x: int)
    requires
        0 <= x < ids.len(),
        forall|a: int, b: int| 0 <= a < b < ids.len() ==> #[trigger] ids[a] != #[trigger] ids[b],
    ensures
        index_of_id(ids, ids[x]) == x,
    decreases ids.len(),
{
    if x < ids.len() - 1 {
        assert(ids.last() == ids[ids.len() - 1]);
        assert(ids.drop_last()[x] == ids[x]);
        lemma_index_of_distinct(ids.drop_last(), x);
    }
}

proof fn lemma_connected_ids(adj: Seq<(NoteId, Arc)>, id: NoteId)
    ensures
        connected_ids(adj).contains(id) <==> exists|j: int|
            0 <= j < adj.len() && (#[trigger] adj[j]).0 == id && adj[j].1 is Connected,
    decreases adj.len(),
{
    if adj.len() > 0 {
        let init = adj.drop_last();
        lemma_connected_ids(init, id);
        if connected_ids(adj).contains(id) {
            if connected_ids(init).contains(id) {
                let j = choose|j: int| 0 <= j < init.len() && (#[trigger] init[j]).0 == id && init[j].1 is Connected;
                assert(adj[j] == init[j]);
            } else {
                assert(adj[adj.len() - 1] == adj.last());
            }
        }
        if exists|j: int| 0 <= j < adj.len() && (#[trigger] adj[j]).0 == id && adj[j].1 is Connected {
            let j = choose|j: int| 0 <= j < adj.len() && (#[trigger] adj[j]).0 == id && adj[j].1 is Connected;
            if j < adj.len() - 1 {
                assert(init[j] == adj[j]);
                assert(connected_ids(init).contains(id));
                let w = choose|w: int| 0 <= w < connected_ids(init).len() && connected_ids(init)[w] == id;
                if adj.last().1 is Connected {
                    assert(connected_ids(adj)[w] == id);
                }
            } else {
                assert(adj.last() == adj[j]);
                assert(connected_ids(adj).last() == id);
            }
        }
    }
}

proof fn lemma_arcs_into(ns: Seq<Note>, j: int, id: NoteId)
    ensures
        arcs_into(ns, j).contains(id) <==> exists|k: int|
            0 <= k < ns.len() && (#[trigger] ns[k]).id == id && ns[k].adjacencies@[j].1 is Connected,
    decreases ns.len(),
{
    if ns.len() > 0 {
        let init = ns.drop_last();
        lemma_arcs_into(init, j, id);
        if arcs_into(ns, j).contains(id) {
            if arcs_into(init, j).contains(id) {
                let k = choose|k: int| 0 <= k < init.len() && (#[trigger] init[k]).id == id && init[k].adjacencies@[j].1 is Connected;
                assert(ns[k] == init[k]);
            } else {
                assert(ns[ns.len() - 1] == ns.last());
            }
        }
        if exists|k: int| 0 <= k < ns.len() && (#[trigger] ns[k]).id == id && ns[k].adjacencies@[j].1 is Connected {
            let k = choose|k: int| 0 <= k < ns.len() && (#[trigger] ns[k]).id == id && ns[k].adjacencies@[j].1 is Connected;
            if k < ns.len() - 1 {
                assert(init[k] == ns[k]);
                assert(arcs_into(init, j).contains(id));
                let w = choose|w: int| 0 <= w < arcs_into(init, j).len() && arcs_into(init, j)[w] == id;
                if ns.last().adjacencies@[j].1 is Connected {
                    assert(arcs_into(ns, j)[w] == id);
                }
            } else {
                assert(ns.last() == ns[k]);
                assert(arcs_into(ns, j).last() == id);
            }
        }
    }
}

/// A note links to another exactly when the other has it among its
/// backlinks: `b` is among the outgoing arcs of `a` if and only if `a` is
/// among the incoming arcs of `b`.
pub proof fn law_backlinks_mirror_links(ns: Seq<Note>, a: int, b: int)
    requires
        notes_wf(ns),
        0 <= a < ns.len(),
        0 <= b < ns.len(),
    ensures
        outgoing(ns, ns[a].id).contains(ns[b].id) <==> incoming(ns, ns[b].id).contains(ns[a].id),
        outgoing(ns, ns[a].id).contains(ns[b].id) <==> ns[a].adjacencies@[b].1 is Connected,
{
    let ids = ids_of(ns);
    assert forall|x: int, y: int| 0 <= x < y < ids.len() implies #[trigger] ids[x] != #[trigger] ids[y] by {
        assert(ns[x].id != ns[y].id);
    }
    lemma_index_of_distinct(ids, a);
    lemma_index_of_distinct(ids, b);
    let adj = ns[a].adjacencies@;
    assert(adjacency_shape(adj, ids));
    lemma_connected_ids(adj, ns[b].id);
    if exists|j: int| 0 <= j < adj.len() && (#[trigger] adj[j]).0 == ns[b].id && adj[j].1 is Connected {
        let j = choose|j: int| 0 <= j < adj.len() && (#[trigger] adj[j]).0 == ns[b].id && adj[j].1 is Connected;
        assert(ids[j] == ids[b]);
        if j != b {
            if j < b {
                assert(ids[j] != ids[b]);
            } else {
                assert(ids[b] != ids[j]);
            }
        }
    }
    if adj[b].1 is Connected {
        assert(adj[b].0 == ns[b].id);
    }
    lemma_arcs_into(ns, b, ns[a].id);
    if exists|k: int| 0 <= k < ns.len() && (#[trigger] ns[k]).id == ns[a].id && ns[k].adjacencies@[b].1 is Connected {
        let k = choose|k: int| 0 <= k < ns.len() && (#[trigger] ns[k]).id == ns[a].id && ns[k].adjacencies@[b].1 is Connected;
        if k != a {
            if k < a {
                assert(ns[k].id != ns[a].id);
            } else {
                assert(ns[a].id != ns[k].id);
            }
        }
    }
}

/// Whether no element of `s` occurs twice.
pub open spec fn no_repeats<T>(s: Seq<T>) -> bool {
    forall|a: int, b: int| 0 <= a < b < s.len() ==> #[trigger] s[a] != #[trigger] s[b]
}

proof fn lemma_index_of_id_bound(ids: Seq<NoteId>, id: NoteId)
    ensures
        index_of_id(ids, id) == -1 || 0 <= index_of_id(ids, id) < ids.len(),
    decreases ids.len(),
{
    if ids.len() > 0 && ids.last() != id {
        lemma_index_of_id_bound(ids.drop_last(), id);
    }
}

proof fn lemma_connected_ids_once(adj: Seq<(NoteId, Arc)>)
    requires
        forall|a: int, b: int| 0 <= a < b < adj.len() ==> (#[trigger] adj[a]).0 != (#[trigger] adj[b]).0,
    ensures
        no_repeats(connected_ids(adj)),
    decreases adj.len(),
{
    if adj.len() > 0 {
        let init = adj.drop_last();
        assert forall|a: int, b: int| 0 <= a < b < init.len() implies (#[trigger] init[a]).0 != (#[trigger] init[b]).0 by {
            assert(init[a] == adj[a] && init[b] == adj[b]);
        }
        lemma_connected_ids_once(init);
        if adj.last().1 is Connected {
            lemma_connected_ids(init, adj.last().0);
            if connected_ids(init).contains(adj.last().0) {
                let j = choose|j: int| 0 <= j < init.len() && (#[trigger] init[j]).0 == adj.last().0 && init[j].1 is Connected;
                assert(init[j] == adj[j]);
                assert(adj.last() == adj[adj.len() - 1]);
            }
            let c = connected_ids(init);
            assert forall|a: int, b: int| 0 <= a < b < c.push(adj.last().0).len() implies #[trigger] c.push(adj.last().0)[a]
                != #[trigger] c.push(adj.last().0)[b] by {
                if b == c.len() {
                    assert(c.contains(c[a]));
                }
            }
        }
    }
}

proof fn lemma_arcs_into_once(ns: Seq<Note>, j: int)
    requires
        forall|a: int, b: int| 0 <= a < b < ns.len() ==> (#[trigger] ns[a]).id != (#[trigger] ns[b]).id,
    ensures
        no_repeats(arcs_into(ns, j)),
        forall|x: NoteId| arcs_into(ns, j).contains(x) ==> exists|k: int| 0 <= k < ns.len() && (#[trigger] ns[k]).id == x,
    decreases ns.len(),
{
    if ns.len() > 0 {
        let init = ns.drop_last();
        assert forall|a: int, b: int| 0 <= a < b < init.len() implies (#[trigger] init[a]).id != (#[trigger] init[b]).id by {
            assert(init[a] == ns[a] && init[b] == ns[b]);
        }
        lemma_arcs_into_once(init, j);
        let c = arcs_into(init, j);
        assert forall|x: NoteId| arcs_into(ns, j).contains(x) implies exists|k: int| 0 <= k < ns.len() && (#[trigger] ns[k]).id == x by {
            if c.contains(x) {
                let k = choose|k: int| 0 <= k < init.len() && (#[trigger] init[k]).id == x;
                assert(ns[k] == init[k]);
            } else {
                assert(ns[ns.len() - 1] == ns.last());
            }
        }
        if ns.last().adjacencies@[j].1 is Connected {
            if c.contains(ns.last().id) {
                let k = choose|k: int| 0 <= k < init.len() && (#[trigger] init[k]).id == ns.last().id;
                assert(init[k] == ns[k]);
                assert(ns.last() == ns[ns.len() - 1]);
            }
            assert forall|a: int, b: int| 0 <= a < b < c.push(ns.last().id).len() implies #[trigger] c.push(ns.last().id)[a]
                != #[trigger] c.push(ns.last().id)[b] by {
                if b == c.len() {
                    assert(c.contains(c[a]));
                }
            }
        }
    }
}

/// No note is listed twice among the notes a note links to, nor among the
/// notes that link to it.
pub proof fn law_arcs_list_each_note_once(ns: Seq<Note>, id: NoteId)
    requires
        notes_wf(ns),
    ensures
        no_repeats(outgoing(ns, id)),
        no_repeats(incoming(ns, id)),
{
    let ids = ids_of(ns);
    lemma_index_of_id_bound(ids, id);
    let j = index_of_id(ids, id);
    if j >= 0 {
        let adj = ns[j].adjacencies@;
        assert(adjacency_shape(adj, ids));
        assert forall|a: int, b: int| 0 <= a < b < adj.len() implies (#[trigger] adj[a]).0 != (#[trigger] adj[b]).0 by {
            assert(ns[a].id != ns[b].id);
        }
        lemma_connected_ids_once(adj);
        lemma_arcs_into_once(ns, j);
    }
}

/// The outgoing arcs that a note of a vault reports itself are those the
/// vault reports for its id.
pub proof fn law_note_arcs_match_vault(ns: Seq<Note>, p: int)
    requires
        notes_wf(ns),
        0 <= p < ns.len(),
    ensures
        outgoing(ns, ns[p].id) == connected_ids(ns[p].adjacencies@),
{
    let ids = ids_of(ns);
    assert forall|x: int, y: int| 0 <= x < y < ids.len() implies #[trigger] ids[x] != #[trigger] ids[y] by {
        assert(ns[x].id != ns[y].id);
    }
    lemma_index_of_distinct(ids, p);
}


/// Whether the wikilink `text` leads to the `q`th note a vault made of `notes` keeps.
pub open spec fn leads_to(text: Seq<char>, notes: Seq<Note>, q: int) -> bool {
    &&& link_target(text, notes) is Some
    &&& index_of_id(kept_ids(notes), notes[link_target(text, notes)->Some_0 as int].id) == q
}

/// The source ranges of the links among `found` that lead to the `q`th kept note, in order.
pub open spec fn ranges_to(found: Seq<SpecFound>, notes: Seq<Note>, q: int) -> Seq<Range<usize>>
    decreases found.len(),
{
    if found.len() == 0 {
        Seq::empty()
    } else {
        let init = ranges_to(found.drop_last(), notes, q);
        if leads_to(found.last().text, notes, q) {
            init.push(found.last().range)
        } else {
            init
        }
    }
}

/// What the arc to the `q`th kept note is after the links `found`: the
/// ranges of those that lead there, or not connected when none does.
pub open spec fn arc_of_ranges(rs: Seq<Range<usize>>) -> Option<Seq<Range<usize>>> {
    if rs.len() == 0 {
        None
    } else {
        Some(rs)
    }
}

proof fn lemma_link_notes_arcs(found: Seq<SpecFound>, src: Note, notes: Seq<Note>)
    ensures
        link_notes(found, src, notes).1.len() == kept_positions(notes).len(),
        forall|q: int|
            0 <= q < kept_positions(notes).len() ==> #[trigger] link_notes(found, src, notes).1[q]
                == arc_of_ranges(ranges_to(found, notes, q)),
    decreases found.len(),
{
    if found.len() == 0 {
    } else {
        lemma_link_notes_arcs(found.drop_last(), src, notes);
        lemma_kept_ids(notes);
        lemma_name_index(notes);
        let f = found.last();
        let (c, adj) = link_notes(found.drop_last(), src, notes);
        match link_target(f.text, notes) {
            Some(d) => {
                let p = index_of_id(kept_ids(notes), notes[d as int].id);
                assert(0 <= p < adj.len());
                assert forall|q: int| 0 <= q < kept_positions(notes).len() implies #[trigger] link_notes(found, src, notes).1[q]
                    == arc_of_ranges(ranges_to(found, notes, q)) by {
                    assert(adj[q] == arc_of_ranges(ranges_to(found.drop_last(), notes, q)));
                    if q == p {
                        assert(leads_to(f.text, notes, q));
                    } else {
                        assert(!leads_to(f.text, notes, q));
                    }
                }
            },
            None => {
                assert forall|q: int| 0 <= q < kept_positions(notes).len() implies #[trigger] link_notes(found, src, notes).1[q]
                    == arc_of_ranges(ranges_to(found, notes, q)) by {
                    assert(adj[q] == arc_of_ranges(ranges_to(found.drop_last(), notes, q)));
                    assert(!leads_to(f.text, notes, q));
                }
            },
        }
    }
}

/// The arc from a note of a vault to its `q`th note is connected exactly
/// when the note has wikilinks that lead there, and it holds the source
/// ranges of those links, in the order they are written.
pub proof fn law_arcs_record_links(src: Note, notes: Seq<Note>, q: int)
    requires
        0 <= q < kept_positions(notes).len(),
    ensures
        linked(src, notes).1[q] == arc_of_ranges(ranges_to(note_links(src), notes, q)),
        linked(src, notes).1[q] is Some <==> exists|t: int|
            0 <= t < note_links(src).len() && leads_to(#[trigger] note_links(src)[t].text, notes, q),
{
    let found = note_links(src);
    lemma_link_notes_arcs(found, src, notes);
    lemma_ranges_to_nonempty(found, notes, q);
}

proof fn lemma_ranges_to_nonempty(found: Seq<SpecFound>, notes: Seq<Note>, q: int)
    ensures
        ranges_to(found, notes, q).len() > 0 <==> exists|t: int|
            0 <= t < found.len() && leads_to(#[trigger] found[t].text, notes, q),
    decreases found.len(),
{
    if found.len() > 0 {
        let init = found.drop_last();
        lemma_ranges_to_nonempty(init, notes, q);
        if exists|t: int| 0 <= t < found.len() && leads_to(#[trigger] found[t].text, notes, q) {
            let t = choose|t: int| 0 <= t < found.len() && leads_to(#[trigger] found[t].text, notes, q);
            if t < found.len() - 1 {
                assert(init[t] == found[t]);
            } else {
                assert(found.last() == found[t]);
            }
        }
        if ranges_to(init, notes, q).len() > 0 {
            let t = choose|t: int| 0 <= t < init.len() && leads_to(#[trigger] init[t].text, notes, q);
            assert(found[t] == init[t]);
        }
        if leads_to(found.last().text, notes, q) {
            assert(found[found.len() - 1] == found.last());
        }
    }
}

/// A title or path names the last note that has it: when the `i`th of
/// `notes` has the title or path `name` and no later note has it as title or
/// path, `name` looks up the id of the `i`th note.
pub proof fn law_lookup_names_last_note(notes: Seq<Note>, i: int, name: Seq<char>)
    requires
        0 <= i < notes.len() <= usize::MAX,
        notes[i].title@ == name || (notes[i].path matches Some(p) && p@ == name),
        forall|j: int|
            i < j < notes.len() ==> (#[trigger] notes[j]).title@ != name && !(notes[j].path matches Some(
                p,
            ) && p@ == name),
    ensures
        id_index(notes).contains_key(name),
        id_index(notes)[name] == notes[i].id,
    decreases notes.len(),
{
    lemma_name_index_last(notes, i, name);
}

proof fn lemma_name_index_last(notes: Seq<Note>, i: int, name: Seq<char>)
    requires
        0 <= i < notes.len() <= usize::MAX,
        notes[i].title@ == name || (notes[i].path matches Some(p) && p@ == name),
        forall|j: int|
            i < j < notes.len() ==> (#[trigger] notes[j]).title@ != name && !(notes[j].path matches Some(
                p,
            ) && p@ == name),
    ensures
        name_index(notes).contains_key(name),
        name_index(notes)[name] == i,
    decreases notes.len(),
{
    if i < notes.len() - 1 {
        let init = notes.drop_last();
        assert forall|j: int| i < j < init.len() implies (#[trigger] init[j]).title@ != name && !(init[j].path matches Some(
                p,
            ) && p@ == name) by {
            assert(init[j] == notes[j]);
        }
        assert(init[i] == notes[i]);
        lemma_name_index_last(init, i, name);
        assert(notes.last() == notes[notes.len() - 1]);
    }
}

/// A title or path that no note has names nothing.
pub proof fn law_lookup_unknown_name(notes: Seq<Note>, name: Seq<char>)
    requires
        forall|j: int|
            0 <= j < notes.len() ==> (#[trigger] notes[j]).title@ != name && !(notes[j].path matches Some(
                p,
            ) && p@ == name),
    ensures
        !id_index(notes).contains_key(name),
    decreases notes.len(),
{
    if notes.len() > 0 {
        let init = notes.drop_last();
        assert forall|j: int| 0 <= j < init.len() implies (#[trigger] init[j]).title@ != name && !(init[j].path matches Some(
                p,
            ) && p@ == name) by {
            assert(init[j] == notes[j]);
        }
        law_lookup_unknown_name(init, name);
        assert(notes.last() == notes[notes.len() - 1]);
    }
}

/// Every note's id is in the vault made of the notes, once: its note is the
/// last one read with that id.
pub proof fn law_vault_keeps_each_id(notes: Seq<Note>, d: int)
    requires
        0 <= d < notes.len(),
    ensures
        exists|p: int|
            0 <= p < kept_positions(notes).len() && #[trigger] kept_ids(notes)[p] == notes[d].id
                && is_last_with_id(notes, kept_positions(notes)[p]),
        forall|a: int, b: int|
            0 <= a < b < kept_ids(notes).len() ==> #[trigger] kept_ids(notes)[a] != #[trigger] kept_ids(notes)[b],
{
    lemma_kept_ids(notes);
    lemma_kept_upto(notes, notes.len() as int);
    let p = index_of_id(kept_ids(notes), notes[d].id);
    assert(kept_ids(notes)[p] == notes[d].id);
    assert(is_last_with_id(notes, kept_positions(notes)[p]));
}

} // verus!
