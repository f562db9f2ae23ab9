//! Notes and vaults as records of plain values, ready to be written out as
//! JSON: notes are named by the hexadecimal text of their ids, dates by
//! their RFC 3339 text.

use vstd::prelude::*;
use crate::time::{opt_chars, rfc3339_text, to_rfc3339};
use crate::vault::{Note, NoteId, Vault, connected_ids, hex_digits, incoming};

verus! {

/// A note as it is written out.
pub struct NoteSerialized {
    pub id: String,
    pub title: String,
    pub path: Option<String>,
    pub tags: Vec<String>,
    pub date: Option<String>,
    pub extra: Vec<(String, serde_json::Value)>,
    pub content: String,
    pub links: Vec<String>,
    pub backlinks: Vec<String>,
}

/// The hexadecimal texts of the ids `ids`, in order.
pub open spec fn hex_ids(ids: Seq<NoteId>) -> Seq<Seq<char>> {
    ids.map_values(|id: NoteId| hex_digits(id.0 as nat))
}

/// The texts of the strings `v`, in order.
pub open spec fn texts(v: Seq<String>) -> Seq<Seq<char>> {
    v.map_values(|s: String| s@)
}

/// Whether `r` is the record of `note`, written out under the id text `id`
/// and with the backlinks `backlinks`: the links are the ids of the notes it
/// has arcs to, in hexadecimal, and the date is in RFC 3339 (none when it
/// has no date or its date has no RFC 3339 text).
pub open spec fn is_record_of(r: NoteSerialized, id: Seq<char>, note: Note, backlinks: Seq<Seq<char>>) -> bool {
    &&& r.id@ == id
    &&& r.title@ == note.title@
    &&& opt_chars(r.path) == opt_chars(note.path)
    &&& texts(r.tags@) == texts(note.tags@)
    &&& opt_chars(r.date) == match note.date {
        Some(d) => rfc3339_text(d),
        None => None,
    }
    &&& r.extra@.len() == note.extra@.len()
    &&& forall|i: int| 0 <= i < r.extra@.len() ==> (#[trigger] r.extra@[i]).0@ == note.extra@[i].0@
    &&& r.content@ == note.content@
    &&& texts(r.links@) == hex_ids(connected_ids(note.adjacencies@))
    &&& texts(r.backlinks@) == backlinks
}

/// The hexadecimal texts of `ids`.
pub fn hex_all(ids: &Vec<NoteId>) -> (r: Vec<String>)
    ensures
        texts(r@) == hex_ids(ids@),
{
    let mut r: Vec<String> = Vec::new();
    let mut k: usize = 0;
    while k < ids.len()
        invariant
            k <= ids@.len(),
            r@.len() == k,
            forall|i: int| 0 <= i < k ==> (#[trigger] r@[i])@ == hex_digits(ids@[i].0 as nat),
        decreases ids@.len() - k,
    {
        r.push(ids[k].to_hex());
        k = k + 1;
    }
    assert(texts(r@) =~= hex_ids(ids@));
    r
}

/// `Clone::clone` of `serde_json::Value` (derived there).  Nothing is
/// claimed of the copy: front matter values are carried through, never read.
pub assume_specification[ <serde_json::Value as std::clone::Clone>::clone ](v: &serde_json::Value) -> serde_json::Value;

fn clone_extra(v: &Vec<(String, serde_json::Value)>) -> (r: Vec<(String, serde_json::Value)>)
    ensures
        r@.len() == v@.len(),
        forall|i: int| 0 <= i < r@.len() ==> (#[trigger] r@[i]).0@ == v@[i].0@,
{
    let mut r: Vec<(String, serde_json::Value)> = Vec::new();
    let mut k: usize = 0;
    while k < v.len()
        invariant
            k <= v@.len(),
            r@.len() == k,
            forall|i: int| 0 <= i < k ==> (#[trigger] r@[i]).0@ == v@[i].0@,
        decreases v@.len() - k,
    {
        r.push((v[k].0.clone(), v[k].1.clone()));
        k = k + 1;
    }
    r
}

fn clone_strings(v: &Vec<String>) -> (r: Vec<String>)
    ensures
        texts(r@) == texts(v@),
{
    let mut r: Vec<String> = Vec::new();
    let mut k: usize = 0;
    while k < v.len()
        invariant
            k <= v@.len(),
            r@.len() == k,
            forall|i: int| 0 <= i < k ==> (#[trigger] r@[i])@ == v@[i]@,
        decreases v@.len() - k,
    {
        r.push(v[k].clone());
        k = k + 1;
    }
    assert(texts(r@) =~= texts(v@));
    r
}

impl NoteSerialized {
    /// The record of `note` under the id text `id`, with the backlinks `backlinks`.
    pub fn new(id: String, note: &Note, backlinks: Vec<String>) -> (r: NoteSerialized)
        ensures
            is_record_of(r, id@, *note, texts(backlinks@)),
    {
        NoteSerialized {
            id,
            links: hex_all(&note.outgoing_arcs()),
            title: note.title.clone(),
            path: match &note.path {
                Some(p) => Some(p.clone()),
                None => None,
            },
            tags: clone_strings(&note.tags),
            date: match &note.date {
                Some(d) => to_rfc3339(d),
                None => None,
            },
            extra: clone_extra(&note.extra),
            content: note.content.clone(),
            backlinks,
        }
    }
}

/// The records of the notes of `vault`, in the vault's order: each under the
/// hexadecimal text of its id, with the ids of the notes that have arcs to it
/// as its backlinks.
pub fn serialize_vault(vault: &Vault) -> (r: Vec<NoteSerialized>)
    requires
        vault.wf(),
    ensures
        r@.len() == vault.notes().len(),
        forall|i: int|
            0 <= i < r@.len() ==> is_record_of(
                #[trigger] r@[i],
                hex_digits(vault.notes()[i].id.0 as nat),
                vault.notes()[i],
                hex_ids(incoming(vault.notes(), vault.notes()[i].id)),
            ),
{
    let notes = vault.iter();
    let mut r: Vec<NoteSerialized> = Vec::new();
    let mut k: usize = 0;
    while k < notes.len()
        invariant
            vault.wf(),
            notes@ == vault.notes(),
            k <= notes@.len(),
            r@.len() == k,
            forall|i: int|
                0 <= i < k ==> is_record_of(
                    #[trigger] r@[i],
                    hex_digits(notes@[i].id.0 as nat),
                    notes@[i],
                    hex_ids(incoming(notes@, notes@[i].id)),
                ),
        decreases notes@.len() - k,
    {
        let note = &notes[k];
        let backlinks = hex_all(&vault.incoming_arcs(&note.id));
        r.push(NoteSerialized::new(note.id.to_hex(), note, backlinks));
        k = k + 1;
    }
    r
}

} // verus!
