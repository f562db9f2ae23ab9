use mdzk::time::UtcOffset;
use mdzk::builder::{Error, VaultBuilder};
use mdzk::context::{CommonMarkHandler, WikilinkContext, WikilinkHandler};
use mdzk::wikilink::Anchor;
use mdzk::vault::{linked_notes_are_linkable, notes_linkable, Arc, Edge, Note, NoteId, NoteSource, Vault};

fn note(path: &str, body: &str) -> Note {
    Note::from_source(
        NoteSource {
            path: path.to_owned(),
            original_content: body.to_owned(),
            front_matter: None,
            body: body.to_owned(),
        },
        UtcOffset::utc(),
    )
}

fn sample() -> Vault {
    Vault::from_notes(
        "root".to_owned(),
        vec![
            note("a.md", "Link to [[b]] and [[Missing]]."),
            note("dir/b.md", "Back to [[a]]."),
        ],
    )
}

fn by_title<'a>(v: &'a Vault, title: &str) -> &'a Note {
    v.iter().iter().find(|n| n.title == title).unwrap()
}

#[test]
fn notes_take_their_file_stem_as_title() {
    let n = note("dir/My Note.md", "x");
    assert_eq!(n.title, "My Note");
    assert_eq!(n.path(), "dir/My Note.md");
    assert!(n.outgoing_arcs().is_empty());
}

#[test]
fn vault_rewrites_wikilinks() {
    let v = sample();
    assert_eq!(v.len(), 2);
    assert!(!v.is_empty());
    assert_eq!(v.root(), "root");
    assert_eq!(by_title(&v, "a").content, "Link to [b](dir/b.md) and Missing.");
    assert_eq!(by_title(&v, "b").content, "Back to [a](../a.md).");
}

#[test]
fn vault_records_arcs_both_ways() {
    let v = sample();
    let a = by_title(&v, "a").id;
    let b = by_title(&v, "b").id;
    assert_eq!(v.outgoing_arcs(&a), vec![b]);
    assert_eq!(v.incoming_arcs(&b), vec![a]);
    assert_eq!(v.outgoing_arcs(&b), vec![a]);
    assert_eq!(v.incoming_arcs(&a), vec![b]);
    assert_eq!(by_title(&v, "a").outgoing_arcs(), v.outgoing_arcs(&a));
    let unknown = NoteId(12345);
    assert!(v.incoming_arcs(&unknown).is_empty());
    assert!(v.outgoing_arcs(&unknown).is_empty());
    assert!(v.get(&unknown).is_none());
    assert_eq!(v.get(&a).unwrap().title, "a");
}

struct Shout;

impl WikilinkHandler for Shout {
    fn run(&self, text: &mut String, _ctx: &WikilinkContext) -> Result<(), Error> {
        *text = text.to_uppercase();
        Ok(())
    }
}

struct Refuse;

impl WikilinkHandler for Refuse {
    fn run(&self, _text: &mut String, ctx: &WikilinkContext) -> Result<(), Error> {
        Err(Error::InvalidArcDestination(ctx.text.to_owned()))
    }
}

fn sample_notes() -> Vec<Note> {
    vec![note("a.md", "Link to [[b]] and [[Missing]]."), note("dir/b.md", "Back to [[a]].")]
}

#[test]
fn default_handlers_write_commonmark_links() {
    let b = VaultBuilder::default();
    assert_eq!(b.handlers().len(), 1);
    let v = Vault::from_notes_with("root".to_owned(), sample_notes(), b.handlers()).ok().unwrap();
    let w = sample();
    assert_eq!(by_title(&v, "a").content, by_title(&w, "a").content);
    assert_eq!(by_title(&v, "b").content, by_title(&w, "b").content);
}

#[test]
fn handlers_run_in_order_and_arcs_stay() {
    let mut b = VaultBuilder::default();
    b.add_wikilink_handler(Box::new(Shout));
    assert_eq!(b.handlers().len(), 2);
    let v = Vault::from_notes_with("root".to_owned(), sample_notes(), b.handlers()).ok().unwrap();
    assert_eq!(by_title(&v, "a").content, "Link to [B](DIR/B.MD) and MISSING.");
    let a = by_title(&v, "a").id;
    let bid = by_title(&v, "b").id;
    assert_eq!(v.outgoing_arcs(&a), vec![bid]);
    let none = VaultBuilder::default().wikilink_handlers(vec![]);
    let v = Vault::from_notes_with("root".to_owned(), sample_notes(), none.handlers()).ok().unwrap();
    assert_eq!(by_title(&v, "a").content, "Link to b and Missing.");
    assert_eq!(v.outgoing_arcs(&a), vec![bid]);
}

#[test]
fn a_failing_handler_stops_the_build() {
    let refuse = VaultBuilder::default().wikilink_handlers(vec![Box::new(Refuse)]);
    match Vault::from_notes_with("root".to_owned(), sample_notes(), refuse.handlers()) {
        Err(Error::InvalidArcDestination(t)) => assert_eq!(t, "b"),
        _ => panic!("the handler's error is returned"),
    }
}

#[test]
fn notes_can_be_changed_in_place() {
    let mut v = sample();
    let a = by_title(&v, "a").id;
    v.get_mut(&a).unwrap().title = "renamed".to_owned();
    assert_eq!(v.get(&a).unwrap().title, "renamed");
    assert_eq!(v.len(), 2);
    assert!(v.get_mut(&NoteId(12345)).is_none());
}

#[test]
fn commonmark_handler_rewrites_links_to_notes() {
    let v = sample();
    let a = by_title(&v, "a");
    let b = by_title(&v, "b");
    let mut text = "b".to_owned();
    let ctx = WikilinkContext { text: "b", source: a, destination: Some(b), alias: None, anchor: Anchor::Absent };
    assert!(CommonMarkHandler.run(&mut text, &ctx).is_ok());
    assert_eq!(text, "[b](dir/b.md)");
    let mut other = "x".to_owned();
    let none = WikilinkContext::new("x", a);
    assert!(CommonMarkHandler.run(&mut other, &none).is_ok());
    assert_eq!(other, "x");
}

#[test]
fn arcs_name_each_note_once() {
    let v = Vault::from_notes(
        "root".to_owned(),
        vec![
            note("a.md", "[[b]] then [[b]] again, and [[c]]."),
            note("b.md", "[[a]]"),
            note("c.md", "[[a]] [[a]]"),
        ],
    );
    let a = by_title(&v, "a").id;
    let b = by_title(&v, "b").id;
    let c = by_title(&v, "c").id;
    let out = v.outgoing_arcs(&a);
    assert_eq!(out.len(), 2);
    assert!(out.contains(&b) && out.contains(&c));
    let inc = v.incoming_arcs(&a);
    assert_eq!(inc.len(), 2);
    assert!(inc.contains(&b) && inc.contains(&c));
    assert_eq!(v.incoming_arcs(&b), vec![a]);
    assert_eq!(v.incoming_arcs(&c), vec![a]);
}

#[test]
fn arcs_hold_the_ranges_of_their_links() {
    let v = sample();
    let a = by_title(&v, "a");
    let b = by_title(&v, "b").id;
    let (_, arc) = a.adjacencies.iter().find(|(id, _)| *id == b).unwrap();
    match arc {
        Arc::Connected(ranges) => {
            assert_eq!(ranges.len(), 1);
            assert_eq!(&a.original_content[ranges[0].clone()], "]");
            assert_eq!(ranges[0], 12..13);
        }
        Arc::NotConnected => panic!("a links to b"),
    }
    let (_, self_arc) = a.adjacencies.iter().find(|(id, _)| *id == a.id).unwrap();
    assert_eq!(*self_arc, Arc::NotConnected);
}

#[test]
fn titles_and_paths_look_up_ids() {
    let v = sample();
    let b = by_title(&v, "b").id;
    assert_eq!(v.id_of("b"), Some(b));
    assert_eq!(v.id_of("dir/b.md"), Some(b));
    assert_eq!(v.id_of("zzz"), None);
}

#[test]
fn later_notes_with_a_title_win() {
    let v = Vault::from_notes(
        "r".to_owned(),
        vec![note("x/same.md", "one"), note("y/same.md", "two"), note("c.md", "[[same]]")],
    );
    let second = v.id_of("y/same.md").unwrap();
    assert_eq!(v.id_of("same"), Some(second));
    assert_eq!(by_title(&v, "c").content, "[same](y/same.md)");
}

#[test]
fn note_ids_hash_paths() {
    assert_eq!(NoteId::from_path("a.md"), NoteId::from_path("a.md"));
    assert_ne!(NoteId::from_path("a.md"), NoteId::from_path("b.md"));
    assert_eq!(NoteId::from("a"), NoteId::from("a"));
    assert_eq!(NoteId(255).to_hex(), "ff");
    assert_eq!(NoteId(0).to_hex(), "0");
}

fn fnv_of_std_path(p: &str) -> u64 {
    let mut hasher = fnv::FnvHasher::default();
    std::hash::Hash::hash(std::path::Path::new(p), &mut hasher);
    std::hash::Hasher::finish(&hasher)
}

#[test]
fn note_ids_hash_the_component_bytes_and_their_lengths() {
    assert_eq!(NoteId::from_path("").0, 0xa8c7f832281a39c5);
    assert_eq!(NoteId::from_path("a").0, 0xbfe4988f2353894c);
    assert_eq!(NoteId::from_path("dir/b.md").0, 0x2120bb308b84632c);
    assert_eq!(NoteId::from_path("./a/./b/").0, 0xb0a534b8fb1ba232);
    assert_eq!(NoteId::from_path("a//b").0, 0xd487050beafdd19a);
    assert_eq!(NoteId::from_path("a//b"), NoteId::from_path("a/b"));
    assert_ne!(NoteId::from_path("a/b"), NoteId::from_path("ab"));
    assert_ne!(NoteId::from_path("a/b").0, NoteId::from_path("a\\b").0);
}

#[test]
fn note_ids_match_fnv_over_std_unix_paths() {
    for p in ["", "a", "dir/b.md", "./a/./b/", "a//b", "/abs/x.md", "a/.", "a/./.b", "é/ü.md", "../up.md"] {
        assert_eq!(NoteId::from_path(p).0, fnv_of_std_path(p), "{}", p);
    }
}

#[test]
fn arcs_and_edges_gather_ranges() {
    let mut arc = Arc::NotConnected;
    arc.push_link_range(1..2);
    arc.push_link_range(5..6);
    assert_eq!(arc, Arc::Connected(vec![1..2, 5..6]));
    let mut edge = Edge::NotConnected;
    edge.push_link_range(3..4);
    assert_eq!(edge, Edge::Connected(vec![3..4]));
}

#[test]
fn only_linked_notes_must_reach_each_other() {
    assert!(linked_notes_are_linkable(&vec![note("a.md", "[[b]]"), note("dir/b.md", "")]));
    assert!(linked_notes_are_linkable(&vec![note("a.md", "no links"), note("/abs/b.md", "")]));
    assert!(!linked_notes_are_linkable(&vec![note("a.md", ""), note("/abs/b.md", "see [[a]]")]));
    let v = Vault::from_notes(
        "root".to_owned(),
        vec![note("a.md", "no links"), note("/abs/b.md", "")],
    );
    assert_eq!(v.len(), 2);
}

#[test]
fn notes_must_reach_each_other_by_relative_paths() {
    assert!(notes_linkable(&vec![note("a.md", ""), note("dir/b.md", "")]));
    assert!(!notes_linkable(&vec![note("a.md", ""), note("/abs/b.md", "")]));
}
